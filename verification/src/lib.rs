//! Maps an IP address to a two-letter country code through an in-memory table
//! of sorted address ranges.
//!
//! A table is built once from comma-separated text (`start,end,code`, one range
//! per line) and then answers point lookups by binary search.

pub mod address;
pub mod builder;
pub mod code;
pub mod db;
pub mod decimal;
pub mod error;
pub mod laws;
pub mod record;
pub mod table;

pub use crate::address::Address;
pub use crate::code::ShortCountryCode;
pub use crate::db::{AsnDB, Family, IpAddress};
pub use crate::error::Error;
pub use crate::record::Asn;
