//! The lookup database: one table of records for each address family.

use crate::builder::{
    all_accepted, from_reader, loaded_records, ranges_of, ranges_ordered, refused_with,
    source_lines,
};
use crate::code::{code_pair, code_to_str, ShortCountryCode};
use crate::error::Error;
use crate::record::{Asn, Span};
use crate::table::{
    covering_code, lemma_looked_up_is_covering, looked_up, lookup_num, spans,
    strictly_increasing,
};
use vstd::prelude::*;
use vstd::utf8::*;

verus! {

/// The two address families.
#[derive(Clone, Copy, Debug, PartialEq, Eq)]
pub enum Family {
    V4,
    V6,
}

/// An address of either family, as its number in network byte order.
#[derive(Clone, Copy, Debug, PartialEq, Eq)]
pub enum IpAddress {
    V4(u32),
    V6(u128),
}

impl IpAddress {
    /// The family of the address.
    pub open spec fn family(self) -> Family {
        match self {
            IpAddress::V4(_) => Family::V4,
            IpAddress::V6(_) => Family::V6,
        }
    }

    /// The address as a natural number.
    pub open spec fn value(self) -> nat {
        match self {
            IpAddress::V4(ip) => ip as nat,
            IpAddress::V6(ip) => ip as nat,
        }
    }
}

/// The greatest address of a family.
pub open spec fn family_limit(family: Family) -> nat {
    match family {
        Family::V4 => u32::MAX as nat,
        Family::V6 => u128::MAX as nat,
    }
}

/// Stores two lookup tables, one for IPv4 and one for IPv6. A table is
/// replaced as a whole by a load and never changed otherwise.
pub struct AsnDB {
    ip_db_v4: Vec<Asn<u32>>,
    ip_db_v6: Vec<Asn<u128>>,
}

impl Default for AsnDB {
    fn default() -> (db: Self)
        ensures
            db.ipv4_records() == Seq::<Span>::empty(),
            db.ipv6_records() == Seq::<Span>::empty(),
            db.well_formed(),
    {
        let db = AsnDB { ip_db_v4: Vec::new(), ip_db_v6: Vec::new() };
        db
    }
}

impl AsnDB {
    /// What the IPv4 table holds.
    pub closed spec fn ipv4_records(&self) -> Seq<Span> {
        spans(self.ip_db_v4@)
    }

    /// What the IPv6 table holds.
    pub closed spec fn ipv6_records(&self) -> Seq<Span> {
        spans(self.ip_db_v6@)
    }

    /// What the table of the given family holds.
    pub open spec fn records(&self, family: Family) -> Seq<Span> {
        match family {
            Family::V4 => self.ipv4_records(),
            Family::V6 => self.ipv6_records(),
        }
    }

    /// Whether both tables are ordered: their records start at strictly
    /// increasing addresses.
    pub open spec fn well_formed(&self) -> bool {
        strictly_increasing(self.ipv4_records()) && strictly_increasing(self.ipv6_records())
    }

    /// The number of records in the IPv4 table.
    pub fn len_ipv4(&self) -> (n: usize)
        ensures
            n == self.ipv4_records().len(),
    {
        self.ip_db_v4.len()
    }

    /// The number of records in the IPv6 table.
    pub fn len_ipv6(&self) -> (n: usize)
        ensures
            n == self.ipv6_records().len(),
    {
        self.ip_db_v6.len()
    }

    /// Replaces the IPv4 table by the records of a source of the form
    /// `start,end,code`, one range per line.
    ///
    /// Succeeds exactly when every line is accepted; the IPv6 table stays as it
    /// was. Otherwise the error names the first line that is not accepted. Where
    /// the ranges of the source are in order, the new table is ordered.
    pub fn load_ipv4_from_reader(self, source: &[u8]) -> (r: Result<Self, Error>)
        ensures
            r is Ok <==> all_accepted(source_lines(source@), u32::MAX as nat),
            r matches Ok(db) ==> db.ipv4_records() == loaded_records(source@, u32::MAX as nat)
                && db.ipv6_records() == self.ipv6_records(),
            r matches Err(e) ==> refused_with(source@, u32::MAX as nat, e),
            r matches Ok(db) ==> (ranges_ordered(ranges_of(source_lines(source@), u32::MAX as nat))
                ==> strictly_increasing(db.ipv4_records()) && (self.well_formed()
                ==> db.well_formed())),
    {
        match from_reader::<u32>(source) {
            Ok(entries) => Ok(AsnDB { ip_db_v4: entries, ip_db_v6: self.ip_db_v6 }),
            Err(e) => Err(e),
        }
    }

    /// Replaces the IPv6 table by the records of a source of the form
    /// `start,end,code`, one range per line.
    ///
    /// Succeeds exactly when every line is accepted; the IPv4 table stays as it
    /// was. Otherwise the error names the first line that is not accepted. Where
    /// the ranges of the source are in order, the new table is ordered.
    pub fn load_ipv6_from_reader(self, source: &[u8]) -> (r: Result<Self, Error>)
        ensures
            r is Ok <==> all_accepted(source_lines(source@), u128::MAX as nat),
            r matches Ok(db) ==> db.ipv6_records() == loaded_records(source@, u128::MAX as nat)
                && db.ipv4_records() == self.ipv4_records(),
            r matches Err(e) ==> refused_with(source@, u128::MAX as nat, e),
            r matches Ok(db) ==> (ranges_ordered(ranges_of(source_lines(source@), u128::MAX as nat))
                ==> strictly_increasing(db.ipv6_records()) && (self.well_formed()
                ==> db.well_formed())),
    {
        match from_reader::<u128>(source) {
            Ok(entries) => Ok(AsnDB { ip_db_v4: self.ip_db_v4, ip_db_v6: entries }),
            Err(e) => Err(e),
        }
    }

    /// Replaces the table of the given family by the records of a source,
    /// and leaves the other table as it was.
    pub fn load(self, family: Family, source: &[u8]) -> (r: Result<Self, Error>)
        ensures
            r is Ok <==> all_accepted(source_lines(source@), family_limit(family)),
            r matches Ok(db) ==> db.records(family) == loaded_records(
                source@,
                family_limit(family),
            ) && match family {
                Family::V4 => db.ipv6_records() == self.ipv6_records(),
                Family::V6 => db.ipv4_records() == self.ipv4_records(),
            },
            r matches Err(e) ==> refused_with(source@, family_limit(family), e),
            r matches Ok(db) ==> (ranges_ordered(
                ranges_of(source_lines(source@), family_limit(family)),
            ) ==> strictly_increasing(db.records(family)) && (self.well_formed()
                ==> db.well_formed())),
    {
        match family {
            Family::V4 => self.load_ipv4_from_reader(source),
            Family::V6 => self.load_ipv6_from_reader(source),
        }
    }

    /// Looks an IPv4 address up.
    ///
    /// No code on an empty table and below the first record; the last
    /// record's code at and above the last record's start in an ordered
    /// table; in between, the code of the last record that starts at or
    /// below the address, which is no code where that record marks a gap.
    pub fn lookup_ipv4(&self, ip: u32) -> (r: Option<ShortCountryCode>)
        ensures
            code_pair(r) == looked_up(self.ipv4_records(), ip as nat),
            strictly_increasing(self.ipv4_records()) ==> code_pair(r) == covering_code(
                self.ipv4_records(),
                ip as nat,
            ),
            self.ipv4_records().len() > 0 && ip < self.ipv4_records()[0].start ==> r is None,
            strictly_increasing(self.ipv4_records()) && self.ipv4_records().len() > 0 && ip
                >= self.ipv4_records().last().start ==> code_pair(r) == self.ipv4_records().last().code,
    {
        proof {
            if strictly_increasing(self.ipv4_records()) && self.ipv4_records().len() > 0 {
                lemma_looked_up_is_covering(self.ipv4_records(), ip as nat);
            }
        }
        lookup_num::<u32>(self.ip_db_v4.as_slice(), ip)
    }

    /// Looks an IPv6 address up, as `lookup_ipv4` does for IPv4.
    pub fn lookup_ipv6(&self, ip: u128) -> (r: Option<ShortCountryCode>)
        ensures
            code_pair(r) == looked_up(self.ipv6_records(), ip as nat),
            strictly_increasing(self.ipv6_records()) ==> code_pair(r) == covering_code(
                self.ipv6_records(),
                ip as nat,
            ),
            self.ipv6_records().len() > 0 && ip < self.ipv6_records()[0].start ==> r is None,
            strictly_increasing(self.ipv6_records()) && self.ipv6_records().len() > 0 && ip
                >= self.ipv6_records().last().start ==> code_pair(r) == self.ipv6_records().last().code,
    {
        proof {
            if strictly_increasing(self.ipv6_records()) && self.ipv6_records().len() > 0 {
                lemma_looked_up_is_covering(self.ipv6_records(), ip as nat);
            }
        }
        lookup_num::<u128>(self.ip_db_v6.as_slice(), ip)
    }

    /// Looks an address up in the table of its family.
    pub fn lookup(&self, ip: IpAddress) -> (r: Option<ShortCountryCode>)
        ensures
            code_pair(r) == looked_up(self.records(ip.family()), ip.value()),
            strictly_increasing(self.records(ip.family())) ==> code_pair(r) == covering_code(
                self.records(ip.family()),
                ip.value(),
            ),
    {
        match ip {
            IpAddress::V4(ip) => self.lookup_ipv4(ip),
            IpAddress::V6(ip) => self.lookup_ipv6(ip),
        }
    }

    /// Looks an address up and renders the code as a string.
    ///
    /// Gives a string exactly when the lookup gives a code whose two bytes
    /// are valid UTF-8, as two ASCII bytes always are; the string then holds
    /// what the bytes decode to.
    pub fn lookup_str(&self, ip: IpAddress) -> (r: Option<String>)
        ensures
            match looked_up(self.records(ip.family()), ip.value()) {
                Some(c) => {
                    &&& r is Some <==> valid_utf8(seq![c.0, c.1])
                    &&& r is Some ==> r.unwrap()@ == decode_utf8(seq![c.0, c.1])
                    &&& c.0 < 128 && c.1 < 128 ==> r is Some && r.unwrap()@ == seq![
                        c.0 as char,
                        c.1 as char,
                    ]
                },
                None => r is None,
            },
    {
        match self.lookup(ip) {
            Some(code) => {
                assert(code@ =~= seq![code[0], code[1]]);
                code_to_str(code)
            },
            None => None,
        }
    }
}

} // verus!
