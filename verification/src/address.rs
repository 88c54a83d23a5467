//! The integer types that hold the addresses of one family.

use vstd::prelude::*;

verus! {

/// An unsigned integer type wide enough for every address of one family.
///
/// The table and its builder are written once over this trait and used at
/// 32 bits for IPv4 and at 128 bits for IPv6.
pub trait Address: Copy + Sized {
    /// The address as a natural number.
    spec fn value(self) -> nat;

    /// The greatest address of the family.
    spec fn limit() -> nat;

    /// Every address lies within the family's limit.
    proof fn value_within_limit(self)
        ensures
            self.value() <= Self::limit(),
    ;

    /// The family's limit fits the widest integer that text is read into.
    proof fn limit_fits()
        ensures
            Self::limit() <= u128::MAX,
    ;

    /// The address in the widest unsigned type.
    fn widen(self) -> (wide: u128)
        ensures
            wide as nat == self.value(),
    ;

    /// The address with the given value, where the family has one.
    fn narrow(wide: u128) -> (r: Option<Self>)
        ensures
            r is Some <==> wide as nat <= Self::limit(),
            r is Some ==> r.unwrap().value() == wide as nat,
    ;
}

impl Address for u32 {
    open spec fn value(self) -> nat {
        self as nat
    }

    open spec fn limit() -> nat {
        u32::MAX as nat
    }

    proof fn value_within_limit(self) {
    }

    proof fn limit_fits() {
    }

    fn widen(self) -> (wide: u128) {
        self as u128
    }

    fn narrow(wide: u128) -> (r: Option<Self>) {
        if wide <= 0xffff_ffffu128 {
            Some(wide as u32)
        } else {
            None
        }
    }
}

impl Address for u128 {
    open spec fn value(self) -> nat {
        self as nat
    }

    open spec fn limit() -> nat {
        u128::MAX as nat
    }

    proof fn value_within_limit(self) {
    }

    proof fn limit_fits() {
    }

    fn widen(self) -> (wide: u128) {
        self
    }

    fn narrow(wide: u128) -> (r: Option<Self>) {
        Some(wide)
    }
}

} // verus!
