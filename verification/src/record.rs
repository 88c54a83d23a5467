//! One line of the input and the records that it gives.

use crate::address::Address;
use crate::code::{ascii_byte, ShortCountryCode};
use crate::decimal::{parse_decimal, parsed_decimal};
use vstd::prelude::*;
use vstd::slice::slice_subrange;
use vstd::string::*;

verus! {

/// What a record says: from `start` on, up to the next record's start, `code`
/// applies. A record without a code marks addresses that no range covers.
pub ghost struct Span {
    pub start: nat,
    pub code: Option<(u8, u8)>,
}

/// What a well-formed line says: the addresses from `start` to `end`, both
/// included, belong to `code`.
pub ghost struct InputRange {
    pub start: nat,
    pub end: nat,
    pub code: (u8, u8),
}

/// A record of the table: the first address of a block, and the block's code.
pub struct Asn<T> {
    pub start: T,
    pub code: Option<ShortCountryCode>,
}

impl<T: Address> View for Asn<T> {
    type V = Span;

    open spec fn view(&self) -> Span {
        Span { start: self.start.value(), code: crate::code::code_pair(self.code) }
    }
}

/// The position of the first `b` in `s`, or the length of `s` where it holds
/// none.
pub open spec fn index_of(s: Seq<u8>, b: u8) -> int
    decreases s.len(),
{
    if s.len() == 0 || s[0] == b {
        0
    } else {
        1 + index_of(s.skip(1), b)
    }
}

/// `index_of` is the one position before which no `b` stands and at which
/// one does, or the sequence ends.
pub proof fn lemma_index_of(s: Seq<u8>, b: u8, k: int)
    requires
        0 <= k <= s.len(),
        forall|j: int| 0 <= j < k ==> s[j] != b,
        k < s.len() ==> s[k] == b,
    ensures
        index_of(s, b) == k,
    decreases k,
{
    if k > 0 {
        lemma_index_of(s.skip(1), b, k - 1);
    }
}

/// The comma that parts the fields of a line.
pub const COMMA: u8 = 44;

/// What the line says, where it is well formed: exactly three fields parted
/// by commas, of which the first two are decimal numbers of at most `limit`
/// and the third is two ASCII bytes.
pub open spec fn parsed_line(line: Seq<u8>, limit: nat) -> Option<InputRange> {
    let c1 = index_of(line, COMMA);
    let rest = line.skip(c1 + 1);
    let c2 = index_of(rest, COMMA);
    let code = rest.skip(c2 + 1);
    let start = parsed_decimal(line.take(c1), limit);
    let end = parsed_decimal(rest.take(c2), limit);
    if c1 < line.len() && c2 < rest.len() && start is Some && end is Some && code.len() == 2
        && code[0] < 128 && code[1] < 128 && code[0] != COMMA && code[1] != COMMA {
        Some(InputRange { start: start.unwrap(), end: end.unwrap(), code: (code[0], code[1]) })
    } else {
        None
    }
}

/// The record that marks the addresses between the end of one range and the
/// start of the next as unclassified, where the two ranges do not touch.
pub open spec fn gap_before(last_end: Option<nat>, start: nat) -> Option<Span> {
    match last_end {
        Some(e) => if e + 1 != start {
            Some(Span { start: e + 1, code: None })
        } else {
            None
        },
        None => None,
    }
}

/// The position of the first `b` in `s`, or the length of `s`.
pub fn find_byte(s: &[u8], b: u8) -> (k: usize)
    ensures
        k == index_of(s@, b),
        k <= s.len(),
{
    let n: usize = s.len();
    let mut k: usize = 0;
    while k < n && s[k] != b
        invariant
            n == s@.len(),
            0 <= k <= n,
            forall|j: int| 0 <= j < k ==> s@[j] != b,
        decreases n - k,
    {
        k = k + 1;
    }
    proof {
        lemma_index_of(s@, b, k as int);
    }
    k
}

/// Reads a decimal field as an address of the family.
pub fn parse_address<T: Address>(field: &[u8]) -> (r: Option<T>)
    ensures
        r is Some <==> parsed_decimal(field@, T::limit()) is Some,
        r is Some ==> r.unwrap().value() == parsed_decimal(field@, T::limit()).unwrap(),
{
    proof {
        T::limit_fits();
    }
    match parse_decimal(field) {
        Some(wide) => T::narrow(wide),
        None => None,
    }
}

/// The address that follows `a`, where the family has one.
pub fn successor<T: Address>(a: T) -> (r: Option<T>)
    ensures
        r is Some <==> a.value() < T::limit(),
        r is Some ==> r.unwrap().value() == a.value() + 1,
{
    proof {
        T::limit_fits();
        a.value_within_limit();
    }
    let wide: u128 = a.widen();
    if wide == u128::MAX {
        None
    } else {
        T::narrow(wide + 1)
    }
}

/// The value of the address that ended the line before, if there was one.
pub open spec fn end_value<T: Address>(last_end: Option<T>) -> Option<nat> {
    match last_end {
        Some(e) => Some(e.value()),
        None => None,
    }
}

impl<T: Address> Asn<T> {
    /// Reads one line of the input, given the end of the range on the line
    /// before it.
    ///
    /// Gives the record of the gap between the two ranges where they do not
    /// touch, the line's own record, and the end of its range. Gives nothing
    /// where the line is malformed, or where the range before it ended at the
    /// family's greatest address, after which no record can start.
    pub fn from_bytes(line: &[u8], last_end: Option<T>) -> (r: Option<(Option<Self>, Self, T)>)
        ensures
            r is Some <==> parsed_line(line@, T::limit()) is Some && (last_end is Some
                ==> last_end.unwrap().value() < T::limit()),
            r is Some ==> ({
                let range = parsed_line(line@, T::limit()).unwrap();
                let (gap, entry, end) = r.unwrap();
                &&& entry@ == Span { start: range.start, code: Some(range.code) }
                &&& end.value() == range.end
                &&& gap is Some <==> gap_before(end_value(last_end), range.start) is Some
                &&& gap is Some ==> gap.unwrap()@ == gap_before(
                    end_value(last_end),
                    range.start,
                ).unwrap()
            }),
    {
        let n: usize = line.len();
        let c1: usize = find_byte(line, COMMA);
        if c1 >= n {
            return None;
        }
        let rest = slice_subrange(line, c1 + 1, n);
        let c2: usize = find_byte(rest, COMMA);
        let m: usize = rest.len();
        if c2 >= m {
            return None;
        }
        let code_bytes = slice_subrange(rest, c2 + 1, m);
        let first = slice_subrange(line, 0, c1);
        let second = slice_subrange(rest, 0, c2);
        let start: T = match parse_address::<T>(first) {
            Some(start) => start,
            None => { return None; },
        };
        let end: T = match parse_address::<T>(second) {
            Some(end) => end,
            None => { return None; },
        };
        if code_bytes.len() != 2 {
            return None;
        }
        let b0: u8 = match ascii_byte(code_bytes[0]) {
            Some(b) => b,
            None => { return None; },
        };
        let b1: u8 = match ascii_byte(code_bytes[1]) {
            Some(b) => b,
            None => { return None; },
        };
        if b0 == COMMA || b1 == COMMA {
            return None;
        }
        let gap: Option<Self> = match last_end {
            Some(last) => {
                match successor(last) {
                    Some(next) => {
                        if next.widen() == start.widen() {
                            None
                        } else {
                            Some(Asn { start: next, code: None })
                        }
                    },
                    None => { return None; },
                }
            },
            None => None,
        };
        let code: ShortCountryCode = [b0, b1];
        Some((gap, Asn { start, code: Some(code) }, end))
    }

    /// Reads one line of the input as `from_bytes` does, from text.
    pub fn new(from: &str, last_end: Option<T>) -> (r: Option<(Option<Self>, Self, T)>)
        ensures
            r is Some <==> parsed_line(from.spec_bytes(), T::limit()) is Some && (last_end is Some
                ==> last_end.unwrap().value() < T::limit()),
            r is Some ==> ({
                let range = parsed_line(from.spec_bytes(), T::limit()).unwrap();
                let (gap, entry, end) = r.unwrap();
                &&& entry@ == Span { start: range.start, code: Some(range.code) }
                &&& end.value() == range.end
                &&& gap is Some <==> gap_before(end_value(last_end), range.start) is Some
                &&& gap is Some ==> gap.unwrap()@ == gap_before(
                    end_value(last_end),
                    range.start,
                ).unwrap()
            }),
    {
        Self::from_bytes(from.as_bytes(), last_end)
    }
}

} // verus!
