//! The range table and its lookup.

use crate::address::Address;
use crate::code::{code_pair, ShortCountryCode};
use crate::record::{Asn, Span};
use vstd::prelude::*;

verus! {

/// What the records of a table say, in their order.
pub open spec fn spans<T: Address>(entries: Seq<Asn<T>>) -> Seq<Span> {
    Seq::new(entries.len(), |i: int| entries[i]@)
}

/// Whether the records start at strictly increasing addresses.
pub open spec fn strictly_increasing(s: Seq<Span>) -> bool {
    forall|i: int, j: int| 0 <= i < j < s.len() ==> s[i].start < s[j].start
}

/// The code of the last record that starts at or below `ip`; no code where
/// every record starts above it.
pub open spec fn covering_code(s: Seq<Span>, ip: nat) -> Option<(u8, u8)>
    decreases s.len(),
{
    if s.len() == 0 {
        None
    } else if s.last().start <= ip {
        s.last().code
    } else {
        covering_code(s.drop_last(), ip)
    }
}

/// The index at which halving the interval from `min` to `max` ends: at each
/// step the lower bound moves up to the midpoint where the record there
/// starts at or below `ip`, and the upper bound moves down to it otherwise.
pub open spec fn bisect(s: Seq<Span>, ip: nat, min: int, max: int) -> int
    decreases max - min,
{
    if max <= min + 1 {
        min
    } else {
        let middle = min + (max - min) / 2;
        if ip >= s[middle].start {
            bisect(s, ip, middle, max)
        } else {
            bisect(s, ip, min, middle)
        }
    }
}

/// The number of records that halving the interval from `min` to `max`
/// compares the address with.
pub open spec fn comparisons(s: Seq<Span>, ip: nat, min: int, max: int) -> nat
    decreases max - min,
{
    if max <= min + 1 {
        0
    } else {
        let middle = min + (max - min) / 2;
        if ip >= s[middle].start {
            1 + comparisons(s, ip, middle, max)
        } else {
            1 + comparisons(s, ip, min, middle)
        }
    }
}

/// The number of times an interval of the given width can be halved, the
/// greater half taken each time, until one record is left.
pub open spec fn halvings(width: nat) -> nat
    decreases width,
{
    if width <= 1 {
        0
    } else {
        1 + halvings((width - width / 2) as nat)
    }
}

/// Two to the power of `k`.
pub open spec fn power_of_two(k: nat) -> nat
    decreases k,
{
    if k == 0 {
        1
    } else {
        2 * power_of_two((k - 1) as nat)
    }
}

/// A wider interval is not halved fewer times.
pub proof fn lemma_halvings_monotone(a: nat, b: nat)
    requires
        a <= b,
    ensures
        halvings(a) <= halvings(b),
    decreases b,
{
    if a > 1 {
        lemma_halvings_monotone((a - a / 2) as nat, (b - b / 2) as nat);
    }
}

/// An interval of at most two to the power of `k` records is halved at most
/// `k` times.
pub proof fn lemma_halvings_logarithmic(width: nat, k: nat)
    requires
        width <= power_of_two(k),
    ensures
        halvings(width) <= k,
    decreases k,
{
    if width > 1 {
        lemma_halvings_logarithmic((width - width / 2) as nat, (k - 1) as nat);
    }
}

/// Halving an interval compares the address with no more records than the
/// interval can be halved times.
pub proof fn lemma_comparisons_bounded(s: Seq<Span>, ip: nat, min: int, max: int)
    requires
        min < max,
    ensures
        comparisons(s, ip, min, max) <= halvings((max - min) as nat),
    decreases max - min,
{
    if max > min + 1 {
        let width = (max - min) as nat;
        let middle = min + (max - min) / 2;
        if ip >= s[middle].start {
            lemma_comparisons_bounded(s, ip, middle, max);
        } else {
            lemma_comparisons_bounded(s, ip, min, middle);
            lemma_halvings_monotone((middle - min) as nat, (width - width / 2) as nat);
        }
    }
}

/// What a lookup answers on any table, ordered or not.
pub open spec fn looked_up(s: Seq<Span>, ip: nat) -> Option<(u8, u8)> {
    if s.len() == 0 {
        None
    } else if ip < s[0].start {
        None
    } else if ip > s.last().start {
        s.last().code
    } else {
        s[bisect(s, ip, 0, s.len() as int)].code
    }
}

/// Halving stays inside the interval it was given.
pub proof fn lemma_bisect_bounds(s: Seq<Span>, ip: nat, min: int, max: int)
    requires
        min < max,
    ensures
        min <= bisect(s, ip, min, max) < max,
    decreases max - min,
{
    if max > min + 1 {
        let middle = min + (max - min) / 2;
        if ip >= s[middle].start {
            lemma_bisect_bounds(s, ip, middle, max);
        } else {
            lemma_bisect_bounds(s, ip, min, middle);
        }
    }
}

/// On an ordered table, halving an interval whose first record starts at or
/// below `ip`, and behind which the next record starts above it, ends at the
/// record that covers `ip`.
pub proof fn lemma_bisect_finds(s: Seq<Span>, ip: nat, min: int, max: int)
    requires
        strictly_increasing(s),
        0 <= min < max <= s.len(),
        s[min].start <= ip,
        max < s.len() ==> ip < s[max].start,
    ensures
        ({
            let i = bisect(s, ip, min, max);
            &&& min <= i < max
            &&& s[i].start <= ip
            &&& i + 1 < s.len() ==> ip < s[i + 1].start
        }),
    decreases max - min,
{
    if max > min + 1 {
        let middle = min + (max - min) / 2;
        if ip >= s[middle].start {
            lemma_bisect_finds(s, ip, middle, max);
        } else {
            lemma_bisect_finds(s, ip, min, middle);
        }
    }
}

/// On an ordered table the covering code is that of the record at `i`,
/// where that record starts at or below `ip` and the next one above it.
pub proof fn lemma_covering_at(s: Seq<Span>, ip: nat, i: int)
    requires
        strictly_increasing(s),
        0 <= i < s.len(),
        s[i].start <= ip,
        i + 1 < s.len() ==> ip < s[i + 1].start,
    ensures
        covering_code(s, ip) == s[i].code,
    decreases s.len(),
{
    if i + 1 < s.len() {
        lemma_covering_at(s.drop_last(), ip, i);
    }
}

/// No record covers an address below the first record of an ordered table.
pub proof fn lemma_covering_below(s: Seq<Span>, ip: nat)
    requires
        strictly_increasing(s),
        s.len() > 0,
        ip < s[0].start,
    ensures
        covering_code(s, ip) is None,
    decreases s.len(),
{
    if s.len() > 1 {
        lemma_covering_below(s.drop_last(), ip);
    } else {
        assert(covering_code(s.drop_last(), ip) is None);
    }
}

/// On an ordered table a lookup answers with the covering code.
pub proof fn lemma_looked_up_is_covering(s: Seq<Span>, ip: nat)
    requires
        strictly_increasing(s),
    ensures
        looked_up(s, ip) == covering_code(s, ip),
{
    if s.len() > 0 {
        if ip < s[0].start {
            lemma_covering_below(s, ip);
        } else if ip <= s.last().start {
            lemma_bisect_finds(s, ip, 0, s.len() as int);
            lemma_covering_at(s, ip, bisect(s, ip, 0, s.len() as int));
        }
    }
}

/// Looks an address up in the records of one family.
///
/// Answers with no code on an empty table and for an address below the first
/// record, else with the last record's code for an address above the last
/// record's start, and otherwise with the code of the record at which
/// halving ends. On a table whose records start at strictly increasing
/// addresses that is the code of the last record that starts at or below the
/// address.
pub fn lookup_num<T: Address>(entries: &[Asn<T>], ip: T) -> (r: Option<ShortCountryCode>)
    ensures
        code_pair(r) == looked_up(spans(entries@), ip.value()),
        entries@.len() == 0 ==> r is None,
        entries@.len() > 0 && ip.value() < entries@[0].start.value() ==> r is None,
        entries@.len() > 0 && entries@[0].start.value() <= ip.value()
            > entries@.last().start.value() ==> r == entries@.last().code,
        strictly_increasing(spans(entries@)) ==> code_pair(r) == covering_code(
            spans(entries@),
            ip.value(),
        ),
{
    proof {
        if strictly_increasing(spans(entries@)) {
            lemma_looked_up_is_covering(spans(entries@), ip.value());
        }
    }
    if entries.is_empty() {
        return None;
    }
    let len: usize = entries.len();
    let first: T = entries[0].start;
    let last: T = entries[len - 1].start;
    let wide: u128 = ip.widen();
    if wide < first.widen() {
        return None;
    } else if wide > last.widen() {
        return entries[len - 1].code;
    }
    recursive_search_num(entries, ip, 0, len).0
}

/// Halves the interval from `min` to `max` until one record is left, and
/// answers with that record's code. The ghost number beside it counts the
/// records that the address was compared with on the way.
pub(crate) fn recursive_search_num<T: Address>(
    entries: &[Asn<T>],
    ip: T,
    min: usize,
    max: usize,
) -> (r: (Option<ShortCountryCode>, Ghost<nat>))
    requires
        min < max <= entries@.len(),
    ensures
        r.0 == entries@[bisect(spans(entries@), ip.value(), min as int, max as int)].code,
        min <= bisect(spans(entries@), ip.value(), min as int, max as int) < max,
        r.1@ == comparisons(spans(entries@), ip.value(), min as int, max as int),
        r.1@ <= halvings((max - min) as nat),
    decreases max - min,
{
    proof {
        lemma_bisect_bounds(spans(entries@), ip.value(), min as int, max as int);
        lemma_comparisons_bounded(spans(entries@), ip.value(), min as int, max as int);
    }
    if max == min + 1 {
        return (entries[min].code, Ghost(0));
    }
    let middle: usize = min + ((max - min) / 2);
    let mid_value: T = entries[middle].start;
    let (code, Ghost(rest)) = if ip.widen() >= mid_value.widen() {
        recursive_search_num(entries, ip, middle, max)
    } else {
        recursive_search_num(entries, ip, min, middle)
    };
    (code, Ghost(rest + 1))
}

} // verus!
