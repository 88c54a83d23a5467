//! What holds of every table and of every lookup.

use crate::builder::{lemma_records_ordered, loaded_records, ranges_ordered, records_of};
use crate::db::{family_limit, AsnDB, Family};
use crate::record::{InputRange, Span};
use crate::table::{
    comparisons, covering_code, lemma_comparisons_bounded, lemma_halvings_logarithmic,
    lemma_looked_up_is_covering, looked_up, power_of_two, strictly_increasing,
};
use vstd::prelude::*;

verus! {

/// The search through a table of at most two to the power of `k` records
/// compares the address with at most `k` of them.
pub proof fn lemma_search_is_logarithmic(s: Seq<Span>, ip: nat, k: nat)
    requires
        0 < s.len() <= power_of_two(k),
    ensures
        comparisons(s, ip, 0, s.len() as int) <= k,
{
    lemma_comparisons_bounded(s, ip, 0, s.len() as int);
    lemma_halvings_logarithmic(s.len(), k);
}

/// An address below the first record's start has no code, on every table
/// that is not empty.
pub proof fn lemma_below_first_no_code(s: Seq<Span>, ip: nat)
    requires
        s.len() > 0,
        ip < s[0].start,
    ensures
        looked_up(s, ip) is None,
{
}

/// An address at or above the last record's start has the last record's
/// code, on every ordered table that is not empty: the table is open at its
/// upper end.
pub proof fn lemma_from_last_start_last_code(s: Seq<Span>, ip: nat)
    requires
        strictly_increasing(s),
        s.len() > 0,
        ip >= s.last().start,
    ensures
        looked_up(s, ip) == s.last().code,
{
    lemma_looked_up_is_covering(s, ip);
}

/// The covering code after one more record: that record's code where it
/// starts at or below the address, and the covering code before it otherwise.
pub proof fn lemma_covering_push(s: Seq<Span>, x: Span, ip: nat)
    ensures
        covering_code(s.push(x), ip) == if x.start <= ip {
            x.code
        } else {
            covering_code(s, ip)
        },
{
    assert(s.push(x).drop_last() =~= s);
}

/// The covering code in the records of ordered ranges: the code of the range
/// that holds the address; no code between two ranges and below the first;
/// the last range's code above its end.
pub proof fn lemma_covering_of_ranges(ranges: Seq<InputRange>, ip: nat)
    requires
        ranges_ordered(ranges),
    ensures
        forall|i: int|
            0 <= i < ranges.len() && (#[trigger] ranges[i]).start <= ip <= ranges[i].end
                ==> covering_code(records_of(ranges), ip) == Some(ranges[i].code),
        forall|i: int|
            0 <= i && i + 1 < ranges.len() && (#[trigger] ranges[i]).end < ip < ranges[i
                + 1].start ==> covering_code(records_of(ranges), ip) is None,
        ranges.len() > 0 && ip < ranges[0].start ==> covering_code(records_of(ranges), ip) is None,
        ranges.len() > 0 && ip > ranges.last().end ==> covering_code(records_of(ranges), ip)
            == Some(ranges.last().code),
    decreases ranges.len(),
{
    if ranges.len() > 0 {
        let n = ranges.len() - 1;
        let before = ranges.drop_last();
        let range = ranges.last();
        let entry = Span { start: range.start, code: Some(range.code) };
        let head = records_of(before);
        lemma_covering_of_ranges(before, ip);
        if n > 0 {
            let gap = Span { start: before.last().end + 1, code: None };
            if before.last().end + 1 != range.start {
                assert(records_of(ranges) =~= head.push(gap).push(entry));
                lemma_covering_push(head.push(gap), entry, ip);
                lemma_covering_push(head, gap, ip);
            } else {
                lemma_covering_push(head, entry, ip);
            }
            assert forall|i: int|
                0 <= i < ranges.len() && (#[trigger] ranges[i]).start <= ip
                    <= ranges[i].end implies covering_code(records_of(ranges), ip) == Some(
                ranges[i].code,
            ) by {
                if i < n {
                    assert(before[i] == ranges[i]);
                }
            }
            assert forall|i: int|
                0 <= i && i + 1 < ranges.len() && (#[trigger] ranges[i]).end < ip < ranges[i
                    + 1].start implies covering_code(records_of(ranges), ip) is None by {
                if i + 1 < n {
                    assert(before[i] == ranges[i]);
                }
            }
        } else {
            lemma_covering_push(head, entry, ip);
        }
    }
}

/// An address inside a range of an ordered input has that range's code.
pub proof fn lemma_lookup_inside_range(ranges: Seq<InputRange>, i: int, ip: nat)
    requires
        ranges_ordered(ranges),
        0 <= i < ranges.len(),
        ranges[i].start <= ip <= ranges[i].end,
    ensures
        looked_up(records_of(ranges), ip) == Some(ranges[i].code),
{
    lemma_records_ordered(ranges);
    lemma_looked_up_is_covering(records_of(ranges), ip);
    lemma_covering_of_ranges(ranges, ip);
}

/// Where a range does not end just below the start of the next one, the
/// records hold one without a code that starts just above its end.
pub proof fn lemma_gap_record_present(ranges: Seq<InputRange>, i: int)
    requires
        0 <= i,
        i + 1 < ranges.len(),
        ranges[i].end + 1 != ranges[i + 1].start,
    ensures
        records_of(ranges).contains(Span { start: ranges[i].end + 1, code: None }),
    decreases ranges.len(),
{
    let before = ranges.drop_last();
    let head = records_of(before);
    let all = records_of(ranges);
    let gap = Span { start: ranges[i].end + 1, code: None };
    if i + 2 == ranges.len() {
        assert(all[head.len() as int] == gap);
    } else {
        lemma_gap_record_present(before, i);
        let k = choose|k: int| 0 <= k < head.len() && head[k] == gap;
        assert(all[k] == gap);
    }
}

/// Between two neighbouring ranges of an ordered input that do not touch, a
/// record without a code covers the addresses that neither holds, and a
/// lookup of such an address gives no code.
pub proof fn lemma_gap_has_no_code(ranges: Seq<InputRange>, i: int, ip: nat)
    requires
        ranges_ordered(ranges),
        0 <= i,
        i + 1 < ranges.len(),
        ranges[i].end + 1 != ranges[i + 1].start,
        ranges[i].end < ip < ranges[i + 1].start,
    ensures
        records_of(ranges).contains(Span { start: ranges[i].end + 1, code: None }),
        looked_up(records_of(ranges), ip) is None,
{
    lemma_gap_record_present(ranges, i);
    lemma_records_ordered(ranges);
    lemma_looked_up_is_covering(records_of(ranges), ip);
    lemma_covering_of_ranges(ranges, ip);
}

/// Two databases that hold, for one family, the records that the same source
/// gives answer every lookup in that family alike: loading a source a second
/// time changes no answer.
pub proof fn lemma_reload_same_lookups(a: AsnDB, b: AsnDB, family: Family, src: Seq<u8>, ip: nat)
    requires
        a.records(family) == loaded_records(src, family_limit(family)),
        b.records(family) == loaded_records(src, family_limit(family)),
    ensures
        looked_up(a.records(family), ip) == looked_up(b.records(family), ip),
{
}

} // verus!
