//! Builds the records of one family from the text of a source.

use crate::address::Address;
use crate::error::Error;
use crate::record::{find_byte, gap_before, index_of, parsed_line, Asn, InputRange, Span};
use crate::table::{spans, strictly_increasing};
use vstd::prelude::*;
use vstd::slice::slice_subrange;

verus! {

/// The byte that ends a line.
pub const NEWLINE: u8 = 10;

/// The byte that may stand before the one that ends a line.
pub const CARRIAGE_RETURN: u8 = 13;

/// The line without the carriage return that may end it.
pub open spec fn without_carriage_return(line: Seq<u8>) -> Seq<u8> {
    if line.len() > 0 && line.last() == CARRIAGE_RETURN {
        line.drop_last()
    } else {
        line
    }
}

/// The first line of a source that is not empty.
pub open spec fn first_line(src: Seq<u8>) -> Seq<u8> {
    let k = index_of(src, NEWLINE);
    if 0 <= k < src.len() {
        without_carriage_return(src.take(k))
    } else {
        src
    }
}

/// What follows the first line of a source that is not empty.
pub open spec fn after_first_line(src: Seq<u8>) -> Seq<u8> {
    let k = index_of(src, NEWLINE);
    if 0 <= k < src.len() {
        src.skip(k + 1)
    } else {
        Seq::empty()
    }
}

/// The lines of a source. Each newline ends a line, and a carriage return
/// just before it goes with it; what follows the last newline is a line of
/// its own unless it is empty.
pub open spec fn source_lines(src: Seq<u8>) -> Seq<Seq<u8>>
    decreases src.len(),
{
    if src.len() == 0 {
        seq![]
    } else {
        seq![first_line(src)] + source_lines(after_first_line(src))
    }
}

/// Whether line `i` is accepted: it is well formed, and the range on the line
/// before it does not end at the family's greatest address, after which no
/// record can start.
pub open spec fn line_accepted(lines: Seq<Seq<u8>>, i: int, limit: nat) -> bool {
    &&& parsed_line(lines[i], limit) is Some
    &&& i > 0 && parsed_line(lines[i - 1], limit) is Some ==> parsed_line(
        lines[i - 1],
        limit,
    ).unwrap().end < limit
}

/// Whether every line is accepted.
pub open spec fn all_accepted(lines: Seq<Seq<u8>>, limit: nat) -> bool {
    forall|i: int| 0 <= i < lines.len() ==> line_accepted(lines, i, limit)
}

/// Whether line `k` is the first that is not accepted.
pub open spec fn first_rejected(lines: Seq<Seq<u8>>, k: int, limit: nat) -> bool {
    &&& 0 <= k < lines.len()
    &&& !line_accepted(lines, k, limit)
    &&& forall|i: int| 0 <= i < k ==> line_accepted(lines, i, limit)
}

/// The ranges that the lines give, in their order.
pub open spec fn ranges_of(lines: Seq<Seq<u8>>, limit: nat) -> Seq<InputRange> {
    Seq::new(lines.len(), |i: int| parsed_line(lines[i], limit).unwrap())
}

/// The records that a run of ranges gives: one for each range, and before
/// it one without a code where the range before does not end just below it.
pub open spec fn records_of(ranges: Seq<InputRange>) -> Seq<Span>
    decreases ranges.len(),
{
    if ranges.len() == 0 {
        seq![]
    } else {
        let before = ranges.drop_last();
        let range = ranges.last();
        let last_end = if before.len() > 0 {
            Some(before.last().end)
        } else {
            None
        };
        let gap = match gap_before(last_end, range.start) {
            Some(g) => seq![g],
            None => seq![],
        };
        records_of(before) + gap + seq![Span { start: range.start, code: Some(range.code) }]
    }
}

/// Whether the ranges are in order: none ends before it starts, and each
/// starts above the end of every range before it.
pub open spec fn ranges_ordered(ranges: Seq<InputRange>) -> bool {
    &&& forall|i: int| 0 <= i < ranges.len() ==> (#[trigger] ranges[i]).start <= ranges[i].end
    &&& forall|i: int, j: int| 0 <= i < j < ranges.len() ==> ranges[i].end < ranges[j].start
}

/// The records of ordered ranges start at strictly increasing addresses, the
/// first where the first range starts and the last where the last range
/// starts.
pub proof fn lemma_records_ordered(ranges: Seq<InputRange>)
    requires
        ranges_ordered(ranges),
    ensures
        strictly_increasing(records_of(ranges)),
        ranges.len() > 0 ==> records_of(ranges).len() > 0 && records_of(ranges)[0].start
            == ranges[0].start && records_of(ranges).last().start == ranges.last().start,
        ranges.len() == 0 ==> records_of(ranges).len() == 0,
    decreases ranges.len(),
{
    if ranges.len() > 0 {
        lemma_records_ordered(ranges.drop_last());
    }
}

/// The records that a source gives for a family with the given greatest
/// address, where every line is accepted.
pub open spec fn loaded_records(src: Seq<u8>, limit: nat) -> Seq<Span> {
    records_of(ranges_of(source_lines(src), limit))
}

/// Whether `e` is the error that a source is refused with: it names the first
/// line that is not accepted, counting from 1.
pub open spec fn refused_with(src: Seq<u8>, limit: nat, e: Error) -> bool {
    e matches Error::MalformedInput { line } && first_rejected(
        source_lines(src),
        line - 1,
        limit,
    )
}

/// Cuts the first line off a source: the line, and what follows it. An
/// empty source has no line.
pub fn read_line<'a>(rest: &'a [u8]) -> (r: Option<(&'a [u8], &'a [u8])>)
    ensures
        r is Some <==> rest@.len() > 0,
        r matches Some((line, after)) ==> line@ == first_line(rest@) && after@
            == after_first_line(rest@) && after@.len() < rest@.len(),
{
    let n: usize = rest.len();
    if n == 0 {
        return None;
    }
    let k: usize = find_byte(rest, NEWLINE);
    if k < n {
        let after = slice_subrange(rest, k + 1, n);
        let raw = slice_subrange(rest, 0, k);
        if k > 0 && raw[k - 1] == CARRIAGE_RETURN {
            let line = slice_subrange(raw, 0, k - 1);
            Some((line, after))
        } else {
            Some((raw, after))
        }
    } else {
        let after = slice_subrange(rest, n, n);
        Some((rest, after))
    }
}

/// The records after one more range are those before it, the gap's record
/// where there is one, and the range's own.
pub proof fn lemma_records_step(ranges: Seq<InputRange>, n: int)
    requires
        0 <= n < ranges.len(),
    ensures
        records_of(ranges.take(n + 1)) == records_of(ranges.take(n)) + (match gap_before(
            if n > 0 {
                Some(ranges[n - 1].end)
            } else {
                None
            },
            ranges[n].start,
        ) {
            Some(g) => seq![g],
            None => seq![],
        }) + seq![Span { start: ranges[n].start, code: Some(ranges[n].code) }],
{
    assert(ranges.take(n + 1).drop_last() =~= ranges.take(n));
}

/// `Vec::shrink_to_fit`: gives back the room that the vector does not use and
/// leaves what it holds as it is.
#[verifier::external_body]
fn release_spare_room<T>(entries: &mut Vec<T>)
    ensures
        final(entries)@ == old(entries)@,
{
    entries.shrink_to_fit();
}

/// Builds the records of one family from the text of a source, one range per
/// line in the form `start,end,code`.
///
/// Succeeds exactly when every line is accepted, and the records are then those
/// of the ranges in their order, with a record without a code before each
/// range that does not begin just above the end of the one before. Otherwise
/// the error names the first line that is not accepted, and nothing is built.
pub fn from_reader<T: Address>(source: &[u8]) -> (r: Result<Vec<Asn<T>>, Error>)
    ensures
        r is Ok <==> all_accepted(source_lines(source@), T::limit()),
        r matches Ok(entries) ==> spans(entries@) == loaded_records(source@, T::limit()),
        r matches Err(e) ==> refused_with(source@, T::limit(), e),
        r matches Ok(entries) ==> (ranges_ordered(ranges_of(source_lines(source@), T::limit()))
            ==> strictly_increasing(spans(entries@))),
{
    let ghost lines = source_lines(source@);
    let ghost ranges = ranges_of(lines, T::limit());
    let mut entries: Vec<Asn<T>> = Vec::new();
    let mut last_end: Option<T> = None;
    let mut rest: &[u8] = source;
    let mut count: usize = 0;
    assert(source@.len() == source.len());
    loop
        invariant
            lines == source_lines(source@),
            ranges == ranges_of(lines, T::limit()),
            count <= lines.len(),
            count + rest@.len() <= source@.len() <= usize::MAX,
            source_lines(rest@) == lines.skip(count as int),
            forall|i: int| 0 <= i < count ==> line_accepted(lines, i, T::limit()),
            spans(entries@) == records_of(ranges.take(count as int)),
            count == 0 ==> last_end is None,
            count > 0 ==> last_end is Some && last_end.unwrap().value() == ranges[count - 1].end,
        ensures
            rest@.len() == 0,
        decreases rest@.len(),
    {
        let (line, after) = match read_line(rest) {
            Some(cut) => cut,
            None => { break; },
        };
        proof {
            let tail = lines.skip(count as int);
            assert(tail[0] == line@);
            assert(tail.skip(1) =~= lines.skip(count + 1));
            if count > 0 {
                assert(line_accepted(lines, count - 1, T::limit()));
            }
        }
        match Asn::<T>::from_bytes(line, last_end) {
            None => {
                assert(!line_accepted(lines, count as int, T::limit()));
                return Err(Error::MalformedInput { line: count + 1 });
            },
            Some((gap, entry, end)) => {
                proof {
                    lemma_records_step(ranges, count as int);
                }
                if let Some(gap) = gap {
                    entries.push(gap);
                }
                entries.push(entry);
                last_end = Some(end);
            },
        }
        rest = after;
        count = count + 1;
    }
    proof {
        assert(ranges.take(count as int) =~= ranges);
        if ranges_ordered(ranges) {
            lemma_records_ordered(ranges);
        }
    }
    release_spare_room(&mut entries);
    Ok(entries)
}

} // verus!
