//! Why cutting a file into chunks loses no record: every record that one
//! reader finds from the start is found by one of the readers of the chunks.

use vstd::prelude::*;
use crate::read::{chunk_records, closes_array, lemma_line_end, line_end, record_len};

verus! {

/// The line that starts at `pos`.
pub open spec fn line_at(data: Seq<u8>, pos: int) -> Seq<u8> {
    data.subrange(pos, line_end(data, pos))
}

/// The record of the line that starts at `pos`.
pub open spec fn record_at(data: Seq<u8>, pos: int) -> Seq<u8> {
    line_at(data, pos).take(record_len(line_at(data, pos)))
}

/// Reading line after line from `pos` comes to read from `target`, and no
/// line on the way closes the array.
pub open spec fn reaches(data: Seq<u8>, pos: int, target: int) -> bool
    decreases data.len() - pos,
{
    if pos == target {
        true
    } else if 0 <= pos < target && pos < line_end(data, pos) <= data.len() && !closes_array(
        line_at(data, pos),
    ) {
        reaches(data, line_end(data, pos), target)
    } else {
        false
    }
}

/// A position within a line belongs to the same line: the line ends where
/// it ends for the position at which it starts.
proof fn lemma_same_line(data: Seq<u8>, a: int, b: int)
    requires
        0 <= a <= b < line_end(data, a),
        a < data.len(),
    ensures
        line_end(data, b) == line_end(data, a),
        b < data.len(),
    decreases b - a,
{
    lemma_line_end(data, a);
    if a < b {
        assert(data[a] != 10u8);
        lemma_same_line(data, a + 1, b);
    }
}

/// What is left of a line that does not close the array, from a position
/// within it, does not close the array either.
proof fn lemma_rest_of_line(data: Seq<u8>, a: int, b: int)
    requires
        0 <= a <= b < line_end(data, a),
        a < data.len(),
        !closes_array(line_at(data, a)),
    ensures
        !closes_array(line_at(data, b)),
{
    lemma_same_line(data, a, b);
    lemma_line_end(data, a);
    let whole = line_at(data, a);
    let rest = line_at(data, b);
    let end = line_end(data, a);
    if rest.len() >= 2 {
        assert(whole.len() >= 2);
        assert(rest[rest.len() - 2] == data[end - 2]);
        assert(rest[rest.len() - 1] == data[end - 1]);
        assert(whole[whole.len() - 2] == data[end - 2]);
        assert(whole[whole.len() - 1] == data[end - 1]);
    }
}

/// A reader that starts between the start of another and a line that the
/// other comes to read comes to read that line too.
pub proof fn lemma_reaches_from_between(data: Seq<u8>, a: int, b: int, target: int)
    requires
        reaches(data, a, target),
        0 <= a <= b <= target,
    ensures
        reaches(data, b, target),
    decreases data.len() - a,
{
    if a != target && b != target {
        let end = line_end(data, a);
        lemma_line_end(data, a);
        if b >= end {
            lemma_reaches_from_between(data, end, b, target);
        } else {
            lemma_same_line(data, a, b);
            lemma_rest_of_line(data, a, b);
            lemma_end_before_target(data, end, target);
        }
    }
}

/// A reader only comes to read what lies at or behind its start.
proof fn lemma_end_before_target(data: Seq<u8>, pos: int, target: int)
    requires
        reaches(data, pos, target),
    ensures
        pos <= target,
    decreases data.len() - pos,
{
    if pos != target {
    }
}

/// Every record that a reader yields is the record of a line that it came
/// to read, within its chunk.
pub proof fn lemma_record_has_line(data: Seq<u8>, pos: int, read: int, chunk_size: int, i: int)
    requires
        0 <= i < chunk_records(data, pos, read, chunk_size).len(),
    ensures
        exists|p: int|
            #![trigger record_at(data, p)]
            reaches(data, pos, p) && 0 <= p < data.len() && chunk_records(
                data,
                pos,
                read,
                chunk_size,
            )[i] == record_at(data, p),
    decreases data.len() - pos,
{
    let end = line_end(data, pos);
    lemma_line_end(data, pos);
    if i == 0 {
        assert(reaches(data, pos, pos));
        assert(chunk_records(data, pos, read, chunk_size)[0] == record_at(data, pos));
    } else {
        let rest = chunk_records(data, end, read + (end - pos), chunk_size);
        assert(chunk_records(data, pos, read, chunk_size) == seq![record_at(data, pos)] + rest);
        assert(chunk_records(data, pos, read, chunk_size)[i] == rest[i - 1]);
        lemma_record_has_line(data, end, read + (end - pos), chunk_size, i - 1);
        let p = choose|p: int|
            #![trigger record_at(data, p)]
            reaches(data, end, p) && 0 <= p < data.len() && rest[i - 1] == record_at(data, p);
        lemma_end_before_target(data, end, p);
        assert(reaches(data, pos, p));
    }
}

/// A reader yields the record of every line that it comes to read before
/// it has read more than its chunk.
pub proof fn lemma_line_has_record(data: Seq<u8>, pos: int, read: int, chunk_size: int, p: int)
    requires
        reaches(data, pos, p),
        0 <= pos,
        p < data.len(),
        read + (p - pos) <= chunk_size,
    ensures
        exists|j: int|
            0 <= j < chunk_records(data, pos, read, chunk_size).len() && #[trigger] chunk_records(
                data,
                pos,
                read,
                chunk_size,
            )[j] == record_at(data, p),
    decreases data.len() - pos,
{
    lemma_end_before_target(data, pos, p);
    lemma_line_end(data, pos);
    let all = chunk_records(data, pos, read, chunk_size);
    if pos == p {
        assert(all[0] == record_at(data, p));
    } else {
        let end = line_end(data, pos);
        let rest = chunk_records(data, end, read + (end - pos), chunk_size);
        lemma_end_before_target(data, end, p);
        lemma_line_has_record(data, end, read + (end - pos), chunk_size, p);
        let j = choose|j: int| 0 <= j < rest.len() && #[trigger] rest[j] == record_at(data, p);
        assert(all == seq![record_at(data, pos)] + rest);
        assert(all[j + 1] == rest[j]);
    }
}

/// The size of each of `n` chunks of a body of `body` bytes.
pub open spec fn share(body: int, n: int) -> int {
    (body + n - 1) / n
}

/// No record is lost by reading in chunks: every record that one reader
/// yields, reading from the byte `skip` to the end of the array or of the
/// data, is among the records that the reader of one of the `n` chunks
/// yields.
pub proof fn lemma_chunks_lose_nothing(data: Seq<u8>, skip: int, n: int, i: int)
    requires
        0 <= skip <= data.len(),
        n > 0,
        0 <= i < chunk_records(data, skip, 0, data.len() - skip).len(),
    ensures
        exists|k: int, j: int|
            0 <= k < n && 0 <= j < chunk_records(
                data,
                skip + k * share(data.len() - skip, n),
                0,
                share(data.len() - skip, n),
            ).len() && #[trigger] chunk_records(
                data,
                skip + k * share(data.len() - skip, n),
                0,
                share(data.len() - skip, n),
            )[j] == chunk_records(data, skip, 0, data.len() - skip)[i],
{
    let body = data.len() - skip;
    let size = share(body, n);
    lemma_record_has_line(data, skip, 0, body, i);
    let p = choose|p: int|
        #![trigger record_at(data, p)]
        reaches(data, skip, p) && 0 <= p < data.len() && chunk_records(data, skip, 0, body)[i]
            == record_at(data, p);
    lemma_end_before_target(data, skip, p);
    let d = p - skip;
    assert(size > 0 && n * size >= body) by (nonlinear_arith)
        requires
            body > 0,
            n > 0,
            size == (body + n - 1) / n,
    ;
    let k = d / size;
    assert(0 <= k < n && k * size <= d < k * size + size) by (nonlinear_arith)
        requires
            0 <= d < body,
            size > 0,
            n * size >= body,
            k == d / size,
            n > 0,
    ;
    let start = skip + k * size;
    lemma_reaches_from_between(data, skip, start, p);
    lemma_line_has_record(data, start, 0, size, p);
    let j = choose|j: int|
        0 <= j < chunk_records(data, start, 0, size).len() && #[trigger] chunk_records(
            data,
            start,
            0,
            size,
        )[j] == record_at(data, p);
    assert(chunk_records(data, skip + k * share(data.len() - skip, n), 0, size)[j]
        == chunk_records(data, skip, 0, data.len() - skip)[i]);
}

} // verus!
