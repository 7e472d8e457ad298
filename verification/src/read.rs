//! Cutting a trace file into chunks that can be read side by side, and
//! each chunk into the records that it holds, one to a line.

use vstd::prelude::*;

verus! {

/// The bytes of one record.
pub type Line = Vec<u8>;

/// The position just past the first newline at or after `from`, or the end
/// of the data where no newline follows: the end of the line that holds
/// `from`.
pub open spec fn line_end(data: Seq<u8>, from: int) -> int
    decreases data.len() - from,
{
    if from < 0 || from >= data.len() {
        data.len() as int
    } else if data[from] == 10u8 {
        from + 1
    } else {
        line_end(data, from + 1)
    }
}

/// The line ends with a comma and a newline: another record follows.
pub open spec fn ends_with_separator(line: Seq<u8>) -> bool {
    line.len() >= 2 && line[line.len() - 2] == 44u8 && line[line.len() - 1] == 10u8
}

/// The line is the last of the array of records: it holds more than a
/// newline and does not end with a comma and a newline.
pub open spec fn closes_array(line: Seq<u8>) -> bool {
    line.len() >= 2 && !ends_with_separator(line)
}

/// The marker `}],` stands at position `p` of the line.
pub open spec fn marker_at(line: Seq<u8>, p: int) -> bool {
    0 <= p && p + 3 <= line.len() && line[p] == 125u8 && line[p + 1] == 93u8 && line[p + 2]
        == 44u8
}

/// The last position at which the marker stands is `p`; `None` says that it
/// stands nowhere.
pub open spec fn is_last_marker(line: Seq<u8>, p: Option<int>) -> bool {
    match p {
        Some(p) => marker_at(line, p) && forall|q: int| p < q ==> !marker_at(line, q),
        None => forall|q: int| !marker_at(line, q),
    }
}

/// The number of bytes at the start of the line that make up its record.
/// A line that another record follows loses its comma and newline. The
/// last line of the array is cut behind the brace of its last marker `}],`;
/// without a marker it loses its last two bytes. A line of less than two
/// bytes holds no record.
pub open spec fn record_len(line: Seq<u8>) -> int {
    if line.len() < 2 {
        0
    } else if ends_with_separator(line) {
        line.len() - 2
    } else if exists|p: int| marker_at(line, p) {
        (choose|p: int| marker_at(line, p) && forall|q: int| p < q ==> !marker_at(line, q)) + 1
    } else {
        line.len() - 2
    }
}

/// The records of the lines that are read from `pos` on, after `read` bytes
/// of the chunk were read already: line after line while no more than
/// `chunk_size` bytes were read, to the end of the data or of the array.
pub open spec fn chunk_records(data: Seq<u8>, pos: int, read: int, chunk_size: int) -> Seq<Seq<u8>>
    decreases data.len() - pos,
{
    if pos < 0 || pos >= data.len() || read > chunk_size {
        Seq::empty()
    } else {
        let end = line_end(data, pos);
        let line = data.subrange(pos, end);
        let record = line.take(record_len(line));
        if !closes_array(line) && pos < end <= data.len() {
            seq![record] + chunk_records(data, end, read + (end - pos), chunk_size)
        } else {
            seq![record]
        }
    }
}

/// The end of a line lies behind its start and within the data.
pub proof fn lemma_line_end(data: Seq<u8>, from: int)
    requires
        0 <= from < data.len(),
    ensures
        from < line_end(data, from) <= data.len(),
        forall|k: int| from <= k < line_end(data, from) - 1 ==> data[k] != 10u8,
        line_end(data, from) < data.len() ==> data[line_end(data, from) - 1] == 10u8,
    decreases data.len() - from,
{
    if data[from] != 10u8 {
        if from + 1 < data.len() {
            lemma_line_end(data, from + 1);
        } else {
            assert(line_end(data, from + 1) == data.len());
        }
    }
}

/// The number of bytes to skip before the first record: the length of the
/// first line.
pub fn header_len(data: &[u8]) -> (n: usize)
    ensures
        n == line_end(data@, 0),
{
    find_line_end(data, 0)
}

/// The end of the line that holds `from`.
fn find_line_end(data: &[u8], from: usize) -> (end: usize)
    ensures
        end == line_end(data@, from as int),
        end <= data@.len(),
{
    let mut i: usize = from;
    while i < data.len()
        invariant
            from <= i,
            line_end(data@, from as int) == line_end(data@, i as int),
        decreases data@.len() - i,
    {
        if data[i] == 10u8 {
            return i + 1;
        }
        i += 1;
    }
    data.len()
}

/// The number of bytes that each of `num_threads` readers takes of a file
/// of `file_size` bytes whose first `init_skip` bytes are skipped: the rest
/// divided by the number of readers, rounded up.
pub fn chunk_size(file_size: usize, init_skip: usize, num_threads: usize) -> (size: usize)
    requires
        num_threads > 0,
        init_skip <= file_size,
    ensures
        size == (file_size - init_skip + num_threads - 1) / (num_threads as int),
{
    let body = file_size - init_skip;
    let whole = body / num_threads;
    let rest = body % num_threads;
    proof {
        lemma_rounded_up(body as int, num_threads as int);
    }
    if rest == 0 {
        whole
    } else {
        whole + 1
    }
}

proof fn lemma_rounded_up(body: int, n: int)
    requires
        body >= 0,
        n > 0,
    ensures
        (body + n - 1) / n == if body % n == 0 {
            body / n
        } else {
            body / n + 1
        },
        body % n != 0 ==> body / n < body,
{
    let q = body / n;
    let r = body % n;
    assert(body == q * n + r && 0 <= r < n) by (nonlinear_arith)
        requires
            q == body / n,
            r == body % n,
            n > 0,
            body >= 0,
    ;
    assert(0 <= q && (r > 0 ==> q < body)) by (nonlinear_arith)
        requires
            body == q * n + r,
            0 <= r < n,
            n > 0,
            body >= 0,
    ;
    if r == 0 {
        assert((q * n + n - 1) / n == q) by (nonlinear_arith)
            requires
                n > 0,
        ;
    } else {
        assert((q * n + r + n - 1) / n == q + 1) by (nonlinear_arith)
            requires
                n > 0,
                0 < r < n,
        ;
    }
}

/// The bytes of each line.
pub open spec fn records(lines: Seq<Line>) -> Seq<Seq<u8>> {
    lines.map_values(|l: Line| l@)
}

/// The last position at which the marker `}],` stands in the line.
fn last_marker(data: &[u8], from: usize, to: usize) -> (r: Option<usize>)
    requires
        from <= to <= data@.len(),
    ensures
        match r {
            Some(p) => is_last_marker(data@.subrange(from as int, to as int), Some(p as int)),
            None => is_last_marker(data@.subrange(from as int, to as int), None),
        },
{
    let ghost line = data@.subrange(from as int, to as int);
    let n = to - from;
    if n < 3 {
        return None;
    }
    let mut p: usize = n - 2;
    while p > 0
        invariant
            p <= n - 2,
            n == to - from,
            from <= to <= data@.len(),
            line == data@.subrange(from as int, to as int),
            forall|q: int| p <= q ==> !marker_at(line, q),
        decreases p,
    {
        p -= 1;
        if data[from + p] == 125u8 && data[from + p + 1] == 93u8 && data[from + p + 2] == 44u8 {
            assert(marker_at(line, p as int));
            return Some(p);
        }
    }
    None
}

/// Where the record of the line from `from` to `to` ends, counted from the
/// start of the line, and whether the line is the last of the array.
pub fn record_end(data: &[u8], from: usize, to: usize) -> (r: (usize, bool))
    requires
        from <= to <= data@.len(),
    ensures
        r.0 == record_len(data@.subrange(from as int, to as int)),
        r.0 <= to - from,
        r.1 == closes_array(data@.subrange(from as int, to as int)),
{
    let ghost line = data@.subrange(from as int, to as int);
    let n = to - from;
    reveal(record_len);
    if n < 2 {
        return (0, false);
    }
    if data[to - 2] == 44u8 && data[to - 1] == 10u8 {
        assert(ends_with_separator(line));
        return (n - 2, false);
    }
    assert(!ends_with_separator(line));
    match last_marker(data, from, to) {
        Some(p) => {
            proof {
                let c = choose|c: int|
                    marker_at(line, c) && forall|q: int| c < q ==> !marker_at(line, q);
                assert(marker_at(line, p as int));
                assert(c == p);
            }
            (p + 1, true)
        },
        None => (n - 2, true),
    }
}

/// The bytes from `from` to `to`.
fn copy_range(data: &[u8], from: usize, to: usize) -> (out: Line)
    requires
        from <= to <= data@.len(),
    ensures
        out@ == data@.subrange(from as int, to as int),
{
    let mut out: Line = Vec::new();
    let mut i: usize = from;
    while i < to
        invariant
            from <= i <= to <= data@.len(),
            out@ == data@.subrange(from as int, i as int),
        decreases to - i,
    {
        out.push(data[i]);
        assert(out@ =~= data@.subrange(from as int, i + 1));
        i += 1;
    }
    out
}

proof fn lemma_take_is_subrange(data: Seq<u8>, pos: int, end: int, len: int)
    requires
        0 <= pos <= end <= data.len(),
        0 <= len <= end - pos,
    ensures
        data.subrange(pos, pos + len) == data.subrange(pos, end).take(len),
{
    assert(data.subrange(pos, pos + len) =~= data.subrange(pos, end).take(len));
}

proof fn lemma_pushed(
    lines: Seq<Line>,
    before: Seq<Seq<u8>>,
    record: Line,
    rest: Seq<Seq<u8>>,
    last: bool,
    all: Seq<Seq<u8>>,
)
    requires
        lines.len() > 0,
        records(lines.drop_last()) == before,
        lines.last() == record,
        all == before + if last {
            seq![record@]
        } else {
            seq![record@] + rest
        },
    ensures
        last ==> all == records(lines),
        !last ==> all == records(lines) + rest,
{
    assert(records(lines) =~= before.push(record@));
    if last {
        assert(all =~= records(lines));
    } else {
        assert(all =~= records(lines) + rest);
    }
}

/// Reading from `pos` yields the record of the line at `pos` and then, unless
/// the line closes the array, what reading from the end of the line yields.
proof fn lemma_read_step(data: Seq<u8>, pos: int, read: int, chunk_size: int)
    requires
        0 <= pos < data.len(),
        read <= chunk_size,
    ensures
        ({
            let end = line_end(data, pos);
            let line = data.subrange(pos, end);
            let record = line.take(record_len(line));
            chunk_records(data, pos, read, chunk_size) == if closes_array(line) {
                seq![record]
            } else {
                seq![record] + chunk_records(data, end, read + (end - pos), chunk_size)
            }
        }),
{
    lemma_line_end(data, pos);
}

/// Reads the records of one chunk: the lines from `start_pos` on, each
/// without what separates it from the next, until more than `chunk_size`
/// bytes were read or the array or the data ends. The first line is read
/// from `start_pos` even where that is in the middle of a line, and the
/// last line is read to its end even where that is behind the chunk.
pub fn read_chunk(data: &[u8], start_pos: usize, chunk_size: usize) -> (lines: Vec<Line>)
    ensures
        records(lines@) == chunk_records(data@, start_pos as int, 0, chunk_size as int),
{
    let mut lines: Vec<Line> = Vec::new();
    let mut pos: usize = start_pos;
    let mut bytes_read: usize = 0;
    let ghost all = chunk_records(data@, start_pos as int, 0, chunk_size as int);
    assert(records(lines@) =~= Seq::<Seq<u8>>::empty());
    while pos < data.len() && bytes_read <= chunk_size
        invariant
            bytes_read <= pos,
            all == chunk_records(data@, start_pos as int, 0, chunk_size as int),
            all == records(lines@) + chunk_records(
                data@,
                pos as int,
                bytes_read as int,
                chunk_size as int,
            ),
        decreases data@.len() - pos,
    {
        let end = find_line_end(data, pos);
        proof {
            lemma_line_end(data@, pos as int);
            lemma_read_step(data@, pos as int, bytes_read as int, chunk_size as int);
        }
        let (len, last) = record_end(data, pos, end);
        let ghost line = data@.subrange(pos as int, end as int);
        let record = copy_range(data, pos, pos + len);
        let ghost before = records(lines@);
        let ghost rest = chunk_records(
            data@,
            end as int,
            bytes_read + (end - pos),
            chunk_size as int,
        );
        proof {
            lemma_take_is_subrange(data@, pos as int, end as int, len as int);
        }
        let ghost held = lines@;
        lines.push(record);
        proof {
            assert(lines@.drop_last() =~= held);
            lemma_pushed(lines@, before, record, rest, last, all);
        }
        if last {
            return lines;
        }
        bytes_read = bytes_read + (end - pos);
        pos = end;
    }
    assert(all =~= records(lines@));
    lines
}

/// The records of the chunk of one reader: the chunk with number
/// `thread_id`, counted from zero, of chunks of `chunk_size` bytes that
/// follow the first `init_skip` bytes.
pub fn collect_lines(data: &[u8], thread_id: usize, chunk_size: usize, init_skip: usize) -> (lines:
    Vec<Line>)
    ensures
        records(lines@) == chunk_records(
            data@,
            init_skip + thread_id * chunk_size,
            0,
            chunk_size as int,
        ),
{
    let ghost target = init_skip + thread_id * chunk_size;
    match thread_id.checked_mul(chunk_size) {
        Some(offset) => {
            match init_skip.checked_add(offset) {
                Some(start_pos) => {
                    assert(start_pos == target);
                    return read_chunk(data, start_pos, chunk_size);
                },
                None => {},
            }
        },
        None => {},
    }
    let lines: Vec<Line> = Vec::new();
    let size = data.len();
    proof {
        assert(thread_id * chunk_size >= 0) by (nonlinear_arith);
        assert(target > usize::MAX);
        assert(target >= size);
        assert(records(lines@) =~= Seq::<Seq<u8>>::empty());
    }
    lines
}

} // verus!
