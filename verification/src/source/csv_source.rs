//! CSV records and the chunks in which they are parsed.
//!
//! A line end inside quotes belongs to its record, so a file can only be cut after a line end
//! that is outside quotes: one before which there is an even number of quote characters.
use vstd::prelude::*;

use crate::math::{max_usize, min_usize};

verus! {

/// Rows of a parsed batch.
pub const BATCH_SIZE: usize = 8192;

/// The quote character.
pub const QUOTE: u8 = 34;

/// The end of a line.
pub const NEWLINE: u8 = 10;

/// What may stand before the end of a line.
pub const RETURN: u8 = 13;

/// How many quote characters there are.
pub open spec fn quotes(s: Seq<u8>) -> int
    decreases s.len(),
{
    if s.len() == 0 {
        0
    } else {
        quotes(s.drop_last()) + if s.last() == QUOTE {
            1int
        } else {
            0
        }
    }
}

/// The text is inside quotes at its end.
pub open spec fn unclosed(s: Seq<u8>) -> bool {
    quotes(s) % 2 == 1
}

proof fn lemma_quotes_add(a: Seq<u8>, b: Seq<u8>)
    ensures
        quotes(a + b) == quotes(a) + quotes(b),
        quotes(a) >= 0,
    decreases a.len() + b.len(),
{
    if b.len() == 0 {
        assert(a + b =~= a);
        if a.len() > 0 {
            lemma_quotes_add(a.drop_last(), b);
        }
    } else {
        assert((a + b).drop_last() =~= a + b.drop_last());
        lemma_quotes_add(a, b.drop_last());
    }
}

/// Two quote characters in a row leave a text inside or outside quotes as it was.
pub proof fn law_doubled_quotes_change_nothing(a: Seq<u8>, b: Seq<u8>)
    ensures
        unclosed(a + seq![QUOTE, QUOTE] + b) == unclosed(a + b),
{
    let two = seq![QUOTE, QUOTE];
    lemma_quotes_add(a, two);
    lemma_quotes_add(a + two, b);
    lemma_quotes_add(a, b);
    assert(two.drop_last() =~= seq![QUOTE]);
    assert(two.drop_last().drop_last() =~= seq![]);
    assert(quotes(two) == 2) by {
        reveal_with_fuel(quotes, 3);
    }
}

/// A record in the making, line by line.
pub struct RecordReader {
    pub record: Vec<u8>,
    pub in_quotes: bool,
}

impl RecordReader {
    /// The mark tells whether the record so far is inside quotes.
    pub open spec fn wf(&self) -> bool {
        self.in_quotes == unclosed(self.record@)
    }

    /// No line yet.
    pub fn new() -> (r: Self)
        ensures
            r.wf(),
            r.record@ == Seq::<u8>::empty(),
    {
        let record: Vec<u8> = Vec::new();
        assert(record@ =~= Seq::<u8>::empty());
        RecordReader { record, in_quotes: false }
    }

    /// Takes the next line, its end included. Is the record complete? It is where the line does
    /// not end inside quotes.
    pub fn push_line(&mut self, line: &[u8]) -> (r: bool)
        requires
            old(self).wf(),
        ensures
            final(self).wf(),
            final(self).record@ == old(self).record@ + line@,
            r == !unclosed(old(self).record@ + line@),
    {
        let ghost before = self.record@;
        let mut i: usize = 0;
        assert(before + line@.take(0) =~= before);
        while i < line.len()
            invariant
                i <= line@.len(),
                self.record@ == before + line@.take(i as int),
                self.wf(),
            decreases line.len() - i,
        {
            let b: u8 = line[i];
            let ghost now = self.record@;
            if b == QUOTE {
                self.in_quotes = !self.in_quotes;
            }
            self.record.push(b);
            proof {
                assert(self.record@.drop_last() =~= now);
                assert(before + line@.take(i + 1) =~= now.push(b));
                lemma_quotes_add(now, seq![]);
            }
            i += 1;
        }
        assert(line@.take(i as int) =~= line@);
        !self.in_quotes
    }
}

/// A record ends after the byte at `i`: a line end outside the quotes of the record.
pub open spec fn ends_at(data: Seq<u8>, from: int, i: int) -> bool {
    &&& from <= i < data.len()
    &&& data[i] == NEWLINE
    &&& !unclosed(data.subrange(from, i + 1))
}

/// The record that starts at `from` ends before `to`: after the first line end outside quotes, or
/// with the data.
pub open spec fn is_record(data: Seq<u8>, from: int, to: int) -> bool {
    &&& from < to <= data.len()
    &&& forall|i: int| from <= i < to - 1 ==> !#[trigger] ends_at(data, from, i)
    &&& ends_at(data, from, to - 1) || to == data.len()
}

proof fn lemma_quotes_are_counted(s: Seq<u8>)
    ensures
        quotes(s) == s.filter(|b: u8| b == 34).len(),
    decreases s.len(),
{
    reveal(Seq::filter);
    if s.len() > 0 {
        lemma_quotes_are_counted(s.drop_last());
    }
}

/// A record ends with the first line end that has an even number of quote characters before it in
/// the record, and else with the text: a line end between quotes belongs to a field. So a record
/// has one end.
pub proof fn law_records_end_outside_quotes(data: Seq<u8>, from: int, to: int, other: int)
    requires
        0 <= from,
        is_record(data, from, to),
    ensures
        to < data.len() ==> data[to - 1] == 10 && data.subrange(from, to).filter(
            |b: u8| b == 34,
        ).len() % 2 == 0,
        forall|i: int|
            from <= i < to - 1 && #[trigger] data[i] == 10 ==> data.subrange(from, i + 1).filter(
                |b: u8| b == 34,
            ).len() % 2 == 1,
        is_record(data, from, other) ==> other == to,
{
    lemma_quotes_are_counted(data.subrange(from, to));
    assert forall|i: int| from <= i < to - 1 && #[trigger] data[i] == 10 implies data.subrange(
        from,
        i + 1,
    ).filter(|b: u8| b == 34).len() % 2 == 1 by {
        assert(!ends_at(data, from, i));
        lemma_quotes_are_counted(data.subrange(from, i + 1));
    }
    if is_record(data, from, other) {
        if other < to {
            assert(!ends_at(data, from, other - 1));
        } else if to < other {
            assert(!ends_at(data, from, to - 1));
        }
    }
}

/// The end of the record that starts at `from`.
pub fn record_end(data: &[u8], from: usize) -> (to: usize)
    requires
        from < data@.len(),
    ensures
        is_record(data@, from as int, to as int),
{
    let n: usize = data.len();
    let mut odd: bool = false;
    let mut i: usize = from;
    assert(data@.subrange(from as int, from as int) =~= seq![]);
    while i < n
        invariant
            from <= i <= n,
            from < n,
            n == data@.len(),
            odd == unclosed(data@.subrange(from as int, i as int)),
            forall|k: int| from <= k < i ==> !#[trigger] ends_at(data@, from as int, k),
        decreases n - i,
    {
        let b: u8 = data[i];
        proof {
            let now = data@.subrange(from as int, i as int);
            let next = data@.subrange(from as int, i + 1);
            assert(next.drop_last() =~= now);
            assert(next.last() == b);
            lemma_quotes_add(now, seq![]);
        }
        if b == QUOTE {
            odd = !odd;
        }
        if b == NEWLINE && !odd {
            assert(ends_at(data@, from as int, i as int));
            return i + 1;
        }
        i += 1;
    }
    n
}

/// A run of whole records.
#[derive(Clone, Copy, Debug, PartialEq, Eq, Structural)]
pub struct CsvChunk {
    pub start: usize,
    pub end: usize,
    pub rows: usize,
}

/// Record `k` starts where the one before ends, the first one at `from`, and ends at `ends[k]`.
pub open spec fn record_at(data: Seq<u8>, from: int, ends: Seq<int>, k: int) -> bool {
    is_record(
        data,
        if k == 0 {
            from
        } else {
            ends[k - 1]
        },
        ends[k],
    )
}

/// Records one after the other from `from` on: `ends` are their ends.
pub open spec fn are_records(data: Seq<u8>, from: int, ends: Seq<int>) -> bool {
    forall|k: int| 0 <= k < ends.len() ==> #[trigger] record_at(data, from, ends, k)
}

/// A chunk of whole records: it takes records until it has `size` bytes, and no more.
pub open spec fn is_chunk(data: Seq<u8>, c: CsvChunk, size: int, ends: Seq<int>) -> bool {
    &&& are_records(data, c.start as int, ends)
    &&& ends.len() == c.rows
    &&& c.rows > 0
    &&& ends[ends.len() - 1] == c.end
    &&& c.end - c.start >= size || c.end == data.len()
    &&& forall|k: int| 0 <= k < ends.len() - 1 ==> (#[trigger] ends[k]) - c.start < size
}

/// The chunk that starts at `start`.
pub fn next_chunk(data: &[u8], start: usize, size: usize) -> (c: CsvChunk)
    requires
        start < data@.len(),
        size > 0,
    ensures
        c.start == start,
        exists|ends: Seq<int>| #[trigger] is_chunk(data@, c, size as int, ends),
{
    let n: usize = data.len();
    let mut at: usize = start;
    let mut rows: usize = 0;
    let ghost mut ends: Seq<int> = seq![];
    while at - start < size && at < n
        invariant
            n == data@.len(),
            start < n,
            start <= at <= n,
            size > 0,
            rows <= at - start,
            ends.len() == rows,
            are_records(data@, start as int, ends),
            rows == 0 ==> at == start,
            rows > 0 ==> ends[rows - 1] == at,
            forall|k: int| 0 <= k < rows - 1 ==> (#[trigger] ends[k]) - start < size,
        decreases n - at,
    {
        let to: usize = record_end(data, at);
        proof {
            let grown = ends.push(to as int);
            assert forall|k: int| 0 <= k < grown.len() implies #[trigger] record_at(
                data@,
                start as int,
                grown,
                k,
            ) by {
                if k < rows {
                    assert(record_at(data@, start as int, ends, k));
                    assert(grown[k] == ends[k]);
                    if k > 0 {
                        assert(grown[k - 1] == ends[k - 1]);
                    }
                } else {
                    assert(grown[k] == to);
                    if k > 0 {
                        assert(grown[k - 1] == ends[k - 1]);
                    }
                }
            }
            assert forall|k: int| 0 <= k < grown.len() - 1 implies (#[trigger] grown[k]) - start
                < size by {
                assert(grown[k] == ends[k]);
            }
            ends = grown;
        }
        at = to;
        rows += 1;
    }
    let c: CsvChunk = CsvChunk { start, end: at, rows };
    assert(is_chunk(data@, c, size as int, ends));
    c
}

/// Chunk `i` starts where the one before ends, the first one at `from`, and holds whole records.
pub open spec fn chunk_at(data: Seq<u8>, chunks: Seq<CsvChunk>, from: int, size: int, i: int) -> bool {
    &&& chunks[i].start == (if i == 0 {
        from
    } else {
        chunks[i - 1].end as int
    })
    &&& exists|ends: Seq<int>| #[trigger] is_chunk(data, chunks[i], size, ends)
}

/// Chunks that follow one another without a gap, each of whole records.
pub open spec fn are_chunks(data: Seq<u8>, chunks: Seq<CsvChunk>, from: int, size: int) -> bool {
    forall|i: int| 0 <= i < chunks.len() ==> #[trigger] chunk_at(data, chunks, from, size, i)
}

/// A byte of a blank line.
pub open spec fn blank(b: u8) -> bool {
    b == NEWLINE || b == RETURN
}

/// There are only blank lines.
pub open spec fn all_blank(s: Seq<u8>) -> bool {
    forall|i: int| 0 <= i < s.len() ==> blank(#[trigger] s[i])
}

/// Is a record nothing but blank lines?
pub fn is_blank(record: &[u8]) -> (r: bool)
    ensures
        r == all_blank(record@),
{
    blank_prefix(record) == record.len()
}

/// How many bytes there are before the first one that belongs to no blank line.
fn blank_prefix(data: &[u8]) -> (n: usize)
    ensures
        n <= data@.len(),
        all_blank(data@.take(n as int)),
        n < data@.len() ==> !blank(data@[n as int]),
        n == data@.len() <==> all_blank(data@),
{
    let mut i: usize = 0;
    while i < data.len() && (data[i] == NEWLINE || data[i] == RETURN)
        invariant
            i <= data@.len(),
            forall|k: int| 0 <= k < i ==> blank(#[trigger] data@[k]),
        decreases data.len() - i,
    {
        i += 1;
    }
    i
}

/// The header of a text is the bytes from `start` to `end`: the first record that is not blank.
pub open spec fn is_header(data: Seq<u8>, start: int, end: int) -> bool {
    &&& 0 <= start < data.len()
    &&& all_blank(data.take(start))
    &&& !blank(data[start])
    &&& is_record(data, start, end)
}

/// The records start at `from`: after the header where there is one.
pub open spec fn records_start(data: Seq<u8>, has_header: bool, from: int) -> bool {
    if has_header {
        exists|start: int| #[trigger] is_header(data, start, from)
    } else {
        from == 0
    }
}

/// The records of a text, from `from` on, in chunks: after the header, which is the first record
/// that is not blank, and to the end of the text.
pub open spec fn is_cut(
    data: Seq<u8>,
    has_header: bool,
    chunks: Seq<CsvChunk>,
    from: int,
    size: int,
) -> bool {
    &&& records_start(data, has_header, from)
    &&& are_chunks(data, chunks, from, size)
    &&& chunks.len() == 0 ==> from == data.len()
    &&& chunks.len() > 0 ==> chunks[chunks.len() - 1].end == data.len()
}

/// The records of a text in chunks.
pub open spec fn cut_into(
    data: Seq<u8>,
    has_header: bool,
    chunks: Seq<CsvChunk>,
    size: int,
) -> bool {
    exists|from: int| #[trigger] is_cut(data, has_header, chunks, from, size)
}

/// Cuts CSV text into chunks of whole records. A header is left out, with the blank lines before
/// it; `None`: a header is expected and there are only blank lines.
pub fn chunk_records(data: &[u8], has_header: bool, size: usize) -> (r: Option<Vec<CsvChunk>>)
    requires
        size > 0,
    ensures
        match r {
            None => has_header && all_blank(data@),
            Some(chunks) => {
                &&& !(has_header && all_blank(data@))
                &&& cut_into(data@, has_header, chunks@, size as int)
            },
        },
{
    let n: usize = data.len();
    let from: usize = if has_header {
        let start: usize = blank_prefix(data);
        if start == n {
            return None;
        }
        let end: usize = record_end(data, start);
        assert(is_header(data@, start as int, end as int));
        end
    } else {
        0
    };
    let mut chunks: Vec<CsvChunk> = Vec::new();
    let mut at: usize = from;
    while at < n
        invariant
            n == data@.len(),
            from <= at <= n,
            size > 0,
            are_chunks(data@, chunks@, from as int, size as int),
            chunks@.len() == 0 ==> at == from,
            chunks@.len() > 0 ==> chunks@[chunks@.len() - 1].end == at,
        decreases n - at,
    {
        let c: CsvChunk = next_chunk(data, at, size);
        let ghost before = chunks@;
        chunks.push(c);
        proof {
            let ends = choose|ends: Seq<int>| #[trigger] is_chunk(data@, c, size as int, ends);
            assert(is_chunk(data@, c, size as int, ends));
            lemma_chunk_end(data@, c, size as int, ends);
            assert forall|i: int| 0 <= i < chunks@.len() implies #[trigger] chunk_at(
                data@,
                chunks@,
                from as int,
                size as int,
                i,
            ) by {
                if i > 0 {
                    assert(chunks@[i - 1] == before[i - 1]);
                }
                if i < before.len() {
                    assert(chunk_at(data@, before, from as int, size as int, i));
                    assert(chunks@[i] == before[i]);
                } else {
                    assert(chunks@[i] == c);
                }
            }
        }
        at = c.end;
    }
    assert(is_cut(data@, has_header, chunks@, from as int, size as int));
    assert(cut_into(data@, has_header, chunks@, size as int));
    Some(chunks)
}

proof fn lemma_chunk_end(data: Seq<u8>, c: CsvChunk, size: int, ends: Seq<int>)
    requires
        is_chunk(data, c, size, ends),
    ensures
        c.start < c.end <= data.len(),
{
    lemma_records_rise(data, c.start as int, ends, ends.len() - 1);
}

proof fn lemma_records_rise(data: Seq<u8>, from: int, ends: Seq<int>, k: int)
    requires
        are_records(data, from, ends),
        0 <= k < ends.len(),
    ensures
        from < ends[k] <= data.len(),
    decreases k,
{
    assert(record_at(data, from, ends, k));
    if k > 0 {
        lemma_records_rise(data, from, ends, k - 1);
    }
}

/// A chunk lies in the text.
pub(crate) proof fn lemma_chunk_lies_in(
    data: Seq<u8>,
    chunks: Seq<CsvChunk>,
    from: int,
    size: int,
    i: int,
)
    requires
        are_chunks(data, chunks, from, size),
        0 <= i < chunks.len(),
    ensures
        chunks[i].start < chunks[i].end <= data.len(),
{
    assert(chunk_at(data, chunks, from, size, i));
    let ends = choose|ends: Seq<int>| #[trigger] is_chunk(data, chunks[i], size, ends);
    lemma_chunk_end(data, chunks[i], size, ends);
}

/// The bytes of the chunks, one after the other.
pub open spec fn chunk_bytes(data: Seq<u8>, chunks: Seq<CsvChunk>, k: int) -> Seq<u8>
    decreases k,
{
    if k <= 0 {
        seq![]
    } else {
        chunk_bytes(data, chunks, k - 1) + data.subrange(
            chunks[k - 1].start as int,
            chunks[k - 1].end as int,
        )
    }
}

/// No byte is lost and none comes twice: the chunks together are the text from where the records
/// start.
pub proof fn law_chunks_are_the_text(
    data: Seq<u8>,
    chunks: Seq<CsvChunk>,
    from: int,
    size: int,
    k: int,
)
    requires
        are_chunks(data, chunks, from, size),
        0 <= from <= data.len(),
        0 <= k <= chunks.len(),
    ensures
        chunk_bytes(data, chunks, k) == data.subrange(
            from,
            if k == 0 {
                from
            } else {
                chunks[k - 1].end as int
            },
        ),
        k > 0 ==> from < chunks[k - 1].end <= data.len(),
    decreases k,
{
    if k == 0 {
        assert(data.subrange(from, from) =~= seq![]);
    } else {
        law_chunks_are_the_text(data, chunks, from, size, k - 1);
        let c = chunks[k - 1];
        assert(chunk_at(data, chunks, from, size, k - 1));
        let ends = choose|ends: Seq<int>| #[trigger] is_chunk(data, c, size, ends);
        lemma_chunk_end(data, c, size, ends);
        let start = if k == 1 {
            from
        } else {
            chunks[k - 2].end as int
        };
        assert(c.start == start);
        assert(data.subrange(from, start) + data.subrange(start, c.end as int) =~= data.subrange(
            from,
            c.end as int,
        ));
    }
}

/// Rows of the batches in which a chunk is parsed: those of the chunk, at most a full batch.
pub fn parse_batch_size(rows: usize) -> (r: usize)
    ensures
        r == crate::math::iclamp(rows as int, 1, BATCH_SIZE as int),
{
    max_usize(min_usize(rows, BATCH_SIZE), 1)
}

/// How many workers parse: all but the one that reads, and at least one.
pub fn parser_threads(nthread: usize) -> (r: usize)
    ensures
        r == crate::math::imax(nthread - 1, 1),
{
    max_usize(nthread.saturating_sub(1), 1)
}

/// What comes from the reader, or from the worker of a chunk.
#[derive(Clone, Copy, Debug, PartialEq, Eq, Structural)]
pub enum ChunkEvent {
    /// A chunk was parsed into this many batches.
    Parsed(usize),
    ParseFailed,
    WorkerGone,
    ReadFailed,
    Done,
    ReaderGone,
}

/// What the consumer of chunks does.
#[derive(Clone, Copy, Debug, PartialEq, Eq, Structural)]
pub enum ChunkStep {
    /// Hand on the first batch that is ready.
    Yield,
    /// Wait for the next chunk, in the order of the text.
    Wait,
    /// Hand on the failure.
    Fail,
    End,
}

/// The batches that are ready.
pub struct ChunkDrain {
    pub ready: usize,
}

impl ChunkDrain {
    /// What to do next: hand on what is ready before anything else.
    pub fn next(&mut self) -> (r: ChunkStep)
        ensures
            old(self).ready > 0 ==> r == ChunkStep::Yield && final(self).ready == old(self).ready
                - 1,
            old(self).ready == 0 ==> r == ChunkStep::Wait && final(self).ready == 0,
    {
        if self.ready > 0 {
            self.ready = self.ready - 1;
            ChunkStep::Yield
        } else {
            ChunkStep::Wait
        }
    }

    /// Takes what came while nothing was ready.
    pub fn take(&mut self, event: ChunkEvent) -> (r: ChunkStep)
        requires
            old(self).ready == 0,
        ensures
            match event {
                ChunkEvent::Parsed(n) => r == ChunkStep::Wait && final(self).ready == n,
                ChunkEvent::ParseFailed => r == ChunkStep::Fail && final(self).ready == 0,
                ChunkEvent::WorkerGone => r == ChunkStep::Fail && final(self).ready == 0,
                ChunkEvent::ReadFailed => r == ChunkStep::Fail && final(self).ready == 0,
                ChunkEvent::Done => r == ChunkStep::End && final(self).ready == 0,
                ChunkEvent::ReaderGone => r == ChunkStep::End && final(self).ready == 0,
            },
    {
        match event {
            ChunkEvent::Parsed(n) => {
                self.ready = n;
                ChunkStep::Wait
            },
            ChunkEvent::ParseFailed => ChunkStep::Fail,
            ChunkEvent::WorkerGone => ChunkStep::Fail,
            ChunkEvent::ReadFailed => ChunkStep::Fail,
            ChunkEvent::Done => ChunkStep::End,
            ChunkEvent::ReaderGone => ChunkStep::End,
        }
    }
}

} // verus!
