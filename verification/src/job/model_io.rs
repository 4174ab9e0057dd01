//! Reading and writing a model file in parts.
use vstd::prelude::*;

use super::workers::MODEL_IO_CHUNK;
use crate::math::{div_ceil_usize, max_usize, min_usize};

verus! {

/// A part of a file: where it starts, and how many bytes it has.
#[derive(Clone, Copy, Debug, PartialEq, Eq, Structural)]
pub struct FilePart {
    pub offset: usize,
    pub len: usize,
}

/// The bytes of each worker's share.
pub open spec fn share(total: int, workers: int) -> int {
    crate::math::ceil_div(crate::math::imax(total, 1), workers)
}

/// The bytes of each worker's share.
pub fn share_size(total: usize, workers: usize) -> (r: usize)
    requires
        workers > 0,
    ensures
        r == share(total as int, workers as int),
        r >= 1,
{
    proof {
        crate::math::lemma_ceil_div(crate::math::imax(total as int, 1), workers as int);
    }
    div_ceil_usize(max_usize(total, 1), workers)
}

/// Parts that follow one another without a gap, from `from` to `to`.
pub open spec fn tiles(parts: Seq<FilePart>, from: int, to: int) -> bool
    decreases parts.len(),
{
    if parts.len() == 0 {
        from == to
    } else {
        let last = parts.last();
        &&& last.len > 0
        &&& last.offset + last.len == to
        &&& tiles(parts.drop_last(), from, last.offset as int)
    }
}

/// Cuts the bytes from `from` to `to` into parts of at most `size` bytes.
fn cut(from: usize, to: usize, size: usize) -> (parts: Vec<FilePart>)
    requires
        from <= to,
        size > 0,
    ensures
        tiles(parts@, from as int, to as int),
        forall|i: int| 0 <= i < parts@.len() ==> (#[trigger] parts@[i]).len <= size,
        forall|i: int|
            0 <= i < parts@.len() ==> (#[trigger] parts@[i]).offset == from + i * size,
{
    let mut parts: Vec<FilePart> = Vec::new();
    let mut at: usize = from;
    while at < to
        invariant
            from <= at <= to,
            size > 0,
            tiles(parts@, from as int, at as int),
            at < to ==> at == from + parts@.len() * size,
            forall|i: int| 0 <= i < parts@.len() ==> (#[trigger] parts@[i]).len <= size,
            forall|i: int|
                0 <= i < parts@.len() ==> (#[trigger] parts@[i]).offset == from + i * size,
        decreases to - at,
    {
        let len: usize = min_usize(size, to - at);
        let ghost before = parts@;
        parts.push(FilePart { offset: at, len });
        proof {
            assert(parts@.drop_last() =~= before);
            assert((before.len() + 1) * size == before.len() * size + size) by (nonlinear_arith);
        }
        at = at + len;
    }
    parts
}

/// The share of worker `worker`: the bytes from its start to the start of the next.
pub open spec fn share_start(total: int, workers: int, worker: int) -> int {
    crate::math::imin(worker * share(total, workers), total)
}

/// The parts of a file that one worker reads or writes, each of at most 1 MiB.
pub fn worker_parts(total: usize, workers: usize, worker: usize) -> (parts: Vec<FilePart>)
    requires
        worker < workers,
    ensures
        tiles(
            parts@,
            share_start(total as int, workers as int, worker as int),
            share_start(total as int, workers as int, worker + 1),
        ),
        forall|i: int| 0 <= i < parts@.len() ==> (#[trigger] parts@[i]).len <= MODEL_IO_CHUNK,
        forall|i: int|
            0 <= i < parts@.len() ==> (#[trigger] parts@[i]).offset == share_start(
                total as int,
                workers as int,
                worker as int,
            ) + i * MODEL_IO_CHUNK,
{
    let size: usize = share_size(total, workers);
    let start: usize = match worker.checked_mul(size) {
        Some(s) => min_usize(s, total),
        None => total,
    };
    proof {
        assert((worker + 1) * size == worker * size + size) by (nonlinear_arith);
        assert(worker * size >= 0) by (nonlinear_arith);
    }
    let end: usize = if total - start > size {
        start + size
    } else {
        total
    };
    cut(start, end, MODEL_IO_CHUNK)
}

/// The shares of all workers together are the file: they start where it starts, each starts where
/// the one before ends, and the last ends where it ends.
pub proof fn law_shares_cover_the_file(total: int, workers: int, worker: int)
    requires
        total >= 0,
        workers > 0,
        0 <= worker < workers,
    ensures
        share_start(total, workers, 0) == 0,
        share_start(total, workers, worker) <= share_start(total, workers, worker + 1),
        share_start(total, workers, workers) == total,
{
    let s = share(total, workers);
    crate::math::lemma_ceil_div(crate::math::imax(total, 1), workers);
    assert(0 * s == 0);
    assert((worker + 1) * s == worker * s + s) by (nonlinear_arith);
    assert(workers * s == s * workers) by (nonlinear_arith);
}

proof fn lemma_tile_holds(parts: Seq<FilePart>, from: int, to: int, byte: int)
    requires
        tiles(parts, from, to),
        from <= byte < to,
    ensures
        exists|i: int|
            0 <= i < parts.len() && (#[trigger] parts[i]).offset <= byte < parts[i].offset
                + parts[i].len,
    decreases parts.len(),
{
    if parts.len() > 0 {
        let n = parts.len() - 1;
        if byte < parts.last().offset {
            let rest = parts.drop_last();
            lemma_tile_holds(rest, from, parts.last().offset as int, byte);
            let i = choose|i: int|
                0 <= i < rest.len() && (#[trigger] rest[i]).offset <= byte < rest[i].offset
                    + rest[i].len;
            assert(parts[i] == rest[i]);
        } else {
            assert(parts[n] == parts.last());
        }
    }
}

/// Every byte of a worker's share is in one of its parts.
pub proof fn law_parts_hold_every_byte(parts: Seq<FilePart>, from: int, to: int, byte: int)
    requires
        tiles(parts, from, to),
        from <= byte < to,
    ensures
        exists|i: int|
            0 <= i < parts.len() && (#[trigger] parts[i]).offset <= byte < parts[i].offset
                + parts[i].len,
{
    lemma_tile_holds(parts, from, to, byte);
}

/// What follows one transfer of a part: the rest of it, its end, or a failure when nothing moved.
#[derive(Clone, Copy, Debug, PartialEq, Eq, Structural)]
pub enum Transfer {
    Rest(FilePart),
    Done,
    /// Nothing was moved, though bytes are left.
    Stalled,
}

/// Goes on after `moved` bytes of a part were moved.
pub fn advance(part: FilePart, moved: usize) -> (r: Transfer)
    requires
        moved <= part.len,
        part.offset + part.len <= usize::MAX,
    ensures
        r == if part.len == 0 {
            Transfer::Done
        } else if moved == 0 {
            Transfer::Stalled
        } else if moved == part.len {
            Transfer::Done
        } else {
            Transfer::Rest(
                FilePart {
                    offset: (part.offset + moved) as usize,
                    len: (part.len - moved) as usize,
                },
            )
        },
{
    if part.len == 0 {
        Transfer::Done
    } else if moved == 0 {
        Transfer::Stalled
    } else if moved == part.len {
        Transfer::Done
    } else {
        Transfer::Rest(FilePart { offset: part.offset + moved, len: part.len - moved })
    }
}

} // verus!
