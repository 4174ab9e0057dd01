//! Several files decoded at once, with their batches handed on in the order of the files.
//!
//! Each file has a queue of its own. The consumer takes from the queue of one file until that
//! file is done and only then goes on to the next, so the order of the rows does not depend on
//! which file is decoded first.
use vstd::prelude::*;

use crate::math::{max_usize, min_usize};

verus! {

/// What a file's queue gives next.
#[derive(Clone, Copy, Debug, PartialEq, Eq, Structural)]
pub enum FileMessage {
    Batch,
    Done,
    /// The reader of the file is gone.
    Closed,
}

/// What the consumer does with a message.
#[derive(Clone, Copy, Debug, PartialEq, Eq, Structural)]
pub enum DrainStep {
    /// Hand the batch on.
    Yield,
    /// Take the next message.
    Continue,
}

/// Where the consumer stands: the file whose queue it takes from.
pub struct OrderedDrain {
    pub n_files: usize,
    pub current: usize,
}

impl OrderedDrain {
    /// Only files that there are.
    pub open spec fn wf(&self) -> bool {
        self.current <= self.n_files
    }

    /// Starts at the first file.
    pub fn new(n_files: usize) -> (r: Self)
        ensures
            r.wf(),
            r.n_files == n_files,
            r.current == 0,
    {
        OrderedDrain { n_files, current: 0 }
    }

    /// The file to take from, or `None` when all are done.
    pub fn source(&self) -> (r: Option<usize>)
        ensures
            r == if self.current < self.n_files {
                Some(self.current)
            } else {
                None
            },
    {
        if self.current < self.n_files {
            Some(self.current)
        } else {
            None
        }
    }

    /// Takes a message of the current file: a batch is handed on, and the end of the file, in
    /// whatever way it comes, leads to the next file.
    pub fn take(&mut self, message: FileMessage) -> (r: DrainStep)
        requires
            old(self).wf(),
            old(self).current < old(self).n_files,
        ensures
            final(self).wf(),
            final(self).n_files == old(self).n_files,
            message == FileMessage::Batch ==> r == DrainStep::Yield && final(self).current
                == old(self).current,
            message != FileMessage::Batch ==> r == DrainStep::Continue && final(self).current
                == old(self).current + 1,
    {
        match message {
            FileMessage::Batch => DrainStep::Yield,
            _ => {
                self.current = self.current + 1;
                DrainStep::Continue
            },
        }
    }
}

/// What the consumer hands on when the files hold these batches and end: from file `from` on,
/// leaving out the first `skipped` batches of that file.
pub open spec fn drained<T>(files: Seq<Seq<T>>, from: int, skipped: int) -> Seq<T>
    decreases files.len() - from,
{
    if from < 0 || from >= files.len() {
        seq![]
    } else {
        files[from].skip(skipped) + drained(files, from + 1, 0)
    }
}

/// The batches come out file by file, in the order of the files and, in a file, in its own
/// order: `Yield` hands on the first batch of what is left, and `Continue` at the end of a file
/// leaves what is left as it is.
pub proof fn law_batches_come_in_file_order<T>(files: Seq<Seq<T>>, from: int, skipped: int)
    requires
        0 <= from < files.len(),
        0 <= skipped <= files[from].len(),
    ensures
        drained(files, 0, 0) == files.flatten(),
        skipped < files[from].len() ==> drained(files, from, skipped) == seq![files[from][skipped]]
            + drained(files, from, skipped + 1),
        skipped == files[from].len() ==> drained(files, from, skipped) == drained(
            files,
            from + 1,
            0,
        ),
{
    lemma_drained_from(files, 0);
    assert(files.skip(0) =~= files);
    if skipped < files[from].len() {
        assert(files[from].skip(skipped) =~= seq![files[from][skipped]] + files[from].skip(
            skipped + 1,
        ));
        assert(drained(files, from, skipped) =~= seq![files[from][skipped]] + drained(
            files,
            from,
            skipped + 1,
        ));
    } else {
        assert(files[from].skip(skipped) =~= Seq::<T>::empty());
        assert(drained(files, from, skipped) =~= drained(files, from + 1, 0));
    }
}

proof fn lemma_drained_from<T>(files: Seq<Seq<T>>, from: int)
    requires
        0 <= from <= files.len(),
    ensures
        drained(files, from, 0) == files.skip(from).flatten(),
    decreases files.len() - from,
{
    let rest = files.skip(from);
    if from < files.len() {
        lemma_drained_from(files, from + 1);
        assert(rest.first() == files[from]);
        assert(rest.drop_first() =~= files.skip(from + 1));
        assert(files[from].skip(0) =~= files[from]);
        assert(rest.flatten() == rest.first() + rest.drop_first().flatten());
    } else {
        assert(rest =~= Seq::<Seq<T>>::empty());
        assert(drained(files, from, 0) =~= rest.flatten());
    }
}

/// How many readers run: no more than wanted, no more than files, and at least one.
pub fn reader_count(threads: usize, n_files: usize) -> (r: usize)
    ensures
        r == crate::math::imin(
            crate::math::imax(threads as int, 1),
            crate::math::imax(n_files as int, 1),
        ),
{
    min_usize(max_usize(threads, 1), max_usize(n_files, 1))
}

} // verus!
