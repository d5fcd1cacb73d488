//! The mailbox of the compaction worker: the columns in which a memtable was
//! sealed wait here, in the order of their requests, until the worker takes
//! them. A request asks for no more than a look at the column; the column
//! itself says whether a merge is due.

use vstd::prelude::*;
use crate::error::StoreResult;

verus! {

/// The number of segments from which a column is merged in the background.
pub const MERGE_THRESHOLD: usize = 4;

/// The requests for compaction that wait for the worker.
pub struct Compactor {
    requests: Vec<usize>,
}

impl Compactor {
    /// The column indices that wait, oldest request first.
    pub closed spec fn pending(&self) -> Seq<usize> {
        self.requests@
    }

    /// A mailbox in which nothing waits.
    pub fn new() -> (c: Self)
        ensures
            c.pending().len() == 0,
    {
        Compactor { requests: Vec::new() }
    }

    /// Asks for a look at column `col_idx`. This never fails.
    pub fn request(&mut self, col_idx: usize) -> (res: StoreResult<()>)
        ensures
            res is Ok,
            final(self).pending() == old(self).pending().push(col_idx),
    {
        self.requests.push(col_idx);
        Ok(())
    }

    /// Takes the oldest request that waits, if there is one.
    pub fn take(&mut self) -> (res: Option<usize>)
        ensures
            match res {
                Some(c) => {
                    &&& old(self).pending().len() > 0
                    &&& c == old(self).pending()[0]
                    &&& final(self).pending() == old(self).pending().skip(1)
                },
                None => old(self).pending().len() == 0 && final(self).pending().len() == 0,
            },
    {
        if self.requests.len() == 0 {
            None
        } else {
            let c: usize = self.requests.remove(0);
            assert(self.requests@ =~= old(self).requests@.skip(1));
            Some(c)
        }
    }
}

} // verus!
