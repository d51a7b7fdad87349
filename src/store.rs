//! The record set that uploads replace or extend.
//!
//! Callers that share a store guard it with one lock: readers take a
//! snapshot before computing on it, and a replace or an append-and-merge is
//! one write.

use vstd::prelude::*;
use crate::data_processor::DataProcessor;
use crate::merging::{drop_repeats, merge_order};
use crate::models::UsageData;

verus! {

/// The current record set.
pub struct UsageStore {
    records: Vec<UsageData>,
}

impl View for UsageStore {
    type V = Seq<UsageData>;

    closed spec fn view(&self) -> Seq<UsageData> {
        self.records@
    }
}

impl UsageStore {
    /// An empty store.
    pub fn new() -> (r: UsageStore)
        ensures
            r@ == Seq::<UsageData>::empty(),
    {
        UsageStore { records: Vec::new() }
    }

    /// A copy of the current records.
    pub fn snapshot(&self) -> (r: Vec<UsageData>)
        ensures
            r@ == self@,
    {
        let n = self.records.len();
        let mut out: Vec<UsageData> = Vec::new();
        let mut i: usize = 0;
        while i < n
            invariant
                i <= n == self.records@.len(),
                out@ == self.records@.take(i as int),
            decreases n - i,
        {
            out.push(self.records[i].duplicate());
            i = i + 1;
            assert(out@ =~= self.records@.take(i as int));
        }
        assert(self.records@.take(n as int) =~= self.records@);
        out
    }

    /// The number of current records.
    pub fn len(&self) -> (r: usize)
        ensures
            r == self@.len(),
    {
        self.records.len()
    }

    /// Replaces the records.
    pub fn replace(&mut self, records: Vec<UsageData>)
        ensures
            final(self)@ == records@,
    {
        self.records = records;
    }

    /// Merges new records into the current ones.
    pub fn append_and_merge(&mut self, new: Vec<UsageData>)
        ensures
            final(self)@ == drop_repeats(merge_order(old(self)@ + new@)),
    {
        let mut existing: Vec<UsageData> = Vec::new();
        std::mem::swap(&mut existing, &mut self.records);
        self.records = DataProcessor::new().merge_data(existing, new);
    }
}

} // verus!
