//! Aggregation of progress over nested sub-tasks.
//!
//! Each sub-task (one per video, or one per document) reports its own
//! (processed, total) pair; the aggregator keeps the latest pair of each and
//! forwards their sums as one combined update.
use vstd::prelude::*;

verus! {

/// A combined progress update: how much is processed, out of how much.
#[derive(Clone, Copy, Debug, PartialEq, Eq, Structural)]
pub struct ProgressUpdate {
    pub processed: u64,
    pub total: u64,
}

/// The handle through which one sub-task reports its progress.
#[derive(Clone, Copy, Debug, PartialEq, Eq, Structural)]
pub struct ProgressReporter {
    pub index: usize,
}

/// The latest (processed, total) pair of every sub-task created so far.
pub struct ComposedProgressReporter {
    progress: Vec<(u64, u64)>,
}

/// The sum of the processed counts of `s`.
pub open spec fn sum_processed(s: Seq<(u64, u64)>) -> int
    decreases s.len(),
{
    if s.len() == 0 {
        0
    } else {
        sum_processed(s.drop_last()) + s.last().0
    }
}

/// The sum of the totals of `s`.
pub open spec fn sum_total(s: Seq<(u64, u64)>) -> int
    decreases s.len(),
{
    if s.len() == 0 {
        0
    } else {
        sum_total(s.drop_last()) + s.last().1
    }
}

/// `n`, or the largest `u64` where `n` does not fit.
pub open spec fn saturate(n: int) -> u64 {
    if n > u64::MAX {
        u64::MAX
    } else {
        n as u64
    }
}

proof fn lemma_sums_nonnegative(s: Seq<(u64, u64)>)
    ensures
        sum_processed(s) >= 0,
        sum_total(s) >= 0,
    decreases s.len(),
{
    if s.len() > 0 {
        lemma_sums_nonnegative(s.drop_last());
    }
}

impl ProgressReporter {
    pub fn new(index: usize) -> (r: ProgressReporter)
        ensures
            r.index == index,
    {
        ProgressReporter { index }
    }

    /// Reports this sub-task's progress to `aggregator`, returning the combined
    /// update to forward.
    pub fn report(&self, aggregator: &mut ComposedProgressReporter, processed: u64, total: u64) -> (r:
        ProgressUpdate)
        requires
            self.index < old(aggregator)@.len(),
        ensures
            final(aggregator)@ == old(aggregator)@.update(self.index as int, (processed, total)),
            r.processed == saturate(sum_processed(final(aggregator)@)),
            r.total == saturate(sum_total(final(aggregator)@)),
    {
        aggregator.update(self.index, processed, total)
    }
}

impl ComposedProgressReporter {
    pub closed spec fn view(&self) -> Seq<(u64, u64)> {
        self.progress@
    }

    pub fn new() -> (r: ComposedProgressReporter)
        ensures
            r@ == Seq::<(u64, u64)>::empty(),
    {
        ComposedProgressReporter { progress: Vec::new() }
    }

    /// Adds a sub-task with nothing processed out of nothing.
    pub fn create_nested(&mut self) -> (r: ProgressReporter)
        ensures
            final(self)@ == old(self)@.push((0u64, 0u64)),
            r.index == old(self)@.len(),
    {
        let index = self.progress.len();
        self.progress.push((0, 0));
        ProgressReporter { index }
    }

    /// Records the latest pair of sub-task `index` and returns the sums over all
    /// sub-tasks (each capped at the largest `u64`).
    pub fn update(&mut self, index: usize, processed: u64, total: u64) -> (r: ProgressUpdate)
        requires
            index < old(self)@.len(),
        ensures
            final(self)@ == old(self)@.update(index as int, (processed, total)),
            r.processed == saturate(sum_processed(final(self)@)),
            r.total == saturate(sum_total(final(self)@)),
    {
        self.progress.set(index, (processed, total));
        self.combined()
    }

    /// The sums over all sub-tasks, each capped at the largest `u64`.
    pub fn combined(&self) -> (r: ProgressUpdate)
        ensures
            r.processed == saturate(sum_processed(self@)),
            r.total == saturate(sum_total(self@)),
    {
        let mut processed: u64 = 0;
        let mut total: u64 = 0;
        let mut i: usize = 0;
        while i < self.progress.len()
            invariant
                0 <= i <= self.progress.len(),
                processed == saturate(sum_processed(self.progress@.take(i as int))),
                total == saturate(sum_total(self.progress@.take(i as int))),
            decreases self.progress.len() - i,
        {
            proof {
                let s = self.progress@.take(i + 1);
                assert(s.drop_last() =~= self.progress@.take(i as int));
                lemma_sums_nonnegative(self.progress@.take(i as int));
            }
            let (p, t) = self.progress[i];
            processed = processed.saturating_add(p);
            total = total.saturating_add(t);
            i += 1;
        }
        assert(self.progress@.take(self.progress.len() as int) =~= self.progress@);
        ProgressUpdate { processed, total }
    }
}

} // verus!
