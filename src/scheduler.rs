//! The bookkeeping of one video's matching run.
//!
//! Sampled frames are matched by a pool of workers; the run collects their
//! results, counts processed samples (unchanged ones included, though they are
//! never matched), and consolidates the results into a timeline at the end.
use vstd::prelude::*;
use crate::progress::ProgressUpdate;
use crate::timeline::{build_timeline, timeline_of, Matching};

verus! {

/// The state of one video's matching run.
pub struct MatchRun {
    results: Vec<Matching>,
    processed: u64,
    total: u64,
}

impl MatchRun {
    /// The results gathered so far, the end-of-video sentinel first.
    pub closed spec fn results(&self) -> Seq<Matching> {
        self.results@
    }

    /// How many samples were processed so far.
    pub closed spec fn processed_count(&self) -> u64 {
        self.processed
    }

    /// How many samples the run expects.
    pub closed spec fn total_count(&self) -> u64 {
        self.total
    }

    /// Starts a run over a video of `total_frames` frames lasting `total_time_ms`,
    /// expecting `samples` samples: its only result is the end-of-video sentinel.
    pub fn new(total_frames: usize, total_time_ms: u64, samples: u64) -> (r: MatchRun)
        ensures
            r.results() == seq![Matching::sentinel_spec(total_time_ms, total_frames)],
            r.processed_count() == 0,
            r.total_count() == samples,
    {
        let mut results: Vec<Matching> = Vec::new();
        results.push(Matching::sentinel(total_time_ms, total_frames));
        assert(results@ =~= seq![Matching::sentinel_spec(total_time_ms, total_frames)]);
        MatchRun { results, processed: 0, total: samples }
    }

    /// The progress so far.
    pub fn progress(&self) -> (r: ProgressUpdate)
        ensures
            r.processed == self.processed_count(),
            r.total == self.total_count(),
    {
        ProgressUpdate { processed: self.processed, total: self.total }
    }

    /// How many samples were processed so far.
    pub fn processed(&self) -> (r: u64)
        ensures
            r == self.processed_count(),
    {
        self.processed
    }

    /// Counts an unchanged sample: it is processed, but adds no result.
    pub fn skip_unchanged(&mut self) -> (r: ProgressUpdate)
        requires
            old(self).processed_count() < u64::MAX,
        ensures
            final(self).results() == old(self).results(),
            final(self).processed_count() == old(self).processed_count() + 1,
            final(self).total_count() == old(self).total_count(),
            r.processed == final(self).processed_count(),
            r.total == final(self).total_count(),
    {
        self.processed = self.processed + 1;
        ProgressUpdate { processed: self.processed, total: self.total }
    }

    /// Adds the result of a matched sample and counts it as processed.
    pub fn record(&mut self, m: Matching) -> (r: ProgressUpdate)
        requires
            old(self).processed_count() < u64::MAX,
        ensures
            final(self).results() == old(self).results().push(m),
            final(self).processed_count() == old(self).processed_count() + 1,
            final(self).total_count() == old(self).total_count(),
            r.processed == final(self).processed_count(),
            r.total == final(self).total_count(),
    {
        self.results.push(m);
        self.processed = self.processed + 1;
        ProgressUpdate { processed: self.processed, total: self.total }
    }

    /// The final update: everything expected is processed.
    pub fn finished_update(&self) -> (r: ProgressUpdate)
        ensures
            r.processed == self.total_count(),
            r.total == self.total_count(),
    {
        ProgressUpdate { processed: self.total, total: self.total }
    }

    /// The timeline of the run: its results sorted by time, with each run of
    /// equal images folded into its first entry.
    pub fn finish(&self) -> (r: Vec<Matching>)
        ensures
            r@ == timeline_of(self.results()),
    {
        build_timeline(&self.results)
    }
}

} // verus!
