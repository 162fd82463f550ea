//! The executor that lets through a given number of rows and no more.

use crate::coprocessor::error::{Error, Result};
use crate::coprocessor::statistics::{
    capped_sum, collected, started_over, BatchExecuteStatistics, ExecSummary, ExecSummaryCollector,
};
use vstd::prelude::*;

verus! {

/// What an executor hands up when asked for a batch.
#[derive(Debug)]
pub struct BatchExecuteResult<R> {
    /// The rows of the batch.
    pub data: Vec<R>,
    /// The number of warnings raised while the batch was made.
    pub warnings: usize,
    /// Whether the executor has no more rows, or the error that has stopped it.
    pub is_drained: Result<bool>,
}

/// An executor: it produces rows in batches.
pub trait BatchExecutor {
    /// What a row is.
    type Row;

    /// The next rows, about `expect_rows` of them.
    fn next_batch(&mut self, expect_rows: usize) -> BatchExecuteResult<Self::Row>;

    /// Adds what the executor and those below it have to tell to `destination`.
    fn collect_statistics(&mut self, destination: &mut BatchExecuteStatistics);
}

/// The batch that the limit lets through, and how many rows may still come. A batch with
/// fewer rows than may come goes through as it is. Any other is cut to the rows that may
/// come, and tells that no more will: even where the source has failed, for what it has
/// failed at lies behind the limit.
pub fn limit_batch<R>(result: BatchExecuteResult<R>, remaining_rows: usize) -> (r: (
    BatchExecuteResult<R>,
    usize,
))
    ensures
        r.0.warnings == result.warnings,
        result.data@.len() < remaining_rows ==> r.0.data@ == result.data@ && r.0.is_drained
            == result.is_drained && r.1 == remaining_rows - result.data@.len(),
        result.data@.len() >= remaining_rows ==> r.0.data@ == result.data@.take(
            remaining_rows as int,
        ) && (r.0.is_drained matches Ok(true)) && r.1 == 0,
{
    let ghost given = result.data@;
    let mut result = result;
    if result.data.len() < remaining_rows {
        let left: usize = remaining_rows - result.data.len();
        (result, left)
    } else {
        result.data.truncate(remaining_rows);
        assert(result.data@ =~= given.take(remaining_rows as int));
        result.is_drained = Ok(true);
        (result, 0)
    }
}

/// Executor that retrieves rows from the source executor and only produces part of the
/// rows.
pub struct BatchLimitExecutor<Src: BatchExecutor, C: ExecSummaryCollector> {
    src: Src,
    remaining_rows: usize,
    summary_collector: C,
}

impl<Src: BatchExecutor, C: ExecSummaryCollector> BatchLimitExecutor<Src, C> {
    /// The rows that may still come.
    pub closed spec fn spec_remaining_rows(&self) -> usize {
        self.remaining_rows
    }

    /// The place that the summary of this executor is handed to and the summary gathered
    /// so far; `None` where none is gathered.
    pub closed spec fn spec_gathered(&self) -> Option<(usize, ExecSummary)> {
        self.summary_collector.gathered()
    }

    /// An executor that lets through `limit` rows of `src`. A limit of 0 is refused.
    pub fn new(src: Src, limit: usize, summary_collector: C) -> (r: Result<Self>)
        ensures
            limit == 0 ==> (r matches Err(Error::Other(s)) && s@ == "limit should not be zero"@),
            limit > 0 ==> (r matches Ok(e) && e.spec_remaining_rows() == limit
                && e.spec_gathered() == summary_collector.gathered()),
    {
        if limit == 0 {
            return Err(Error::Other("limit should not be zero".to_owned()));
        }
        Ok(Self { src, remaining_rows: limit, summary_collector })
    }

    /// The rows that may still come.
    pub fn remaining_rows(&self) -> (r: usize)
        ensures
            r == self.spec_remaining_rows(),
    {
        self.remaining_rows
    }
}

impl<Src: BatchExecutor, C: ExecSummaryCollector> BatchExecutor for BatchLimitExecutor<Src, C> {
    type Row = Src::Row;

    /// The next rows of the source, as far as the limit lets them through.
    #[inline]
    fn next_batch(&mut self, expect_rows: usize) -> (result: BatchExecuteResult<Src::Row>)
        ensures
            result.data@.len() <= old(self).spec_remaining_rows(),
            final(self).spec_remaining_rows() == old(self).spec_remaining_rows()
                - result.data@.len(),
            final(self).spec_remaining_rows() == 0 ==> (result.is_drained matches Ok(true)),
            match old(self).spec_gathered() {
                Some((place, s)) => final(self).spec_gathered() matches Some((at, t)) && at == place
                    && t.num_iterations == capped_sum(s.num_iterations, 1) && t.num_produced_rows
                    == capped_sum(s.num_produced_rows, result.data@.len() as usize)
                    && t.time_processed_ms >= s.time_processed_ms,
                None => final(self).spec_gathered() is None,
            },
    {
        let timer = self.summary_collector.on_start_batch();
        let result = self.src.next_batch(expect_rows);
        let (result, left) = limit_batch(result, self.remaining_rows);
        self.remaining_rows = left;
        self.summary_collector.on_finish_batch(timer, result.data.len());
        result
    }

    /// Lets the source add what it has to tell, then adds the summary of this executor
    /// to its place among the summaries that the source has left, and starts the summary
    /// over.
    #[inline]
    fn collect_statistics(&mut self, destination: &mut BatchExecuteStatistics)
        ensures
            final(self).spec_remaining_rows() == old(self).spec_remaining_rows(),
            final(self).spec_gathered() == started_over(old(self).spec_gathered()),
            exists|left: Seq<Option<ExecSummary>>|
                final(destination).summary_per_executor@ == #[trigger] collected(
                    old(self).spec_gathered(),
                    left,
                ),
    {
        self.src.collect_statistics(destination);
        let ghost left = destination.summary_per_executor@;
        self.summary_collector.collect_into(&mut destination.summary_per_executor);
        assert(destination.summary_per_executor@ == collected(old(self).spec_gathered(), left));
    }
}

} // verus!
