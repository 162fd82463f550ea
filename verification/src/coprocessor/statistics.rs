//! What the executors of a request tell of their work.

use vstd::prelude::*;

verus! {

/// What was done to one column family.
#[derive(Clone, Copy, Debug, PartialEq, Eq, Structural)]
pub struct CFStatistics {
    pub processed: usize,
    pub get: usize,
    pub next: usize,
    pub prev: usize,
    pub seek: usize,
    pub seek_for_prev: usize,
    pub over_seek_bound: usize,
}

impl CFStatistics {
    /// Nothing was done.
    pub fn new() -> (r: CFStatistics)
        ensures
            r == Self::zero(),
    {
        CFStatistics {
            processed: 0,
            get: 0,
            next: 0,
            prev: 0,
            seek: 0,
            seek_for_prev: 0,
            over_seek_bound: 0,
        }
    }

    pub open spec fn zero() -> CFStatistics {
        CFStatistics {
            processed: 0,
            get: 0,
            next: 0,
            prev: 0,
            seek: 0,
            seek_for_prev: 0,
            over_seek_bound: 0,
        }
    }
}

/// What was done to the column families that transactions use.
#[derive(Clone, Copy, Debug, PartialEq, Eq, Structural)]
pub struct Statistics {
    pub lock: CFStatistics,
    pub write: CFStatistics,
    pub data: CFStatistics,
}

impl Statistics {
    pub open spec fn zero() -> Statistics {
        Statistics {
            lock: CFStatistics::zero(),
            write: CFStatistics::zero(),
            data: CFStatistics::zero(),
        }
    }

    /// Nothing was done.
    pub fn new() -> (r: Statistics)
        ensures
            r == Self::zero(),
    {
        Statistics { lock: CFStatistics::new(), write: CFStatistics::new(), data: CFStatistics::new() }
    }
}

/// The sum of two counts, `usize::MAX` where that is less.
pub open spec fn capped_sum(a: usize, b: usize) -> usize {
    if a + b > usize::MAX {
        usize::MAX
    } else {
        (a + b) as usize
    }
}

/// The sum of two counts, `usize::MAX` where that is less.
pub fn add_capped(a: usize, b: usize) -> (r: usize)
    ensures
        r == capped_sum(a, b),
{
    if a > usize::MAX - b {
        usize::MAX
    } else {
        a + b
    }
}

/// What an executor tells of its work.
#[derive(Clone, Copy, Debug, PartialEq, Eq, Structural)]
pub struct ExecSummary {
    /// The time spent in the executor, in milliseconds.
    pub time_processed_ms: usize,
    /// The number of rows that the executor has produced.
    pub num_produced_rows: usize,
    /// The number of batches that the executor was asked for.
    pub num_iterations: usize,
}

impl Default for ExecSummary {
    fn default() -> (r: ExecSummary)
        ensures
            r == (ExecSummary { time_processed_ms: 0, num_produced_rows: 0, num_iterations: 0 }),
    {
        ExecSummary { time_processed_ms: 0, num_produced_rows: 0, num_iterations: 0 }
    }
}

impl ExecSummary {
    /// The summary of no work.
    pub open spec fn zero() -> ExecSummary {
        ExecSummary { time_processed_ms: 0, num_produced_rows: 0, num_iterations: 0 }
    }

    /// The two summaries added up, each count capped at `usize::MAX`.
    pub open spec fn merged(self, other: ExecSummary) -> ExecSummary {
        ExecSummary {
            time_processed_ms: capped_sum(other.time_processed_ms, self.time_processed_ms),
            num_produced_rows: capped_sum(other.num_produced_rows, self.num_produced_rows),
            num_iterations: capped_sum(other.num_iterations, self.num_iterations),
        }
    }

    /// Adds the summary to `target`.
    #[inline]
    pub fn merge_into(self, target: &mut Self)
        ensures
            *final(target) == self.merged(*old(target)),
    {
        target.time_processed_ms = add_capped(target.time_processed_ms, self.time_processed_ms);
        target.num_produced_rows = add_capped(target.num_produced_rows, self.num_produced_rows);
        target.num_iterations = add_capped(target.num_iterations, self.num_iterations);
    }
}

/// What the executors of a request hand up at once.
#[derive(Debug)]
pub struct BatchExecuteStatistics {
    /// The summary of each executor, where it has one.
    pub summary_per_executor: Vec<Option<ExecSummary>>,
    /// For each range of the request, the number of rows scanned.
    pub scanned_rows_per_range: Vec<usize>,
    /// What was done to each column family.
    pub cf_stats: Statistics,
}

impl BatchExecuteStatistics {
    /// No summary for any of the `executors`, no row in any of the `ranges`, nothing done.
    pub open spec fn is_clear(&self, executors: nat, ranges: nat) -> bool {
        &&& self.summary_per_executor@.len() == executors
        &&& forall|i: int| 0 <= i < executors ==> #[trigger] self.summary_per_executor@[i] is None
        &&& self.scanned_rows_per_range@.len() == ranges
        &&& forall|i: int| 0 <= i < ranges ==> #[trigger] self.scanned_rows_per_range@[i] == 0
        &&& self.cf_stats == Statistics::zero()
    }

    pub fn new(executors: usize, ranges: usize) -> (r: Self)
        ensures
            r.is_clear(executors as nat, ranges as nat),
    {
        let mut summary_per_executor: Vec<Option<ExecSummary>> = Vec::new();
        let mut i: usize = 0;
        while i < executors
            invariant
                i <= executors,
                summary_per_executor@.len() == i,
                forall|j: int| 0 <= j < i ==> #[trigger] summary_per_executor@[j] is None,
            decreases executors - i,
        {
            summary_per_executor.push(None);
            i += 1;
        }
        let mut scanned_rows_per_range: Vec<usize> = Vec::new();
        let mut k: usize = 0;
        while k < ranges
            invariant
                k <= ranges,
                scanned_rows_per_range@.len() == k,
                forall|j: int| 0 <= j < k ==> #[trigger] scanned_rows_per_range@[j] == 0,
            decreases ranges - k,
        {
            scanned_rows_per_range.push(0);
            k += 1;
        }
        Self { summary_per_executor, scanned_rows_per_range, cf_stats: Statistics::new() }
    }

    /// Wipes everything; the numbers of executors and ranges stay.
    pub fn clear(&mut self)
        ensures
            final(self).is_clear(
                old(self).summary_per_executor@.len(),
                old(self).scanned_rows_per_range@.len(),
            ),
    {
        let n: usize = self.summary_per_executor.len();
        let mut i: usize = 0;
        while i < n
            invariant
                i <= n,
                n == self.summary_per_executor@.len(),
                self.scanned_rows_per_range == old(self).scanned_rows_per_range,
                forall|j: int| 0 <= j < i ==> #[trigger] self.summary_per_executor@[j] is None,
            decreases n - i,
        {
            self.summary_per_executor[i] = None;
            i += 1;
        }
        let m: usize = self.scanned_rows_per_range.len();
        let mut k: usize = 0;
        while k < m
            invariant
                k <= m,
                m == self.scanned_rows_per_range@.len(),
                n == self.summary_per_executor@.len(),
                forall|j: int| 0 <= j < n ==> #[trigger] self.summary_per_executor@[j] is None,
                forall|j: int| 0 <= j < k ==> #[trigger] self.scanned_rows_per_range@[j] == 0,
            decreases m - k,
        {
            self.scanned_rows_per_range[k] = 0;
            k += 1;
        }
        self.cf_stats = Statistics::new();
    }
}

/// `std::time::Instant`: a point in time.
#[verifier::external_type_specification]
#[verifier::external_body]
pub struct ExInstant(std::time::Instant);

/// `std::time::Instant::now`: the time of the call. Nothing is said of it.
#[verifier::external_body]
fn clock_now() -> (r: std::time::Instant) {
    std::time::Instant::now()
}

/// `std::time::Instant::elapsed`: the time that has gone by since `since`. Nothing is said
/// of it.
#[verifier::external_body]
fn clock_elapsed(since: &std::time::Instant) -> (r: std::time::Duration) {
    since.elapsed()
}

/// `std::time::Duration::as_millis`: the whole milliseconds of the span. Nothing is said
/// of them.
#[verifier::external_body]
fn duration_millis(d: &std::time::Duration) -> (r: u128) {
    d.as_millis()
}

/// What a collector that has gathered `g` starts over with: the same place, and no work.
pub open spec fn started_over(g: Option<(usize, ExecSummary)>) -> Option<(usize, ExecSummary)> {
    match g {
        Some((place, _)) => Some((place, ExecSummary::zero())),
        None => None,
    }
}

/// The summaries of `target` once a collector that has gathered `g` has handed its own
/// over: it is added to the summary at its place, or put there where there is none. A
/// collector that gathers nothing, or whose place `target` lacks, changes nothing.
pub open spec fn collected(g: Option<(usize, ExecSummary)>, target: Seq<Option<ExecSummary>>) -> Seq<
    Option<ExecSummary>,
> {
    match g {
        Some((place, s)) => if place < target.len() {
            target.update(
                place as int,
                Some(
                    match target[place as int] {
                        Some(t) => s.merged(t),
                        None => s,
                    },
                ),
            )
        } else {
            target
        },
        None => target,
    }
}

/// Gathers the summary of one executor.
pub trait ExecSummaryCollector: Sized {
    /// What measures the time of a batch.
    type DurationRecorder;

    /// The place that the summary is handed to and the summary gathered so far; `None`
    /// for a collector that gathers nothing.
    spec fn gathered(&self) -> Option<(usize, ExecSummary)>;

    /// A collector that hands its summary to the place `output_index`.
    fn new(output_index: usize) -> (r: Self)
        ensures
            r.gathered() is None || r.gathered() == Some((output_index, ExecSummary::zero())),
    ;

    /// To be called when the executor is asked for a batch. What it returns is to be
    /// handed to `on_finish_batch` when the batch is done.
    fn on_start_batch(&mut self) -> (dr: Self::DurationRecorder)
        ensures
            final(self).gathered() == (match old(self).gathered() {
                Some((place, s)) => Some(
                    (place, ExecSummary { num_iterations: capped_sum(s.num_iterations, 1), ..s }),
                ),
                None => None,
            }),
    ;

    /// To be called when the batch is done, with the number of rows in it.
    fn on_finish_batch(&mut self, dr: Self::DurationRecorder, rows: usize)
        ensures
            match old(self).gathered() {
                Some((place, s)) => final(self).gathered() matches Some((at, t)) && at == place
                    && t.num_produced_rows == capped_sum(s.num_produced_rows, rows)
                    && t.num_iterations == s.num_iterations && t.time_processed_ms
                    >= s.time_processed_ms,
                None => final(self).gathered() is None,
            },
    ;

    /// Adds the summary gathered to its place in `target`, and starts over.
    fn collect_into(&mut self, target: &mut Vec<Option<ExecSummary>>)
        ensures
            final(target)@ == collected(old(self).gathered(), old(target)@),
            final(self).gathered() == started_over(old(self).gathered()),
    ;
}

/// A collector that gathers.
#[derive(Debug)]
pub struct ExecSummaryCollectorEnabled {
    pub output_index: usize,
    pub counts: ExecSummary,
}

impl ExecSummaryCollectorEnabled {
    /// Takes note of a batch of `rows` rows that took `elapsed_ms` milliseconds.
    pub fn record(&mut self, elapsed_ms: usize, rows: usize)
        ensures
            final(self).output_index == old(self).output_index,
            final(self).counts == (ExecSummary {
                num_produced_rows: capped_sum(old(self).counts.num_produced_rows, rows),
                time_processed_ms: capped_sum(old(self).counts.time_processed_ms, elapsed_ms),
                ..old(self).counts
            }),
    {
        self.counts.num_produced_rows = add_capped(self.counts.num_produced_rows, rows);
        self.counts.time_processed_ms = add_capped(self.counts.time_processed_ms, elapsed_ms);
    }
}

impl ExecSummaryCollector for ExecSummaryCollectorEnabled {
    type DurationRecorder = std::time::Instant;

    open spec fn gathered(&self) -> Option<(usize, ExecSummary)> {
        Some((self.output_index, self.counts))
    }

    #[inline]
    fn new(output_index: usize) -> (r: ExecSummaryCollectorEnabled)
        ensures
            r.output_index == output_index,
            r.counts == ExecSummary::zero(),
    {
        ExecSummaryCollectorEnabled {
            output_index,
            counts: ExecSummary { time_processed_ms: 0, num_produced_rows: 0, num_iterations: 0 },
        }
    }

    #[inline]
    fn on_start_batch(&mut self) -> (dr: std::time::Instant)
        ensures
            final(self).output_index == old(self).output_index,
            final(self).counts == (ExecSummary {
                num_iterations: capped_sum(old(self).counts.num_iterations, 1),
                ..old(self).counts
            }),
    {
        self.counts.num_iterations = add_capped(self.counts.num_iterations, 1);
        clock_now()
    }

    #[inline]
    fn on_finish_batch(&mut self, dr: std::time::Instant, rows: usize)
        ensures
            final(self).output_index == old(self).output_index,
            final(self).counts.num_produced_rows == capped_sum(
                old(self).counts.num_produced_rows,
                rows,
            ),
            final(self).counts.num_iterations == old(self).counts.num_iterations,
            final(self).counts.time_processed_ms >= old(self).counts.time_processed_ms,
    {
        let elapsed = clock_elapsed(&dr);
        let ms: u128 = duration_millis(&elapsed);
        let elapsed_time: usize = if ms > usize::MAX as u128 {
            usize::MAX
        } else {
            ms as usize
        };
        self.record(elapsed_time, rows);
    }

    #[inline]
    fn collect_into(&mut self, target: &mut Vec<Option<ExecSummary>>)
        ensures
            final(self).output_index == old(self).output_index,
            final(self).counts == ExecSummary::zero(),
            old(self).output_index < old(target)@.len() ==> final(target)@ == old(target)@.update(
                old(self).output_index as int,
                Some(
                    match old(target)@[old(self).output_index as int] {
                        Some(t) => old(self).counts.merged(t),
                        None => old(self).counts,
                    },
                ),
            ),
            old(self).output_index >= old(target)@.len() ==> final(target)@ == old(target)@,
    {
        let current_summary = self.counts;
        self.counts = ExecSummary { time_processed_ms: 0, num_produced_rows: 0, num_iterations: 0 };
        if self.output_index >= target.len() {
            return ;
        }
        let merged = match target[self.output_index] {
            Some(t) => {
                let mut t = t;
                current_summary.merge_into(&mut t);
                t
            },
            None => current_summary,
        };
        target[self.output_index] = Some(merged);
    }
}

/// A collector that gathers nothing.
#[derive(Clone, Copy, Debug, PartialEq, Eq, Structural)]
pub struct ExecSummaryCollectorDisabled;

impl ExecSummaryCollector for ExecSummaryCollectorDisabled {
    type DurationRecorder = ();

    open spec fn gathered(&self) -> Option<(usize, ExecSummary)> {
        None
    }

    #[inline]
    fn new(_output_index: usize) -> ExecSummaryCollectorDisabled {
        ExecSummaryCollectorDisabled
    }

    #[inline]
    fn on_start_batch(&mut self)
        ensures
            *final(self) == *old(self),
    {
    }

    #[inline]
    fn on_finish_batch(&mut self, _dr: (), _rows: usize)
        ensures
            *final(self) == *old(self),
    {
    }

    #[inline]
    fn collect_into(&mut self, _target: &mut Vec<Option<ExecSummary>>)
        ensures
            *final(self) == *old(self),
            *final(_target) == *old(_target),
    {
    }
}

} // verus!
