use tikv::coprocessor::error::{from_txn_error, Error};
use tikv::coprocessor::limit::{limit_batch, BatchExecuteResult, BatchExecutor, BatchLimitExecutor};
use tikv::coprocessor::statistics::{
    BatchExecuteStatistics, ExecSummary, ExecSummaryCollector, ExecSummaryCollectorDisabled,
    ExecSummaryCollectorEnabled, Statistics,
};
use tikv::storage::mvcc::Error as MvccError;
use tikv::storage::store::Error as TxnError;

type Row = (i64, Option<i64>, Option<f64>);

struct MockExecutor {
    // ID(INT,PK), Foo(INT), Bar(Float,Default 4.5)
    data: Vec<Row>,
    offset: usize,
}

impl MockExecutor {
    /// create the MockExecutor with fixed schema and data.
    fn new() -> MockExecutor {
        let expect_rows = vec![
            (1, Some(10), Some(5.2)),
            (3, Some(-5), None),
            (4, None, Some(4.5)),
            (5, None, Some(0.1)),
            (6, None, Some(4.5)),
        ];

        MockExecutor { data: expect_rows, offset: 0 }
    }
}

impl BatchExecutor for MockExecutor {
    type Row = Row;

    fn next_batch(&mut self, expect_rows: usize) -> BatchExecuteResult<Row> {
        let upper = if expect_rows + self.offset > self.data.len() {
            self.data.len()
        } else {
            expect_rows + self.offset
        };
        let mut rows = Vec::with_capacity(self.data.len());
        for id in self.offset..upper {
            rows.push(self.data[id]);
        }
        self.offset = upper;
        BatchExecuteResult { data: rows, warnings: 0, is_drained: Ok(self.offset == self.data.len()) }
    }

    fn collect_statistics(&mut self, _: &mut BatchExecuteStatistics) {}
}

#[test]
fn test_limit_normal() {
    let data = vec![
        //limit, expect_rows(real get rows)
        (4, 3), // get less than limit
        (3, 4), // get more than limit
        (3, 3), // get equals to limit
    ];
    for (limit, get_rows) in data {
        let src = MockExecutor::new();
        let mut executor =
            BatchLimitExecutor::new(src, limit, ExecSummaryCollectorDisabled).unwrap();
        let res = executor.next_batch(get_rows);
        if limit <= get_rows {
            // is drained
            assert!(res.is_drained.as_ref().unwrap());
            assert_eq!(res.data.len(), limit);
        } else {
            assert!(!res.is_drained.as_ref().unwrap());
            assert_eq!(res.data.len(), get_rows);
        }
    }
}

#[test]
fn test_limit_remainning() {
    let src = MockExecutor::new();
    let mut executor = BatchLimitExecutor::new(src, 5, ExecSummaryCollectorDisabled).unwrap();
    let expect_rows = 3;
    let mut remaining_rows = 5;
    while remaining_rows > 0 {
        let res = executor.next_batch(expect_rows);
        remaining_rows -= res.data.len();
        assert_eq!(remaining_rows, executor.remaining_rows());
    }
}

#[test]
fn test_execution_summary() {
    let src = MockExecutor::new();
    let mut executor =
        BatchLimitExecutor::new(src, 4, ExecSummaryCollectorEnabled::new(1)).unwrap();
    executor.next_batch(1);
    executor.next_batch(2);
    let mut s = BatchExecuteStatistics::new(2, 1);
    // Collected statistics remain unchanged until `next_batch` generated delta statistics.
    for _ in 0..2 {
        executor.collect_statistics(&mut s);
        let exec_summary = s.summary_per_executor[1].as_ref().unwrap();
        assert_eq!(3, exec_summary.num_produced_rows);
        assert_eq!(2, exec_summary.num_iterations);
    }

    // we get 1 row since the limit is 4
    executor.next_batch(10);
    executor.collect_statistics(&mut s);
    let exec_summary = s.summary_per_executor[1].as_ref().unwrap();
    assert_eq!(4, exec_summary.num_produced_rows);
    assert_eq!(3, exec_summary.num_iterations);
}

#[test]
fn test_invalid_limit() {
    let src = MockExecutor::new();
    assert!(BatchLimitExecutor::new(src, 0, ExecSummaryCollectorDisabled).is_err());
    let src = MockExecutor::new();
    match BatchLimitExecutor::new(src, 0, ExecSummaryCollectorDisabled) {
        Err(Error::Other(s)) => assert_eq!(s, "limit should not be zero"),
        _ => panic!("expect an error"),
    }
}

/// MockErrExecutor is based on MockExecutor, the only difference is
/// that when call the function next_batch, it always returns is_drained error.
struct MockErrExecutor(MockExecutor);

impl MockErrExecutor {
    fn new() -> Self {
        MockErrExecutor(MockExecutor::new())
    }
}

impl BatchExecutor for MockErrExecutor {
    type Row = Row;

    fn next_batch(&mut self, expect_rows: usize) -> BatchExecuteResult<Row> {
        let mut result = self.0.next_batch(expect_rows);
        result.is_drained = Err(Error::Other("next batch mock error".to_string()));
        result
    }

    fn collect_statistics(&mut self, _: &mut BatchExecuteStatistics) {}
}

#[test]
fn test_src_next_batch_err() {
    let data = vec![
        //limit, expect_rows(real get rows)
        (4, 3), // error happens before limit rows
        (3, 4), // error happens after limit rows
        (3, 3), // error happens when get the limit + 1 row.
    ];
    for (limit, get_rows) in data {
        let src = MockErrExecutor::new();
        let mut executor =
            BatchLimitExecutor::new(src, limit, ExecSummaryCollectorDisabled).unwrap();
        let res = executor.next_batch(get_rows);
        if limit <= get_rows {
            // error happens after limit rows
            assert!(res.is_drained.as_ref().unwrap());
            assert_eq!(res.data.len(), limit);
        } else {
            // error happens before limit rows
            assert!(res.is_drained.as_ref().is_err());
            assert_eq!(res.data.len(), get_rows);
        }
    }
}

#[test]
fn test_limit_batch_cuts_rows() {
    let batch = BatchExecuteResult { data: vec![1, 2, 3, 4], warnings: 2, is_drained: Ok(false) };
    let (out, left) = limit_batch(batch, 3);
    assert_eq!(out.data, vec![1, 2, 3]);
    assert_eq!(out.warnings, 2);
    assert!(matches!(out.is_drained, Ok(true)));
    assert_eq!(left, 0);
    let batch = BatchExecuteResult { data: vec![1, 2], warnings: 0, is_drained: Ok(false) };
    let (out, left) = limit_batch(batch, 3);
    assert_eq!(out.data, vec![1, 2]);
    assert!(matches!(out.is_drained, Ok(false)));
    assert_eq!(left, 1);
}

#[test]
fn test_statistics_new_and_clear() {
    let mut s = BatchExecuteStatistics::new(3, 2);
    assert_eq!(s.summary_per_executor.len(), 3);
    assert!(s.summary_per_executor.iter().all(|x| x.is_none()));
    assert_eq!(s.scanned_rows_per_range, vec![0, 0]);
    assert_eq!(s.cf_stats, Statistics::new());
    s.summary_per_executor[1] =
        Some(ExecSummary { time_processed_ms: 1, num_produced_rows: 2, num_iterations: 3 });
    s.scanned_rows_per_range[0] = 9;
    s.cf_stats.write.seek = 4;
    s.clear();
    assert_eq!(s.summary_per_executor.len(), 3);
    assert!(s.summary_per_executor.iter().all(|x| x.is_none()));
    assert_eq!(s.scanned_rows_per_range, vec![0, 0]);
    assert_eq!(s.cf_stats, Statistics::new());
}

#[test]
fn test_summary_merge() {
    let a = ExecSummary { time_processed_ms: 1, num_produced_rows: 2, num_iterations: 3 };
    let mut b = ExecSummary { time_processed_ms: 10, num_produced_rows: 20, num_iterations: 30 };
    a.merge_into(&mut b);
    assert_eq!(b, ExecSummary { time_processed_ms: 11, num_produced_rows: 22, num_iterations: 33 });
    // a count stays at the largest number
    let big = ExecSummary { time_processed_ms: usize::MAX, num_produced_rows: 0, num_iterations: 0 };
    big.merge_into(&mut b);
    assert_eq!(b.time_processed_ms, usize::MAX);
    assert_eq!(ExecSummary::default().num_iterations, 0);

    let mut c = ExecSummaryCollectorEnabled::new(0);
    c.on_start_batch();
    c.record(5, 7);
    let mut target = vec![Some(a), None];
    c.collect_into(&mut target);
    assert_eq!(
        target[0],
        Some(ExecSummary { time_processed_ms: 6, num_produced_rows: 9, num_iterations: 4 })
    );
    assert_eq!(c.counts, ExecSummary::default());
    // a place that is not there is left alone
    let mut c = ExecSummaryCollectorEnabled::new(5);
    c.collect_into(&mut target);
    assert_eq!(target.len(), 2);
}

#[test]
fn test_error_from_txn_error() {
    let e = TxnError::Mvcc(MvccError::KeyIsLocked {
        key: b"k".to_vec(),
        primary: b"p".to_vec(),
        ts: 7,
        ttl: 9,
    });
    match from_txn_error(e) {
        Error::Locked(info) => {
            assert_eq!(info.key, b"k".to_vec());
            assert_eq!(info.primary_lock, b"p".to_vec());
            assert_eq!(info.lock_version, 7);
            assert_eq!(info.lock_ttl, 9);
        }
        o => panic!("expect Locked, but got {:?}", o),
    }
    match from_txn_error(TxnError::Mvcc(MvccError::WriteConflict)) {
        Error::Other(s) => assert_eq!(s, "write conflict"),
        o => panic!("expect Other, but got {:?}", o),
    }
}
