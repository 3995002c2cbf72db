use analytics_core::access::Access;
use analytics_core::pool::{PoolConsumer, PoolDirective, PoolEvent, FLUSH_THRESHOLD};

fn record(date: i64, uri: &str) -> Access {
    Access {
        date,
        peer_addr: None,
        user_agent: None,
        referer: None,
        method: "GET".to_owned(),
        uri: uri.to_owned(),
    }
}

#[test]
fn tick_always_attempts_flush() {
    let mut pool = PoolConsumer::new();
    let d = pool.step(PoolEvent::Tick);
    assert_eq!(d, PoolDirective::Flush);
}

#[test]
fn empty_buffer_flush_is_no_op() {
    let pool = PoolConsumer::new();
    assert!(pool.flush_payload().is_none());
}

#[test]
fn single_access_happy_path() {
    let mut pool = PoolConsumer::new();
    let d = pool.step(PoolEvent::Batch(vec![record(1700000000, "/")]));
    assert_eq!(d, PoolDirective::Continue);
    let payload = pool.flush_payload().expect("one record buffered");
    assert_eq!(
        payload,
        "[{\"date\":1700000000,\"peer_addr\":null,\"user_agent\":null,\
         \"referer\":null,\"method\":\"GET\",\"uri\":\"/\"}]"
    );
    pool.apply_flush_result(true);
    assert!(pool.flush_payload().is_none());
    assert!(!pool.drain_pending());
}

#[test]
fn flush_failure_retains_records() {
    let mut pool = PoolConsumer::new();
    pool.step(PoolEvent::Batch(vec![record(1, "/a")]));
    let first = pool.flush_payload().unwrap();
    pool.apply_flush_result(false);
    let second = pool.flush_payload().unwrap();
    assert_eq!(first, second);
    pool.apply_flush_result(true);
    assert!(pool.flush_payload().is_none());
}

#[test]
fn threshold_batch_triggers_immediate_flush() {
    let mut pool = PoolConsumer::new();
    assert_eq!(pool.recv_capacity(), FLUSH_THRESHOLD);
    let batch: Vec<Access> = (0..1024).map(|i| record(i as i64, "/")).collect();
    let d = pool.step(PoolEvent::Batch(batch));
    assert_eq!(d, PoolDirective::Flush);
    assert_eq!(pool.recv_capacity(), 0);
}

#[test]
fn threshold_plus_one_leaves_one_record() {
    let mut pool = PoolConsumer::new();
    // The queue holds 1025 records: the consumer reads at most its
    // remaining capacity, flushes the full buffer, then reads the rest.
    let cap = pool.recv_capacity();
    assert_eq!(cap, 1024);
    let batch: Vec<Access> = (0..cap).map(|i| record(i as i64, "/")).collect();
    let d = pool.step(PoolEvent::Batch(batch));
    assert_eq!(d, PoolDirective::Flush);
    pool.apply_flush_result(true);
    let d = pool.step(PoolEvent::Batch(vec![record(1024, "/")]));
    assert_eq!(d, PoolDirective::Continue);
    assert_eq!(pool.recv_capacity(), 1023);
    assert!(pool.drain_pending());
}

#[test]
fn below_threshold_does_not_flush() {
    let mut pool = PoolConsumer::new();
    let batch: Vec<Access> = (0..1023).map(|i| record(i as i64, "/")).collect();
    let d = pool.step(PoolEvent::Batch(batch));
    assert_eq!(d, PoolDirective::Continue);
}

#[test]
fn queue_close_and_shutdown_start_drain() {
    let mut pool = PoolConsumer::new();
    pool.step(PoolEvent::Batch(vec![record(1, "/")]));
    let d = pool.step(PoolEvent::Batch(vec![]));
    assert_eq!(d, PoolDirective::Drain);
    assert!(pool.drain_pending());
    let d = pool.step(PoolEvent::Shutdown);
    assert_eq!(d, PoolDirective::Drain);
}

#[test]
fn drain_retries_until_success() {
    let mut pool = PoolConsumer::new();
    pool.step(PoolEvent::Batch(vec![record(1, "/")]));
    pool.step(PoolEvent::Batch(vec![]));
    // Two failed attempts, then one delivered attempt ends the drain.
    let mut attempts = 0;
    while pool.drain_pending() {
        let _payload = pool.flush_payload().unwrap();
        attempts += 1;
        pool.apply_flush_result(attempts >= 3);
    }
    assert_eq!(attempts, 3);
    assert!(pool.flush_payload().is_none());
}

#[test]
fn threshold_plus_one_without_delivery() {
    // The same boundary when the threshold flush is not delivered: the
    // full buffer is retained and no room opens for the trailing record.
    let mut pool = PoolConsumer::new();
    let batch: Vec<Access> = (0..1024).map(|i| record(i as i64, "/")).collect();
    let d = pool.step(PoolEvent::Batch(batch));
    assert_eq!(d, PoolDirective::Flush);
    pool.apply_flush_result(false);
    assert_eq!(pool.recv_capacity(), 0);
    assert!(pool.drain_pending());
}
