use rtracer::PoolLedger;

#[test]
fn drained_only_when_all_finished() {
    let mut l = PoolLedger::new();
    assert!(l.is_drained());
    l.submit();
    l.submit();
    assert!(!l.is_drained());
    assert!(l.start());
    assert!(l.start());
    assert!(!l.start());
    l.finish();
    assert!(!l.is_drained());
    l.finish();
    assert!(l.is_drained());
}
