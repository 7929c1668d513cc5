use logger_rs::init::InitLatch;

#[test]
fn second_claim_is_a_no_op() {
    let mut latch = InitLatch::new();
    assert!(!latch.is_initialized());
    assert!(latch.claim());
    assert!(latch.is_initialized());
    assert!(!latch.claim());
    assert!(!latch.claim());
    assert!(latch.is_initialized());
}
