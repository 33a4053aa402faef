use efilite::latch::Latch;

#[test]
fn a_second_entry_is_turned_away() {
    let mut latch = Latch::new();
    assert!(latch.try_enter());
    assert!(!latch.try_enter());
    assert!(!latch.try_enter());
    latch.leave();
    assert!(latch.try_enter());
    latch.leave();
    latch.leave();
    assert!(latch.try_enter());
}
