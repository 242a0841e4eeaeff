use tableizer::view::ViewSlot;

#[test]
fn jobs_are_counted_up_and_earlier_ones_are_not_current() {
    let mut slot = ViewSlot::new();
    let first = slot.begin();
    assert_eq!(first, 1);
    slot.clear();
    assert!(!slot.building());
    let second = slot.begin();
    assert_eq!(second, 3);
    // What the first job built comes too late, and changes nothing.
    slot.finish(first, Some(vec![4, 2]));
    assert!(slot.building());
    assert_eq!(slot.len(), None);
    slot.finish(second, Some(vec![7]));
    assert!(!slot.building());
    assert_eq!(slot.len(), Some(1));
    slot.finish(first, Some(vec![4, 2]));
    assert_eq!(slot.len(), Some(1));
}
