use basalt::replacer::{ClockReplacer, Replacer};

#[test]
fn test_clock_replacer_initialization() {
    let replacer = ClockReplacer::new(10);
    assert_eq!(replacer.size(), 0);
}

#[test]
fn test_clock_replacer_unpin() {
    let mut replacer = ClockReplacer::new(10);
    replacer.unpin(1);
    replacer.unpin(2);
    replacer.unpin(3);
    assert_eq!(replacer.size(), 3);
}

#[test]
fn test_clock_replacer_pin() {
    let mut replacer = ClockReplacer::new(10);
    replacer.unpin(1);
    replacer.unpin(2);
    replacer.unpin(3);
    assert_eq!(replacer.size(), 3);
    replacer.pin(2);
    assert_eq!(replacer.size(), 2);
}

#[test]
fn test_clock_replacer_victim() {
    let mut replacer = ClockReplacer::new(3);
    replacer.unpin(0);
    replacer.unpin(1);
    replacer.unpin(2);
    assert_eq!(replacer.size(), 3);

    // first sweep turns every frame cold, the second evicts frame 0
    assert_eq!(replacer.victim(), Some(0));
    assert_eq!(replacer.size(), 2);

    assert_eq!(replacer.victim(), Some(1));
    assert_eq!(replacer.size(), 1);

    assert_eq!(replacer.victim(), Some(2));
    assert_eq!(replacer.size(), 0);

    assert_eq!(replacer.victim(), None);
}

#[test]
fn test_clock_replacer_complex() {
    let mut replacer = ClockReplacer::new(10);

    for i in 0..10 {
        replacer.unpin(i);
    }
    assert_eq!(replacer.size(), 10);

    replacer.pin(0);
    replacer.pin(4);
    replacer.pin(8);
    assert_eq!(replacer.size(), 7);

    // the victims skip the pinned frames
    assert_eq!(replacer.victim(), Some(1));
    assert_eq!(replacer.victim(), Some(2));
    assert_eq!(replacer.victim(), Some(3));
    assert_eq!(replacer.victim(), Some(5));
    assert_eq!(replacer.victim(), Some(6));
    assert_eq!(replacer.victim(), Some(7));
    assert_eq!(replacer.victim(), Some(9));
    assert_eq!(replacer.victim(), None);
}

#[test]
fn clock_victim_none_when_all_pinned() {
    let mut replacer = ClockReplacer::new(4);
    assert_eq!(replacer.victim(), None);
    replacer.unpin(2);
    replacer.pin(2);
    assert_eq!(replacer.victim(), None);
}

#[test]
fn clock_victim_found_when_one_unpinned() {
    let mut replacer = ClockReplacer::new(5);
    replacer.unpin(3);
    assert_eq!(replacer.victim(), Some(3));
    assert_eq!(replacer.size(), 0);
}

#[test]
fn clock_second_chance_for_recently_used() {
    let mut replacer = ClockReplacer::new(2);
    replacer.unpin(0);
    replacer.unpin(1);
    // frames 0 and 1 turn cold, frame 0 is evicted
    assert_eq!(replacer.victim(), Some(0));
    // frame 0 is used again and released: hot once more
    replacer.unpin(0);
    // the hand is at frame 1, which is still cold
    assert_eq!(replacer.victim(), Some(1));
    assert_eq!(replacer.victim(), Some(0));
}

#[test]
fn clock_zero_capacity() {
    let mut replacer = ClockReplacer::new(0);
    assert_eq!(replacer.size(), 0);
    assert_eq!(replacer.victim(), None);
}
