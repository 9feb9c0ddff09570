use flame::review::Quality;
use flame::words::{InMemory, Item};

fn item(repetition: usize, factor: usize, interval: usize) -> Item<u8> {
    Item { repetition, factor, interval, payload: 0 }
}

#[test]
fn interval_base_cases() {
    let it = item(0, 250, 0);
    assert_eq!(it.new_interval(0), 0);
    assert_eq!(it.new_interval(1), 1);
    assert_eq!(it.new_interval(2), 6);
}

#[test]
fn interval_growth_is_scaled_and_rounded_up() {
    let it = item(0, 250, 0);
    // ceil(6 * 2.5) = 15, ceil(15 * 2.5) = 38
    assert_eq!(it.new_interval(3), 15);
    assert_eq!(it.new_interval(4), 38);
    let it = item(0, 310, 0);
    // ceil(6 * 3.1) = 19, ceil(19 * 3.1) = 59
    assert_eq!(it.new_interval(3), 19);
    assert_eq!(it.new_interval(4), 59);
}

#[test]
fn interval_is_nondecreasing_for_fixed_factor() {
    let it = item(0, 130, 0);
    let mut prev = it.new_interval(1);
    for n in 2..12usize {
        let next = it.new_interval(n);
        assert!(prev <= next);
        prev = next;
    }
}

#[test]
fn factor_never_drops_below_floor_under_blackouts() {
    let mut s: InMemory<u8> = InMemory::new(0);
    let id = s.introduce(0);
    for _ in 0..5 {
        s.update(id, Quality::CompleteBlackout).expect("present");
        let f = s.get(id).expect("present").factor;
        assert!(f >= 130);
    }
    assert_eq!(s.get(id).expect("present").factor, 130);
}

#[test]
fn lapse_resets_repetition_and_makes_item_due() {
    let mut s: InMemory<u8> = InMemory::new(0);
    let id = s.introduce(0);
    // 2.5 - 0.14 = 2.36 is below 3.0: a lapse.
    s.update(id, Quality::CorrectResponseHard).expect("present");
    let it = s.get(id).expect("present");
    assert_eq!(it.factor, 236);
    assert_eq!(it.repetition, 0);
    assert_eq!(it.interval, 0);
}

#[test]
fn perfect_review_of_new_item_raises_factor_to_two_point_six() {
    // The item starts at {repetition: 0, factor: 2.5, interval: 0}; a
    // perfect review moves the factor to 2.5 + 0.1 = 2.6. Since 2.6 is
    // still below the 3.0 success threshold the review counts as a
    // lapse: the repetition count resets and the item stays due.
    let mut s: InMemory<u8> = InMemory::new(0);
    let id = s.introduce(0);
    s.update(id, Quality::PerfectResponse).expect("present");
    let it = s.get(id).expect("present");
    assert_eq!(it.factor, 260);
    assert_eq!(it.repetition, 0);
    assert_eq!(it.interval, 0);
}

#[test]
fn item_graduates_once_factor_reaches_three() {
    let mut s: InMemory<u8> = InMemory::new(0);
    let id = s.introduce(0);
    // Four perfect reviews are still lapses: 2.6, 2.7, 2.8, 2.9.
    for expected in [260usize, 270, 280, 290] {
        s.update(id, Quality::PerfectResponse).expect("present");
        let it = s.get(id).expect("present");
        assert_eq!(it.factor, expected);
        assert_eq!(it.repetition, 0);
        assert_eq!(it.interval, 0);
    }
    // The fifth reaches 3.0: a success, two repetition increments, and
    // the interval for count 2.
    s.update(id, Quality::PerfectResponse).expect("present");
    let it = s.get(id).expect("present");
    assert_eq!(it.factor, 300);
    assert_eq!(it.repetition, 2);
    assert_eq!(it.interval, 6);
    // Another success: count 4, interval ceil(ceil(6*3.1)*3.1) = 59.
    s.update(id, Quality::PerfectResponse).expect("present");
    let it = s.get(id).expect("present");
    assert_eq!(it.factor, 310);
    assert_eq!(it.repetition, 4);
    assert_eq!(it.interval, 59);
}

#[test]
fn correct_response_leaves_factor_unchanged() {
    let mut s: InMemory<u8> = InMemory::new(0);
    let id = s.introduce(0);
    s.update(id, Quality::CorrectResponse).expect("present");
    assert_eq!(s.get(id).expect("present").factor, 250);
    s.update(id, Quality::IncorrectResponse).expect("present");
    assert_eq!(s.get(id).expect("present").factor, 196);
}
