use ordered_tree::{ChildOf, Ordered, MAX_ORDERED, MIN_ORDERED};

#[test]
fn hinted_is_strictly_monotonic() {
    let mut h: u16 = 0;
    while h < 255 {
        let lo = Ordered::hinted(h as u8);
        let hi = Ordered::hinted((h + 1) as u8);
        assert!(lo < hi, "hint {} must order below hint {}", h, h + 1);
        h += 1;
    }
}

#[test]
fn hinted_starts_an_eighth_into_the_domain() {
    assert_eq!(Ordered::hinted(0).0, u32::MAX / 8);
    assert_eq!(Ordered::hinted(1).0, 1 + 4 + u32::MAX / 8);
    assert_eq!(Ordered::hinted(6).0, 216 + 24 + u32::MAX / 8);
}

#[test]
fn between_is_the_floor_average() {
    assert_eq!(Ordered::between(&Ordered(10), &Ordered(20)).0, 15);
    assert_eq!(Ordered::between(&Ordered(0), &Ordered(MAX_ORDERED)).0, MAX_ORDERED / 2);
    assert_eq!(Ordered::between(&Ordered(7), &Ordered(9)).0, 8);
    assert_eq!(Ordered::between(&Ordered(1), &Ordered(3)).0, 2);
    assert_eq!(
        Ordered::between(&Ordered(MAX_ORDERED), &Ordered(MAX_ORDERED)).0,
        MAX_ORDERED
    );
}

#[test]
fn between_bounds_hold() {
    let mut min: u32 = 0;
    while min < 40 {
        let mut max: u32 = min;
        while max < 40 {
            let r = Ordered::between(&Ordered(min), &Ordered(max)).0;
            assert!(min <= r && r <= max, "between({}, {}) = {}", min, max, r);
            if max - min <= 1 {
                assert_eq!(r, min, "a gap of at most one yields the lower bound");
            }
            max += 1;
        }
        min += 1;
    }
}

#[test]
fn after_and_before_use_the_domain_bounds() {
    assert_eq!(Ordered::after(&Ordered(0)).0, MAX_ORDERED / 2);
    assert_eq!(Ordered::after(&Ordered(100)).0, 50 + MAX_ORDERED / 2);
    assert_eq!(Ordered::before(&Ordered(7)).0, 3);
    assert_eq!(Ordered::before(&Ordered(0)).0, MIN_ORDERED);
}

#[test]
fn move_between_matches_between() {
    let mut key = Ordered(999);
    key.move_between(&Ordered(10), &Ordered(20));
    assert_eq!(key.0, 15);
    assert_eq!(key, Ordered::between(&Ordered(10), &Ordered(20)));
}

#[test]
fn child_of_new_uses_the_hinted_key() {
    let c = ChildOf::new(17, 3);
    assert_eq!(c.0, 17);
    assert_eq!(c.1, Ordered::hinted(3));
}
