use tinygfx::Clip;

#[test]
fn clip_narrows_every_bound() {
    let c = Clip { left: 0, top: 0, right: 100, bottom: 50 };
    let n = c.clip(10, 5, 80, 40);
    assert_eq!(n.left(), 10);
    assert_eq!(n.top(), 5);
    assert_eq!(n.right(), 80);
    assert_eq!(n.bottom(), 40);
}

#[test]
fn clip_never_widens() {
    let c = Clip { left: 10, top: 5, right: 80, bottom: 40 };
    let n = c.clip(0, 0, 100, 50);
    assert_eq!(n.left(), 10);
    assert_eq!(n.top(), 5);
    assert_eq!(n.right(), 80);
    assert_eq!(n.bottom(), 40);
}

#[test]
fn clip_is_idempotent() {
    let c = Clip { left: -3, top: 2, right: 33, bottom: 21 };
    let once = c.clip(4, -7, 30, 19);
    let twice = once.clip(4, -7, 30, 19);
    assert_eq!(once, twice);
}

#[test]
fn clip_contained_in_both() {
    let c = Clip { left: -3, top: 2, right: 33, bottom: 21 };
    let n = c.clip(4, -7, 30, 19);
    assert!(n.left() >= c.left() && n.left() >= 4);
    assert!(n.right() <= c.right() && n.right() <= 30);
    assert!(n.top() >= c.top() && n.top() >= -7);
    assert!(n.bottom() <= c.bottom() && n.bottom() <= 19);
}

#[test]
fn single_bound_narrowing() {
    let c = Clip { left: 0, top: 0, right: 32, bottom: 8 };
    assert_eq!(c.clip_left(-5).left(), 0);
    assert_eq!(c.clip_left(5).left(), 5);
    assert_eq!(c.clip_right(40).right(), 32);
    assert_eq!(c.clip_right(12).right(), 12);
    assert_eq!(c.clip_top(-1).top(), 0);
    assert_eq!(c.clip_top(3).top(), 3);
    assert_eq!(c.clip_bottom(9).bottom(), 8);
    assert_eq!(c.clip_bottom(4).bottom(), 4);
}

#[test]
fn contains_row_is_half_open() {
    let c = Clip { left: 0, top: 3, right: 8, bottom: 6 };
    assert!(!c.contains_row(2));
    assert!(c.contains_row(3));
    assert!(c.contains_row(5));
    assert!(!c.contains_row(6));
}

#[test]
fn is_empty_checks_the_horizontal_range_only() {
    let horizontally_empty = Clip { left: 8, top: 0, right: 8, bottom: 10 };
    assert!(horizontally_empty.is_empty());
    let reversed = Clip { left: 9, top: 0, right: 3, bottom: 10 };
    assert!(reversed.is_empty());
    let vertically_empty = Clip { left: 0, top: 10, right: 8, bottom: 0 };
    assert!(!vertically_empty.is_empty());
}
