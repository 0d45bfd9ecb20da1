use anathema::layout::{Align, Direction, Padding};

#[test]
fn resolve_padding() {
    assert_eq!(Padding::from_iter(&vec![]), Padding::zero());
    assert_eq!(Padding::from_iter(&vec![3]), Padding::new(3));
    assert_eq!(
        Padding::from_iter(&vec![1, 2]),
        Padding { top: 1, right: 2, bottom: 1, left: 2 }
    );
    assert_eq!(
        Padding::from_iter(&vec![1, 2, 3]),
        Padding { top: 1, right: 2, bottom: 3, left: 2 }
    );
    assert_eq!(
        Padding::from_iter(&vec![1, 2, 3, 4, 5]),
        Padding { top: 1, right: 2, bottom: 3, left: 4 }
    );
}

#[test]
fn padding_take_leaves_zero() {
    let mut padding = Padding::new(2);
    let taken = padding.take();
    assert_eq!(taken, Padding { top: 2, right: 2, bottom: 2, left: 2 });
    assert_eq!(padding, Padding::zero());
}

#[test]
fn direction_reverse() {
    assert_eq!(Direction::Forward.reverse(), Direction::Backward);
    assert_eq!(Direction::Backward.reverse(), Direction::Forward);
}

#[test]
fn align_names() {
    assert_eq!(Align::TopRight.as_str(), "top-right");
    assert_eq!(Align::Centre.as_str(), "centre");
}
