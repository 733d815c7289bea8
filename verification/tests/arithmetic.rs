use code_editor::{Length, Point, Range};

#[test]
fn length_addition_extends_bytes_on_the_same_line() {
    assert_eq!(Length::new(2, 3) + Length::new(0, 4), Length::new(2, 7));
}

#[test]
fn length_addition_adopts_bytes_across_lines() {
    assert_eq!(Length::new(2, 3) + Length::new(1, 4), Length::new(3, 4));
}

#[test]
fn length_subtraction_on_equal_lines() {
    assert_eq!(Length::new(2, 7) - Length::new(2, 3), Length::new(0, 4));
}

#[test]
fn length_subtraction_on_different_lines() {
    assert_eq!(Length::new(3, 4) - Length::new(2, 9), Length::new(1, 4));
}

#[test]
fn length_assignment_operators() {
    let mut length = Length::new(1, 1);
    length += Length::new(0, 2);
    assert_eq!(length, Length::new(1, 3));
    length -= Length::new(1, 1);
    assert_eq!(length, Length::new(0, 2));
}

#[test]
fn length_default_is_zero() {
    assert_eq!(Length::default(), Length::new(0, 0));
    assert_eq!(Length::default() + Length::new(1, 2), Length::new(1, 2));
    assert_eq!(Length::new(1, 2) + Length::default(), Length::new(1, 2));
}

#[test]
fn length_order_is_by_lines_then_bytes() {
    assert!(Length::new(0, 9) < Length::new(1, 0));
    assert!(Length::new(1, 2) < Length::new(1, 3));
    assert!(Length::new(1, 3) >= Length::new(1, 3));
    assert_eq!(Length::new(1, 3).cmp(&Length::new(1, 3)), std::cmp::Ordering::Equal);
    assert_eq!(Length::new(2, 0).cmp(&Length::new(1, 3)), std::cmp::Ordering::Greater);
}

#[test]
fn point_addition() {
    assert_eq!(Point::new(1, 2) + Length::new(0, 3), Point::new(1, 5));
    assert_eq!(Point::new(1, 2) + Length::new(2, 3), Point::new(3, 3));
    let mut point = Point::new(0, 0);
    point += Length::new(1, 1);
    assert_eq!(point, Point::new(1, 1));
}

#[test]
fn point_subtraction_follows_length_subtraction() {
    assert_eq!(Point::new(1, 5) - Point::new(1, 2), Length::new(0, 3));
    assert_eq!(Point::new(3, 3) - Point::new(1, 2), Length::new(2, 3));
}

#[test]
fn point_round_trip() {
    let points = [
        Point::new(0, 0),
        Point::new(0, 4),
        Point::new(1, 0),
        Point::new(1, 7),
        Point::new(5, 2),
    ];
    for first in points.iter() {
        for second in points.iter() {
            if first <= second {
                assert_eq!(*first + (*second - *first), *second);
            }
        }
    }
}

#[test]
fn range_length_and_emptiness() {
    let range = Range::new(Point::new(1, 2), Point::new(3, 1));
    assert_eq!(range.length(), Length::new(2, 1));
    assert!(!range.is_empty());
    let empty = Range::new(Point::new(1, 2), Point::new(1, 2));
    assert_eq!(empty.length(), Length::new(0, 0));
    assert!(empty.is_empty());
}
