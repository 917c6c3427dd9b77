use std::cmp::Ordering;

use find_closest_points::point::{clamp, Dimension, Point};

#[test]
fn clamp_lowest_val() {
    let output = clamp(-10_000);
    let expected = 0;
    assert_eq!(output, expected);
}

#[test]
fn clamp_highest_val() {
    let output = clamp(1_010_000);
    let expected = 1_000_000;
    assert_eq!(output, expected);
}

#[test]
fn clamp_valid_val() {
    let output = clamp(730_000);
    let expected = 730_000;
    assert_eq!(output, expected);
}

#[test]
fn point_too_far_back() {
    let output = Point::new(-100_000, -100_000, -100_000);
    let expected = Point::new(0, 0, 0);
    assert_eq!(output, expected);
}

#[test]
fn point_too_far_front() {
    let output = Point::new(1_100_000, 1_100_000, 1_100_000);
    let expected = Point::new(1_000_000, 1_000_000, 1_000_000);
    assert_eq!(output, expected);
}

#[test]
fn valid_point() {
    let output = Point::new(500_000, 500_000, 500_000);
    let expected = Point::new(500_000, 500_000, 500_000);
    assert_eq!(output, expected);
}

#[test]
fn distance_to() {
    let point_one = Point::new(0, 0, 0);
    let point_two = Point::new(200_000, 300_000, 600_000);
    let output = point_one.distance_to(&point_two);
    let expected = 490_000_000_000;
    assert_eq!(output, expected);
}

#[test]
fn get_x_dimension() {
    let point = Point::new(100_000, 200_000, 300_000);
    let output = point.get_dimension(&Dimension::X);
    let expected = 100_000;
    assert_eq!(output, expected);
}

#[test]
fn get_y_dimension() {
    let point = Point::new(100_000, 200_000, 300_000);
    let output = point.get_dimension(&Dimension::Y);
    let expected = 200_000;
    assert_eq!(output, expected);
}

#[test]
fn get_z_dimension() {
    let point = Point::new(100_000, 200_000, 300_000);
    let output = point.get_dimension(&Dimension::Z);
    let expected = 300_000;
    assert_eq!(output, expected);
}

#[test]
fn compare_x_dimension() {
    let point_one = Point::new(200_000, 400_000, 600_000);
    let point_two = Point::new(100_000, 200_000, 300_000);

    let output = point_one.compare_dimension(&point_two, &Dimension::X);
    let expected = Ordering::Greater;
    assert_eq!(output, expected);
}

#[test]
fn compare_y_dimension() {
    let point_one = Point::new(200_000, 400_000, 600_000);
    let point_two = Point::new(100_000, 200_000, 300_000);

    let output = point_one.compare_dimension(&point_two, &Dimension::Y);
    let expected = Ordering::Greater;
    assert_eq!(output, expected);
}

#[test]
fn compare_z_dimension() {
    let point_one = Point::new(200_000, 400_000, 600_000);
    let point_two = Point::new(100_000, 200_000, 300_000);

    let output = point_one.compare_dimension(&point_two, &Dimension::Z);
    let expected = Ordering::Greater;
    assert_eq!(output, expected);
}

#[test]
fn default_point_is_origin() {
    let output: Point = Default::default();
    let expected = Point::new(0, 0, 0);
    assert_eq!(output, expected);
}

#[test]
fn turn_x() {
    assert_eq!(Dimension::X.turn(), Dimension::Y);
}

#[test]
fn turn_y() {
    assert_eq!(Dimension::Y.turn(), Dimension::Z);
}

#[test]
fn turn_z() {
    assert_eq!(Dimension::Z.turn(), Dimension::X);
}
