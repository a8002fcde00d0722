use shape_matching::ContourSet;
use shape_matching::Distance;
use shape_matching::Point;
use shape_matching::distance::empty_shape_distance;
use shape_matching::distance::largest_area_index;

fn one_square() -> ContourSet {
    ContourSet {
        polylines: vec![vec![
            Point { x: 0, y: 0 },
            Point { x: 4, y: 0 },
            Point { x: 4, y: 4 },
            Point { x: 0, y: 4 },
        ]],
    }
}

fn no_contours() -> ContourSet {
    ContourSet { polylines: vec![] }
}

#[test]
fn empty_against_empty_is_infinite() {
    assert_eq!(
        empty_shape_distance(&no_contours(), &no_contours()),
        Some(Distance::Infinite)
    );
}

#[test]
fn empty_against_nonempty_is_infinite_both_ways() {
    assert_eq!(
        empty_shape_distance(&no_contours(), &one_square()),
        Some(Distance::Infinite)
    );
    assert_eq!(
        empty_shape_distance(&one_square(), &no_contours()),
        Some(Distance::Infinite)
    );
}

#[test]
fn nonempty_pair_defers_to_the_metric() {
    assert_eq!(empty_shape_distance(&one_square(), &one_square()), None);
}

#[test]
fn largest_area_index_picks_the_maximum() {
    assert_eq!(largest_area_index(&vec![3, 7, 2]), 1);
    assert_eq!(largest_area_index(&vec![10]), 0);
    assert_eq!(largest_area_index(&vec![1, 2, 30]), 2);
}

#[test]
fn largest_area_index_breaks_ties_by_first() {
    assert_eq!(largest_area_index(&vec![3, 9, 9, 2]), 1);
    assert_eq!(largest_area_index(&vec![0, 0, 0]), 0);
}

#[test]
fn distance_order_is_total_with_infinite_on_top() {
    let small = Distance::Finite(4);
    let large = Distance::Finite(900);
    assert!(small.le(&large));
    assert!(!large.le(&small));
    assert!(small.le(&small));
    assert!(small.le(&Distance::Infinite));
    assert!(!Distance::Infinite.le(&small));
    assert!(Distance::Infinite.le(&Distance::Infinite));
}

#[test]
fn contour_set_reports_its_size() {
    assert!(no_contours().is_empty());
    assert_eq!(no_contours().len(), 0);
    assert!(!one_square().is_empty());
    assert_eq!(one_square().len(), 1);
}
