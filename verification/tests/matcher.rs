use shape_matching::ContourSet;
use shape_matching::Distance;
use shape_matching::ImageMatch;
use shape_matching::LoadResult;
use shape_matching::Point;
use shape_matching::ShapeMatcher;
use shape_matching::ShapeMatchError;

fn square_contours() -> ContourSet {
    ContourSet {
        polylines: vec![vec![
            Point { x: 0, y: 0 },
            Point { x: 10, y: 0 },
            Point { x: 10, y: 10 },
            Point { x: 0, y: 10 },
        ]],
    }
}

fn triangle_contours() -> ContourSet {
    ContourSet {
        polylines: vec![vec![
            Point { x: 0, y: 0 },
            Point { x: 8, y: 0 },
            Point { x: 4, y: 6 },
        ]],
    }
}

fn empty_contours() -> ContourSet {
    ContourSet { polylines: vec![] }
}

fn ok_result(path: &str, contours: ContourSet) -> LoadResult {
    LoadResult { path: path.to_owned(), contours: Some(contours) }
}

fn failed_result(path: &str) -> LoadResult {
    LoadResult { path: path.to_owned(), contours: None }
}

#[test]
fn new_empty_yields_empty_cache() {
    let m = ShapeMatcher::new(vec![]);
    assert_eq!(m.image_count(), 0);
    assert!(m.get_image_paths().is_empty());
}

#[test]
fn new_counts_only_successes() {
    let m = ShapeMatcher::new(vec![
        ok_result("a.png", square_contours()),
        failed_result("broken.png"),
        ok_result("b.png", triangle_contours()),
        failed_result("missing.png"),
    ]);
    assert_eq!(m.image_count(), 2);
    let mut paths = m.get_image_paths();
    paths.sort();
    assert_eq!(paths, vec!["a.png".to_owned(), "b.png".to_owned()]);
}

#[test]
fn new_all_failures_is_not_an_error() {
    let m = ShapeMatcher::new(vec![failed_result("x.png"), failed_result("y.png")]);
    assert_eq!(m.image_count(), 0);
}

#[test]
fn add_image_then_paths_contains_it_once() {
    let mut m = ShapeMatcher::new(vec![]);
    m.add_image("a.png".to_owned(), square_contours());
    let paths = m.get_image_paths();
    assert_eq!(paths.iter().filter(|p| p.as_str() == "a.png").count(), 1);
}

#[test]
fn add_image_twice_overwrites_instead_of_duplicating() {
    let mut m = ShapeMatcher::new(vec![]);
    m.add_image("a.png".to_owned(), square_contours());
    m.add_image("a.png".to_owned(), triangle_contours());
    assert_eq!(m.image_count(), 1);
    let paths = m.get_image_paths();
    assert_eq!(paths.iter().filter(|p| p.as_str() == "a.png").count(), 1);
}

#[test]
fn remove_absent_path_changes_nothing_and_does_not_fail() {
    let mut m = ShapeMatcher::new(vec![ok_result("a.png", square_contours())]);
    m.remove_image("not-there.png");
    assert_eq!(m.image_count(), 1);
    assert_eq!(m.get_image_paths(), vec!["a.png".to_owned()]);
}

#[test]
fn remove_present_path_drops_it() {
    let mut m = ShapeMatcher::new(vec![
        ok_result("a.png", square_contours()),
        ok_result("b.png", triangle_contours()),
    ]);
    m.remove_image("a.png");
    assert_eq!(m.image_count(), 1);
    assert_eq!(m.get_image_paths(), vec!["b.png".to_owned()]);
}

#[test]
fn get_contours_finds_cached_entry() {
    let mut m = ShapeMatcher::new(vec![]);
    m.add_image("a.png".to_owned(), square_contours());
    let c = m.get_contours("a.png").unwrap();
    assert_eq!(c.polylines.len(), 1);
    assert_eq!(c.polylines[0].len(), 4);
}

#[test]
fn get_contours_absent_reports_image_not_cached() {
    let m = ShapeMatcher::new(vec![]);
    match m.get_contours("ghost.png") {
        Err(ShapeMatchError::ImageNotCached(p)) => assert_eq!(p, "ghost.png"),
        other => panic!("expected ImageNotCached, got {:?}", other),
    }
}

#[test]
fn find_most_similar_on_empty_matcher_is_no_matches_found() {
    let m = ShapeMatcher::new(vec![]);
    let r = m.find_most_similar(&vec![]);
    assert!(matches!(r, Err(ShapeMatchError::NoMatchesFound)));
}

#[test]
fn find_most_similar_all_comparisons_failed_is_no_matches_found() {
    let m = ShapeMatcher::new(vec![
        ok_result("a.png", square_contours()),
        ok_result("b.png", triangle_contours()),
    ]);
    let r = m.find_most_similar(&vec![None, None]);
    assert!(matches!(r, Err(ShapeMatchError::NoMatchesFound)));
}

#[test]
fn find_most_similar_picks_least_distance() {
    let m = ShapeMatcher::new(vec![
        ok_result("far.png", square_contours()),
        ok_result("near.png", triangle_contours()),
        ok_result("middling.png", square_contours()),
    ]);
    let outcomes = vec![
        Some(Distance::Finite(80)),
        Some(Distance::Finite(3)),
        Some(Distance::Finite(40)),
    ];
    let ImageMatch { path, similarity } = m.find_most_similar(&outcomes).unwrap();
    assert_eq!(path, "near.png");
    assert_eq!(similarity, Distance::Finite(3));
}

#[test]
fn find_most_similar_skips_failed_comparisons() {
    let m = ShapeMatcher::new(vec![
        ok_result("a.png", square_contours()),
        ok_result("b.png", triangle_contours()),
        ok_result("c.png", square_contours()),
    ]);
    let outcomes = vec![None, Some(Distance::Finite(9)), None];
    let best = m.find_most_similar(&outcomes).unwrap();
    assert_eq!(best.path, "b.png");
}

#[test]
fn find_most_similar_breaks_ties_by_first_entry() {
    let m = ShapeMatcher::new(vec![
        ok_result("a.png", square_contours()),
        ok_result("b.png", triangle_contours()),
        ok_result("c.png", square_contours()),
    ]);
    let outcomes = vec![
        Some(Distance::Finite(7)),
        Some(Distance::Finite(5)),
        Some(Distance::Finite(5)),
    ];
    let best = m.find_most_similar(&outcomes).unwrap();
    assert_eq!(best.path, "b.png");
}

#[test]
fn find_most_similar_infinite_distance_is_a_valid_match() {
    let m = ShapeMatcher::new(vec![ok_result("empty.png", empty_contours())]);
    let best = m.find_most_similar(&vec![Some(Distance::Infinite)]).unwrap();
    assert_eq!(best.path, "empty.png");
    assert_eq!(best.similarity, Distance::Infinite);
}

#[test]
fn query_scenario_star_beats_square_and_circle() {
    // The cache holds a circle, a four-pointed star, a square and a
    // triangle; the comparison outcomes stand for a five-pointed star query,
    // scoring the cached star nearest. The star must come back as the best
    // match, at a distance strictly below the square's and the circle's.
    let m = ShapeMatcher::new(vec![
        ok_result("circle.png", square_contours()),
        ok_result("star.png", triangle_contours()),
        ok_result("square.png", square_contours()),
        ok_result("triangle.png", triangle_contours()),
    ]);
    let star = Distance::Finite(12);
    let square = Distance::Finite(95);
    let circle = Distance::Finite(120);
    let triangle = Distance::Finite(55);
    let outcomes = vec![Some(circle), Some(star), Some(square), Some(triangle)];
    let best = m.find_most_similar(&outcomes).unwrap();
    assert_eq!(best.path, "star.png");
    assert!(best.similarity.le(&square) && best.similarity != square);
    assert!(best.similarity.le(&circle) && best.similarity != circle);
}
