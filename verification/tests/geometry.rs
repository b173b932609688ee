use seg_rtree::coordinate::Coordinate;
use seg_rtree::graph::has_cycle;
use seg_rtree::path::{ContainRelation, SegmentPath};
use seg_rtree::polygon::{validate_polygon, Polygon};
use seg_rtree::seg_isect::RatCoord;
use seg_rtree::validate::ValidationError;

fn coords(input: &[(i64, i64)]) -> Vec<Coordinate> {
    input.iter().map(|&(x, y)| Coordinate::new(x, y)).collect()
}

fn path(input: &[(i64, i64)]) -> SegmentPath {
    SegmentPath::new(coords(input))
}

fn rat_is(q: &RatCoord, x: i64, y: i64) -> bool {
    q.den > 0 && q.x_num == x as i128 * q.den && q.y_num == y as i128 * q.den
}

#[test]
fn test_no_cycle() {
    let mut edges: Vec<(usize, usize)> = Vec::new();
    assert!(!has_cycle(&edges, 6));
    edges.push((0, 1));
    assert!(!has_cycle(&edges, 6));
    edges.push((1, 2));
    assert!(!has_cycle(&edges, 6));
    edges.push((2, 3));
    assert!(!has_cycle(&edges, 6));
    edges.push((4, 5));
    assert!(!has_cycle(&edges, 6));
}

#[test]
fn test_cycle() {
    let mut edges: Vec<(usize, usize)> = Vec::new();
    edges.push((0, 1));
    edges.push((1, 2));
    edges.push((2, 3));
    edges.push((0, 2));
    assert!(has_cycle(&edges, 4));
    edges.push((0, 3));
    assert!(has_cycle(&edges, 4));
    edges.push((1, 3));
    assert!(has_cycle(&edges, 4));
}

#[test]
fn check_containment_loop() {
    let loop_a = path(&[(0, 0), (0, 10), (10, 10), (10, 0), (0, 0)]);
    assert_eq!(
        loop_a.point_in_ring(Coordinate::new(5, 5)),
        ContainRelation::Interior
    );
    assert_eq!(
        loop_a.point_in_ring(Coordinate::new(0, 0)),
        ContainRelation::Boundary
    );
    assert_eq!(
        loop_a.point_in_ring(Coordinate::new(5, 0)),
        ContainRelation::Boundary
    );
    assert_eq!(
        loop_a.point_in_ring(Coordinate::new(0, 5)),
        ContainRelation::Boundary
    );
    assert_eq!(
        loop_a.point_in_ring(Coordinate::new(11, 0)),
        ContainRelation::Exterior
    );
}

#[test]
fn check_containment() {
    let loop_a = path(&[(0, 0), (0, 10), (10, 10), (10, 0), (0, 0)]);
    assert!(loop_a.contains(Coordinate::new(5, 5)));
    assert!(loop_a.contains(Coordinate::new(0, 0)));
    assert!(loop_a.contains(Coordinate::new(5, 0)));
    assert!(loop_a.contains(Coordinate::new(0, 5)));
    assert!(!loop_a.contains(Coordinate::new(11, 0)));
}

#[test]
fn check_containment_polygon() {
    let shell = path(&[(0, 0), (0, 10), (10, 10), (10, 0), (0, 0)]);
    let holes = vec![
        path(&[(1, 1), (1, 8), (3, 8), (3, 1), (1, 1)]),
        path(&[(6, 6), (6, 9), (9, 10), (9, 6), (6, 6)]),
    ];
    let polygon = Polygon::try_new(shell, holes).unwrap();
    assert_eq!(
        polygon.point_in_polygon(Coordinate::new(0, 0)),
        ContainRelation::Boundary
    );
    assert_eq!(
        polygon.point_in_polygon(Coordinate::new(1, 1)),
        ContainRelation::Boundary
    );
    assert_eq!(
        polygon.point_in_polygon(Coordinate::new(2, 4)),
        ContainRelation::Exterior
    );
    assert_eq!(
        polygon.point_in_polygon(Coordinate::new(5, 5)),
        ContainRelation::Interior
    );
    assert_eq!(
        polygon.point_in_polygon(Coordinate::new(9, 10)),
        ContainRelation::Boundary
    );
    assert_eq!(
        polygon.point_in_polygon(Coordinate::new(11, 0)),
        ContainRelation::Exterior
    );
}

#[test]
fn test_empty_path() {
    let p = SegmentPath::new_validated(Vec::new()).expect("construction should not fail");
    assert_eq!(p.coords().len(), 0);
}

#[test]
fn test_basic_paths() {
    for cs in [
        vec![(0i64, 0i64), (1, 1)],
        vec![(0, 0), (1, 1), (2, 2)],
        vec![(0, 0), (1, 0), (0, 1), (0, 0)],
    ] {
        let p = SegmentPath::new_validated(coords(&cs)).expect("construction should not fail");
        assert_eq!(p.coords().len(), cs.len());
        assert_eq!(p.rtree().len(), cs.len() - 1);
        assert!(p.validate().is_ok());
    }
}

#[test]
fn test_invalid_paths() {
    let err = SegmentPath::new_validated(coords(&[(0, 0)])).unwrap_err();
    assert_eq!(err, ValidationError::SinglePathCoordinate);

    let err = SegmentPath::new_validated(coords(&[(0, 0), (2, 2), (2, 0), (0, 2)])).unwrap_err();
    match err {
        ValidationError::SelfIntersection {
            first_index,
            second_index,
            position,
        } => {
            assert_eq!((first_index, second_index), (0, 2));
            assert!(rat_is(&position, 1, 1));
        },
        other => panic!("unexpected error {:?}", other),
    }

    let err = SegmentPath::new_validated(coords(&[(0, 0), (0, 2), (0, 1)])).unwrap_err();
    match err {
        ValidationError::OverlappingSegments {
            first_index,
            second_index,
            start,
            end,
        } => {
            assert_eq!((first_index, second_index), (0, 1));
            assert_eq!(start, Coordinate::new(0, 1));
            assert_eq!(end, Coordinate::new(0, 2));
        },
        other => panic!("unexpected error {:?}", other),
    }

    let err = SegmentPath::new_validated(coords(&[
        (0, 0),
        (0, 2),
        (1, 0),
        (2, 2),
        (2, 0),
        (0, 0),
    ]))
    .unwrap_err();
    // this path offends at both (1,4) and (2,4); which pair surfaces
    // first depends on the tree's candidate order, which is not part
    // of any contract, so either witness is a correct answer
    match err {
        ValidationError::SelfIntersection {
            first_index,
            second_index,
            position,
        } => {
            assert!((first_index, second_index) == (2, 4) || (first_index, second_index) == (
                1,
                4,
            ));
            assert!(rat_is(&position, 1, 0));
        },
        other => panic!("unexpected error {:?}", other),
    }

    let err = SegmentPath::new_validated(coords(&[
        (0, 0),
        (0, 2),
        (1, 1),
        (2, 2),
        (2, 0),
        (1, 1),
    ]))
    .unwrap_err();
    match err {
        ValidationError::SelfIntersection {
            first_index,
            second_index,
            position,
        } => {
            assert!((first_index, second_index) == (2, 4) || (first_index, second_index) == (
                1,
                4,
            ));
            assert!(rat_is(&position, 1, 1));
        },
        other => panic!("unexpected error {:?}", other),
    }
}

#[test]
fn degenerate_segment_reported() {
    let err = SegmentPath::new_validated(coords(&[(0, 0), (0, 0), (1, 1)])).unwrap_err();
    assert_eq!(
        err,
        ValidationError::DegenerateSegment { index: 0, position: Coordinate::new(0, 0) }
    );
}

#[test]
fn ring_shape_checks() {
    let too_few = path(&[(0, 0), (1, 1), (0, 0)]);
    assert_eq!(
        too_few.validate_ring(),
        Err(ValidationError::TooFewCoordinates)
    );
    let open_path = path(&[(0, 0), (1, 0), (1, 1), (0, 1)]);
    assert_eq!(open_path.validate_ring(), Err(ValidationError::NotClosed));
    assert!(!open_path.is_ring());
    let ring = path(&[(0, 0), (1, 0), (1, 1), (0, 1), (0, 0)]);
    assert!(ring.validate_ring().is_ok());
    assert!(ring.is_ring());
}

#[test]
fn hole_envelope_must_be_strict() {
    let shell = path(&[(0, 0), (0, 10), (10, 10), (10, 0), (0, 0)]);
    // a hole with the same envelope as the shell is refused
    let hole = path(&[(0, 0), (10, 0), (10, 10), (0, 10), (0, 0)]);
    let err = validate_polygon(&shell, &vec![hole]).unwrap_err();
    assert_eq!(err, ValidationError::HoleNotValid);
}

#[test]
fn multiple_ring_intersections_fail() {
    let shell = path(&[(0, 0), (0, 10), (10, 10), (10, 0), (0, 0)]);
    // a diamond hole touching the shell boundary in two distinct points
    let hole = path(&[(2, 0), (0, 2), (2, 4), (4, 2), (2, 0)]);
    let err = validate_polygon(&shell, &vec![hole]).unwrap_err();
    assert_eq!(err, ValidationError::MultipleIntersections);
}

#[test]
fn polygon_interior_disconnected() {
    let shell = path(&[(-1, -1), (-1, 8), (9, 8), (9, -1), (-1, -1)]);
    let holes = vec![
        path(&[(2, 2), (2, 4), (4, 4), (4, 2), (2, 2)]),
        path(&[(4, 4), (4, 6), (6, 6), (6, 4), (4, 4)]),
        path(&[(4, 2), (6, 4), (8, 2), (6, 0), (4, 2)]),
    ];
    let err = validate_polygon(&shell, &holes).unwrap_err();
    assert_eq!(err, ValidationError::InteriorDisconnected);
}

#[test]
fn polygon_with_separate_holes_is_valid() {
    let shell = path(&[(-1, -1), (-1, 8), (9, 8), (9, -1), (-1, -1)]);
    let holes = vec![
        path(&[(0, 0), (0, 2), (2, 2), (2, 0), (0, 0)]),
        path(&[(5, 5), (5, 7), (7, 7), (7, 5), (5, 5)]),
    ];
    assert!(validate_polygon(&shell, &holes).is_ok());
}
