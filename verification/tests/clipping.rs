use seg_rtree::coordinate::Coordinate;
use seg_rtree::path::SegmentPath;
use seg_rtree::rectangle::Rectangle;
use seg_rtree::seg_isect::RatCoord;

fn coords(input: &[(i64, i64)]) -> Vec<Coordinate> {
    input.iter().map(|&(x, y)| Coordinate::new(x, y)).collect()
}

fn path(input: &[(i64, i64)]) -> SegmentPath {
    SegmentPath::new(coords(input))
}

fn rat_is(q: &RatCoord, x: i64, y: i64) -> bool {
    q.den > 0 && q.x_num == x as i128 * q.den && q.y_num == y as i128 * q.den
}

fn assert_pieces(result: &Vec<Vec<RatCoord>>, expected: &[&[(i64, i64)]]) {
    assert_eq!(result.len(), expected.len(), "piece count {:?}", result);
    for (piece, want) in result.iter().zip(expected.iter()) {
        assert_eq!(piece.len(), want.len(), "piece length {:?}", piece);
        for (q, &(x, y)) in piece.iter().zip(want.iter()) {
            assert!(rat_is(q, x, y), "coordinate {:?} vs ({}, {})", q, x, y);
        }
    }
}

#[test]
fn test_clip() {
    let rect = Rectangle::new(Coordinate::new(0, 0), Coordinate::new(10, 10));
    assert_eq!(
        rect.intersect_segment(Coordinate::new(2, -2), Coordinate::new(1, -1)),
        None
    );
    let r = rect
        .intersect_segment(Coordinate::new(2, -2), Coordinate::new(2, 2))
        .unwrap();
    assert!(rat_is(&r.0, 2, 0) && rat_is(&r.1, 2, 2));
    let r = rect
        .intersect_segment(Coordinate::new(-2, -2), Coordinate::new(12, 12))
        .unwrap();
    assert!(rat_is(&r.0, 0, 0) && rat_is(&r.1, 10, 10));
    let r = rect
        .intersect_segment(Coordinate::new(2, 2), Coordinate::new(8, 8))
        .unwrap();
    assert!(rat_is(&r.0, 2, 2) && rat_is(&r.1, 8, 8));
    let r = rect
        .intersect_segment(Coordinate::new(0, -10), Coordinate::new(0, 0))
        .unwrap();
    assert!(rat_is(&r.0, 0, 0) && rat_is(&r.1, 0, 0));
}

#[test]
fn test_basic_linestring_clips() {
    let rect = Rectangle::new(Coordinate::new(0, 0), Coordinate::new(10, 10));
    // completely contained
    assert_pieces(
        &path(&[(0, 0), (10, 10)]).clip_path(rect),
        &[&[(0, 0), (10, 10)]],
    );
    assert_pieces(
        &path(&[(1, 7), (5, 2)]).clip_path(rect),
        &[&[(1, 7), (5, 2)]],
    );
    // outside to in
    assert_pieces(
        &path(&[(-10, 5), (5, 5)]).clip_path(rect),
        &[&[(0, 5), (5, 5)]],
    );
    assert_pieces(&path(&[(-10, 5), (0, 5)]).clip_path(rect), &[&[(0, 5)]]);
    // inside to out
    assert_pieces(
        &path(&[(5, 5), (15, 5)]).clip_path(rect),
        &[&[(5, 5), (10, 5)]],
    );
    assert_pieces(&path(&[(10, 5), (15, 5)]).clip_path(rect), &[&[(10, 5)]]);
    // start and end outside
    assert_pieces(&path(&[(-15, 0), (10, 20)]).clip_path(rect), &[]);
    assert_pieces(&path(&[(-10, 0), (10, 20)]).clip_path(rect), &[&[(0, 10)]]);
    assert_pieces(
        &path(&[(-10, -10), (10, 10)]).clip_path(rect),
        &[&[(0, 0), (10, 10)]],
    );
}

#[test]
fn test_small_linestring_clips() {
    let rect = Rectangle::new(Coordinate::new(0, 0), Coordinate::new(100, 100));
    assert_pieces(
        &path(&[(-100, 25), (25, 25), (50, 75), (50, 200)]).clip_path(rect),
        &[&[(0, 25), (25, 25), (50, 75), (50, 100)]],
    );
    assert_pieces(
        &path(&[(-25, 50), (50, 125), (125, 50)]).clip_path(rect),
        &[&[(0, 75), (25, 100)], &[(75, 100), (100, 75)]],
    );
}

#[test]
fn test_loops() {
    let rect = Rectangle::new(Coordinate::new(0, 0), Coordinate::new(10, 10));
    // a loop fully inside comes back whole
    assert_pieces(
        &path(&[(2, 2), (8, 2), (8, 8), (2, 8), (2, 2)]).clip_path(rect),
        &[&[(2, 2), (8, 2), (8, 8), (2, 8), (2, 2)]],
    );
    // a loop partially outside is clipped and reconnected
    assert_pieces(
        &path(&[(5, 5), (15, 5), (15, 15), (5, 15), (5, 5)]).clip_path(rect),
        &[&[(5, 10), (5, 5), (10, 5)]],
    );
}

#[test]
fn clip_output_stays_inside_rectangle() {
    let rect = Rectangle::new(Coordinate::new(0, 0), Coordinate::new(10, 10));
    let inputs: Vec<Vec<(i64, i64)>> = vec![
        vec![(-10, -10), (10, 10)],
        vec![(-10, 3), (3, 3), (5, 7), (5, 20)],
        vec![(-3, 5), (5, 13), (13, 5)],
        vec![(5, 5), (15, 5), (15, 15), (5, 15), (5, 5)],
    ];
    for input in inputs {
        let pieces = path(&input).clip_path(rect);
        for piece in &pieces {
            assert!(!piece.is_empty());
            for q in piece {
                assert!(q.den > 0);
                assert!(0 <= q.x_num && q.x_num <= 10 * q.den, "x out of range {:?}", q);
                assert!(0 <= q.y_num && q.y_num <= 10 * q.den, "y out of range {:?}", q);
            }
        }
    }
}

#[test]
fn clip_twice_gives_the_same_pieces() {
    let rect = Rectangle::new(Coordinate::new(0, 0), Coordinate::new(10, 10));
    let inputs: Vec<Vec<(i64, i64)>> = vec![
        vec![(-10, 5), (5, 5)],
        vec![(-10, -10), (10, 10)],
        vec![(2, 2), (8, 2), (8, 8), (2, 8), (2, 2)],
    ];
    for input in inputs {
        let pieces = path(&input).clip_path(rect);
        for piece in &pieces {
            // the pieces here are lattice runs: re-clipping such a
            // piece must reproduce it unchanged
            let as_coords: Vec<(i64, i64)> = piece
                .iter()
                .map(|q| {
                    assert_eq!(q.x_num % q.den, 0);
                    assert_eq!(q.y_num % q.den, 0);
                    ((q.x_num / q.den) as i64, (q.y_num / q.den) as i64)
                })
                .collect();
            if as_coords.len() >= 2 {
                let again = path(&as_coords).clip_path(rect);
                assert_pieces(&again, &[&as_coords]);
            }
        }
    }
}
