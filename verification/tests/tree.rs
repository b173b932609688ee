use seg_rtree::coordinate::Coordinate;
use seg_rtree::flatbush::Flatbush;
use seg_rtree::min_heap::MinHeap;
use seg_rtree::segment_union::SegmentUnion;
use seg_rtree::hilbert::hilbert_normalized;
use seg_rtree::rectangle::Rectangle;
use seg_rtree::rtree::SegRTree;

use rand::rngs::StdRng;
use rand::{RngExt, SeedableRng};

fn rect(x_min: i64, y_min: i64, x_max: i64, y_max: i64) -> Rectangle {
    Rectangle::new(Coordinate::new(x_min, y_min), Coordinate::new(x_max, y_max))
}

#[test]
fn test_empty_seg_rtree() {
    let p1 = Coordinate::new(0, 0);
    let r = rect(-10, -5, 1, 5);
    let mut tree = SegRTree::new(2, 0);
    assert_eq!(tree.len(), 0);
    assert_eq!(tree.height(), 0);
    assert_eq!(tree.query_point(p1), Vec::<usize>::new());
    assert_eq!(tree.query_rect(r), Vec::<usize>::new());
    assert!(tree.add(r).is_err());
}

fn assert_add(i: usize, tree: &mut SegRTree, rects: &[Rectangle]) {
    tree.add(rects[i]).unwrap();
    assert_eq!(tree.len(), i + 1);
    assert_eq!(tree.query_rect(rects[i]), vec![i]);
}

fn assert_queries(max_index: usize, tree: &SegRTree, rects: &[Rectangle]) {
    for i in 0..=max_index {
        assert_eq!(tree.query_rect(rects[i]), vec![i]);
    }
}

#[test]
fn test_build_seg_rtree() {
    let mut tree = SegRTree::new(2, 6);
    assert_eq!(tree.len(), 0);
    assert_eq!(tree.height(), 0);
    let rects: Vec<Rectangle> = (0..6i64).map(|i| rect(i, i, i, i)).collect();

    assert_add(0, &mut tree, &rects);
    assert_eq!(tree.height(), 0);
    assert_queries(0, &tree, &rects);

    assert_add(1, &mut tree, &rects);
    assert_eq!(tree.height(), 1);
    assert_queries(1, &tree, &rects);

    assert_add(2, &mut tree, &rects);
    assert_eq!(tree.height(), 2);
    assert_queries(2, &tree, &rects);

    assert_add(3, &mut tree, &rects);
    assert_eq!(tree.height(), 2);
    assert_queries(3, &tree, &rects);

    assert_add(4, &mut tree, &rects);
    assert_eq!(tree.height(), 3);
    assert_queries(4, &tree, &rects);

    assert_add(5, &mut tree, &rects);
    assert_eq!(tree.height(), 3);
    assert_queries(5, &tree, &rects);

    let mut results = tree.query_rect(rect(0, 0, 5, 5));
    results.sort_unstable();
    assert_eq!(results, vec![0, 1, 2, 3, 4, 5]);

    let mut results = tree.query_rect(rect(1, 1, 3, 3));
    results.sort_unstable();
    assert_eq!(results, vec![1, 2, 3]);
}

fn assert_low_high(rtree: &SegRTree, height: usize, offset: usize, size: usize) {
    let (low, high) = rtree.get_low_high(height, offset);
    assert!(low <= size);
    assert!(high <= size);
}

#[test]
fn test_low_high_indices() {
    let mut rng = StdRng::seed_from_u64(177);

    for _i in 0..50 {
        let size: usize = rng.random_range(1..1000);
        let zero = Coordinate::new(0, 0);
        let r = Rectangle::new(zero, zero);
        let rects = vec![r; size];
        let rtree = SegRTree::new_loaded(16, &rects);
        assert_low_high(&rtree, rtree.height(), 0, size);
    }
}

#[test]
fn normalized() {
    let h = hilbert_normalized(12345, 67890);
    assert_eq!(h, 99_289_669);
}

fn get_envelopes() -> Vec<Rectangle> {
    let raw: Vec<i64> = vec![
        8, 62, 11, 66, 57, 17, 57, 19, 76, 26, 79, 29, 36, 56, 38, 56, 92, 77, 96, 80, 87, 70,
        90, 74, 43, 41, 47, 43, 0, 58, 2, 62, 76, 86, 80, 89, 27, 13, 27, 15, 71, 63, 75, 67,
        25, 2, 27, 2, 87, 6, 88, 6, 22, 90, 23, 93, 22, 89, 22, 93, 57, 11, 61, 13, 61, 55, 63,
        56, 17, 85, 21, 87, 33, 43, 37, 43, 6, 1, 7, 3, 80, 87, 80, 87, 23, 50, 26, 52, 58, 89,
        58, 89, 12, 30, 15, 34, 32, 58, 36, 61, 41, 84, 44, 87, 44, 18, 44, 19, 13, 63, 15, 67,
        52, 70, 54, 74, 57, 59, 58, 59, 17, 90, 20, 92, 48, 53, 52, 56, 2, 68, 92, 72, 26, 52,
        30, 52, 56, 23, 57, 26, 88, 48, 88, 48, 66, 13, 67, 15, 7, 82, 8, 86, 46, 68, 50, 68,
        37, 33, 38, 36, 6, 15, 8, 18, 85, 36, 89, 38, 82, 45, 84, 48, 12, 2, 16, 3, 26, 15, 26,
        16, 55, 23, 59, 26, 76, 37, 79, 39, 86, 74, 90, 77, 16, 75, 18, 78, 44, 18, 45, 21, 52,
        67, 54, 71, 59, 78, 62, 78, 24, 5, 24, 8, 64, 80, 64, 83, 66, 55, 70, 55, 0, 17, 2, 19,
        15, 71, 18, 74, 87, 57, 87, 59, 6, 34, 7, 37, 34, 30, 37, 32, 51, 19, 53, 19, 72, 51,
        73, 55, 29, 45, 30, 45, 94, 94, 96, 95, 7, 22, 11, 24, 86, 45, 87, 48, 33, 62, 34, 65,
        18, 10, 21, 14, 64, 66, 67, 67, 64, 25, 65, 28, 27, 4, 31, 6, 84, 4, 85, 5, 48, 80, 50,
        81, 1, 61, 3, 61, 71, 89, 74, 92, 40, 42, 43, 43, 27, 64, 28, 66, 46, 26, 50, 26, 53,
        83, 57, 87, 14, 75, 15, 79, 31, 45, 34, 45, 89, 84, 92, 88, 84, 51, 85, 53, 67, 87, 67,
        89, 39, 26, 43, 27, 47, 61, 47, 63, 23, 49, 25, 53, 12, 3, 14, 5, 16, 50, 19, 53, 63,
        80, 64, 84, 22, 63, 22, 64, 26, 66, 29, 66, 2, 15, 3, 15, 74, 77, 77, 79, 64, 11, 68,
        11, 38, 4, 39, 8, 83, 73, 87, 77, 85, 52, 89, 56, 74, 60, 76, 63, 62, 66, 65, 67,
    ];
    raw.chunks(4).map(|r| rect(r[0], r[1], r[2], r[3])).collect()
}

fn rects_intersect(a: &Rectangle, b: &Rectangle) -> bool {
    a.intersects(b)
}

#[test]
fn query_rect_matches_brute_force() {
    let envelopes = get_envelopes();
    let tree = SegRTree::new_loaded(16, &envelopes);
    let query = rect(40, 40, 60, 60);

    let brute: Vec<usize> = envelopes
        .iter()
        .enumerate()
        .filter(|(_, e)| rects_intersect(e, &query))
        .map(|(i, _)| i)
        .collect();
    let mut results = tree.query_rect(query);
    results.sort_unstable();
    assert_eq!(results, brute);
}

#[test]
fn query_envelope_returns_all_leaves() {
    let envelopes = get_envelopes();
    let tree = SegRTree::new_loaded(16, &envelopes);
    let env = tree.envelope();
    let mut results = tree.query_rect(env);
    results.sort_unstable();
    let expected: Vec<usize> = (0..envelopes.len()).collect();
    assert_eq!(results, expected);
}

#[test]
fn self_intersections_match_brute_force() {
    let envelopes = get_envelopes();
    let tree = SegRTree::new_loaded(16, &envelopes);

    let mut brute = Vec::new();
    for (i1, e1) in envelopes.iter().enumerate() {
        for (i2, e2) in envelopes.iter().enumerate() {
            if i1 < i2 && rects_intersect(e1, e2) {
                brute.push((i1, i2));
            }
        }
    }
    let mut results = tree.query_self_intersections();
    results.sort_unstable();
    assert_eq!(results, brute);
}

#[test]
fn other_intersections_match_brute_force() {
    let mut envelopes1 = get_envelopes();
    let envelopes2 = envelopes1.split_off(2 * envelopes1.len() / 3);

    let t1 = SegRTree::new_loaded(16, &envelopes1);
    let t2 = SegRTree::new_loaded(16, &envelopes2);

    let mut brute = Vec::new();
    for (i1, e1) in envelopes1.iter().enumerate() {
        for (i2, e2) in envelopes2.iter().enumerate() {
            if rects_intersect(e1, e2) {
                brute.push((i1, i2));
            }
        }
    }
    let mut results = t1.query_other_intersections(&t2);
    results.sort_unstable();
    assert_eq!(results, brute);
}

#[test]
fn segment_union_merges_abutting_spans() {
    let mut u = SegmentUnion::new();
    assert!(u.is_empty());
    u.add(0, 5);
    u.add(5, 9);
    // the shared endpoint cancels: one merged span remains
    assert_eq!(u.len(), 2);
    assert_eq!(u.peek(), Some(0));
    assert_eq!(u.pop(), Some((0, 9)));
    assert!(u.is_empty());

    u.add(2, 4);
    u.add(6, 8);
    assert_eq!(u.len(), 4);
    assert_eq!(u.pop(), Some((2, 4)));
    assert_eq!(u.pop(), Some((6, 8)));
    assert_eq!(u.pop(), None);
}

#[test]
fn min_heap_pops_in_order() {
    let mut h = MinHeap::new();
    assert!(h.is_empty());
    h.push((5, 6));
    h.push((1, 2));
    h.push((3, 4));
    h.push((1, 1));
    assert_eq!(h.len(), 4);
    assert_eq!(h.peek(), Some((1, 1)));
    assert_eq!(h.pop(), Some((1, 1)));
    assert_eq!(h.pop(), Some((1, 2)));
    assert_eq!(h.pop(), Some((3, 4)));
    assert_eq!(h.pop(), Some((5, 6)));
    assert_eq!(h.pop(), None);
}

#[test]
fn test_cross() {
    let p = Coordinate::new(1, 2);
    assert_eq!(p.cross(p), 0);

    let p1 = Coordinate::new(1, 0);
    let p2 = Coordinate::new(0, 1);
    assert_eq!(p1.cross(p2), 1);
    assert_eq!(p2.cross(p1), -1);
    assert_eq!(Coordinate::new(3, 0).cross(Coordinate::new(0, 5)), 15);
    assert_eq!(p1.dot(p2), 0);
    assert_eq!(Coordinate::new(3, 1).dot(Coordinate::new(2, 2)), 8);
    assert_eq!(
        Coordinate::new(5, 7).sub(Coordinate::new(2, 3)),
        Coordinate::new(3, 4)
    );
}

#[test]
fn ordered_load_answers_in_caller_indices() {
    let envelopes = get_envelopes();
    let n = envelopes.len();
    // load in reverse order: slot k holds rectangle n - 1 - k
    let order: Vec<usize> = (0..n).rev().collect();
    let bush = Flatbush::new_ordered(16, &envelopes, &order);
    assert_eq!(bush.len(), n);

    let query = rect(40, 40, 60, 60);
    let brute: Vec<usize> = envelopes
        .iter()
        .enumerate()
        .filter(|(_, e)| rects_intersect(e, &query))
        .map(|(i, _)| i)
        .collect();
    let mut results = bush.query_rect(query);
    results.sort_unstable();
    assert_eq!(results, brute);
}
