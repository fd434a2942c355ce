use poly_clip::tracer::{close_ring, dedup_points, generate_clip_polygon, generate_clip_polygons, walk_in_list};
use poly_clip::polygon::keep_matched_lists;
use poly_clip::{ClipError, Line, Point, Polygon, Vertex};

fn p(x: i32, y: i32) -> Point {
    Point::new(x, y)
}

fn ring(pts: &[(i32, i32)]) -> Vec<Point> {
    pts.iter().map(|&(x, y)| p(x, y)).collect()
}

fn square(x0: i32, y0: i32, x1: i32, y1: i32) -> Vec<Point> {
    ring(&[(x0, y0), (x1, y0), (x1, y1), (x0, y1)])
}

fn same_up_to_rotation(a: &[Point], b: &[Point]) -> bool {
    if a.len() != b.len() {
        return false;
    }
    if a.is_empty() {
        return true;
    }
    (0..a.len()).any(|s| (0..a.len()).all(|i| a[(s + i) % a.len()] == b[i]))
}

#[test]
fn point_new_keeps_coordinates() {
    let q = Point::new(-3, 7);
    assert_eq!(q.x, -3);
    assert_eq!(q.y, 7);
}

#[test]
fn segments_crossing_meet_at_exact_point() {
    let s = Line { begin: p(0, 0), end: p(4, 4) };
    let t = Line { begin: p(0, 4), end: p(4, 0) };
    assert_eq!(s.generate_inter_vertex_in_lines(&t), Some(p(2, 2)));
}

#[test]
fn parallel_segments_do_not_meet() {
    let s = Line { begin: p(0, 0), end: p(4, 0) };
    let t = Line { begin: p(0, 1), end: p(4, 1) };
    assert_eq!(s.generate_inter_vertex_in_lines(&t), None);
    let u = Line { begin: p(1, 0), end: p(3, 0) };
    assert_eq!(s.generate_inter_vertex_in_lines(&u), None);
}

#[test]
fn intersection_truncates_toward_zero() {
    let s = Line { begin: p(0, 0), end: p(3, 1) };
    let t = Line { begin: p(0, 1), end: p(3, 0) };
    assert_eq!(s.generate_inter_vertex_in_lines(&t), Some(p(1, 0)));
    let s = Line { begin: p(0, 0), end: p(-3, -1) };
    let t = Line { begin: p(0, -1), end: p(-3, 0) };
    assert_eq!(s.generate_inter_vertex_in_lines(&t), Some(p(-1, 0)));
}

#[test]
fn lines_meeting_outside_the_segments_give_none() {
    let s = Line { begin: p(0, 0), end: p(1, 1) };
    let t = Line { begin: p(3, 0), end: p(2, 1) };
    assert_eq!(s.generate_inter_vertex_in_lines(&t), None);
}

#[test]
fn large_coordinates_do_not_overflow() {
    let s = Line { begin: p(-2_000_000_000, -2_000_000_000), end: p(2_000_000_000, 2_000_000_000) };
    let t = Line { begin: p(-2_000_000_000, 2_000_000_000), end: p(2_000_000_000, -2_000_000_000) };
    assert_eq!(s.generate_inter_vertex_in_lines(&t), Some(p(0, 0)));
}

#[test]
fn hole_excludes_its_interior() {
    let a = Polygon::new(vec![square(0, 0, 10, 10), square(4, 4, 6, 6)]);
    assert!(!a.contains(&p(5, 5)));
    assert!(a.contains(&p(1, 1)));
}

#[test]
fn contains_uses_half_open_rule() {
    let a = Polygon::new(vec![square(0, 0, 10, 10)]);
    assert!(a.contains(&p(0, 5)));
    assert!(!a.contains(&p(10, 5)));
    assert!(!a.contains(&p(5, 10)));
    assert!(a.contains(&p(5, 0)));
    assert!(!a.contains(&p(-1, 5)));
}

#[test]
fn crossings_of_an_edge_are_sorted_and_alternate() {
    let b = Polygon::new(vec![square(0, 0, 10, 10)]);
    let line = Line { begin: p(-5, 5), end: p(15, 5) };
    let mut is_enter = false;
    let tagged = b.generate_inter_vertexs_in_line(&line, &mut is_enter);
    assert_eq!(tagged, vec![Vertex::InInter(p(0, 5)), Vertex::OutInter(p(10, 5))]);
    assert!(!is_enter);
    let mut is_enter = true;
    let line = Line { begin: p(-5, 5), end: p(5, 5) };
    let tagged = b.generate_inter_vertexs_in_line(&line, &mut is_enter);
    assert_eq!(tagged, vec![Vertex::OutInter(p(0, 5))]);
    assert!(!is_enter);
}

#[test]
fn crossings_at_end_points_are_skipped() {
    let b = Polygon::new(vec![square(0, 0, 10, 10)]);
    let line = Line { begin: p(0, 5), end: p(20, 5) };
    let mut is_enter = false;
    let tagged = b.generate_inter_vertexs_in_line(&line, &mut is_enter);
    assert_eq!(tagged, vec![Vertex::InInter(p(10, 5))]);
    assert!(is_enter);
}

#[test]
fn overlapping_squares_give_their_common_square() {
    let a = Polygon::new(vec![square(0, 0, 4, 4)]);
    let b = Polygon::new(vec![square(2, 2, 6, 6)]);
    let res = a.clip(&b).unwrap();
    assert_eq!(res.len(), 1);
    assert!(same_up_to_rotation(&res[0], &square(2, 2, 4, 4)), "{:?}", res);
}

#[test]
fn clip_is_symmetric_on_overlapping_squares() {
    let a = Polygon::new(vec![square(0, 0, 4, 4)]);
    let b = Polygon::new(vec![square(2, 2, 6, 6)]);
    let ab = a.clip(&b).unwrap();
    let ba = b.clip(&a).unwrap();
    assert_eq!(ab.len(), 1);
    assert_eq!(ba.len(), 1);
    assert!(same_up_to_rotation(&ab[0], &ba[0]), "{:?} {:?}", ab, ba);
}

#[test]
fn contained_polygon_is_returned_unchanged() {
    let a = Polygon::new(vec![square(0, 0, 10, 10)]);
    let b = Polygon::new(vec![square(2, 2, 4, 4)]);
    assert_eq!(a.clip(&b), Ok(vec![square(2, 2, 4, 4)]));
    assert_eq!(b.clip(&a), Ok(vec![square(2, 2, 4, 4)]));
}

#[test]
fn disjoint_polygons_give_nothing() {
    let a = Polygon::new(vec![square(0, 0, 4, 4)]);
    let b = Polygon::new(vec![square(10, 10, 14, 14)]);
    assert_eq!(a.clip(&b), Ok(vec![]));
    assert_eq!(b.clip(&a), Ok(vec![]));
}

#[test]
fn polygon_inside_a_hole_gives_nothing() {
    let a = Polygon::new(vec![square(0, 0, 10, 10), square(3, 3, 7, 7)]);
    let b = Polygon::new(vec![square(4, 4, 6, 6)]);
    assert_eq!(a.clip(&b), Ok(vec![]));
}

#[test]
fn degenerate_ring_is_rejected() {
    let a = Polygon::new(vec![ring(&[(0, 0), (4, 0)])]);
    let b = Polygon::new(vec![square(2, 2, 6, 6)]);
    assert_eq!(a.clip(&b), Err(ClipError::DegenerateRing));
    assert_eq!(b.clip(&a), Err(ClipError::DegenerateRing));
    let c = Polygon::new(vec![square(0, 0, 4, 4), ring(&[(1, 1)])]);
    assert_eq!(c.clip(&b), Err(ClipError::DegenerateRing));
}

#[test]
fn clipping_a_square_by_itself() {
    let a = Polygon::new(vec![square(0, 0, 10, 10)]);
    assert_eq!(a.clip(&a), Ok(vec![square(0, 0, 10, 10)]));
    let b = Polygon::new(vec![square(0, 0, 10, 10)]);
    assert_eq!(a.clip(&b), Ok(vec![square(0, 0, 10, 10)]));
}

#[test]
fn clipping_a_polygon_with_a_hole_by_itself() {
    let a = Polygon::new(vec![square(0, 0, 10, 10), square(4, 4, 6, 6)]);
    assert_eq!(a.clip(&a), Ok(vec![square(0, 0, 10, 10), square(4, 4, 6, 6)]));
}

#[test]
fn polygon_without_rings_is_rejected() {
    let a = Polygon::new(vec![]);
    let b = Polygon::new(vec![square(2, 2, 6, 6)]);
    assert_eq!(a.clip(&b), Err(ClipError::DegenerateRing));
    assert_eq!(b.clip(&a), Err(ClipError::DegenerateRing));
}

#[test]
fn lists_with_unmatched_crossings_are_dropped() {
    let good = vec![Vertex::Out(p(0, 0)), Vertex::InInter(p(1, 0)), Vertex::OutInter(p(2, 0))];
    let bad = vec![Vertex::Out(p(5, 5)), Vertex::InInter(p(6, 5))];
    let plain = vec![Vertex::In(p(7, 7))];
    let other = vec![Vertex::OutInter(p(1, 0)), Vertex::In(p(3, 3)), Vertex::InInter(p(2, 0)), Vertex::In(p(6, 5))];
    let kept = keep_matched_lists(&vec![good.clone(), bad, plain.clone()], &other);
    assert_eq!(kept, vec![good, plain]);
}

#[test]
fn contained_case_gives_the_same_rings_in_either_order() {
    let a = Polygon::new(vec![square(0, 0, 10, 10)]);
    let b = Polygon::new(vec![ring(&[(2, 2), (5, 3), (3, 6)])]);
    assert_eq!(a.clip(&b), b.clip(&a));
    assert_eq!(a.clip(&b), Ok(vec![ring(&[(2, 2), (5, 3), (3, 6)])]));
}

#[test]
fn first_entering_crossing_drops_what_precedes_it() {
    let mut list = vec![Vertex::Out(p(0, 0)), Vertex::OutInter(p(1, 0)), Vertex::InInter(p(2, 0)), Vertex::In(p(3, 0))];
    assert_eq!(Vertex::get_first_in_inter(&mut list), Some(p(2, 0)));
    assert_eq!(list, vec![Vertex::InInter(p(2, 0)), Vertex::In(p(3, 0))]);
    let mut none = vec![Vertex::Out(p(0, 0)), Vertex::OutInter(p(1, 0))];
    assert_eq!(Vertex::get_first_in_inter(&mut none), None);
    assert_eq!(none.len(), 2);
}

#[test]
fn walk_takes_the_span_up_to_the_leaving_crossing() {
    let mut list = vec![
        Vertex::Out(p(0, 0)),
        Vertex::InInter(p(1, 0)),
        Vertex::In(p(2, 0)),
        Vertex::OutInter(p(3, 0)),
        Vertex::Out(p(4, 0)),
    ];
    let walked = walk_in_list(&mut list, p(1, 0));
    assert_eq!(walked, Some((vec![p(1, 0), p(2, 0)], p(3, 0))));
    assert_eq!(list, vec![Vertex::Out(p(0, 0)), Vertex::Out(p(4, 0))]);
    let mut list = vec![Vertex::Out(p(0, 0))];
    assert_eq!(walk_in_list(&mut list, p(9, 9)), None);
    assert_eq!(list.len(), 1);
}

#[test]
fn trace_without_leaving_crossing_is_an_inconsistency() {
    let prim = vec![Vertex::InInter(p(1, 1)), Vertex::In(p(2, 2))];
    assert_eq!(generate_clip_polygons(prim, vec![]), Err(ClipError::StructuralInconsistency));
    assert_eq!(generate_clip_polygons(vec![Vertex::Out(p(0, 0))], vec![]), Ok(vec![]));
}

#[test]
fn repeated_neighbours_collapse() {
    let pts = vec![p(1, 1), p(1, 1), p(2, 2), p(1, 1), p(1, 1), p(1, 1)];
    assert_eq!(dedup_points(pts), vec![p(1, 1), p(2, 2), p(1, 1)]);
    assert_eq!(dedup_points(vec![]), vec![]);
}

#[test]
fn polygon_with_hole_against_crossing_quad() {
    let poly = Polygon::new(vec![
        ring(&[(310, 186), (598, 186), (600, 408), (305, 402)]),
        ring(&[(375, 326), (518, 328), (521, 252), (378, 252)]),
    ]);
    let other = Polygon::new(vec![ring(&[(361, 219), (665, 219), (668, 489), (341, 464)])]);
    let res = poly.clip(&other).unwrap();
    assert_eq!(res, vec![ring(&[(598, 219), (600, 408), (345, 402), (361, 219)])]);
}

#[test]
fn ring_closing_on_its_start_drops_the_repeat() {
    assert_eq!(close_ring(vec![p(1, 1), p(2, 2), p(1, 1)]), vec![p(1, 1), p(2, 2)]);
    assert_eq!(close_ring(vec![p(1, 1), p(1, 1), p(2, 2), p(2, 2), p(1, 1), p(1, 1)]), vec![p(1, 1), p(2, 2)]);
    assert_eq!(close_ring(vec![p(3, 3), p(3, 3)]), vec![p(3, 3)]);
    assert_eq!(close_ring(vec![]), vec![]);
    assert_eq!(close_ring(square(0, 0, 2, 2)), square(0, 0, 2, 2));
}

#[test]
fn traced_ring_does_not_end_on_its_start() {
    let mut prim = vec![Vertex::InInter(p(0, 0)), Vertex::OutInter(p(5, 0))];
    let mut clip = vec![Vertex::InInter(p(5, 0)), Vertex::In(p(0, 0)), Vertex::OutInter(p(0, 0))];
    let ring = generate_clip_polygon(&mut prim, &mut clip, p(0, 0));
    assert_eq!(ring, Ok(vec![p(0, 0), p(5, 0)]));
    assert!(prim.is_empty());
    assert!(clip.is_empty());
}
