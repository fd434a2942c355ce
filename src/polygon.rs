use vstd::prelude::*;
use crate::geometry::{Point, Line, trunc_div, abs, segment_intersection, view_rings};
use crate::tracer::{Vertex, ClipError, trace_all, generate_clip_polygons, first_in_inter_from, no_repeats, lemma_trace_all_no_repeats};
use vstd::arithmetic::div_mod::lemma_add_mod_noop_right;

verus! {

/// A polygon: ring 0 is the outer boundary, the others are holes. Edge `i` of a ring
/// joins point `i` to point `(i + 1) % n`.
#[derive(Clone, Debug)]
pub struct Polygon {
    pub rings: Vec<Vec<Point>>,
}

impl View for Polygon {
    type V = Seq<Seq<Point>>;

    open spec fn view(&self) -> Seq<Seq<Point>> {
        self.rings@.map_values(|r: Vec<Point>| r@)
    }
}

/// The end point of edge `i` of ring `r`.
pub open spec fn succ(r: Seq<Point>, i: int) -> Point {
    r[(i + 1) % r.len() as int]
}

/// The even-odd rule's test for one edge: the edge is not horizontal, `q.y` lies in
/// `[min y, max y)`, and the edge meets the horizontal through `q` to the right of `q`.
pub open spec fn edge_crosses(p0: Point, p1: Point, q: Point) -> bool {
    &&& p0.y != p1.y
    &&& (q.y >= p0.y || q.y >= p1.y)
    &&& (q.y < p0.y || q.y < p1.y)
    &&& trunc_div((q.y - p0.y) * (p1.x - p0.x), p1.y - p0.y) + p0.x > q.x
}

/// How many of the first `k` edges of `r` the rightward ray from `q` crosses.
pub open spec fn ring_crossings(r: Seq<Point>, q: Point, k: int) -> nat
    decreases k,
{
    if k <= 0 {
        0
    } else {
        ring_crossings(r, q, k - 1) + if edge_crosses(r[k - 1], succ(r, k - 1), q) {
            1nat
        } else {
            0nat
        }
    }
}

/// Crossings summed over the first `k` rings.
pub open spec fn crossings(rs: Seq<Seq<Point>>, q: Point, k: int) -> nat
    decreases k,
{
    if k <= 0 {
        0
    } else {
        crossings(rs, q, k - 1) + ring_crossings(rs[k - 1], q, rs[k - 1].len() as int)
    }
}

/// Even-odd membership of `q` in the polygon whose rings are `rs`.
pub open spec fn inside(rs: Seq<Seq<Point>>, q: Point) -> bool {
    crossings(rs, q, rs.len() as int) % 2 == 1
}


/// Edge `i` of ring `r`.
pub open spec fn edge_of(r: Seq<Point>, i: int) -> Line {
    Line { begin: r[i], end: succ(r, i) }
}

/// Where `line` crosses `edge`, unless the crossing is an end point of either segment.
pub open spec fn proper_hit(edge: Line, line: Line) -> Seq<Point> {
    match segment_intersection(edge, line) {
        Some(p) => if p == edge.begin || p == edge.end || p == line.begin || p == line.end {
            seq![]
        } else {
            seq![p]
        },
        None => seq![],
    }
}

/// The proper crossings of `line` with the first `k` edges of ring `r`, in edge order.
pub open spec fn ring_hits(r: Seq<Point>, line: Line, k: int) -> Seq<Point>
    decreases k,
{
    if k <= 0 {
        seq![]
    } else {
        ring_hits(r, line, k - 1) + proper_hit(edge_of(r, k - 1), line)
    }
}

/// The proper crossings of `line` with the first `k` rings, ring after ring.
pub open spec fn hits(rs: Seq<Seq<Point>>, line: Line, k: int) -> Seq<Point>
    decreases k,
{
    if k <= 0 {
        seq![]
    } else {
        hits(rs, line, k - 1) + ring_hits(rs[k - 1], line, rs[k - 1].len() as int)
    }
}

/// Manhattan distance.
pub open spec fn dist(o: Point, p: Point) -> int {
    abs(o.x - p.x) + abs(o.y - p.y)
}

/// Inserts `p` into `s` after every element no farther from `o` than `p`.
pub open spec fn insert_by_dist(s: Seq<Point>, p: Point, o: Point) -> Seq<Point>
    decreases s.len(),
{
    if s.len() == 0 {
        seq![p]
    } else if dist(o, s.last()) <= dist(o, p) {
        s.push(p)
    } else {
        insert_by_dist(s.drop_last(), p, o).push(s.last())
    }
}

/// The stable sort of `s` by distance from `o`.
pub open spec fn sort_by_dist(s: Seq<Point>, o: Point) -> Seq<Point>
    decreases s.len(),
{
    if s.len() == 0 {
        s
    } else {
        insert_by_dist(sort_by_dist(s.drop_last(), o), s.last(), o)
    }
}

/// The cursor after `n` crossings from state `entered`.
pub open spec fn flip(entered: bool, n: int) -> bool {
    entered != (n % 2 == 1)
}

/// A crossing seen while the cursor says `entered`: it leaves if inside, else it enters.
pub open spec fn tag(p: Point, entered: bool) -> Vertex {
    if entered {
        Vertex::OutInter(p)
    } else {
        Vertex::InInter(p)
    }
}

/// The crossings `s` tagged alternately, starting from cursor state `entered`.
pub open spec fn tag_from(s: Seq<Point>, entered: bool) -> Seq<Vertex>
    decreases s.len(),
{
    if s.len() == 0 {
        seq![]
    } else {
        tag_from(s.drop_last(), entered).push(tag(s.last(), flip(entered, s.len() - 1)))
    }
}

/// The crossings of `line` with the polygon `rs`, ordered by distance from its start.
pub open spec fn edge_entries(rs: Seq<Seq<Point>>, line: Line) -> Seq<Point> {
    sort_by_dist(hits(rs, line, rs.len() as int), line.begin)
}

fn distance(o: Point, p: Point) -> (r: i64)
    ensures
        r == dist(o, p),
{
    let dx: i64 = o.x as i64 - p.x as i64;
    let dy: i64 = o.y as i64 - p.y as i64;
    (if dx < 0 { -dx } else { dx }) + (if dy < 0 { -dy } else { dy })
}

/// Stable insertion sort by distance from `o`.
fn sort_points_by_dist(v: Vec<Point>, o: Point) -> (r: Vec<Point>)
    ensures
        r@ == sort_by_dist(v@, o),
{
    let mut res: Vec<Point> = Vec::new();
    let mut i: usize = 0;
    while i < v.len()
        invariant
            0 <= i <= v.len(),
            res@ == sort_by_dist(v@.take(i as int), o),
        decreases v.len() - i,
    {
        let x = v[i];
        let dx = distance(o, x);
        let mut j: usize = res.len();
        assert(res@.take(j as int) =~= res@);
        assert(res@.skip(j as int) =~= Seq::<Point>::empty());
        while j > 0 && distance(o, res[j - 1]) > dx
            invariant
                0 <= j <= res.len(),
                insert_by_dist(res@, x, o) == insert_by_dist(res@.take(j as int), x, o) + res@.skip(j as int),
                dx == dist(o, x),
            decreases j,
        {
            proof {
                let t = res@.take(j as int);
                assert(t.last() == res@[j - 1]);
                assert(t.len() > 0);
                assert(t.drop_last() =~= res@.take(j - 1));
                assert(res@.skip(j - 1) =~= seq![t.last()] + res@.skip(j as int));
                assert(insert_by_dist(t, x, o) == insert_by_dist(t.drop_last(), x, o).push(t.last()));
                assert(insert_by_dist(t.drop_last(), x, o).push(t.last()) + res@.skip(j as int)
                    =~= insert_by_dist(t.drop_last(), x, o) + res@.skip(j - 1));
            }
            j -= 1;
        }
        proof {
            let t = res@.take(j as int);
            if j > 0 {
                assert(t.last() == res@[j - 1]);
            }
            assert(insert_by_dist(t, x, o) =~= t.push(x));
            assert(res@.insert(j as int, x) =~= t.push(x) + res@.skip(j as int));
            assert(v@.take(i + 1).drop_last() =~= v@.take(i as int));
        }
        res.insert(j, x);
        i += 1;
    }
    assert(v@.take(i as int) =~= v@);
    res
}

/// A vertex tagged by its membership in the polygon `b`.
pub open spec fn vertex_tag(b: Seq<Seq<Point>>, p: Point) -> Vertex {
    if inside(b, p) {
        Vertex::In(p)
    } else {
        Vertex::Out(p)
    }
}

/// The tagged list of the first `k` vertices of ring `r` against polygon `b`, each vertex
/// followed by the crossings of its outgoing edge, with the cursor state after them.
pub open spec fn ring_walk(r: Seq<Point>, b: Seq<Seq<Point>>, k: int) -> (Seq<Vertex>, bool)
    decreases k,
{
    if k <= 0 {
        (seq![], false)
    } else {
        let (prev, entered) = ring_walk(r, b, k - 1);
        let found = edge_entries(b, edge_of(r, k - 1));
        (prev.push(vertex_tag(b, r[k - 1])) + tag_from(found, entered), flip(entered, found.len() as int))
    }
}

/// The index of the first vertex of `r` from `i` on that lies outside `b`, or -1.
pub open spec fn first_outside_from(r: Seq<Point>, b: Seq<Seq<Point>>, i: int) -> int
    decreases r.len() - i,
{
    if i < 0 || i >= r.len() {
        -1
    } else if !inside(b, r[i]) {
        i
    } else {
        first_outside_from(r, b, i + 1)
    }
}

/// The ring `r` started at its vertex `f`.
pub open spec fn rotate(r: Seq<Point>, f: int) -> Seq<Point> {
    Seq::new(r.len(), |k: int| r[(f + k) % r.len() as int])
}

pub open spec fn has_crossing(s: Seq<Vertex>) -> bool {
    exists|i: int| 0 <= i < s.len() && (#[trigger] s[i]).is_crossing()
}

/// Every point of every ring of `b` lies inside `a`.
pub open spec fn all_points_inside(a: Seq<Seq<Point>>, b: Seq<Seq<Point>>) -> bool {
    forall|i: int, j: int| 0 <= i < b.len() && 0 <= j < b[i].len() ==> inside(a, #[trigger] b[i][j])
}

/// The tagged list of ring `r` against `b`, started at its first vertex outside `b`.
pub open spec fn ring_list(r: Seq<Point>, b: Seq<Seq<Point>>) -> Seq<Vertex> {
    ring_walk(rotate(r, first_outside_from(r, b, 0)), b, r.len() as int).0
}

/// Every vertex of ring `r` lies outside `b`.
pub open spec fn ring_outside(r: Seq<Point>, b: Seq<Seq<Point>>) -> bool {
    forall|j: int| 0 <= j < r.len() ==> !inside(b, #[trigger] r[j])
}

/// The tagged lists of the first `k` rings of `a` against `b`, keeping the rings that
/// have a vertex outside `b` and at least one crossing.
pub open spec fn ring_lists(a: Seq<Seq<Point>>, b: Seq<Seq<Point>>, k: int) -> Seq<Seq<Vertex>>
    decreases k,
{
    if k <= 0 {
        seq![]
    } else {
        let r = a[k - 1];
        if first_outside_from(r, b, 0) >= 0 && has_crossing(ring_list(r, b)) {
            ring_lists(a, b, k - 1).push(ring_list(r, b))
        } else {
            ring_lists(a, b, k - 1)
        }
    }
}

/// What the rings of `a` give against `b`: `b` itself when no vertex of the outer ring
/// of `a` lies inside `b` and every point of `b` lies inside `a`; else the tagged lists.
pub open spec fn classify(a: Seq<Seq<Point>>, b: Seq<Seq<Point>>) -> Classified {
    if a.len() > 0 && ring_outside(a[0], b) && all_points_inside(a, b) {
        Classified::Contained(b)
    } else {
        Classified::Lists(ring_lists(a, b, a.len() as int))
    }
}

/// What classifying one polygon's rings against another gives: the other polygon's
/// rings, when it lies wholly inside, or the tagged lists of the rings that cross it.
pub ghost enum Classified {
    Contained(Seq<Seq<Point>>),
    Lists(Seq<Seq<Vertex>>),
}

/// The outcome of classifying one polygon's rings against another.
#[derive(Debug)]
pub enum ClipRes {
    In(Vec<Vec<Point>>),
    Inter(Vec<Vec<Vertex>>),
}

impl View for ClipRes {
    type V = Classified;

    open spec fn view(&self) -> Classified {
        match self {
            ClipRes::In(rs) => Classified::Contained(rs@.map_values(|r: Vec<Point>| r@)),
            ClipRes::Inter(ls) => Classified::Lists(ls@.map_values(|l: Vec<Vertex>| l@)),
        }
    }
}

/// A copy of the rings.
pub fn copy_rings(rings: &Vec<Vec<Point>>) -> (r: Vec<Vec<Point>>)
    ensures
        r@.map_values(|v: Vec<Point>| v@) == rings@.map_values(|v: Vec<Point>| v@),
{
    let mut res: Vec<Vec<Point>> = Vec::new();
    let mut i: usize = 0;
    while i < rings.len()
        invariant
            0 <= i <= rings.len(),
            res@.len() == i,
            forall|k: int| 0 <= k < i ==> (#[trigger] res@[k])@ == rings@[k]@,
        decreases rings.len() - i,
    {
        let ring = &rings[i];
        let mut copy: Vec<Point> = Vec::new();
        let mut j: usize = 0;
        while j < ring.len()
            invariant
                0 <= j <= ring.len(),
                copy@ == ring@.take(j as int),
            decreases ring.len() - j,
        {
            copy.push(ring[j]);
            assert(ring@.take(j + 1) =~= ring@.take(j as int).push(ring@[j as int]));
            j += 1;
        }
        assert(ring@.take(j as int) =~= ring@);
        res.push(copy);
        i += 1;
    }
    assert(res@.map_values(|v: Vec<Point>| v@) =~= rings@.map_values(|v: Vec<Point>| v@));
    res
}

fn rotated(r: &Vec<Point>, f: usize) -> (res: Vec<Point>)
    requires
        f < r.len(),
    ensures
        res@ == rotate(r@, f as int),
{
    let n = r.len();
    let mut res: Vec<Point> = Vec::new();
    let mut k: usize = 0;
    while k < n
        invariant
            n == r.len(),
            f < n,
            0 <= k <= n,
            res@ =~= rotate(r@, f as int).take(k as int),
        decreases n - k,
    {
        let idx: usize = if k < n - f { f + k } else { k - (n - f) };
        assert(idx == (f + k) % (n as int)) by (nonlinear_arith)
            requires idx == if k < n - f { f + k } else { k - (n - f) }, f < n, k < n;
        res.push(r[idx]);
        k += 1;
    }
    res
}

fn any_crossing(s: &Vec<Vertex>) -> (r: bool)
    ensures
        r == has_crossing(s@),
{
    let mut i: usize = 0;
    while i < s.len()
        invariant
            0 <= i <= s.len(),
            forall|k: int| 0 <= k < i ==> !(#[trigger] s@[k]).is_crossing(),
        decreases s.len() - i,
    {
        match s[i] {
            Vertex::InInter(_) | Vertex::OutInter(_) => {
                return true;
            },
            _ => {},
        }
        i += 1;
    }
    false
}


/// There is at least one ring, and every ring has at least three points.
pub open spec fn well_formed(rs: Seq<Seq<Point>>) -> bool {
    &&& rs.len() >= 1
    &&& forall|i: int| 0 <= i < rs.len() ==> #[trigger] rs[i].len() >= 3
}

/// `other` holds a crossing at `p`.
pub open spec fn crossing_in(p: Point, other: Seq<Vertex>) -> bool {
    exists|j: int| 0 <= j < other.len() && (#[trigger] other[j]).is_crossing() && other[j].point() == p
}

/// Every crossing of `l` is matched by a crossing at the same point in `other`.
pub open spec fn matched(l: Seq<Vertex>, other: Seq<Vertex>) -> bool {
    forall|i: int| 0 <= i < l.len() && (#[trigger] l[i]).is_crossing() ==> crossing_in(l[i].point(), other)
}

/// The lists of `ls` whose crossings are all matched in `other`, in order; a list with
/// an unmatched crossing is a defect of its ring alone and is left out.
pub open spec fn keep_matched(ls: Seq<Seq<Vertex>>, other: Seq<Vertex>) -> Seq<Seq<Vertex>>
    decreases ls.len(),
{
    if ls.len() == 0 {
        seq![]
    } else if matched(ls.last(), other) {
        keep_matched(ls.drop_last(), other).push(ls.last())
    } else {
        keep_matched(ls.drop_last(), other)
    }
}

/// The lists `ls` joined in order.
pub open spec fn flat(ls: Seq<Seq<Vertex>>) -> Seq<Vertex>
    decreases ls.len(),
{
    if ls.len() == 0 {
        seq![]
    } else {
        flat(ls.drop_last()) + ls.last()
    }
}

/// The rings of the intersection of the polygons `a` and `b`: `a` itself when both have
/// the same rings, the contained polygon when one holds the other, else the rings traced
/// through the tagged lists of both, leaving out the rings whose crossings the other
/// polygon's lists do not match.
pub open spec fn clip_result(a: Seq<Seq<Point>>, b: Seq<Seq<Point>>) -> Result<Seq<Seq<Point>>, ClipError> {
    if !well_formed(a) || !well_formed(b) {
        Err(ClipError::DegenerateRing)
    } else if a == b {
        Ok(a)
    } else {
        match classify(a, b) {
            Classified::Contained(c) => Ok(c),
            Classified::Lists(l1) => match classify(b, a) {
                Classified::Contained(c) => Ok(c),
                Classified::Lists(l2) => match trace_all(
                    flat(keep_matched(l1, flat(l2))),
                    flat(keep_matched(l2, flat(l1))),
                    seq![],
                ) {
                    Some(rs) => Ok(rs),
                    None => Err(ClipError::StructuralInconsistency),
                },
            },
        }
    }
}

fn flatten_lists(ls: &Vec<Vec<Vertex>>) -> (r: Vec<Vertex>)
    ensures
        r@ == flat(ls@.map_values(|l: Vec<Vertex>| l@)),
{
    let ghost v = ls@.map_values(|l: Vec<Vertex>| l@);
    let mut res: Vec<Vertex> = Vec::new();
    let mut i: usize = 0;
    while i < ls.len()
        invariant
            0 <= i <= ls.len(),
            v == ls@.map_values(|l: Vec<Vertex>| l@),
            res@ == flat(v.take(i as int)),
        decreases ls.len() - i,
    {
        let l = &ls[i];
        let mut j: usize = 0;
        let ghost before = res@;
        while j < l.len()
            invariant
                0 <= j <= l.len(),
                res@ == before + l@.take(j as int),
            decreases l.len() - j,
        {
            res.push(l[j]);
            assert(l@.take(j + 1) =~= l@.take(j as int).push(l@[j as int]));
            j += 1;
        }
        assert(v.take(i + 1).drop_last() =~= v.take(i as int));
        assert(l@.take(j as int) =~= l@);
        i += 1;
    }
    assert(v.take(i as int) =~= v);
    res
}

fn crossing_present(p: Point, other: &Vec<Vertex>) -> (r: bool)
    ensures
        r == crossing_in(p, other@),
{
    let mut j: usize = 0;
    while j < other.len()
        invariant
            0 <= j <= other.len(),
            forall|t: int| 0 <= t < j ==> !((#[trigger] other@[t]).is_crossing() && other@[t].point() == p),
        decreases other.len() - j,
    {
        let v = other[j];
        if (matches!(v, Vertex::InInter(_)) || matches!(v, Vertex::OutInter(_)))
            && crate::tracer::point_of(&v) == p {
            return true;
        }
        j += 1;
    }
    false
}

fn list_matched(l: &Vec<Vertex>, other: &Vec<Vertex>) -> (r: bool)
    ensures
        r == matched(l@, other@),
{
    let mut i: usize = 0;
    while i < l.len()
        invariant
            0 <= i <= l.len(),
            forall|t: int| 0 <= t < i && (#[trigger] l@[t]).is_crossing() ==> crossing_in(l@[t].point(), other@),
        decreases l.len() - i,
    {
        let v = l[i];
        if matches!(v, Vertex::InInter(_)) || matches!(v, Vertex::OutInter(_)) {
            if !crossing_present(crate::tracer::point_of(&v), other) {
                return false;
            }
        }
        i += 1;
    }
    true
}

fn copy_list(l: &Vec<Vertex>) -> (r: Vec<Vertex>)
    ensures
        r@ == l@,
{
    let mut res: Vec<Vertex> = Vec::new();
    let mut j: usize = 0;
    while j < l.len()
        invariant
            0 <= j <= l.len(),
            res@ == l@.take(j as int),
        decreases l.len() - j,
    {
        res.push(l[j]);
        assert(l@.take(j + 1) =~= l@.take(j as int).push(l@[j as int]));
        j += 1;
    }
    assert(l@.take(j as int) =~= l@);
    res
}

pub fn keep_matched_lists(ls: &Vec<Vec<Vertex>>, other: &Vec<Vertex>) -> (r: Vec<Vec<Vertex>>)
    ensures
        r@.map_values(|l: Vec<Vertex>| l@) == keep_matched(ls@.map_values(|l: Vec<Vertex>| l@), other@),
{
    let ghost v = ls@.map_values(|l: Vec<Vertex>| l@);
    let mut res: Vec<Vec<Vertex>> = Vec::new();
    let mut i: usize = 0;
    assert(res@.map_values(|l: Vec<Vertex>| l@) =~= keep_matched(v.take(0), other@));
    while i < ls.len()
        invariant
            0 <= i <= ls.len(),
            v == ls@.map_values(|l: Vec<Vertex>| l@),
            res@.map_values(|l: Vec<Vertex>| l@) == keep_matched(v.take(i as int), other@),
        decreases ls.len() - i,
    {
        assert(v.take(i + 1).drop_last() =~= v.take(i as int));
        let ghost before = res@.map_values(|l: Vec<Vertex>| l@);
        if list_matched(&ls[i], other) {
            let c = copy_list(&ls[i]);
            res.push(c);
            assert(res@.map_values(|l: Vec<Vertex>| l@) =~= before.push(v[i as int]));
        }
        i += 1;
    }
    assert(v.take(i as int) =~= v);
    res
}

fn same_rings(a: &Vec<Vec<Point>>, b: &Vec<Vec<Point>>) -> (r: bool)
    ensures
        r == (view_rings(a@) == view_rings(b@)),
{
    if a.len() != b.len() {
        assert(view_rings(a@).len() != view_rings(b@).len());
        return false;
    }
    let mut i: usize = 0;
    while i < a.len()
        invariant
            a.len() == b.len(),
            0 <= i <= a.len(),
            forall|t: int| 0 <= t < i ==> (#[trigger] a@[t])@ == b@[t]@,
        decreases a.len() - i,
    {
        let (ra, rb) = (&a[i], &b[i]);
        if ra.len() != rb.len() {
            assert(view_rings(a@)[i as int] != view_rings(b@)[i as int]);
            return false;
        }
        let mut j: usize = 0;
        while j < ra.len()
            invariant
                a.len() == b.len(),
                0 <= i < a.len(),
                *ra == a@[i as int],
                *rb == b@[i as int],
                ra.len() == rb.len(),
                0 <= j <= ra.len(),
                forall|t: int| 0 <= t < j ==> ra@[t] == rb@[t],
            decreases ra.len() - j,
        {
            if ra[j] != rb[j] {
                assert(view_rings(a@)[i as int][j as int] != view_rings(b@)[i as int][j as int]);
                return false;
            }
            j += 1;
        }
        assert(ra@ =~= rb@);
        i += 1;
    }
    assert(view_rings(a@) =~= view_rings(b@));
    true
}

fn rings_well_formed(rings: &Vec<Vec<Point>>) -> (r: bool)
    ensures
        r == well_formed(view_rings(rings@)),
{
    if rings.len() == 0 {
        return false;
    }
    let mut i: usize = 0;
    while i < rings.len()
        invariant
            0 <= i <= rings.len(),
            rings.len() >= 1,
            forall|k: int| 0 <= k < i ==> #[trigger] view_rings(rings@)[k].len() >= 3,
        decreases rings.len() - i,
    {
        if rings[i].len() < 3 {
            assert(view_rings(rings@)[i as int].len() < 3);
            return false;
        }
        i += 1;
    }
    true
}

proof fn lemma_first_outside_range(r: Seq<Point>, b: Seq<Seq<Point>>, i: int)
    requires
        0 <= i,
    ensures
        first_outside_from(r, b, i) == -1 || i <= first_outside_from(r, b, i) < r.len(),
        first_outside_from(r, b, i) == -1 <==> forall|j: int| i <= j < r.len() ==> inside(b, #[trigger] r[j]),
    decreases r.len() - i,
{
    if i < r.len() {
        lemma_first_outside_range(r, b, i + 1);
        if inside(b, r[i]) {
            assert forall|j: int| i <= j < r.len() && first_outside_from(r, b, i) == -1 implies inside(b, #[trigger] r[j]) by {
                if j > i {
                    assert(i + 1 <= j);
                }
            }
        }
    }
}


/// When the rings are traced (different polygons, neither holding the other), no output
/// ring has two equal neighbours, its last and first point included.
pub proof fn lemma_clip_traced_no_repeats(a: Seq<Seq<Point>>, b: Seq<Seq<Point>>)
    requires
        well_formed(a),
        well_formed(b),
        a != b,
        classify(a, b) is Lists,
        classify(b, a) is Lists,
    ensures
        clip_result(a, b) matches Ok(rs) ==> forall|i: int| 0 <= i < rs.len() ==> no_repeats(#[trigger] rs[i]),
{
    let l1 = classify(a, b)->Lists_0;
    let l2 = classify(b, a)->Lists_0;
    lemma_trace_all_no_repeats(flat(keep_matched(l1, flat(l2))), flat(keep_matched(l2, flat(l1))), seq![]);
}

/// Clipping a well-formed polygon by itself gives back its own rings.
pub proof fn lemma_clip_self(a: Seq<Seq<Point>>)
    requires
        well_formed(a),
    ensures
        clip_result(a, a) == Ok::<Seq<Seq<Point>>, ClipError>(a),
{
}

/// When no vertex of the outer ring of `a` lies inside `b` and every point of every
/// ring of `b` lies inside `a`, the intersection is `b`'s rings, unchanged.
pub proof fn lemma_clip_contained(a: Seq<Seq<Point>>, b: Seq<Seq<Point>>)
    requires
        well_formed(a),
        well_formed(b),
        a.len() > 0,
        ring_outside(a[0], b),
        all_points_inside(a, b),
    ensures
        clip_result(a, b) == Ok::<Seq<Seq<Point>>, ClipError>(b),
{
}

proof fn lemma_lists_all_inside(b: Seq<Seq<Point>>, a: Seq<Seq<Point>>, k: int)
    requires
        k <= b.len(),
        all_points_inside(a, b),
    ensures
        ring_lists(b, a, k) == Seq::<Seq<Vertex>>::empty(),
    decreases k,
{
    if k > 0 {
        lemma_lists_all_inside(b, a, k - 1);
        let r = b[k - 1];
        assert forall|j: int| 0 <= j < r.len() implies inside(a, #[trigger] r[j]) by {
            assert(inside(a, b[k - 1][j]));
        }
        lemma_first_outside_range(r, a, 0);
    }
}

/// In the containment case the order of the operands does not matter: clipping `b` by
/// `a` gives what clipping `a` by `b` gives, the rings of `b`.
pub proof fn lemma_clip_contained_either_order(a: Seq<Seq<Point>>, b: Seq<Seq<Point>>)
    requires
        well_formed(a),
        well_formed(b),
        a.len() > 0,
        ring_outside(a[0], b),
        all_points_inside(a, b),
    ensures
        clip_result(b, a) == clip_result(a, b),
{
    lemma_clip_contained(a, b);
    lemma_lists_all_inside(b, a, b.len() as int);
    assert(inside(a, b[0][0]));
}

proof fn lemma_rotate_edge(r: Seq<Point>, f: int, j: int)
    requires
        0 <= f < r.len(),
        0 <= j < r.len(),
    ensures
        edge_of(rotate(r, f), j) == edge_of(r, (f + j) % r.len() as int),
{
    let n = r.len() as int;
    lemma_add_mod_noop_right(f, j + 1, n);
    lemma_add_mod_noop_right(1, f + j, n);
    assert((f + (j + 1) % n) % n == (1 + (f + j) % n) % n);
    assert(0 <= (j + 1) % n < n);
    assert(0 <= (f + j) % n < n);
}

proof fn lemma_walk_without_hits(r: Seq<Point>, b: Seq<Seq<Point>>, k: int)
    requires
        k <= r.len(),
        forall|j: int| 0 <= j < k ==> #[trigger] hits(b, edge_of(r, j), b.len() as int).len() == 0,
    ensures
        !ring_walk(r, b, k).1,
        forall|t: int| 0 <= t < ring_walk(r, b, k).0.len() ==> !(#[trigger] ring_walk(r, b, k).0[t]).is_crossing(),
    decreases k,
{
    if k > 0 {
        lemma_walk_without_hits(r, b, k - 1);
        let line = edge_of(r, k - 1);
        assert(hits(b, line, b.len() as int).len() == 0);
        assert(edge_entries(b, line) =~= Seq::<Point>::empty());
        assert(tag_from(edge_entries(b, line), ring_walk(r, b, k - 1).1) =~= Seq::<Vertex>::empty());
        let prev = ring_walk(r, b, k - 1).0;
        assert(ring_walk(r, b, k).0 =~= prev.push(vertex_tag(b, r[k - 1])));
    }
}

proof fn lemma_lists_without_hits(a: Seq<Seq<Point>>, b: Seq<Seq<Point>>, k: int)
    requires
        k <= a.len(),
        forall|i: int, j: int| 0 <= i < a.len() && 0 <= j < a[i].len()
            ==> #[trigger] hits(b, edge_of(a[i], j), b.len() as int).len() == 0,
    ensures
        ring_lists(a, b, k) == Seq::<Seq<Vertex>>::empty(),
    decreases k,
{
    if k > 0 {
        lemma_lists_without_hits(a, b, k - 1);
        let r = a[k - 1];
        let f = first_outside_from(r, b, 0);
        lemma_first_outside_range(r, b, 0);
        if f >= 0 {
            let rot = rotate(r, f);
            assert forall|j: int| 0 <= j < rot.len() implies #[trigger] hits(b, edge_of(rot, j), b.len() as int).len() == 0 by {
                lemma_rotate_edge(r, f, j);
                let m = (f + j) % r.len() as int;
                assert(0 <= m < r.len());
                assert(hits(b, edge_of(a[k - 1], m), b.len() as int).len() == 0);
            }
            lemma_walk_without_hits(rot, b, r.len() as int);
            assert(!has_crossing(ring_list(r, b)));
        }
    }
}

/// When two different polygons have no edge that properly crosses an edge of the other,
/// and neither has all its points inside the other, the intersection is empty.
pub proof fn lemma_clip_disjoint(a: Seq<Seq<Point>>, b: Seq<Seq<Point>>)
    requires
        well_formed(a),
        well_formed(b),
        a != b,
        !all_points_inside(a, b),
        !all_points_inside(b, a),
        forall|i: int, j: int| 0 <= i < a.len() && 0 <= j < a[i].len()
            ==> #[trigger] hits(b, edge_of(a[i], j), b.len() as int).len() == 0,
        forall|i: int, j: int| 0 <= i < b.len() && 0 <= j < b[i].len()
            ==> #[trigger] hits(a, edge_of(b[i], j), a.len() as int).len() == 0,
    ensures
        clip_result(a, b) == Ok::<Seq<Seq<Point>>, ClipError>(seq![]),
{
    lemma_lists_without_hits(a, b, a.len() as int);
    lemma_lists_without_hits(b, a, b.len() as int);
    let e = Seq::<Seq<Vertex>>::empty();
    assert(flat(e) =~= Seq::<Vertex>::empty());
    assert(keep_matched(e, flat(e)) =~= e);
    assert(first_in_inter_from(flat(e), 0) == -1);
}

fn crosses(p0: Point, p1: Point, q: Point) -> (r: bool)
    ensures
        r == edge_crosses(p0, p1, q),
{
    if p0.y == p1.y {
        return false;
    }
    if (q.y < p0.y && q.y < p1.y) || (q.y >= p0.y && q.y >= p1.y) {
        return false;
    }
    let dy: i128 = q.y as i128 - p0.y as i128;
    let dx: i128 = p1.x as i128 - p0.x as i128;
    proof {
        assert(-0x1_0000_0000_0000_0000int <= dy * dx <= 0x1_0000_0000_0000_0000int) by (nonlinear_arith)
            requires -0x1_0000_0000int <= dy <= 0x1_0000_0000int, -0x1_0000_0000int <= dx <= 0x1_0000_0000int;
    }
    let run: i128 = crate::geometry::div_toward_zero(dy * dx, p1.y as i128 - p0.y as i128);
    assert(abs(run as int) <= abs((dy * dx) as int)) by (nonlinear_arith)
        requires run == trunc_div((dy * dx) as int, p1.y - p0.y), p1.y - p0.y != 0;
    run + p0.x as i128 > q.x as i128
}

impl Polygon {
    pub fn new(rings: Vec<Vec<Point>>) -> (r: Polygon)
        ensures
            r.rings == rings,
    {
        Polygon { rings }
    }


    /// The proper crossings of `line` with every edge of every ring, ordered by
    /// distance from the line's start and tagged alternately from the cursor `is_enter`.
    pub fn generate_inter_vertexs_in_line(&self, line: &Line, is_enter: &mut bool) -> (r: Vec<Vertex>)
        ensures
            r@ == tag_from(edge_entries(self@, *line), *old(is_enter)),
            *final(is_enter) == flip(*old(is_enter), edge_entries(self@, *line).len() as int),
    {
        let mut found: Vec<Point> = Vec::new();
        let mut i: usize = 0;
        while i < self.rings.len()
            invariant
                0 <= i <= self.rings.len(),
                found@ == hits(self@, *line, i as int),
            decreases self.rings.len() - i,
        {
            let points = &self.rings[i];
            assert(points@ == self@[i as int]);
            let n = points.len();
            let mut j: usize = 0;
            while j < n
                invariant
                    0 <= i < self.rings.len(),
                    points@ == self@[i as int],
                    n == points@.len(),
                    0 <= j <= n,
                    found@ == hits(self@, *line, i as int) + ring_hits(points@, *line, j as int),
                decreases n - j,
            {
                let edge = Line { begin: points[j], end: points[(j + 1) % n] };
                assert(edge == edge_of(points@, j as int));
                let ghost before = found@;
                if let Some(p) = edge.generate_inter_vertex_in_lines(line) {
                    if !(p == edge.begin || p == edge.end || p == line.begin || p == line.end) {
                        found.push(p);
                    }
                }
                assert(found@ =~= hits(self@, *line, i as int) + ring_hits(points@, *line, j + 1));
                j += 1;
            }
            i += 1;
        }
        let sorted = sort_points_by_dist(found, line.begin);
        let ghost start = *is_enter;
        let mut res: Vec<Vertex> = Vec::new();
        let mut k: usize = 0;
        while k < sorted.len()
            invariant
                0 <= k <= sorted.len(),
                res@ == tag_from(sorted@.take(k as int), start),
                *is_enter == flip(start, k as int),
            decreases sorted.len() - k,
        {
            let p = sorted[k];
            assert(sorted@.take(k + 1).drop_last() =~= sorted@.take(k as int));
            if *is_enter {
                *is_enter = false;
                res.push(Vertex::OutInter(p));
            } else {
                *is_enter = true;
                res.push(Vertex::InInter(p));
            }
            k += 1;
        }
        assert(sorted@.take(k as int) =~= sorted@);
        res
    }


    /// Whether every point of every ring of `poly` lies inside this polygon.
    fn holds_all_points(&self, poly: &Polygon) -> (r: bool)
        ensures
            r == all_points_inside(self@, poly@),
    {
        let mut i: usize = 0;
        while i < poly.rings.len()
            invariant
                0 <= i <= poly.rings.len(),
                forall|a: int, c: int| 0 <= a < i && 0 <= c < poly@[a].len() ==> inside(self@, #[trigger] poly@[a][c]),
            decreases poly.rings.len() - i,
        {
            let points = &poly.rings[i];
            assert(points@ == poly@[i as int]);
            let mut j: usize = 0;
            while j < points.len()
                invariant
                    0 <= i < poly.rings.len(),
                    points@ == poly@[i as int],
                    0 <= j <= points.len(),
                    forall|a: int, c: int| 0 <= a < i && 0 <= c < poly@[a].len() ==> inside(self@, #[trigger] poly@[a][c]),
                    forall|c: int| 0 <= c < j ==> inside(self@, #[trigger] poly@[i as int][c]),
                decreases points.len() - j,
            {
                if !self.contains(&points[j]) {
                    return false;
                }
                j += 1;
            }
            i += 1;
        }
        true
    }

    /// The tagged list of `ring` against this polygon, walking it in the given order.
    fn ring_vertices(&self, ring: &Vec<Point>) -> (r: Vec<Vertex>)
        ensures
            r@ == ring_walk(ring@, self@, ring@.len() as int).0,
    {
        let n = ring.len();
        let mut res: Vec<Vertex> = Vec::new();
        let mut is_enter = false;
        let mut j: usize = 0;
        while j < n
            invariant
                n == ring@.len(),
                0 <= j <= n,
                (res@, is_enter) == ring_walk(ring@, self@, j as int),
            decreases n - j,
        {
            let p = ring[j];
            if self.contains(&p) {
                res.push(Vertex::In(p));
            } else {
                res.push(Vertex::Out(p));
            }
            let line = Line { begin: p, end: ring[(j + 1) % n] };
            assert(line == edge_of(ring@, j as int));
            let mut found = self.generate_inter_vertexs_in_line(&line, &mut is_enter);
            res.append(&mut found);
            j += 1;
        }
        res
    }

    /// Classifies this polygon's rings against `poly`; see `classify`.
    pub fn generate_inter_vertexs(&self, poly: &Polygon) -> (r: ClipRes)
        ensures
            r@ == classify(self@, poly@),
    {
        if self.rings.len() > 0 {
            let outer = &self.rings[0];
            let mut k: usize = 0;
            while k < outer.len() && !poly.contains(&outer[k])
                invariant
                    0 < self.rings.len(),
                    outer@ == self@[0],
                    0 <= k <= outer.len(),
                    forall|j: int| 0 <= j < k ==> !inside(poly@, #[trigger] outer@[j]),
                decreases outer.len() - k,
            {
                k += 1;
            }
            if k == outer.len() && self.holds_all_points(poly) {
                return ClipRes::In(copy_rings(&poly.rings));
            }
        }
        let mut result: Vec<Vec<Vertex>> = Vec::new();
        let mut i: usize = 0;
        assert(result@.map_values(|l: Vec<Vertex>| l@) =~= Seq::<Seq<Vertex>>::empty());
        while i < self.rings.len()
            invariant
                0 <= i <= self.rings.len(),
                ring_lists(self@, poly@, i as int) == result@.map_values(|l: Vec<Vertex>| l@),
            decreases self.rings.len() - i,
        {
            let primary = &self.rings[i];
            assert(primary@ == self@[i as int]);
            let mut f: usize = 0;
            while f < primary.len() && poly.contains(&primary[f])
                invariant
                    0 <= i < self.rings.len(),
                    primary@ == self@[i as int],
                    0 <= f <= primary.len(),
                    first_outside_from(primary@, poly@, 0) == first_outside_from(primary@, poly@, f as int),
                decreases primary.len() - f,
            {
                f += 1;
            }
            if f < primary.len() {
                let rot = rotated(primary, f);
                let points = poly.ring_vertices(&rot);
                if any_crossing(&points) {
                    let ghost before = result@.map_values(|l: Vec<Vertex>| l@);
                    result.push(points);
                    assert(result@.map_values(|l: Vec<Vertex>| l@) =~= before.push(points@));
                }
            }
            i += 1;
        }
        ClipRes::Inter(result)
    }


    /// The rings of the intersection of this polygon with `other`; an empty list when
    /// they do not overlap.
    pub fn clip(&self, other: &Polygon) -> (r: Result<Vec<Vec<Point>>, ClipError>)
        ensures
            match clip_result(self@, other@) {
                Ok(rs) => r matches Ok(v) && view_rings(v@) == rs,
                Err(e) => r == Err::<Vec<Vec<Point>>, ClipError>(e),
            },
            r == Err::<Vec<Vec<Point>>, ClipError>(ClipError::DegenerateRing) <==> !(well_formed(self@) && well_formed(other@)),
    {
        if !rings_well_formed(&self.rings) || !rings_well_formed(&other.rings) {
            return Err(ClipError::DegenerateRing);
        }
        if same_rings(&self.rings, &other.rings) {
            return Ok(copy_rings(&self.rings));
        }
        let res1 = self.generate_inter_vertexs(other);
        match res1 {
            ClipRes::In(list) => Ok(list),
            ClipRes::Inter(primary_list) => {
                let res2 = other.generate_inter_vertexs(self);
                match res2 {
                    ClipRes::In(list) => Ok(list),
                    ClipRes::Inter(clip_list) => {
                        let all1 = flatten_lists(&primary_list);
                        let all2 = flatten_lists(&clip_list);
                        let kept1 = keep_matched_lists(&primary_list, &all2);
                        let kept2 = keep_matched_lists(&clip_list, &all1);
                        generate_clip_polygons(flatten_lists(&kept1), flatten_lists(&kept2))
                    },
                }
            },
        }
    }

    /// Even-odd membership of `point`, counting the edges of all rings together.
    pub fn contains(self: &Polygon, point: &Point) -> (r: bool)
        ensures
            r == inside(self@, *point),
    {
        let mut odd = false;
        let mut i: usize = 0;
        while i < self.rings.len()
            invariant
                0 <= i <= self.rings.len(),
                odd == (crossings(self@, *point, i as int) % 2 == 1),
            decreases self.rings.len() - i,
        {
            let points = &self.rings[i];
            assert(points@ == self@[i as int]);
            let n = points.len();
            let mut j: usize = 0;
            while j < n
                invariant
                    0 <= i < self.rings.len(),
                    points@ == self@[i as int],
                    n == points@.len(),
                    0 <= j <= n,
                    odd == ((crossings(self@, *point, i as int) + ring_crossings(points@, *point, j as int)) % 2 == 1),
                decreases n - j,
            {
                let p0 = points[j];
                let p1 = points[(j + 1) % n];
                if crosses(p0, p1, *point) {
                    odd = !odd;
                }
                j += 1;
            }
            i += 1;
        }
        odd
    }
}

} // verus!
