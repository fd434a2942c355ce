use vstd::prelude::*;
use crate::geometry::{Point, view_rings};

verus! {

/// A point of a ring tagged with its role against the other polygon: a vertex inside
/// or outside it, or a crossing where the boundary enters or leaves it.
#[derive(Clone, Copy, Debug, PartialEq, Eq, Structural)]
pub enum Vertex {
    In(Point),
    Out(Point),
    InInter(Point),
    OutInter(Point),
}

impl Vertex {
    pub open spec fn point(self) -> Point {
        match self {
            Vertex::In(p) => p,
            Vertex::Out(p) => p,
            Vertex::InInter(p) => p,
            Vertex::OutInter(p) => p,
        }
    }

    pub open spec fn is_crossing(self) -> bool {
        self is InInter || self is OutInter
    }
}

impl From<Vertex> for Point {
    fn from(v: Vertex) -> (r: Point)
        ensures
            r == v.point(),
    {
        match v {
            Vertex::In(p) => p,
            Vertex::Out(p) => p,
            Vertex::InInter(p) => p,
            Vertex::OutInter(p) => p,
        }
    }
}

impl vstd::std_specs::convert::FromSpecImpl<Vertex> for Point {
    open spec fn obeys_from_spec() -> bool {
        true
    }

    open spec fn from_spec(v: Vertex) -> Point {
        v.point()
    }
}


/// Why a clip was refused.
#[derive(Clone, Copy, Debug, PartialEq, Eq, Structural)]
pub enum ClipError {
    /// A polygon has no ring, or a ring with fewer than three points.
    DegenerateRing,
    /// A point that the trace needed was missing from the other polygon's list.
    StructuralInconsistency,
}

pub open spec fn points_of(s: Seq<Vertex>) -> Seq<Point> {
    s.map_values(|v: Vertex| v.point())
}

/// The index of the first entering crossing of `s` from `i` on, or -1.
pub open spec fn first_in_inter_from(s: Seq<Vertex>, i: int) -> int
    decreases s.len() - i,
{
    if i < 0 || i >= s.len() {
        -1
    } else if s[i] is InInter {
        i
    } else {
        first_in_inter_from(s, i + 1)
    }
}

/// The index of the first crossing at `p` from `i` on, or -1.
pub open spec fn crossing_at_from(s: Seq<Vertex>, p: Point, i: int) -> int
    decreases s.len() - i,
{
    if i < 0 || i >= s.len() {
        -1
    } else if s[i].is_crossing() && s[i].point() == p {
        i
    } else {
        crossing_at_from(s, p, i + 1)
    }
}

/// The index of the first leaving crossing of `s` from `i` on, or -1.
pub open spec fn out_from(s: Seq<Vertex>, i: int) -> int
    decreases s.len() - i,
{
    if i < 0 || i >= s.len() {
        -1
    } else if s[i] is OutInter {
        i
    } else {
        out_from(s, i + 1)
    }
}

/// Where a walk for `p` starts: the first entry if it is at `p`, else the first
/// crossing at `p`; -1 if there is none.
pub open spec fn locate(s: Seq<Vertex>, p: Point) -> int {
    if s.len() > 0 && s[0].point() == p {
        0
    } else {
        crossing_at_from(s, p, 1)
    }
}

/// One walk along `s` from `p`: the points from the start up to the next leaving
/// crossing (not included), that crossing's point, and `s` without the span walked
/// (the crossing included). `None` when `p` or a leaving crossing after it is missing.
pub open spec fn walk(s: Seq<Vertex>, p: Point) -> Option<(Seq<Point>, Point, Seq<Vertex>)> {
    let b = locate(s, p);
    let k = out_from(s, b);
    if 0 <= b && b <= k && k < s.len() {
        Some((points_of(s.subrange(b, k)), s[k].point(), s.take(b) + s.skip(k + 1)))
    } else {
        None
    }
}

/// Traces one output ring from `at`, walking the subject list `prim` (when `in_prim`)
/// or the clip list `clip`, switching lists after each walk, until a walk ends at
/// `initial`. Gives the ring's points after `acc` and what is left of both lists.
pub open spec fn trace_ring(
    prim: Seq<Vertex>,
    clip: Seq<Vertex>,
    in_prim: bool,
    at: Point,
    initial: Point,
    acc: Seq<Point>,
) -> Option<(Seq<Point>, Seq<Vertex>, Seq<Vertex>)>
    decreases prim.len() + clip.len(),
{
    let cur = if in_prim {
        prim
    } else {
        clip
    };
    match walk(cur, at) {
        None => None,
        Some((pts, last, rest)) => {
            proof {
                lemma_walk_shrinks(cur, at);
            }
            let p2 = if in_prim {
                rest
            } else {
                prim
            };
            let c2 = if in_prim {
                clip
            } else {
                rest
            };
            if last == initial {
                Some((acc + pts, p2, c2))
            } else {
                trace_ring(p2, c2, !in_prim, last, initial, acc + pts)
            }
        },
    }
}

/// A walk removes at least the leaving crossing it ends on.
pub proof fn lemma_walk_shrinks(s: Seq<Vertex>, p: Point)
    ensures
        walk(s, p) matches Some((pts, last, rest)) ==> rest.len() < s.len(),
{
}

/// A trace never lengthens either list, and one that starts on the subject list
/// shortens it.
pub proof fn lemma_trace_ring_shrinks(
    prim: Seq<Vertex>,
    clip: Seq<Vertex>,
    in_prim: bool,
    at: Point,
    initial: Point,
    acc: Seq<Point>,
)
    ensures
        trace_ring(prim, clip, in_prim, at, initial, acc) matches Some((ring, p2, c2)) ==> p2.len()
            <= prim.len() && (in_prim ==> p2.len() < prim.len()),
    decreases prim.len() + clip.len(),
{
    let cur = if in_prim {
        prim
    } else {
        clip
    };
    lemma_walk_shrinks(cur, at);
    if let Some((pts, last, rest)) = walk(cur, at) {
        if last != initial {
            let p2 = if in_prim {
                rest
            } else {
                prim
            };
            let c2 = if in_prim {
                clip
            } else {
                rest
            };
            lemma_trace_ring_shrinks(p2, c2, !in_prim, last, initial, acc + pts);
        }
    }
}

/// `s` with each run of equal neighbours collapsed to one point.
pub open spec fn dedup(s: Seq<Point>) -> Seq<Point>
    decreases s.len(),
{
    if s.len() == 0 {
        s
    } else if s.len() >= 2 && s.last() == s[s.len() - 2] {
        dedup(s.drop_last())
    } else {
        dedup(s.drop_last()).push(s.last())
    }
}

/// `s` with the trailing points equal to its first point dropped, keeping at least one.
pub open spec fn trim_closing(s: Seq<Point>) -> Seq<Point>
    decreases s.len(),
{
    if s.len() >= 2 && s.last() == s[0] {
        trim_closing(s.drop_last())
    } else {
        s
    }
}

/// The ring `s` with repeated neighbours collapsed, its last and first point counting
/// as neighbours.
pub open spec fn collapse_ring(s: Seq<Point>) -> Seq<Point> {
    trim_closing(dedup(s))
}

/// No two neighbours of the ring `r` are equal, its last and first point included.
pub open spec fn no_repeats(r: Seq<Point>) -> bool {
    &&& forall|i: int| 0 <= i < r.len() - 1 ==> #[trigger] r[i] != r[i + 1]
    &&& (r.len() >= 2 ==> r.last() != r[0])
}

proof fn lemma_dedup(s: Seq<Point>)
    ensures
        forall|i: int| 0 <= i < dedup(s).len() - 1 ==> #[trigger] dedup(s)[i] != dedup(s)[i + 1],
        s.len() > 0 ==> dedup(s).len() > 0 && dedup(s).last() == s.last() && dedup(s)[0] == s[0],
    decreases s.len(),
{
    if s.len() > 0 {
        lemma_dedup(s.drop_last());
        let d = dedup(s.drop_last());
        if !(s.len() >= 2 && s.last() == s[s.len() - 2]) {
            let e = d.push(s.last());
            assert forall|i: int| 0 <= i < e.len() - 1 implies #[trigger] e[i] != e[i + 1] by {
                if i < d.len() - 1 {
                    assert(e[i] == d[i] && e[i + 1] == d[i + 1]);
                }
            }
        }
    }
}

proof fn lemma_trim_closing(s: Seq<Point>)
    requires
        forall|i: int| 0 <= i < s.len() - 1 ==> #[trigger] s[i] != s[i + 1],
    ensures
        no_repeats(trim_closing(s)),
        s.len() > 0 ==> trim_closing(s).len() > 0 && trim_closing(s)[0] == s[0],
    decreases s.len(),
{
    if s.len() >= 2 && s.last() == s[0] {
        let t = s.drop_last();
        assert forall|i: int| 0 <= i < t.len() - 1 implies #[trigger] t[i] != t[i + 1] by {
            assert(t[i] == s[i] && t[i + 1] == s[i + 1]);
        }
        lemma_trim_closing(t);
    }
}

/// A collapsed ring has no two equal neighbours, its last and first point included,
/// and keeps the first point of a ring that has one.
pub proof fn lemma_collapse_ring(s: Seq<Point>)
    ensures
        no_repeats(collapse_ring(s)),
        s.len() > 0 ==> collapse_ring(s).len() > 0 && collapse_ring(s)[0] == s[0],
{
    lemma_dedup(s);
    lemma_trim_closing(dedup(s));
}

/// Traces rings after `acc`, each from the first entering crossing left in `prim`,
/// until none is left; `None` when a trace fails.
pub open spec fn trace_all(prim: Seq<Vertex>, clip: Seq<Vertex>, acc: Seq<Seq<Point>>) -> Option<Seq<Seq<Point>>>
    decreases prim.len(),
{
    let i = first_in_inter_from(prim, 0);
    if i < 0 || i >= prim.len() {
        Some(acc)
    } else {
        let initial = prim[i].point();
        match trace_ring(prim.skip(i), clip, true, initial, initial, seq![]) {
            None => None,
            Some((ring, p2, c2)) => {
                proof {
                    lemma_trace_ring_shrinks(prim.skip(i), clip, true, initial, initial, seq![]);
                }
                trace_all(p2, c2, acc.push(collapse_ring(ring)))
            },
        }
    }
}

/// Every ring that a trace gives has no two equal neighbours, its last and first point
/// included, when the rings already in `acc` have none.
pub proof fn lemma_trace_all_no_repeats(prim: Seq<Vertex>, clip: Seq<Vertex>, acc: Seq<Seq<Point>>)
    requires
        forall|i: int| 0 <= i < acc.len() ==> no_repeats(#[trigger] acc[i]),
    ensures
        trace_all(prim, clip, acc) matches Some(rs) ==> forall|i: int| 0 <= i < rs.len() ==> no_repeats(
            #[trigger] rs[i],
        ),
    decreases prim.len(),
{
    let i = first_in_inter_from(prim, 0);
    if 0 <= i < prim.len() {
        let initial = prim[i].point();
        if let Some((ring, p2, c2)) = trace_ring(prim.skip(i), clip, true, initial, initial, seq![]) {
            lemma_trace_ring_shrinks(prim.skip(i), clip, true, initial, initial, seq![]);
            lemma_collapse_ring(ring);
            let acc2 = acc.push(collapse_ring(ring));
            assert forall|t: int| 0 <= t < acc2.len() implies no_repeats(#[trigger] acc2[t]) by {
                if t < acc.len() {
                    assert(acc2[t] == acc[t]);
                }
            }
            lemma_trace_all_no_repeats(p2, c2, acc2);
        }
    }
}

proof fn lemma_first_in_inter_range(s: Seq<Vertex>, i: int)
    ensures
        first_in_inter_from(s, i) == -1 || (i <= first_in_inter_from(s, i) < s.len()
            && s[first_in_inter_from(s, i)] is InInter),
    decreases s.len() - i,
{
    if 0 <= i < s.len() && !(s[i] is InInter) {
        lemma_first_in_inter_range(s, i + 1);
    }
}

pub fn point_of(v: &Vertex) -> (r: Point)
    ensures
        r == v.point(),
{
    Point::from(*v)
}

impl Vertex {
    /// Drops the entries before the first entering crossing and returns its point;
    /// leaves the list as it is when there is none.
    pub fn get_first_in_inter(list: &mut Vec<Vertex>) -> (r: Option<Point>)
        ensures
            ({
                let i = first_in_inter_from(old(list)@, 0);
                if i < 0 {
                    r is None && final(list)@ == old(list)@
                } else {
                    r == Some(old(list)@[i].point()) && final(list)@ == old(list)@.skip(i)
                }
            }),
    {
        let mut i: usize = 0;
        while i < list.len()
            invariant
                0 <= i <= list.len(),
                list@ == old(list)@,
                first_in_inter_from(list@, 0) == first_in_inter_from(list@, i as int),
            decreases list.len() - i,
        {
            if let Vertex::InInter(p) = list[i] {
                let mut rest: Vec<Vertex> = Vec::new();
                let mut k: usize = i;
                while k < list.len()
                    invariant
                        i <= k <= list.len(),
                        i < list.len(),
                        list@ == old(list)@,
                        rest@ == list@.subrange(i as int, k as int),
                    decreases list.len() - k,
                {
                    rest.push(list[k]);
                    assert(list@.subrange(i as int, k + 1) =~= list@.subrange(i as int, k as int).push(list@[k as int]));
                    k += 1;
                }
                assert(rest@ =~= old(list)@.skip(i as int));
                *list = rest;
                return Some(p);
            }
            i += 1;
        }
        None
    }
}

/// Walks `list` from `initial` up to the next leaving crossing and removes the span
/// walked; see `walk`. Leaves the list as it is when the walk fails.
pub fn walk_in_list(list: &mut Vec<Vertex>, initial: Point) -> (r: Option<(Vec<Point>, Point)>)
    ensures
        match walk(old(list)@, initial) {
            None => r is None && final(list)@ == old(list)@,
            Some((pts, last, rest)) => (r matches Some((v, q)) && v@ == pts && q == last) && final(list)@ == rest,
        },
{
    let n = list.len();
    let mut b: usize = 0;
    if !(n > 0 && point_of(&list[0]) == initial) {
        b = 1;
        while b < n && !((matches!(list[b], Vertex::InInter(_)) || matches!(list[b], Vertex::OutInter(_)))
            && point_of(&list[b]) == initial)
            invariant
                n == list.len(),
                1 <= b,
                b <= n || n == 0,
                crossing_at_from(list@, initial, 1) == crossing_at_from(list@, initial, b as int),
            decreases n - b,
        {
            b += 1;
        }
        if b >= n {
            return None;
        }
    }
    assert(locate(list@, initial) == b);
    let mut k: usize = b;
    while k < n && !matches!(list[k], Vertex::OutInter(_))
        invariant
            n == list.len(),
            b <= k <= n,
            b < n,
            out_from(list@, b as int) == out_from(list@, k as int),
        decreases n - k,
    {
        k += 1;
    }
    if k >= n {
        return None;
    }
    let last = point_of(&list[k]);
    let mut points: Vec<Point> = Vec::new();
    let mut j: usize = b;
    while j < k
        invariant
            n == list.len(),
            b <= j <= k < n,
            points@ =~= points_of(list@.subrange(b as int, j as int)),
        decreases k - j,
    {
        points.push(point_of(&list[j]));
        j += 1;
    }
    let mut rest: Vec<Vertex> = Vec::new();
    let mut j: usize = 0;
    while j < n
        invariant
            n == list.len(),
            b <= k < n,
            0 <= j <= n,
            j <= b ==> rest@ =~= list@.take(j as int),
            j > k ==> rest@ =~= list@.take(b as int) + list@.subrange(k + 1, j as int),
            b < j <= k ==> rest@ =~= list@.take(b as int),
        decreases n - j,
    {
        if j < b || j > k {
            rest.push(list[j]);
        }
        j += 1;
    }
    assert(rest@ =~= list@.take(b as int) + list@.skip(k + 1));
    *list = rest;
    Some((points, last))
}

/// The points with each run of equal neighbours collapsed to one.
pub fn dedup_points(s: Vec<Point>) -> (r: Vec<Point>)
    ensures
        r@ == dedup(s@),
{
    let mut res: Vec<Point> = Vec::new();
    let mut i: usize = 0;
    while i < s.len()
        invariant
            0 <= i <= s.len(),
            res@ == dedup(s@.take(i as int)),
        decreases s.len() - i,
    {
        let t = Ghost(s@.take(i + 1));
        assert(t@.drop_last() =~= s@.take(i as int));
        if i == 0 || s[i] != s[i - 1] {
            res.push(s[i]);
        }
        i += 1;
    }
    assert(s@.take(i as int) =~= s@);
    res
}

/// The ring with repeated neighbours collapsed, its last and first point counting as
/// neighbours.
pub fn close_ring(s: Vec<Point>) -> (r: Vec<Point>)
    ensures
        r@ == collapse_ring(s@),
        no_repeats(r@),
{
    let mut r = dedup_points(s);
    while r.len() >= 2 && r[r.len() - 1] == r[0]
        invariant
            trim_closing(r@) == collapse_ring(s@),
        decreases r.len(),
    {
        r.pop();
    }
    proof {
        lemma_collapse_ring(s@);
    }
    r
}

/// Traces one output ring that starts at `initial`, alternating between the subject
/// list `primary` and the `clip` list; see `trace_ring`. The ring comes back with
/// repeated neighbours collapsed, so no point repeats the one before it or, at the end,
/// the first.
pub fn generate_clip_polygon(primary: &mut Vec<Vertex>, clip: &mut Vec<Vertex>, initial: Point) -> (r: Result<Vec<Point>, ClipError>)
    ensures
        match trace_ring(old(primary)@, old(clip)@, true, initial, initial, seq![]) {
            None => r == Err::<Vec<Point>, ClipError>(ClipError::StructuralInconsistency),
            Some((ring, p2, c2)) => (r matches Ok(v) && v@ == collapse_ring(ring)) && final(primary)@ == p2
                && final(clip)@ == c2,
        },
        r matches Ok(v) ==> no_repeats(v@),
{
    let mut result: Vec<Point> = Vec::new();
    let mut in_primary = true;
    let mut begin = initial;
    loop
        invariant
            trace_ring(primary@, clip@, in_primary, begin, initial, result@)
                == trace_ring(old(primary)@, old(clip)@, true, initial, initial, seq![]),
        decreases primary@.len() + clip@.len(),
    {
        let ghost p0 = primary@;
        let ghost c0 = clip@;
        let step = if in_primary {
            walk_in_list(primary, begin)
        } else {
            walk_in_list(clip, begin)
        };
        match step {
            None => {
                return Err(ClipError::StructuralInconsistency);
            },
            Some((mut points, last)) => {
                proof {
                    let cur = if in_primary { p0 } else { c0 };
                    let b = locate(cur, begin);
                    let k = out_from(cur, b);
                    assert((cur.take(b) + cur.skip(k + 1)).len() < cur.len());
                }
                result.append(&mut points);
                in_primary = !in_primary;
                begin = last;
                if last == initial {
                    return Ok(close_ring(result));
                }
            },
        }
    }
}

/// Traces every output ring: each starts at the first entering crossing left in
/// `primary`; see `trace_all`.
pub fn generate_clip_polygons(primary: Vec<Vertex>, clip: Vec<Vertex>) -> (r: Result<Vec<Vec<Point>>, ClipError>)
    ensures
        match trace_all(primary@, clip@, seq![]) {
            None => r == Err::<Vec<Vec<Point>>, ClipError>(ClipError::StructuralInconsistency),
            Some(rs) => r matches Ok(v) && view_rings(v@) == rs,
        },
        r matches Ok(v) ==> forall|i: int| 0 <= i < v@.len() ==> no_repeats(#[trigger] v@[i]@),
{
    proof {
        lemma_trace_all_no_repeats(primary@, clip@, seq![]);
    }
    let ghost goal = trace_all(primary@, clip@, seq![]);
    let mut prim = primary;
    let mut other = clip;
    let mut result: Vec<Vec<Point>> = Vec::new();
    assert(view_rings(result@) =~= Seq::<Seq<Point>>::empty());
    loop
        invariant
            trace_all(prim@, other@, view_rings(result@)) == goal,
            goal == trace_all(primary@, clip@, seq![]),
            goal matches Some(rs) ==> forall|i: int| 0 <= i < rs.len() ==> no_repeats(#[trigger] rs[i]),
        decreases prim@.len(),
    {
        proof {
            lemma_first_in_inter_range(prim@, 0);
        }
        match Vertex::get_first_in_inter(&mut prim) {
            None => {
                assert(forall|i: int| 0 <= i < result@.len() ==> #[trigger] result@[i]@ == view_rings(result@)[i]);
                return Ok(result);
            },
            Some(initial) => {
                proof {
                    lemma_trace_ring_shrinks(prim@, other@, true, initial, initial, seq![]);
                }
                match generate_clip_polygon(&mut prim, &mut other, initial) {
                    Err(e) => {
                        return Err(e);
                    },
                    Ok(ring) => {
                        let ghost before = view_rings(result@);
                        result.push(ring);
                        assert(view_rings(result@) =~= before.push(ring@));
                    },
                }
            },
        }
    }
}

} // verus!
