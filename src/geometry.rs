use vstd::prelude::*;

verus! {

/// A point with integer coordinates.
#[derive(Clone, Copy, Debug, PartialEq, Eq, Structural)]
pub struct Point {
    pub x: i32,
    pub y: i32,
}

/// A directed segment from `begin` to `end`.
#[derive(Clone, Copy, Debug)]
pub struct Line {
    pub begin: Point,
    pub end: Point,
}

/// The point sequences of a list of rings.
pub open spec fn view_rings(v: Seq<Vec<Point>>) -> Seq<Seq<Point>> {
    v.map_values(|r: Vec<Point>| r@)
}

/// Integer division that rounds toward zero.
pub open spec fn trunc_div(n: int, d: int) -> int {
    let q = abs(n) / abs(d);
    if (n >= 0) == (d > 0) {
        q
    } else {
        -q
    }
}

pub open spec fn abs(v: int) -> int {
    if v < 0 {
        -v
    } else {
        v
    }
}

/// `v` lies between `p` and `q`, both included.
pub open spec fn between(v: int, p: int, q: int) -> bool {
    (p <= v && v <= q) || (q <= v && v <= p)
}

/// The meeting point of the two infinite lines through `s` and `t`, by Cramer's rule
/// with truncating division; `None` when the lines are parallel or the same.
pub open spec fn line_meet(s: Line, t: Line) -> Option<(int, int)> {
    let a = s.end.y - s.begin.y;
    let b = s.begin.x - s.end.x;
    let c = t.end.y - t.begin.y;
    let d = t.begin.x - t.end.x;
    let e = a * s.begin.x + b * s.begin.y;
    let f = c * t.begin.x + d * t.begin.y;
    let det = a * d - b * c;
    if det == 0 {
        None
    } else {
        Some((trunc_div(e * d - b * f, det), trunc_div(a * f - e * c, det)))
    }
}

/// The meeting point of the two lines, when it lies in the bounding boxes of both segments.
pub open spec fn segment_intersection(s: Line, t: Line) -> Option<Point> {
    match line_meet(s, t) {
        Some((x, y)) => {
            if between(x, s.begin.x as int, s.end.x as int) && between(x, t.begin.x as int, t.end.x as int)
                && between(y, s.begin.y as int, s.end.y as int) && between(y, t.begin.y as int, t.end.y as int) {
                Some(Point { x: x as i32, y: y as i32 })
            } else {
                None
            }
        },
        None => None,
    }
}

pub(crate) const BOUND: i128 = 0x10_0000_0000_0000_0000_0000_0000;

/// Truncating division on wide integers.
pub(crate) fn div_toward_zero(n: i128, d: i128) -> (r: i128)
    requires
        d != 0,
        -BOUND < n < BOUND,
        -BOUND < d < BOUND,
    ensures
        r == trunc_div(n as int, d as int),
{
    let un: u128 = if n < 0 { (-n) as u128 } else { n as u128 };
    let ud: u128 = if d < 0 { (-d) as u128 } else { d as u128 };
    let q: u128 = un / ud;
    assert(q <= un) by (nonlinear_arith)
        requires q == un / ud, ud >= 1;
    if (n >= 0) == (d > 0) {
        q as i128
    } else {
        -(q as i128)
    }
}

fn in_range(v: i128, p: i32, q: i32) -> (r: bool)
    ensures
        r == between(v as int, p as int, q as int),
{
    (p as i128 <= v && v <= q as i128) || (q as i128 <= v && v <= p as i128)
}

impl Point {
    pub fn new(x: i32, y: i32) -> (r: Point)
        ensures
            r.x == x,
            r.y == y,
    {
        Point { x, y }
    }
}

proof fn lemma_mul_bound(u: int, v: int, bu: int, bv: int)
    requires
        -bu <= u <= bu,
        -bv <= v <= bv,
    ensures
        -(bu * bv) <= u * v <= bu * bv,
{
    assert(-(bu * bv) <= u * v <= bu * bv) by (nonlinear_arith)
        requires -bu <= u <= bu, -bv <= v <= bv;
}

impl Line {
    /// The point where this segment meets `line`, if the two segments touch there.
    pub fn generate_inter_vertex_in_lines(self, line: &Line) -> (r: Option<Point>)
        ensures
            r == segment_intersection(self, *line),
    {
        let (p0, p1) = (self.begin, self.end);
        let (p2, p3) = (line.begin, line.end);
        let a: i128 = p1.y as i128 - p0.y as i128;
        let b: i128 = p0.x as i128 - p1.x as i128;
        let c: i128 = p3.y as i128 - p2.y as i128;
        let d: i128 = p2.x as i128 - p3.x as i128;
        let ghost k32: int = 0x1_0000_0000int;
        let ghost k31: int = 0x8000_0000int;
        proof {
            lemma_mul_bound(a as int, p0.x as int, k32, k31);
            lemma_mul_bound(b as int, p0.y as int, k32, k31);
            lemma_mul_bound(c as int, p2.x as int, k32, k31);
            lemma_mul_bound(d as int, p2.y as int, k32, k31);
        }
        let e: i128 = a * p0.x as i128 + b * p0.y as i128;
        let f: i128 = c * p2.x as i128 + d * p2.y as i128;
        let ghost k64: int = 0x1_0000_0000_0000_0000int;
        proof {
            lemma_mul_bound(e as int, d as int, k64, k32);
            lemma_mul_bound(b as int, f as int, k32, k64);
            lemma_mul_bound(a as int, f as int, k32, k64);
            lemma_mul_bound(e as int, c as int, k64, k32);
            lemma_mul_bound(a as int, d as int, k32, k32);
            lemma_mul_bound(b as int, c as int, k32, k32);
        }
        let l1: i128 = e * d - b * f;
        let l2: i128 = a * f - e * c;
        let l: i128 = a * d - b * c;
        if l == 0 {
            return None;
        }
        let x = div_toward_zero(l1, l);
        let y = div_toward_zero(l2, l);
        if in_range(x, p0.x, p1.x) && in_range(x, p2.x, p3.x) && in_range(y, p0.y, p1.y)
            && in_range(y, p2.y, p3.y) {
            Some(Point::new(x as i32, y as i32))
        } else {
            None
        }
    }
}

} // verus!
