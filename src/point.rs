use vstd::prelude::*;

verus! {

/// Coordinates of valid points lie in `[-COORD_BOUND, COORD_BOUND]`, so that
/// every difference of two points, and every sum of a point and such a
/// difference, fits in an `i64`.
pub const COORD_BOUND: i64 = 0x2000_0000_0000_0000;

/// The mathematical model of a point or a vector: a pair of integers.
pub type Pt = (int, int);

/// The total order on points: exact axis first, then the real axis.
pub open spec fn lt2(a: Pt, b: Pt) -> bool {
    a.0 < b.0 || (a.0 == b.0 && a.1 < b.1)
}

pub open spec fn add2(a: Pt, v: Pt) -> Pt {
    (a.0 + v.0, a.1 + v.1)
}

pub open spec fn sub2(a: Pt, b: Pt) -> Pt {
    (a.0 - b.0, a.1 - b.1)
}

pub open spec fn neg2(a: Pt) -> Pt {
    (-a.0, -a.1)
}

pub open spec fn in_bounds(a: Pt) -> bool {
    -COORD_BOUND <= a.0 <= COORD_BOUND && -COORD_BOUND <= a.1 <= COORD_BOUND
}

/// Strictly increasing under the point order (hence free of duplicates).
pub open spec fn sorted_strict(s: Seq<Pt>) -> bool {
    forall|i: int, j: int| 0 <= i < j < s.len() ==> lt2(#[trigger] s[i], #[trigger] s[j])
}

pub open spec fn all_in_bounds(s: Seq<Pt>) -> bool {
    forall|i: int| 0 <= i < s.len() ==> in_bounds(#[trigger] s[i])
}

/// Every point of `s` shifted by `v`.
pub open spec fn translate(s: Seq<Pt>, v: Pt) -> Seq<Pt> {
    Seq::new(s.len(), |i: int| add2(s[i], v))
}

/// Every point of `pat` is a member of `d`.
pub open spec fn contained(pat: Seq<Pt>, d: Seq<Pt>) -> bool {
    forall|i: int| 0 <= i < pat.len() ==> d.contains(#[trigger] pat[i])
}

/// `v` maps the whole of `pat` into `d`.
pub open spec fn is_translator(pat: Seq<Pt>, d: Seq<Pt>, v: Pt) -> bool {
    contained(translate(pat, v), d)
}

/// A point: an exact-axis coordinate `x` and a real-axis coordinate `y`.
#[derive(Clone, Copy, Debug, PartialEq, Eq, Structural, Hash)]
pub struct Point {
    pub x: i64,
    pub y: i64,
}

/// The coordinate-wise difference of two points.
#[derive(Clone, Copy, Debug, PartialEq, Eq, Structural, Hash)]
pub struct Vector {
    pub x: i64,
    pub y: i64,
}

impl View for Point {
    type V = Pt;

    open spec fn view(&self) -> Pt {
        (self.x as int, self.y as int)
    }
}

impl View for Vector {
    type V = Pt;

    open spec fn view(&self) -> Pt {
        (self.x as int, self.y as int)
    }
}

pub open spec fn points_view(s: Seq<Point>) -> Seq<Pt> {
    Seq::new(s.len(), |i: int| s[i]@)
}

pub open spec fn vectors_view(s: Seq<Vector>) -> Seq<Pt> {
    Seq::new(s.len(), |i: int| s[i]@)
}

impl Point {
    pub fn new(x: i64, y: i64) -> (r: Point)
        ensures
            r.x == x,
            r.y == y,
    {
        Point { x, y }
    }

    /// The point order: exact axis first, then the real axis.
    pub fn less_than(&self, other: &Point) -> (r: bool)
        ensures
            r == lt2(self@, other@),
    {
        self.x < other.x || (self.x == other.x && self.y < other.y)
    }

    pub fn in_range(&self) -> (r: bool)
        ensures
            r == in_bounds(self@),
    {
        -COORD_BOUND <= self.x && self.x <= COORD_BOUND && -COORD_BOUND <= self.y && self.y
            <= COORD_BOUND
    }

    /// The vector from `origin` to `self`.
    pub fn minus(&self, origin: &Point) -> (r: Vector)
        requires
            in_bounds(self@),
            in_bounds(origin@),
        ensures
            r@ == sub2(self@, origin@),
    {
        Vector { x: self.x - origin.x, y: self.y - origin.y }
    }

    /// `self` shifted by `v`.
    pub fn shifted(&self, v: &Vector) -> (r: Point)
        requires
            in_bounds(self@),
            -2 * COORD_BOUND <= v.x <= 2 * COORD_BOUND,
            -2 * COORD_BOUND <= v.y <= 2 * COORD_BOUND,
        ensures
            r@ == add2(self@, v@),
    {
        Point { x: self.x + v.x, y: self.y + v.y }
    }
}

impl Vector {
    pub fn new(x: i64, y: i64) -> (r: Vector)
        ensures
            r.x == x,
            r.y == y,
    {
        Vector { x, y }
    }
}

} // verus!
