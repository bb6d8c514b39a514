use vstd::prelude::*;
use crate::point::{add2, all_in_bounds, in_bounds, points_view, translate, Point, Pt, Vector, COORD_BOUND};

verus! {

/// An ordered, non-empty sequence of distinct points.
pub struct Pattern {
    points: Vec<Point>,
}

/// Why a sequence of points is not a pattern.
#[derive(Clone, Copy, Debug, PartialEq, Eq, Structural)]
pub enum PatternError {
    /// No points at all.
    Empty,
    /// Some point occurs twice.
    RepeatedPoint,
}

impl View for Pattern {
    type V = Seq<Pt>;

    closed spec fn view(&self) -> Seq<Pt> {
        points_view(self.points@)
    }
}

/// Some point of `s` occurs at two positions.
pub open spec fn has_repeat(s: Seq<Pt>) -> bool {
    exists|i: int, j: int| 0 <= i < j < s.len() && s[i] == s[j]
}

impl Pattern {
    pub open spec fn wf(&self) -> bool {
        self@.len() > 0 && !has_repeat(self@) && all_in_bounds(self@)
    }

    /// Builds a pattern from its points, in the given order.
    pub fn new(input: Vec<Point>) -> (r: Result<Pattern, PatternError>)
        requires
            all_in_bounds(points_view(input@)),
        ensures
            input@.len() == 0 <==> r == Err::<Pattern, PatternError>(PatternError::Empty),
            (input@.len() > 0 && has_repeat(points_view(input@))) <==> r == Err::<
                Pattern,
                PatternError,
            >(PatternError::RepeatedPoint),
            r.is_ok() ==> r.unwrap().wf() && r.unwrap()@ == points_view(input@),
    {
        if input.len() == 0 {
            return Err(PatternError::Empty);
        }
        let ghost s = points_view(input@);
        let mut i: usize = 0;
        while i < input.len()
            invariant
                0 <= i <= input.len(),
                s == points_view(input@),
                forall|a: int, b: int| 0 <= a < b < s.len() && a < i ==> s[a] != s[b],
            decreases input.len() - i,
        {
            let mut j: usize = i + 1;
            while j < input.len()
                invariant
                    i < input.len(),
                    i + 1 <= j <= input.len(),
                    s == points_view(input@),
                    forall|a: int, b: int| 0 <= a < b < s.len() && a < i ==> s[a] != s[b],
                    forall|b: int| i < b < j ==> s[i as int] != s[b],
                decreases input.len() - j,
            {
                if input[i] == input[j] {
                    assert(s[i as int] == s[j as int]);
                    return Err(PatternError::RepeatedPoint);
                }
                j = j + 1;
            }
            i = i + 1;
        }
        Ok(Pattern { points: input })
    }

    pub fn len(&self) -> (r: usize)
        ensures
            r == self@.len(),
    {
        self.points.len()
    }

    /// The point at position `i`.
    pub fn get(&self, i: usize) -> (r: Point)
        requires
            i < self@.len(),
        ensures
            r@ == self@[i as int],
    {
        self.points[i]
    }

    /// The points, in order.
    pub fn to_vec(&self) -> (r: Vec<Point>)
        ensures
            points_view(r@) == self@,
    {
        self.points.clone()
    }

    /// The pattern with every point shifted by `v`.
    pub fn translate(&self, v: &Vector) -> (r: Pattern)
        requires
            self.wf(),
            all_in_bounds(translate(self@, v@)),
        ensures
            r.wf(),
            r@ == translate(self@, v@),
    {
        let ghost s = self@;
        let ghost ts = translate(s, v@);
        assert(in_bounds(s[0]) && in_bounds(ts[0]));
        let mut out: Vec<Point> = Vec::new();
        let mut i: usize = 0;
        while i < self.points.len()
            invariant
                0 <= i <= s.len(),
                s == self@,
                s.len() == self.points@.len(),
                all_in_bounds(s),
                ts == translate(s, v@),
                all_in_bounds(ts),
                -2 * COORD_BOUND <= v.x <= 2 * COORD_BOUND,
                -2 * COORD_BOUND <= v.y <= 2 * COORD_BOUND,
                points_view(out@) == ts.subrange(0, i as int),
            decreases s.len() - i,
        {
            assert(s[i as int] == self.points@[i as int]@);
            assert(ts[i as int] == add2(s[i as int], v@));
            assert(in_bounds(s[i as int]));
            let p = self.points[i].shifted(v);
            let ghost before = points_view(out@);
            out.push(p);
            assert(points_view(out@) =~= before.push(p@));
            assert(points_view(out@) =~= ts.subrange(0, i as int + 1));
            i = i + 1;
        }
        assert(ts.subrange(0, s.len() as int) =~= ts);
        assert(!has_repeat(ts)) by {
            if has_repeat(ts) {
                let (a, b) = choose|a: int, b: int| 0 <= a < b < ts.len() && ts[a] == ts[b];
                assert(add2(s[a], v@) == add2(s[b], v@));
                assert(s[a] == s[b]);
            }
        }
        Pattern { points: out }
    }
}

} // verus!
