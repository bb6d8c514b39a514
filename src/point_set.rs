use vstd::prelude::*;
use crate::point::{all_in_bounds, lt2, points_view, sorted_strict, Point, Pt};

verus! {

/// A duplicate-free set of points, held in ascending point order.
pub struct PointSet {
    points: Vec<Point>,
}

impl View for PointSet {
    type V = Seq<Pt>;

    closed spec fn view(&self) -> Seq<Pt> {
        points_view(self.points@)
    }
}

impl PointSet {
    /// Strictly sorted and every coordinate within bounds.
    pub open spec fn wf(&self) -> bool {
        sorted_strict(self@) && all_in_bounds(self@)
    }

    /// Builds the set of the given points: sorted, each point once.
    pub fn new(input: Vec<Point>) -> (r: PointSet)
        requires
            all_in_bounds(points_view(input@)),
        ensures
            r.wf(),
            forall|p: Pt| #[trigger] r@.contains(p) <==> points_view(input@).contains(p),
    {
        let mut out: Vec<Point> = Vec::new();
        let mut i: usize = 0;
        while i < input.len()
            invariant
                0 <= i <= input.len(),
                all_in_bounds(points_view(input@)),
                sorted_strict(points_view(out@)),
                all_in_bounds(points_view(out@)),
                forall|p: Pt|
                    #[trigger] points_view(out@).contains(p) <==> points_view(
                        input@.subrange(0, i as int),
                    ).contains(p),
            decreases input.len() - i,
        {
            let p = input[i];
            assert(points_view(input@)[i as int] == p@);
            let mut k: usize = 0;
            while k < out.len() && out[k].less_than(&p)
                invariant
                    0 <= k <= out.len(),
                    forall|m: int| 0 <= m < k ==> lt2(#[trigger] out@[m]@, p@),
                decreases out.len() - k,
            {
                k = k + 1;
            }
            let ghost old_out = points_view(out@);
            let ghost pre = points_view(input@.subrange(0, i as int));
            let ghost post = points_view(input@.subrange(0, i as int + 1));
            assert(post =~= pre.push(p@));
            assert(forall|q: Pt| #[trigger] old_out.contains(q) <==> pre.contains(q));
            if k < out.len() && out[k] == p {
                assert(old_out[k as int] == p@);
                assert forall|q: Pt| #[trigger] old_out.contains(q) <==> post.contains(q) by {
                    if post.contains(q) {
                        let m = choose|m: int| 0 <= m < post.len() && post[m] == q;
                        if m < pre.len() {
                            assert(pre.contains(q));
                        }
                    }
                    if old_out.contains(q) {
                        assert(pre.contains(q));
                        let w = choose|w: int| 0 <= w < pre.len() && pre[w] == q;
                        assert(post[w] == q);
                    }
                }
            } else {
                out.insert(k, p);
                let ghost new_out = points_view(out@);
                assert(new_out =~= old_out.insert(k as int, p@));
                proof { old_out.insert_ensures(k as int, p@); }
                assert forall|a: int, b: int| 0 <= a < b < new_out.len() implies lt2(
                    #[trigger] new_out[a],
                    #[trigger] new_out[b],
                ) by {
                    if a < k && b > k {
                        assert(new_out[b] == old_out[b - 1]);
                    } else if a > k {
                        assert(new_out[b] == old_out[b - 1]);
                        assert(new_out[a] == old_out[a - 1]);
                    } else if a == k && b > k {
                        assert(new_out[b] == old_out[b - 1]);
                        assert(out@[b]@ == old_out[b - 1]);
                        if b - 1 > k {
                            assert(lt2(old_out[k as int], old_out[b - 1]));
                        }
                    }
                }
                assert forall|q: Pt| #[trigger] new_out.contains(q) <==> post.contains(q) by {
                    if new_out.contains(q) {
                        let m = choose|m: int| 0 <= m < new_out.len() && new_out[m] == q;
                        if m == k {
                            assert(pre.push(p@)[pre.len() as int] == q);
                        } else {
                            if m < k {
                                assert(old_out[m] == q);
                            } else {
                                assert(old_out[m - 1] == q);
                            }
                            assert(old_out.contains(q));
                            assert(pre.contains(q));
                            let w = choose|w: int| 0 <= w < pre.len() && pre[w] == q;
                            assert(pre.push(p@)[w] == q);
                        }
                    }
                    if post.contains(q) {
                        let m = choose|m: int| 0 <= m < post.len() && post[m] == q;
                        if m < pre.len() {
                            assert(pre.contains(q));
                            assert(old_out.contains(q));
                            let m2 = choose|m2: int| 0 <= m2 < old_out.len() && old_out[m2] == q;
                            if m2 < k {
                                assert(old_out.insert(k as int, p@)[m2] == old_out[m2]);
                                assert(new_out[m2] == q);
                            } else {
                                assert(new_out[m2 + 1] == q);
                            }
                        } else {
                            assert(new_out[k as int] == q);
                        }
                    }
                }
            }
            i = i + 1;
        }
        assert(input@.subrange(0, input.len() as int) =~= input@);
        PointSet { points: out }
    }

    pub fn len(&self) -> (r: usize)
        ensures
            r == self@.len(),
    {
        self.points.len()
    }

    /// The point at position `i` in ascending order.
    pub fn get(&self, i: usize) -> (r: Point)
        requires
            i < self@.len(),
        ensures
            r@ == self@[i as int],
    {
        self.points[i]
    }

    /// Whether `p` is a member of the set (binary search).
    pub fn contains(&self, p: &Point) -> (r: bool)
        requires
            self.wf(),
        ensures
            r == self@.contains(p@),
    {
        let ghost s = self@;
        let mut lo: usize = 0;
        let mut hi: usize = self.points.len();
        while lo < hi
            invariant
                0 <= lo <= hi <= s.len(),
                s == self@,
                s.len() == self.points@.len(),
                sorted_strict(s),
                forall|m: int| 0 <= m < lo ==> lt2(#[trigger] s[m], p@),
                forall|m: int| hi <= m < s.len() ==> lt2(p@, #[trigger] s[m]),
            decreases hi - lo,
        {
            let mid = lo + (hi - lo) / 2;
            let q = self.points[mid];
            assert(s[mid as int] == q@);
            if q == *p {
                return true;
            } else if q.less_than(p) {
                lo = mid + 1;
            } else {
                hi = mid;
            }
        }
        assert forall|m: int| 0 <= m < s.len() implies #[trigger] s[m] != p@ by {
            if m < lo {
                assert(lt2(s[m], p@));
            } else {
                assert(lt2(p@, s[m]));
            }
        }
        false
    }
}

} // verus!
