use vstd::prelude::*;
use crate::matcher::{find_translators, lemma_matcher_complete, lemma_matcher_sound, occurrence_translators};
use crate::pattern::{has_repeat, Pattern, PatternError};
use crate::point::{
    add2, all_in_bounds, contained, in_bounds, is_translator, lt2, neg2, points_view,
    sorted_strict, sub2, translate, vectors_view, Point, Pt, Vector,
};
use crate::point_set::PointSet;

verus! {

/// `v` is the vector from some point of `d` to a later one.
pub open spec fn forward_vector(d: Seq<Pt>, v: Pt) -> bool {
    exists|i: int, j: int| 0 <= i < j < d.len() && v == sub2(d[j], d[i])
}

/// Some two points of `pat` lie at most `max_ioi` apart on the exact axis.
pub open spec fn has_close_pair(pat: Seq<Pt>, max_ioi: int) -> bool {
    exists|a: int, b: int| 0 <= a < b < pat.len() && pat[b].0 - pat[a].0 <= max_ioi
}

/// `v` is a vector between two points of `d` whose maximal translatable
/// pattern holds two points at most `max_ioi` apart on the exact axis.
pub open spec fn in_reach(d: Seq<Pt>, max_ioi: int, v: Pt) -> bool {
    forward_vector(d, v) && has_close_pair(mtp(d, v), max_ioi)
}

/// The points among the first `n` of `d` that `v` maps onto a point of `d`.
pub open spec fn mtp_upto(d: Seq<Pt>, v: Pt, n: int) -> Seq<Pt>
    decreases n,
{
    if n <= 0 {
        Seq::empty()
    } else {
        let prev = mtp_upto(d, v, n - 1);
        if d.contains(add2(d[n - 1], v)) {
            prev.push(d[n - 1])
        } else {
            prev
        }
    }
}

/// The maximal translatable pattern of `v`: every point of `d` that `v`
/// maps onto a point of `d`, in ascending order.
pub open spec fn mtp(d: Seq<Pt>, v: Pt) -> Seq<Pt> {
    d.filter(|x: Pt| d.contains(add2(x, v)))
}

proof fn lemma_mtp_upto_prefix(d: Seq<Pt>, v: Pt, n: int)
    requires
        0 <= n <= d.len(),
    ensures
        mtp_upto(d, v, n) == d.subrange(0, n).filter(|x: Pt| d.contains(add2(x, v))),
    decreases n,
{
    reveal(Seq::filter);
    if n > 0 {
        lemma_mtp_upto_prefix(d, v, n - 1);
        let s = d.subrange(0, n);
        assert(s.drop_last() =~= d.subrange(0, n - 1));
        assert(s.last() == d[n - 1]);
    } else {
        assert(d.subrange(0, 0) =~= Seq::<Pt>::empty());
    }
}

/// The prefix form over the whole set is the maximal translatable pattern.
pub proof fn lemma_mtp_whole(d: Seq<Pt>, v: Pt)
    ensures
        mtp_upto(d, v, d.len() as int) == mtp(d, v),
{
    lemma_mtp_upto_prefix(d, v, d.len() as int);
    assert(d.subrange(0, d.len() as int) =~= d);
}

/// The earliest occurrence in `d` of the shape of `pat`.
pub open spec fn canonical(d: Seq<Pt>, pat: Seq<Pt>) -> Seq<Pt> {
    translate(pat, occurrence_translators(pat, d)[0])
}

/// A class as a value: its pattern and its translators.
pub type TecView = (Seq<Pt>, Seq<Pt>);

/// The class that the vector `v` gives rise to.
pub open spec fn tec_of(d: Seq<Pt>, v: Pt) -> TecView {
    let pat = canonical(d, mtp(d, v));
    (pat, occurrence_translators(pat, d))
}

/// `t` is the class of some vector in reach.
pub open spec fn from_reach(d: Seq<Pt>, max_ioi: int, t: TecView) -> bool {
    exists|v: Pt| in_reach(d, max_ioi, v) && t == tec_of(d, v)
}

/// `r` holds one class for each shape that a vector in reach gives rise to,
/// and nothing else.
pub open spec fn discovery_result(d: Seq<Pt>, max_ioi: int, r: Seq<TecView>) -> bool {
    &&& forall|i: int|
        0 <= i < r.len() ==> from_reach(d, max_ioi, #[trigger] r[i])
    &&& forall|v: Pt| in_reach(d, max_ioi, v) ==> exists|i: int| 0 <= i < r.len() && #[trigger] r[i] == tec_of(d, v)
    &&& forall|i: int, j: int| 0 <= i < j < r.len() ==> (#[trigger] r[i]).0 != (#[trigger] r[j]).0
}

pub proof fn lemma_mtp_members(d: Seq<Pt>, v: Pt, n: int)
    requires
        0 <= n <= d.len(),
        sorted_strict(d),
    ensures
        forall|x: Pt|
            #[trigger] mtp_upto(d, v, n).contains(x) <==> exists|k: int|
                0 <= k < n && d[k] == x && d.contains(add2(x, v)),
        forall|a: int|
            0 <= a < mtp_upto(d, v, n).len() ==> exists|k: int|
                0 <= k < n && d[k] == #[trigger] mtp_upto(d, v, n)[a],
        sorted_strict(mtp_upto(d, v, n)),
    decreases n,
{
    if n > 0 {
        lemma_mtp_members(d, v, n - 1);
        let prev = mtp_upto(d, v, n - 1);
        let cur = mtp_upto(d, v, n);
        if d.contains(add2(d[n - 1], v)) {
            assert forall|x: Pt| #[trigger] cur.contains(x) <==> exists|k: int|
                0 <= k < n && d[k] == x && d.contains(add2(x, v)) by {
                if cur.contains(x) {
                    let w = choose|w: int| 0 <= w < cur.len() && cur[w] == x;
                    if w < prev.len() {
                        assert(prev.contains(x));
                    } else {
                        assert(0 <= n - 1 < n && d[n - 1] == x);
                    }
                }
                if exists|k: int| 0 <= k < n && d[k] == x && d.contains(add2(x, v)) {
                    let k = choose|k: int| 0 <= k < n && d[k] == x && d.contains(add2(x, v));
                    if k < n - 1 {
                        assert(prev.contains(x));
                        let w = choose|w: int| 0 <= w < prev.len() && prev[w] == x;
                        assert(cur[w] == x);
                    } else {
                        assert(cur[prev.len() as int] == x);
                    }
                }
            }
            assert forall|a: int| 0 <= a < cur.len() implies exists|k: int|
                0 <= k < n && d[k] == #[trigger] cur[a] by {
                if a < prev.len() {
                    assert(cur[a] == prev[a]);
                    let k = choose|k: int| 0 <= k < n - 1 && d[k] == prev[a];
                    assert(0 <= k < n && d[k] == cur[a]);
                } else {
                    assert(0 <= n - 1 < n && d[n - 1] == cur[a]);
                }
            }
            assert forall|a: int, b: int| 0 <= a < b < cur.len() implies lt2(
                #[trigger] cur[a],
                #[trigger] cur[b],
            ) by {
                assert(cur[a] == prev[a]);
                if b < prev.len() {
                    assert(cur[b] == prev[b]);
                } else {
                    let k = choose|k: int| 0 <= k < n - 1 && d[k] == prev[a];
                    assert(lt2(d[k], d[n - 1]));
                }
            }
        } else {
            assert forall|x: Pt| #[trigger] cur.contains(x) <==> exists|k: int|
                0 <= k < n && d[k] == x && d.contains(add2(x, v)) by {
                if exists|k: int| 0 <= k < n && d[k] == x && d.contains(add2(x, v)) {
                    let k = choose|k: int| 0 <= k < n && d[k] == x && d.contains(add2(x, v));
                    assert(k < n - 1);
                }
            }
        }
    }
}

proof fn lemma_translate_compose(s: Seq<Pt>, a: Pt, b: Pt)
    ensures
        translate(translate(s, a), b) == translate(s, add2(a, b)),
        translate(s, (0, 0)) == s,
{
    assert(translate(translate(s, a), b) =~= translate(s, add2(a, b)));
    assert(translate(s, (0, 0)) =~= s);
}


proof fn lemma_sorted_no_repeat(s: Seq<Pt>)
    requires
        sorted_strict(s),
    ensures
        !has_repeat(s),
{
    if has_repeat(s) {
        let (a, b) = choose|a: int, b: int| 0 <= a < b < s.len() && s[a] == s[b];
        assert(lt2(s[a], s[b]));
    }
}

/// What holds of the maximal translatable pattern of a vector between two
/// points of a valid set, and of its earliest occurrence.
proof fn lemma_mtp_facts(d: Seq<Pt>, v: Pt)
    requires
        sorted_strict(d),
        all_in_bounds(d),
        exists|i: int, j: int| 0 <= i < j < d.len() && v == sub2(d[j], d[i]),
    ensures
        mtp(d, v).len() > 0,
        contained(mtp(d, v), d),
        all_in_bounds(mtp(d, v)),
        !has_repeat(mtp(d, v)),
        is_translator(mtp(d, v), d, v),
        occurrence_translators(mtp(d, v), d).len() > 0,
        contained(canonical(d, mtp(d, v)), d),
        all_in_bounds(canonical(d, mtp(d, v))),
        canonical(d, mtp(d, v)).len() > 0,
        !has_repeat(canonical(d, mtp(d, v))),
        sorted_strict(canonical(d, mtp(d, v))),
{
    let n = d.len() as int;
    let (i, j) = choose|i: int, j: int| 0 <= i < j < d.len() && v == sub2(d[j], d[i]);
    lemma_mtp_whole(d, v);
    lemma_mtp_members(d, v, n);
    let m = mtp(d, v);
    assert(add2(d[i], v) == d[j]);
    assert(d.contains(add2(d[i], v)));
    assert(m.contains(d[i]));
    assert forall|a: int| 0 <= a < m.len() implies d.contains(#[trigger] m[a]) by {
        let k = choose|k: int| 0 <= k < n && d[k] == m[a];
    }
    assert forall|a: int| 0 <= a < m.len() implies in_bounds(#[trigger] m[a]) by {
        let k = choose|k: int| 0 <= k < n && d[k] == m[a];
    }
    lemma_sorted_no_repeat(m);
    assert forall|a: int| 0 <= a < m.len() implies d.contains(#[trigger] translate(m, v)[a]) by {
        assert(m.contains(m[a]));
    }
    lemma_translate_compose(m, v, v);
    assert(is_translator(m, d, (0, 0)));
    lemma_matcher_complete(m, d, (0, 0));
    let occ = occurrence_translators(m, d);
    lemma_matcher_sound(m, d, 0);
    let c = canonical(d, m);
    assert forall|a: int| 0 <= a < c.len() implies in_bounds(#[trigger] c[a]) by {
        assert(d.contains(c[a]));
    }
    if has_repeat(c) {
        let (a, b) = choose|a: int, b: int| 0 <= a < b < c.len() && c[a] == c[b];
        assert(add2(m[a], occ[0]) == add2(m[b], occ[0]));
    }
    assert forall|a: int, b: int| 0 <= a < b < c.len() implies lt2(#[trigger] c[a], #[trigger] c[b]) by {
        assert(lt2(m[a], m[b]));
    }
}

/// Two strictly sorted sequences with the same members are equal.
proof fn lemma_sorted_same_members(s1: Seq<Pt>, s2: Seq<Pt>)
    requires
        sorted_strict(s1),
        sorted_strict(s2),
        forall|x: Pt| s1.contains(x) <==> s2.contains(x),
    ensures
        s1 == s2,
    decreases s1.len(),
{
    if s1.len() == 0 {
        if s2.len() > 0 {
            assert(s2.contains(s2[0]));
        }
        assert(s1 =~= s2);
    } else {
        assert(s1.contains(s1[0]));
        assert(s2.len() > 0);
        assert(s2.contains(s2[0]));
        let k = choose|k: int| 0 <= k < s2.len() && s2[k] == s1[0];
        let k2 = choose|k2: int| 0 <= k2 < s1.len() && s1[k2] == s2[0];
        if k > 0 {
            assert(lt2(s2[0], s2[k]));
            if k2 > 0 {
                assert(lt2(s1[0], s1[k2]));
            }
        }
        assert(s1[0] == s2[0]);
        let t1 = s1.drop_first();
        let t2 = s2.drop_first();
        assert forall|x: Pt| t1.contains(x) <==> t2.contains(x) by {
            if t1.contains(x) {
                let i = choose|i: int| 0 <= i < t1.len() && t1[i] == x;
                assert(lt2(s1[0], s1[i + 1]));
                assert(s2.contains(x));
                let j = choose|j: int| 0 <= j < s2.len() && s2[j] == x;
                assert(j != 0);
                assert(t2[j - 1] == x);
            }
            if t2.contains(x) {
                let i = choose|i: int| 0 <= i < t2.len() && t2[i] == x;
                assert(lt2(s2[0], s2[i + 1]));
                assert(s1.contains(x));
                let j = choose|j: int| 0 <= j < s1.len() && s1[j] == x;
                assert(j != 0);
                assert(t1[j - 1] == x);
            }
        }
        lemma_sorted_same_members(t1, t2);
        assert(s1 =~= seq![s1[0]] + t1);
        assert(s2 =~= seq![s2[0]] + t2);
    }
}

/// The maximal translatable pattern of `v` in `points`.
fn mtp_of(points: &PointSet, v: &Vector) -> (r: Pattern)
    requires
        points.wf(),
        exists|i: int, j: int| 0 <= i < j < points@.len() && v@ == sub2(points@[j], points@[i]),
    ensures
        r.wf(),
        r@ == mtp(points@, v@),
        sorted_strict(r@),
{
    let ghost d = points@;
    proof {
        lemma_mtp_facts(d, v@);
        lemma_mtp_members(d, v@, d.len() as int);
        lemma_mtp_whole(d, v@);
        let (i, j) = choose|i: int, j: int| 0 <= i < j < d.len() && v@ == sub2(d[j], d[i]);
        assert(in_bounds(d[i]) && in_bounds(d[j]));
    }
    let mut out: Vec<Point> = Vec::new();
    let mut k: usize = 0;
    while k < points.len()
        invariant
            0 <= k <= d.len(),
            d == points@,
            points.wf(),
            -0x4000_0000_0000_0000 <= v.x <= 0x4000_0000_0000_0000,
            -0x4000_0000_0000_0000 <= v.y <= 0x4000_0000_0000_0000,
            points_view(out@) == mtp_upto(d, v@, k as int),
        decreases d.len() - k,
    {
        let p = points.get(k);
        assert(in_bounds(d[k as int]));
        let q = p.shifted(v);
        let ghost before = points_view(out@);
        if points.contains(&q) {
            out.push(p);
            assert(points_view(out@) =~= before.push(p@));
        }
        k = k + 1;
    }
    proof {
        lemma_mtp_whole(d, v@);
    }
    assert(points_view(out@) == mtp(d, v@));
    let r = Pattern::new(out);
    assert(r.is_ok()) by {
        match r {
            Ok(_) => {},
            Err(e) => {
                match e {
                    PatternError::Empty => {},
                    PatternError::RepeatedPoint => {},
                }
            },
        }
    }
    r.unwrap()
}


/// A translational equivalence class: a pattern and every vector under which
/// it lies in the point set.
pub struct Tec {
    pub pattern: Pattern,
    pub translators: Vec<Vector>,
}

impl View for Tec {
    type V = TecView;

    open spec fn view(&self) -> TecView {
        (self.pattern@, vectors_view(self.translators@))
    }
}

pub open spec fn tecs_view(s: Seq<Tec>) -> Seq<TecView> {
    Seq::new(s.len(), |i: int| s[i]@)
}

/// Whether two points of the sorted pattern `pat` lie at most `max_ioi`
/// apart on the exact axis (checked on neighbours).
fn close_pair(pat: &Pattern, max_ioi: u64) -> (r: bool)
    requires
        pat.wf(),
        sorted_strict(pat@),
    ensures
        r == has_close_pair(pat@, max_ioi as int),
{
    let ghost s = pat@;
    let mut a: usize = 0;
    while a < pat.len() - 1
        invariant
            s == pat@,
            pat.wf(),
            sorted_strict(s),
            0 <= a < s.len(),
            forall|c: int| 0 <= c < a ==> s[c + 1].0 - (#[trigger] s[c]).0 > max_ioi as int,
        decreases s.len() - a,
    {
        let p = pat.get(a);
        let q = pat.get(a + 1);
        assert(in_bounds(s[a as int]) && in_bounds(s[a + 1]));
        assert(lt2(s[a as int], s[a + 1]));
        if ((q.x - p.x) as u64) <= max_ioi {
            assert(s[a + 1].0 - s[a as int].0 <= max_ioi as int);
            return true;
        }
        a = a + 1;
    }
    assert(!has_close_pair(s, max_ioi as int)) by {
        if has_close_pair(s, max_ioi as int) {
            let (x, y) = choose|x: int, y: int|
                0 <= x < y < s.len() && s[y].0 - s[x].0 <= max_ioi as int;
            if x + 1 < y {
                assert(lt2(s[x + 1], s[y]));
            }
            assert(s[x + 1].0 - s[x].0 > max_ioi as int);
        }
    }
    false
}

/// The class of the vector `v` between two points of `points`.
fn tec_for(points: &PointSet, v: &Vector, m: &Pattern) -> (r: Tec)
    requires
        points.wf(),
        forward_vector(points@, v@),
        m.wf(),
        m@ == mtp(points@, v@),
    ensures
        r.pattern.wf(),
        r@ == tec_of(points@, v@),
{
    let pat = canonical_of(points, v, m);
    let translators = find_translators(&pat, points);
    Tec { pattern: pat, translators }
}

/// The earliest occurrence in `points` of the maximal translatable pattern
/// `m` of `v`.
fn canonical_of(points: &PointSet, v: &Vector, m: &Pattern) -> (r: Pattern)
    requires
        points.wf(),
        forward_vector(points@, v@),
        m.wf(),
        m@ == mtp(points@, v@),
    ensures
        r.wf(),
        r@ == canonical(points@, mtp(points@, v@)),
{
    proof {
        lemma_mtp_facts(points@, v@);
    }
    let ts = find_translators(m, points);
    assert(ts@[0]@ == occurrence_translators(m@, points@)[0]);
    m.translate(&ts[0])
}

/// Receives the classes of a streaming discovery, one at a time.
pub trait TecSink {
    /// Every class received so far, in order.
    spec fn received(&self) -> Seq<TecView>;

    fn accept(&mut self, tec: Tec)
        ensures
            final(self).received() == old(self).received().push(tec@),
    ;
}

/// A sink that keeps every class it receives.
pub struct TecCollector {
    pub tecs: Vec<Tec>,
}

impl TecCollector {
    pub fn new() -> (r: TecCollector)
        ensures
            r.received() == Seq::<TecView>::empty(),
    {
        let r = TecCollector { tecs: Vec::new() };
        assert(tecs_view(r.tecs@) =~= Seq::<TecView>::empty());
        r
    }
}

impl TecSink for TecCollector {
    open spec fn received(&self) -> Seq<TecView> {
        tecs_view(self.tecs@)
    }

    fn accept(&mut self, tec: Tec) {
        let ghost t = tec@;
        self.tecs.push(tec);
        assert(tecs_view(self.tecs@) =~= old(self).received().push(t));
    }
}

/// Whether the two patterns hold the same points in the same order.
fn same_points(cand: &Pattern, pat: &Pattern) -> (r: bool)
    ensures
        r == (cand@ == pat@),
{
    if cand.len() != pat.len() {
        return false;
    }
    let mut k: usize = 0;
    while k < cand.len()
        invariant
            0 <= k <= cand@.len(),
            cand@.len() == pat@.len(),
            forall|b: int| 0 <= b < k ==> cand@[b] == pat@[b],
        decreases cand@.len() - k,
    {
        if cand.get(k) != pat.get(k) {
            return false;
        }
        k = k + 1;
    }
    assert(cand@ =~= pat@);
    true
}

/// Whether the class of some vector of `done` has the pattern `pat`.
fn class_listed(points: &PointSet, done: &Vec<Vector>, pat: &Pattern) -> (r: bool)
    requires
        points.wf(),
        forall|m: int| 0 <= m < done@.len() ==> forward_vector(points@, #[trigger] done@[m]@),
    ensures
        r == exists|m: int|
            0 <= m < done@.len() && canonical(points@, mtp(points@, #[trigger] done@[m]@)) == pat@,
{
    let mut m: usize = 0;
    while m < done.len()
        invariant
            0 <= m <= done@.len(),
            points.wf(),
            forall|a: int| 0 <= a < done@.len() ==> forward_vector(points@, #[trigger] done@[a]@),
            forall|a: int|
                0 <= a < m ==> canonical(points@, mtp(points@, #[trigger] done@[a]@)) != pat@,
        decreases done@.len() - m,
    {
        let w = done[m];
        assert(forward_vector(points@, done@[m as int]@));
        let mw = mtp_of(points, &w);
        let c = canonical_of(points, &w, &mw);
        if same_points(&c, pat) {
            return true;
        }
        m = m + 1;
    }
    false
}

/// Every class of `points` whose shape stems from a vector in reach, handed
/// to `sink` as soon as it is complete, each shape once.
pub fn discover_tecs_streaming<S: TecSink>(points: &PointSet, max_ioi: u64, sink: &mut S)
    requires
        points.wf(),
    ensures
        exists|emitted: Seq<TecView>|
            final(sink).received() == old(sink).received() + emitted && discovery_result(
                points@,
                max_ioi as int,
                emitted,
            ),
{
    let ghost d = points@;
    let ghost mx = max_ioi as int;
    let ghost start = sink.received();
    let ghost mut emitted: Seq<TecView> = Seq::empty();
    let mut done: Vec<Vector> = Vec::new();
    let n = points.len();
    let mut i: usize = 0;
    while i < n
        invariant
            0 <= i <= n,
            n == d.len(),
            d == points@,
            points.wf(),
            mx == max_ioi as int,
            sink.received() == start + emitted,
            done@.len() == emitted.len(),
            forall|m: int|
                0 <= m < done@.len() ==> forward_vector(d, #[trigger] done@[m]@) && emitted[m]
                    == tec_of(d, done@[m]@),
            forall|m: int| 0 <= m < emitted.len() ==> from_reach(d, mx, #[trigger] emitted[m]),
            forall|a: int, b: int|
                0 <= a < b < emitted.len() ==> (#[trigger] emitted[a]).0 != (#[trigger] emitted[b]).0,
            forall|i2: int, j2: int|
                0 <= i2 < j2 < n && i2 < i && in_reach(d, mx, sub2(d[j2], d[i2])) ==> exists|m: int|
                    0 <= m < emitted.len() && #[trigger] emitted[m] == tec_of(d, sub2(d[j2], d[i2])),
        decreases n - i,
    {
        let mut j: usize = i + 1;
        while j < n
            invariant
                0 <= i < n,
                i + 1 <= j <= n,
                n == d.len(),
                d == points@,
                points.wf(),
                mx == max_ioi as int,
                sink.received() == start + emitted,
                done@.len() == emitted.len(),
                forall|m: int|
                    0 <= m < done@.len() ==> forward_vector(d, #[trigger] done@[m]@) && emitted[m]
                        == tec_of(d, done@[m]@),
                forall|m: int| 0 <= m < emitted.len() ==> from_reach(d, mx, #[trigger] emitted[m]),
                forall|a: int, b: int|
                    0 <= a < b < emitted.len() ==> (#[trigger] emitted[a]).0 != (
                    #[trigger] emitted[b]).0,
                forall|i2: int, j2: int|
                    0 <= i2 < j2 < n && (i2 < i || (i2 == i && j2 < j)) && in_reach(
                        d,
                        mx,
                        sub2(d[j2], d[i2]),
                    ) ==> exists|m: int|
                        0 <= m < emitted.len() && #[trigger] emitted[m] == tec_of(
                            d,
                            sub2(d[j2], d[i2]),
                        ),
            decreases n - j,
        {
            let p = points.get(i);
            let q = points.get(j);
            assert(in_bounds(d[i as int]) && in_bounds(d[j as int]));
            assert(lt2(d[i as int], d[j as int]));
            let v = q.minus(&p);
            assert(forward_vector(d, v@));
            let m = mtp_of(points, &v);
            if close_pair(&m, max_ioi) {
                let tec = tec_for(points, &v, &m);
                let ghost tv = tec@;
                assert(in_reach(d, mx, v@));
                if !class_listed(points, &done, &tec.pattern) {
                    let ghost old_done = done@;
                    done.push(v);
                    assert(forall|m: int| 0 <= m < old_done.len() ==> done@[m] == old_done[m]);
                    sink.accept(tec);
                    proof {
                        let old_emitted = emitted;
                        emitted = emitted.push(tv);
                        assert(start + emitted =~= (start + old_emitted).push(tv));
                        assert(emitted[emitted.len() - 1] == tec_of(d, v@));
                        assert forall|m: int| 0 <= m < emitted.len() implies from_reach(
                            d,
                            mx,
                            #[trigger] emitted[m],
                        ) by {
                            if m < old_emitted.len() {
                                assert(emitted[m] == old_emitted[m]);
                            } else {
                                assert(emitted[m] == tec_of(d, v@));
                            }
                        }
                        assert forall|a: int, b: int| 0 <= a < b < emitted.len() implies (
                        #[trigger] emitted[a]).0 != (#[trigger] emitted[b]).0 by {
                            assert(emitted[a] == old_emitted[a]);
                            if b < old_emitted.len() {
                                assert(emitted[b] == old_emitted[b]);
                            } else {
                                assert(emitted[a] == tec_of(d, done@[a]@));
                                assert(canonical(d, mtp(d, old_done[a]@)) != tv.0);
                            }
                        }
                        assert forall|i2: int, j2: int|
                            0 <= i2 < j2 < n && (i2 < i || (i2 == i && j2 < j + 1)) && in_reach(
                                d,
                                mx,
                                sub2(d[j2], d[i2]),
                            ) implies exists|m: int|
                            0 <= m < emitted.len() && #[trigger] emitted[m] == tec_of(
                                d,
                                sub2(d[j2], d[i2]),
                            ) by {
                            if i2 == i && j2 == j {
                                assert(emitted[old_emitted.len() as int] == tec_of(d, sub2(d[j2], d[i2])));
                            } else {
                                let m = choose|m: int|
                                    0 <= m < old_emitted.len() && #[trigger] old_emitted[m] == tec_of(
                                        d,
                                        sub2(d[j2], d[i2]),
                                    );
                                assert(emitted[m] == old_emitted[m]);
                            }
                        }
                    }
                } else {
                    proof {
                        let m = choose|m: int|
                            0 <= m < done@.len() && canonical(d, mtp(d, #[trigger] done@[m]@)) == tv.0;
                        assert(emitted[m] == tec_of(d, done@[m]@));
                        assert(emitted[m] == tv);
                    }
                }
            }
            j = j + 1;
        }
        i = i + 1;
    }
    proof {
        assert forall|v: Pt| in_reach(d, mx, v) implies exists|m: int|
            0 <= m < emitted.len() && #[trigger] emitted[m] == tec_of(d, v) by {
            let (i2, j2) = choose|i2: int, j2: int| 0 <= i2 < j2 < d.len() && v == sub2(d[j2], d[i2]);
            assert(in_reach(d, mx, sub2(d[j2], d[i2])));
        }
        assert(sink.received() == start + emitted);
        assert(discovery_result(d, mx, emitted));
    }
}

/// Every class of `points` whose shape stems from a vector in reach, each
/// shape once.
pub fn discover_tecs(points: &PointSet, max_ioi: u64) -> (r: Vec<Tec>)
    requires
        points.wf(),
    ensures
        discovery_result(points@, max_ioi as int, tecs_view(r@)),
{
    let mut sink = TecCollector::new();
    discover_tecs_streaming(points, max_ioi, &mut sink);
    proof {
        let emitted = choose|emitted: Seq<TecView>|
            sink.received() == Seq::<TecView>::empty() + emitted && discovery_result(
                points@,
                max_ioi as int,
                emitted,
            );
        assert(Seq::<TecView>::empty() + emitted =~= emitted);
    }
    sink.tecs
}


/// A vector in reach lies between two points of the set.
proof fn lemma_reach_pair(d: Seq<Pt>, max_ioi: int, t: TecView) -> (v: Pt)
    requires
        from_reach(d, max_ioi, t),
    ensures
        exists|i: int, j: int| 0 <= i < j < d.len() && v == sub2(d[j], d[i]),
        t == tec_of(d, v),
{
    let v = choose|v: Pt| in_reach(d, max_ioi, v) && t == tec_of(d, v);
    assert(forward_vector(d, v));
    v
}

/// No translator moves the earliest occurrence of a shape backwards.
proof fn lemma_canonical_earliest(d: Seq<Pt>, v: Pt, t: Pt)
    requires
        sorted_strict(d),
        all_in_bounds(d),
        exists|i: int, j: int| 0 <= i < j < d.len() && v == sub2(d[j], d[i]),
        is_translator(canonical(d, mtp(d, v)), d, t),
    ensures
        !lt2(t, (0, 0)),
{
    lemma_mtp_facts(d, v);
    let m = mtp(d, v);
    let occ = occurrence_translators(m, d);
    let t0 = occ[0];
    lemma_translate_compose(m, t0, t);
    lemma_matcher_complete(m, d, add2(t0, t));
    crate::matcher::lemma_translators_sorted(m, d);
    let k = choose|k: int| 0 <= k < occ.len() && occ[k] == add2(t0, t);
    if k > 0 {
        assert(lt2(occ[0], occ[k]));
    }
}

/// Soundness: every translator of every class maps its whole pattern into
/// the point set.
pub proof fn lemma_tec_sound(d: Seq<Pt>, max_ioi: int, r: Seq<TecView>, i: int, k: int)
    requires
        discovery_result(d, max_ioi, r),
        0 <= i < r.len(),
        0 <= k < r[i].1.len(),
    ensures
        contained(translate(r[i].0, r[i].1[k]), d),
{
    assert(from_reach(d, max_ioi, r[i]));
    let v = lemma_reach_pair(d, max_ioi, r[i]);
    lemma_matcher_sound(r[i].0, d, k);
}

/// Maximality of the translators: every vector that maps the whole pattern
/// of a class into the point set is one of its translators.
pub proof fn lemma_tec_translators_maximal(
    d: Seq<Pt>,
    max_ioi: int,
    r: Seq<TecView>,
    i: int,
    t: Pt,
)
    requires
        sorted_strict(d),
        all_in_bounds(d),
        discovery_result(d, max_ioi, r),
        0 <= i < r.len(),
        is_translator(r[i].0, d, t),
    ensures
        r[i].1.contains(t),
{
    assert(from_reach(d, max_ioi, r[i]));
    let v = lemma_reach_pair(d, max_ioi, r[i]);
    lemma_mtp_facts(d, v);
    lemma_matcher_complete(r[i].0, d, t);
}

/// Maximality of the pattern: a point outside the pattern of a class is sent
/// outside the point set by at least one of its translators.
pub proof fn lemma_tec_pattern_maximal(
    d: Seq<Pt>,
    max_ioi: int,
    r: Seq<TecView>,
    i: int,
    p: Pt,
)
    requires
        sorted_strict(d),
        all_in_bounds(d),
        discovery_result(d, max_ioi, r),
        0 <= i < r.len(),
        !r[i].0.contains(p),
    ensures
        exists|k: int| 0 <= k < r[i].1.len() && !d.contains(add2(p, #[trigger] r[i].1[k])),
{
    assert(from_reach(d, max_ioi, r[i]));
    let v = lemma_reach_pair(d, max_ioi, r[i]);
    lemma_mtp_facts(d, v);
    lemma_mtp_members(d, v, d.len() as int);
    lemma_mtp_whole(d, v);
    let m = mtp(d, v);
    let t0 = occurrence_translators(m, d)[0];
    let c = r[i].0;
    let ts = r[i].1;
    assert(c == translate(m, t0));
    // c shifted back by t0 is m itself, and m shifted by v lies in d.
    lemma_translate_compose(m, t0, neg2(t0));
    assert(add2(t0, neg2(t0)) == (0int, 0int));
    assert(translate(c, neg2(t0)) == m);
    lemma_matcher_complete(c, d, neg2(t0));
    lemma_translate_compose(m, t0, sub2(v, t0));
    assert(add2(t0, sub2(v, t0)) == v);
    lemma_matcher_complete(c, d, sub2(v, t0));
    let pb = add2(p, neg2(t0));
    if m.contains(pb) {
        let w = choose|w: int| 0 <= w < m.len() && m[w] == pb;
        assert(c[w] == add2(m[w], t0));
        assert(c[w] == p);
    }
    if !d.contains(pb) {
        let k = choose|k: int| 0 <= k < ts.len() && ts[k] == neg2(t0);
        assert(!d.contains(add2(p, ts[k])));
    } else {
        assert(!d.contains(add2(pb, v)));
        let k = choose|k: int| 0 <= k < ts.len() && ts[k] == sub2(v, t0);
        assert(add2(p, ts[k]) == add2(pb, v));
    }
}

/// Shape uniqueness: no class's pattern is a translate of another's.
pub proof fn lemma_shapes_distinct(
    d: Seq<Pt>,
    max_ioi: int,
    r: Seq<TecView>,
    a: int,
    b: int,
    w: Pt,
)
    requires
        sorted_strict(d),
        all_in_bounds(d),
        discovery_result(d, max_ioi, r),
        0 <= a < r.len(),
        0 <= b < r.len(),
        a != b,
    ensures
        translate(r[a].0, w) != r[b].0,
{
    assert(from_reach(d, max_ioi, r[a]));
    assert(from_reach(d, max_ioi, r[b]));
    let va = lemma_reach_pair(d, max_ioi, r[a]);
    let vb = lemma_reach_pair(d, max_ioi, r[b]);
    lemma_mtp_facts(d, va);
    lemma_mtp_facts(d, vb);
    if translate(r[a].0, w) == r[b].0 {
        assert(is_translator(r[a].0, d, w));
        lemma_canonical_earliest(d, va, w);
        lemma_translate_compose(r[a].0, w, neg2(w));
        assert(add2(w, neg2(w)) == (0int, 0int));
        assert(translate(r[b].0, neg2(w)) == r[a].0);
        assert(is_translator(r[b].0, d, neg2(w)));
        lemma_canonical_earliest(d, vb, neg2(w));
        assert(w == (0int, 0int));
        if a < b {
            assert(r[a].0 != r[b].0);
        } else {
            assert(r[b].0 != r[a].0);
        }
    }
}

/// `f` sends each position of `a` to a position of `b` holding the same
/// class, no two positions to the same one.
pub open spec fn pairs_one_to_one(a: Seq<TecView>, b: Seq<TecView>, f: spec_fn(int) -> int) -> bool {
    &&& forall|i: int| 0 <= i < a.len() ==> 0 <= #[trigger] f(i) < b.len() && b[f(i)] == a[i]
    &&& forall|i: int, j: int| 0 <= i < j < a.len() ==> #[trigger] f(i) != #[trigger] f(j)
}

/// Mode equivalence: any two results of discovery on the same input and
/// bound (as the bulk and the streaming mode give) hold the same classes
/// the same number of times, matched one to one.
pub proof fn lemma_modes_agree(d: Seq<Pt>, max_ioi: int, a: Seq<TecView>, b: Seq<TecView>)
    requires
        discovery_result(d, max_ioi, a),
        discovery_result(d, max_ioi, b),
    ensures
        a.to_multiset() == b.to_multiset(),
        a.len() == b.len(),
        exists|f: spec_fn(int) -> int| #[trigger] pairs_one_to_one(a, b, f),
{
    broadcast use vstd::seq_lib::to_multiset_contains, vstd::seq_lib::to_multiset_len;

    assert forall|x: TecView| a.contains(x) <==> b.contains(x) by {
        if a.contains(x) {
            let i = choose|i: int| 0 <= i < a.len() && a[i] == x;
            assert(from_reach(d, max_ioi, a[i]));
            let v = choose|v: Pt| in_reach(d, max_ioi, v) && a[i] == tec_of(d, v);
        }
        if b.contains(x) {
            let i = choose|i: int| 0 <= i < b.len() && b[i] == x;
            assert(from_reach(d, max_ioi, b[i]));
            let v = choose|v: Pt| in_reach(d, max_ioi, v) && b[i] == tec_of(d, v);
        }
    }
    assert(a.no_duplicates()) by {
        assert forall|i: int, j: int| 0 <= i < a.len() && 0 <= j < a.len() && i != j implies a[i]
            != a[j] by {
            if i < j {
                assert(a[i].0 != a[j].0);
            } else {
                assert(a[j].0 != a[i].0);
            }
        }
    }
    assert(b.no_duplicates()) by {
        assert forall|i: int, j: int| 0 <= i < b.len() && 0 <= j < b.len() && i != j implies b[i]
            != b[j] by {
            if i < j {
                assert(b[i].0 != b[j].0);
            } else {
                assert(b[j].0 != b[i].0);
            }
        }
    }
    a.lemma_multiset_has_no_duplicates();
    b.lemma_multiset_has_no_duplicates();
    assert forall|x: TecView| a.to_multiset().count(x) == b.to_multiset().count(x) by {
        if a.contains(x) {
            assert(a.to_multiset().contains(x));
            assert(b.to_multiset().contains(x));
        } else {
            assert(!a.to_multiset().contains(x));
            assert(!b.to_multiset().contains(x));
        }
    }
    assert(a.to_multiset() =~= b.to_multiset());
    assert(a.len() == b.len()) by {
        assert(a.to_multiset().len() == a.len());
        assert(b.to_multiset().len() == b.len());
    }
    let f = |i: int| choose|j: int| 0 <= j < b.len() && b[j] == a[i];
    assert forall|i: int| 0 <= i < a.len() implies 0 <= #[trigger] f(i) < b.len() && b[f(i)]
        == a[i] by {
        assert(a.contains(a[i]));
        assert(b.contains(a[i]));
    }
    assert forall|i: int, j: int| 0 <= i < j < a.len() implies #[trigger] f(i) != #[trigger] f(j) by {
        assert(0 <= f(i) < b.len() && b[f(i)] == a[i]);
        assert(0 <= f(j) < b.len() && b[f(j)] == a[j]);
    }
    assert(pairs_one_to_one(a, b, f));
}

/// Where `ra` shifted by `w` has the points of `rb`, and both lie in `d`,
/// `w` maps `ra` into `d` and its opposite maps `rb` into `d`.
proof fn lemma_same_set_translators(ra: Seq<Pt>, rb: Seq<Pt>, d: Seq<Pt>, w: Pt)
    requires
        contained(ra, d),
        contained(rb, d),
        translate(ra, w).to_set() == rb.to_set(),
    ensures
        is_translator(ra, d, w),
        is_translator(rb, d, neg2(w)),
        w == (0int, 0int) ==> (forall|x: Pt| ra.contains(x) <==> rb.contains(x)),
{
    let ta = translate(ra, w);
    assert forall|x: Pt| ta.contains(x) <==> rb.contains(x) by {
        assert(ta.to_set().contains(x) == ta.contains(x));
        assert(rb.to_set().contains(x) == rb.contains(x));
    }
    assert forall|k: int| 0 <= k < ta.len() implies d.contains(#[trigger] ta[k]) by {
        assert(ta.contains(ta[k]));
    }
    let tb = translate(rb, neg2(w));
    assert forall|k: int| 0 <= k < tb.len() implies d.contains(#[trigger] tb[k]) by {
        assert(rb.contains(rb[k]));
        let k2 = choose|k2: int| 0 <= k2 < ta.len() && ta[k2] == rb[k];
        assert(tb[k] == ra[k2]);
    }
    if w == (0int, 0int) {
        lemma_translate_compose(ra, w, w);
    }
}

/// Shape uniqueness, with patterns compared as sets of points: no class's
/// pattern shifted by any vector has the same points as another's.
#[verifier::rlimit(60)]
#[verifier::spinoff_prover]
pub proof fn lemma_shapes_distinct_as_sets(
    d: Seq<Pt>,
    max_ioi: int,
    r: Seq<TecView>,
    a: int,
    b: int,
    w: Pt,
)
    requires
        sorted_strict(d),
        all_in_bounds(d),
        discovery_result(d, max_ioi, r),
        0 <= a < r.len(),
        0 <= b < r.len(),
        a != b,
    ensures
        translate(r[a].0, w).to_set() != r[b].0.to_set(),
{
    assert(from_reach(d, max_ioi, r[a]));
    assert(from_reach(d, max_ioi, r[b]));
    let va = lemma_reach_pair(d, max_ioi, r[a]);
    let vb = lemma_reach_pair(d, max_ioi, r[b]);
    lemma_mtp_facts(d, va);
    lemma_mtp_facts(d, vb);
    let ra = r[a].0;
    let rb = r[b].0;
    let ta = translate(ra, w);
    if ta.to_set() == rb.to_set() {
        lemma_same_set_translators(ra, rb, d, w);
        lemma_canonical_earliest(d, va, w);
        lemma_canonical_earliest(d, vb, neg2(w));
        assert(w == (0int, 0int));
        lemma_translate_compose(ra, w, w);
        lemma_sorted_same_members(ra, rb);
        if a < b {
            assert(r[a].0 != r[b].0);
        } else {
            assert(r[b].0 != r[a].0);
        }
    }
}

/// Bound monotonicity: every class found under a bound is found again under
/// any larger bound.
pub proof fn lemma_bound_monotone(
    d: Seq<Pt>,
    small: int,
    large: int,
    r_small: Seq<TecView>,
    r_large: Seq<TecView>,
    i: int,
)
    requires
        small <= large,
        discovery_result(d, small, r_small),
        discovery_result(d, large, r_large),
        0 <= i < r_small.len(),
    ensures
        r_large.contains(r_small[i]),
{
    assert(from_reach(d, small, r_small[i]));
    let v = choose|v: Pt| in_reach(d, small, v) && r_small[i] == tec_of(d, v);
    let (a, b) = choose|a: int, b: int|
        0 <= a < b < mtp(d, v).len() && mtp(d, v)[b].0 - mtp(d, v)[a].0 <= small;
    assert(has_close_pair(mtp(d, v), large));
    assert(in_reach(d, large, v));
    let j = choose|j: int| 0 <= j < r_large.len() && r_large[j] == tec_of(d, v);
}


/// On the points (0, 60), (1, 62), (4, 60), (5, 62) with a bound of 2, the
/// pair (0, 60), (1, 62) is the pattern of a class whose translators are
/// (0, 0) and (4, 0).
pub proof fn lemma_pair_example(r: Seq<TecView>)
    requires
        discovery_result(seq![(0int, 60int), (1int, 62int), (4int, 60int), (5int, 62int)], 2, r),
    ensures
        exists|i: int|
            0 <= i < r.len() && r[i] == (
            seq![(0int, 60int), (1int, 62int)],
            seq![(0int, 0int), (4int, 0int)],
            ),
{
    let d = seq![(0int, 60int), (1int, 62int), (4int, 60int), (5int, 62int)];
    let v = (4int, 0int);
    let m = seq![(0int, 60int), (1int, 62int)];
    assert(d[2] == add2(d[0], v));
    assert(d[3] == add2(d[1], v));
    assert(d.contains(add2(d[0], v)));
    assert(d.contains(add2(d[1], v)));
    assert(!d.contains(add2(d[2], v)));
    assert(!d.contains(add2(d[3], v)));
    assert(mtp_upto(d, v, 0) == Seq::<Pt>::empty());
    assert(mtp_upto(d, v, 1) == seq![(0int, 60int)]);
    assert(mtp_upto(d, v, 2) =~= m);
    assert(mtp_upto(d, v, 3) == m);
    lemma_mtp_whole(d, v);
    assert(mtp(d, v) == m);
    assert(forward_vector(d, v)) by {
        assert(v == sub2(d[2], d[0]));
    }
    assert(has_close_pair(m, 2)) by {
        assert(m[1].0 - m[0].0 <= 2);
    }
    assert(in_reach(d, 2, v));
    // The anchors of m on each point of d, in turn.
    assert(translate(m, sub2(d[0], m[0])) =~= seq![d[0], d[1]]);
    assert(is_translator(m, d, sub2(d[0], m[0]))) by {
        assert(d[0] == d[0]);
        assert(d[1] == d[1]);
    }
    assert(translate(m, sub2(d[1], m[0]))[1] == (2int, 64int));
    assert(!d.contains((2int, 64int)));
    assert(!is_translator(m, d, sub2(d[1], m[0])));
    assert(translate(m, sub2(d[2], m[0])) =~= seq![d[2], d[3]]);
    assert(is_translator(m, d, sub2(d[2], m[0]))) by {
        assert(d[2] == d[2]);
        assert(d[3] == d[3]);
    }
    assert(translate(m, sub2(d[3], m[0]))[1] == (6int, 64int));
    assert(!d.contains((6int, 64int)));
    assert(!is_translator(m, d, sub2(d[3], m[0])));
    let ts = seq![(0int, 0int), (4int, 0int)];
    assert(sub2(d[0], m[0]) == (0int, 0int));
    assert(sub2(d[2], m[0]) == (4int, 0int));
    assert(crate::matcher::translators_upto(m, d, 0) == Seq::<Pt>::empty());
    assert(crate::matcher::translators_upto(m, d, 1) =~= seq![(0int, 0int)]);
    assert(crate::matcher::translators_upto(m, d, 2) =~= seq![(0int, 0int)]);
    assert(crate::matcher::translators_upto(m, d, 3) =~= ts);
    assert(crate::matcher::translators_upto(m, d, 4) =~= ts);
    crate::matcher::lemma_translators_whole(m, d);
    assert(occurrence_translators(m, d) == ts);
    lemma_translate_compose(m, (0int, 0int), (0int, 0int));
    assert(canonical(d, m) == m);
    assert(tec_of(d, v) == (m, ts));
}

} // verus!
