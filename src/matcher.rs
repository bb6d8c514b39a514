use vstd::prelude::*;
use crate::pattern::Pattern;
use crate::point::{
    add2, contained, in_bounds, is_translator, lt2, sorted_strict, sub2, translate, vectors_view,
    Pt, Vector,
};
use crate::point_set::PointSet;

verus! {

/// The translators of `q` into `d` found by anchoring the first point of `q`
/// on each of the first `n` points of `d`, in that order.
pub open spec fn translators_upto(q: Seq<Pt>, d: Seq<Pt>, n: int) -> Seq<Pt>
    decreases n,
{
    if n <= 0 {
        Seq::empty()
    } else {
        let prev = translators_upto(q, d, n - 1);
        let t = sub2(d[n - 1], q[0]);
        if is_translator(q, d, t) {
            prev.push(t)
        } else {
            prev
        }
    }
}

/// Every vector that maps the whole of `q` into `d`, in ascending order of
/// the point of `d` that the first point of `q` lands on.
pub open spec fn occurrence_translators(q: Seq<Pt>, d: Seq<Pt>) -> Seq<Pt> {
    d.filter_map(
        |s: Pt|
            if is_translator(q, d, sub2(s, q[0])) {
                Some(sub2(s, q[0]))
            } else {
                None
            },
    )
}

proof fn lemma_translators_upto_prefix(q: Seq<Pt>, d: Seq<Pt>, n: int)
    requires
        0 <= n <= d.len(),
    ensures
        translators_upto(q, d, n) == d.subrange(0, n).filter_map(
            |s: Pt|
                if is_translator(q, d, sub2(s, q[0])) {
                    Some(sub2(s, q[0]))
                } else {
                    None
                },
        ),
    decreases n,
{
    if n > 0 {
        lemma_translators_upto_prefix(q, d, n - 1);
        let s = d.subrange(0, n);
        assert(s.drop_last() =~= d.subrange(0, n - 1));
        assert(s.last() == d[n - 1]);
        let prev = translators_upto(q, d, n - 1);
        let t = sub2(d[n - 1], q[0]);
        assert(prev.push(t) =~= prev + seq![t]);
    } else {
        assert(d.subrange(0, 0) =~= Seq::<Pt>::empty());
    }
}

/// The prefix form over the whole set is the full list of translators.
pub proof fn lemma_translators_whole(q: Seq<Pt>, d: Seq<Pt>)
    ensures
        translators_upto(q, d, d.len() as int) == occurrence_translators(q, d),
{
    lemma_translators_upto_prefix(q, d, d.len() as int);
    assert(d.subrange(0, d.len() as int) =~= d);
}

/// Each entry of the prefix result is an anchored translator; each anchored
/// translator of the prefix is an entry.
pub proof fn lemma_translators_upto_members(q: Seq<Pt>, d: Seq<Pt>, n: int)
    requires
        0 <= n <= d.len(),
    ensures
        forall|i: int|
            0 <= i < translators_upto(q, d, n).len() ==> is_translator(
                q,
                d,
                #[trigger] translators_upto(q, d, n)[i],
            ) && exists|k: int|
                0 <= k < n && translators_upto(q, d, n)[i] == sub2(d[k], q[0]),
        forall|k: int|
            0 <= k < n && is_translator(q, d, #[trigger] sub2(d[k], q[0])) ==> translators_upto(
                q,
                d,
                n,
            ).contains(sub2(d[k], q[0])),
    decreases n,
{
    if n > 0 {
        lemma_translators_upto_members(q, d, n - 1);
        let prev = translators_upto(q, d, n - 1);
        let t = sub2(d[n - 1], q[0]);
        let cur = translators_upto(q, d, n);
        assert forall|k: int|
            0 <= k < n && is_translator(q, d, #[trigger] sub2(d[k], q[0])) implies cur.contains(
            sub2(d[k], q[0]),
        ) by {
            if k < n - 1 {
                let w = choose|w: int| 0 <= w < prev.len() && prev[w] == sub2(d[k], q[0]);
                assert(cur[w] == prev[w]);
            } else {
                assert(cur[prev.len() as int] == t);
            }
        }
        assert forall|i: int| 0 <= i < cur.len() implies is_translator(q, d, #[trigger] cur[i])
            && exists|k: int| 0 <= k < n && cur[i] == sub2(d[k], q[0]) by {
            if i < prev.len() {
                assert(cur[i] == prev[i]);
                let k = choose|k: int| 0 <= k < n - 1 && prev[i] == sub2(d[k], q[0]);
                assert(0 <= k < n && cur[i] == sub2(d[k], q[0]));
            } else {
                assert(cur[i] == t);
                assert(0 <= n - 1 < n && cur[i] == sub2(d[n - 1], q[0]));
            }
        }
    }
}

/// Over a strictly sorted `d`, the translators come out strictly ascending.
proof fn lemma_translators_upto_sorted(q: Seq<Pt>, d: Seq<Pt>, n: int)
    requires
        0 <= n <= d.len(),
        sorted_strict(d),
    ensures
        sorted_strict(translators_upto(q, d, n)),
    decreases n,
{
    if n > 0 {
        lemma_translators_upto_sorted(q, d, n - 1);
        lemma_translators_upto_members(q, d, n - 1);
        let prev = translators_upto(q, d, n - 1);
        let t = sub2(d[n - 1], q[0]);
        let cur = translators_upto(q, d, n);
        if is_translator(q, d, t) {
            assert forall|a: int, b: int| 0 <= a < b < cur.len() implies lt2(
                #[trigger] cur[a],
                #[trigger] cur[b],
            ) by {
                assert(cur[a] == prev[a]);
                if b < prev.len() {
                    assert(cur[b] == prev[b]);
                } else {
                    assert(is_translator(q, d, prev[a]));
                    let k = choose|k: int| 0 <= k < n - 1 && prev[a] == sub2(d[k], q[0]);
                    assert(lt2(d[k], d[n - 1]));
                }
            }
        }
    }
}

/// The translators come out strictly ascending.
pub proof fn lemma_translators_sorted(q: Seq<Pt>, d: Seq<Pt>)
    requires
        sorted_strict(d),
    ensures
        sorted_strict(occurrence_translators(q, d)),
{
    lemma_translators_upto_sorted(q, d, d.len() as int);
    lemma_translators_whole(q, d);
}

/// Every emitted translator maps the whole query into the set.
pub proof fn lemma_matcher_sound(q: Seq<Pt>, d: Seq<Pt>, i: int)
    requires
        0 <= i < occurrence_translators(q, d).len(),
    ensures
        contained(translate(q, occurrence_translators(q, d)[i]), d),
{
    lemma_translators_upto_members(q, d, d.len() as int);
    lemma_translators_whole(q, d);
    assert(is_translator(q, d, occurrence_translators(q, d)[i]));
}

/// Every vector that maps the whole (non-empty) query into a sorted set is
/// emitted, and exactly once.
pub proof fn lemma_matcher_complete(q: Seq<Pt>, d: Seq<Pt>, t: Pt)
    requires
        q.len() > 0,
        sorted_strict(d),
        is_translator(q, d, t),
    ensures
        exists|i: int|
            0 <= i < occurrence_translators(q, d).len() && occurrence_translators(q, d)[i] == t
                && forall|j: int|
                0 <= j < occurrence_translators(q, d).len() && occurrence_translators(q, d)[j]
                    == t ==> j == i,
{
    let n = d.len() as int;
    lemma_translators_upto_members(q, d, n);
    lemma_translators_upto_sorted(q, d, n);
    lemma_translators_whole(q, d);
    let occ = occurrence_translators(q, d);
    let tq = translate(q, t);
    assert(tq[0] == add2(q[0], t));
    assert(d.contains(tq[0]));
    let k = choose|k: int| 0 <= k < n && d[k] == add2(q[0], t);
    assert(sub2(d[k], q[0]) == t);
    assert(occ.contains(t));
    let i = choose|i: int| 0 <= i < occ.len() && occ[i] == t;
    assert forall|j: int| 0 <= j < occ.len() && occ[j] == t implies j == i by {
        if j < i {
            assert(lt2(occ[j], occ[i]));
        } else if j > i {
            assert(lt2(occ[i], occ[j]));
        }
    }
}

/// Whether `t` maps every point of `q` into `d`.
fn maps_into(q: &Pattern, d: &PointSet, t: &Vector) -> (r: bool)
    requires
        q.wf(),
        d.wf(),
        exists|k: int| 0 <= k < d@.len() && t@ == sub2(d@[k], q@[0]),
    ensures
        r == is_translator(q@, d@, t@),
{
    proof {
        let k = choose|k: int| 0 <= k < d@.len() && t@ == sub2(d@[k], q@[0]);
        assert(in_bounds(d@[k]) && in_bounds(q@[0]));
    }
    let ghost tq = translate(q@, t@);
    let mut i: usize = 0;
    while i < q.len()
        invariant
            0 <= i <= q@.len(),
            q.wf(),
            d.wf(),
            tq == translate(q@, t@),
            -0x4000_0000_0000_0000 <= t.x <= 0x4000_0000_0000_0000,
            -0x4000_0000_0000_0000 <= t.y <= 0x4000_0000_0000_0000,
            forall|m: int| 0 <= m < i ==> d@.contains(#[trigger] tq[m]),
        decreases q@.len() - i,
    {
        let p = q.get(i);
        assert(in_bounds(q@[i as int]));
        let s = p.shifted(t);
        assert(tq[i as int] == s@);
        if !d.contains(&s) {
            return false;
        }
        i = i + 1;
    }
    true
}

/// Every vector under which the whole of `query` lies in `points`, in
/// ascending order.
pub fn find_translators(query: &Pattern, points: &PointSet) -> (r: Vec<Vector>)
    requires
        query.wf(),
        points.wf(),
    ensures
        vectors_view(r@) == occurrence_translators(query@, points@),
{
    let ghost q = query@;
    let ghost d = points@;
    let anchor = query.get(0);
    let mut out: Vec<Vector> = Vec::new();
    let mut k: usize = 0;
    while k < points.len()
        invariant
            0 <= k <= d.len(),
            q == query@,
            d == points@,
            query.wf(),
            points.wf(),
            anchor@ == q[0],
            vectors_view(out@) == translators_upto(q, d, k as int),
        decreases d.len() - k,
    {
        let s = points.get(k);
        assert(in_bounds(d[k as int]) && in_bounds(q[0]));
        let t = s.minus(&anchor);
        let ghost before = vectors_view(out@);
        if maps_into(query, points, &t) {
            out.push(t);
            assert(vectors_view(out@) =~= before.push(t@));
        }
        k = k + 1;
    }
    proof {
        lemma_translators_whole(q, d);
    }
    out
}

/// Every occurrence of `query` in `points`: the query translated by each
/// vector of `find_translators`, in the same order.
pub fn find_occurrences(query: &Pattern, points: &PointSet) -> (r: Vec<Pattern>)
    requires
        query.wf(),
        points.wf(),
    ensures
        r@.len() == occurrence_translators(query@, points@).len(),
        forall|i: int|
            0 <= i < r@.len() ==> (#[trigger] r@[i]).wf() && r@[i]@ == translate(
                query@,
                occurrence_translators(query@, points@)[i],
            ),
{
    let ts = find_translators(query, points);
    let ghost occ = occurrence_translators(query@, points@);
    let mut out: Vec<Pattern> = Vec::new();
    let mut i: usize = 0;
    while i < ts.len()
        invariant
            0 <= i <= ts@.len(),
            query.wf(),
            points.wf(),
            vectors_view(ts@) == occ,
            occ == occurrence_translators(query@, points@),
            out@.len() == i,
            forall|m: int|
                0 <= m < i ==> (#[trigger] out@[m]).wf() && out@[m]@ == translate(query@, occ[m]),
        decreases ts@.len() - i,
    {
        proof {
            lemma_matcher_sound(query@, points@, i as int);
            let tq = translate(query@, occ[i as int]);
            assert forall|m: int| 0 <= m < tq.len() implies in_bounds(#[trigger] tq[m]) by {
                assert(points@.contains(tq[m]));
            }
        }
        assert(ts@[i as int]@ == occ[i as int]);
        let p = query.translate(&ts[i]);
        out.push(p);
        i = i + 1;
    }
    out
}


/// The query shifted by each of `ts`, in order.
pub open spec fn occurrences_of(q: Seq<Pt>, ts: Seq<Pt>) -> Seq<Seq<Pt>> {
    Seq::new(ts.len(), |i: int| translate(q, ts[i]))
}

/// Receives the occurrences of a streaming match, one at a time.
pub trait PatternSink {
    /// The points of every pattern received so far, in order.
    spec fn received(&self) -> Seq<Seq<Pt>>;

    fn accept(&mut self, pattern: Pattern)
        ensures
            final(self).received() == old(self).received().push(pattern@),
    ;
}

/// A sink that keeps every pattern it receives.
pub struct PatternCollector {
    pub patterns: Vec<Pattern>,
}

pub open spec fn patterns_view(s: Seq<Pattern>) -> Seq<Seq<Pt>> {
    Seq::new(s.len(), |i: int| s[i]@)
}

impl PatternCollector {
    pub fn new() -> (r: PatternCollector)
        ensures
            r.received() == Seq::<Seq<Pt>>::empty(),
    {
        let r = PatternCollector { patterns: Vec::new() };
        assert(patterns_view(r.patterns@) =~= Seq::<Seq<Pt>>::empty());
        r
    }
}

impl PatternSink for PatternCollector {
    open spec fn received(&self) -> Seq<Seq<Pt>> {
        patterns_view(self.patterns@)
    }

    fn accept(&mut self, pattern: Pattern) {
        let ghost p = pattern@;
        self.patterns.push(pattern);
        assert(patterns_view(self.patterns@) =~= old(self).received().push(p));
    }
}

/// Hands every occurrence of `query` in `points` to `sink`, in the order of
/// `find_translators`.
pub fn find_occurrences_streaming<S: PatternSink>(query: &Pattern, points: &PointSet, sink: &mut S)
    requires
        query.wf(),
        points.wf(),
    ensures
        final(sink).received() == old(sink).received() + occurrences_of(
            query@,
            occurrence_translators(query@, points@),
        ),
{
    let ts = find_translators(query, points);
    let ghost occ = occurrence_translators(query@, points@);
    let ghost start = sink.received();
    let mut i: usize = 0;
    while i < ts.len()
        invariant
            0 <= i <= ts@.len(),
            query.wf(),
            points.wf(),
            vectors_view(ts@) == occ,
            occ == occurrence_translators(query@, points@),
            sink.received() == start + occurrences_of(query@, occ.subrange(0, i as int)),
        decreases ts@.len() - i,
    {
        proof {
            lemma_matcher_sound(query@, points@, i as int);
            let tq = translate(query@, occ[i as int]);
            assert forall|m: int| 0 <= m < tq.len() implies in_bounds(#[trigger] tq[m]) by {
                assert(points@.contains(tq[m]));
            }
        }
        assert(ts@[i as int]@ == occ[i as int]);
        let p = query.translate(&ts[i]);
        sink.accept(p);
        assert(occurrences_of(query@, occ.subrange(0, i as int + 1)) =~= occurrences_of(
            query@,
            occ.subrange(0, i as int),
        ).push(translate(query@, occ[i as int])));
        i = i + 1;
    }
    assert(occ.subrange(0, occ.len() as int) =~= occ);
}

} // verus!
