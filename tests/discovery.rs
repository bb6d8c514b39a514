use siatec::discovery::{discover_tecs, discover_tecs_streaming, Tec, TecCollector};
use siatec::matcher::{find_occurrences, find_occurrences_streaming, find_translators, PatternCollector};
use siatec::pattern::{Pattern, PatternError};
use siatec::point::{Point, Vector};
use siatec::point_set::PointSet;

fn pts(coords: &[(i64, i64)]) -> Vec<Point> {
    coords.iter().map(|&(x, y)| Point::new(x, y)).collect()
}

fn coords(pattern: &Pattern) -> Vec<(i64, i64)> {
    pattern.to_vec().iter().map(|p| (p.x, p.y)).collect()
}

fn vecs(tec: &Tec) -> Vec<(i64, i64)> {
    tec.translators.iter().map(|v| (v.x, v.y)).collect()
}

fn example_set() -> PointSet {
    PointSet::new(pts(&[(0, 60), (1, 62), (4, 60), (5, 62)]))
}

fn set_coords(set: &PointSet) -> Vec<(i64, i64)> {
    (0..set.len()).map(|i| {
        let p = set.get(i);
        (p.x, p.y)
    }).collect()
}

#[test]
fn point_set_sorts_and_dedups() {
    let set = PointSet::new(pts(&[(5, 62), (0, 60), (1, 62), (0, 60), (1, 61), (4, 60)]));
    assert_eq!(set_coords(&set), vec![(0, 60), (1, 61), (1, 62), (4, 60), (5, 62)]);
}

#[test]
fn point_set_membership() {
    let set = example_set();
    assert!(set.contains(&Point::new(4, 60)));
    assert!(set.contains(&Point::new(0, 60)));
    assert!(set.contains(&Point::new(5, 62)));
    assert!(!set.contains(&Point::new(4, 62)));
    assert!(!set.contains(&Point::new(-1, 60)));
    assert!(!PointSet::new(Vec::new()).contains(&Point::new(0, 0)));
}

#[test]
fn point_order_is_exact_axis_first() {
    assert!(Point::new(0, 99).less_than(&Point::new(1, 0)));
    assert!(Point::new(1, 0).less_than(&Point::new(1, 1)));
    assert!(!Point::new(1, 1).less_than(&Point::new(1, 1)));
}

#[test]
fn empty_pattern_is_rejected() {
    assert!(matches!(Pattern::new(Vec::new()), Err(PatternError::Empty)));
}

#[test]
fn repeated_point_is_rejected() {
    let r = Pattern::new(pts(&[(0, 60), (1, 62), (0, 60)]));
    assert!(matches!(r, Err(PatternError::RepeatedPoint)));
}

#[test]
fn pattern_keeps_given_order() {
    let p = Pattern::new(pts(&[(1, 62), (0, 60)])).unwrap();
    assert_eq!(coords(&p), vec![(1, 62), (0, 60)]);
}

#[test]
fn translate_shifts_every_point() {
    let p = Pattern::new(pts(&[(0, 60), (1, 62)])).unwrap();
    let t = p.translate(&Vector::new(4, -2));
    assert_eq!(coords(&t), vec![(4, 58), (5, 60)]);
}

#[test]
fn matcher_finds_both_occurrences() {
    let set = example_set();
    let query = Pattern::new(pts(&[(0, 60), (1, 62)])).unwrap();
    let occ = find_occurrences(&query, &set);
    assert_eq!(occ.len(), 2);
    assert_eq!(coords(&occ[0]), vec![(0, 60), (1, 62)]);
    assert_eq!(coords(&occ[1]), vec![(4, 60), (5, 62)]);
    let ts: Vec<(i64, i64)> = find_translators(&query, &set).iter().map(|v| (v.x, v.y)).collect();
    assert_eq!(ts, vec![(0, 0), (4, 0)]);
}

#[test]
fn matcher_query_outside_the_set() {
    let set = example_set();
    let query = Pattern::new(pts(&[(10, 70), (11, 72)])).unwrap();
    let ts: Vec<(i64, i64)> = find_translators(&query, &set).iter().map(|v| (v.x, v.y)).collect();
    assert_eq!(ts, vec![(-10, -10), (-6, -10)]);
}

#[test]
fn matcher_no_match() {
    let set = example_set();
    let query = Pattern::new(pts(&[(0, 60), (2, 61)])).unwrap();
    assert!(find_occurrences(&query, &set).is_empty());
}

#[test]
fn matcher_partial_match_does_not_count() {
    let set = example_set();
    let query = Pattern::new(pts(&[(0, 60), (1, 62), (3, 62)])).unwrap();
    assert!(find_occurrences(&query, &set).is_empty());
}

#[test]
fn discovery_finds_repeated_pair_at_bound_two() {
    let set = example_set();
    let tecs = discover_tecs(&set, 2);
    let found = tecs
        .iter()
        .find(|t| coords(&t.pattern) == vec![(0, 60), (1, 62)])
        .expect("pair pattern");
    assert!(vecs(found).contains(&(4, 0)));
}

#[test]
fn discovery_at_bound_two_is_exactly_the_pair_class() {
    // The lower notes (0, 60) and (4, 60) are 4 apart: their class needs a
    // bound of at least 4.
    let set = example_set();
    let tecs = discover_tecs(&set, 2);
    assert_eq!(tecs.len(), 1);
    assert_eq!(coords(&tecs[0].pattern), vec![(0, 60), (1, 62)]);
    assert_eq!(vecs(&tecs[0]), vec![(0, 0), (4, 0)]);
}

#[test]
fn discovery_full_result_at_large_bound() {
    // Single-point patterns hold no pair of points, so they give no class.
    let set = example_set();
    let tecs = discover_tecs(&set, 10);
    let mut got: Vec<(Vec<(i64, i64)>, Vec<(i64, i64)>)> =
        tecs.iter().map(|t| (coords(&t.pattern), vecs(t))).collect();
    got.sort();
    let mut want = vec![
        (vec![(0, 60), (4, 60)], vec![(0, 0), (1, 2)]),
        (vec![(0, 60), (1, 62)], vec![(0, 0), (4, 0)]),
    ];
    want.sort();
    assert_eq!(got, want);
}

#[test]
fn discovery_translators_are_sound_and_start_at_zero() {
    let set = PointSet::new(pts(&[(0, 1), (1, 3), (2, 1), (3, 3), (4, 1), (6, 2), (7, 4)]));
    for tec in discover_tecs(&set, 3) {
        assert_eq!(vecs(&tec)[0], (0, 0));
        for t in &tec.translators {
            for p in tec.pattern.to_vec() {
                assert!(set.contains(&Point::new(p.x + t.x, p.y + t.y)));
            }
        }
    }
}

#[test]
fn discovery_shapes_are_unique() {
    let set = PointSet::new(pts(&[(0, 1), (1, 3), (2, 1), (3, 3), (4, 1), (6, 2), (7, 4)]));
    let tecs = discover_tecs(&set, 3);
    let shapes: Vec<Vec<(i64, i64)>> = tecs
        .iter()
        .map(|t| {
            let c = coords(&t.pattern);
            let (x0, y0) = c[0];
            c.iter().map(|&(x, y)| (x - x0, y - y0)).collect()
        })
        .collect();
    for i in 0..shapes.len() {
        for j in i + 1..shapes.len() {
            assert_ne!(shapes[i], shapes[j]);
        }
    }
}

#[test]
fn streaming_matches_bulk() {
    let set = PointSet::new(pts(&[(0, 1), (1, 3), (2, 1), (3, 3), (4, 1), (6, 2), (7, 4)]));
    let bulk: Vec<_> = discover_tecs(&set, 3).iter().map(|t| (coords(&t.pattern), vecs(t))).collect();
    let mut sink = TecCollector::new();
    discover_tecs_streaming(&set, 3, &mut sink);
    let streamed: Vec<_> = sink.tecs.iter().map(|t| (coords(&t.pattern), vecs(t))).collect();
    assert_eq!(bulk, streamed);
}

#[test]
fn larger_bound_keeps_every_class() {
    let set = PointSet::new(pts(&[(0, 1), (1, 3), (2, 1), (3, 3), (4, 1), (6, 2), (7, 4)]));
    let small: Vec<_> = discover_tecs(&set, 1).iter().map(|t| (coords(&t.pattern), vecs(t))).collect();
    let large: Vec<_> = discover_tecs(&set, 5).iter().map(|t| (coords(&t.pattern), vecs(t))).collect();
    assert!(!small.is_empty());
    assert!(large.len() > small.len());
    for s in &small {
        assert!(large.contains(s));
    }
}

#[test]
fn no_classes_without_pairs_in_reach() {
    assert!(discover_tecs(&PointSet::new(pts(&[(0, 60)])), 10).is_empty());
    assert!(discover_tecs(&PointSet::new(Vec::new()), 10).is_empty());
    assert!(discover_tecs(&PointSet::new(pts(&[(0, 60), (5, 60)])), 4).is_empty());
}

#[test]
fn zero_bound_keeps_simultaneous_points() {
    let set = PointSet::new(pts(&[(0, 60), (0, 64), (3, 60), (3, 64), (3, 67)]));
    let tecs = discover_tecs(&set, 0);
    let got: Vec<_> = tecs.iter().map(|t| (coords(&t.pattern), vecs(t))).collect();
    assert_eq!(got, vec![(vec![(0, 60), (0, 64)], vec![(0, 0), (3, 0)])]);
}

#[test]
fn streaming_matcher_hands_out_each_occurrence() {
    let set = example_set();
    let query = Pattern::new(pts(&[(0, 60), (1, 62)])).unwrap();
    let mut sink = PatternCollector::new();
    find_occurrences_streaming(&query, &set, &mut sink);
    let got: Vec<_> = sink.patterns.iter().map(coords).collect();
    assert_eq!(got, vec![vec![(0, 60), (1, 62)], vec![(4, 60), (5, 62)]]);
}
