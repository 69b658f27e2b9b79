use chameleon::exec::run_filter;
use chameleon::params::{ApproxOptType, ExecParams};
use chameleon::plan::{plan_to_tree, Plan};
use chameleon::planner::{build_exec_params, plan, EngineError};
use chameleon::selmap::{StatsMap, SEL_SCALE};
use chameleon::stats::ExecStats;
use chameleon::tree::{Atom, PredNode};
use roaring::RoaringBitmap;

fn bitmap_of(rows: &[u32]) -> RoaringBitmap {
    let mut b = RoaringBitmap::new();
    for &r in rows {
        b.insert(r);
    }
    b
}

fn range_bitmap(lo: u32, hi: u32) -> RoaringBitmap {
    RoaringBitmap::from_sorted_iter(lo..hi).unwrap()
}

fn atom(name: &str, lo: u32, hi: u32) -> PredNode {
    PredNode::Atom(Atom::new(name.to_string(), range_bitmap(lo, hi)))
}

fn sels(pairs: &[(&str, u64)]) -> StatsMap {
    let mut m = StatsMap::new();
    for (k, v) in pairs {
        m.insert(k.to_string(), *v);
    }
    m
}

fn params_for(t: ApproxOptType) -> ExecParams {
    let mut p = ExecParams::default();
    p.approx_opt_type = t;
    p
}

#[test]
fn run_filter_eval_atom_matches_atom_eval() {
    let a = Atom::new("A".to_string(), range_bitmap(10, 40));
    let cand = range_bitmap(0, 25);
    let mut s1 = ExecStats::new();
    let mut s2 = ExecStats::new();
    let direct = a.eval(&cand, &mut s1);
    let p = Plan::EvalAtom(Atom::new("A".to_string(), range_bitmap(10, 40)));
    let via_plan = run_filter(&p, &cand, &ExecParams::default(), &mut s2);
    assert_eq!(direct, via_plan);
    assert_eq!(direct, range_bitmap(10, 25));
}

#[test]
fn empty_candidate_returns_empty_immediately() {
    let tree = PredNode::And(vec![atom("A", 0, 900), atom("B", 0, 100)]);
    let m = sels(&[("A", 900000), ("B", 100000)]);
    let costs = StatsMap::new();
    let params = ExecParams::default();
    let mut stats = ExecStats::new();
    let p = plan(tree, &m, &m, &params, &mut stats).unwrap();
    let before = stats.num_preds_evaled;
    let empty = RoaringBitmap::new();
    let r = run_filter(&p, &empty, &params, &mut stats);
    assert!(r.is_empty());
    assert_eq!(stats.num_preds_evaled, before);
    let _ = costs;
}

#[test]
fn result_is_subset_of_candidate() {
    let tree = PredNode::Or(vec![atom("A", 0, 600), atom("B", 300, 950)]);
    let m = StatsMap::new();
    let params = ExecParams::default();
    let mut stats = ExecStats::new();
    let p = plan(tree, &m, &m, &params, &mut stats).unwrap();
    let cand = bitmap_of(&[5, 250, 700, 940, 999]);
    let r = run_filter(&p, &cand, &params, &mut stats);
    assert!(r.is_subset(&cand));
    assert_eq!(r, bitmap_of(&[5, 250, 700, 940]));
}

#[test]
fn simple_and_ordering() {
    // A 0.9, B 0.1, C 0.5, all cost one: the plan runs B, then C, then A.
    let tree = PredNode::And(vec![atom("A", 0, 900), atom("B", 0, 100), atom("C", 0, 500)]);
    let m = sels(&[("A", 900000), ("B", 100000), ("C", 500000)]);
    let costs = StatsMap::new();
    let params = ExecParams::default();
    let mut stats = ExecStats::new();
    let p = plan(tree, &m, &costs, &params, &mut stats).unwrap();
    let expected = Plan::SeqAnd(vec![
        Plan::EvalAtom(Atom::new("B".to_string(), range_bitmap(0, 100))),
        Plan::EvalAtom(Atom::new("C".to_string(), range_bitmap(0, 500))),
        Plan::EvalAtom(Atom::new("A".to_string(), range_bitmap(0, 900))),
    ]);
    assert_eq!(p, expected);
    let cand = range_bitmap(0, 1000);
    let r = run_filter(&p, &cand, &params, &mut stats);
    assert_eq!(stats.num_preds_evaled, 3);
    assert_eq!(r, range_bitmap(0, 100));
}

#[test]
fn and_short_circuit() {
    // A matches no rows: after its evaluation nothing else is evaluated.
    let tree = PredNode::And(vec![atom("A", 0, 0), atom("B", 0, 500)]);
    let m = sels(&[("A", 0), ("B", 500000)]);
    let params = ExecParams::default();
    let mut stats = ExecStats::new();
    let p = plan(tree, &m, &m, &params, &mut stats).unwrap();
    let expected = Plan::SeqAnd(vec![
        Plan::EvalAtom(Atom::new("A".to_string(), range_bitmap(0, 0))),
        Plan::EvalAtom(Atom::new("B".to_string(), range_bitmap(0, 500))),
    ]);
    assert_eq!(p, expected);
    let cand = range_bitmap(0, 1000);
    let r = run_filter(&p, &cand, &params, &mut stats);
    assert!(r.is_empty());
    assert_eq!(stats.num_preds_evaled, 1);
}

#[test]
fn or_remaining_candidate() {
    // Disjoint supports of one hundred rows each, out of a thousand.
    let tree = PredNode::Or(vec![atom("A", 0, 100), atom("B", 500, 600)]);
    let m = sels(&[("A", 100000), ("B", 100000)]);
    let params = ExecParams::default();
    let mut stats = ExecStats::new();
    let p = plan(tree, &m, &m, &params, &mut stats).unwrap();
    assert!(matches!(p, Plan::SeqOr(_)));
    let cand = range_bitmap(0, 1000);
    let r = run_filter(&p, &cand, &params, &mut stats);
    assert_eq!(r.len(), 200);
    assert_eq!(stats.num_preds_evaled, 2);
}

#[test]
fn disable_or_opt_same_result() {
    let m = sels(&[("A", 100000), ("B", 100000)]);
    let mut params = ExecParams::default();
    params.disable_or_opt = true;
    let tree = PredNode::Or(vec![atom("A", 0, 100), atom("B", 500, 600)]);
    let mut stats = ExecStats::new();
    let p = plan(tree, &m, &m, &params, &mut stats).unwrap();
    let cand = range_bitmap(0, 1000);
    let r = run_filter(&p, &cand, &params, &mut stats);
    assert_eq!(r.len(), 200);
    assert_eq!(stats.num_preds_evaled, 2);
}

#[test]
fn all_selectivity_one_cost_ascending() {
    // Fully selective atoms fall back to ascending cost; all rows survive.
    let tree = PredNode::And(vec![atom("A", 0, 1000), atom("B", 0, 1000), atom("C", 0, 1000)]);
    let m = sels(&[("A", SEL_SCALE), ("B", SEL_SCALE), ("C", SEL_SCALE)]);
    let costs = sels(&[("A", 3000000), ("B", 1000000), ("C", 2000000)]);
    let params = ExecParams::default();
    let mut stats = ExecStats::new();
    let p = plan(tree, &m, &costs, &params, &mut stats).unwrap();
    let expected = Plan::SeqAnd(vec![
        Plan::EvalAtom(Atom::new("B".to_string(), range_bitmap(0, 1000))),
        Plan::EvalAtom(Atom::new("C".to_string(), range_bitmap(0, 1000))),
        Plan::EvalAtom(Atom::new("A".to_string(), range_bitmap(0, 1000))),
    ]);
    assert_eq!(p, expected);
    let cand = range_bitmap(0, 1000);
    let r = run_filter(&p, &cand, &params, &mut stats);
    assert_eq!(r, cand);
}

#[test]
fn all_selectivity_zero_short_circuit() {
    // Atoms that match nothing: the first evaluation empties the candidate.
    let tree = PredNode::And(vec![atom("A", 0, 0), atom("B", 0, 0), atom("C", 0, 0)]);
    let m = sels(&[("A", 0), ("B", 0), ("C", 0)]);
    let params = ExecParams::default();
    let mut stats = ExecStats::new();
    let p = plan(tree, &m, &m, &params, &mut stats).unwrap();
    let cand = range_bitmap(0, 1000);
    let r = run_filter(&p, &cand, &params, &mut stats);
    assert!(r.is_empty());
    assert_eq!(stats.num_preds_evaled, 1);
}

#[test]
fn tdacb_highly_selective_conjunct_first() {
    let tree = PredNode::And(vec![
        atom("A", 0, 10),
        PredNode::Or(vec![atom("B", 0, 500), atom("C", 250, 750)]),
    ]);
    let m = sels(&[("A", 10000), ("B", 500000), ("C", 500000)]);
    let params = params_for(ApproxOptType::Tdacb);
    let mut stats = ExecStats::new();
    let p = plan(tree, &m, &m, &params, &mut stats).unwrap();
    match &p {
        Plan::SeqAnd(steps) => match &steps[0] {
            Plan::EvalAtom(a) => assert_eq!(a.fingerprint, "A"),
            other => panic!("first step is not an atom: {:?}", other),
        },
        other => panic!("not a SeqAnd: {:?}", other),
    }
    assert!(stats.num_plans_considered > 0);
    let cand = range_bitmap(0, 1000);
    let mut stats2 = ExecStats::new();
    let baseline = plan(
        PredNode::And(vec![
            atom("A", 0, 10),
            PredNode::Or(vec![atom("B", 0, 500), atom("C", 250, 750)]),
        ]),
        &m,
        &m,
        &ExecParams::default(),
        &mut stats2,
    )
    .unwrap();
    let r1 = run_filter(&p, &cand, &params, &mut stats);
    let r2 = run_filter(&baseline, &cand, &ExecParams::default(), &mut stats2);
    assert_eq!(r1, r2);
}

#[test]
fn single_atom_tree_all_planners() {
    for t in [
        ApproxOptType::EvalPred,
        ApproxOptType::Tdacb,
        ApproxOptType::BDCWithBestD,
        ApproxOptType::OnePredLookahead,
    ] {
        let tree = atom("A", 0, 42);
        let m = StatsMap::new();
        let mut stats = ExecStats::new();
        let p = plan(tree, &m, &m, &params_for(t), &mut stats).unwrap();
        assert_eq!(p, Plan::EvalAtom(Atom::new("A".to_string(), range_bitmap(0, 42))));
    }
}

#[test]
fn plan_is_deterministic() {
    for t in [
        ApproxOptType::EvalPred,
        ApproxOptType::Tdacb,
        ApproxOptType::BDCWithBestD,
        ApproxOptType::OnePredLookahead,
    ] {
        let build = || {
            PredNode::And(vec![
                atom("A", 0, 900),
                PredNode::Or(vec![atom("B", 0, 100), atom("C", 0, 500)]),
                atom("D", 100, 700),
            ])
        };
        let m = sels(&[("A", 900000), ("B", 100000), ("C", 500000), ("D", 600000)]);
        let mut s1 = ExecStats::new();
        let mut s2 = ExecStats::new();
        let p1 = plan(build(), &m, &m, &params_for(t), &mut s1).unwrap();
        let p2 = plan(build(), &m, &m, &params_for(t), &mut s2).unwrap();
        assert_eq!(p1, p2);
        let cand = range_bitmap(0, 1000);
        let e1 = s1.num_preds_evaled;
        let e2 = s2.num_preds_evaled;
        let r1 = run_filter(&p1, &cand, &params_for(t), &mut s1);
        let r2 = run_filter(&p2, &cand, &params_for(t), &mut s2);
        assert_eq!(r1, r2);
        assert_eq!(s1.num_preds_evaled - e1, s2.num_preds_evaled - e2);
    }
}

#[test]
fn planning_reaches_fixed_point_in_one_step() {
    for t in [
        ApproxOptType::EvalPred,
        ApproxOptType::Tdacb,
        ApproxOptType::BDCWithBestD,
        ApproxOptType::OnePredLookahead,
    ] {
        let build = || {
            PredNode::And(vec![
                atom("A", 0, 900),
                PredNode::Or(vec![atom("B", 0, 100), atom("C", 0, 500)]),
                atom("D", 100, 700),
            ])
        };
        let m = sels(&[("A", 900000), ("B", 100000), ("C", 500000), ("D", 600000)]);
        let mut stats = ExecStats::new();
        let p1 = plan(build(), &m, &m, &params_for(t), &mut stats).unwrap();
        let p1_again = plan(build(), &m, &m, &params_for(t), &mut stats).unwrap();
        let projected = plan_to_tree(p1_again);
        let p2 = plan(projected, &m, &m, &params_for(t), &mut stats).unwrap();
        assert_eq!(p1, p2);
    }
}

#[test]
fn counters_never_decrease() {
    let m = sels(&[("A", 500000), ("B", 500000)]);
    let params = ExecParams::default();
    let mut stats = ExecStats::new();
    let mut last = (0u128, 0u128, 0u128, 0u128, 0u128);
    for _ in 0..3 {
        let tree = PredNode::And(vec![atom("A", 0, 500), atom("B", 250, 750)]);
        let p = plan(tree, &m, &m, &params, &mut stats).unwrap();
        let cand = range_bitmap(0, 1000);
        let _ = run_filter(&p, &cand, &params, &mut stats);
        let now = (
            stats.plan_time_ms,
            stats.total_time_ms,
            stats.pred_only_time_ms,
            stats.num_preds_evaled,
            stats.num_plans_considered,
        );
        assert!(now.0 >= last.0 && now.1 >= last.1 && now.2 >= last.2);
        assert!(now.3 >= last.3 && now.4 >= last.4);
        last = now;
    }
}

#[test]
fn malformed_trees_are_rejected() {
    let m = StatsMap::new();
    let params = ExecParams::default();
    let mut stats = ExecStats::new();
    let singleton = PredNode::And(vec![atom("A", 0, 10)]);
    assert_eq!(plan(singleton, &m, &m, &params, &mut stats), Err(EngineError::MalformedTree));
    let empty = PredNode::Or(vec![]);
    assert_eq!(plan(empty, &m, &m, &params, &mut stats), Err(EngineError::MalformedTree));
    let nested = PredNode::And(vec![
        atom("A", 0, 10),
        PredNode::And(vec![atom("B", 0, 10), atom("C", 0, 10)]),
    ]);
    assert_eq!(plan(nested, &m, &m, &params, &mut stats), Err(EngineError::MalformedTree));
    let nested_or = PredNode::Or(vec![
        atom("A", 0, 10),
        PredNode::Or(vec![atom("B", 0, 10), atom("C", 0, 10)]),
    ]);
    assert_eq!(plan(nested_or, &m, &m, &params, &mut stats), Err(EngineError::MalformedTree));
}

#[test]
fn build_exec_params_names() {
    assert_eq!(
        build_exec_params("eval_pred"),
        Ok(ExecParams { approx_opt_type: ApproxOptType::EvalPred, disable_or_opt: false })
    );
    assert_eq!(
        build_exec_params("tdacb"),
        Ok(ExecParams { approx_opt_type: ApproxOptType::Tdacb, disable_or_opt: false })
    );
    assert_eq!(
        build_exec_params("no_opt"),
        Ok(ExecParams { approx_opt_type: ApproxOptType::EvalPred, disable_or_opt: true })
    );
    assert_eq!(
        build_exec_params("bdc"),
        Ok(ExecParams { approx_opt_type: ApproxOptType::BDCWithBestD, disable_or_opt: false })
    );
    assert_eq!(
        build_exec_params("greedy_d3"),
        Ok(ExecParams { approx_opt_type: ApproxOptType::OnePredLookahead, disable_or_opt: false })
    );
    assert_eq!(build_exec_params("fancy"), Err(EngineError::UnknownPlannerType));
}

#[test]
fn or_early_termination() {
    // A and B together cover the whole candidate: the remaining candidate is
    // empty after B, so C is never evaluated.
    let tree = PredNode::Or(vec![atom("A", 0, 600), atom("B", 500, 1000), atom("C", 200, 300)]);
    let m = sels(&[("A", 600000), ("B", 500000), ("C", 100000)]);
    let costs = StatsMap::new();
    let params = ExecParams::default();
    let mut stats = ExecStats::new();
    let p = plan(tree, &m, &costs, &params, &mut stats).unwrap();
    let cand = range_bitmap(0, 1000);
    let r = run_filter(&p, &cand, &params, &mut stats);
    assert_eq!(r, cand);
    assert_eq!(stats.num_preds_evaled, 2);
}
