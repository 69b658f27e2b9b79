use chameleon::exec::run_filter;
use chameleon::params::ExecParams;
use chameleon::planner::{build_exec_params, plan};
use chameleon::selmap::StatsMap;
use chameleon::stats::ExecStats;
use chameleon::tree::{Atom, PredNode};
use roaring::RoaringBitmap;

const N: u32 = 1000;

fn pick(rows: impl Fn(u32) -> bool) -> RoaringBitmap {
    let mut b = RoaringBitmap::new();
    for i in 0..N {
        if rows(i) {
            b.insert(i);
        }
    }
    b
}

fn atom(name: &str, rows: impl Fn(u32) -> bool) -> PredNode {
    PredNode::Atom(Atom::new(name.to_string(), pick(rows)))
}

fn all_planner_names() -> Vec<&'static str> {
    vec!["eval_pred", "no_opt", "tdacb", "bdc", "greedy_d3"]
}

fn run_all(build: impl Fn() -> PredNode, sels: &StatsMap, costs: &StatsMap) -> Vec<RoaringBitmap> {
    let cand = RoaringBitmap::from_sorted_iter(0..N).unwrap();
    let mut outputs = vec![];
    for name in all_planner_names() {
        let params = build_exec_params(name).unwrap();
        let mut stats = ExecStats::new();
        let p = plan(build(), sels, costs, &params, &mut stats).unwrap();
        outputs.push(run_filter(&p, &cand, &params, &mut stats));
    }
    outputs
}

#[test]
fn approx_better() {
    // (a < 0.82) and ((b < 0.313) or ((c < 0.469) and (d < 0.984)))
    let build = || {
        PredNode::And(vec![
            atom("table1.a < 0.82", |i| i % 100 < 82),
            PredNode::Or(vec![
                atom("table1.b < 0.313", |i| i < 313),
                PredNode::And(vec![
                    atom("table1.c < 0.469", |i| (i * 7 + 3) % 1000 < 469),
                    atom("table1.d < 0.984", |i| i % 1000 < 984),
                ]),
            ]),
        ])
    };
    let mut sels = StatsMap::new();
    sels.insert("table1.a < 0.82".to_string(), 820000);
    sels.insert("table1.b < 0.313".to_string(), 313000);
    sels.insert("table1.c < 0.469".to_string(), 469000);
    sels.insert("table1.d < 0.984".to_string(), 984000);
    let costs = StatsMap::new();
    let outputs = run_all(build, &sels, &costs);
    for output in &outputs {
        assert_eq!(&outputs[0], output);
    }
}

#[test]
fn approx_one_lookahead() {
    // (b < 0.1) and ((c < 0.1) or ((d < 0.1) and (e < 0.1)))
    let build = || {
        PredNode::And(vec![
            atom("table1.b < 0.1", |i| i % 10 == 0),
            PredNode::Or(vec![
                atom("table1.c < 0.1", |i| i % 10 == 3),
                PredNode::And(vec![
                    atom("table1.d < 0.1", |i| i % 7 == 0),
                    atom("table1.e < 0.1", |i| i % 13 == 0),
                ]),
            ]),
        ])
    };
    let mut sels = StatsMap::new();
    sels.insert("table1.b < 0.1".to_string(), 100000);
    sels.insert("table1.c < 0.1".to_string(), 100000);
    sels.insert("table1.d < 0.1".to_string(), 100000);
    sels.insert("table1.e < 0.1".to_string(), 100000);
    let costs = StatsMap::new();

    let cand = RoaringBitmap::from_sorted_iter(0..N).unwrap();
    let exact_params = build_exec_params("eval_pred").unwrap();
    let mut exact_stats = ExecStats::new();
    let exact_plan = plan(build(), &sels, &costs, &exact_params, &mut exact_stats).unwrap();
    let exact = run_filter(&exact_plan, &cand, &exact_params, &mut exact_stats);

    let approx_params = build_exec_params("greedy_d3").unwrap();
    let mut approx_stats = ExecStats::new();
    let approx_plan = plan(build(), &sels, &costs, &approx_params, &mut approx_stats).unwrap();
    let approx = run_filter(&approx_plan, &cand, &approx_params, &mut approx_stats);

    assert_eq!(exact, approx);
}

#[test]
fn tdacb_test() {
    // (a < 0.1) and ((b < 0.1) or ((c < 0.1) and (d < 0.1)))
    let build = || {
        PredNode::And(vec![
            atom("table1.a < 0.1", |i| i < 100),
            PredNode::Or(vec![
                atom("table1.b < 0.1", |i| i % 10 == 1),
                PredNode::And(vec![
                    atom("table1.c < 0.1", |i| i % 11 == 0),
                    atom("table1.d < 0.1", |i| i % 9 == 0),
                ]),
            ]),
        ])
    };
    let mut sels = StatsMap::new();
    sels.insert("table1.a < 0.1".to_string(), 100000);
    sels.insert("table1.b < 0.1".to_string(), 100000);
    sels.insert("table1.c < 0.1".to_string(), 100000);
    sels.insert("table1.d < 0.1".to_string(), 100000);
    let costs = StatsMap::new();

    let cand = RoaringBitmap::from_sorted_iter(0..N).unwrap();
    let exact_params = build_exec_params("eval_pred").unwrap();
    let mut exact_stats = ExecStats::new();
    let exact_plan = plan(build(), &sels, &costs, &exact_params, &mut exact_stats).unwrap();
    let exact = run_filter(&exact_plan, &cand, &exact_params, &mut exact_stats);

    let tdacb_params = build_exec_params("tdacb").unwrap();
    let mut tdacb_stats = ExecStats::new();
    let tdacb_plan = plan(build(), &sels, &costs, &tdacb_params, &mut tdacb_stats).unwrap();
    let tdacb = run_filter(&tdacb_plan, &cand, &tdacb_params, &mut tdacb_stats);

    assert_eq!(exact, tdacb);
    assert!(tdacb_stats.num_plans_considered > 0);
}

#[test]
fn planner_equivalence_deep_tree() {
    let build = || {
        PredNode::Or(vec![
            PredNode::And(vec![
                atom("p", |i| i % 2 == 0),
                atom("q", |i| i % 3 == 0),
                PredNode::Or(vec![atom("r", |i| i < 50), atom("s", |i| i > 800)]),
            ]),
            atom("t", |i| i % 97 == 0),
            PredNode::And(vec![atom("u", |i| i % 5 == 1), atom("v", |i| i % 4 != 2)]),
        ])
    };
    let sels = StatsMap::new();
    let costs = StatsMap::new();
    let outputs = run_all(build, &sels, &costs);
    for output in &outputs {
        assert_eq!(&outputs[0], output);
    }
}
