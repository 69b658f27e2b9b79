use chameleon::bin_utils::{
    default_output_dir, default_stats_dir, parse_comma_range_num_list, parse_comma_string_list,
};
use chameleon::params::{ApproxOptType, ExecParams};
use chameleon::planner::{cost_lookup, sel_lookup};
use chameleon::planner::estimate_selectivities;
use chameleon::selmap::{StatsMap, SEL_DEFAULT, SEL_SCALE};
use chameleon::stats::ExecStats;
use chameleon::tree::{Atom, PredNode};
use roaring::RoaringBitmap;

#[test]
fn default_dirs() {
    assert_eq!(default_stats_dir(), "stats");
    assert_eq!(default_output_dir(), "output");
}

#[test]
fn comma_string_list() {
    assert_eq!(parse_comma_string_list("a,b,c"), Ok(vec![
        "a".to_string(),
        "b".to_string(),
        "c".to_string(),
    ]));
    assert_eq!(parse_comma_string_list(""), Ok(vec!["".to_string()]));
    assert_eq!(parse_comma_string_list("x,"), Ok(vec!["x".to_string(), "".to_string()]));
    assert_eq!(parse_comma_string_list("eval_pred"), Ok(vec!["eval_pred".to_string()]));
}

#[test]
fn comma_range_num_list() {
    assert_eq!(parse_comma_range_num_list("3,1-4,2").unwrap(), vec![1, 2, 2, 3, 3, 4]);
    assert_eq!(parse_comma_range_num_list("7").unwrap(), vec![7]);
    assert_eq!(parse_comma_range_num_list("5-5").unwrap(), vec![5]);
    assert_eq!(parse_comma_range_num_list("9-2").unwrap(), Vec::<usize>::new());
    assert!(parse_comma_range_num_list("1,x").is_err());
    assert!(parse_comma_range_num_list("5-").is_err());
    assert!(parse_comma_range_num_list("").is_err());
    assert!(parse_comma_range_num_list("1,,2").is_err());
}

#[test]
fn stats_map_lookup_defaults() {
    let mut m = StatsMap::new();
    assert_eq!(sel_lookup(&m, "missing"), SEL_DEFAULT);
    assert_eq!(cost_lookup(&m, "missing"), SEL_SCALE);
    m.insert("a".to_string(), 250000);
    assert_eq!(sel_lookup(&m, "a"), 250000);
    m.insert("a".to_string(), 300000);
    assert_eq!(sel_lookup(&m, "a"), 300000);
    m.insert("big".to_string(), 9000000);
    assert_eq!(sel_lookup(&m, "big"), SEL_SCALE);
    m.insert("zero".to_string(), 0);
    assert_eq!(cost_lookup(&m, "zero"), 1);
}

#[test]
fn stats_map_get() {
    let mut m = StatsMap::new();
    m.insert("k1".to_string(), 11);
    m.insert("k2".to_string(), 22);
    assert_eq!(m.get("k1"), Some(11));
    assert_eq!(m.get("k2"), Some(22));
    assert_eq!(m.get("k3"), None);
}

#[test]
fn exec_defaults() {
    let p = ExecParams::default();
    assert_eq!(p.approx_opt_type, ApproxOptType::EvalPred);
    assert!(!p.disable_or_opt);
    let s = ExecStats::new();
    assert_eq!(s.plan_time_ms, 0);
    assert_eq!(s.total_time_ms, 0);
    assert_eq!(s.pred_only_time_ms, 0);
    assert_eq!(s.num_preds_evaled, 0);
    assert_eq!(s.num_plans_considered, 0);
}

#[test]
fn atoms_enumerated_in_order() {
    let atom = |name: &str| PredNode::Atom(Atom::new(name.to_string(), RoaringBitmap::new()));
    let tree = PredNode::And(vec![
        atom("a"),
        PredNode::Or(vec![atom("b"), PredNode::And(vec![atom("c"), atom("d")])]),
    ]);
    let names: Vec<String> =
        tree.get_all_atoms().iter().map(|a| a.fingerprint.clone()).collect();
    assert_eq!(names, vec!["a", "b", "c", "d"]);
}

#[test]
fn estimate_selectivities_fills_defaults() {
    let atom = |name: &str| PredNode::Atom(Atom::new(name.to_string(), RoaringBitmap::new()));
    let tree = PredNode::And(vec![atom("a"), atom("b")]);
    let mut sels = StatsMap::new();
    sels.insert("a".to_string(), 120000);
    estimate_selectivities(&tree, &mut sels);
    assert_eq!(sels.get("a"), Some(120000));
    assert_eq!(sels.get("b"), Some(SEL_DEFAULT));
}
