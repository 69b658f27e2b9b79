use vstd::prelude::*;
use vstd::multiset::Multiset;
use vstd::arithmetic::div_mod::{lemma_div_is_ordered, lemma_div_multiples_vanish};
use vstd::arithmetic::mul::lemma_mul_inequality;
use crate::params::{ApproxOptType, ExecParams};
use crate::plan::{plan_atoms, plan_atoms_from, plan_holds, plan_matches_tree, plan_wf_for, Plan};
use crate::selmap::{StatsMap, SEL_DEFAULT, SEL_SCALE};
use crate::stats::{clock_elapsed_ms, clock_now, lemma_sat_add_nat_chain, sat_add_nat, ExecStats};
use crate::str_util::{lemma_lex_lt_asym, lemma_lex_lt_trans, lex_lt, str_lex_lt};
use crate::tree::{atoms_from, node_atoms, node_holds, tree_wf, Atom, AtomModel, PredNode};

verus! {

/// Failures the planner reports.
#[derive(Clone, Copy, PartialEq, Eq, Structural, Debug)]
pub enum EngineError {
    /// Empty or singleton AND/OR, or a directly nested same operator.
    MalformedTree,
    /// The requested planner strategy name is not one of the defined ones.
    UnknownPlannerType,
}

/// Fixed-point precision of rank values: 2^40.
pub const RANK_PREC: u128 = 1099511627776;

/// A planned subtree together with the numbers the orderings read: the
/// composed selectivity and expected cost of the subtree, the rank the parent
/// orders by, and the fingerprint key that breaks ties.
pub struct Scored {
    pub plan: Plan,
    pub sel: u64,
    pub cost: u64,
    pub rank: u128,
    pub key: String,
}

pub open spec fn scored_inv(s: Scored) -> bool {
    s.sel <= SEL_SCALE && 1 <= s.cost
}

pub open spec fn all_scored_inv(s: Seq<Scored>) -> bool {
    forall|i: int| 0 <= i < s.len() ==> scored_inv(#[trigger] s[i])
}

/// Strict planner order: higher rank first, ties by lower cost, remaining
/// ties by fingerprint key.
pub open spec fn scored_lt(a: Scored, b: Scored) -> bool {
    a.rank > b.rank || (a.rank == b.rank && (a.cost < b.cost || (a.cost == b.cost && lex_lt(
        a.key@,
        b.key@,
    ))))
}

pub open spec fn sorted_by_rank(s: Seq<Scored>) -> bool {
    forall|i: int| 0 <= i < s.len() - 1 ==> !scored_lt(#[trigger] s[i + 1], s[i])
}

proof fn lemma_scored_lt_trans(a: Scored, b: Scored, c: Scored)
    requires
        scored_lt(a, b),
        scored_lt(b, c),
    ensures
        scored_lt(a, c),
{
    if a.rank == b.rank && b.rank == c.rank && a.cost == b.cost && b.cost == c.cost {
        lemma_lex_lt_trans(a.key@, b.key@, c.key@);
    }
}

proof fn lemma_scored_lt_irrefl(a: Scored)
    ensures
        !scored_lt(a, a),
{
    lemma_lex_lt_asym(a.key@, a.key@);
}

fn scored_before(a: &Scored, b: &Scored) -> (r: bool)
    ensures
        r == scored_lt(*a, *b),
{
    if a.rank > b.rank {
        true
    } else if a.rank == b.rank {
        if a.cost < b.cost {
            true
        } else if a.cost == b.cost {
            str_lex_lt(a.key.as_str(), b.key.as_str())
        } else {
            false
        }
    } else {
        false
    }
}

/// The rank `num / cost` in fixed point.
fn rank_of(num: u64, cost: u64) -> (r: u128)
    requires
        num <= SEL_SCALE,
        1 <= cost,
    ensures
        r as int == (num as int * RANK_PREC as int) / cost as int,
{
    proof {
        lemma_mul_inequality(num as int, SEL_SCALE as int, RANK_PREC as int);
    }
    (num as u128 * RANK_PREC) / (cost as u128)
}

/// The product of two fractions in parts per million, rounded down.
fn mul_ppm(a: u64, b: u64) -> (r: u64)
    requires
        a <= SEL_SCALE,
        b <= SEL_SCALE,
    ensures
        r as int == (a as int * b as int) / (SEL_SCALE as int),
        r <= SEL_SCALE,
{
    proof {
        lemma_mul_inequality(a as int, SEL_SCALE as int, b as int);
        lemma_mul_inequality(b as int, SEL_SCALE as int, SEL_SCALE as int);
        lemma_div_is_ordered(
            a as int * b as int,
            SEL_SCALE as int * b as int,
            SEL_SCALE as int,
        );
        lemma_div_multiples_vanish(b as int, SEL_SCALE as int);
    }
    ((a as u128 * b as u128) / (SEL_SCALE as u128)) as u64
}

/// A cost scaled by a fraction in parts per million, rounded down.
fn mul_frac(cost: u64, frac: u64) -> (r: u64)
    requires
        frac <= SEL_SCALE,
    ensures
        r <= cost,
{
    proof {
        lemma_mul_inequality(frac as int, SEL_SCALE as int, cost as int);
        lemma_mul_inequality(cost as int, u64::MAX as int, SEL_SCALE as int);
        lemma_div_is_ordered(
            cost as int * frac as int,
            SEL_SCALE as int * cost as int,
            SEL_SCALE as int,
        );
        lemma_div_multiples_vanish(cost as int, SEL_SCALE as int);
        assert(cost as int * frac as int == frac as int * cost as int);
    }
    ((cost as u128 * frac as u128) / (SEL_SCALE as u128)) as u64
}

fn sat_add_u64(a: u64, b: u64) -> (r: u64)
    ensures
        r == if a + b <= u64::MAX {
            (a + b) as u64
        } else {
            u64::MAX
        },
{
    if a <= u64::MAX - b {
        a + b
    } else {
        u64::MAX
    }
}

/// The recorded selectivity of a fingerprint, clamped to one; the structural
/// default 0.5 when nothing is recorded.
pub open spec fn sel_of(m: Map<Seq<char>, u64>, fp: Seq<char>) -> u64 {
    if m.contains_key(fp) {
        if m[fp] <= SEL_SCALE {
            m[fp]
        } else {
            SEL_SCALE
        }
    } else {
        SEL_DEFAULT
    }
}

/// The recorded cost of a fingerprint, at least one; cost 1.0 when nothing is
/// recorded.
pub open spec fn cost_of(m: Map<Seq<char>, u64>, fp: Seq<char>) -> u64 {
    if m.contains_key(fp) {
        if m[fp] >= 1 {
            m[fp]
        } else {
            1
        }
    } else {
        SEL_SCALE
    }
}

pub fn sel_lookup(m: &StatsMap, fp: &str) -> (r: u64)
    ensures
        r == sel_of(m@, fp@),
        r <= SEL_SCALE,
{
    match m.get(fp) {
        Some(v) => if v <= SEL_SCALE {
            v
        } else {
            SEL_SCALE
        },
        None => SEL_DEFAULT,
    }
}

pub fn cost_lookup(m: &StatsMap, fp: &str) -> (r: u64)
    ensures
        r == cost_of(m@, fp@),
        1 <= r,
{
    match m.get(fp) {
        Some(v) => if v >= 1 {
            v
        } else {
            1
        },
        None => SEL_SCALE,
    }
}

/// Give every atom of the tree that has no measured selectivity the
/// structural default 0.5; measured entries are kept untouched.
#[verifier::loop_isolation(false)]
pub fn estimate_selectivities(node: &PredNode, sels: &mut StatsMap)
    ensures
        forall|k: Seq<char>|
            #[trigger] old(sels)@.contains_key(k) ==> final(sels)@.contains_key(k)
                && final(sels)@[k] == old(sels)@[k],
        forall|i: int|
            0 <= i < node_atoms(*node).len() ==> final(sels)@.contains_key(
                (#[trigger] node_atoms(*node)[i]).fp,
            ) && (!old(sels)@.contains_key(node_atoms(*node)[i].fp) ==> final(sels)@[node_atoms(
                *node,
            )[i].fp] == SEL_DEFAULT),
        forall|k: Seq<char>|
            #[trigger] final(sels)@.contains_key(k) ==> old(sels)@.contains_key(k)
                || (final(sels)@[k] == SEL_DEFAULT && (exists|i: int|
                0 <= i < node_atoms(*node).len() && (#[trigger] node_atoms(*node)[i]).fp == k)),
{
    let ghost sels0 = sels@;
    let atoms = node.get_all_atoms();
    let mut i: usize = 0;
    while i < atoms.len()
        invariant
            0 <= i <= atoms@.len(),
            forall|k: Seq<char>|
                #[trigger] sels0.contains_key(k) ==> sels@.contains_key(k) && sels@[k] == sels0[k],
            forall|k: Seq<char>|
                #[trigger] sels@.contains_key(k) ==> sels0.contains_key(k) || (sels@[k]
                    == SEL_DEFAULT && (exists|j: int|
                    0 <= j < i && (#[trigger] node_atoms(*node)[j]).fp == k)),
            forall|j: int|
                0 <= j < i ==> sels@.contains_key((#[trigger] node_atoms(*node)[j]).fp) && (
                !sels0.contains_key(node_atoms(*node)[j].fp) ==> sels@[node_atoms(*node)[j].fp]
                    == SEL_DEFAULT),
        decreases atoms@.len() - i,
    {
        let a = atoms[i];
        proof {
            assert(atoms@.map_values(|x: &Atom| x.model())[i as int] == node_atoms(*node)[i as int]);
            assert(a.model().fp == node_atoms(*node)[i as int].fp);
        }
        match sels.get(a.fingerprint.as_str()) {
            Some(_) => {},
            None => {
                let ghost before = sels@;
                sels.insert(a.fingerprint.clone(), SEL_DEFAULT);
                proof {
                    assert(sels@ == before.insert(a.fingerprint@, SEL_DEFAULT));
                    assert forall|k: Seq<char>| sels0.contains_key(k) implies
                        sels@.contains_key(k) && sels@[k] == sels0[k] by {
                        assert(before.contains_key(k));
                        assert(k != a.fingerprint@);
                    }
                    assert forall|j: int| 0 <= j < i + 1 implies sels@.contains_key(
                        (#[trigger] node_atoms(*node)[j]).fp,
                    ) && (!sels0.contains_key(node_atoms(*node)[j].fp) ==> sels@[node_atoms(
                        *node,
                    )[j].fp] == SEL_DEFAULT) by {
                        let fpj = node_atoms(*node)[j].fp;
                        if j < i {
                            assert(before.contains_key(fpj));
                        }
                    }
                }
            },
        }
        i += 1;
    }
}

/// Every child of the node is a leaf.
pub open spec fn all_atom_children(cs: Seq<PredNode>) -> bool {
    forall|j: int| 0 <= j < cs.len() ==> (#[trigger] cs[j]) is Atom
}

/// The single-atom steps the children become, in the children's order.
pub open spec fn atoms_as_steps(cs: Seq<PredNode>) -> Seq<Plan> {
    cs.map_values(|c: PredNode| Plan::EvalAtom(c->Atom_0))
}

/// The plans of a scored sequence, in order.
pub open spec fn plans_of(s: Seq<Scored>) -> Seq<Plan> {
    s.map_values(|e: Scored| e.plan)
}

/// The fixed-point rank the planner reads off an atom's statistics: under
/// AND `(1 - sel) / cost`, under OR `sel / cost`.
pub open spec fn atom_rank(
    sels: Map<Seq<char>, u64>,
    costs: Map<Seq<char>, u64>,
    fp: Seq<char>,
    and_mode: bool,
) -> int {
    ((if and_mode {
        (SEL_SCALE - sel_of(sels, fp)) as int
    } else {
        sel_of(sels, fp) as int
    }) * RANK_PREC as int) / cost_of(costs, fp) as int
}

/// The planner's strict order between two atoms, read off the statistics:
/// higher rank first, ties by lower cost, remaining ties by fingerprint.
pub open spec fn atom_step_lt(
    sels: Map<Seq<char>, u64>,
    costs: Map<Seq<char>, u64>,
    a: Seq<char>,
    b: Seq<char>,
    and_mode: bool,
) -> bool {
    atom_rank(sels, costs, a, and_mode) > atom_rank(sels, costs, b, and_mode) || (atom_rank(
        sels,
        costs,
        a,
        and_mode,
    ) == atom_rank(sels, costs, b, and_mode) && (cost_of(costs, a) < cost_of(costs, b) || (
    cost_of(costs, a) == cost_of(costs, b) && lex_lt(a, b))))
}

/// The steps are single atoms standing in the planner's rank order.
pub open spec fn steps_rank_ordered(
    ss: Seq<Plan>,
    sels: Map<Seq<char>, u64>,
    costs: Map<Seq<char>, u64>,
    and_mode: bool,
) -> bool {
    (forall|i: int| 0 <= i < ss.len() ==> (#[trigger] ss[i]) is EvalAtom) && (forall|i: int|
        0 <= i < ss.len() - 1 ==> !atom_step_lt(
            sels,
            costs,
            (#[trigger] ss[i + 1])->EvalAtom_0.fingerprint@,
            ss[i]->EvalAtom_0.fingerprint@,
            and_mode,
        ))
}

/// Reordering scored steps reorders, but never loses or duplicates, their
/// plans.
proof fn lemma_perm_plans(s1: Seq<Scored>, s2: Seq<Scored>)
    requires
        s1.to_multiset() == s2.to_multiset(),
    ensures
        plans_of(s1).to_multiset() == plans_of(s2).to_multiset(),
    decreases s1.len(),
{
    broadcast use vstd::seq_lib::group_to_multiset_ensures;

    if s1.len() == 0 {
        assert(s2.to_multiset().len() == 0);
        assert(s2.len() == 0);
        assert(plans_of(s1) =~= plans_of(s2));
    } else {
        let e = s1[0];
        assert(s1.contains(e));
        assert(s1.to_multiset().count(e) > 0);
        assert(s2.to_multiset().count(e) > 0);
        assert(s2.contains(e));
        let j = choose|j: int| 0 <= j < s2.len() && s2[j] == e;
        assert(s1.remove(0).to_multiset() =~= s2.remove(j).to_multiset());
        lemma_perm_plans(s1.remove(0), s2.remove(j));
        assert(plans_of(s1.remove(0)) =~= plans_of(s1).remove(0));
        assert(plans_of(s2.remove(j)) =~= plans_of(s2).remove(j));
        assert(plans_of(s1).to_multiset() =~= plans_of(s1).remove(0).to_multiset().insert(
            plans_of(s1)[0],
        ));
        assert(plans_of(s2).to_multiset() =~= plans_of(s2).remove(j).to_multiset().insert(
            plans_of(s2)[j],
        ));
        assert(plans_of(s1)[0] == e.plan);
        assert(plans_of(s2)[j] == e.plan);
    }
}

/// The atoms of the planned steps `s[i..]`, in step order.
pub open spec fn scored_atoms_from(s: Seq<Scored>, i: int) -> Seq<AtomModel>
    decreases s.len() - i,
{
    if i < 0 || i >= s.len() {
        Seq::empty()
    } else {
        plan_atoms(s[i].plan) + scored_atoms_from(s, i + 1)
    }
}

proof fn lemma_scored_atoms_shift(s: Seq<Scored>, i: int)
    requires
        0 <= i,
        s.len() > 0,
    ensures
        scored_atoms_from(s, i + 1) == scored_atoms_from(s.drop_first(), i),
    decreases s.len() - i,
{
    if i + 1 < s.len() {
        lemma_scored_atoms_shift(s, i + 1);
        assert(s.drop_first()[i] == s[i + 1]);
    }
    assert(scored_atoms_from(s, i + 1) =~= scored_atoms_from(s.drop_first(), i));
}

proof fn lemma_scored_atoms_remove(s: Seq<Scored>, j: int)
    requires
        0 <= j < s.len(),
    ensures
        scored_atoms_from(s, 0).to_multiset() == plan_atoms(s[j].plan).to_multiset().add(
            scored_atoms_from(s.remove(j), 0).to_multiset(),
        ),
    decreases j,
{
    broadcast use vstd::seq_lib::lemma_multiset_commutative;

    if j == 0 {
        lemma_scored_atoms_shift(s, 0);
        assert(s.remove(0) =~= s.drop_first());
        assert(scored_atoms_from(s, 0) == plan_atoms(s[0].plan) + scored_atoms_from(s, 1));
        assert((plan_atoms(s[0].plan) + scored_atoms_from(s, 1)).to_multiset() =~= plan_atoms(
            s[0].plan,
        ).to_multiset().add(scored_atoms_from(s, 1).to_multiset()));
    } else {
        lemma_scored_atoms_remove(s.drop_first(), j - 1);
        lemma_scored_atoms_shift(s, 0);
        lemma_scored_atoms_shift(s.remove(j), 0);
        assert(s.remove(j).drop_first() =~= s.drop_first().remove(j - 1));
        assert(s.remove(j)[0] == s[0]);
        assert(s.drop_first()[j - 1] == s[j]);
        let a0 = plan_atoms(s[0].plan).to_multiset();
        let aj = plan_atoms(s[j].plan).to_multiset();
        let rest = scored_atoms_from(s.drop_first().remove(j - 1), 0).to_multiset();
        assert(scored_atoms_from(s, 0).to_multiset() =~= a0.add(
            scored_atoms_from(s.drop_first(), 0).to_multiset(),
        ));
        assert(scored_atoms_from(s.remove(j), 0).to_multiset() =~= a0.add(rest));
        assert(a0.add(aj.add(rest)) =~= aj.add(a0.add(rest)));
    }
}

/// Reordering the steps reorders, but never loses or duplicates, their atoms.
proof fn lemma_scored_atoms_perm(s1: Seq<Scored>, s2: Seq<Scored>)
    requires
        s1.to_multiset() == s2.to_multiset(),
    ensures
        scored_atoms_from(s1, 0).to_multiset() == scored_atoms_from(s2, 0).to_multiset(),
    decreases s1.len(),
{
    broadcast use vstd::seq_lib::group_to_multiset_ensures;

    if s1.len() == 0 {
        assert(s2.to_multiset().len() == 0);
        assert(s2.len() == 0);
    } else {
        let e = s1[0];
        assert(s1.contains(e));
        assert(s1.to_multiset().count(e) > 0);
        assert(s2.to_multiset().count(e) > 0);
        assert(s2.contains(e));
        let j = choose|j: int| 0 <= j < s2.len() && s2[j] == e;
        lemma_scored_atoms_remove(s1, 0);
        lemma_scored_atoms_remove(s2, j);
        assert(s1.remove(0).to_multiset() =~= s2.remove(j).to_multiset());
        lemma_scored_atoms_perm(s1.remove(0), s2.remove(j));
    }
}

/// Steps positionally faithful to the children carry the children's atoms.
proof fn lemma_scored_atoms_pointwise_nodes(s: Seq<Scored>, ns: Seq<PredNode>, i: int)
    requires
        s.len() == ns.len(),
        0 <= i <= s.len(),
        forall|j: int|
            0 <= j < s.len() ==> plan_atoms(#[trigger] s[j].plan).to_multiset() == node_atoms(
                ns[j],
            ).to_multiset(),
    ensures
        scored_atoms_from(s, i).to_multiset() == atoms_from(ns, i).to_multiset(),
    decreases s.len() - i,
{
    broadcast use vstd::seq_lib::lemma_multiset_commutative;

    if 0 <= i < s.len() {
        lemma_scored_atoms_pointwise_nodes(s, ns, i + 1);
        assert(scored_atoms_from(s, i).to_multiset() =~= atoms_from(ns, i).to_multiset());
    } else {
        assert(scored_atoms_from(s, i) =~= atoms_from(ns, i));
    }
}

/// The extracted step list carries the scored steps' atoms unchanged.
proof fn lemma_scored_atoms_pointwise_steps(steps: Seq<Plan>, s: Seq<Scored>, i: int)
    requires
        steps.len() == s.len(),
        0 <= i <= s.len(),
        forall|j: int| 0 <= j < steps.len() ==> steps[j] == #[trigger] s[j].plan,
    ensures
        plan_atoms_from(steps, i) == scored_atoms_from(s, i),
    decreases s.len() - i,
{
    if 0 <= i < s.len() {
        lemma_scored_atoms_pointwise_steps(steps, s, i + 1);
    }
    assert(plan_atoms_from(steps, i) =~= scored_atoms_from(s, i));
}

/// Among two sequences holding the same steps, a row satisfies all of one
/// exactly when it satisfies all of the other, and likewise for any.
proof fn lemma_perm_holds(s1: Seq<Scored>, s2: Seq<Scored>, x: u32)
    requires
        s1.to_multiset() == s2.to_multiset(),
    ensures
        (forall|i: int| 0 <= i < s1.len() ==> plan_holds(#[trigger] s1[i].plan, x)) == (forall|
            i: int,
        | 0 <= i < s2.len() ==> plan_holds(#[trigger] s2[i].plan, x)),
        (exists|i: int| 0 <= i < s1.len() && plan_holds(#[trigger] s1[i].plan, x)) == (exists|
            i: int,
        | 0 <= i < s2.len() && plan_holds(#[trigger] s2[i].plan, x)),
{
    broadcast use vstd::seq_lib::group_to_multiset_ensures;

    assert forall|j: int, e: Scored| 0 <= j < s2.len() && s2[j] == e implies s1.contains(e) by {
        assert(s2.contains(e));
        assert(s2.to_multiset().count(e) > 0);
        assert(s1.to_multiset().count(e) > 0);
    }
    assert forall|j: int, e: Scored| 0 <= j < s1.len() && s1[j] == e implies s2.contains(e) by {
        assert(s1.contains(e));
        assert(s1.to_multiset().count(e) > 0);
        assert(s2.to_multiset().count(e) > 0);
    }
    if forall|i: int| 0 <= i < s1.len() ==> plan_holds(#[trigger] s1[i].plan, x) {
        assert forall|j: int| 0 <= j < s2.len() implies plan_holds(#[trigger] s2[j].plan, x) by {
            assert(s1.contains(s2[j]));
            let i = choose|i: int| 0 <= i < s1.len() && s1[i] == s2[j];
            assert(plan_holds(s1[i].plan, x));
        }
    }
    if forall|i: int| 0 <= i < s2.len() ==> plan_holds(#[trigger] s2[i].plan, x) {
        assert forall|j: int| 0 <= j < s1.len() implies plan_holds(#[trigger] s1[j].plan, x) by {
            assert(s2.contains(s1[j]));
            let i = choose|i: int| 0 <= i < s2.len() && s2[i] == s1[j];
            assert(plan_holds(s2[i].plan, x));
        }
    }
    if exists|i: int| 0 <= i < s1.len() && plan_holds(#[trigger] s1[i].plan, x) {
        let i = choose|i: int| 0 <= i < s1.len() && plan_holds(#[trigger] s1[i].plan, x);
        assert(s2.contains(s1[i]));
        let j = choose|j: int| 0 <= j < s2.len() && s2[j] == s1[i];
        assert(plan_holds(s2[j].plan, x));
    }
    if exists|i: int| 0 <= i < s2.len() && plan_holds(#[trigger] s2[i].plan, x) {
        let i = choose|i: int| 0 <= i < s2.len() && plan_holds(#[trigger] s2[i].plan, x);
        assert(s1.contains(s2[i]));
        let j = choose|j: int| 0 <= j < s1.len() && s1[j] == s2[i];
        assert(plan_holds(s1[j].plan, x));
    }
}

/// Order the children by descending rank, ties by ascending cost then by
/// fingerprint key. Selection sort, so the order is deterministic.
#[verifier::loop_isolation(false)]
fn sort_by_rank(items: Vec<Scored>) -> (r: Vec<Scored>)
    ensures
        r@.to_multiset() == items@.to_multiset(),
        r@.len() == items@.len(),
        sorted_by_rank(r@),
        all_scored_inv(items@) ==> all_scored_inv(r@),
{
    proof {
        broadcast use vstd::seq_lib::group_to_multiset_ensures;
    }
    let mut rest = items;
    let mut out: Vec<Scored> = Vec::new();
    while rest.len() > 0
        invariant
            out@.to_multiset().add(rest@.to_multiset()) == items@.to_multiset(),
            out@.len() + rest@.len() == items@.len(),
            sorted_by_rank(out@),
            forall|k: int|
                0 <= k < rest@.len() && out@.len() > 0 ==> !scored_lt(
                    #[trigger] rest@[k],
                    out@.last(),
                ),
            all_scored_inv(items@) ==> all_scored_inv(out@) && all_scored_inv(rest@),
        decreases rest@.len(),
    {
        let mut mi: usize = 0;
        proof {
            lemma_scored_lt_irrefl(rest@[0]);
        }
        let mut k: usize = 1;
        while k < rest.len()
            invariant
                0 <= mi < k <= rest@.len(),
                forall|j: int| 0 <= j < k ==> !scored_lt(#[trigger] rest@[j], rest@[mi as int]),
            decreases rest@.len() - k,
        {
            if scored_before(&rest[k], &rest[mi]) {
                proof {
                    lemma_scored_lt_irrefl(rest@[k as int]);
                    assert forall|j: int| 0 <= j < k + 1 implies !scored_lt(
                        #[trigger] rest@[j],
                        rest@[k as int],
                    ) by {
                        if j < k && scored_lt(rest@[j], rest@[k as int]) {
                            lemma_scored_lt_trans(rest@[j], rest@[k as int], rest@[mi as int]);
                        }
                    }
                }
                mi = k;
            }
            k += 1;
        }
        let ghost rest_before = rest@;
        let m = rest.remove(mi);
        proof {
            assert(out@.to_multiset().add(rest_before.to_multiset()) == items@.to_multiset());
            assert(rest@.to_multiset() =~= rest_before.to_multiset().remove(m));
            assert(out@.push(m).to_multiset() =~= out@.to_multiset().insert(m));
            assert(rest_before.to_multiset().count(m) > 0);
            assert(out@.push(m).to_multiset().add(rest@.to_multiset()) =~= items@.to_multiset());
            assert forall|k2: int| 0 <= k2 < rest@.len() implies !scored_lt(
                #[trigger] rest@[k2],
                m,
            ) by {
                if k2 < mi {
                    assert(rest@[k2] == rest_before[k2]);
                } else {
                    assert(rest@[k2] == rest_before[k2 + 1]);
                }
            }
        }
        out.push(m);
    }
    out
}

/// Whether the batch with gain `g1` per cost `c1` scores strictly better
/// than one with gain `g2` per cost `c2`.
fn gain_per_cost_better(g1: u64, c1: u64, g2: u64, c2: u64) -> (r: bool)
    ensures
        r == (g1 as int * c2 as int > g2 as int * c1 as int),
{
    proof {
        lemma_mul_inequality(g1 as int, u64::MAX as int, c2 as int);
        lemma_mul_inequality(g2 as int, u64::MAX as int, c1 as int);
        lemma_mul_inequality(c2 as int, u64::MAX as int, u64::MAX as int);
        lemma_mul_inequality(c1 as int, u64::MAX as int, u64::MAX as int);
    }
    (g1 as u128) * (c2 as u128) > (g2 as u128) * (c1 as u128)
}

/// Pick the best disjunctive batch among the remaining children: every single
/// child and every pair is scored by gain per cost, the gain of a batch being
/// one minus the product of its members' miss rates; ties fall back to the
/// fingerprint key of the batch's first member.
#[verifier::loop_isolation(false)]
fn bdc_best_batch(rest: &Vec<Scored>) -> (r: (usize, Option<usize>))
    requires
        rest@.len() > 0,
        all_scored_inv(rest@),
    ensures
        r.0 < rest@.len(),
        r.1 is Some ==> r.1->0 < rest@.len() && r.1->0 != r.0,
{
    let mut best_i: usize = 0;
    let mut best_j: Option<usize> = None;
    let mut best_gain: u64 = rest[0].sel;
    let mut best_cost: u64 = rest[0].cost;
    let mut k: usize = 1;
    while k < rest.len()
        invariant
            1 <= k <= rest@.len(),
            best_i < rest@.len(),
            best_j is None,
            1 <= best_cost,
        decreases rest@.len() - k,
    {
        let g = rest[k].sel;
        let c = rest[k].cost;
        if gain_per_cost_better(g, c, best_gain, best_cost) || (!gain_per_cost_better(
            best_gain,
            best_cost,
            g,
            c,
        ) && str_lex_lt(rest[k].key.as_str(), rest[best_i].key.as_str())) {
            best_i = k;
            best_gain = g;
            best_cost = c;
        }
        k += 1;
    }
    let mut a: usize = 0;
    while a < rest.len()
        invariant
            0 <= a <= rest@.len(),
            best_i < rest@.len(),
            best_j is Some ==> best_j->0 < rest@.len() && best_j->0 != best_i,
            1 <= best_cost,
        decreases rest@.len() - a,
    {
        let mut b: usize = a + 1;
        while b < rest.len()
            invariant
                a < b <= rest@.len(),
                best_i < rest@.len(),
                best_j is Some ==> best_j->0 < rest@.len() && best_j->0 != best_i,
                1 <= best_cost,
            decreases rest@.len() - b,
        {
            let miss = mul_ppm(SEL_SCALE - rest[a].sel, SEL_SCALE - rest[b].sel);
            let g = SEL_SCALE - miss;
            let c = sat_add_u64(rest[a].cost, rest[b].cost);
            if gain_per_cost_better(g, c, best_gain, best_cost) {
                best_i = a;
                best_j = Some(b);
                best_gain = g;
                best_cost = c;
            }
            b += 1;
        }
        a += 1;
    }
    (best_i, best_j)
}

/// Bottom-up disjunctive combining: repeatedly take the best-scoring batch of
/// remaining OR children — singles and pairs, by gain per cost — appending
/// each batch's members in rank order. The beam of partial plans is kept at
/// the single best batch per round.
#[verifier::loop_isolation(false)]
fn bdc_or_order(items: Vec<Scored>) -> (r: Vec<Scored>)
    requires
        all_scored_inv(items@),
    ensures
        r@.to_multiset() == items@.to_multiset(),
        r@.len() == items@.len(),
        all_scored_inv(r@),
{
    proof {
        broadcast use vstd::seq_lib::group_to_multiset_ensures;
    }
    let mut rest = items;
    let mut out: Vec<Scored> = Vec::new();
    while rest.len() > 0
        invariant
            out@.to_multiset().add(rest@.to_multiset()) == items@.to_multiset(),
            out@.len() + rest@.len() == items@.len(),
            all_scored_inv(out@),
            all_scored_inv(rest@),
        decreases rest@.len(),
    {
        let picked = bdc_best_batch(&rest);
        match picked.1 {
            None => {
                let ghost rest_before = rest@;
                let m = rest.remove(picked.0);
                proof {
                    assert(rest@.to_multiset() =~= rest_before.to_multiset().remove(m));
                    assert(out@.push(m).to_multiset() =~= out@.to_multiset().insert(m));
                    assert(rest_before.to_multiset().count(m) > 0);
                    assert(out@.push(m).to_multiset().add(rest@.to_multiset())
                        =~= items@.to_multiset());
                    assert forall|k2: int| 0 <= k2 < rest@.len() implies scored_inv(
                        #[trigger] rest@[k2],
                    ) by {
                        if k2 < picked.0 {
                            assert(rest@[k2] == rest_before[k2]);
                        } else {
                            assert(rest@[k2] == rest_before[k2 + 1]);
                        }
                    }
                }
                out.push(m);
            },
            Some(j) => {
                let hi = if picked.0 > j {
                    picked.0
                } else {
                    j
                };
                let lo = if picked.0 > j {
                    j
                } else {
                    picked.0
                };
                let ghost rest_before = rest@;
                let x = rest.remove(hi);
                let ghost rest_mid = rest@;
                proof {
                    assert(rest_mid.to_multiset() =~= rest_before.to_multiset().remove(x));
                    assert(rest_before.to_multiset().count(x) > 0);
                    assert forall|k2: int| 0 <= k2 < rest_mid.len() implies scored_inv(
                        #[trigger] rest_mid[k2],
                    ) by {
                        if k2 < hi {
                            assert(rest_mid[k2] == rest_before[k2]);
                        } else {
                            assert(rest_mid[k2] == rest_before[k2 + 1]);
                        }
                    }
                }
                let y = rest.remove(lo);
                proof {
                    assert(rest@.to_multiset() =~= rest_mid.to_multiset().remove(y));
                    assert(rest_mid.to_multiset().count(y) > 0);
                    assert forall|k2: int| 0 <= k2 < rest@.len() implies scored_inv(
                        #[trigger] rest@[k2],
                    ) by {
                        if k2 < lo {
                            assert(rest@[k2] == rest_mid[k2]);
                        } else {
                            assert(rest@[k2] == rest_mid[k2 + 1]);
                        }
                    }
                    assert(out@.push(x).push(y).to_multiset() =~= out@.to_multiset().insert(
                        x,
                    ).insert(y));
                    assert(out@.push(y).push(x).to_multiset() =~= out@.to_multiset().insert(
                        x,
                    ).insert(y));
                    assert(out@.to_multiset().insert(x).insert(y).add(rest@.to_multiset())
                        =~= items@.to_multiset());
                }
                if scored_before(&x, &y) {
                    out.push(x);
                    out.push(y);
                } else {
                    out.push(y);
                    out.push(x);
                }
            },
        }
    }
    out
}

/// Order the children greedily: each step takes the child whose own cost plus
/// the cheapest single next child's cost over its survivors is least; ties
/// fall back to the fingerprint key.
#[verifier::loop_isolation(false)]
fn lookahead_order(items: Vec<Scored>) -> (r: Vec<Scored>)
    requires
        all_scored_inv(items@),
    ensures
        r@.to_multiset() == items@.to_multiset(),
        r@.len() == items@.len(),
        all_scored_inv(r@),
{
    proof {
        broadcast use vstd::seq_lib::group_to_multiset_ensures;
    }
    let mut rest = items;
    let mut out: Vec<Scored> = Vec::new();
    while rest.len() > 0
        invariant
            out@.to_multiset().add(rest@.to_multiset()) == items@.to_multiset(),
            out@.len() + rest@.len() == items@.len(),
            all_scored_inv(out@),
            all_scored_inv(rest@),
        decreases rest@.len(),
    {
        let mut best: usize = 0;
        let mut best_score: u128 = lookahead_score(&rest, 0);
        let mut k: usize = 1;
        while k < rest.len()
            invariant
                0 <= best < rest@.len(),
                1 <= k <= rest@.len(),
            decreases rest@.len() - k,
        {
            let sc = lookahead_score(&rest, k);
            if sc < best_score || (sc == best_score && str_lex_lt(
                rest[k].key.as_str(),
                rest[best].key.as_str(),
            )) {
                best = k;
                best_score = sc;
            }
            k += 1;
        }
        let ghost rest_before = rest@;
        let m = rest.remove(best);
        proof {
            assert(rest@.to_multiset() =~= rest_before.to_multiset().remove(m));
            assert(out@.push(m).to_multiset() =~= out@.to_multiset().insert(m));
            assert(rest_before.to_multiset().count(m) > 0);
            assert(out@.push(m).to_multiset().add(rest@.to_multiset()) =~= items@.to_multiset());
            assert forall|k2: int| 0 <= k2 < rest@.len() implies scored_inv(
                #[trigger] rest@[k2],
            ) by {
                if k2 < best {
                    assert(rest@[k2] == rest_before[k2]);
                } else {
                    assert(rest@[k2] == rest_before[k2 + 1]);
                }
            }
        }
        out.push(m);
    }
    out
}

/// The two-step lookahead score of evaluating child `i` first: its own cost
/// plus its selectivity times the cheapest other child's cost, in parts per
/// million of cost.
#[verifier::loop_isolation(false)]
fn lookahead_score(rest: &Vec<Scored>, i: usize) -> (r: u128)
    requires
        i < rest@.len(),
        all_scored_inv(rest@),
{
    let mut best_next: u64 = 0;
    let mut k: usize = 0;
    while k < rest.len()
        invariant
            0 <= k <= rest@.len(),
        decreases rest@.len() - k,
    {
        if k != i {
            let c = rest[k].cost;
            if best_next == 0 || c < best_next {
                best_next = c;
            }
        }
        k += 1;
    }
    proof {
        lemma_mul_inequality(rest@[i as int].cost as int, u64::MAX as int, SEL_SCALE as int);
        lemma_mul_inequality(rest@[i as int].sel as int, SEL_SCALE as int, best_next as int);
        lemma_mul_inequality(best_next as int, u64::MAX as int, SEL_SCALE as int);
    }
    (rest[i].cost as u128) * (SEL_SCALE as u128) + (rest[i].sel as u128) * (best_next as u128)
}

/// Score an ordering candidate in which child `i` of `rest` runs first and
/// the rest follow: its cost plus its selectivity times the other children's
/// total cost, in parts per million of cost.
#[verifier::loop_isolation(false)]
fn tdacb_score(rest: &Vec<Scored>, i: usize) -> (r: u128)
    requires
        i < rest@.len(),
        all_scored_inv(rest@),
{
    let mut others: u64 = 0;
    let mut k: usize = 0;
    while k < rest.len()
        invariant
            0 <= k <= rest@.len(),
        decreases rest@.len() - k,
    {
        if k != i {
            others = sat_add_u64(others, rest[k].cost);
        }
        k += 1;
    }
    proof {
        lemma_mul_inequality(rest@[i as int].cost as int, u64::MAX as int, SEL_SCALE as int);
        lemma_mul_inequality(rest@[i as int].sel as int, SEL_SCALE as int, others as int);
        lemma_mul_inequality(others as int, u64::MAX as int, SEL_SCALE as int);
    }
    (rest[i].cost as u128) * (SEL_SCALE as u128) + (rest[i].sel as u128) * (others as u128)
}

/// Top-down cost-based search over candidate step orders: one candidate per
/// child (that child first, the others in rank order), each scored by its
/// expected evaluation cost and counted in `num_plans_considered`; the
/// best-scoring candidate is kept. The search space holds every ordering of
/// the node, but no rewrite that would copy an atom into several branches:
/// a plan must hold each atom of the tree exactly once.
#[verifier::loop_isolation(false)]
fn tdacb_order(items: Vec<Scored>, stats: &mut ExecStats) -> (r: Vec<Scored>)
    requires
        all_scored_inv(items@),
        items@.len() > 0,
    ensures
        r@.to_multiset() == items@.to_multiset(),
        r@.len() == items@.len(),
        all_scored_inv(r@),
        final(stats).num_plans_considered == sat_add_nat(
            old(stats).num_plans_considered,
            items@.len(),
        ),
        final(stats).num_preds_evaled == old(stats).num_preds_evaled,
        final(stats).plan_time_ms == old(stats).plan_time_ms,
        final(stats).total_time_ms == old(stats).total_time_ms,
        final(stats).pred_only_time_ms == old(stats).pred_only_time_ms,
{
    proof {
        broadcast use vstd::seq_lib::group_to_multiset_ensures;
    }
    let mut rest = items;
    let mut best: usize = 0;
    let mut best_score: u128 = tdacb_score(&rest, 0);
    stats.note_plan_considered();
    let mut k: usize = 1;
    while k < rest.len()
        invariant
            0 <= best < rest@.len(),
            1 <= k <= rest@.len(),
            rest@.len() == items@.len(),
            stats.num_plans_considered == sat_add_nat(
                old(stats).num_plans_considered,
                k as nat,
            ),
            stats.num_preds_evaled == old(stats).num_preds_evaled,
            stats.plan_time_ms == old(stats).plan_time_ms,
            stats.total_time_ms == old(stats).total_time_ms,
            stats.pred_only_time_ms == old(stats).pred_only_time_ms,
        decreases rest@.len() - k,
    {
        let sc = tdacb_score(&rest, k);
        proof {
            lemma_sat_add_nat_chain(
                old(stats).num_plans_considered,
                k as nat,
                1,
            );
        }
        stats.note_plan_considered();
        if sc < best_score || (sc == best_score && str_lex_lt(
            rest[k].key.as_str(),
            rest[best].key.as_str(),
        )) {
            best = k;
            best_score = sc;
        }
        k += 1;
    }
    let ghost rest_before = rest@;
    let first = rest.remove(best);
    proof {
        assert(rest@.to_multiset() =~= rest_before.to_multiset().remove(first));
        assert(rest_before.to_multiset().count(first) > 0);
        assert forall|k2: int| 0 <= k2 < rest@.len() implies scored_inv(#[trigger] rest@[k2]) by {
            if k2 < best {
                assert(rest@[k2] == rest_before[k2]);
            } else {
                assert(rest@[k2] == rest_before[k2 + 1]);
            }
        }
    }
    let tail = sort_by_rank(rest);
    let mut out: Vec<Scored> = Vec::new();
    proof {
        assert(scored_inv(first));
        assert forall|e: Scored| Seq::<Scored>::empty().to_multiset().count(e) == 0 by {
            assert(!Seq::<Scored>::empty().contains(e));
        }
        assert(Seq::<Scored>::empty().to_multiset() =~= Multiset::<Scored>::empty());
    }
    out.push(first);
    proof {
        assert(out@ =~= Seq::<Scored>::empty().push(first));
        assert(out@.to_multiset() =~= Multiset::<Scored>::empty().insert(first));
        assert(out@.to_multiset().add(tail@.to_multiset()) =~= items@.to_multiset());
    }
    let mut tail_vec = tail;
    while tail_vec.len() > 0
        invariant
            out@.to_multiset().add(tail_vec@.to_multiset()) == items@.to_multiset(),
            out@.len() + tail_vec@.len() == items@.len(),
            all_scored_inv(out@),
            all_scored_inv(tail_vec@),
        decreases tail_vec@.len(),
    {
        let ghost tv_before = tail_vec@;
        let e = tail_vec.remove(0);
        proof {
            assert(tail_vec@.to_multiset() =~= tv_before.to_multiset().remove(e));
            assert(out@.push(e).to_multiset() =~= out@.to_multiset().insert(e));
            assert(tv_before.to_multiset().count(e) > 0);
            assert(out@.push(e).to_multiset().add(tail_vec@.to_multiset()) =~= items@.to_multiset());
            assert forall|k2: int| 0 <= k2 < tail_vec@.len() implies scored_inv(
                #[trigger] tail_vec@[k2],
            ) by {
                assert(tail_vec@[k2] == tv_before[k2 + 1]);
            }
        }
        out.push(e);
    }
    out
}


/// Positionally equal steps satisfy the same all/any facts.
proof fn lemma_pointwise_steps(s: Seq<Plan>, t: Seq<Scored>, x: u32)
    requires
        s.len() == t.len(),
        forall|i: int| 0 <= i < s.len() ==> s[i] == #[trigger] t[i].plan,
    ensures
        (forall|i: int| 0 <= i < s.len() ==> plan_holds(#[trigger] s[i], x)) == (forall|i: int|
            0 <= i < t.len() ==> plan_holds(#[trigger] t[i].plan, x)),
        (exists|i: int| 0 <= i < s.len() && plan_holds(#[trigger] s[i], x)) == (exists|i: int|
            0 <= i < t.len() && plan_holds(#[trigger] t[i].plan, x)),
{
    if forall|i: int| 0 <= i < s.len() ==> plan_holds(#[trigger] s[i], x) {
        assert forall|i: int| 0 <= i < t.len() implies plan_holds(#[trigger] t[i].plan, x) by {
            assert(plan_holds(s[i], x));
        }
    }
    if forall|i: int| 0 <= i < t.len() ==> plan_holds(#[trigger] t[i].plan, x) {
        assert forall|i: int| 0 <= i < s.len() implies plan_holds(#[trigger] s[i], x) by {
            assert(plan_holds(t[i].plan, x));
        }
    }
    if exists|i: int| 0 <= i < s.len() && plan_holds(#[trigger] s[i], x) {
        let i = choose|i: int| 0 <= i < s.len() && plan_holds(#[trigger] s[i], x);
        assert(plan_holds(t[i].plan, x));
    }
    if exists|i: int| 0 <= i < t.len() && plan_holds(#[trigger] t[i].plan, x) {
        let i = choose|i: int| 0 <= i < t.len() && plan_holds(#[trigger] t[i].plan, x);
        assert(plan_holds(s[i], x));
    }
}

/// Steps that are each faithful to the matching child satisfy the same
/// all/any facts as the children.
proof fn lemma_pointwise_children(t: Seq<Scored>, ns: Seq<PredNode>, x: u32)
    requires
        t.len() == ns.len(),
        forall|i: int| 0 <= i < t.len() ==> plan_matches_tree(#[trigger] t[i].plan, ns[i]),
    ensures
        (forall|i: int| 0 <= i < t.len() ==> plan_holds(#[trigger] t[i].plan, x)) == (forall|
            i: int,
        | 0 <= i < ns.len() ==> node_holds(#[trigger] ns[i], x)),
        (exists|i: int| 0 <= i < t.len() && plan_holds(#[trigger] t[i].plan, x)) == (exists|
            i: int,
        | 0 <= i < ns.len() && node_holds(#[trigger] ns[i], x)),
{
    assert forall|i: int| 0 <= i < t.len() implies (plan_holds(#[trigger] t[i].plan, x)
        == node_holds(ns[i], x)) by {
        assert(plan_matches_tree(t[i].plan, ns[i]));
    }
    if forall|i: int| 0 <= i < t.len() ==> plan_holds(#[trigger] t[i].plan, x) {
        assert forall|i: int| 0 <= i < ns.len() implies node_holds(#[trigger] ns[i], x) by {
            assert(plan_holds(t[i].plan, x));
        }
    }
    if forall|i: int| 0 <= i < ns.len() ==> node_holds(#[trigger] ns[i], x) {
        assert forall|i: int| 0 <= i < t.len() implies plan_holds(#[trigger] t[i].plan, x) by {
            assert(node_holds(ns[i], x));
        }
    }
    if exists|i: int| 0 <= i < t.len() && plan_holds(#[trigger] t[i].plan, x) {
        let i = choose|i: int| 0 <= i < t.len() && plan_holds(#[trigger] t[i].plan, x);
        assert(node_holds(ns[i], x));
    }
    if exists|i: int| 0 <= i < ns.len() && node_holds(#[trigger] ns[i], x) {
        let i = choose|i: int| 0 <= i < ns.len() && node_holds(#[trigger] ns[i], x);
        assert(plan_holds(t[i].plan, x));
    }
}

/// The depth passed to a node's children: one deeper, capped at the type's
/// largest value.
pub open spec fn next_depth_of(depth: u64) -> u64 {
    if depth < u64::MAX {
        (depth + 1) as u64
    } else {
        depth
    }
}

/// How many candidate plans the top-down cost-based search scores while
/// planning this node and everything below it: one per child at every
/// AND/OR node it reorders within the depth bound, with OR nodes left
/// unordered when OR optimization is disabled.
pub open spec fn tdacb_considered(t: PredNode, or_opt_off: bool, depth: u64) -> nat
    decreases t, 0nat,
{
    match t {
        PredNode::Atom(_) => 0,
        PredNode::And(cs) => (if depth < 3 {
            cs@.len()
        } else {
            0
        }) + tdacb_considered_children(cs@, 0, or_opt_off, next_depth_of(depth)),
        PredNode::Or(cs) => (if !or_opt_off && depth < 3 {
            cs@.len()
        } else {
            0
        }) + tdacb_considered_children(cs@, 0, or_opt_off, next_depth_of(depth)),
    }
}

/// The candidates scored below the children `cs[i..]`.
pub open spec fn tdacb_considered_children(
    cs: Seq<PredNode>,
    i: int,
    or_opt_off: bool,
    depth: u64,
) -> nat
    decreases cs, cs.len() - i,
{
    if i < 0 || i >= cs.len() {
        0
    } else {
        tdacb_considered(cs[i], or_opt_off, depth) + tdacb_considered_children(
            cs,
            i + 1,
            or_opt_off,
            depth,
        )
    }
}

/// Plan every child and attach the rank the parent orders by: under AND the
/// rank is `(1 - sel) / cost`, under OR it is `sel / cost`.
#[verifier::loop_isolation(false)]
fn plan_children(
    cs: Vec<PredNode>,
    and_mode: bool,
    sels: &StatsMap,
    costs: &StatsMap,
    params: &ExecParams,
    depth: u64,
    stats: &mut ExecStats,
) -> (r: Vec<Scored>)
    requires
        forall|j: int| 0 <= j < cs@.len() ==> tree_wf(#[trigger] cs@[j]),
    ensures
        r@.len() == cs@.len(),
        forall|j: int|
            0 <= j < r@.len() ==> plan_matches_tree(#[trigger] r@[j].plan, cs@[j]),
        forall|j: int|
            0 <= j < r@.len() ==> plan_atoms(#[trigger] r@[j].plan).to_multiset() == node_atoms(
                cs@[j],
            ).to_multiset(),
        forall|j: int|
            0 <= j < r@.len() && (#[trigger] cs@[j]) is Atom ==> r@[j].plan == Plan::EvalAtom(
                cs@[j]->Atom_0,
            ) && r@[j].sel == sel_of(sels@, cs@[j]->Atom_0.fingerprint@) && r@[j].cost == cost_of(
                costs@,
                cs@[j]->Atom_0.fingerprint@,
            ) && r@[j].key@ == cs@[j]->Atom_0.fingerprint@ && r@[j].rank as int == atom_rank(
                sels@,
                costs@,
                cs@[j]->Atom_0.fingerprint@,
                and_mode,
            ),
        all_scored_inv(r@),
        params.approx_opt_type == ApproxOptType::Tdacb ==> final(stats).num_plans_considered
            == sat_add_nat(
            old(stats).num_plans_considered,
            tdacb_considered_children(cs@, 0, params.disable_or_opt, depth),
        ),
        params.approx_opt_type != ApproxOptType::Tdacb ==> final(stats).num_plans_considered
            == old(stats).num_plans_considered,
        final(stats).num_preds_evaled == old(stats).num_preds_evaled,
        final(stats).plan_time_ms == old(stats).plan_time_ms,
        final(stats).total_time_ms == old(stats).total_time_ms,
        final(stats).pred_only_time_ms == old(stats).pred_only_time_ms,
    decreases cs,
{
    let mut rest = cs;
    let mut out: Vec<Scored> = Vec::new();
    let ghost mut done: nat = 0;
    while rest.len() > 0
        invariant
            out@.len() + rest@.len() == cs@.len(),
            forall|j: int| 0 <= j < rest@.len() ==> rest@[j] == cs@[out@.len() + j],
            forall|j: int|
                0 <= j < out@.len() ==> plan_matches_tree(#[trigger] out@[j].plan, cs@[j]),
            forall|j: int|
                0 <= j < out@.len() ==> plan_atoms(#[trigger] out@[j].plan).to_multiset()
                    == node_atoms(cs@[j]).to_multiset(),
            forall|j: int|
                0 <= j < out@.len() && (#[trigger] cs@[j]) is Atom ==> out@[j].plan
                    == Plan::EvalAtom(cs@[j]->Atom_0) && out@[j].sel == sel_of(
                    sels@,
                    cs@[j]->Atom_0.fingerprint@,
                ) && out@[j].cost == cost_of(costs@, cs@[j]->Atom_0.fingerprint@) && out@[j].key@
                    == cs@[j]->Atom_0.fingerprint@ && out@[j].rank as int == atom_rank(
                    sels@,
                    costs@,
                    cs@[j]->Atom_0.fingerprint@,
                    and_mode,
                ),
            all_scored_inv(out@),
            params.approx_opt_type == ApproxOptType::Tdacb ==> stats.num_plans_considered
                == sat_add_nat(old(stats).num_plans_considered, done) && done
                + tdacb_considered_children(cs@, out@.len() as int, params.disable_or_opt, depth)
                == tdacb_considered_children(cs@, 0, params.disable_or_opt, depth),
            params.approx_opt_type != ApproxOptType::Tdacb ==> stats.num_plans_considered
                == old(stats).num_plans_considered,
            stats.num_preds_evaled == old(stats).num_preds_evaled,
            stats.plan_time_ms == old(stats).plan_time_ms,
            stats.total_time_ms == old(stats).total_time_ms,
            stats.pred_only_time_ms == old(stats).pred_only_time_ms,
        decreases rest@.len(),
    {
        let ghost rest_before = rest@;
        let ghost at = out@.len() as int;
        let child = rest.remove(0);
        proof {
            assert(child == cs@[at]);
            assert(decreases_to!(cs => cs@));
            assert(decreases_to!(cs@ => cs@[at]));
            assert(decreases_to!(cs => child));
            assert forall|j: int| 0 <= j < rest@.len() implies rest@[j] == cs@[at + 1 + j] by {
                assert(rest@[j] == rest_before[j + 1]);
            }
        }
        let ghost done_before = done;
        let s0 = plan_node(child, sels, costs, params, depth, stats);
        proof {
            if params.approx_opt_type == ApproxOptType::Tdacb {
                lemma_sat_add_nat_chain(
                    old(stats).num_plans_considered,
                    done_before,
                    tdacb_considered(cs@[at], params.disable_or_opt, depth),
                );
                done = done_before + tdacb_considered(cs@[at], params.disable_or_opt, depth);
            }
        }
        let num = if and_mode {
            SEL_SCALE - s0.sel
        } else {
            s0.sel
        };
        let rank = rank_of(num, s0.cost);
        let mut s = s0;
        s.rank = rank;
        out.push(s);
    }
    out
}

/// Pull the ordered steps out and compose the node's selectivity and expected
/// cost: under AND the survivor fraction shrinks by each step's selectivity,
/// under OR the remaining fraction shrinks by each step's miss rate.
#[verifier::loop_isolation(false)]
fn seq_plans(ordered: Vec<Scored>, and_mode: bool) -> (r: (Vec<Plan>, u64, u64, String))
    requires
        all_scored_inv(ordered@),
        ordered@.len() > 0,
    ensures
        r.0@.len() == ordered@.len(),
        forall|i: int| 0 <= i < r.0@.len() ==> r.0@[i] == ordered@[i].plan,
        r.1 <= SEL_SCALE,
        1 <= r.2,
{
    let key = ordered[0].key.clone();
    let mut rest = ordered;
    let mut steps: Vec<Plan> = Vec::new();
    let mut acc: u64 = SEL_SCALE;
    let mut cost_acc: u64 = 0;
    while rest.len() > 0
        invariant
            steps@.len() + rest@.len() == ordered@.len(),
            forall|j: int| 0 <= j < rest@.len() ==> rest@[j] == ordered@[steps@.len() + j],
            forall|i: int| 0 <= i < steps@.len() ==> steps@[i] == ordered@[i].plan,
            acc <= SEL_SCALE,
        decreases rest@.len(),
    {
        let ghost rest_before = rest@;
        let ghost at = steps@.len() as int;
        let e = rest.remove(0);
        proof {
            assert(e == ordered@[at]);
            assert(scored_inv(ordered@[at]));
            assert forall|j: int| 0 <= j < rest@.len() implies rest@[j] == ordered@[at + 1 + j] by {
                assert(rest@[j] == rest_before[j + 1]);
            }
        }
        cost_acc = sat_add_u64(cost_acc, mul_frac(e.cost, acc));
        let miss = if and_mode {
            e.sel
        } else {
            SEL_SCALE - e.sel
        };
        acc = mul_ppm(acc, miss);
        steps.push(e.plan);
    }
    let sel = if and_mode {
        acc
    } else {
        SEL_SCALE - acc
    };
    let cost = if cost_acc >= 1 {
        cost_acc
    } else {
        1
    };
    (steps, sel, cost, key)
}

/// Recursively plan one node: plan the children, order them by the active
/// strategy, and wrap them in the matching sequential step.
#[verifier::loop_isolation(false)]
fn plan_node(
    t: PredNode,
    sels: &StatsMap,
    costs: &StatsMap,
    params: &ExecParams,
    depth: u64,
    stats: &mut ExecStats,
) -> (r: Scored)
    requires
        tree_wf(t),
    ensures
        plan_matches_tree(r.plan, t),
        plan_atoms(r.plan).to_multiset() == node_atoms(t).to_multiset(),
        scored_inv(r),
        t is Atom ==> r.plan == Plan::EvalAtom(t->Atom_0) && r.sel == sel_of(
            sels@,
            t->Atom_0.fingerprint@,
        ) && r.cost == cost_of(costs@, t->Atom_0.fingerprint@) && r.key@
            == t->Atom_0.fingerprint@,
        t is And ==> r.plan is SeqAnd && r.plan->SeqAnd_0@.len() == t->And_0@.len(),
        t is Or ==> r.plan is SeqOr && r.plan->SeqOr_0@.len() == t->Or_0@.len(),
        t is And && all_atom_children(t->And_0@) ==> r.plan->SeqAnd_0@.to_multiset()
            == atoms_as_steps(t->And_0@).to_multiset(),
        t is Or && all_atom_children(t->Or_0@) ==> r.plan->SeqOr_0@.to_multiset()
            == atoms_as_steps(t->Or_0@).to_multiset(),
        (params.approx_opt_type == ApproxOptType::EvalPred || params.approx_opt_type
            == ApproxOptType::BDCWithBestD) && t is And && all_atom_children(t->And_0@)
            ==> steps_rank_ordered(r.plan->SeqAnd_0@, sels@, costs@, true),
        (params.approx_opt_type == ApproxOptType::EvalPred || params.approx_opt_type
            == ApproxOptType::OnePredLookahead) && !params.disable_or_opt && t is Or
            && all_atom_children(t->Or_0@) ==> steps_rank_ordered(
            r.plan->SeqOr_0@,
            sels@,
            costs@,
            false,
        ),
        params.approx_opt_type == ApproxOptType::Tdacb ==> final(stats).num_plans_considered
            == sat_add_nat(
            old(stats).num_plans_considered,
            tdacb_considered(t, params.disable_or_opt, depth),
        ),
        params.approx_opt_type != ApproxOptType::Tdacb ==> final(stats).num_plans_considered
            == old(stats).num_plans_considered,
        final(stats).num_preds_evaled == old(stats).num_preds_evaled,
        final(stats).plan_time_ms == old(stats).plan_time_ms,
        final(stats).total_time_ms == old(stats).total_time_ms,
        final(stats).pred_only_time_ms == old(stats).pred_only_time_ms,
    decreases t,
{
    match t {
        PredNode::Atom(a) => {
            let sel = sel_lookup(sels, a.fingerprint.as_str());
            let cost = cost_lookup(costs, a.fingerprint.as_str());
            let key = a.fingerprint.clone();
            let p = Plan::EvalAtom(a);
            proof {
                assert forall|x: u32| plan_holds(p, x) == node_holds(t, x) by {}
                assert(plan_atoms(p) =~= node_atoms(t));
            }
            Scored { plan: p, sel, cost, rank: 0, key }
        },
        PredNode::And(cs) => {
            let ghost cs0 = cs@;
            proof {
                assert(decreases_to!(t => t->And_0));
            }
            let next_depth = if depth < u64::MAX {
                depth + 1
            } else {
                depth
            };
            let scored = plan_children(cs, true, sels, costs, params, next_depth, stats);
            let ghost pre = scored@;
            let ordered = match params.approx_opt_type {
                ApproxOptType::EvalPred => sort_by_rank(scored),
                ApproxOptType::BDCWithBestD => sort_by_rank(scored),
                ApproxOptType::Tdacb => if depth < 3 {
                    tdacb_order(scored, stats)
                } else {
                    sort_by_rank(scored)
                },
                ApproxOptType::OnePredLookahead => lookahead_order(scored),
            };
            let ghost ord0 = ordered@;
            let parts = seq_plans(ordered, true);
            let (steps, sel_c, cost_c, key_c) = parts;
            let ghost steps0 = steps@;
            let p = Plan::SeqAnd(steps);
            proof {
                if params.approx_opt_type == ApproxOptType::Tdacb {
                    assert(next_depth == next_depth_of(depth));
                    lemma_sat_add_nat_chain(
                        old(stats).num_plans_considered,
                        tdacb_considered_children(
                            cs0,
                            0,
                            params.disable_or_opt,
                            next_depth_of(depth),
                        ),
                        if depth < 3 {
                            cs0.len()
                        } else {
                            0
                        },
                    );
                }
                assert(p->SeqAnd_0@ == steps0);
                assert forall|x: u32| plan_holds(p, x) == node_holds(t, x) by {
                    lemma_perm_holds(ord0, pre, x);
                    lemma_pointwise_steps(steps0, ord0, x);
                    lemma_pointwise_children(pre, cs0, x);
                    assert(plan_holds(p, x) == (forall|i: int|
                        0 <= i < steps0.len() ==> plan_holds(#[trigger] steps0[i], x)));
                    assert(node_holds(t, x) == (forall|i: int|
                        0 <= i < cs0.len() ==> node_holds(#[trigger] cs0[i], x)));
                }
                lemma_scored_atoms_pointwise_steps(steps0, ord0, 0);
                lemma_scored_atoms_perm(ord0, pre);
                lemma_scored_atoms_pointwise_nodes(pre, cs0, 0);
                assert(plan_atoms(p) == plan_atoms_from(steps0, 0));
                assert(node_atoms(t) == atoms_from(cs0, 0));
                if all_atom_children(cs0) {
                    broadcast use vstd::seq_lib::group_to_multiset_ensures;

                    assert forall|j: int|
                        0 <= j < pre.len() implies #[trigger] plans_of(pre)[j] == atoms_as_steps(
                        cs0,
                    )[j] by {
                        assert(cs0[j] is Atom);
                        assert(pre[j].plan == Plan::EvalAtom(cs0[j]->Atom_0));
                    }
                    assert(plans_of(pre) =~= atoms_as_steps(cs0));
                    lemma_perm_plans(ord0, pre);
                    assert(steps0 =~= plans_of(ord0));
                    assert(steps0.to_multiset() == atoms_as_steps(cs0).to_multiset());
                    if params.approx_opt_type == ApproxOptType::EvalPred
                        || params.approx_opt_type == ApproxOptType::BDCWithBestD {
                        assert forall|i: int|
                            0 <= i < ord0.len() implies (#[trigger] ord0[i]).plan is EvalAtom
                            && ord0[i].key@ == ord0[i].plan->EvalAtom_0.fingerprint@
                            && ord0[i].cost == cost_of(costs@, ord0[i].key@) && ord0[i].rank as int
                            == atom_rank(sels@, costs@, ord0[i].key@, true) by {
                            assert(ord0.contains(ord0[i]));
                            assert(ord0.to_multiset().count(ord0[i]) > 0);
                            assert(pre.to_multiset().count(ord0[i]) > 0);
                            assert(pre.contains(ord0[i]));
                            let j = choose|j: int| 0 <= j < pre.len() && pre[j] == ord0[i];
                            assert(cs0[j] is Atom);
                        }
                        assert forall|i: int|
                            0 <= i < steps0.len() - 1 implies !atom_step_lt(
                            sels@,
                            costs@,
                            (#[trigger] steps0[i + 1])->EvalAtom_0.fingerprint@,
                            steps0[i]->EvalAtom_0.fingerprint@,
                            true,
                        ) by {
                            assert(!scored_lt(ord0[i + 1], ord0[i]));
                            assert(steps0[i] == ord0[i].plan);
                            assert(steps0[i + 1] == ord0[i + 1].plan);
                        }
                        assert(steps_rank_ordered(steps0, sels@, costs@, true));
                    }
                }
            }
            Scored { plan: p, sel: sel_c, cost: cost_c, rank: 0, key: key_c }
        },
        PredNode::Or(cs) => {
            let ghost cs0 = cs@;
            proof {
                assert(decreases_to!(t => t->Or_0));
            }
            let next_depth = if depth < u64::MAX {
                depth + 1
            } else {
                depth
            };
            let scored = plan_children(cs, false, sels, costs, params, next_depth, stats);
            let ghost pre = scored@;
            let ordered = if params.disable_or_opt {
                scored
            } else {
                match params.approx_opt_type {
                    ApproxOptType::EvalPred => sort_by_rank(scored),
                    ApproxOptType::BDCWithBestD => bdc_or_order(scored),
                    ApproxOptType::Tdacb => if depth < 3 {
                        tdacb_order(scored, stats)
                    } else {
                        sort_by_rank(scored)
                    },
                    ApproxOptType::OnePredLookahead => sort_by_rank(scored),
                }
            };
            let ghost ord0 = ordered@;
            let parts = seq_plans(ordered, false);
            let (steps, sel_c, cost_c, key_c) = parts;
            let ghost steps0 = steps@;
            let p = Plan::SeqOr(steps);
            proof {
                if params.approx_opt_type == ApproxOptType::Tdacb {
                    assert(next_depth == next_depth_of(depth));
                    lemma_sat_add_nat_chain(
                        old(stats).num_plans_considered,
                        tdacb_considered_children(
                            cs0,
                            0,
                            params.disable_or_opt,
                            next_depth_of(depth),
                        ),
                        if !params.disable_or_opt && depth < 3 {
                            cs0.len()
                        } else {
                            0
                        },
                    );
                }
                assert(p->SeqOr_0@ == steps0);
                assert forall|x: u32| plan_holds(p, x) == node_holds(t, x) by {
                    lemma_perm_holds(ord0, pre, x);
                    lemma_pointwise_steps(steps0, ord0, x);
                    lemma_pointwise_children(pre, cs0, x);
                    assert(plan_holds(p, x) == (exists|i: int|
                        0 <= i < steps0.len() && plan_holds(#[trigger] steps0[i], x)));
                    assert(node_holds(t, x) == (exists|i: int|
                        0 <= i < cs0.len() && node_holds(#[trigger] cs0[i], x)));
                }
                lemma_scored_atoms_pointwise_steps(steps0, ord0, 0);
                lemma_scored_atoms_perm(ord0, pre);
                lemma_scored_atoms_pointwise_nodes(pre, cs0, 0);
                assert(plan_atoms(p) == plan_atoms_from(steps0, 0));
                assert(node_atoms(t) == atoms_from(cs0, 0));
                if all_atom_children(cs0) {
                    broadcast use vstd::seq_lib::group_to_multiset_ensures;

                    assert forall|j: int|
                        0 <= j < pre.len() implies #[trigger] plans_of(pre)[j] == atoms_as_steps(
                        cs0,
                    )[j] by {
                        assert(cs0[j] is Atom);
                        assert(pre[j].plan == Plan::EvalAtom(cs0[j]->Atom_0));
                    }
                    assert(plans_of(pre) =~= atoms_as_steps(cs0));
                    lemma_perm_plans(ord0, pre);
                    assert(steps0 =~= plans_of(ord0));
                    assert(steps0.to_multiset() == atoms_as_steps(cs0).to_multiset());
                    if (params.approx_opt_type == ApproxOptType::EvalPred
                        || params.approx_opt_type == ApproxOptType::OnePredLookahead)
                        && !params.disable_or_opt {
                        assert forall|i: int|
                            0 <= i < ord0.len() implies (#[trigger] ord0[i]).plan is EvalAtom
                            && ord0[i].key@ == ord0[i].plan->EvalAtom_0.fingerprint@
                            && ord0[i].cost == cost_of(costs@, ord0[i].key@) && ord0[i].rank as int
                            == atom_rank(sels@, costs@, ord0[i].key@, false) by {
                            assert(ord0.contains(ord0[i]));
                            assert(ord0.to_multiset().count(ord0[i]) > 0);
                            assert(pre.to_multiset().count(ord0[i]) > 0);
                            assert(pre.contains(ord0[i]));
                            let j = choose|j: int| 0 <= j < pre.len() && pre[j] == ord0[i];
                            assert(cs0[j] is Atom);
                        }
                        assert forall|i: int|
                            0 <= i < steps0.len() - 1 implies !atom_step_lt(
                            sels@,
                            costs@,
                            (#[trigger] steps0[i + 1])->EvalAtom_0.fingerprint@,
                            steps0[i]->EvalAtom_0.fingerprint@,
                            false,
                        ) by {
                            assert(!scored_lt(ord0[i + 1], ord0[i]));
                            assert(steps0[i] == ord0[i].plan);
                            assert(steps0[i + 1] == ord0[i + 1].plan);
                        }
                        assert(steps_rank_ordered(steps0, sels@, costs@, false));
                    }
                }
            }
            Scored { plan: p, sel: sel_c, cost: cost_c, rank: 0, key: key_c }
        },
    }
}

/// Turn a predicate tree into an evaluation plan under the chosen strategy.
/// A malformed tree is rejected; a well-formed one yields a plan that mirrors
/// the node shape, accepts exactly the same rows as the tree, and holds each
/// of its atoms exactly once. A single atom becomes `EvalAtom` under every
/// strategy, and the exact strategy emits atom children in descending rank
/// order. Planning adds its wall time to `plan_time_ms`, counts exactly the
/// candidates the top-down search scores, and leaves the execution counters
/// alone.
pub fn plan(
    tree: PredNode,
    selectivities: &StatsMap,
    costs: &StatsMap,
    params: &ExecParams,
    stats: &mut ExecStats,
) -> (r: Result<Plan, EngineError>)
    ensures
        r is Ok <==> tree_wf(tree),
        !tree_wf(tree) ==> r == Err::<Plan, EngineError>(EngineError::MalformedTree),
        r is Ok ==> plan_matches_tree(r->Ok_0, tree),
        r is Ok ==> plan_wf_for(r->Ok_0, tree),
        tree_wf(tree) && tree is Atom ==> r == Ok::<Plan, EngineError>(
            Plan::EvalAtom(tree->Atom_0),
        ),
        tree_wf(tree) && tree is And ==> r->Ok_0 is SeqAnd && r->Ok_0->SeqAnd_0@.len()
            == tree->And_0@.len(),
        tree_wf(tree) && tree is Or ==> r->Ok_0 is SeqOr && r->Ok_0->SeqOr_0@.len()
            == tree->Or_0@.len(),
        tree_wf(tree) && tree is And && all_atom_children(tree->And_0@)
            ==> r->Ok_0->SeqAnd_0@.to_multiset() == atoms_as_steps(tree->And_0@).to_multiset(),
        tree_wf(tree) && tree is Or && all_atom_children(tree->Or_0@)
            ==> r->Ok_0->SeqOr_0@.to_multiset() == atoms_as_steps(tree->Or_0@).to_multiset(),
        tree_wf(tree) && (params.approx_opt_type == ApproxOptType::EvalPred
            || params.approx_opt_type == ApproxOptType::BDCWithBestD) && tree is And
            && all_atom_children(tree->And_0@) ==> steps_rank_ordered(
            r->Ok_0->SeqAnd_0@,
            selectivities@,
            costs@,
            true,
        ),
        tree_wf(tree) && (params.approx_opt_type == ApproxOptType::EvalPred
            || params.approx_opt_type == ApproxOptType::OnePredLookahead)
            && !params.disable_or_opt && tree is Or && all_atom_children(tree->Or_0@)
            ==> steps_rank_ordered(r->Ok_0->SeqOr_0@, selectivities@, costs@, false),
        final(stats).plan_time_ms >= old(stats).plan_time_ms,
        tree_wf(tree) && params.approx_opt_type == ApproxOptType::Tdacb
            ==> final(stats).num_plans_considered == sat_add_nat(
            old(stats).num_plans_considered,
            tdacb_considered(tree, params.disable_or_opt, 0),
        ),
        !(tree_wf(tree) && params.approx_opt_type == ApproxOptType::Tdacb)
            ==> final(stats).num_plans_considered == old(stats).num_plans_considered,
        final(stats).num_preds_evaled == old(stats).num_preds_evaled,
        final(stats).pred_only_time_ms == old(stats).pred_only_time_ms,
        final(stats).total_time_ms == old(stats).total_time_ms,
{
    let start = clock_now();
    if !tree.is_well_formed() {
        let ms = clock_elapsed_ms(&start);
        stats.note_plan_time(ms);
        return Err(EngineError::MalformedTree);
    }
    let scored = plan_node(tree, selectivities, costs, params, 0, stats);
    let ms = clock_elapsed_ms(&start);
    stats.note_plan_time(ms);
    Ok(scored.plan)
}

/// Map a planner name from the command line to execution parameters; an
/// unknown name is rejected.
pub fn build_exec_params(planner_type: &str) -> (r: Result<ExecParams, EngineError>)
    ensures
        r == if planner_type@ == "eval_pred"@ {
            Ok::<ExecParams, EngineError>(
                ExecParams { approx_opt_type: ApproxOptType::EvalPred, disable_or_opt: false },
            )
        } else if planner_type@ == "tdacb"@ {
            Ok::<ExecParams, EngineError>(
                ExecParams { approx_opt_type: ApproxOptType::Tdacb, disable_or_opt: false },
            )
        } else if planner_type@ == "no_opt"@ {
            Ok::<ExecParams, EngineError>(
                ExecParams { approx_opt_type: ApproxOptType::EvalPred, disable_or_opt: true },
            )
        } else if planner_type@ == "bdc"@ {
            Ok::<ExecParams, EngineError>(
                ExecParams { approx_opt_type: ApproxOptType::BDCWithBestD, disable_or_opt: false },
            )
        } else if planner_type@ == "greedy_d3"@ {
            Ok::<ExecParams, EngineError>(
                ExecParams {
                    approx_opt_type: ApproxOptType::OnePredLookahead,
                    disable_or_opt: false,
                },
            )
        } else {
            Err::<ExecParams, EngineError>(EngineError::UnknownPlannerType)
        },
{
    if crate::str_util::str_eq(planner_type, "eval_pred") {
        Ok(ExecParams { approx_opt_type: ApproxOptType::EvalPred, disable_or_opt: false })
    } else if crate::str_util::str_eq(planner_type, "tdacb") {
        Ok(ExecParams { approx_opt_type: ApproxOptType::Tdacb, disable_or_opt: false })
    } else if crate::str_util::str_eq(planner_type, "no_opt") {
        Ok(ExecParams { approx_opt_type: ApproxOptType::EvalPred, disable_or_opt: true })
    } else if crate::str_util::str_eq(planner_type, "bdc") {
        Ok(ExecParams { approx_opt_type: ApproxOptType::BDCWithBestD, disable_or_opt: false })
    } else if crate::str_util::str_eq(planner_type, "greedy_d3") {
        Ok(ExecParams { approx_opt_type: ApproxOptType::OnePredLookahead, disable_or_opt: false })
    } else {
        Err(EngineError::UnknownPlannerType)
    }
}

} // verus!
