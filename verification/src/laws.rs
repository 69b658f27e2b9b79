use vstd::prelude::*;
use crate::bitmap::bitmap_rows;
use crate::exec::{lemma_evals_and_empty, lemma_or_rem_char, lemma_plan_sem_empty};
use crate::plan::{
    and_cand, evals_and, evals_of, or_rem, plan_holds, plan_matches_tree, plan_sem, Plan,
};
use crate::planner::{atom_rank, atom_step_lt, atoms_as_steps, all_atom_children, cost_of, sel_of, steps_rank_ordered};
use crate::str_util::{lemma_lex_lt_asym, lemma_lex_lt_total, lemma_lex_lt_trans};
use crate::selmap::SEL_SCALE;
use crate::stats::sat_add_nat;
use vstd::arithmetic::div_mod::lemma_div_multiples_vanish;
use crate::tree::{Atom, PredNode};
use vstd::seq_lib::group_to_multiset_ensures;

verus! {

/// Whatever the plan, the selected rows are among the initial candidate.
pub proof fn lemma_run_filter_subset(p: Plan, c: Set<u32>)
    ensures
        plan_sem(p, c).subset_of(c),
{
    assert forall|x: u32| plan_sem(p, c).contains(x) implies c.contains(x) by {}
}

/// Two plans faithful to the same predicate tree select the same rows from
/// every candidate; with the planner's and executor's contracts this makes
/// the four strategies interchangeable in their results.
pub proof fn lemma_planner_equivalence(p1: Plan, p2: Plan, t: PredNode, c: Set<u32>)
    requires
        plan_matches_tree(p1, t),
        plan_matches_tree(p2, t),
    ensures
        plan_sem(p1, c) == plan_sem(p2, c),
{
    assert(plan_sem(p1, c) =~= plan_sem(p2, c));
}

/// Once the intermediate candidate of a `SeqAnd` is empty, the steps from
/// that point on evaluate no atom at all. `and_cand(ss, i, c)` is the very
/// candidate the executor hands to step `i`, and `evals_and(ss, i, ..)` the
/// number of atom evaluations `num_preds_evaled` records for the steps from
/// `i` on.
pub proof fn lemma_seq_and_short_circuit(ss: Seq<Plan>, i: int, c: Set<u32>, naive_or: bool)
    requires
        0 <= i <= ss.len(),
        and_cand(ss, i, c) == Set::<u32>::empty(),
    ensures
        evals_and(ss, i, and_cand(ss, i, c), naive_or) == 0,
{
    lemma_evals_and_empty(ss, i, naive_or);
}

/// If the first step of a `SeqAnd` selects nothing, it is the only step that
/// evaluates atoms.
pub proof fn lemma_and_first_empty(ss: Seq<Plan>, c: Set<u32>, naive_or: bool)
    requires
        ss.len() > 0,
        plan_sem(ss[0], c) == Set::<u32>::empty(),
    ensures
        evals_and(ss, 0, c, naive_or) == evals_of(ss[0], c, naive_or),
{
    lemma_evals_and_empty(ss, 1, naive_or);
}

/// In a `SeqOr` with OR optimization on, a row selected by an earlier step
/// never reaches a later step's remaining candidate. `or_rem(ss, i, c)` is
/// the very candidate the executor hands to step `i`.
pub proof fn lemma_or_remaining_discipline(ss: Seq<Plan>, j: int, i: int, c: Set<u32>, x: u32)
    requires
        0 <= j < i <= ss.len(),
        plan_sem(ss[j], or_rem(ss, j, c)).contains(x),
    ensures
        !or_rem(ss, i, c).contains(x),
{
    lemma_or_rem_char(ss, i, c);
    assert(plan_holds(ss[j], x));
}

/// An empty initial candidate is answered by the empty bitmap and no atom
/// evaluation, whatever the plan.
pub proof fn lemma_empty_candidate(p: Plan, naive_or: bool)
    ensures
        plan_sem(p, Set::<u32>::empty()) == Set::<u32>::empty(),
        evals_of(p, Set::<u32>::empty(), naive_or) == 0,
{
    lemma_plan_sem_empty(p);
}

/// A single-atom plan selects exactly what the atom's own evaluation returns:
/// the candidate rows the atom accepts.
pub proof fn lemma_eval_atom(a: Atom, c: Set<u32>)
    ensures
        plan_sem(Plan::EvalAtom(a), c) == c.intersect(bitmap_rows(a.rows)),
{
    assert(plan_sem(Plan::EvalAtom(a), c) =~= c.intersect(bitmap_rows(a.rows)));
}

/// The executor is deterministic: its contract pins the selected rows and the
/// number of atom evaluations, so two runs from the same plan, candidate and
/// counter agree on both.
pub proof fn lemma_run_filter_deterministic(
    p: Plan,
    c: Set<u32>,
    naive_or: bool,
    r1: Set<u32>,
    r2: Set<u32>,
    n0: u128,
    n1: u128,
    n2: u128,
)
    requires
        r1 == plan_sem(p, c),
        n1 == sat_add_nat(n0, evals_of(p, c, naive_or)),
        r2 == plan_sem(p, c),
        n2 == sat_add_nat(n0, evals_of(p, c, naive_or)),
    ensures
        r1 == r2,
        n1 == n2,
{
}

/// When every atom is recorded as fully selective, every rank is zero and
/// the planner's order falls back to ascending cost: cheapest atoms run
/// first.
pub proof fn lemma_full_selectivity_cost_ascending(
    ss: Seq<Plan>,
    sels: Map<Seq<char>, u64>,
    costs: Map<Seq<char>, u64>,
    i: int,
)
    requires
        steps_rank_ordered(ss, sels, costs, true),
        forall|j: int|
            0 <= j < ss.len() ==> sel_of(sels, (#[trigger] ss[j])->EvalAtom_0.fingerprint@)
                == SEL_SCALE,
        0 <= i < ss.len() - 1,
    ensures
        cost_of(costs, ss[i]->EvalAtom_0.fingerprint@) <= cost_of(
            costs,
            ss[i + 1]->EvalAtom_0.fingerprint@,
        ),
{
    let a = ss[i]->EvalAtom_0.fingerprint@;
    let b = ss[i + 1]->EvalAtom_0.fingerprint@;
    lemma_div_multiples_vanish(0, cost_of(costs, a) as int);
    lemma_div_multiples_vanish(0, cost_of(costs, b) as int);
    assert(cost_of(costs, a) as int * 0 == 0 && cost_of(costs, b) as int * 0 == 0);
    assert(atom_rank(sels, costs, a, true) == 0);
    assert(atom_rank(sels, costs, b, true) == 0);
    assert(!atom_step_lt(sels, costs, b, a, true));
}

/// The planner's atom order chains.
proof fn lemma_atom_step_lt_trans(
    sels: Map<Seq<char>, u64>,
    costs: Map<Seq<char>, u64>,
    a: Seq<char>,
    b: Seq<char>,
    c: Seq<char>,
    and_mode: bool,
)
    requires
        atom_step_lt(sels, costs, a, b, and_mode),
        atom_step_lt(sels, costs, b, c, and_mode),
    ensures
        atom_step_lt(sels, costs, a, c, and_mode),
{
    if atom_rank(sels, costs, a, and_mode) == atom_rank(sels, costs, b, and_mode) && atom_rank(
        sels,
        costs,
        b,
        and_mode,
    ) == atom_rank(sels, costs, c, and_mode) && cost_of(costs, a) == cost_of(costs, b) && cost_of(
        costs,
        b,
    ) == cost_of(costs, c) {
        lemma_lex_lt_trans(a, b, c);
    }
}

/// Two fingerprints neither of which precedes the other are the same.
proof fn lemma_atom_step_lt_conn(
    sels: Map<Seq<char>, u64>,
    costs: Map<Seq<char>, u64>,
    a: Seq<char>,
    b: Seq<char>,
    and_mode: bool,
)
    requires
        !atom_step_lt(sels, costs, a, b, and_mode),
        !atom_step_lt(sels, costs, b, a, and_mode),
    ensures
        a == b,
{
    lemma_lex_lt_total(a, b);
}

/// In a rank-ordered step list, no step precedes the first one.
proof fn lemma_rank_order_head_min(
    ss: Seq<Plan>,
    sels: Map<Seq<char>, u64>,
    costs: Map<Seq<char>, u64>,
    and_mode: bool,
    k: int,
)
    requires
        steps_rank_ordered(ss, sels, costs, and_mode),
        0 <= k < ss.len(),
    ensures
        !atom_step_lt(
            sels,
            costs,
            ss[k]->EvalAtom_0.fingerprint@,
            ss[0]->EvalAtom_0.fingerprint@,
            and_mode,
        ),
    decreases k,
{
    if k > 0 {
        lemma_rank_order_head_min(ss, sels, costs, and_mode, k - 1);
        let fk = ss[k]->EvalAtom_0.fingerprint@;
        let fp = ss[k - 1]->EvalAtom_0.fingerprint@;
        let f0 = ss[0]->EvalAtom_0.fingerprint@;
        let i = k - 1;
        assert(!atom_step_lt(
            sels,
            costs,
            ss[i + 1]->EvalAtom_0.fingerprint@,
            ss[i]->EvalAtom_0.fingerprint@,
            and_mode,
        ));
        assert(!atom_step_lt(sels, costs, fk, fp, and_mode));
        if atom_step_lt(sels, costs, fk, f0, and_mode) {
            if atom_step_lt(sels, costs, fp, fk, and_mode) {
                lemma_atom_step_lt_trans(sels, costs, fp, fk, f0, and_mode);
            } else {
                lemma_atom_step_lt_conn(sels, costs, fk, fp, and_mode);
            }
        }
    } else {
        lemma_lex_lt_asym(ss[0]->EvalAtom_0.fingerprint@, ss[0]->EvalAtom_0.fingerprint@);
    }
}

/// The exact strategy's order is pinned: two rank-ordered step lists holding
/// the same steps, whose fingerprints are pairwise distinct, are the same
/// list. With the planner's step-multiset and rank-order clauses this makes
/// the plan emitted for a tree of distinct atoms a function of the inputs.
pub proof fn lemma_rank_order_unique(
    ss1: Seq<Plan>,
    ss2: Seq<Plan>,
    sels: Map<Seq<char>, u64>,
    costs: Map<Seq<char>, u64>,
    and_mode: bool,
)
    requires
        steps_rank_ordered(ss1, sels, costs, and_mode),
        steps_rank_ordered(ss2, sels, costs, and_mode),
        ss1.to_multiset() == ss2.to_multiset(),
        forall|i: int, j: int|
            0 <= i < j < ss1.len() ==> (#[trigger] ss1[i])->EvalAtom_0.fingerprint@ != (
            #[trigger] ss1[j])->EvalAtom_0.fingerprint@,
    ensures
        ss1 == ss2,
    decreases ss1.len(),
{
    broadcast use vstd::seq_lib::group_to_multiset_ensures;

    assert(ss1.to_multiset().len() == ss1.len());
    assert(ss2.to_multiset().len() == ss2.len());
    assert(ss1.len() == ss2.len());
    if ss1.len() == 0 {
        assert(ss1 =~= ss2);
    } else {
        assert(ss2.contains(ss2[0]));
        assert(ss2.to_multiset().count(ss2[0]) > 0);
        assert(ss1.to_multiset().count(ss2[0]) > 0);
        assert(ss1.contains(ss2[0]));
        let i1 = choose|i: int| 0 <= i < ss1.len() && ss1[i] == ss2[0];
        assert(ss1.contains(ss1[0]));
        assert(ss1.to_multiset().count(ss1[0]) > 0);
        assert(ss2.to_multiset().count(ss1[0]) > 0);
        assert(ss2.contains(ss1[0]));
        let i2 = choose|i: int| 0 <= i < ss2.len() && ss2[i] == ss1[0];
        lemma_rank_order_head_min(ss1, sels, costs, and_mode, i1);
        lemma_rank_order_head_min(ss2, sels, costs, and_mode, i2);
        lemma_atom_step_lt_conn(
            sels,
            costs,
            ss1[0]->EvalAtom_0.fingerprint@,
            ss2[0]->EvalAtom_0.fingerprint@,
            and_mode,
        );
        if i1 != 0 {
            assert(ss1[i1]->EvalAtom_0.fingerprint@ == ss1[0]->EvalAtom_0.fingerprint@);
            assert(false);
        }
        assert(ss1[0] == ss2[0]);
        let t1 = ss1.remove(0);
        let t2 = ss2.remove(0);
        assert(t1.to_multiset() =~= t2.to_multiset());
        assert forall|i: int| 0 <= i < t1.len() implies t1[i] == ss1[i + 1] by {}
        assert forall|i: int| 0 <= i < t2.len() implies t2[i] == ss2[i + 1] by {}
        assert(steps_rank_ordered(t1, sels, costs, and_mode));
        assert(steps_rank_ordered(t2, sels, costs, and_mode));
        assert forall|i: int, j: int|
            0 <= i < j < t1.len() implies (#[trigger] t1[i])->EvalAtom_0.fingerprint@ != (
        #[trigger] t1[j])->EvalAtom_0.fingerprint@ by {
            assert(t1[i] == ss1[i + 1] && t1[j] == ss1[j + 1]);
        }
        lemma_rank_order_unique(t1, t2, sels, costs, and_mode);
        assert forall|i: int| 0 <= i < ss1.len() implies ss1[i] == ss2[i] by {
            if i > 0 {
                assert(t1[i - 1] == t2[i - 1]);
            }
        }
        assert(ss1 =~= ss2);
    }
}

/// A value standing at two positions of a sequence counts at least twice in
/// its multiset.
proof fn lemma_dup_count(s: Seq<Plan>, i: int, j: int)
    requires
        0 <= i < j < s.len(),
        s[i] == s[j],
    ensures
        s.to_multiset().count(s[i]) >= 2,
{
    broadcast use group_to_multiset_ensures;

    let s2 = s.remove(i);
    assert(s2[j - 1] == s[j]);
    assert(s2.contains(s[i]));
    assert(s2.to_multiset().count(s[i]) > 0);
    assert(s2.to_multiset() =~= s.to_multiset().remove(s[i]));
}

/// Planner determinism on a flat node of distinct atoms under the exact
/// strategy: the step-multiset and rank-order clauses of the planner's
/// contract leave exactly one step sequence, so two plans both meeting the
/// contract for the same children and statistics are the same plan.
pub proof fn lemma_plan_deterministic_flat(
    ss1: Seq<Plan>,
    ss2: Seq<Plan>,
    cs: Seq<PredNode>,
    sels: Map<Seq<char>, u64>,
    costs: Map<Seq<char>, u64>,
    and_mode: bool,
)
    requires
        steps_rank_ordered(ss1, sels, costs, and_mode),
        steps_rank_ordered(ss2, sels, costs, and_mode),
        ss1.to_multiset() == atoms_as_steps(cs).to_multiset(),
        ss2.to_multiset() == atoms_as_steps(cs).to_multiset(),
        all_atom_children(cs),
        forall|i: int, j: int|
            0 <= i < j < cs.len() ==> (#[trigger] cs[i])->Atom_0.fingerprint@ != (
            #[trigger] cs[j])->Atom_0.fingerprint@,
    ensures
        ss1 == ss2,
{
    broadcast use group_to_multiset_ensures;

    assert forall|i: int, j: int|
        0 <= i < j < ss1.len() implies (#[trigger] ss1[i])->EvalAtom_0.fingerprint@ != (
    #[trigger] ss1[j])->EvalAtom_0.fingerprint@ by {
        if ss1[i]->EvalAtom_0.fingerprint@ == ss1[j]->EvalAtom_0.fingerprint@ {
            if ss1[i] == ss1[j] {
                lemma_dup_count(ss1, i, j);
                assert forall|k1: int, k2: int|
                    0 <= k1 < k2 < atoms_as_steps(cs).len() implies #[trigger] atoms_as_steps(
                    cs,
                )[k1] != #[trigger] atoms_as_steps(cs)[k2] by {
                    assert(atoms_as_steps(cs)[k1] == Plan::EvalAtom(cs[k1]->Atom_0));
                    assert(atoms_as_steps(cs)[k2] == Plan::EvalAtom(cs[k2]->Atom_0));
                }
                assert(atoms_as_steps(cs).no_duplicates());
                atoms_as_steps(cs).lemma_multiset_has_no_duplicates();
                assert(atoms_as_steps(cs).to_multiset().contains(ss1[i]));
            } else {
                assert(ss1.contains(ss1[i]));
                assert(ss1.to_multiset().count(ss1[i]) > 0);
                assert(atoms_as_steps(cs).to_multiset().count(ss1[i]) > 0);
                assert(atoms_as_steps(cs).contains(ss1[i]));
                let k1 = choose|k: int|
                    0 <= k < atoms_as_steps(cs).len() && atoms_as_steps(cs)[k] == ss1[i];
                assert(ss1.contains(ss1[j]));
                assert(ss1.to_multiset().count(ss1[j]) > 0);
                assert(atoms_as_steps(cs).to_multiset().count(ss1[j]) > 0);
                assert(atoms_as_steps(cs).contains(ss1[j]));
                let k2 = choose|k: int|
                    0 <= k < atoms_as_steps(cs).len() && atoms_as_steps(cs)[k] == ss1[j];
                assert(ss1[i] == Plan::EvalAtom(cs[k1]->Atom_0));
                assert(ss1[j] == Plan::EvalAtom(cs[k2]->Atom_0));
                assert(cs[k1]->Atom_0.fingerprint@ == cs[k2]->Atom_0.fingerprint@);
                assert(k1 == k2);
            }
        }
    }
    assert(ss1.to_multiset() == ss2.to_multiset());
    lemma_rank_order_unique(ss1, ss2, sels, costs, and_mode);
}

} // verus!
