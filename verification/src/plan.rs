use vstd::prelude::*;
use crate::tree::{atoms_from, lemma_atoms_from_push, node_atoms, node_holds, Atom, AtomModel, PredNode};

verus! {

/// An evaluation plan. `SeqAnd` evaluates its steps left to right, each step's
/// output feeding the next step as candidate; `SeqOr` evaluates its steps left
/// to right against the remaining candidate and unions the results.
#[derive(PartialEq, Debug)]
pub enum Plan {
    EvalAtom(Atom),
    SeqAnd(Vec<Plan>),
    SeqOr(Vec<Plan>),
}

/// Whether the plan, read as a Boolean formula, is true of row `x`.
pub open spec fn plan_holds(p: Plan, x: u32) -> bool
    decreases p,
{
    match p {
        Plan::EvalAtom(a) => a.holds_on(x),
        Plan::SeqAnd(ss) => forall|i: int|
            0 <= i < ss@.len() ==> plan_holds(#[trigger] ss@[i], x),
        Plan::SeqOr(ss) => exists|i: int|
            0 <= i < ss@.len() && plan_holds(#[trigger] ss@[i], x),
    }
}

/// The rows of candidate `c` that the plan selects.
pub open spec fn plan_sem(p: Plan, c: Set<u32>) -> Set<u32> {
    Set::new(|x: u32| c.contains(x) && plan_holds(p, x))
}

/// A plan is faithful to a predicate tree when both accept exactly the same
/// rows, whatever the candidate.
pub open spec fn plan_matches_tree(p: Plan, n: PredNode) -> bool {
    forall|x: u32| plan_holds(p, x) <==> node_holds(n, x)
}

/// The atoms of the steps `ss[i..]`, leaves first, left to right.
pub open spec fn plan_atoms_from(ss: Seq<Plan>, i: int) -> Seq<AtomModel>
    decreases ss, ss.len() - i,
{
    if i < 0 || i >= ss.len() {
        Seq::empty()
    } else {
        plan_atoms(ss[i]) + plan_atoms_from(ss, i + 1)
    }
}

/// In-order enumeration of the atoms of the plan.
pub open spec fn plan_atoms(p: Plan) -> Seq<AtomModel>
    decreases p, 0nat,
{
    match p {
        Plan::EvalAtom(a) => seq![a.model()],
        Plan::SeqAnd(ss) => plan_atoms_from(ss@, 0),
        Plan::SeqOr(ss) => plan_atoms_from(ss@, 0),
    }
}

/// A plan is well-formed for a tree when it holds exactly the tree's atoms,
/// each exactly once.
pub open spec fn plan_wf_for(p: Plan, n: PredNode) -> bool {
    plan_atoms(p).to_multiset() == node_atoms(n).to_multiset()
}

/// The candidate that step `i` of a `SeqAnd` receives: the initial candidate
/// narrowed by every earlier step.
pub open spec fn and_cand(ss: Seq<Plan>, i: int, c: Set<u32>) -> Set<u32>
    decreases i,
{
    if i <= 0 {
        c
    } else {
        plan_sem(ss[i - 1], and_cand(ss, i - 1, c))
    }
}

/// The remaining candidate that step `i` of a `SeqOr` receives: the initial
/// candidate minus every row an earlier step selected.
pub open spec fn or_rem(ss: Seq<Plan>, i: int, c: Set<u32>) -> Set<u32>
    decreases i,
{
    if i <= 0 {
        c
    } else {
        or_rem(ss, i - 1, c).difference(plan_sem(ss[i - 1], or_rem(ss, i - 1, c)))
    }
}

/// How many atom evaluations running the plan against candidate `c` performs.
/// An empty candidate is answered without touching any atom; within a
/// `SeqAnd`, each step sees the previous step's output; within a `SeqOr`,
/// each step sees the remaining candidate, or with `naive_or` the full one.
pub open spec fn evals_of(p: Plan, c: Set<u32>, naive_or: bool) -> nat
    decreases p, 0nat,
{
    if c == Set::<u32>::empty() {
        0
    } else {
        match p {
            Plan::EvalAtom(_) => 1,
            Plan::SeqAnd(ss) => evals_and(ss@, 0, c, naive_or),
            Plan::SeqOr(ss) => if naive_or {
                evals_or_naive(ss@, 0, c)
            } else {
                evals_or(ss@, 0, c)
            },
        }
    }
}

/// Atom evaluations of the `SeqAnd` steps `ss[i..]` when step `i` receives
/// candidate `c`.
pub open spec fn evals_and(ss: Seq<Plan>, i: int, c: Set<u32>, naive_or: bool) -> nat
    decreases ss, ss.len() - i,
{
    if i < 0 || i >= ss.len() {
        0
    } else {
        evals_of(ss[i], c, naive_or) + evals_and(ss, i + 1, plan_sem(ss[i], c), naive_or)
    }
}

/// Atom evaluations of the `SeqOr` steps `ss[i..]` when step `i` receives
/// remaining candidate `rem`.
pub open spec fn evals_or(ss: Seq<Plan>, i: int, rem: Set<u32>) -> nat
    decreases ss, ss.len() - i,
{
    if i < 0 || i >= ss.len() {
        0
    } else {
        evals_of(ss[i], rem, false) + evals_or(ss, i + 1, rem.difference(plan_sem(ss[i], rem)))
    }
}

/// Atom evaluations of the `SeqOr` steps `ss[i..]` when OR optimization is
/// disabled: every step sees the full candidate `c`.
pub open spec fn evals_or_naive(ss: Seq<Plan>, i: int, c: Set<u32>) -> nat
    decreases ss, ss.len() - i,
{
    if i < 0 || i >= ss.len() {
        0
    } else {
        evals_of(ss[i], c, true) + evals_or_naive(ss, i + 1, c)
    }
}

/// Positionally matched steps and children satisfy the same all/any facts.
proof fn lemma_pointwise_nodes(ss: Seq<Plan>, ns: Seq<PredNode>, x: u32)
    requires
        ss.len() == ns.len(),
        forall|i: int| 0 <= i < ss.len() ==> plan_matches_tree(#[trigger] ss[i], ns[i]),
    ensures
        (forall|i: int| 0 <= i < ss.len() ==> plan_holds(#[trigger] ss[i], x)) == (forall|i: int|
            0 <= i < ns.len() ==> node_holds(#[trigger] ns[i], x)),
        (exists|i: int| 0 <= i < ss.len() && plan_holds(#[trigger] ss[i], x)) == (exists|i: int|
            0 <= i < ns.len() && node_holds(#[trigger] ns[i], x)),
{
    assert forall|i: int|
        0 <= i < ss.len() implies (plan_holds(#[trigger] ss[i], x) == node_holds(ns[i], x)) by {
        assert(plan_matches_tree(ss[i], ns[i]));
    }
    if forall|i: int| 0 <= i < ss.len() ==> plan_holds(#[trigger] ss[i], x) {
        assert forall|i: int| 0 <= i < ns.len() implies node_holds(#[trigger] ns[i], x) by {
            assert(plan_holds(ss[i], x));
        }
    }
    if forall|i: int| 0 <= i < ns.len() ==> node_holds(#[trigger] ns[i], x) {
        assert forall|i: int| 0 <= i < ss.len() implies plan_holds(#[trigger] ss[i], x) by {
            assert(node_holds(ns[i], x));
        }
    }
    if exists|i: int| 0 <= i < ss.len() && plan_holds(#[trigger] ss[i], x) {
        let i = choose|i: int| 0 <= i < ss.len() && plan_holds(#[trigger] ss[i], x);
        assert(node_holds(ns[i], x));
    }
    if exists|i: int| 0 <= i < ns.len() && node_holds(#[trigger] ns[i], x) {
        let i = choose|i: int| 0 <= i < ns.len() && node_holds(#[trigger] ns[i], x);
        assert(plan_holds(ss[i], x));
    }
}

/// Project a plan back onto a predicate tree of the same shape: the tree
/// accepts exactly the rows the plan's formula accepts and carries exactly
/// the plan's atoms, in the plan's order.
#[verifier::loop_isolation(false)]
pub fn plan_to_tree(p: Plan) -> (r: PredNode)
    ensures
        plan_matches_tree(p, r),
        node_atoms(r) == plan_atoms(p),
        p is EvalAtom ==> r == PredNode::Atom(p->EvalAtom_0),
        p is SeqAnd ==> r is And && r->And_0@.len() == p->SeqAnd_0@.len() && (forall|j: int|
            0 <= j < p->SeqAnd_0@.len() && (#[trigger] p->SeqAnd_0@[j]) is EvalAtom
                ==> r->And_0@[j] == PredNode::Atom(p->SeqAnd_0@[j]->EvalAtom_0)),
        p is SeqOr ==> r is Or && r->Or_0@.len() == p->SeqOr_0@.len() && (forall|j: int|
            0 <= j < p->SeqOr_0@.len() && (#[trigger] p->SeqOr_0@[j]) is EvalAtom
                ==> r->Or_0@[j] == PredNode::Atom(p->SeqOr_0@[j]->EvalAtom_0)),
    decreases p,
{
    match p {
        Plan::EvalAtom(a) => {
            let r = PredNode::Atom(a);
            proof {
                assert forall|x: u32| plan_holds(p, x) == node_holds(r, x) by {}
                assert(node_atoms(r) =~= plan_atoms(p));
            }
            r
        },
        Plan::SeqAnd(ss) => {
            let ghost ss0 = ss@;
            let mut rest = ss;
            let mut children: Vec<PredNode> = Vec::new();
            while rest.len() > 0
                invariant
                    children@.len() + rest@.len() == ss0.len(),
                    forall|j: int| 0 <= j < rest@.len() ==> rest@[j] == ss0[children@.len() + j],
                    forall|j: int|
                        0 <= j < children@.len() ==> plan_matches_tree(
                            ss0[j],
                            #[trigger] children@[j],
                        ),
                    forall|j: int|
                        0 <= j < children@.len() && (#[trigger] ss0[j]) is EvalAtom
                            ==> children@[j] == PredNode::Atom(ss0[j]->EvalAtom_0),
                    plan_atoms_from(ss0, 0) == atoms_from(children@, 0) + plan_atoms_from(
                        ss0,
                        children@.len() as int,
                    ),
                decreases rest@.len(),
            {
                let ghost rest_before = rest@;
                let ghost at = children@.len() as int;
                let ghost before = children@;
                let c = rest.remove(0);
                proof {
                    assert(c == ss0[at]);
                    assert(decreases_to!(p => p->SeqAnd_0));
                    assert(decreases_to!(p->SeqAnd_0 => p->SeqAnd_0@));
                    assert(decreases_to!(p->SeqAnd_0@ => p->SeqAnd_0@[at]));
                    assert(decreases_to!(p => c));
                    assert forall|j: int|
                        0 <= j < rest@.len() implies rest@[j] == ss0[at + 1 + j] by {
                        assert(rest@[j] == rest_before[j + 1]);
                    }
                }
                let n = plan_to_tree(c);
                children.push(n);
                proof {
                    lemma_atoms_from_push(before, n, 0);
                    assert(plan_atoms_from(ss0, 0) =~= atoms_from(children@, 0)
                        + plan_atoms_from(ss0, at + 1));
                }
            }
            let ghost ch0 = children@;
            let r = PredNode::And(children);
            proof {
                assert(r->And_0@ == ch0);
                assert(plan_atoms_from(ss0, ss0.len() as int) =~= Seq::<AtomModel>::empty());
                assert(node_atoms(r) =~= plan_atoms(p));
                assert forall|x: u32| plan_holds(p, x) == node_holds(r, x) by {
                    lemma_pointwise_nodes(ss0, ch0, x);
                    assert(plan_holds(p, x) == (forall|i: int|
                        0 <= i < ss0.len() ==> plan_holds(#[trigger] ss0[i], x)));
                    assert(node_holds(r, x) == (forall|i: int|
                        0 <= i < ch0.len() ==> node_holds(#[trigger] ch0[i], x)));
                }
            }
            r
        },
        Plan::SeqOr(ss) => {
            let ghost ss0 = ss@;
            let mut rest = ss;
            let mut children: Vec<PredNode> = Vec::new();
            while rest.len() > 0
                invariant
                    children@.len() + rest@.len() == ss0.len(),
                    forall|j: int| 0 <= j < rest@.len() ==> rest@[j] == ss0[children@.len() + j],
                    forall|j: int|
                        0 <= j < children@.len() ==> plan_matches_tree(
                            ss0[j],
                            #[trigger] children@[j],
                        ),
                    forall|j: int|
                        0 <= j < children@.len() && (#[trigger] ss0[j]) is EvalAtom
                            ==> children@[j] == PredNode::Atom(ss0[j]->EvalAtom_0),
                    plan_atoms_from(ss0, 0) == atoms_from(children@, 0) + plan_atoms_from(
                        ss0,
                        children@.len() as int,
                    ),
                decreases rest@.len(),
            {
                let ghost rest_before = rest@;
                let ghost at = children@.len() as int;
                let ghost before = children@;
                let c = rest.remove(0);
                proof {
                    assert(c == ss0[at]);
                    assert(decreases_to!(p => p->SeqOr_0));
                    assert(decreases_to!(p->SeqOr_0 => p->SeqOr_0@));
                    assert(decreases_to!(p->SeqOr_0@ => p->SeqOr_0@[at]));
                    assert(decreases_to!(p => c));
                    assert forall|j: int|
                        0 <= j < rest@.len() implies rest@[j] == ss0[at + 1 + j] by {
                        assert(rest@[j] == rest_before[j + 1]);
                    }
                }
                let n = plan_to_tree(c);
                children.push(n);
                proof {
                    lemma_atoms_from_push(before, n, 0);
                    assert(plan_atoms_from(ss0, 0) =~= atoms_from(children@, 0)
                        + plan_atoms_from(ss0, at + 1));
                }
            }
            let ghost ch0 = children@;
            let r = PredNode::Or(children);
            proof {
                assert(r->Or_0@ == ch0);
                assert(plan_atoms_from(ss0, ss0.len() as int) =~= Seq::<AtomModel>::empty());
                assert(node_atoms(r) =~= plan_atoms(p));
                assert forall|x: u32| plan_holds(p, x) == node_holds(r, x) by {
                    lemma_pointwise_nodes(ss0, ch0, x);
                    assert(plan_holds(p, x) == (exists|i: int|
                        0 <= i < ss0.len() && plan_holds(#[trigger] ss0[i], x)));
                    assert(node_holds(r, x) == (exists|i: int|
                        0 <= i < ch0.len() && node_holds(#[trigger] ch0[i], x)));
                }
            }
            r
        },
    }
}

} // verus!
