use vstd::prelude::*;
use crate::bitmap::{bitmap_rows, bm_and};
use crate::stats::ExecStats;
use crate::stats::sat_add_nat;
use crate::stats::clock_now;
use crate::stats::clock_elapsed_ms;

verus! {

/// A leaf predicate. Its canonical textual form is the `fingerprint`, the key
/// under which selectivity and cost are recorded; `rows` is the set of row
/// ordinals of the table for which the predicate is true.
#[derive(Clone, PartialEq, Debug)]
pub struct Atom {
    pub fingerprint: String,
    pub rows: roaring::RoaringBitmap,
}

/// What an atom means to the specification: its fingerprint and its row set.
pub struct AtomModel {
    pub fp: Seq<char>,
    pub rows: Set<u32>,
}

impl Atom {
    pub open spec fn model(self) -> AtomModel {
        AtomModel { fp: self.fingerprint@, rows: bitmap_rows(self.rows) }
    }

    /// Whether the atom is true of row `x`.
    pub open spec fn holds_on(self, x: u32) -> bool {
        bitmap_rows(self.rows).contains(x)
    }

    pub fn new(fingerprint: String, rows: roaring::RoaringBitmap) -> (r: Atom)
        ensures
            r.fingerprint == fingerprint,
            r.rows == rows,
    {
        Atom { fingerprint, rows }
    }

    /// Evaluate the atom against a candidate bitmap: the result is the subset
    /// of the candidate for which the atom is true. Each call counts one
    /// predicate evaluation and adds its wall time to `pred_only_time_ms`.
    pub fn eval(&self, candidate: &roaring::RoaringBitmap, stats: &mut ExecStats) -> (r:
        roaring::RoaringBitmap)
        ensures
            bitmap_rows(r) == bitmap_rows(*candidate).intersect(bitmap_rows(self.rows)),
            bitmap_rows(r).finite(),
            final(stats).num_preds_evaled == sat_add_nat(old(stats).num_preds_evaled, 1),
            final(stats).pred_only_time_ms >= old(stats).pred_only_time_ms,
            final(stats).plan_time_ms == old(stats).plan_time_ms,
            final(stats).total_time_ms == old(stats).total_time_ms,
            final(stats).num_plans_considered == old(stats).num_plans_considered,
    {
        let start = clock_now();
        let r = bm_and(candidate, &self.rows);
        let elapsed = clock_elapsed_ms(&start);
        stats.note_pred_eval(elapsed);
        r
    }
}

/// A Boolean predicate tree: leaves are atoms, internal nodes are AND/OR over
/// at least two children, with no AND directly under an AND and no OR directly
/// under an OR.
#[derive(PartialEq, Debug)]
pub enum PredNode {
    Atom(Atom),
    And(Vec<PredNode>),
    Or(Vec<PredNode>),
}

/// Whether the tree is true of row `x`.
pub open spec fn node_holds(n: PredNode, x: u32) -> bool
    decreases n,
{
    match n {
        PredNode::Atom(a) => a.holds_on(x),
        PredNode::And(cs) => forall|i: int|
            0 <= i < cs@.len() ==> node_holds(#[trigger] cs@[i], x),
        PredNode::Or(cs) => exists|i: int|
            0 <= i < cs@.len() && node_holds(#[trigger] cs@[i], x),
    }
}

/// The rows of candidate `c` that the tree accepts.
pub open spec fn node_sem(n: PredNode, c: Set<u32>) -> Set<u32> {
    Set::new(|x: u32| c.contains(x) && node_holds(n, x))
}

/// The atoms of the subtrees `cs[i..]`, leaves first, left to right.
pub open spec fn atoms_from(cs: Seq<PredNode>, i: int) -> Seq<AtomModel>
    decreases cs, cs.len() - i,
{
    if i < 0 || i >= cs.len() {
        Seq::empty()
    } else {
        node_atoms(cs[i]) + atoms_from(cs, i + 1)
    }
}

/// Appending a subtree appends its atoms.
pub proof fn lemma_atoms_from_push(cs: Seq<PredNode>, t: PredNode, i: int)
    requires
        0 <= i <= cs.len(),
    ensures
        atoms_from(cs.push(t), i) == atoms_from(cs, i) + node_atoms(t),
    decreases cs.len() - i,
{
    if i < cs.len() {
        lemma_atoms_from_push(cs, t, i + 1);
        assert(cs.push(t)[i] == cs[i]);
        assert(atoms_from(cs.push(t), i) =~= atoms_from(cs, i) + node_atoms(t));
    } else {
        assert(cs.push(t)[i] == t);
        assert(atoms_from(cs.push(t), i + 1) =~= Seq::<AtomModel>::empty());
        assert(atoms_from(cs, i) =~= Seq::<AtomModel>::empty());
        assert(atoms_from(cs.push(t), i) =~= atoms_from(cs, i) + node_atoms(t));
    }
}

/// In-order enumeration of the atoms of the tree.
pub open spec fn node_atoms(n: PredNode) -> Seq<AtomModel>
    decreases n, 0nat,
{
    match n {
        PredNode::Atom(a) => seq![a.model()],
        PredNode::And(cs) => atoms_from(cs@, 0),
        PredNode::Or(cs) => atoms_from(cs@, 0),
    }
}

/// Structural invariant of a predicate tree: every AND/OR has at least two
/// children, no AND directly nests an AND, no OR directly nests an OR.
pub open spec fn tree_wf(n: PredNode) -> bool
    decreases n,
{
    match n {
        PredNode::Atom(_) => true,
        PredNode::And(cs) => cs@.len() >= 2 && (forall|i: int|
            0 <= i < cs@.len() ==> tree_wf(#[trigger] cs@[i]) && !(cs@[i] is And)),
        PredNode::Or(cs) => cs@.len() >= 2 && (forall|i: int|
            0 <= i < cs@.len() ==> tree_wf(#[trigger] cs@[i]) && !(cs@[i] is Or)),
    }
}

impl PredNode {
    /// In-order enumeration of all the leaves of the tree.
    #[verifier::loop_isolation(false)]
    pub fn get_all_atoms(&self) -> (r: Vec<&Atom>)
        ensures
            r@.map_values(|a: &Atom| a.model()) == node_atoms(*self),
        decreases *self,
    {
        match self {
            PredNode::Atom(a) => {
                let mut out: Vec<&Atom> = Vec::new();
                out.push(a);
                proof {
                    assert(out@.map_values(|x: &Atom| x.model()) =~= node_atoms(*self));
                }
                out
            },
            PredNode::And(cs) => {
                let mut out: Vec<&Atom> = Vec::new();
                let mut i: usize = 0;
                while i < cs.len()
                    invariant
                        0 <= i <= cs@.len(),
                        atoms_from(cs@, 0) == out@.map_values(|a: &Atom| a.model()) + atoms_from(
                            cs@,
                            i as int,
                        ),
                    decreases cs@.len() - i,
                {
                    proof {
                        assert(decreases_to!(*self => self->And_0));
                        assert(decreases_to!(self->And_0 => self->And_0@));
                        assert(decreases_to!(self->And_0@ => self->And_0@[i as int]));
                        assert(decreases_to!(*self => cs@[i as int]));
                    }
                    let ghost before = out@;
                    let mut part = cs[i].get_all_atoms();
                    out.append(&mut part);
                    proof {
                        assert(out@.map_values(|a: &Atom| a.model()) =~= before.map_values(
                            |a: &Atom| a.model(),
                        ) + node_atoms(cs@[i as int]));
                        assert(atoms_from(cs@, 0) =~= out@.map_values(|a: &Atom| a.model())
                            + atoms_from(cs@, i + 1));
                    }
                    i += 1;
                }
                proof {
                    assert(atoms_from(cs@, cs@.len() as int) =~= Seq::<AtomModel>::empty());
                    assert(out@.map_values(|a: &Atom| a.model()) =~= node_atoms(*self));
                }
                out
            },
            PredNode::Or(cs) => {
                let mut out: Vec<&Atom> = Vec::new();
                let mut i: usize = 0;
                while i < cs.len()
                    invariant
                        0 <= i <= cs@.len(),
                        atoms_from(cs@, 0) == out@.map_values(|a: &Atom| a.model()) + atoms_from(
                            cs@,
                            i as int,
                        ),
                    decreases cs@.len() - i,
                {
                    proof {
                        assert(decreases_to!(*self => self->Or_0));
                        assert(decreases_to!(self->Or_0 => self->Or_0@));
                        assert(decreases_to!(self->Or_0@ => self->Or_0@[i as int]));
                        assert(decreases_to!(*self => cs@[i as int]));
                    }
                    let ghost before = out@;
                    let mut part = cs[i].get_all_atoms();
                    out.append(&mut part);
                    proof {
                        assert(out@.map_values(|a: &Atom| a.model()) =~= before.map_values(
                            |a: &Atom| a.model(),
                        ) + node_atoms(cs@[i as int]));
                        assert(atoms_from(cs@, 0) =~= out@.map_values(|a: &Atom| a.model())
                            + atoms_from(cs@, i + 1));
                    }
                    i += 1;
                }
                proof {
                    assert(atoms_from(cs@, cs@.len() as int) =~= Seq::<AtomModel>::empty());
                    assert(out@.map_values(|a: &Atom| a.model()) =~= node_atoms(*self));
                }
                out
            },
        }
    }

    /// Checks the structural invariant: nonempty, non-singleton AND/OR, no
    /// directly nested same operator.
    #[verifier::loop_isolation(false)]
    pub fn is_well_formed(&self) -> (r: bool)
        ensures
            r == tree_wf(*self),
        decreases *self,
    {
        match self {
            PredNode::Atom(_) => true,
            PredNode::And(cs) => {
                if cs.len() < 2 {
                    return false;
                }
                let mut i: usize = 0;
                while i < cs.len()
                    invariant
                        0 <= i <= cs@.len(),
                        forall|j: int|
                            0 <= j < i ==> tree_wf(#[trigger] cs@[j]) && !(cs@[j] is And),
                    decreases cs@.len() - i,
                {
                    proof {
                        assert(decreases_to!(*self => self->And_0));
                        assert(decreases_to!(self->And_0 => self->And_0@));
                        assert(decreases_to!(self->And_0@ => self->And_0@[i as int]));
                        assert(decreases_to!(*self => cs@[i as int]));
                    }
                    let child_ok = match &cs[i] {
                        PredNode::And(_) => false,
                        _ => cs[i].is_well_formed(),
                    };
                    if !child_ok {
                        proof {
                            assert(!(tree_wf(cs@[i as int]) && !(cs@[i as int] is And)));
                            assert(!tree_wf(*self));
                        }
                        return false;
                    }
                    i += 1;
                }
                true
            },
            PredNode::Or(cs) => {
                if cs.len() < 2 {
                    return false;
                }
                let mut i: usize = 0;
                while i < cs.len()
                    invariant
                        0 <= i <= cs@.len(),
                        forall|j: int|
                            0 <= j < i ==> tree_wf(#[trigger] cs@[j]) && !(cs@[j] is Or),
                    decreases cs@.len() - i,
                {
                    proof {
                        assert(decreases_to!(*self => self->Or_0));
                        assert(decreases_to!(self->Or_0 => self->Or_0@));
                        assert(decreases_to!(self->Or_0@ => self->Or_0@[i as int]));
                        assert(decreases_to!(*self => cs@[i as int]));
                    }
                    let child_ok = match &cs[i] {
                        PredNode::Or(_) => false,
                        _ => cs[i].is_well_formed(),
                    };
                    if !child_ok {
                        proof {
                            assert(!(tree_wf(cs@[i as int]) && !(cs@[i as int] is Or)));
                            assert(!tree_wf(*self));
                        }
                        return false;
                    }
                    i += 1;
                }
                true
            },
        }
    }
}

} // verus!
