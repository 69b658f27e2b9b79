use vstd::prelude::*;
use crate::bitmap::{bitmap_rows, bm_is_empty, bm_new, bm_or, bm_sub};
use crate::params::ExecParams;
use crate::plan::{
    and_cand, evals_and, evals_of, evals_or, evals_or_naive, or_rem, plan_holds, plan_sem, Plan,
};
use crate::stats::{clock_elapsed_ms, clock_now, lemma_sat_add_nat_ge, sat_add_nat, ExecStats};

verus! {

/// The candidate reaching step `i` of a `SeqAnd` is the initial candidate
/// narrowed by the conjunction of all earlier steps.
pub proof fn lemma_and_cand_char(ss: Seq<Plan>, i: int, c: Set<u32>)
    requires
        0 <= i <= ss.len(),
    ensures
        and_cand(ss, i, c) =~= Set::new(
            |x: u32| c.contains(x) && (forall|j: int| 0 <= j < i ==> plan_holds(#[trigger] ss[j], x)),
        ),
    decreases i,
{
    if i > 0 {
        lemma_and_cand_char(ss, i - 1, c);
    }
}

/// The remaining candidate reaching step `i` of a `SeqOr` holds exactly the
/// candidate rows no earlier step selected.
pub proof fn lemma_or_rem_char(ss: Seq<Plan>, i: int, c: Set<u32>)
    requires
        0 <= i <= ss.len(),
    ensures
        or_rem(ss, i, c) =~= Set::new(
            |x: u32| c.contains(x) && (forall|j: int| 0 <= j < i ==> !plan_holds(#[trigger] ss[j], x)),
        ),
    decreases i,
{
    if i > 0 {
        lemma_or_rem_char(ss, i - 1, c);
    }
}

/// A plan selects nothing from an empty candidate.
pub proof fn lemma_plan_sem_empty(p: Plan)
    ensures
        plan_sem(p, Set::<u32>::empty()) == Set::<u32>::empty(),
{
    assert(plan_sem(p, Set::<u32>::empty()) =~= Set::<u32>::empty());
}

/// Once the intermediate candidate of a `SeqAnd` is empty, the remaining
/// steps evaluate no atom at all.
pub proof fn lemma_evals_and_empty(ss: Seq<Plan>, i: int, naive_or: bool)
    ensures
        evals_and(ss, i, Set::<u32>::empty(), naive_or) == 0,
    decreases ss.len() - i,
{
    if 0 <= i < ss.len() {
        lemma_plan_sem_empty(ss[i]);
        lemma_evals_and_empty(ss, i + 1, naive_or);
        assert(evals_of(ss[i], Set::<u32>::empty(), naive_or) == 0);
        assert(evals_and(ss, i, Set::<u32>::empty(), naive_or) == evals_of(
            ss[i],
            Set::<u32>::empty(),
            naive_or,
        ) + evals_and(ss, i + 1, plan_sem(ss[i], Set::<u32>::empty()), naive_or));
    }
}

/// Once the remaining candidate of a `SeqOr` is empty, the remaining steps
/// evaluate no atom at all.
pub proof fn lemma_evals_or_empty(ss: Seq<Plan>, i: int)
    ensures
        evals_or(ss, i, Set::<u32>::empty()) == 0,
    decreases ss.len() - i,
{
    if 0 <= i < ss.len() {
        lemma_plan_sem_empty(ss[i]);
        assert(Set::<u32>::empty().difference(plan_sem(ss[i], Set::<u32>::empty()))
            =~= Set::<u32>::empty());
        lemma_evals_or_empty(ss, i + 1);
        assert(evals_of(ss[i], Set::<u32>::empty(), false) == 0);
        assert(evals_or(ss, i, Set::<u32>::empty()) == evals_of(ss[i], Set::<u32>::empty(), false)
            + evals_or(
            ss,
            i + 1,
            Set::<u32>::empty().difference(plan_sem(ss[i], Set::<u32>::empty())),
        ));
    }
}

/// Walks the plan against the candidate, counting atom evaluations.
#[verifier::loop_isolation(false)]
fn run_plan(p: &Plan, candidate: &roaring::RoaringBitmap, naive_or: bool, stats: &mut ExecStats) -> (r:
    roaring::RoaringBitmap)
    ensures
        bitmap_rows(r) == plan_sem(*p, bitmap_rows(*candidate)),
        bitmap_rows(r).finite(),
        final(stats).num_preds_evaled == sat_add_nat(
            old(stats).num_preds_evaled,
            evals_of(*p, bitmap_rows(*candidate), naive_or),
        ),
        final(stats).pred_only_time_ms >= old(stats).pred_only_time_ms,
        final(stats).plan_time_ms == old(stats).plan_time_ms,
        final(stats).total_time_ms == old(stats).total_time_ms,
        final(stats).num_plans_considered == old(stats).num_plans_considered,
    decreases *p,
{
    let ghost c0 = bitmap_rows(*candidate);
    if bm_is_empty(candidate) {
        let r = bm_new();
        proof {
            assert(bitmap_rows(r) =~= plan_sem(*p, c0));
        }
        return r;
    }
    match p {
        Plan::EvalAtom(a) => {
            let r = a.eval(candidate, stats);
            proof {
                assert(bitmap_rows(r) =~= plan_sem(*p, c0));
            }
            r
        },
        Plan::SeqAnd(ss) => {
            let mut cur = candidate.clone();
            let ghost mut done: nat = 0;
            let mut i: usize = 0;
            while i < ss.len()
                invariant
                    0 <= i <= ss@.len(),
                    bitmap_rows(cur) == and_cand(ss@, i as int, c0),
                    bitmap_rows(cur).finite(),
                    stats.num_preds_evaled == sat_add_nat(old(stats).num_preds_evaled, done),
                    done + evals_and(ss@, i as int, bitmap_rows(cur), naive_or) == evals_and(
                        ss@,
                        0,
                        c0,
                        naive_or,
                    ),
                    stats.pred_only_time_ms >= old(stats).pred_only_time_ms,
                    stats.plan_time_ms == old(stats).plan_time_ms,
                    stats.total_time_ms == old(stats).total_time_ms,
                    stats.num_plans_considered == old(stats).num_plans_considered,
                decreases ss@.len() - i,
            {
                proof {
                    assert(decreases_to!(*p => p->SeqAnd_0));
                    assert(decreases_to!(p->SeqAnd_0 => p->SeqAnd_0@));
                    assert(decreases_to!(p->SeqAnd_0@ => p->SeqAnd_0@[i as int]));
                    assert(decreases_to!(*p => ss@[i as int]));
                }
                let ghost cur_rows = bitmap_rows(cur);
                let ghost done_before = done;
                let next = run_plan(&ss[i], &cur, naive_or, stats);
                proof {
                    crate::stats::lemma_sat_add_nat_chain(
                        old(stats).num_preds_evaled,
                        done_before,
                        evals_of(ss@[i as int], cur_rows, naive_or),
                    );
                    done = done_before + evals_of(ss@[i as int], cur_rows, naive_or);
                }
                cur = next;
                i += 1;
                if bm_is_empty(&cur) {
                    proof {
                        lemma_evals_and_empty(ss@, i as int, naive_or);
                        lemma_and_cand_char(ss@, i as int, c0);
                        assert(bitmap_rows(cur) =~= plan_sem(*p, c0));
                    }
                    return cur;
                }
            }
            proof {
                lemma_and_cand_char(ss@, ss@.len() as int, c0);
                assert(bitmap_rows(cur) =~= plan_sem(*p, c0));
            }
            cur
        },
        Plan::SeqOr(ss) => {
            if naive_or {
                let mut accum = bm_new();
                let ghost mut done: nat = 0;
                let mut i: usize = 0;
                while i < ss.len()
                    invariant
                        0 <= i <= ss@.len(),
                        bitmap_rows(accum) == Set::new(
                            |x: u32| c0.contains(x) && (exists|j: int|
                                0 <= j < i && plan_holds(#[trigger] ss@[j], x)),
                        ),
                        bitmap_rows(accum).finite(),
                        stats.num_preds_evaled == sat_add_nat(old(stats).num_preds_evaled, done),
                        done + evals_or_naive(ss@, i as int, c0) == evals_or_naive(ss@, 0, c0),
                        stats.pred_only_time_ms >= old(stats).pred_only_time_ms,
                        stats.plan_time_ms == old(stats).plan_time_ms,
                        stats.total_time_ms == old(stats).total_time_ms,
                        stats.num_plans_considered == old(stats).num_plans_considered,
                    decreases ss@.len() - i,
                {
                    proof {
                        assert(decreases_to!(*p => p->SeqOr_0));
                        assert(decreases_to!(p->SeqOr_0 => p->SeqOr_0@));
                        assert(decreases_to!(p->SeqOr_0@ => p->SeqOr_0@[i as int]));
                        assert(decreases_to!(*p => ss@[i as int]));
                    }
                    let ghost done_before = done;
                    let part = run_plan(&ss[i], candidate, naive_or, stats);
                    proof {
                        crate::stats::lemma_sat_add_nat_chain(
                            old(stats).num_preds_evaled,
                            done_before,
                            evals_of(ss@[i as int], c0, naive_or),
                        );
                        done = done_before + evals_of(ss@[i as int], c0, naive_or);
                    }
                    let joined = bm_or(&accum, &part);
                    proof {
                        assert(bitmap_rows(joined) =~= Set::new(
                            |x: u32| c0.contains(x) && (exists|j: int|
                                0 <= j < i + 1 && plan_holds(#[trigger] ss@[j], x)),
                        ));
                    }
                    accum = joined;
                    i += 1;
                }
                proof {
                    assert(bitmap_rows(accum) =~= plan_sem(*p, c0));
                }
                accum
            } else {
                let mut remaining = candidate.clone();
                let mut accum = bm_new();
                let ghost mut done: nat = 0;
                let mut i: usize = 0;
                while i < ss.len()
                    invariant
                        0 <= i <= ss@.len(),
                        bitmap_rows(remaining) == or_rem(ss@, i as int, c0),
                        bitmap_rows(remaining).finite(),
                        bitmap_rows(accum) == Set::new(
                            |x: u32| c0.contains(x) && (exists|j: int|
                                0 <= j < i && plan_holds(#[trigger] ss@[j], x)),
                        ),
                        bitmap_rows(accum).finite(),
                        stats.num_preds_evaled == sat_add_nat(old(stats).num_preds_evaled, done),
                        done + evals_or(ss@, i as int, bitmap_rows(remaining)) == evals_or(
                            ss@,
                            0,
                            c0,
                        ),
                        stats.pred_only_time_ms >= old(stats).pred_only_time_ms,
                        stats.plan_time_ms == old(stats).plan_time_ms,
                        stats.total_time_ms == old(stats).total_time_ms,
                        stats.num_plans_considered == old(stats).num_plans_considered,
                    decreases ss@.len() - i,
                {
                    proof {
                        assert(decreases_to!(*p => p->SeqOr_0));
                        assert(decreases_to!(p->SeqOr_0 => p->SeqOr_0@));
                        assert(decreases_to!(p->SeqOr_0@ => p->SeqOr_0@[i as int]));
                        assert(decreases_to!(*p => ss@[i as int]));
                    }
                    let ghost rem_rows = bitmap_rows(remaining);
                    let ghost done_before = done;
                    let part = run_plan(&ss[i], &remaining, naive_or, stats);
                    proof {
                        crate::stats::lemma_sat_add_nat_chain(
                            old(stats).num_preds_evaled,
                            done_before,
                            evals_of(ss@[i as int], rem_rows, naive_or),
                        );
                        done = done_before + evals_of(ss@[i as int], rem_rows, naive_or);
                        lemma_or_rem_char(ss@, i as int, c0);
                    }
                    let joined = bm_or(&accum, &part);
                    proof {
                        assert(bitmap_rows(joined) =~= Set::new(
                            |x: u32| c0.contains(x) && (exists|j: int|
                                0 <= j < i + 1 && plan_holds(#[trigger] ss@[j], x)),
                        ));
                    }
                    accum = joined;
                    remaining = bm_sub(&remaining, &part);
                    i += 1;
                    if bm_is_empty(&remaining) {
                        proof {
                            assert(bitmap_rows(remaining) == or_rem(ss@, i as int, c0));
                            lemma_evals_or_empty(ss@, i as int);
                            lemma_or_rem_char(ss@, i as int, c0);
                            assert forall|x: u32|
                                bitmap_rows(accum).contains(x) == plan_sem(*p, c0).contains(
                                    x,
                                ) by {
                                if c0.contains(x) && plan_holds(*p, x) {
                                    assert(!or_rem(ss@, i as int, c0).contains(x));
                                    assert(!(forall|j: int|
                                        0 <= j < i ==> !plan_holds(#[trigger] ss@[j], x)));
                                }
                            }
                            assert(bitmap_rows(accum) =~= plan_sem(*p, c0));
                        }
                        return accum;
                    }
                }
                proof {
                    assert(bitmap_rows(accum) =~= plan_sem(*p, c0));
                }
                accum
            }
        },
    }
}

/// Runs a plan against the initial candidate and returns the selected rows.
/// The result is exactly the rows of the candidate satisfying the plan's
/// formula; `num_preds_evaled` grows by exactly the evaluations the plan's
/// short-circuit discipline performs, and the timers never decrease.
pub fn run_filter(
    p: &Plan,
    initial_candidate: &roaring::RoaringBitmap,
    params: &ExecParams,
    stats: &mut ExecStats,
) -> (r: roaring::RoaringBitmap)
    ensures
        bitmap_rows(r) == plan_sem(*p, bitmap_rows(*initial_candidate)),
        bitmap_rows(r).finite(),
        final(stats).num_preds_evaled == sat_add_nat(
            old(stats).num_preds_evaled,
            evals_of(*p, bitmap_rows(*initial_candidate), params.disable_or_opt),
        ),
        final(stats).num_preds_evaled >= old(stats).num_preds_evaled,
        final(stats).total_time_ms >= old(stats).total_time_ms,
        final(stats).pred_only_time_ms >= old(stats).pred_only_time_ms,
        final(stats).plan_time_ms == old(stats).plan_time_ms,
        final(stats).num_plans_considered == old(stats).num_plans_considered,
{
    let start = clock_now();
    let r = run_plan(p, initial_candidate, params.disable_or_opt, stats);
    let ms = clock_elapsed_ms(&start);
    stats.note_total_time(ms);
    proof {
        lemma_sat_add_nat_ge(
            old(stats).num_preds_evaled,
            evals_of(*p, bitmap_rows(*initial_candidate), params.disable_or_opt),
        );
    }
    r
}

} // verus!
