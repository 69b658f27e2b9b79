use vstd::prelude::*;

verus! {

/// `std::time::Instant`, declared so that wall-clock measurement points can
/// pass through verified code. Nothing is assumed about clock values.
#[verifier::external_type_specification]
#[verifier::external_body]
pub struct ExInstant(std::time::Instant);

/// Relies on `std::time::Instant::now`. The clock reading is opaque: nothing
/// is claimed about it.
#[verifier::external_body]
pub fn clock_now() -> std::time::Instant {
    std::time::Instant::now()
}

/// Relies on `std::time::Instant::elapsed`: milliseconds since `start`. The
/// value depends on the clock, so nothing is claimed about it.
#[verifier::external_body]
pub fn clock_elapsed_ms(start: &std::time::Instant) -> u128 {
    start.elapsed().as_millis()
}

/// Addition on counters that sticks at the largest value instead of wrapping.
pub open spec fn sat_add_u128(a: u128, b: u128) -> u128 {
    if a + b <= u128::MAX {
        (a + b) as u128
    } else {
        u128::MAX
    }
}

/// Saturating addition of a mathematical count to a counter.
pub open spec fn sat_add_nat(a: u128, b: nat) -> u128 {
    if a + b <= u128::MAX {
        (a + b) as u128
    } else {
        u128::MAX
    }
}

/// Saturating additions fold: adding in two pieces is adding the sum.
pub proof fn lemma_sat_add_nat_chain(a: u128, m: nat, n: nat)
    ensures
        sat_add_nat(sat_add_nat(a, m), n) == sat_add_nat(a, m + n),
{
}

/// A saturating addition never decreases the counter.
pub proof fn lemma_sat_add_nat_ge(a: u128, n: nat)
    ensures
        sat_add_nat(a, n) >= a,
{
}

fn add_sat(a: u128, b: u128) -> (r: u128)
    ensures
        r == sat_add_u128(a, b),
{
    if a <= u128::MAX - b {
        a + b
    } else {
        u128::MAX
    }
}

/// Counters updated during planning and filter execution. Each counter is
/// non-decreasing over the life of the value; additions saturate rather than
/// wrap.
pub struct ExecStats {
    pub plan_time_ms: u128,
    pub total_time_ms: u128,
    pub pred_only_time_ms: u128,
    pub num_preds_evaled: u128,
    pub num_plans_considered: u128,
}

impl ExecStats {
    pub fn new() -> (r: ExecStats)
        ensures
            r.plan_time_ms == 0,
            r.total_time_ms == 0,
            r.pred_only_time_ms == 0,
            r.num_preds_evaled == 0,
            r.num_plans_considered == 0,
    {
        ExecStats {
            plan_time_ms: 0,
            total_time_ms: 0,
            pred_only_time_ms: 0,
            num_preds_evaled: 0,
            num_plans_considered: 0,
        }
    }

    /// One atom evaluation took `ms` milliseconds.
    pub fn note_pred_eval(&mut self, ms: u128)
        ensures
            final(self).num_preds_evaled == sat_add_u128(old(self).num_preds_evaled, 1),
            final(self).pred_only_time_ms == sat_add_u128(old(self).pred_only_time_ms, ms),
            final(self).plan_time_ms == old(self).plan_time_ms,
            final(self).total_time_ms == old(self).total_time_ms,
            final(self).num_plans_considered == old(self).num_plans_considered,
    {
        self.num_preds_evaled = add_sat(self.num_preds_evaled, 1);
        self.pred_only_time_ms = add_sat(self.pred_only_time_ms, ms);
    }

    /// Planning took `ms` more milliseconds.
    pub fn note_plan_time(&mut self, ms: u128)
        ensures
            final(self).plan_time_ms == sat_add_u128(old(self).plan_time_ms, ms),
            final(self).total_time_ms == old(self).total_time_ms,
            final(self).pred_only_time_ms == old(self).pred_only_time_ms,
            final(self).num_preds_evaled == old(self).num_preds_evaled,
            final(self).num_plans_considered == old(self).num_plans_considered,
    {
        self.plan_time_ms = add_sat(self.plan_time_ms, ms);
    }

    /// A whole `run_filter` call took `ms` more milliseconds.
    pub fn note_total_time(&mut self, ms: u128)
        ensures
            final(self).total_time_ms == sat_add_u128(old(self).total_time_ms, ms),
            final(self).plan_time_ms == old(self).plan_time_ms,
            final(self).pred_only_time_ms == old(self).pred_only_time_ms,
            final(self).num_preds_evaled == old(self).num_preds_evaled,
            final(self).num_plans_considered == old(self).num_plans_considered,
    {
        self.total_time_ms = add_sat(self.total_time_ms, ms);
    }

    /// The planner scored one more candidate plan.
    pub fn note_plan_considered(&mut self)
        ensures
            final(self).num_plans_considered == sat_add_u128(old(self).num_plans_considered, 1),
            final(self).plan_time_ms == old(self).plan_time_ms,
            final(self).total_time_ms == old(self).total_time_ms,
            final(self).pred_only_time_ms == old(self).pred_only_time_ms,
            final(self).num_preds_evaled == old(self).num_preds_evaled,
    {
        self.num_plans_considered = add_sat(self.num_plans_considered, 1);
    }
}

} // verus!
