use vstd::prelude::*;

verus! {

/// Which planning strategy turns a predicate tree into an evaluation plan.
#[derive(Clone, Copy, PartialEq, Eq, Structural, Debug)]
pub enum ApproxOptType {
    EvalPred,
    Tdacb,
    BDCWithBestD,
    OnePredLookahead,
}

/// Configuration consumed by the planner and the filter executor. With
/// `disable_or_opt`, every OR child is evaluated against the full incoming
/// candidate instead of the remaining one.
#[derive(Clone, Copy, PartialEq, Eq, Structural, Debug)]
pub struct ExecParams {
    pub approx_opt_type: ApproxOptType,
    pub disable_or_opt: bool,
}

impl Default for ExecParams {
    fn default() -> (r: Self)
        ensures
            r.approx_opt_type == ApproxOptType::EvalPred,
            r.disable_or_opt == false,
    {
        ExecParams { approx_opt_type: ApproxOptType::EvalPred, disable_or_opt: false }
    }
}

} // verus!
