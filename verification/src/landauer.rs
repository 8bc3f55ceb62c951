use vstd::prelude::*;

verus! {

/// The kind of chronal operation a thermodynamic event accounts for.
#[derive(Clone, Copy, Debug, PartialEq, Eq, Structural)]
pub enum LandauerOp {
    /// Irreversible bit erasure (costs energy).
    EraseBits,
    /// Paradox / branch prune (dissipates structured information).
    PruneBranch,
    /// Fixed-point residual reduction (can harvest free energy).
    ConvergeResidual,
    /// Multiverse collapse merge.
    CollapseMerge,
}

} // verus!
