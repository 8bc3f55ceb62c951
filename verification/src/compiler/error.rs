use vstd::prelude::*;

verus! {

/// Errors of the chronal compiler.
#[derive(Clone, Debug)]
pub enum CompileError {
    /// Malformed source at a 1-based line.
    Parse { line: usize, message: String },
    /// An equation mentions a register that is not declared.
    UndefinedRegister(String),
    /// A register is declared twice.
    DuplicateRegister(String),
    /// A retrocausal edge references an unknown register.
    BadRetrocausalEdge { from: String, to: String },
    /// A register has no evolve equation: the CTC block is underdetermined.
    MissingEvolution(String),
    /// Lowering failed.
    Lowering(String),
    /// The fixed-point kernel rejected the lowered system.
    Kernel(String),
}

} // verus!
