use vstd::prelude::*;

verus! {

/// Why a compilation stopped. Every error is final: no pass goes on after
/// one.
#[derive(Debug, Clone, Copy, PartialEq, Eq, Structural)]
pub enum CompileError {
    /// An operand refers to a node that is out of range, vacated or never
    /// filled.
    ParseLink,
    /// A module, binding, argument or constant is defined twice.
    Redefinition,
    /// A name is no binding, constant or module.
    Undefined,
    /// The number of outputs differs from the declared returns, or a
    /// multiple binding from the returns of the module it calls.
    ArityMismatch,
    /// A literal fits neither a signed nor an unsigned 32-bit integer.
    NarrowOverflow,
    /// The symbol constraints contradict each other.
    TypeConflict,
    /// The two ends of an operand already belong to different nets.
    PlacementConflict,
    /// Both operands of a combinator come from module inputs.
    InputAmbiguity,
    /// A multi-driver reaches itself through multi-drivers.
    ShortCycle,
    /// A node cannot be emitted as it stands.
    EmitInvalid,
    /// A constant expression has no value: a division by zero or a negative
    /// exponent.
    FoldUndefined,
    /// A count or coordinate left the range of its type, or a repair loop
    /// used up its passes.
    Limit,
    /// A statement follows the outputs of its module.
    AfterOutput,
    /// The source text is no program of the language.
    Syntax,
}

} // verus!
