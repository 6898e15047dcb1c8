//! Errors reported by the library.
use vstd::prelude::*;

verus! {

/// Every way in which an operation of the library can refuse its input.
#[derive(Debug, Clone, Copy, PartialEq, Eq, Structural)]
pub enum StarkError {
    /// The number-theoretic transform was given a length that is not a power of two.
    NttSizeNotPowerOfTwo,
    /// The field has no root of unity of the requested order.
    NoRootOfUnity,
    /// A root of unity could not be inverted.
    RootNotInvertible,
    /// The transform length could not be inverted in the field.
    SizeNotInvertible,
    /// Polynomial division by the zero polynomial.
    DivisionByZero,
    /// The leading coefficient of a divisor has no inverse.
    LeadingCoefficientNotInvertible,
    /// A blowup factor that is not a power of two.
    BlowupNotPowerOfTwo,
    /// A domain larger than the field's two-adic subgroup.
    DomainTooLarge,
    /// The last element of the trace differs from the claimed result.
    ResultMismatch,
    /// The AIR expects exactly one trace polynomial.
    WrongTraceColumnCount,
    /// The trace-domain generator has no inverse.
    GeneratorNotInvertible,
    /// The boundary constraint a_0 = 1 leaves a remainder.
    FirstBoundaryRemainder,
    /// The boundary constraint a_{n-1} = result leaves a remainder.
    LastBoundaryRemainder,
    /// The zerofier division leaves a remainder.
    ZerofierRemainder,
    /// The transition constraint division leaves a remainder.
    TransitionRemainder,
    /// Too few trace evaluations were given.
    NotEnoughTraceEvaluations,
    /// The evaluation point is the first trace point (z = 1).
    PointIsFirstRow,
    /// The evaluation point is the last trace point.
    PointIsLastRow,
    /// A Merkle leaf index beyond the tree.
    LeafIndexOutOfBounds,
    /// The polynomial handed to FRI has a length that is not a power of two.
    FriLengthNotPowerOfTwo,
    /// A FRI proof without commitment.
    MissingCommitment,
    /// A FRI query without a derived query index.
    MissingQueryIndex,
    /// A FRI layer without Merkle root.
    MissingRoot,
    /// A Merkle authentication path does not lead to the committed root.
    InvalidMerkleProof,
    /// Two successive FRI layers disagree on a folded value.
    FoldingMismatch,
    /// The final FRI polynomial disagrees with the last folded value.
    FinalEvaluationMismatch,
    /// The final FRI polynomial has too high a degree.
    FinalDegreeTooHigh,
}

} // verus!
