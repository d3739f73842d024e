//! The ways a stage of the pipeline can fail.
use vstd::prelude::*;

verus! {

#[derive(Debug, Clone, Copy, PartialEq, Eq, Structural)]
pub enum PipelineError {
    /// The listing service answered with this status, which is neither a
    /// success nor an authentication failure.
    Network(u16),
    /// The listing service refused the credentials.
    Auth,
    /// A field or column that the stage needs is missing or of another kind.
    Schema,
    /// The earnings column is missing, or one of its values holds no amount.
    Parse,
    /// A join key column is missing.
    Join,
    /// A sum or a product does not fit the number range.
    Overflow,
}

} // verus!
