use vstd::prelude::*;

verus! {

/// Why an index operation or a rank distance could not be computed.
#[derive(Clone, Copy, Debug, PartialEq, Eq, Structural)]
pub enum RankError {
    /// The two point sets differ in their number of rows or of columns.
    ShapeMismatch,
    /// A point does not have as many coordinates as the index or point set it
    /// is meant for.
    DimensionMismatch,
    /// The point sets have no rows.
    EmptyInputError,
    /// A nearest-neighbor sequence does not hold the identity looked for.
    InvariantViolation,
    /// An index was asked for with dimension zero.
    ConfigurationError,
}

impl RankError {
    /// The text of `message`.
    pub open spec fn message_text(self) -> Seq<char> {
        match self {
            RankError::ShapeMismatch => "The two arrays must have the same shape."@,
            RankError::DimensionMismatch => "A point has the wrong number of coordinates."@,
            RankError::EmptyInputError => "The two arrays must have at least one row."@,
            RankError::InvariantViolation => "No neighbor carries the expected identity."@,
            RankError::ConfigurationError => "The dimension must be positive."@,
        }
    }

    /// A sentence for the caller's error report.
    pub fn message(&self) -> (text: &'static str)
        ensures
            text@ == self.message_text(),
    {
        match self {
            RankError::ShapeMismatch => "The two arrays must have the same shape.",
            RankError::DimensionMismatch => "A point has the wrong number of coordinates.",
            RankError::EmptyInputError => "The two arrays must have at least one row.",
            RankError::InvariantViolation => "No neighbor carries the expected identity.",
            RankError::ConfigurationError => "The dimension must be positive.",
        }
    }
}

} // verus!
