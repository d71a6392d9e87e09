//! The error type shared by every fallible operation of the library.

use vstd::prelude::*;

verus! {

/// What can go wrong in an operation of the library.
#[derive(Clone, Debug)]
pub enum JeromeError {
    /// A complete assignment was required and some variable had no value.
    IncompleteAssignment,
    /// A constraint on a scope was not satisfied.
    InvalidScope,
    /// A nonzero entry was divided by zero, or a table of total mass zero was
    /// normalized.
    DivideByZero,
    /// A parent variable was expected in the model and not found.
    MissingParent,
    /// A variable was present twice where it may be present once.
    DuplicateVariable,
    /// A conditional probability distribution was expected.
    NotACPD,
    /// A variable was initialized in a way that its parents or its
    /// cardinality do not allow.
    InvalidInitialization,
    /// A probability was not positive.
    NonPositiveProbability,
    /// Not enough data was provided.
    NotEnoughData,
    /// A state was assigned that the variable's cardinality does not admit.
    OutOfRange,
    /// A variable was assigned a second time.
    DuplicateAssignment,
    /// Any other error, with its description.
    General(String),
    /// An unknown error condition.
    Unknown,
}

impl JeromeError {
    /// The text that `description` returns for this error.
    pub open spec fn message(&self) -> Seq<char> {
        match self {
            JeromeError::IncompleteAssignment => "Missing assignments to the required Variables"@,
            JeromeError::InvalidScope => "Provided scope did not satisfy constraints"@,
            JeromeError::DivideByZero => "Encountered division by zero"@,
            JeromeError::MissingParent => "Missing a parent from the model"@,
            JeromeError::DuplicateVariable => "A variable was encountered twice"@,
            JeromeError::NotACPD => "Requires a Conditional Probability Distribution"@,
            JeromeError::InvalidInitialization => "An invalid initialization was provided"@,
            JeromeError::NonPositiveProbability => "Encountered a non-positive probability"@,
            JeromeError::NotEnoughData => "Not enough data has been provided"@,
            JeromeError::OutOfRange => "A value outside the domain of the variable was assigned"@,
            JeromeError::DuplicateAssignment => "A variable was assigned twice"@,
            JeromeError::General(text) => text@,
            JeromeError::Unknown => "An unknown error occured"@,
        }
    }

    /// A short description of the error, for display.
    pub fn description(&self) -> (text: String)
        ensures
            text@ == self.message(),
    {
        match self {
            JeromeError::IncompleteAssignment => "Missing assignments to the required Variables".to_owned(),
            JeromeError::InvalidScope => "Provided scope did not satisfy constraints".to_owned(),
            JeromeError::DivideByZero => "Encountered division by zero".to_owned(),
            JeromeError::MissingParent => "Missing a parent from the model".to_owned(),
            JeromeError::DuplicateVariable => "A variable was encountered twice".to_owned(),
            JeromeError::NotACPD => "Requires a Conditional Probability Distribution".to_owned(),
            JeromeError::InvalidInitialization => "An invalid initialization was provided".to_owned(),
            JeromeError::NonPositiveProbability => "Encountered a non-positive probability".to_owned(),
            JeromeError::NotEnoughData => "Not enough data has been provided".to_owned(),
            JeromeError::OutOfRange => "A value outside the domain of the variable was assigned".to_owned(),
            JeromeError::DuplicateAssignment => "A variable was assigned twice".to_owned(),
            JeromeError::General(text) => text.clone(),
            JeromeError::Unknown => "An unknown error occured".to_owned(),
        }
    }
}

} // verus!
