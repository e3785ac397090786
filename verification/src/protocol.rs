//! The questions of a request, as the prompt reads them: TypeSafe's three
//! kinds with their instructions and criteria already reduced to text
//! (a structured value reaches the prompt as its compact JSON, `null` as
//! nothing).
use vstd::prelude::*;

verus! {

/// A Noul's optional descriptions of its two answers.
#[derive(Debug, Clone)]
pub struct NoulCriteria {
    pub is_true: String,
    pub is_false: String,
}

/// One option of a Choice: its key and its description (empty for none).
#[derive(Debug, Clone)]
pub struct ChoiceOption {
    pub key: String,
    pub description: String,
}

/// A typed question.
#[derive(Debug, Clone)]
#[allow(inconsistent_fields)]
pub enum Question {
    /// Yes or no.
    Noul { instructions: String, criteria: Option<NoulCriteria> },
    /// One of named options, in the request's order.
    Choice { instructions: String, criteria: Vec<ChoiceOption> },
    /// A level of an ordered scale, lowest first.
    Score { instructions: String, criteria: Vec<String> },
}

impl Question {
    /// How many options the subject chooses among.
    pub open spec fn options(&self) -> nat {
        match self {
            Question::Noul { .. } => 2,
            Question::Choice { criteria, .. } => criteria@.len(),
            Question::Score { criteria, .. } => criteria@.len(),
        }
    }
}

} // verus!
