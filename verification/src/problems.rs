//! The shared scaffolding of the three optimizers: the typestate phase tags
//! and the reporting capability of a finished search.
//!
//! Every optimizer exists in exactly two phases. A `Pendent` value is under
//! construction and owns nothing but its problem parameters; a `Ready` value
//! is produced only by the optimizer's search operation and is the only phase
//! that can report. Because the phases are distinct types, asking an
//! unsearched optimizer for its result is a compile-time error.

pub mod jump_optim;
pub mod menu_optim;
pub mod score_optim;

use vstd::prelude::*;

verus! {

/// The pendent state of an optimizer: parameters accepted, search not yet run.
#[derive(Debug)]
pub struct Pendent;

/// The ready state of an optimizer: search complete, result recorded.
#[derive(Debug)]
pub struct Ready;

/// The reporting capability of a finished search.
///
/// Only the `Ready` phase of an optimizer implements this trait. The text is
/// a pure function of the optimizer's recorded state, which is what makes
/// repeated calls yield identical reports.
pub trait Report {
    /// The text of the report, as a mathematical sequence of characters.
    spec fn spec_report(&self) -> Seq<char>;

    /// Renders the report.
    fn report(&self) -> (text: String)
        ensures
            text@ == self.spec_report(),
    ;
}

/// Reporting is deterministic: two reports drawn from the same finished
/// optimizer are the same text, no matter how often `report` is called.
pub proof fn lemma_report_deterministic<T: Report>(t: &T, text1: Seq<char>, text2: Seq<char>)
    requires
        text1 == t.spec_report(),
        text2 == t.spec_report(),
    ensures
        text1 == text2,
{
}

} // verus!
