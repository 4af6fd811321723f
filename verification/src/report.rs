//! An error as a client of the database reads it.
use vstd::prelude::*;

verus! {

/// What went wrong, and what can be done about it. Parts that say nothing are empty.
#[derive(Clone, Debug, PartialEq, Eq)]
pub struct Report {
    pub message: String,
    pub detail: String,
    pub hint: String,
    /// The five characters by which clients tell errors apart.
    pub state: String,
}

#[verifier::ext_equal]
pub struct ReportView {
    pub message: Seq<char>,
    pub detail: Seq<char>,
    pub hint: Seq<char>,
    pub state: Seq<char>,
}

impl View for Report {
    type V = ReportView;

    open spec fn view(&self) -> ReportView {
        ReportView {
            message: self.message@,
            detail: self.detail@,
            hint: self.hint@,
            state: self.state@,
        }
    }
}

pub fn report(message: String, detail: String, hint: &str, state: &str) -> (r: Report)
    ensures
        r@ == (ReportView { message: message@, detail: detail@, hint: hint@, state: state@ }),
{
    Report { message, detail, hint: hint.to_owned(), state: state.to_owned() }
}

/// The state of an error that nothing more is known of.
pub open spec fn internal(message: Seq<char>) -> ReportView {
    ReportView { message, detail: ""@, hint: ""@, state: "XX000"@ }
}

/// An error that nothing more is known of.
pub fn internal_error(message: String) -> (r: Report)
    ensures
        r@ == internal(message@),
{
    report(message, "".to_owned(), "", "XX000")
}

} // verus!
