//! The decisions behind the user-facing actions that otherwise only drive
//! external helper binaries.
use vstd::prelude::*;
use vstd::string::StrSliceExecFns;

use crate::text::{trim_spec, trim_str};

verus! {

/// Presence of the two external helper binaries.
pub struct DependencyStatus {
    pub journal_ai: bool,
    pub file_journal: bool,
}

pub fn dependency_status(journal_ai: bool, file_journal: bool) -> (r: DependencyStatus)
    ensures
        r.journal_ai == journal_ai,
        r.file_journal == file_journal,
{
    DependencyStatus { journal_ai, file_journal }
}

/// Whether new-entry content is acceptable: blank content is rejected.
pub fn entry_content_ok(content: &str) -> (r: bool)
    ensures
        r == (trim_spec(content@).len() != 0),
{
    trim_str(content).unicode_len() != 0
}

/// Which summary the external summarizer is asked for.
#[derive(Clone, Copy, Debug, PartialEq, Eq, Structural)]
pub enum SummarizeMode {
    Today,
    Week,
    PreviousWeek,
}

/// The previous-week request wins over the week request; with neither
/// requested, today's summary stands.
pub fn summarize_mode(week: Option<bool>, previous_week: Option<bool>) -> (r: SummarizeMode)
    ensures
        previous_week == Some(true) ==> r == SummarizeMode::PreviousWeek,
        previous_week != Some(true) && week == Some(true) ==> r == SummarizeMode::Week,
        previous_week != Some(true) && week != Some(true) ==> r == SummarizeMode::Today,
{
    let pw = match previous_week {
        Some(b) => b,
        None => false,
    };
    let w = match week {
        Some(b) => b,
        None => false,
    };
    if pw {
        SummarizeMode::PreviousWeek
    } else if w {
        SummarizeMode::Week
    } else {
        SummarizeMode::Today
    }
}

} // verus!
