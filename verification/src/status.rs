//! Task statuses: the two recognized states plus a free-text fallback.
//!
//! Parsing is deliberately total: any input string maps to a status. The
//! input is lower-cased and trimmed; `"todo"` and `"complete"` select the
//! named variants and everything else becomes `Other` with the normalized
//! text as its label.

use vstd::prelude::*;

verus! {

/// The classification of a task.
#[derive(Debug, PartialEq, Eq)]
pub enum TaskStatus {
    Todo,
    Complete,
    Other(String),
}

/// The mathematical value of a [`TaskStatus`]: the label of the fallback
/// variant is taken as its character sequence.
pub enum StatusView {
    Todo,
    Complete,
    Other(Seq<char>),
}

impl View for TaskStatus {
    type V = StatusView;

    open spec fn view(&self) -> StatusView {
        match self {
            TaskStatus::Todo => StatusView::Todo,
            TaskStatus::Complete => StatusView::Complete,
            TaskStatus::Other(label) => StatusView::Other(label@),
        }
    }
}

/// The characters of `s` lower-cased, as `str::to_lowercase` computes them.
/// The result depends on the characters of `s` alone.
pub uninterp spec fn lower_of(s: Seq<char>) -> Seq<char>;

/// A character of the Unicode `White_Space` set, the set `str::trim`
/// strips.
pub open spec fn is_space(c: char) -> bool {
    c == '\u{9}' || c == '\u{a}' || c == '\u{b}' || c == '\u{c}' || c == '\u{d}' || c == ' ' || c
        == '\u{85}' || c == '\u{a0}' || c == '\u{1680}' || c == '\u{2000}' || c == '\u{2001}' || c
        == '\u{2002}' || c == '\u{2003}' || c == '\u{2004}' || c == '\u{2005}' || c == '\u{2006}'
        || c == '\u{2007}' || c == '\u{2008}' || c == '\u{2009}' || c == '\u{200a}' || c
        == '\u{2028}' || c == '\u{2029}' || c == '\u{202f}' || c == '\u{205f}' || c == '\u{3000}'
}

/// The characters of `s` with leading and trailing whitespace removed.
pub open spec fn trim_of(s: Seq<char>) -> Seq<char>
    decreases s.len(),
{
    if s.len() > 0 && is_space(s[0]) {
        trim_of(s.skip(1))
    } else if s.len() > 0 && is_space(s.last()) {
        trim_of(s.drop_last())
    } else {
        s
    }
}

/// Relies on `str::to_lowercase`: the Unicode lowercase mapping of the
/// input, a function of its characters alone.
#[verifier::external_body]
fn lowercase(s: &str) -> (r: String)
    ensures
        r@ == lower_of(s@),
{
    s.to_lowercase()
}

/// Relies on `str::trim`: the input without leading and trailing Unicode
/// whitespace, exactly as `trim_of` removes it.
#[verifier::external_body]
fn trim(s: &str) -> (r: &str)
    ensures
        r@ == trim_of(s@),
{
    s.trim()
}

/// The status a string denotes: lower-case it, trim it, and pick the
/// recognized variant, or keep the normalized text as a free-text label.
pub open spec fn spec_parse_status(s: Seq<char>) -> StatusView {
    let t = trim_of(lower_of(s));
    if t == "todo"@ {
        StatusView::Todo
    } else if t == "complete"@ {
        StatusView::Complete
    } else {
        StatusView::Other(t)
    }
}

/// The text shown for a status in listings: the variant name, or the
/// label itself for the free-text variant.
pub open spec fn status_display(st: StatusView) -> Seq<char> {
    match st {
        StatusView::Todo => "Todo"@,
        StatusView::Complete => "Complete"@,
        StatusView::Other(label) => label,
    }
}

impl TaskStatus {
    /// Parse a status from user input. Total: every string yields a status.
    pub fn parse(s: &str) -> (r: TaskStatus)
        ensures
            r@ == spec_parse_status(s@),
    {
        let lowered = lowercase(s);
        let t = trim(lowered.as_str());
        let t_string = t.to_owned();
        if t_string.eq(&"todo".to_owned()) {
            TaskStatus::Todo
        } else if t_string.eq(&"complete".to_owned()) {
            TaskStatus::Complete
        } else {
            TaskStatus::Other(t_string)
        }
    }

    /// The text shown for this status in listings.
    pub open spec fn spec_display(self) -> Seq<char> {
        status_display(self@)
    }

    /// The display text: the variant name, or the label itself for the
    /// free-text variant.
    pub fn display_string(&self) -> (r: String)
        ensures
            r@ == self.spec_display(),
    {
        match self {
            TaskStatus::Todo => "Todo".to_owned(),
            TaskStatus::Complete => "Complete".to_owned(),
            TaskStatus::Other(label) => label.clone(),
        }
    }

    /// Value equality of two statuses, decided on their views.
    pub fn status_eq(&self, other: &TaskStatus) -> (r: bool)
        ensures
            r == (self@ == other@),
    {
        match (self, other) {
            (TaskStatus::Todo, TaskStatus::Todo) => true,
            (TaskStatus::Complete, TaskStatus::Complete) => true,
            (TaskStatus::Other(a), TaskStatus::Other(b)) => a.eq(b),
            _ => false,
        }
    }
}

impl Clone for TaskStatus {
    /// Cloning keeps the status value.
    fn clone(&self) -> (r: Self)
        ensures
            r@ == self@,
    {
        match self {
            TaskStatus::Todo => TaskStatus::Todo,
            TaskStatus::Complete => TaskStatus::Complete,
            TaskStatus::Other(label) => TaskStatus::Other(label.clone()),
        }
    }
}

} // verus!
