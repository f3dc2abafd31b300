//! What went wrong, as plain text.

use vstd::prelude::*;

use crate::text::texts;

verus! {

/// A failure: what happened, and the chain of causes behind it, outermost first.
#[derive(Debug, PartialEq, Eq)]
pub struct Report {
    /// The diagnostic code, where whoever raised it gave one.
    pub code: Option<String>,
    /// What happened.
    pub message: String,
    /// Advice on what to do about it.
    pub help: Option<String>,
    /// What lies behind it, outermost first.
    pub causes: Vec<String>,
}

/// The text of an optional string.
pub open spec fn optional_text(s: Option<String>) -> Option<Seq<char>> {
    match s {
        Some(t) => Some(t@),
        None => None,
    }
}

/// The text of a [`Report`].
pub struct ReportView {
    pub code: Option<Seq<char>>,
    pub message: Seq<char>,
    pub help: Option<Seq<char>>,
    pub causes: Seq<Seq<char>>,
}

impl View for Report {
    type V = ReportView;

    open spec fn view(&self) -> ReportView {
        ReportView {
            code: optional_text(self.code),
            message: self.message@,
            help: optional_text(self.help),
            causes: texts(self.causes@),
        }
    }
}

/// A report that says `message` and nothing more.
pub open spec fn said(message: Seq<char>) -> ReportView {
    ReportView { code: None, message, help: None, causes: Seq::empty() }
}

/// `report` seen from further out: `message` is what happened, and what `report`
/// said is its first cause. A code and advice stay with it.
pub open spec fn wrapped(message: Seq<char>, report: ReportView) -> ReportView {
    ReportView { message, causes: seq![report.message] + report.causes, ..report }
}

/// Copy an optional string.
pub fn copy_optional(s: &Option<String>) -> (r: Option<String>)
    ensures
        r == *s,
{
    match s {
        Some(t) => Some(t.clone()),
        None => None,
    }
}

/// Copy a list of strings.
pub fn copy_texts(list: &Vec<String>) -> (r: Vec<String>)
    ensures
        r@ == list@,
{
    let mut r: Vec<String> = Vec::new();
    let mut i: usize = 0;
    while i < list.len()
        invariant
            i <= list@.len(),
            r@ == list@.take(i as int),
        decreases list@.len() - i,
    {
        r.push(list[i].clone());
        assert(list@.take(i + 1) =~= list@.take(i as int).push(list@[i as int]));
        i += 1;
    }
    assert(list@.take(list@.len() as int) =~= list@);
    r
}

impl Report {
    /// A report that says `message` and nothing more.
    pub fn new(message: String) -> (r: Report)
        ensures
            r@ == said(message@),
    {
        let r = Report { code: None, message, help: None, causes: Vec::new() };
        assert(texts(r.causes@) =~= Seq::<Seq<char>>::empty());
        r
    }

    /// This report seen from further out.
    pub fn wrap(self, message: String) -> (r: Report)
        ensures
            r@ == wrapped(message@, self@),
    {
        let mut causes: Vec<String> = Vec::new();
        let ghost inner = self.causes@;
        let ghost inner_message = self.message@;
        let mut rest = self.causes;
        causes.push(self.message);
        causes.append(&mut rest);
        assert(texts(causes@) =~= seq![inner_message] + texts(inner));
        Report { code: self.code, message, help: self.help, causes }
    }
}

impl Clone for Report {
    fn clone(&self) -> (r: Self)
        ensures
            r@ == self@,
    {
        Report {
            code: copy_optional(&self.code),
            message: self.message.clone(),
            help: copy_optional(&self.help),
            causes: copy_texts(&self.causes),
        }
    }
}

/// A report that is seen from further out loses nothing: what it said is the first cause,
/// its own causes follow in their order, and its code and advice stay.
pub proof fn lemma_wrapping_loses_nothing(message: Seq<char>, report: ReportView)
    ensures
        wrapped(message, report).message == message,
        wrapped(message, report).causes.len() == report.causes.len() + 1,
        wrapped(message, report).causes[0] == report.message,
        wrapped(message, report).causes.skip(1) == report.causes,
        wrapped(message, report).code == report.code,
        wrapped(message, report).help == report.help,
        said(message).message == message,
        said(message).causes.len() == 0,
        said(message).code is None,
        said(message).help is None,
{
    assert(wrapped(message, report).causes.skip(1) =~= report.causes);
}

} // verus!
