//! Tool-usage recording: how a finished tool call is classified for the
//! usage log.
use vstd::prelude::*;

verus! {

/// What recording reads of a finished tool call.
pub enum CallOutcome {
    /// The call failed; `message` is its error's text.
    Failed { message: String },
    /// The call returned a JSON value: `error_field` is its `"error"`
    /// member when that is a string, `has_overflow` whether it has an
    /// `"overflow"` member.
    Returned { error_field: Option<String>, has_overflow: bool },
}

/// The mathematical form of [`CallOutcome`].
pub enum CallOutcomeView {
    Failed(Seq<char>),
    Returned(Option<Seq<char>>, bool),
}

impl View for CallOutcome {
    type V = CallOutcomeView;

    open spec fn view(&self) -> CallOutcomeView {
        match self {
            CallOutcome::Failed { message } => CallOutcomeView::Failed(message@),
            CallOutcome::Returned { error_field, has_overflow } => CallOutcomeView::Returned(
                match error_field {
                    Some(m) => Some(m@),
                    None => None,
                },
                *has_overflow,
            ),
        }
    }
}

/// The usage-log classification of a call: outcome label, whether the
/// output overflowed, and the error message to store.
pub open spec fn classification(o: CallOutcomeView) -> (Seq<char>, bool, Option<Seq<char>>) {
    match o {
        CallOutcomeView::Failed(m) => ("error"@, false, Some(m)),
        CallOutcomeView::Returned(Some(m), _) => ("recoverable_error"@, false, Some(m)),
        CallOutcomeView::Returned(None, true) => ("success"@, true, None),
        CallOutcomeView::Returned(None, false) => ("success"@, false, None),
    }
}

/// Classify a finished call for the usage log: a failure is an `error`; a
/// value carrying an error message is a `recoverable_error`; anything else
/// is a `success`, flagged when its output overflowed.
pub fn classify_result(result: &CallOutcome) -> (r: (&'static str, bool, Option<String>))
    ensures
        r.0@ == classification(result@).0,
        r.1 == classification(result@).1,
        match r.2 {
            Some(m) => classification(result@).2 == Some(m@),
            None => classification(result@).2 is None,
        },
{
    match result {
        CallOutcome::Failed { message } => ("error", false, Some(message.clone())),
        CallOutcome::Returned { error_field, has_overflow } => match error_field {
            Some(m) => ("recoverable_error", false, Some(m.clone())),
            None => {
                if *has_overflow {
                    ("success", true, None)
                } else {
                    ("success", false, None)
                }
            },
        },
    }
}

/// Records tool calls in the usage database of a project.
pub struct UsageRecorder {
    project_root: String,
}

impl UsageRecorder {
    /// The project root whose usage database receives the records.
    pub closed spec fn root(&self) -> Seq<char> {
        self.project_root@
    }

    /// A recorder for the project at `project_root`.
    pub fn new(project_root: String) -> (r: Self)
        ensures
            r.root() == project_root@,
    {
        UsageRecorder { project_root }
    }

    /// The project root the records go to.
    pub fn project_root(&self) -> (r: &str)
        ensures
            r@ == self.root(),
    {
        self.project_root.as_str()
    }
}

} // verus!
