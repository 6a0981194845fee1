//! How the tools report failures to their caller.
use vstd::prelude::*;
use crate::util::strings::{has_suffix, push_str, str_ends_with};

verus! {

/// A failure reported by a tool.
#[derive(Debug)]
pub enum ToolError {
    /// A mistake the caller can correct, with a hint on how.
    Recoverable { message: String, hint: String },
    /// A required parameter was not given.
    MissingParameter { name: String },
    /// Any other failure.
    Failed { message: String },
}

/// The mathematical form of [`ToolError`].
pub enum ToolErrorView {
    Recoverable(Seq<char>, Seq<char>),
    MissingParameter(Seq<char>),
    Failed(Seq<char>),
}

impl View for ToolError {
    type V = ToolErrorView;

    open spec fn view(&self) -> ToolErrorView {
        match self {
            ToolError::Recoverable { message, hint } => ToolErrorView::Recoverable(message@, hint@),
            ToolError::MissingParameter { name } => ToolErrorView::MissingParameter(name@),
            ToolError::Failed { message } => ToolErrorView::Failed(message@),
        }
    }
}

/// A result of a tool step, by its view.
pub open spec fn tool_result_view<T: View>(r: Result<T, ToolError>) -> Result<T::V, ToolErrorView> {
    match r {
        Ok(v) => Ok(v@),
        Err(e) => Err(e@),
    }
}

/// A recoverable error from two texts.
pub fn recoverable(message: &str, hint: &str) -> (r: ToolError)
    ensures
        r@ == ToolErrorView::Recoverable(message@, hint@),
{
    ToolError::Recoverable { message: message.to_owned(), hint: hint.to_owned() }
}

/// A path the Markdown tools accept: it ends in `.md` or `.markdown`.
pub open spec fn is_markdown_path(path: Seq<char>) -> bool {
    has_suffix(path, ".md"@) || has_suffix(path, ".markdown"@)
}

/// Does `path` name a Markdown file?
pub fn markdown_path(path: &str) -> (r: bool)
    ensures
        r == is_markdown_path(path@),
{
    str_ends_with(path, ".md") || str_ends_with(path, ".markdown")
}

/// `prefix` followed by `rest`, as one string.
pub fn concat(prefix: &str, rest: &str) -> (r: String)
    ensures
        r@ == prefix@ + rest@,
{
    let mut s = String::new();
    push_str(&mut s, prefix);
    push_str(&mut s, rest);
    s
}

} // verus!
