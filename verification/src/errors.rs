//! Errors of the work that tasks wrap.

use vstd::prelude::*;

verus! {

/// An error of `anyhow`, which the library carries and never looks into.
#[verifier::external_type_specification]
#[verifier::external_body]
pub struct ExAnyhowError(anyhow::Error);

/// Turns the error of a task into the text that the tree stores and the
/// reporters show.
pub trait ErrorFormatter: Send + Sync {
    /// Whether `text` is a text that the formatter makes of an error. A
    /// formatter that says nothing of its texts leaves this as it is.
    open spec fn formats(&self, text: Seq<char>) -> bool {
        true
    }

    /// The text of an error.
    fn format_error(&self, err: &anyhow::Error) -> (s: String)
        ensures
            self.formats(s@),
    ;
}

/// Whether `text` can be the text stored with the failure of a task whose
/// error was wrapped in `context`: where there is a formatter, a text that
/// the formatter has made; where there is none, a text that begins with the
/// context, which is how `anyhow` shows a wrapped error.
pub open spec fn is_failure_text(
    formatter: Option<&dyn ErrorFormatter>,
    context: Seq<char>,
    text: Seq<char>,
) -> bool {
    match formatter {
        Some(f) => f.formats(text),
        None => context.is_prefix_of(text),
    }
}

/// Wraps an error in a context.
///
/// Trusted: calls `anyhow::Error::context`, which gives a new error that
/// shows `context` and has `err` as its cause. Nothing is claimed of the
/// result.
#[verifier::external_body]
pub(crate) fn with_context(err: anyhow::Error, context: String) -> anyhow::Error {
    err.context(context)
}

/// Wraps an error in a context and shows the wrapped error as text.
///
/// Trusted: calls `anyhow::Error::context` and formats the result with
/// `anyhow`'s `Debug`, which first writes the error itself, and that is the
/// context as it was given; the causes and, where the process captures
/// one, the backtrace come after. So the text begins with the context, and
/// nothing more is claimed of it.
#[verifier::external_body]
pub(crate) fn context_and_text(err: anyhow::Error, context: String) -> (r: (anyhow::Error, String))
    ensures
        context@.is_prefix_of(r.1@),
{
    let err = err.context(context);
    let text = format!("{:?}", err);
    (err, text)
}

/// Wraps the error of a task in the context of the task and makes the
/// text that is stored with the failure: the formatter makes it of the
/// wrapped error where there is one, and `anyhow` where there is none, and
/// then the text begins with the context.
pub fn wrap_failure(
    err: anyhow::Error,
    context: String,
    formatter: Option<&dyn ErrorFormatter>,
) -> (r: (anyhow::Error, String))
    ensures
        is_failure_text(formatter, context@, r.1@),
{
    match formatter {
        Some(formatter) => {
            let err = with_context(err, context);
            let error_msg = formatter.format_error(&err);
            (err, error_msg)
        },
        None => context_and_text(err, context),
    }
}

} // verus!
