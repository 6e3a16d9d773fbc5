//! The error type shared by every fallible tensor operation.

use vstd::prelude::*;

verus! {

/// The kinds of failure an operation can report.
#[derive(Debug, Clone, Copy, PartialEq, Eq, Structural)]
pub enum ErrorKind {
    /// A shape, index, layout or ownership requirement was not met.
    TensorError,
}

/// A failure together with a message that describes the offending values.
///
/// Callers branch on `kind`; `message` is for diagnostics.
#[derive(Debug)]
pub struct Error {
    pub kind: ErrorKind,
    pub message: String,
}

/// The text of "invalid `what` `value` for tensor of shape `shape`", with both
/// integer lists rendered by std's `Debug` formatting.
pub uninterp spec fn invalid_for_shape_text(
    what: Seq<char>,
    value: Seq<usize>,
    shape: Seq<usize>,
) -> Seq<char>;

/// The text of "invalid shape `shape` for data of length `len`", with the
/// shape rendered by std's `Debug` formatting and the length by `Display`.
pub uninterp spec fn invalid_shape_text(shape: Seq<usize>, len: usize) -> Seq<char>;

/// Calls std's `format!`. Formatting integers and slices of integers reads
/// nothing but its arguments, so the text is a function of them alone; the
/// contract gives that function a name and claims nothing else about it.
#[verifier::external_body]
fn format_invalid_for_shape(what: &str, value: &[usize], shape: &[usize]) -> (text: String)
    ensures
        text@ == invalid_for_shape_text(what@, value@, shape@),
{
    format!("invalid {} {:?} for tensor of shape {:?}", what, value, shape)
}

/// Calls std's `format!`. As above: the text depends on the arguments alone,
/// and the contract only names it.
#[verifier::external_body]
fn format_invalid_shape(shape: &[usize], len: usize) -> (text: String)
    ensures
        text@ == invalid_shape_text(shape@, len),
{
    format!("invalid shape {:?} for data of length {}", shape, len)
}

impl Error {
    /// A `TensorError` with a fixed message.
    pub fn tensor(message: &str) -> (e: Error)
        ensures
            e.kind == ErrorKind::TensorError,
            e.message@ == message@,
    {
        Error { kind: ErrorKind::TensorError, message: message.to_owned() }
    }

    /// A `TensorError` that names an index, permutation or position which
    /// does not fit the tensor's shape.
    pub fn invalid_for_shape(what: &str, value: &[usize], shape: &[usize]) -> (e: Error)
        ensures
            e.kind == ErrorKind::TensorError,
            e.message@ == invalid_for_shape_text(what@, value@, shape@),
    {
        let message = format_invalid_for_shape(what, value, shape);
        Error { kind: ErrorKind::TensorError, message }
    }

    /// A `TensorError` that names a shape which does not fit a buffer of
    /// `len` elements.
    pub fn invalid_shape(shape: &[usize], len: usize) -> (e: Error)
        ensures
            e.kind == ErrorKind::TensorError,
            e.message@ == invalid_shape_text(shape@, len),
    {
        let message = format_invalid_shape(shape, len);
        Error { kind: ErrorKind::TensorError, message }
    }
}

} // verus!
