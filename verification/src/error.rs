//! The error type shared by every part of the library.

use crate::text::views;
use vstd::prelude::*;

verus! {

/// What went wrong.
#[derive(Debug, PartialEq, Eq, Clone, Copy, Structural)]
pub enum CTErrorKind {
    /// The formula or reaction text is malformed, or the reaction cannot be
    /// balanced as it is written.
    InputError,
    /// Balancing a reaction needs numbers beyond those that can be held.
    BalanceError,
    /// The element database is unreadable, incomplete or corrupt.
    DatabaseError,
    /// The command line is incomplete or names no known command.
    UsageError,
}

/// An error with its description and, where it concerns a part of the input,
/// the byte offset and length of that part.
#[derive(Debug, PartialEq)]
pub struct CTError {
    pub kind: CTErrorKind,
    pub desc: String,
    pub pos: Option<(usize, usize)>,
}

/// What the functions of the library give: a value or an error.
pub type CTResult<T> = Result<T, CTError>;

/// A `CTError` with its description as a sequence of characters.
pub struct ErrorView {
    pub kind: CTErrorKind,
    pub desc: Seq<char>,
    pub pos: Option<(usize, usize)>,
}

impl View for CTError {
    type V = ErrorView;

    open spec fn view(&self) -> ErrorView {
        ErrorView { kind: self.kind, desc: self.desc@, pos: self.pos }
    }
}

/// `n` copies of `c`.
pub open spec fn repeated(c: char, n: nat) -> Seq<char> {
    Seq::new(n, |i: int| c)
}

/// The line that points at the part `(pos, len)` of an input printed with an
/// indentation of four spaces: a caret under its first byte and tildes under
/// the others.
pub open spec fn marker_line(pos: nat, len: nat) -> Seq<char> {
    repeated(' ', 4 + pos) + seq!['^'] + repeated('~', if len > 1 {
        (len - 1) as nat
    } else {
        0
    })
}

/// The lines of the report of `e`: its description and, for an input error
/// with a position when the input is at hand, the input and a marker under
/// the offending part.
pub open spec fn report(e: ErrorView, input: Option<Seq<char>>) -> Seq<Seq<char>> {
    match (e.kind, e.pos, input) {
        (CTErrorKind::InputError, Some(span), Some(text)) => seq![
            e.desc,
            repeated(' ', 4) + text,
            marker_line(span.0 as nat, span.1 as nat),
        ],
        _ => seq![e.desc],
    }
}

fn push_repeated(out: &mut String, c: char, n: usize)
    ensures
        final(out)@ == old(out)@ + repeated(c, n as nat),
{
    let mut i: usize = 0;
    while i < n
        invariant
            i <= n,
            out@ == old(out)@ + repeated(c, i as nat),
        decreases n - i,
    {
        out.push(c);
        i += 1;
        assert(out@ =~= old(out)@ + repeated(c, i as nat));
    }
}

impl CTError {
    /// An error of kind `kind` described by `desc`.
    pub fn new(kind: CTErrorKind, desc: &str, pos: Option<(usize, usize)>) -> (e: CTError)
        ensures
            e@ == (ErrorView { kind, desc: desc@, pos }),
    {
        CTError { kind, desc: desc.to_owned(), pos }
    }

    /// The lines to print for this error. `extra_desc` is the input that the
    /// error's position refers to, where there is one.
    pub fn report_lines(&self, extra_desc: Option<&String>) -> (lines: Vec<String>)
        ensures
            views(lines@) == report(
                self@,
                match extra_desc {
                    Some(s) => Some(s@),
                    None => None,
                },
            ),
    {
        let mut lines: Vec<String> = Vec::new();
        lines.push(self.desc.clone());
        match self.kind {
            CTErrorKind::InputError => {
                if let (Some((pos, len)), Some(input)) = (self.pos, extra_desc) {
                    let mut shown = String::new();
                    push_repeated(&mut shown, ' ', 4);
                    shown.append(input.as_str());
                    assert(shown@ =~= repeated(' ', 4) + input@);
                    lines.push(shown);
                    let mut marker = String::new();
                    push_repeated(&mut marker, ' ', 4);
                    push_repeated(&mut marker, ' ', pos);
                    marker.push('^');
                    if len > 1 {
                        push_repeated(&mut marker, '~', len - 1);
                    }
                    assert(marker@ =~= marker_line(pos as nat, len as nat));
                    lines.push(marker);
                    assert(views(lines@) =~= report(self@, Some(input@)));
                    return lines;
                }
            },
            _ => {},
        }
        assert(views(lines@) =~= seq![self.desc@]);
        lines
    }
}

} // verus!
