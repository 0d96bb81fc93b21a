//! Diagnostics for the whole pipeline. Every failure, from a malformed
//! dedent in the lexer to an unresolvable transition target in the
//! resolver, is reported as one structured [`ParseError`] value carrying
//! the position (zero-based line and column) and, where there is one, the
//! offending text. The pipeline never panics: it stops at the first error
//! and hands this value back.

use vstd::prelude::*;

verus! {

/// One structured diagnostic. The pipeline aborts on the first error and
/// returns exactly one of these; no partial tree is ever produced.
#[derive(PartialEq, Eq, Debug)]
pub enum ParseError {
    /// A line dedents to a width that matches no entry still on the
    /// indent stack.
    BadIndent { line: usize },
    /// A character that matches no token rule blocked a grammar rule.
    /// `text` holds that character.
    UnknownCharacter { line: usize, col: usize, text: String },
    /// No identifier stood where the grammar requires a state name or a
    /// transition target.
    ExpectedIdentifier { line: usize, col: usize },
    /// A token that cannot begin or continue any rule at this position.
    UnexpectedToken { line: usize, col: usize },
    /// An indented block was opened but its closing dedent is missing.
    UnbalancedScope { line: usize, col: usize },
    /// A state declaration repeats an identifier already declared in the
    /// same sibling set. `id` holds the repeated identifier.
    DuplicateState { line: usize, col: usize, id: String },
    /// A second sibling carries the initial marker; at most one child of
    /// a state may be marked initial. `id` names the second one.
    MultipleInitial { line: usize, col: usize, id: String },
    /// A transition target (or one segment of a root-qualified path)
    /// cannot be found by the resolution rules. `name` is the failing
    /// name or segment.
    UnresolvedReference { name: String },
}

/// The mathematical shape of a [`ParseError`]: positions as `nat`, text
/// as `Seq<char>`. All contracts speak of this model.
pub ghost enum ErrModel {
    BadIndent { line: nat },
    UnknownCharacter { line: nat, col: nat, text: Seq<char> },
    ExpectedIdentifier { line: nat, col: nat },
    UnexpectedToken { line: nat, col: nat },
    UnbalancedScope { line: nat, col: nat },
    DuplicateState { line: nat, col: nat, id: Seq<char> },
    MultipleInitial { line: nat, col: nat, id: Seq<char> },
    UnresolvedReference { name: Seq<char> },
}

impl View for ParseError {
    type V = ErrModel;

    open spec fn view(&self) -> ErrModel {
        match self {
            ParseError::BadIndent { line } => ErrModel::BadIndent { line: *line as nat },
            ParseError::UnknownCharacter { line, col, text } => ErrModel::UnknownCharacter {
                line: *line as nat,
                col: *col as nat,
                text: text@,
            },
            ParseError::ExpectedIdentifier { line, col } => ErrModel::ExpectedIdentifier {
                line: *line as nat,
                col: *col as nat,
            },
            ParseError::UnexpectedToken { line, col } => ErrModel::UnexpectedToken {
                line: *line as nat,
                col: *col as nat,
            },
            ParseError::UnbalancedScope { line, col } => ErrModel::UnbalancedScope {
                line: *line as nat,
                col: *col as nat,
            },
            ParseError::DuplicateState { line, col, id } => ErrModel::DuplicateState {
                line: *line as nat,
                col: *col as nat,
                id: id@,
            },
            ParseError::MultipleInitial { line, col, id } => ErrModel::MultipleInitial {
                line: *line as nat,
                col: *col as nat,
                id: id@,
            },
            ParseError::UnresolvedReference { name } => ErrModel::UnresolvedReference {
                name: name@,
            },
        }
    }
}

} // verus!
