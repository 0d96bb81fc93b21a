//! The parser: consumes the token sequence by recursive descent and
//! builds the raw tree. Every rule takes a cursor position and returns a
//! new position together with its result, or a structured failure; no
//! rule mutates shared state, which is what makes the rules freely
//! composable.
//!
//! The grammar, per nesting scope:
//!
//! ```text
//! document       := state_decl
//! state_decl     := Identifier modifiers? (Indent scope_body Dedent)?
//! modifiers      := ParallelMarker? FinalMarker? InitialMarker?
//! scope_body     := (transition_line | state_decl)*
//! transition_line := Identifier? TransitionArrow Identifier Condition? Action?
//! ```
//!
//! Policy notes, where the notation itself is silent:
//! - a transition line's leading identifier creates, or reuses, that
//!   identifier as a sibling atomic state and attaches the transition to
//!   it; a transition attached to a final state is an error;
//! - a `state_decl` repeating an identifier already declared among its
//!   siblings is a `DuplicateState` error;
//! - a second `*`-marked sibling is a `MultipleInitial` error;
//! - `&` together with `$` on one state is an error, as is a block under
//!   a `$`-marked state;
//! - condition and action may follow a target in either order, each at
//!   most once, with the same meaning.
//!
//! The whole parse is specified by the pure functions [`spec_state`],
//! [`spec_body`] and [`spec_document`]; the executable parser is proved
//! to return exactly their result. The spec-level tree ([`PState`])
//! additionally records the token position of every state's declaring
//! identifier, which is what the depth-correspondence law speaks about;
//! [`strip`] erases those positions, giving the tree the executable
//! parser returns.

use vstd::prelude::*;

use crate::ast::{
    lemma_state_models, opt_text_model, state_models, trans_models, StateModel, StateNode,
    StateType, TransModel, TransitionNode,
};
use crate::diag::{ErrModel, ParseError};
use crate::resolver::{resolve, spec_resolve};
use crate::tokenizer::{span_models, spec_tokenize, tokenize_spanned, SpanModel, SpannedToken, Token, TokenModel};

verus! {

/// The token sequence with comment tokens removed, from index `i` on.
pub open spec fn drop_comments_from(s: Seq<SpanModel>, i: int) -> Seq<SpanModel>
    decreases s.len() - i,
{
    if i < 0 || i >= s.len() {
        Seq::empty()
    } else if s[i].tok is Comment {
        drop_comments_from(s, i + 1)
    } else {
        seq![s[i]] + drop_comments_from(s, i + 1)
    }
}

/// The token sequence with comment tokens removed: the parser's input.
pub open spec fn drop_comments(s: Seq<SpanModel>) -> Seq<SpanModel> {
    drop_comments_from(s, 0)
}

/// The line reported for a diagnostic at cursor `p`: the token's own
/// line, or the last token's line at end of input, or zero for an empty
/// document.
pub open spec fn err_line(toks: Seq<SpanModel>, p: int) -> nat {
    if 0 <= p < toks.len() {
        toks[p].line
    } else if toks.len() > 0 {
        toks[toks.len() - 1].line
    } else {
        0
    }
}

/// The column reported for a diagnostic at cursor `p`.
pub open spec fn err_col(toks: Seq<SpanModel>, p: int) -> nat {
    if 0 <= p < toks.len() {
        toks[p].col
    } else if toks.len() > 0 {
        toks[toks.len() - 1].col
    } else {
        0
    }
}

/// The diagnostic for a token that can begin no rule at cursor `p`: an
/// `Unknown` token names the character, anything else is reported as
/// unexpected.
pub open spec fn stray_token_err(toks: Seq<SpanModel>, p: int) -> ErrModel {
    if 0 <= p < toks.len() && toks[p].tok is Unknown {
        ErrModel::UnknownCharacter {
            line: err_line(toks, p),
            col: err_col(toks, p),
            text: toks[p].tok->Unknown_0,
        }
    } else {
        ErrModel::UnexpectedToken { line: err_line(toks, p), col: err_col(toks, p) }
    }
}

/// A parsed state as the spec-level parser sees it: a [`StateModel`]
/// plus, for each state, the token position `decl` of its declaring
/// identifier.
pub ghost struct PState {
    pub decl: int,
    pub id: Seq<char>,
    pub typ: StateType,
    pub initial: Option<Seq<char>>,
    pub is_initial: bool,
    pub on: Seq<TransModel>,
    pub states: Seq<PState>,
}

/// Erases the child declaration positions.
pub open spec fn strip_all(s: Seq<PState>) -> Seq<StateModel>
    decreases s,
{
    if s.len() == 0 {
        Seq::empty()
    } else {
        seq![strip(s[0])] + strip_all(s.drop_first())
    }
}

/// Erases the declaration positions, leaving the plain tree.
pub open spec fn strip(p: PState) -> StateModel
    decreases p,
{
    StateModel {
        id: p.id,
        typ: p.typ,
        initial: p.initial,
        is_initial: p.is_initial,
        on: p.on,
        states: strip_all(p.states),
    }
}

/// `strip_all` is the pointwise `strip`.
pub proof fn lemma_strip_all(s: Seq<PState>)
    ensures
        strip_all(s).len() == s.len(),
        forall|i: int| 0 <= i < s.len() ==> strip_all(s)[i] == strip(s[i]),
    decreases s,
{
    if s.len() > 0 {
        let rest = s.drop_first();
        lemma_strip_all(rest);
        assert forall|i: int| 0 <= i < s.len() implies strip_all(s)[i] == strip(s[i]) by {
            if i > 0 {
                assert(strip_all(s)[i] == strip_all(rest)[i - 1]);
                assert(rest[i - 1] == s[i]);
            } else {
                assert(strip_all(s)[0] == strip(s[0]));
            }
        }
    }
}

/// Whether some already-parsed sibling is marked initial.
pub open spec fn marked_initial(acc: Seq<PState>) -> bool {
    exists|i: int| 0 <= i < acc.len() && acc[i].is_initial
}

/// At most one parsed sibling is marked initial.
pub open spec fn at_most_one_initial_p(acc: Seq<PState>) -> bool {
    forall|i: int, j: int|
        (0 <= i < acc.len() && 0 <= j < acc.len() && acc[i].is_initial && acc[j].is_initial) ==> i
            == j
}

/// The first sibling (at or after `i`) carrying `id`, if any.
pub open spec fn find_sibling_from(acc: Seq<PState>, id: Seq<char>, i: int) -> Option<int>
    decreases acc.len() - i,
{
    if i < 0 || i >= acc.len() {
        None
    } else if acc[i].id == id {
        Some(i)
    } else {
        find_sibling_from(acc, id, i + 1)
    }
}

/// The first sibling carrying `id`, if any.
pub open spec fn find_sibling(acc: Seq<PState>, id: Seq<char>) -> Option<int> {
    find_sibling_from(acc, id, 0)
}

/// The initial child of a state: the `*`-marked child if one is, else
/// the first declared child, else none. This is the documented
/// default-initial-child rule.
pub open spec fn computed_initial(kids: Seq<PState>) -> Option<Seq<char>> {
    if kids.len() == 0 {
        None
    } else if marked_initial(kids) {
        Some(kids[choose|i: int| 0 <= i < kids.len() && kids[i].is_initial].id)
    } else {
        Some(kids[0].id)
    }
}

/// The kind a declaration yields: markers set parallel or final; with
/// neither, owning children makes it compound, else atomic.
pub open spec fn kind_of(par: bool, fin: bool, n_kids: int) -> StateType {
    if par {
        StateType::ParallelState
    } else if fin {
        StateType::FinalState
    } else if n_kids > 0 {
        StateType::CompoundState
    } else {
        StateType::AtomicState
    }
}

/// The optional condition and action after a transition's target: either
/// order, each at most once. Returns the cursor after them.
pub open spec fn spec_trans_tail(toks: Seq<SpanModel>, p: int) -> (int, Option<Seq<char>>, Option<
    Seq<char>,
>) {
    if p < toks.len() && toks[p].tok is Condition {
        let c = toks[p].tok->Condition_0;
        if p + 1 < toks.len() && toks[p + 1].tok is Action {
            (p + 2, Some(c), Some(toks[p + 1].tok->Action_0))
        } else {
            (p + 1, Some(c), None)
        }
    } else if p < toks.len() && toks[p].tok is Action {
        let a = toks[p].tok->Action_0;
        if p + 1 < toks.len() && toks[p + 1].tok is Condition {
            (p + 2, Some(toks[p + 1].tok->Condition_0), Some(a))
        } else {
            (p + 1, None, Some(a))
        }
    } else {
        (p, None, None)
    }
}

/// One transition line from the arrow at `pos` on: the target identifier
/// must follow the arrow, then the optional condition and action. The
/// transition's source is `src`, its target is kept as raw text,
/// unresolved.
pub open spec fn spec_trans(toks: Seq<SpanModel>, pos: int, src: Seq<char>) -> Result<
    (int, TransModel),
    ErrModel,
> {
    let q = pos + 1;
    if q < toks.len() && toks[q].tok is Identifier {
        let tgt = toks[q].tok->Identifier_0;
        let (e2, cond, act) = spec_trans_tail(toks, q + 1);
        Ok((e2, TransModel { source: src, target: tgt, resolved: None, cond, action: act }))
    } else {
        Err(ErrModel::ExpectedIdentifier { line: err_line(toks, q), col: err_col(toks, q) })
    }
}

/// A freshly created sibling for a transition line's leading identifier:
/// an atomic state carrying just that transition. Its declaration
/// position is the identifier's token position.
pub open spec fn source_stub(decl: int, id: Seq<char>, tm: TransModel) -> PState {
    PState {
        decl,
        id,
        typ: StateType::AtomicState,
        initial: None,
        is_initial: false,
        on: seq![tm],
        states: Seq::empty(),
    }
}

/// `p` with one more outgoing transition.
pub open spec fn push_on(p: PState, tm: TransModel) -> PState {
    PState {
        decl: p.decl,
        id: p.id,
        typ: p.typ,
        initial: p.initial,
        is_initial: p.is_initial,
        on: p.on.push(tm),
        states: p.states,
    }
}

/// One `state_decl` from `pos` on: the declaring identifier, the
/// optional `&`, `$`, `*` markers in that order, and the optional
/// indented block, which must close with its dedent.
pub open spec fn spec_state(toks: Seq<SpanModel>, pos: int) -> Result<(int, PState), ErrModel>
    decreases toks.len() - pos, 0int,
{
    if !(0 <= pos < toks.len() && toks[pos].tok is Identifier) {
        Err(ErrModel::ExpectedIdentifier { line: err_line(toks, pos), col: err_col(toks, pos) })
    } else {
        let id = toks[pos].tok->Identifier_0;
        let par = pos + 1 < toks.len() && toks[pos + 1].tok is ParallelState;
        let p1 = pos + 1 + (if par {
            1int
        } else {
            0int
        });
        let fin = p1 < toks.len() && toks[p1].tok is FinalState;
        let p2 = p1 + (if fin {
            1int
        } else {
            0int
        });
        let ini = p2 < toks.len() && toks[p2].tok is InitialState;
        let p3 = p2 + (if ini {
            1int
        } else {
            0int
        });
        if par && fin {
            Err(ErrModel::UnexpectedToken { line: err_line(toks, p1), col: err_col(toks, p1) })
        } else if p3 < toks.len() && toks[p3].tok is Indent {
            if fin {
                Err(ErrModel::UnexpectedToken { line: err_line(toks, p3), col: err_col(toks, p3) })
            } else {
                match spec_body(toks, p3 + 1, id, Seq::empty(), Seq::empty()) {
                    Err(e) => Err(e),
                    Ok((p4, kids, trans)) => {
                        if p4 < toks.len() && toks[p4].tok is Dedent {
                            Ok(
                                (
                                    p4 + 1,
                                    PState {
                                        decl: pos,
                                        id,
                                        typ: kind_of(par, fin, kids.len() as int),
                                        initial: computed_initial(kids),
                                        is_initial: ini,
                                        on: trans,
                                        states: kids,
                                    },
                                ),
                            )
                        } else {
                            Err(
                                ErrModel::UnbalancedScope {
                                    line: err_line(toks, p4),
                                    col: err_col(toks, p4),
                                },
                            )
                        }
                    },
                }
            }
        } else {
            Ok(
                (
                    p3,
                    PState {
                        decl: pos,
                        id,
                        typ: kind_of(par, fin, 0),
                        initial: None,
                        is_initial: ini,
                        on: Seq::empty(),
                        states: Seq::empty(),
                    },
                ),
            )
        }
    }
}

/// A scope body: transition lines and nested state declarations, one
/// after the other, until the closing dedent or the end of input.
/// `acc` and `acc_on` accumulate the enclosing state's children and its
/// own (bare) transitions.
pub open spec fn spec_body(
    toks: Seq<SpanModel>,
    pos: int,
    encl: Seq<char>,
    acc: Seq<PState>,
    acc_on: Seq<TransModel>,
) -> Result<(int, Seq<PState>, Seq<TransModel>), ErrModel>
    decreases toks.len() - pos, 1int,
{
    if !(0 <= pos < toks.len()) {
        Ok((pos, acc, acc_on))
    } else if toks[pos].tok is Dedent {
        Ok((pos, acc, acc_on))
    } else if toks[pos].tok is TransitionArrow {
        match spec_trans(toks, pos, encl) {
            Err(e) => Err(e),
            Ok((p2, tm)) => if p2 > pos && p2 <= toks.len() {
                spec_body(toks, p2, encl, acc, acc_on.push(tm))
            } else {
                Err(stray_token_err(toks, pos))
            },
        }
    } else if toks[pos].tok is Identifier {
        let x = toks[pos].tok->Identifier_0;
        if pos + 1 < toks.len() && toks[pos + 1].tok is TransitionArrow {
            match spec_trans(toks, pos + 1, x) {
                Err(e) => Err(e),
                Ok((p2, tm)) => match find_sibling(acc, x) {
                    Some(i) => {
                        if acc[i].typ == StateType::FinalState {
                            Err(
                                ErrModel::UnexpectedToken {
                                    line: err_line(toks, pos + 1),
                                    col: err_col(toks, pos + 1),
                                },
                            )
                        } else if p2 > pos && p2 <= toks.len() {
                            spec_body(toks, p2, encl, acc.update(i, push_on(acc[i], tm)), acc_on)
                        } else {
                            Err(stray_token_err(toks, pos))
                        }
                    },
                    None => {
                        if p2 > pos && p2 <= toks.len() {
                            spec_body(toks, p2, encl, acc.push(source_stub(pos, x, tm)), acc_on)
                        } else {
                            Err(stray_token_err(toks, pos))
                        }
                    },
                },
            }
        } else {
            match spec_state(toks, pos) {
                Err(e) => Err(e),
                Ok((p2, child)) => {
                    if find_sibling(acc, child.id) is Some {
                        Err(
                            ErrModel::DuplicateState {
                                line: err_line(toks, pos),
                                col: err_col(toks, pos),
                                id: x,
                            },
                        )
                    } else if child.is_initial && marked_initial(acc) {
                        Err(
                            ErrModel::MultipleInitial {
                                line: err_line(toks, pos),
                                col: err_col(toks, pos),
                                id: x,
                            },
                        )
                    } else if p2 > pos && p2 <= toks.len() {
                        spec_body(toks, p2, encl, acc.push(child), acc_on)
                    } else {
                        Err(stray_token_err(toks, pos))
                    }
                },
            }
        }
    } else {
        Err(stray_token_err(toks, pos))
    }
}

/// A whole document: exactly one root `state_decl` and nothing after it.
pub open spec fn spec_document(toks: Seq<SpanModel>) -> Result<PState, ErrModel> {
    match spec_state(toks, 0) {
        Err(e) => Err(e),
        Ok((p, pst)) => {
            if p < toks.len() {
                Err(stray_token_err(toks, p))
            } else {
                Ok(pst)
            }
        },
    }
}

/// The recursive-descent parser over one token sequence. Each rule takes
/// a cursor and returns the advanced cursor with its result; the token
/// vector itself is never mutated while rules run.
pub struct Parser {
    tokens: Vec<SpannedToken>,
}

/// Tries a rule at `offset`: on a match the rule's advanced cursor is
/// adopted, on a miss the cursor stays put. A miss is itself a kind of
/// success for this combinator, so both outcomes carry the cursor to
/// continue from.
pub fn zero_or_one<T, F: Fn(usize) -> Option<(usize, T)>>(offset: usize, f: F) -> (r: (
    usize,
    Option<(usize, T)>,
))
    requires
        f.requires((offset,)),
    ensures
        match r.1 {
            Some(p) => f.ensures((offset,), Some(p)) && r.0 == p.0,
            None => f.ensures((offset,), None::<(usize, T)>) && r.0 == offset,
        },
{
    match f(offset) {
        Some(x) => {
            let new_offset = x.0;
            (new_offset, Some(x))
        },
        None => (offset, None),
    }
}

impl Parser {
    /// A parser with no tokens loaded yet; `parse` loads them.
    pub fn new() -> Parser {
        Parser { tokens: Vec::new() }
    }

    /// The models of the loaded tokens: what every rule's contract
    /// speaks about.
    spec fn tk(&self) -> Seq<SpanModel> {
        span_models(self.tokens@)
    }

    /// The position reported for a diagnostic at cursor `p`.
    fn err_pos(&self, p: usize) -> (r: (usize, usize))
        ensures
            r.0 == err_line(self.tk(), p as int),
            r.1 == err_col(self.tk(), p as int),
    {
        let n = self.tokens.len();
        if p < n {
            proof {
                assert(self.tk()[p as int] == self.tokens@[p as int]@);
            }
            (self.tokens[p].line, self.tokens[p].col)
        } else if n > 0 {
            proof {
                assert(self.tk()[n - 1] == self.tokens@[n - 1]@);
            }
            (self.tokens[n - 1].line, self.tokens[n - 1].col)
        } else {
            (0, 0)
        }
    }

    /// The stray-token diagnostic at cursor `p`.
    fn stray_err(&self, p: usize) -> (r: ParseError)
        ensures
            r@ == stray_token_err(self.tk(), p as int),
    {
        let n = self.tokens.len();
        let (line, col) = self.err_pos(p);
        if p < n {
            proof {
                assert(self.tk()[p as int] == self.tokens@[p as int]@);
            }
            match &self.tokens[p].token {
                Token::Unknown(u) => ParseError::UnknownCharacter { line, col, text: u.clone() },
                _ => ParseError::UnexpectedToken { line, col },
            }
        } else {
            ParseError::UnexpectedToken { line, col }
        }
    }

    /// Consumes an identifier token, handing out a copy of its text.
    fn identifier(&self, offset: usize) -> (r: Option<(usize, String)>)
        ensures
            r is Some <==> offset < self.tk().len() && self.tk()[offset as int].tok is Identifier,
            r matches Some(p) ==> p.0 == offset + 1 && p.1@ == self.tk()[
                offset as int
            ].tok->Identifier_0,
    {
        let n = self.tokens.len();
        if offset < n {
            proof {
                assert(self.tk()[offset as int] == self.tokens@[offset as int]@);
            }
            match &self.tokens[offset].token {
                Token::Identifier(s) => Some((offset + 1, s.clone())),
                _ => None,
            }
        } else {
            None
        }
    }

    /// Consumes a condition token, handing out a copy of its text.
    fn condition(&self, offset: usize) -> (r: Option<(usize, String)>)
        ensures
            r is Some <==> offset < self.tk().len() && self.tk()[offset as int].tok is Condition,
            r matches Some(p) ==> p.0 == offset + 1 && p.1@ == self.tk()[
                offset as int
            ].tok->Condition_0,
    {
        let n = self.tokens.len();
        if offset < n {
            proof {
                assert(self.tk()[offset as int] == self.tokens@[offset as int]@);
            }
            match &self.tokens[offset].token {
                Token::Condition(s) => Some((offset + 1, s.clone())),
                _ => None,
            }
        } else {
            None
        }
    }

    /// Consumes an action token, handing out a copy of its text.
    fn action(&self, offset: usize) -> (r: Option<(usize, String)>)
        ensures
            r is Some <==> offset < self.tk().len() && self.tk()[offset as int].tok is Action,
            r matches Some(p) ==> p.0 == offset + 1 && p.1@ == self.tk()[
                offset as int
            ].tok->Action_0,
    {
        let n = self.tokens.len();
        if offset < n {
            proof {
                assert(self.tk()[offset as int] == self.tokens@[offset as int]@);
            }
            match &self.tokens[offset].token {
                Token::Action(s) => Some((offset + 1, s.clone())),
                _ => None,
            }
        } else {
            None
        }
    }

    /// Consumes a parallel-state marker.
    fn parallel_state(&self, offset: usize) -> (r: Option<(usize, bool)>)
        ensures
            r is Some <==> offset < self.tk().len() && self.tk()[
                offset as int
            ].tok is ParallelState,
            r matches Some(p) ==> p.0 == offset + 1 && p.1 == true,
    {
        let n = self.tokens.len();
        if offset < n {
            proof {
                assert(self.tk()[offset as int] == self.tokens@[offset as int]@);
            }
            match &self.tokens[offset].token {
                Token::ParallelState => Some((offset + 1, true)),
                _ => None,
            }
        } else {
            None
        }
    }

    /// Consumes a final-state marker.
    fn final_state(&self, offset: usize) -> (r: Option<(usize, bool)>)
        ensures
            r is Some <==> offset < self.tk().len() && self.tk()[offset as int].tok is FinalState,
            r matches Some(p) ==> p.0 == offset + 1 && p.1 == true,
    {
        let n = self.tokens.len();
        if offset < n {
            proof {
                assert(self.tk()[offset as int] == self.tokens@[offset as int]@);
            }
            match &self.tokens[offset].token {
                Token::FinalState => Some((offset + 1, true)),
                _ => None,
            }
        } else {
            None
        }
    }

    /// Consumes an initial-state marker.
    fn initial_state(&self, offset: usize) -> (r: Option<(usize, bool)>)
        ensures
            r is Some <==> offset < self.tk().len() && self.tk()[
                offset as int
            ].tok is InitialState,
            r matches Some(p) ==> p.0 == offset + 1 && p.1 == true,
    {
        let n = self.tokens.len();
        if offset < n {
            proof {
                assert(self.tk()[offset as int] == self.tokens@[offset as int]@);
            }
            match &self.tokens[offset].token {
                Token::InitialState => Some((offset + 1, true)),
                _ => None,
            }
        } else {
            None
        }
    }

    /// Consumes an indent token.
    fn indent(&self, offset: usize) -> (r: Option<(usize, bool)>)
        ensures
            r is Some <==> offset < self.tk().len() && self.tk()[offset as int].tok is Indent,
            r matches Some(p) ==> p.0 == offset + 1 && p.1 == true,
    {
        let n = self.tokens.len();
        if offset < n {
            proof {
                assert(self.tk()[offset as int] == self.tokens@[offset as int]@);
            }
            match &self.tokens[offset].token {
                Token::Indent => Some((offset + 1, true)),
                _ => None,
            }
        } else {
            None
        }
    }

    /// Consumes a transition line: the arrow at `pos`, the target
    /// identifier after it, then the optional condition and action. The
    /// built node carries `source` as its explicit source.
    fn transition(&self, pos: usize, source: &String) -> (r: Result<
        (usize, TransitionNode),
        ParseError,
    >)
        requires
            pos < self.tk().len(),
        ensures
            match r {
                Ok(p) => spec_trans(self.tk(), pos as int, source@) matches Ok(q) && q.0 == p.0
                    && q.1 == p.1@ && pos < p.0 <= self.tk().len(),
                Err(e) => spec_trans(self.tk(), pos as int, source@) matches Err(em) && em == e@,
            },
    {
        let n = self.tokens.len();
        match self.identifier(pos + 1) {
            None => {
                let (line, col) = self.err_pos(pos + 1);
                Err(ParseError::ExpectedIdentifier { line, col })
            },
            Some((q1, tgt)) => {
                let mut end = q1;
                let mut cond: Option<String> = None;
                let mut act: Option<String> = None;
                match self.condition(q1) {
                    Some((q2, c)) => {
                        cond = Some(c);
                        end = q2;
                        match self.action(q2) {
                            Some((q3, a)) => {
                                act = Some(a);
                                end = q3;
                            },
                            None => {},
                        }
                    },
                    None => {
                        match self.action(q1) {
                            Some((q2, a)) => {
                                act = Some(a);
                                end = q2;
                                match self.condition(q2) {
                                    Some((q3, c)) => {
                                        cond = Some(c);
                                        end = q3;
                                    },
                                    None => {},
                                }
                            },
                            None => {},
                        }
                    },
                }
                let t = TransitionNode {
                    source: source.clone(),
                    target: tgt,
                    resolved: None,
                    cond,
                    action: act,
                };
                Ok((end, t))
            },
        }
    }

    /// Consumes a dedent token.
    fn dedent(&self, offset: usize) -> (r: Option<(usize, bool)>)
        ensures
            r is Some <==> offset < self.tk().len() && self.tk()[offset as int].tok is Dedent,
            r matches Some(p) ==> p.0 == offset + 1 && p.1 == true,
    {
        let n = self.tokens.len();
        if offset < n {
            proof {
                assert(self.tk()[offset as int] == self.tokens@[offset as int]@);
            }
            match &self.tokens[offset].token {
                Token::Dedent => Some((offset + 1, true)),
                _ => None,
            }
        } else {
            None
        }
    }
}


/// The first already-parsed sibling carrying `id`, searched in
/// declaration order. `pacc` is the spec-level view of `kids`.
fn find_index(kids: &Vec<StateNode>, id: &String, Ghost(pacc): Ghost<Seq<PState>>) -> (r: Option<
    usize,
>)
    requires
        strip_all(pacc) == state_models(kids@),
    ensures
        r is Some <==> find_sibling(pacc, id@) is Some,
        r matches Some(i) ==> find_sibling(pacc, id@) == Some(i as int) && i < kids@.len()
            && i < pacc.len(),
{
    proof {
        lemma_strip_all(pacc);
        lemma_state_models(kids@);
    }
    let n = kids.len();
    let mut i: usize = 0;
    while i < n
        invariant
            i <= n,
            n == kids@.len(),
            pacc.len() == n,
            strip_all(pacc) == state_models(kids@),
            forall|j: int| 0 <= j < pacc.len() ==> strip_all(pacc)[j] == strip(pacc[j]),
            forall|j: int| 0 <= j < kids@.len() ==> state_models(kids@)[j] == kids@[j]@,
            find_sibling(pacc, id@) == find_sibling_from(pacc, id@, i as int),
        decreases n - i,
    {
        proof {
            assert(strip(pacc[i as int]).id == pacc[i as int].id);
            assert(state_models(kids@)[i as int] == kids@[i as int]@);
        }
        if kids[i].id.eq(id) {
            return Some(i);
        }
        i = i + 1;
    }
    None
}

/// Whether some already-parsed sibling carries the initial marker.
fn any_initial(kids: &Vec<StateNode>, Ghost(pacc): Ghost<Seq<PState>>) -> (r: bool)
    requires
        strip_all(pacc) == state_models(kids@),
    ensures
        r == marked_initial(pacc),
{
    proof {
        lemma_strip_all(pacc);
        lemma_state_models(kids@);
    }
    let n = kids.len();
    let mut i: usize = 0;
    while i < n
        invariant
            i <= n,
            n == kids@.len(),
            pacc.len() == n,
            strip_all(pacc) == state_models(kids@),
            forall|j: int| 0 <= j < pacc.len() ==> strip_all(pacc)[j] == strip(pacc[j]),
            forall|j: int| 0 <= j < kids@.len() ==> state_models(kids@)[j] == kids@[j]@,
            forall|j: int| 0 <= j < i ==> !pacc[j].is_initial,
        decreases n - i,
    {
        proof {
            assert(strip(pacc[i as int]).is_initial == pacc[i as int].is_initial);
            assert(state_models(kids@)[i as int] == kids@[i as int]@);
        }
        if kids[i].is_initial {
            return true;
        }
        i = i + 1;
    }
    false
}

/// The initial child of a parsed sibling list: the marked child if one
/// is, else the first declared, else none.
fn initial_of(kids: &Vec<StateNode>, Ghost(pacc): Ghost<Seq<PState>>) -> (r: Option<String>)
    requires
        strip_all(pacc) == state_models(kids@),
        at_most_one_initial_p(pacc),
    ensures
        opt_text_model(r) == computed_initial(pacc),
{
    proof {
        lemma_strip_all(pacc);
        lemma_state_models(kids@);
    }
    let n = kids.len();
    if n == 0 {
        return None;
    }
    let mut i: usize = 0;
    while i < n
        invariant
            i <= n,
            n == kids@.len(),
            pacc.len() == n,
            at_most_one_initial_p(pacc),
            strip_all(pacc) == state_models(kids@),
            forall|j: int| 0 <= j < pacc.len() ==> strip_all(pacc)[j] == strip(pacc[j]),
            forall|j: int| 0 <= j < kids@.len() ==> state_models(kids@)[j] == kids@[j]@,
            forall|j: int| 0 <= j < i ==> !pacc[j].is_initial,
        decreases n - i,
    {
        proof {
            assert(strip(pacc[i as int]).is_initial == pacc[i as int].is_initial);
            assert(strip(pacc[i as int]).id == pacc[i as int].id);
            assert(state_models(kids@)[i as int] == kids@[i as int]@);
        }
        if kids[i].is_initial {
            proof {
                assert(marked_initial(pacc));
                let w = choose|k: int| 0 <= k < pacc.len() && pacc[k].is_initial;
                assert(w == i as int);
            }
            return Some(kids[i].id.clone());
        }
        i = i + 1;
    }
    proof {
        assert(!marked_initial(pacc));
        assert(strip(pacc[0]).id == pacc[0].id);
        assert(state_models(kids@)[0] == kids@[0]@);
    }
    Some(kids[0].id.clone())
}


/// A successful scope body never moves the cursor backwards, nor past
/// the end of input.
pub proof fn lemma_spec_body_advances(
    toks: Seq<SpanModel>,
    pos: int,
    encl: Seq<char>,
    acc: Seq<PState>,
    acc_on: Seq<TransModel>,
)
    requires
        0 <= pos <= toks.len(),
    ensures
        spec_body(toks, pos, encl, acc, acc_on) matches Ok(t3) ==> pos <= t3.0 <= toks.len(),
    decreases toks.len() - pos, 1int,
{
    if 0 <= pos < toks.len() {
        if toks[pos].tok is TransitionArrow {
            match spec_trans(toks, pos, encl) {
                Err(_) => {},
                Ok((p2, tm)) => {
                    if p2 > pos && p2 <= toks.len() {
                        lemma_spec_body_advances(toks, p2, encl, acc, acc_on.push(tm));
                    }
                },
            }
        } else if toks[pos].tok is Identifier {
            let x = toks[pos].tok->Identifier_0;
            if pos + 1 < toks.len() && toks[pos + 1].tok is TransitionArrow {
                match spec_trans(toks, pos + 1, x) {
                    Err(_) => {},
                    Ok((p2, tm)) => {
                        if p2 > pos && p2 <= toks.len() {
                            match find_sibling(acc, x) {
                                Some(i) => {
                                    if acc[i].typ != StateType::FinalState {
                                        lemma_spec_body_advances(
                                            toks,
                                            p2,
                                            encl,
                                            acc.update(i, push_on(acc[i], tm)),
                                            acc_on,
                                        );
                                    }
                                },
                                None => {
                                    lemma_spec_body_advances(
                                        toks,
                                        p2,
                                        encl,
                                        acc.push(source_stub(pos, x, tm)),
                                        acc_on,
                                    );
                                },
                            }
                        }
                    },
                }
            } else {
                match spec_state(toks, pos) {
                    Err(_) => {},
                    Ok((p2, child)) => {
                        if p2 > pos && p2 <= toks.len() {
                            lemma_spec_body_advances(toks, p2, encl, acc.push(child), acc_on);
                        }
                    },
                }
            }
        }
    }
}

/// Shape facts about a successful `state_decl`: the result is declared
/// by the identifier token at `pos`, carries its text, and the cursor
/// strictly advances without running past the input.
pub proof fn lemma_spec_state_shape(toks: Seq<SpanModel>, pos: int)
    ensures
        spec_state(toks, pos) matches Ok(p) ==> {
            &&& 0 <= pos < toks.len()
            &&& toks[pos].tok is Identifier
            &&& p.1.id == toks[pos].tok->Identifier_0
            &&& p.1.decl == pos
            &&& pos < p.0 <= toks.len()
        },
{
    if 0 <= pos < toks.len() && toks[pos].tok is Identifier {
        let par = pos + 1 < toks.len() && toks[pos + 1].tok is ParallelState;
        let p1 = pos + 1 + (if par {
            1int
        } else {
            0int
        });
        let fin = p1 < toks.len() && toks[p1].tok is FinalState;
        let p2 = p1 + (if fin {
            1int
        } else {
            0int
        });
        let ini = p2 < toks.len() && toks[p2].tok is InitialState;
        let p3 = p2 + (if ini {
            1int
        } else {
            0int
        });
        assert(p3 <= toks.len());
        if !(par && fin) && p3 < toks.len() && toks[p3].tok is Indent && !fin {
            let id = toks[pos].tok->Identifier_0;
            lemma_spec_body_advances(toks, p3 + 1, id, Seq::empty(), Seq::empty());
            match spec_body(toks, p3 + 1, id, Seq::empty(), Seq::empty()) {
                Err(_) => {},
                Ok((p4, kids, trans)) => {
                    if p4 < toks.len() && toks[p4].tok is Dedent {
                        assert(spec_state(toks, pos)->Ok_0.0 == p4 + 1);
                    }
                },
            }
        }
    }
}

impl Parser {
    /// One `state_decl` from `offset` on: returns the advanced cursor
    /// and the built state, exactly as [`spec_state`] ascribes them (the
    /// built tree is the spec-level one with declaration positions
    /// erased), or exactly the diagnostic [`spec_state`] gives.
    fn state_parser(&self, offset: usize) -> (r: Result<(usize, StateNode), ParseError>)
        requires
            offset <= self.tk().len(),
        ensures
            match r {
                Ok(p) => spec_state(self.tk(), offset as int) matches Ok(q) && q.0 == p.0 && strip(
                    q.1,
                ) == p.1@ && offset < p.0 <= self.tk().len(),
                Err(e) => spec_state(self.tk(), offset as int) matches Err(em) && em == e@,
            },
        decreases self.tokens@.len() - offset, 0int,
    {
        let n = self.tokens.len();
        match self.identifier(offset) {
            None => {
                let (line, col) = self.err_pos(offset);
                Err(ParseError::ExpectedIdentifier { line, col })
            },
            Some((p0, id)) => {
                let (p1, par_o) = zero_or_one(p0, |o: usize| -> (res: Option<(usize, bool)>)
                    ensures
                        res is Some <==> o < self.tk().len()
                            && self.tk()[o as int].tok is ParallelState,
                        res matches Some(q) ==> q.0 == o + 1 && q.1 == true,
                    { self.parallel_state(o) });
                let par = par_o.is_some();
                let (p2, fin_o) = zero_or_one(p1, |o: usize| -> (res: Option<(usize, bool)>)
                    ensures
                        res is Some <==> o < self.tk().len()
                            && self.tk()[o as int].tok is FinalState,
                        res matches Some(q) ==> q.0 == o + 1 && q.1 == true,
                    { self.final_state(o) });
                let fin = fin_o.is_some();
                let (p3, ini_o) = zero_or_one(p2, |o: usize| -> (res: Option<(usize, bool)>)
                    ensures
                        res is Some <==> o < self.tk().len()
                            && self.tk()[o as int].tok is InitialState,
                        res matches Some(q) ==> q.0 == o + 1 && q.1 == true,
                    { self.initial_state(o) });
                let ini = ini_o.is_some();
                if par && fin {
                    let (line, col) = self.err_pos(p1);
                    return Err(ParseError::UnexpectedToken { line, col });
                }
                let (p4, ind_o) = zero_or_one(p3, |o: usize| -> (res: Option<(usize, bool)>)
                    ensures
                        res is Some <==> o < self.tk().len()
                            && self.tk()[o as int].tok is Indent,
                        res matches Some(q) ==> q.0 == o + 1 && q.1 == true,
                    { self.indent(o) });
                if ind_o.is_some() {
                    if fin {
                        let (line, col) = self.err_pos(p3);
                        return Err(ParseError::UnexpectedToken { line, col });
                    }
                    let mut kids: Vec<StateNode> = Vec::new();
                    let mut trans: Vec<TransitionNode> = Vec::new();
                    proof {
                        assert(strip_all(Seq::<PState>::empty()) =~= state_models(kids@));
                        assert(trans_models(trans@) =~= Seq::<TransModel>::empty());
                    }
                    match self.body_items(p4, &id, &mut kids, &mut trans, Ghost(Seq::empty())) {
                        Err(e) => Err(e),
                        Ok(end) => {
                            let ghost t3 = spec_body(
                                self.tk(),
                                p4 as int,
                                id@,
                                Seq::empty(),
                                Seq::empty(),
                            )->Ok_0;
                            match self.dedent(end) {
                                Some((p5, _matched)) => {
                                    let init = initial_of(&kids, Ghost(t3.1));
                                    let typ = if par {
                                        StateType::ParallelState
                                    } else if fin {
                                        StateType::FinalState
                                    } else if kids.len() > 0 {
                                        StateType::CompoundState
                                    } else {
                                        StateType::AtomicState
                                    };
                                    proof {
                                        lemma_strip_all(t3.1);
                                        lemma_state_models(kids@);
                                    }
                                    let node = StateNode {
                                        id,
                                        typ,
                                        initial: init,
                                        is_initial: ini,
                                        on: trans,
                                        states: kids,
                                    };
                                    Ok((p5, node))
                                },
                                None => {
                                    let (line, col) = self.err_pos(end);
                                    Err(ParseError::UnbalancedScope { line, col })
                                },
                            }
                        },
                    }
                } else {
                    let node = StateNode {
                        id,
                        typ: if par {
                            StateType::ParallelState
                        } else if fin {
                            StateType::FinalState
                        } else {
                            StateType::AtomicState
                        },
                        initial: None,
                        is_initial: ini,
                        on: Vec::new(),
                        states: Vec::new(),
                    };
                    proof {
                        assert(trans_models(node.on@) =~= Seq::<TransModel>::empty());
                        assert(state_models(node.states@) =~= Seq::<StateModel>::empty());
                        assert(strip_all(Seq::<PState>::empty()) =~= Seq::<StateModel>::empty());
                    }
                    Ok((p3, node))
                }
            },
        }
    }

    /// A scope body from `start` on: one item after the other until the
    /// closing dedent or the end of input, accumulating the enclosing
    /// state's children in `kids` and its bare transitions in `trans`.
    /// `pacc` is the spec-level view of `kids` at entry.
    fn body_items(
        &self,
        start: usize,
        encl: &String,
        kids: &mut Vec<StateNode>,
        trans: &mut Vec<TransitionNode>,
        Ghost(pacc): Ghost<Seq<PState>>,
    ) -> (r: Result<usize, ParseError>)
        requires
            start <= self.tk().len(),
            strip_all(pacc) == state_models(old(kids)@),
            at_most_one_initial_p(pacc),
        ensures
            match r {
                Ok(end) => {
                    &&& spec_body(
                        self.tk(),
                        start as int,
                        encl@,
                        pacc,
                        trans_models(old(trans)@),
                    ) matches Ok(t3)
                    &&& ({
                        let t3 = spec_body(
                            self.tk(),
                            start as int,
                            encl@,
                            pacc,
                            trans_models(old(trans)@),
                        )->Ok_0;
                        &&& t3.0 == end
                        &&& strip_all(t3.1) == state_models(final(kids)@)
                        &&& t3.2 == trans_models(final(trans)@)
                        &&& at_most_one_initial_p(t3.1)
                        &&& start <= end <= self.tk().len()
                    })
                },
                Err(e) => spec_body(
                    self.tk(),
                    start as int,
                    encl@,
                    pacc,
                    trans_models(old(trans)@),
                ) matches Err(em) && em == e@,
            },
        decreases self.tokens@.len() - start, 1int,
    {
        let n = self.tokens.len();
        if start >= n {
            return Ok(start);
        }
        proof {
            assert(self.tk()[start as int] == self.tokens@[start as int]@);
        }
        let ghost acc_t0 = trans_models(trans@);
        let is_dedent = match &self.tokens[start].token {
            Token::Dedent => true,
            _ => false,
        };
        if is_dedent {
            return Ok(start);
        }
        let is_arrow = match &self.tokens[start].token {
            Token::TransitionArrow => true,
            _ => false,
        };
        if is_arrow {
            return match self.transition(start, encl) {
                Err(e) => Err(e),
                Ok((p2, t)) => {
                    let ghost tm = t@;
                    trans.push(t);
                    proof {
                        assert(trans_models(trans@) =~= acc_t0.push(tm));
                    }
                    self.body_items(p2, encl, kids, trans, Ghost(pacc))
                },
            };
        }
        let is_ident = match &self.tokens[start].token {
            Token::Identifier(_) => true,
            _ => false,
        };
        if is_ident {
            let arrow_next = start + 1 < n && (match &self.tokens[start + 1].token {
                Token::TransitionArrow => true,
                _ => false,
            });
            proof {
                if start + 1 < n {
                    assert(self.tk()[start + 1] == self.tokens@[start + 1]@);
                }
            }
            if arrow_next {
                let (_pafter, src_txt) = self.identifier(start).unwrap();
                return match self.transition(start + 1, &src_txt) {
                    Err(e) => Err(e),
                    Ok((p2, t)) => {
                        let ghost tm = t@;
                        match find_index(kids, &src_txt, Ghost(pacc)) {
                            Some(i) => {
                                proof {
                                    lemma_strip_all(pacc);
                                    lemma_state_models(kids@);
                                    assert(strip(pacc[i as int]) == state_models(kids@)[i as int]);
                                    assert(state_models(kids@)[i as int] == kids@[i as int]@);
                                }
                                if kids[i].typ == StateType::FinalState {
                                    let (line, col) = self.err_pos(start + 1);
                                    Err(ParseError::UnexpectedToken { line, col })
                                } else {
                                    let ghost kids0 = kids@;
                                    let ghost oldn = kids@[i as int];
                                    let mut node = kids.remove(i);
                                    let ghost on0 = trans_models(node.on@);
                                    node.on.push(t);
                                    proof {
                                        assert(trans_models(node.on@) =~= on0.push(tm));
                                    }
                                    kids.insert(i, node);
                                    let ghost pacc2 = pacc.update(
                                        i as int,
                                        push_on(pacc[i as int], tm),
                                    );
                                    proof {
                                        assert(kids@ =~= kids0.update(
                                            i as int,
                                            kids@[i as int],
                                        ));
                                        lemma_strip_all(pacc2);
                                        lemma_state_models(kids@);
                                        let nn = kids@[i as int];
                                        assert(nn.id == oldn.id && nn.typ == oldn.typ
                                            && nn.initial == oldn.initial && nn.is_initial
                                            == oldn.is_initial && nn.states == oldn.states);
                                        assert(trans_models(nn.on@) == trans_models(
                                            oldn.on@,
                                        ).push(tm));
                                        assert(strip(pacc[i as int]) == oldn@);
                                        assert(nn@.on == oldn@.on.push(tm));
                                        assert(nn@.id == oldn@.id && nn@.typ == oldn@.typ
                                            && nn@.initial == oldn@.initial && nn@.is_initial
                                            == oldn@.is_initial && nn@.states == oldn@.states);
                                        assert(strip(pacc2[i as int]) == nn@);
                                        assert forall|j: int| 0 <= j < pacc2.len() implies strip_all(
                                            pacc2,
                                        )[j] == state_models(kids@)[j] by {
                                            if j == i as int {
                                                assert(strip(pacc2[j]) == nn@);
                                            } else {
                                                assert(pacc2[j] == pacc[j]);
                                                assert(kids@[j] == kids0[j]);
                                                assert(strip_all(pacc)[j] == state_models(
                                                    kids0,
                                                )[j]);
                                            }
                                        }
                                        assert(strip_all(pacc2) =~= state_models(kids@));
                                        assert(at_most_one_initial_p(pacc2)) by {
                                            assert(forall|j: int|
                                                0 <= j < pacc2.len() ==> pacc2[j].is_initial
                                                    == pacc[j].is_initial);
                                        }
                                    }
                                    self.body_items(p2, encl, kids, trans, Ghost(pacc2))
                                }
                            },
                            None => {
                                let mut on_vec: Vec<TransitionNode> = Vec::new();
                                on_vec.push(t);
                                let node = StateNode {
                                    id: src_txt,
                                    typ: StateType::AtomicState,
                                    initial: None,
                                    is_initial: false,
                                    on: on_vec,
                                    states: Vec::new(),
                                };
                                let ghost x = self.tk()[start as int].tok->Identifier_0;
                                let ghost stub = source_stub(start as int, x, tm);
                                let ghost kids0 = kids@;
                                kids.push(node);
                                let ghost pacc2 = pacc.push(stub);
                                proof {
                                    lemma_strip_all(pacc);
                                    lemma_state_models(kids0);
                                    lemma_strip_all(pacc2);
                                    lemma_state_models(kids@);
                                    assert(trans_models(kids@[kids0.len() as int].on@) =~= seq![
                                        tm,
                                    ]);
                                    assert(state_models(
                                        kids@[kids0.len() as int].states@,
                                    ) =~= Seq::<StateModel>::empty());
                                    assert(strip_all(stub.states) =~= Seq::<StateModel>::empty());
                                    assert(strip(stub) == kids@[kids0.len() as int]@);
                                    assert forall|j: int| 0 <= j < pacc2.len() implies strip_all(
                                        pacc2,
                                    )[j] == state_models(kids@)[j] by {
                                        if j < kids0.len() {
                                            assert(pacc2[j] == pacc[j]);
                                            assert(kids@[j] == kids0[j]);
                                            assert(strip_all(pacc)[j] == state_models(kids0)[j]);
                                        }
                                    }
                                    assert(strip_all(pacc2) =~= state_models(kids@));
                                    assert(at_most_one_initial_p(pacc2)) by {
                                        assert(forall|j: int|
                                            0 <= j < pacc.len() ==> pacc2[j].is_initial == pacc[
                                                j
                                            ].is_initial);
                                        assert(!stub.is_initial);
                                    }
                                }
                                self.body_items(p2, encl, kids, trans, Ghost(pacc2))
                            },
                        }
                    },
                };
            } else {
                return match self.state_parser(start) {
                    Err(e) => Err(e),
                    Ok((p2, child)) => {
                        proof {
                            lemma_spec_state_shape(self.tk(), start as int);
                        }
                        let ghost pchild = spec_state(self.tk(), start as int)->Ok_0.1;
                        match find_index(kids, &child.id, Ghost(pacc)) {
                            Some(_i) => {
                                let (line, col) = self.err_pos(start);
                                Err(ParseError::DuplicateState { line, col, id: child.id })
                            },
                            None => {
                                if child.is_initial && any_initial(kids, Ghost(pacc)) {
                                    let (line, col) = self.err_pos(start);
                                    Err(ParseError::MultipleInitial { line, col, id: child.id })
                                } else {
                                    let ghost kids0 = kids@;
                                    kids.push(child);
                                    let ghost pacc2 = pacc.push(pchild);
                                    proof {
                                        lemma_strip_all(pacc);
                                        lemma_state_models(kids0);
                                        lemma_strip_all(pacc2);
                                        lemma_state_models(kids@);
                                        assert forall|j: int| 0 <= j < pacc2.len() implies strip_all(
                                            pacc2,
                                        )[j] == state_models(kids@)[j] by {
                                            if j < kids0.len() {
                                                assert(pacc2[j] == pacc[j]);
                                                assert(kids@[j] == kids0[j]);
                                                assert(strip_all(pacc)[j] == state_models(
                                                    kids0,
                                                )[j]);
                                            }
                                        }
                                        assert(strip_all(pacc2) =~= state_models(kids@));
                                        assert(at_most_one_initial_p(pacc2)) by {
                                            if pchild.is_initial {
                                                assert(!marked_initial(pacc));
                                                assert(forall|j: int|
                                                    0 <= j < pacc.len() ==> !pacc[j].is_initial);
                                            }
                                        }
                                    }
                                    self.body_items(p2, encl, kids, trans, Ghost(pacc2))
                                }
                            },
                        }
                    },
                };
            }
        }
        let e = self.stray_err(start);
        Err(e)
    }
}


/// What `parse` computes, as one mathematical function: lex the
/// document, drop the comment tokens, parse the one root state
/// declaration, and resolve every transition target; or the first
/// diagnostic on the way.
pub open spec fn spec_parse(input: Seq<char>) -> Result<StateModel, ErrModel> {
    match spec_tokenize(input) {
        Err(e) => Err(e),
        Ok(toks) => match spec_document(drop_comments(toks)) {
            Err(e) => Err(e),
            Ok(pst) => spec_resolve(strip(pst)),
        },
    }
}

/// The token sequence with comment tokens removed.
fn strip_comments_vec(v: &Vec<SpannedToken>) -> (r: Vec<SpannedToken>)
    ensures
        span_models(r@) == drop_comments(span_models(v@)),
{
    let ghost sm = span_models(v@);
    let mut out: Vec<SpannedToken> = Vec::new();
    let mut i: usize = 0;
    proof {
        assert(span_models(out@) =~= Seq::<SpanModel>::empty());
        assert(span_models(out@) + drop_comments_from(sm, 0) =~= drop_comments_from(sm, 0));
    }
    while i < v.len()
        invariant
            i <= v@.len(),
            sm == span_models(v@),
            sm.len() == v@.len(),
            span_models(out@) + drop_comments_from(sm, i as int) == drop_comments_from(sm, 0),
        decreases v@.len() - i,
    {
        let ghost pre = span_models(out@);
        proof {
            assert(sm[i as int] == v@[i as int]@);
        }
        let is_comment = match &v[i].token {
            Token::Comment(_) => true,
            _ => false,
        };
        if !is_comment {
            let t = v[i].duplicate();
            out.push(t);
            proof {
                assert(span_models(out@) =~= pre.push(sm[i as int]));
                assert(span_models(out@) + drop_comments_from(sm, i + 1) =~= pre
                    + drop_comments_from(sm, i as int));
            }
        }
        i = i + 1;
    }
    proof {
        assert(span_models(out@) =~= span_models(out@) + drop_comments_from(
            sm,
            v@.len() as int,
        ));
    }
    out
}

impl Parser {
    /// The public entry point: parses one document into its fully
    /// resolved state tree, or the first structured diagnostic. The
    /// result is exactly what [`spec_parse`] ascribes to the text.
    pub fn parse(&mut self, input: &str) -> (r: Result<StateNode, ParseError>)
        ensures
            match r {
                Ok(node) => spec_parse(input@) matches Ok(m) && m == node@,
                Err(e) => spec_parse(input@) matches Err(em) && em == e@,
            },
    {
        match tokenize_spanned(input) {
            Err(e) => {
                return Err(e);
            },
            Ok(v) => {
                self.tokens = strip_comments_vec(&v);
            },
        }
        match self.state_parser(0) {
            Err(e) => Err(e),
            Ok((end, node)) => {
                if end < self.tokens.len() {
                    Err(self.stray_err(end))
                } else {
                    resolve(&node)
                }
            },
        }
    }
}

} // verus!
