//! The lexer: turns one document into a flat token sequence in which
//! increases and decreases of indentation appear as explicit `Indent` and
//! `Dedent` tokens, so the parser never reasons about whitespace.
//!
//! The whole tokenization is specified by [`spec_tokenize`], a pure
//! function from the document's characters to either the token sequence
//! (with zero-based line and column positions) or a `BadIndent`
//! diagnostic. The executable [`tokenize`] is proved to return exactly
//! that.
//!
//! Policy notes, where the notation itself is silent:
//! - lines holding only spaces, tabs or carriage returns are skipped
//!   entirely: they neither open nor close scopes;
//! - a line whose content is a comment still has its leading spaces
//!   processed, so a comment line can open or close a scope;
//! - a `;` or `>` with no identifier character after it on the same line
//!   yields an `Unknown` token for that character;
//! - indentation is counted in raw space characters only.

use vstd::prelude::*;
use vstd::string::*;

use crate::diag::{ErrModel, ParseError};

verus! {

/// One lexical token. Text-carrying variants own a copy of the text they
/// denote; `Indent` and `Dedent` are synthetic structural tokens.
#[derive(PartialEq, Eq, Debug)]
pub enum Token {
    Identifier(String),
    Condition(String),
    Indent,
    Dedent,
    Unknown(String),
    Comment(String),
    Action(String),
    ParallelState,
    FinalState,
    InitialState,
    TransitionArrow,
}

/// The mathematical shape of a [`Token`]: text as `Seq<char>`.
pub ghost enum TokenModel {
    Identifier(Seq<char>),
    Condition(Seq<char>),
    Indent,
    Dedent,
    Unknown(Seq<char>),
    Comment(Seq<char>),
    Action(Seq<char>),
    ParallelState,
    FinalState,
    InitialState,
    TransitionArrow,
}

impl View for Token {
    type V = TokenModel;

    open spec fn view(&self) -> TokenModel {
        match self {
            Token::Identifier(t) => TokenModel::Identifier(t@),
            Token::Condition(t) => TokenModel::Condition(t@),
            Token::Indent => TokenModel::Indent,
            Token::Dedent => TokenModel::Dedent,
            Token::Unknown(t) => TokenModel::Unknown(t@),
            Token::Comment(t) => TokenModel::Comment(t@),
            Token::Action(t) => TokenModel::Action(t@),
            Token::ParallelState => TokenModel::ParallelState,
            Token::FinalState => TokenModel::FinalState,
            Token::InitialState => TokenModel::InitialState,
            Token::TransitionArrow => TokenModel::TransitionArrow,
        }
    }
}

/// A token together with the zero-based line and column where it starts.
/// Synthetic `Indent`/`Dedent` tokens carry the line that caused them and
/// column `0`.
#[derive(PartialEq, Eq, Debug)]
pub struct SpannedToken {
    pub token: Token,
    pub line: usize,
    pub col: usize,
}

/// The mathematical shape of a [`SpannedToken`].
pub ghost struct SpanModel {
    pub tok: TokenModel,
    pub line: nat,
    pub col: nat,
}

impl View for SpannedToken {
    type V = SpanModel;

    open spec fn view(&self) -> SpanModel {
        SpanModel { tok: self.token@, line: self.line as nat, col: self.col as nat }
    }
}

/// Maps a sequence of spanned tokens to their models.
pub open spec fn span_models(s: Seq<SpannedToken>) -> Seq<SpanModel> {
    s.map(|i: int, t: SpannedToken| t@)
}

/// Forgets the positions of a token sequence.
pub open spec fn plain_tokens(s: Seq<SpanModel>) -> Seq<TokenModel> {
    s.map(|i: int, t: SpanModel| t.tok)
}

/// The identifier character class: `#`, letters, digits, `_` and `.`.
/// A root-qualified path such as `#a.b` is therefore one identifier.
pub open spec fn is_ident_char(c: char) -> bool {
    c == '#' || c == '_' || c == '.' || ('a' <= c && c <= 'z') || ('A' <= c && c <= 'Z') || ('0'
        <= c && c <= '9')
}

/// Characters without token meaning inside a line: space, tab, carriage
/// return.
pub open spec fn is_space_char(c: char) -> bool {
    c == ' ' || c == '\t' || c == '\r'
}

/// A line that carries no content at all and is skipped by the lexer.
pub open spec fn is_blank_line(line: Seq<char>) -> bool {
    forall|i: int| 0 <= i < line.len() ==> is_space_char(#[trigger] line[i])
}

/// Splits a document on `'\n'`. Always yields at least one line; a
/// trailing newline yields a final empty line, as `str::split` does.
pub open spec fn split_lines(s: Seq<char>) -> Seq<Seq<char>>
    decreases s.len(),
{
    if s.len() == 0 {
        seq![Seq::empty()]
    } else if s[0] == '\n' {
        seq![Seq::<char>::empty()] + split_lines(s.drop_first())
    } else {
        let rest = split_lines(s.drop_first());
        seq![seq![s[0]] + rest[0]] + rest.drop_first()
    }
}

/// The first index at or after `i` holding a non-space character; equals
/// `i` when `line[i]` is not a space. Applied at `0` it is the line's
/// indentation level, counted in raw space characters.
pub open spec fn space_run_end(line: Seq<char>, i: int) -> int
    decreases line.len() - i,
{
    if i < 0 || i >= line.len() || line[i] != ' ' {
        i
    } else {
        space_run_end(line, i + 1)
    }
}

/// The first index at or after `i` that no longer holds an identifier
/// character.
pub open spec fn ident_end(line: Seq<char>, i: int) -> int
    decreases line.len() - i,
{
    if i < 0 || i >= line.len() || !is_ident_char(line[i]) {
        i
    } else {
        ident_end(line, i + 1)
    }
}

/// The first index at or after `i` holding an identifier character, or
/// the line length when there is none.
pub open spec fn next_ident_start(line: Seq<char>, i: int) -> int
    decreases line.len() - i,
{
    if i < 0 || i >= line.len() {
        line.len() as int
    } else if is_ident_char(line[i]) {
        i
    } else {
        next_ident_start(line, i + 1)
    }
}

pub proof fn lemma_ident_end_bounds(line: Seq<char>, i: int)
    requires
        0 <= i <= line.len(),
    ensures
        i <= ident_end(line, i) <= line.len(),
    decreases line.len() - i,
{
    if i < line.len() && is_ident_char(line[i]) {
        lemma_ident_end_bounds(line, i + 1);
    }
}

pub proof fn lemma_next_ident_start_bounds(line: Seq<char>, i: int)
    requires
        0 <= i <= line.len(),
    ensures
        i <= next_ident_start(line, i) <= line.len(),
        next_ident_start(line, i) < line.len() ==> is_ident_char(
            line[next_ident_start(line, i)],
        ),
    decreases line.len() - i,
{
    if i < line.len() && !is_ident_char(line[i]) {
        lemma_next_ident_start_bounds(line, i + 1);
    }
}

pub proof fn lemma_space_run_end_bounds(line: Seq<char>, i: int)
    requires
        0 <= i <= line.len(),
    ensures
        i <= space_run_end(line, i) <= line.len(),
    decreases line.len() - i,
{
    if i < line.len() && line[i] == ' ' {
        lemma_space_run_end_bounds(line, i + 1);
    }
}

/// Builds one positioned token.
pub open spec fn sp(t: TokenModel, ln: nat, col: int) -> SpanModel {
    SpanModel { tok: t, line: ln, col: col as nat }
}

/// The token sequence of one line's content, scanning left to right from
/// index `i` by character-class dispatch. A `%` ends the line as one
/// comment token; `;` and `>` skip ahead to the next identifier run and
/// wrap it as a condition or action.
pub open spec fn scan_line(line: Seq<char>, i: int, ln: nat) -> Seq<SpanModel>
    decreases line.len() - i,
    via scan_line_dec
{
    if i < 0 || i >= line.len() {
        Seq::empty()
    } else {
        let c = line[i];
        if c == '%' {
            seq![sp(TokenModel::Comment(line.subrange(i, line.len() as int)), ln, i)]
        } else if c == '&' {
            seq![sp(TokenModel::ParallelState, ln, i)] + scan_line(line, i + 1, ln)
        } else if c == '$' {
            seq![sp(TokenModel::FinalState, ln, i)] + scan_line(line, i + 1, ln)
        } else if c == '*' {
            seq![sp(TokenModel::InitialState, ln, i)] + scan_line(line, i + 1, ln)
        } else if c == ';' || c == '>' {
            let k = next_ident_start(line, i + 1);
            if k >= line.len() {
                seq![sp(TokenModel::Unknown(seq![c]), ln, i)] + scan_line(line, i + 1, ln)
            } else {
                let e = ident_end(line, k);
                let t = if c == ';' {
                    TokenModel::Condition(line.subrange(k, e))
                } else {
                    TokenModel::Action(line.subrange(k, e))
                };
                seq![sp(t, ln, k)] + scan_line(line, e, ln)
            }
        } else if c == '-' {
            if i + 1 < line.len() && line[i + 1] == '>' {
                seq![sp(TokenModel::TransitionArrow, ln, i)] + scan_line(line, i + 2, ln)
            } else {
                seq![sp(TokenModel::Unknown(seq![c]), ln, i)] + scan_line(line, i + 1, ln)
            }
        } else if is_ident_char(c) {
            let e = ident_end(line, i);
            seq![sp(TokenModel::Identifier(line.subrange(i, e)), ln, i)] + scan_line(line, e, ln)
        } else if is_space_char(c) {
            scan_line(line, i + 1, ln)
        } else {
            seq![sp(TokenModel::Unknown(seq![c]), ln, i)] + scan_line(line, i + 1, ln)
        }
    }
}

#[via_fn]
proof fn scan_line_dec(line: Seq<char>, i: int, ln: nat) {
    if 0 <= i < line.len() {
        let c = line[i];
        if c == ';' || c == '>' {
            lemma_next_ident_start_bounds(line, i + 1);
            let k = next_ident_start(line, i + 1);
            if k < line.len() {
                lemma_ident_end_bounds(line, k + 1);
                assert(ident_end(line, k) == ident_end(line, k + 1));
            }
        } else if is_ident_char(c) {
            lemma_ident_end_bounds(line, i + 1);
            assert(ident_end(line, i) == ident_end(line, i + 1));
        }
    }
}

/// The effective top of the indent stack; an empty stack stands for
/// indentation level zero.
pub open spec fn stack_top(stack: Seq<int>) -> int {
    if stack.len() == 0 {
        0
    } else {
        stack.last()
    }
}

/// Pops every stack entry wider than `level`.
pub open spec fn popped_stack(stack: Seq<int>, level: int) -> Seq<int>
    decreases stack.len(),
{
    if stack.len() == 0 || stack.last() <= level {
        stack
    } else {
        popped_stack(stack.drop_last(), level)
    }
}

/// `n` dedent tokens attributed to line `ln`.
pub open spec fn dedent_run(n: int, ln: nat) -> Seq<SpanModel> {
    Seq::new(if n >= 0 {
        n as nat
    } else {
        0
    }, |i: int| sp(TokenModel::Dedent, ln, 0))
}

/// The structural tokens of one non-blank line with indentation `level`,
/// and the indent stack afterwards. Deeper indentation pushes the new
/// width and yields one `Indent`; shallower indentation pops every wider
/// width, one `Dedent` each, and the width then uncovered must equal
/// `level` exactly: otherwise the line is a malformed dedent (`None`).
pub open spec fn indent_step(stack: Seq<int>, level: int, ln: nat) -> Option<
    (Seq<int>, Seq<SpanModel>),
> {
    if level > stack_top(stack) {
        Some((stack.push(level), seq![sp(TokenModel::Indent, ln, 0)]))
    } else if level == stack_top(stack) {
        Some((stack, Seq::empty()))
    } else {
        let p = popped_stack(stack, level);
        if stack_top(p) == level {
            Some((p, dedent_run(stack.len() - p.len(), ln)))
        } else {
            None
        }
    }
}

/// Tokenizes the lines from index `ln` on, given the indent stack left by
/// the earlier lines. At end of input every still-open indentation is
/// closed with one `Dedent`.
pub open spec fn lex_lines(lines: Seq<Seq<char>>, ln: int, stack: Seq<int>) -> Result<
    Seq<SpanModel>,
    ErrModel,
>
    decreases lines.len() - ln,
{
    if ln < 0 || ln >= lines.len() {
        Ok(dedent_run(stack.len() as int, lines.len() as nat))
    } else if is_blank_line(lines[ln]) {
        lex_lines(lines, ln + 1, stack)
    } else {
        let line = lines[ln];
        let lvl = space_run_end(line, 0);
        match indent_step(stack, lvl, ln as nat) {
            None => Err(ErrModel::BadIndent { line: ln as nat }),
            Some((st2, toks)) => match lex_lines(lines, ln + 1, st2) {
                Ok(rest) => Ok(toks + scan_line(line, lvl, ln as nat) + rest),
                Err(e) => Err(e),
            },
        }
    }
}

/// The lexer, as one mathematical function: the exact token sequence of
/// the document, or the `BadIndent` diagnostic of its first malformed
/// dedent.
pub open spec fn spec_tokenize(input: Seq<char>) -> Result<Seq<SpanModel>, ErrModel> {
    lex_lines(split_lines(input), 0, Seq::empty())
}

/// Relies on std's `FromIterator` for `String`: collecting an iterator of
/// characters yields the string holding exactly those characters in
/// order.
#[verifier::external_body]
pub(crate) fn chars_to_string(v: &Vec<char>) -> (s: String)
    ensures
        s@ == v@,
{
    v.iter().collect()
}

/// The characters of a document, in order.
pub(crate) fn chars_of(s: &str) -> (v: Vec<char>)
    ensures
        v@ == s@,
{
    let n = s.unicode_len();
    let mut v: Vec<char> = Vec::new();
    let mut i: usize = 0;
    while i < n
        invariant
            i <= n,
            n == s@.len(),
            v@ == s@.subrange(0, i as int),
        decreases n - i,
    {
        let c = s.get_char(i);
        v.push(c);
        proof {
            assert(v@ =~= s@.subrange(0, i + 1 as int));
        }
        i = i + 1;
    }
    proof {
        assert(v@ =~= s@);
    }
    v
}

/// Whether `c` belongs to the identifier character class.
pub fn is_identifier_start(c: char) -> (r: bool)
    ensures
        r == is_ident_char(c),
{
    c == '#' || c == '_' || c == '.' || ('a' <= c && c <= 'z') || ('A' <= c && c <= 'Z') || ('0'
        <= c && c <= '9')
}

fn is_space(c: char) -> (r: bool)
    ensures
        r == is_space_char(c),
{
    c == ' ' || c == '\t' || c == '\r'
}

fn is_blank(line: &Vec<char>) -> (r: bool)
    ensures
        r == is_blank_line(line@),
{
    let mut i: usize = 0;
    while i < line.len()
        invariant
            i <= line@.len(),
            forall|j: int| 0 <= j < i ==> is_space_char(#[trigger] line@[j]),
        decreases line@.len() - i,
    {
        if !is_space(line[i]) {
            return false;
        }
        i = i + 1;
    }
    true
}

/// The text of `line[a..b]` as an owned string.
fn string_from_range(line: &Vec<char>, a: usize, b: usize) -> (s: String)
    requires
        a <= b <= line@.len(),
    ensures
        s@ == line@.subrange(a as int, b as int),
{
    let mut v: Vec<char> = Vec::new();
    let mut i: usize = a;
    while i < b
        invariant
            a <= i <= b <= line@.len(),
            v@ == line@.subrange(a as int, i as int),
        decreases b - i,
    {
        v.push(line[i]);
        proof {
            assert(v@ =~= line@.subrange(a as int, i + 1 as int));
        }
        i = i + 1;
    }
    chars_to_string(&v)
}

/// The text of one character as an owned string.
fn char_string(c: char) -> (s: String)
    ensures
        s@ == seq![c],
{
    let mut v: Vec<char> = Vec::new();
    v.push(c);
    proof {
        assert(v@ =~= seq![c]);
    }
    chars_to_string(&v)
}

/// A comment token: `%` consumes the rest of the line, marker included.
fn comment_token(offset: usize, line: &Vec<char>, ln: usize) -> (t: SpannedToken)
    requires
        offset <= line@.len(),
    ensures
        t@ == sp(TokenModel::Comment(line@.subrange(offset as int, line@.len() as int)), ln as nat, offset as int),
{
    let text = string_from_range(line, offset, line.len());
    SpannedToken { token: Token::Comment(text), line: ln, col: offset }
}

/// The maximal identifier run starting at `offset`, and the index just
/// after it.
fn identifier_token(offset: usize, line: &Vec<char>, ln: usize) -> (r: (usize, SpannedToken))
    requires
        offset < line@.len(),
        is_ident_char(line@[offset as int]),
    ensures
        r.0 == ident_end(line@, offset as int),
        r.1@ == sp(
            TokenModel::Identifier(line@.subrange(offset as int, ident_end(line@, offset as int))),
            ln as nat,
            offset as int,
        ),
{
    let mut e: usize = offset;
    while e < line.len() && is_identifier_start(line[e])
        invariant
            offset <= e <= line@.len(),
            ident_end(line@, offset as int) == ident_end(line@, e as int),
        decreases line@.len() - e,
    {
        e = e + 1;
    }
    let text = string_from_range(line, offset, e);
    (e, SpannedToken { token: Token::Identifier(text), line: ln, col: offset })
}

/// What `;` and `>` share: skip ahead to the next identifier run. Returns
/// the run's bounds, or `None` when no identifier character follows on
/// the line.
fn ident_after(offset: usize, line: &Vec<char>) -> (r: Option<(usize, usize)>)
    requires
        offset < line@.len(),
    ensures
        ({
            let k = next_ident_start(line@, offset + 1);
            &&& (r is None <==> k >= line@.len())
            &&& (r matches Some(p) ==> p.0 == k && p.1 == ident_end(line@, k) && offset < p.0
                && p.0 < p.1 <= line@.len())
        }),
{
    let n = line.len();
    let mut k: usize = offset + 1;
    while k < line.len() && !is_identifier_start(line[k])
        invariant
            offset + 1 <= k <= line@.len(),
            next_ident_start(line@, offset + 1) == next_ident_start(line@, k as int),
        decreases line@.len() - k,
    {
        k = k + 1;
    }
    if k >= line.len() {
        return None;
    }
    proof {
        lemma_ident_end_bounds(line@, k + 1);
        assert(ident_end(line@, k as int) == ident_end(line@, k + 1));
    }
    let mut e: usize = k;
    while e < line.len() && is_identifier_start(line[e])
        invariant
            k <= e <= line@.len(),
            ident_end(line@, k as int) == ident_end(line@, e as int),
        decreases line@.len() - e,
    {
        e = e + 1;
    }
    Some((k, e))
}

/// A guard condition: `;` skips ahead to the next identifier run and
/// wraps it as `Condition` text; with no identifier left on the line the
/// `;` itself becomes an `Unknown` token.
fn condition_token(offset: usize, line: &Vec<char>, ln: usize) -> (r: (usize, SpannedToken))
    requires
        offset < line@.len(),
        line@[offset as int] == ';',
    ensures
        ({
            let k = next_ident_start(line@, offset + 1);
            &&& offset < r.0 <= line@.len()
            &&& if k >= line@.len() {
                r.0 == offset + 1 && r.1@ == sp(TokenModel::Unknown(seq![';']), ln as nat, offset as int)
            } else {
                let e = ident_end(line@, k);
                r.0 == e && r.1@ == sp(TokenModel::Condition(line@.subrange(k, e)), ln as nat, k)
            }
        }),
{
    let n = line.len();
    match ident_after(offset, line) {
        None => (
            offset + 1,
            SpannedToken { token: Token::Unknown(char_string(';')), line: ln, col: offset },
        ),
        Some((k, e)) => {
            let text = string_from_range(line, k, e);
            (e, SpannedToken { token: Token::Condition(text), line: ln, col: k })
        },
    }
}

/// A transition action: `>` skips ahead to the next identifier run and
/// wraps it as `Action` text; with no identifier left on the line the
/// `>` itself becomes an `Unknown` token.
fn action_token(offset: usize, line: &Vec<char>, ln: usize) -> (r: (usize, SpannedToken))
    requires
        offset < line@.len(),
        line@[offset as int] == '>',
    ensures
        ({
            let k = next_ident_start(line@, offset + 1);
            &&& offset < r.0 <= line@.len()
            &&& if k >= line@.len() {
                r.0 == offset + 1 && r.1@ == sp(TokenModel::Unknown(seq!['>']), ln as nat, offset as int)
            } else {
                let e = ident_end(line@, k);
                r.0 == e && r.1@ == sp(TokenModel::Action(line@.subrange(k, e)), ln as nat, k)
            }
        }),
{
    let n = line.len();
    match ident_after(offset, line) {
        None => (
            offset + 1,
            SpannedToken { token: Token::Unknown(char_string('>')), line: ln, col: offset },
        ),
        Some((k, e)) => {
            let text = string_from_range(line, k, e);
            (e, SpannedToken { token: Token::Action(text), line: ln, col: k })
        },
    }
}

/// How `split_lines` grows when one character is appended.
proof fn lemma_split_lines_push(s: Seq<char>, c: char)
    ensures
        c == '\n' ==> split_lines(s.push(c)) == split_lines(s).push(Seq::<char>::empty()),
        c != '\n' ==> split_lines(s.push(c)) == split_lines(s).update(
            split_lines(s).len() - 1,
            split_lines(s).last().push(c),
        ),
        split_lines(s).len() >= 1,
    decreases s.len(),
{
    if s.len() == 0 {
        assert(s.push(c) =~= seq![c]);
        assert(seq![c].drop_first() =~= Seq::<char>::empty());
        reveal_with_fuel(split_lines, 3);
        if c == '\n' {
            assert(split_lines(s.push(c)) =~~= split_lines(s).push(Seq::<char>::empty()));
        } else {
            assert(split_lines(s.push(c)) =~~= split_lines(s).update(
                0,
                split_lines(s).last().push(c),
            ));
        }
    } else {
        lemma_split_lines_push(s.drop_first(), c);
        assert(s.push(c).drop_first() =~= s.drop_first().push(c));
        assert(s.push(c)[0] == s[0]);
        let rest = split_lines(s.drop_first());
        let restc = split_lines(s.drop_first().push(c));
        if c == '\n' {
            assert(restc == rest.push(Seq::<char>::empty()));
            assert(split_lines(s.push(c)) =~~= split_lines(s).push(Seq::<char>::empty()));
        } else {
            assert(restc == rest.update(rest.len() - 1, rest.last().push(c)));
            if s[0] == '\n' {
                assert(split_lines(s.push(c)) =~~= split_lines(s).update(
                    split_lines(s).len() - 1,
                    split_lines(s).last().push(c),
                ));
            } else {
                if rest.len() == 1 {
                    assert(restc[0] == rest[0].push(c));
                    assert(split_lines(s.push(c)) =~~= split_lines(s).update(
                        split_lines(s).len() - 1,
                        split_lines(s).last().push(c),
                    ));
                } else {
                    assert(restc[0] == rest[0]);
                    assert(split_lines(s.push(c)) =~~= split_lines(s).update(
                        split_lines(s).len() - 1,
                        split_lines(s).last().push(c),
                    ));
                }
            }
        }
    }
}

/// The models of a sequence of character vectors.
pub open spec fn line_models(s: Seq<Vec<char>>) -> Seq<Seq<char>> {
    s.map(|i: int, l: Vec<char>| l@)
}

/// Splits a document's characters into its lines.
fn split_lines_exec(v: &Vec<char>) -> (lines: Vec<Vec<char>>)
    ensures
        line_models(lines@) == split_lines(v@),
{
    let mut done: Vec<Vec<char>> = Vec::new();
    let mut cur: Vec<char> = Vec::new();
    let mut i: usize = 0;
    proof {
        assert(v@.subrange(0, 0) =~= Seq::<char>::empty());
        assert(split_lines(Seq::<char>::empty()) =~= seq![Seq::<char>::empty()]);
        assert(line_models(done@).push(cur@) =~= split_lines(v@.subrange(0, 0)));
    }
    while i < v.len()
        invariant
            i <= v@.len(),
            line_models(done@).push(cur@) == split_lines(v@.subrange(0, i as int)),
        decreases v@.len() - i,
    {
        let ghost pre = v@.subrange(0, i as int);
        proof {
            lemma_split_lines_push(pre, v@[i as int]);
            assert(pre.push(v@[i as int]) =~= v@.subrange(0, i + 1 as int));
        }
        let c = v[i];
        if c == '\n' {
            done.push(cur);
            cur = Vec::new();
            proof {
                assert(line_models(done@).push(cur@) =~= split_lines(v@.subrange(0, i + 1 as int)));
            }
        } else {
            cur.push(c);
            proof {
                assert(line_models(done@).push(cur@) =~= split_lines(v@.subrange(0, i + 1 as int)));
            }
        }
        i = i + 1;
    }
    done.push(cur);
    proof {
        assert(v@.subrange(0, v@.len() as int) =~= v@);
        assert(line_models(done@) =~= split_lines(v@));
    }
    done
}

/// The models of an executable indent stack.
pub open spec fn stack_model(s: Seq<usize>) -> Seq<int> {
    s.map_values(|x: usize| x as int)
}

/// Translates one non-blank line's leading spaces into structural tokens,
/// updating the indent stack: the executable form of [`indent_step`].
/// Returns the offset where the line's content starts and the emitted
/// `Indent`/`Dedent` tokens, or the `BadIndent` diagnostic.
fn indent_dedent_tokens(indent_stack: &mut Vec<usize>, line: &Vec<char>, ln: usize) -> (r: Result<
    (usize, Vec<SpannedToken>),
    ParseError,
>)
    ensures
        match r {
            Ok((off, toks)) => {
                &&& off == space_run_end(line@, 0)
                &&& indent_step(stack_model(old(indent_stack)@), space_run_end(line@, 0), ln as nat)
                    == Some((stack_model(final(indent_stack)@), span_models(toks@)))
            },
            Err(e) => {
                &&& indent_step(stack_model(old(indent_stack)@), space_run_end(line@, 0), ln as nat)
                    is None
                &&& e@ == (ErrModel::BadIndent { line: ln as nat })
            },
        },
{
    let n = line.len();
    let mut off: usize = 0;
    while off < n && line[off] == ' '
        invariant
            off <= n,
            n == line@.len(),
            space_run_end(line@, 0) == space_run_end(line@, off as int),
        decreases n - off,
    {
        off = off + 1;
    }
    let lvl = off;
    let mut toks: Vec<SpannedToken> = Vec::new();
    let top: usize = if indent_stack.len() == 0 {
        0
    } else {
        indent_stack[indent_stack.len() - 1]
    };
    if lvl > top {
        indent_stack.push(lvl);
        toks.push(SpannedToken { token: Token::Indent, line: ln, col: 0 });
        proof {
            assert(span_models(toks@) =~= seq![sp(TokenModel::Indent, ln as nat, 0)]);
            assert(stack_model(indent_stack@) =~= stack_model(old(indent_stack)@).push(
                lvl as int,
            ));
        }
        Ok((off, toks))
    } else if lvl == top {
        proof {
            assert(span_models(toks@) =~= Seq::<SpanModel>::empty());
        }
        Ok((off, toks))
    } else {
        let ghost orig = stack_model(indent_stack@);
        proof {
            assert(orig.len() == indent_stack@.len());
        }
        let mut count: usize = 0;
        while indent_stack.len() > 0 && indent_stack[indent_stack.len() - 1] > lvl
            invariant
                popped_stack(orig, lvl as int) == popped_stack(
                    stack_model(indent_stack@),
                    lvl as int,
                ),
                count + indent_stack@.len() == orig.len(),
                orig.len() <= usize::MAX,
                span_models(toks@) == dedent_run(count as int, ln as nat),
            decreases indent_stack@.len(),
        {
            let ghost before = stack_model(indent_stack@);
            let ghost tpre = span_models(toks@);
            let _popped = indent_stack.pop();
            let d = SpannedToken { token: Token::Dedent, line: ln, col: 0 };
            toks.push(d);
            count = count + 1;
            proof {
                assert(stack_model(indent_stack@) =~= before.drop_last());
                assert(span_models(toks@) =~= tpre.push(d@));
                assert(d@ == sp(TokenModel::Dedent, ln as nat, 0));
                assert(span_models(toks@) =~= dedent_run(count as int, ln as nat));
            }
        }
        proof {
            assert(popped_stack(stack_model(indent_stack@), lvl as int) == stack_model(
                indent_stack@,
            ));
        }
        let newtop: usize = if indent_stack.len() == 0 {
            0
        } else {
            indent_stack[indent_stack.len() - 1]
        };
        if newtop == lvl {
            Ok((off, toks))
        } else {
            Err(ParseError::BadIndent { line: ln })
        }
    }
}

/// Scans one line's content from `start` on, appending its tokens: the
/// executable form of [`scan_line`].
#[verifier::rlimit(30)]
fn scan_rest(line: &Vec<char>, start: usize, ln: usize, out: &mut Vec<SpannedToken>)
    requires
        start <= line@.len(),
    ensures
        span_models(final(out)@) == span_models(old(out)@) + scan_line(
            line@,
            start as int,
            ln as nat,
        ),
{
    let n = line.len();
    let mut offset: usize = start;
    while offset < n
        invariant
            start <= offset <= n,
            n == line@.len(),
            span_models(out@) + scan_line(line@, offset as int, ln as nat) == span_models(
                old(out)@,
            ) + scan_line(line@, start as int, ln as nat),
        decreases n - offset,
    {
        let ghost pre = span_models(out@);
        let c = line[offset];
        if c == '%' {
            let t = comment_token(offset, line, ln);
            out.push(t);
            proof {
                assert(span_models(out@) =~= pre.push(t@));
                assert(pre.push(t@) + scan_line(line@, n as int, ln as nat) =~= pre + scan_line(
                    line@,
                    offset as int,
                    ln as nat,
                ));
            }
            offset = n;
        } else if c == '&' {
            out.push(SpannedToken { token: Token::ParallelState, line: ln, col: offset });
            proof {
                assert(span_models(out@) =~= pre.push(
                    sp(TokenModel::ParallelState, ln as nat, offset as int),
                ));
                assert(span_models(out@) + scan_line(line@, offset + 1, ln as nat) =~= pre
                    + scan_line(line@, offset as int, ln as nat));
            }
            offset = offset + 1;
        } else if c == '$' {
            out.push(SpannedToken { token: Token::FinalState, line: ln, col: offset });
            proof {
                assert(span_models(out@) =~= pre.push(
                    sp(TokenModel::FinalState, ln as nat, offset as int),
                ));
                assert(span_models(out@) + scan_line(line@, offset + 1, ln as nat) =~= pre
                    + scan_line(line@, offset as int, ln as nat));
            }
            offset = offset + 1;
        } else if c == '*' {
            out.push(SpannedToken { token: Token::InitialState, line: ln, col: offset });
            proof {
                assert(span_models(out@) =~= pre.push(
                    sp(TokenModel::InitialState, ln as nat, offset as int),
                ));
                assert(span_models(out@) + scan_line(line@, offset + 1, ln as nat) =~= pre
                    + scan_line(line@, offset as int, ln as nat));
            }
            offset = offset + 1;
        } else if c == ';' {
            let (new_offset, t) = condition_token(offset, line, ln);
            out.push(t);
            proof {
                lemma_next_ident_start_bounds(line@, offset + 1);
                assert(span_models(out@) =~= pre.push(t@));
                assert(span_models(out@) + scan_line(line@, new_offset as int, ln as nat) =~= pre
                    + scan_line(line@, offset as int, ln as nat));
            }
            offset = new_offset;
        } else if c == '-' {
            if offset + 1 < n && line[offset + 1] == '>' {
                out.push(SpannedToken { token: Token::TransitionArrow, line: ln, col: offset });
                proof {
                    assert(span_models(out@) =~= pre.push(
                        sp(TokenModel::TransitionArrow, ln as nat, offset as int),
                    ));
                    assert(span_models(out@) + scan_line(line@, offset + 2, ln as nat) =~= pre
                        + scan_line(line@, offset as int, ln as nat));
                }
                offset = offset + 2;
            } else {
                let t = SpannedToken { token: Token::Unknown(char_string('-')), line: ln, col: offset };
                out.push(t);
                proof {
                    assert(span_models(out@) =~= pre.push(
                        sp(TokenModel::Unknown(seq!['-']), ln as nat, offset as int),
                    ));
                    assert(span_models(out@) + scan_line(line@, offset + 1, ln as nat) =~= pre
                        + scan_line(line@, offset as int, ln as nat));
                }
                offset = offset + 1;
            }
        } else if c == '>' {
            let (new_offset, t) = action_token(offset, line, ln);
            out.push(t);
            proof {
                lemma_next_ident_start_bounds(line@, offset + 1);
                assert(span_models(out@) =~= pre.push(t@));
                assert(span_models(out@) + scan_line(line@, new_offset as int, ln as nat) =~= pre
                    + scan_line(line@, offset as int, ln as nat));
            }
            offset = new_offset;
        } else if is_identifier_start(c) {
            let (new_offset, t) = identifier_token(offset, line, ln);
            out.push(t);
            proof {
                lemma_ident_end_bounds(line@, offset + 1);
                assert(ident_end(line@, offset as int) == ident_end(line@, offset + 1));
                assert(span_models(out@) =~= pre.push(t@));
                assert(span_models(out@) + scan_line(line@, new_offset as int, ln as nat) =~= pre
                    + scan_line(line@, offset as int, ln as nat));
            }
            offset = new_offset;
        } else if is_space(c) {
            offset = offset + 1;
        } else {
            let t = SpannedToken { token: Token::Unknown(char_string(c)), line: ln, col: offset };
            out.push(t);
            proof {
                assert(span_models(out@) =~= pre.push(
                    sp(TokenModel::Unknown(seq![c]), ln as nat, offset as int),
                ));
                assert(span_models(out@) + scan_line(line@, offset + 1, ln as nat) =~= pre
                    + scan_line(line@, offset as int, ln as nat));
            }
            offset = offset + 1;
        }
    }
    proof {
        assert(span_models(out@) =~= span_models(out@) + scan_line(
            line@,
            offset as int,
            ln as nat,
        ));
    }
}

/// The lexer with positions: returns exactly the token sequence that
/// [`spec_tokenize`] ascribes to the document, or its `BadIndent`
/// diagnostic.
pub fn tokenize_spanned(input: &str) -> (r: Result<Vec<SpannedToken>, ParseError>)
    ensures
        match r {
            Ok(v) => spec_tokenize(input@) == Ok::<Seq<SpanModel>, ErrModel>(span_models(v@)),
            Err(e) => spec_tokenize(input@) == Err::<Seq<SpanModel>, ErrModel>(e@),
        },
{
    let chars = chars_of(input);
    let lines = split_lines_exec(&chars);
    let ghost ls = line_models(lines@);
    let mut stack: Vec<usize> = Vec::new();
    let mut toks: Vec<SpannedToken> = Vec::new();
    let mut ln: usize = 0;
    proof {
        assert(stack_model(stack@) =~= Seq::<int>::empty());
        assert(span_models(toks@) =~= Seq::<SpanModel>::empty());
        if let Ok(rest) = lex_lines(ls, 0, Seq::empty()) {
            assert(span_models(toks@) + rest =~= rest);
        }
    }
    while ln < lines.len()
        invariant
            ln <= lines@.len(),
            ls == line_models(lines@),
            ls == split_lines(chars@),
            chars@ == input@,
            match lex_lines(ls, ln as int, stack_model(stack@)) {
                Ok(rest) => lex_lines(ls, 0, Seq::<int>::empty()) == Ok::<Seq<SpanModel>, ErrModel>(
                    span_models(toks@) + rest,
                ),
                Err(e) => lex_lines(ls, 0, Seq::<int>::empty()) == Err::<Seq<SpanModel>, ErrModel>(
                    e,
                ),
            },
        decreases lines@.len() - ln,
    {
        let line = &lines[ln];
        proof {
            assert(line@ == ls[ln as int]);
        }
        if is_blank(line) {
            ln = ln + 1;
        } else {
            let ghost stack0 = stack_model(stack@);
            let ghost toks0 = span_models(toks@);
            match indent_dedent_tokens(&mut stack, line, ln) {
                Err(e) => {
                    proof {
                        assert(lex_lines(ls, ln as int, stack0) == Err::<Seq<SpanModel>, ErrModel>(
                            ErrModel::BadIndent { line: ln as nat },
                        ));
                    }
                    return Err(e);
                },
                Ok((off, mut itoks)) => {
                    let ghost itoks_s = span_models(itoks@);
                    let ghost scan_s = scan_line(ls[ln as int], off as int, ln as nat);
                    toks.append(&mut itoks);
                    proof {
                        lemma_space_run_end_bounds(line@, 0);
                        assert(span_models(toks@) =~= toks0 + itoks_s);
                    }
                    scan_rest(line, off, ln, &mut toks);
                    proof {
                        assert(span_models(toks@) =~= toks0 + itoks_s + scan_s);
                        let st2 = stack_model(stack@);
                        match lex_lines(ls, ln + 1, st2) {
                            Ok(rest2) => {
                                assert(lex_lines(ls, ln as int, stack0)
                                    == Ok::<Seq<SpanModel>, ErrModel>(itoks_s + scan_s + rest2));
                                assert(toks0 + (itoks_s + scan_s + rest2) =~= (toks0 + itoks_s
                                    + scan_s) + rest2);
                            },
                            Err(e2) => {
                                assert(lex_lines(ls, ln as int, stack0)
                                    == Err::<Seq<SpanModel>, ErrModel>(e2));
                            },
                        }
                    }
                    ln = ln + 1;
                },
            }
        }
    }
    let ghost done_prefix = span_models(toks@);
    let ghost stack_f = stack_model(stack@);
    let stack_len = stack.len();
    proof {
        assert(lex_lines(ls, ln as int, stack_f) == Ok::<Seq<SpanModel>, ErrModel>(
            dedent_run(stack_f.len() as int, ls.len() as nat),
        ));
        assert(stack_f.len() == stack_len as int);
    }
    let n_lines = lines.len();
    let mut popped_n: usize = 0;
    while stack.len() > 0
        invariant
            popped_n + stack@.len() == stack_f.len(),
            stack_f.len() <= usize::MAX,
            n_lines == ls.len(),
            span_models(toks@) == done_prefix + dedent_run(popped_n as int, n_lines as nat),
        decreases stack@.len(),
    {
        let ghost tpre = span_models(toks@);
        let _popped = stack.pop();
        let d = SpannedToken { token: Token::Dedent, line: n_lines, col: 0 };
        toks.push(d);
        popped_n = popped_n + 1;
        proof {
            assert(span_models(toks@) =~= tpre.push(d@));
            assert(d@ == sp(TokenModel::Dedent, n_lines as nat, 0));
            assert(span_models(toks@) =~= done_prefix + dedent_run(
                popped_n as int,
                n_lines as nat,
            ));
        }
    }
    proof {
        assert(span_models(toks@) == done_prefix + dedent_run(
            stack_f.len() as int,
            ls.len() as nat,
        ));
    }
    Ok(toks)
}

impl Token {
    /// A copy of this token with the same text.
    pub fn duplicate(&self) -> (t: Token)
        ensures
            t@ == self@,
    {
        match self {
            Token::Identifier(s) => Token::Identifier(s.clone()),
            Token::Condition(s) => Token::Condition(s.clone()),
            Token::Indent => Token::Indent,
            Token::Dedent => Token::Dedent,
            Token::Unknown(s) => Token::Unknown(s.clone()),
            Token::Comment(s) => Token::Comment(s.clone()),
            Token::Action(s) => Token::Action(s.clone()),
            Token::ParallelState => Token::ParallelState,
            Token::FinalState => Token::FinalState,
            Token::InitialState => Token::InitialState,
            Token::TransitionArrow => Token::TransitionArrow,
        }
    }
}

impl SpannedToken {
    /// A copy of this token, position included.
    pub fn duplicate(&self) -> (t: SpannedToken)
        ensures
            t@ == self@,
    {
        SpannedToken { token: self.token.duplicate(), line: self.line, col: self.col }
    }
}

/// The models of a plain token sequence.
pub open spec fn token_models(s: Seq<Token>) -> Seq<TokenModel> {
    s.map(|i: int, t: Token| t@)
}

/// The lexer: the token sequence of the document, positions dropped, as
/// the spec-level lexer ascribes it; or the `BadIndent` diagnostic of its
/// first malformed dedent.
pub fn tokenize(input: &str) -> (r: Result<Vec<Token>, ParseError>)
    ensures
        match r {
            Ok(v) => spec_tokenize(input@) matches Ok(s) && token_models(v@) == plain_tokens(s),
            Err(e) => spec_tokenize(input@) == Err::<Seq<SpanModel>, ErrModel>(e@),
        },
{
    match tokenize_spanned(input) {
        Err(e) => Err(e),
        Ok(v) => {
            let mut out: Vec<Token> = Vec::new();
            let mut i: usize = 0;
            while i < v.len()
                invariant
                    i <= v@.len(),
                    token_models(out@) == plain_tokens(span_models(v@)).subrange(0, i as int),
                decreases v@.len() - i,
            {
                let ghost pre = token_models(out@);
                let t = v[i].token.duplicate();
                out.push(t);
                proof {
                    assert(token_models(out@) =~= pre.push(t@));
                    assert(token_models(out@) =~= plain_tokens(span_models(v@)).subrange(
                        0,
                        i + 1,
                    ));
                }
                i = i + 1;
            }
            proof {
                assert(token_models(out@) =~= plain_tokens(span_models(v@)));
            }
            Ok(out)
        },
    }
}

/// The number of `Indent` tokens in a token sequence.
pub open spec fn indent_count(s: Seq<SpanModel>) -> int
    decreases s.len(),
{
    if s.len() == 0 {
        0
    } else {
        (if s[0].tok is Indent {
            1int
        } else {
            0int
        }) + indent_count(s.drop_first())
    }
}

/// The number of `Dedent` tokens in a token sequence.
pub open spec fn dedent_count(s: Seq<SpanModel>) -> int
    decreases s.len(),
{
    if s.len() == 0 {
        0
    } else {
        (if s[0].tok is Dedent {
            1int
        } else {
            0int
        }) + dedent_count(s.drop_first())
    }
}

pub proof fn lemma_counts_concat(a: Seq<SpanModel>, b: Seq<SpanModel>)
    ensures
        indent_count(a + b) == indent_count(a) + indent_count(b),
        dedent_count(a + b) == dedent_count(a) + dedent_count(b),
    decreases a.len(),
{
    if a.len() == 0 {
        assert(a + b =~= b);
    } else {
        lemma_counts_concat(a.drop_first(), b);
        assert((a + b).drop_first() =~= a.drop_first() + b);
    }
}

proof fn lemma_counts_cons(x: SpanModel, r: Seq<SpanModel>)
    ensures
        indent_count(seq![x] + r) == (if x.tok is Indent {
            1int
        } else {
            0int
        }) + indent_count(r),
        dedent_count(seq![x] + r) == (if x.tok is Dedent {
            1int
        } else {
            0int
        }) + dedent_count(r),
{
    lemma_counts_concat(seq![x], r);
    assert(seq![x].drop_first() =~= Seq::<SpanModel>::empty());
    assert(indent_count(Seq::<SpanModel>::empty()) == 0);
    assert(dedent_count(Seq::<SpanModel>::empty()) == 0);
}

/// Line content contributes no structural tokens.
proof fn lemma_scan_line_counts(line: Seq<char>, i: int, ln: nat)
    ensures
        indent_count(scan_line(line, i, ln)) == 0,
        dedent_count(scan_line(line, i, ln)) == 0,
    decreases line.len() - i,
{
    assert(indent_count(Seq::<SpanModel>::empty()) == 0);
    assert(dedent_count(Seq::<SpanModel>::empty()) == 0);
    if 0 <= i < line.len() {
        let c = line[i];
        if c == '%' {
            assert(seq![
                sp(TokenModel::Comment(line.subrange(i, line.len() as int)), ln, i),
            ].drop_first() =~= Seq::<SpanModel>::empty());
        } else if c == '&' {
            lemma_scan_line_counts(line, i + 1, ln);
            lemma_counts_cons(sp(TokenModel::ParallelState, ln, i), scan_line(line, i + 1, ln));
        } else if c == '$' {
            lemma_scan_line_counts(line, i + 1, ln);
            lemma_counts_cons(sp(TokenModel::FinalState, ln, i), scan_line(line, i + 1, ln));
        } else if c == '*' {
            lemma_scan_line_counts(line, i + 1, ln);
            lemma_counts_cons(sp(TokenModel::InitialState, ln, i), scan_line(line, i + 1, ln));
        } else if c == ';' || c == '>' {
            lemma_next_ident_start_bounds(line, i + 1);
            let k = next_ident_start(line, i + 1);
            if k >= line.len() {
                lemma_scan_line_counts(line, i + 1, ln);
                lemma_counts_cons(sp(TokenModel::Unknown(seq![c]), ln, i), scan_line(line, i + 1, ln));
            } else {
                lemma_ident_end_bounds(line, k + 1);
                assert(ident_end(line, k) == ident_end(line, k + 1));
                let e = ident_end(line, k);
                lemma_scan_line_counts(line, e, ln);
                let t = if c == ';' {
                    TokenModel::Condition(line.subrange(k, e))
                } else {
                    TokenModel::Action(line.subrange(k, e))
                };
                lemma_counts_cons(sp(t, ln, k), scan_line(line, e, ln));
            }
        } else if c == '-' {
            if i + 1 < line.len() && line[i + 1] == '>' {
                lemma_scan_line_counts(line, i + 2, ln);
                lemma_counts_cons(sp(TokenModel::TransitionArrow, ln, i), scan_line(line, i + 2, ln));
            } else {
                lemma_scan_line_counts(line, i + 1, ln);
                lemma_counts_cons(sp(TokenModel::Unknown(seq![c]), ln, i), scan_line(line, i + 1, ln));
            }
        } else if is_ident_char(c) {
            lemma_ident_end_bounds(line, i + 1);
            assert(ident_end(line, i) == ident_end(line, i + 1));
            let e = ident_end(line, i);
            lemma_scan_line_counts(line, e, ln);
            lemma_counts_cons(sp(TokenModel::Identifier(line.subrange(i, e)), ln, i), scan_line(line, e, ln));
        } else if is_space_char(c) {
            lemma_scan_line_counts(line, i + 1, ln);
        } else {
            lemma_scan_line_counts(line, i + 1, ln);
            lemma_counts_cons(sp(TokenModel::Unknown(seq![c]), ln, i), scan_line(line, i + 1, ln));
        }
    }
}

proof fn lemma_dedent_run_counts(n: int, ln: nat)
    ensures
        indent_count(dedent_run(n, ln)) == 0,
        dedent_count(dedent_run(n, ln)) == (if n >= 0 {
            n
        } else {
            0
        }),
    decreases (if n >= 0 {
        n
    } else {
        0
    }),
{
    if n > 0 {
        lemma_dedent_run_counts(n - 1, ln);
        assert(dedent_run(n, ln).drop_first() =~= dedent_run(n - 1, ln));
    }
}

proof fn lemma_lex_lines_balanced(lines: Seq<Seq<char>>, ln: int, stack: Seq<int>)
    ensures
        lex_lines(lines, ln, stack) matches Ok(v) ==> dedent_count(v) == indent_count(v)
            + stack.len(),
    decreases lines.len() - ln,
{
    if ln < 0 || ln >= lines.len() {
        lemma_dedent_run_counts(stack.len() as int, lines.len() as nat);
    } else if is_blank_line(lines[ln]) {
        lemma_lex_lines_balanced(lines, ln + 1, stack);
    } else {
        let line = lines[ln];
        let lvl = space_run_end(line, 0);
        match indent_step(stack, lvl, ln as nat) {
            None => {},
            Some((st2, toks)) => {
                lemma_lex_lines_balanced(lines, ln + 1, st2);
                match lex_lines(lines, ln + 1, st2) {
                    Ok(rest) => {
                        let scan = scan_line(line, lvl, ln as nat);
                        lemma_scan_line_counts(line, lvl, ln as nat);
                        lemma_counts_concat(toks, scan);
                        lemma_counts_concat(toks + scan, rest);
                        if lvl > stack_top(stack) {
                            assert(toks =~= seq![sp(TokenModel::Indent, ln as nat, 0)]
                                + Seq::<SpanModel>::empty());
                            lemma_counts_cons(
                                sp(TokenModel::Indent, ln as nat, 0),
                                Seq::<SpanModel>::empty(),
                            );
                        } else if lvl == stack_top(stack) {
                            assert(toks =~= Seq::<SpanModel>::empty());
                        } else {
                            let p = popped_stack(stack, lvl);
                            lemma_popped_stack_len(stack, lvl);
                            lemma_dedent_run_counts(stack.len() - p.len(), ln as nat);
                        }
                    },
                    Err(_) => {},
                }
            },
        }
    }
}

proof fn lemma_popped_stack_len(stack: Seq<int>, level: int)
    ensures
        popped_stack(stack, level).len() <= stack.len(),
    decreases stack.len(),
{
    if !(stack.len() == 0 || stack.last() <= level) {
        lemma_popped_stack_len(stack.drop_last(), level);
    }
}

/// Balanced structure: whenever the lexer succeeds, it has emitted
/// exactly as many `Indent` tokens as `Dedent` tokens.
pub proof fn lemma_tokens_balanced(input: Seq<char>)
    ensures
        spec_tokenize(input) matches Ok(v) ==> indent_count(v) == dedent_count(v),
{
    lemma_lex_lines_balanced(split_lines(input), 0, Seq::empty());
}

} // verus!
