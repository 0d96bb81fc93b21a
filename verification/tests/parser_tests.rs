use statechart::ast::{StateNode, StateType, TransitionNode};
use statechart::diag::ParseError;
use statechart::parser::Parser;
use statechart::resolver::resolve;

fn s(x: &str) -> String {
    x.to_string()
}

fn path(segs: &[&str]) -> Option<Vec<String>> {
    Some(segs.iter().map(|x| x.to_string()).collect())
}

fn leaf(id: &str) -> StateNode {
    StateNode {
        id: s(id),
        typ: StateType::AtomicState,
        initial: None,
        is_initial: false,
        on: vec![],
        states: vec![],
    }
}

static INPUT: &str = "abc
    % some comment
      def -> lmn
      pasta -> noodles %more comment
      ast&*
        opq -> rst; ifyes
        uvw -> #abc.lastState
        nestedstate1
        nestedstate2*
      tried -> that > andDoThis
      lastState
        % trying out transient state
        -> ast; ifyes
        -> lastState; ifno";

#[test]
fn test_parser() {
    // The comment line sits at a shallower indentation (4 spaces) than
    // the declarations after it (6 spaces), so it opens a scope of its
    // own and the parser rejects the second indent that follows.
    let mut parser = Parser::new();
    let ast = parser.parse(INPUT);
    assert_eq!(ast, Err(ParseError::UnexpectedToken { line: 2, col: 0 }));
}

static FLUSH_INPUT: &str = "abc
% some comment
  def -> lmn
  pasta -> noodles %more comment
  ast&*
    opq -> rst; ifyes
    uvw -> #abc.lastState
    nestedstate1
    nestedstate2*
  tried -> that > andDoThis
  lastState
    % trying out transient state
    -> ast; ifyes
    -> lastState; ifno";

#[test]
fn test_parse() {
    let mut parser = Parser::new();
    let ast = parser.parse(FLUSH_INPUT).unwrap();

    assert_eq!(ast.id, s("abc"));
    assert_eq!(ast.typ, StateType::CompoundState);
    // `ast` carries the initial marker among abc's children.
    assert_eq!(ast.initial, Some(s("ast")));
    // Declared children plus the auto-created stubs lmn, noodles, that.
    let ids: Vec<&str> = ast.states.iter().map(|c| c.id.as_str()).collect();
    assert_eq!(
        ids,
        vec!["def", "pasta", "ast", "tried", "lastState", "lmn", "noodles", "that"]
    );

    let parallel = &ast.states[2];
    assert_eq!(parallel.typ, StateType::ParallelState);
    assert!(parallel.is_initial);
    assert_eq!(parallel.initial, Some(s("nestedstate2")));

    let uvw = &parallel.states[1];
    assert_eq!(uvw.id, s("uvw"));
    assert_eq!(uvw.on[0].resolved, path(&["abc", "lastState"]));

    let last = &ast.states[4];
    assert_eq!(last.id, s("lastState"));
    assert_eq!(last.on.len(), 2);
    assert_eq!(last.on[0].source, s("lastState"));
    assert_eq!(last.on[0].resolved, path(&["abc", "ast"]));
    assert_eq!(last.on[1].resolved, path(&["abc", "lastState"]));

    let tried = &ast.states[3];
    assert_eq!(tried.on[0].cond, None);
    assert_eq!(tried.on[0].action, Some(s("andDoThis")));
}

#[test]
fn single_identifier_is_root_atomic_state() {
    let mut parser = Parser::new();
    let ast = parser.parse("abc").unwrap();
    assert_eq!(ast, leaf("abc"));
}

#[test]
fn forward_reference_creates_stub_sibling() {
    let mut parser = Parser::new();
    let ast = parser.parse("abc\n  def -> lmn").unwrap();
    let expected = StateNode {
        id: s("abc"),
        typ: StateType::CompoundState,
        initial: Some(s("def")),
        is_initial: false,
        on: vec![],
        states: vec![
            StateNode {
                id: s("def"),
                typ: StateType::AtomicState,
                initial: None,
                is_initial: false,
                on: vec![TransitionNode {
                    source: s("def"),
                    target: s("lmn"),
                    resolved: path(&["abc", "lmn"]),
                    cond: None,
                    action: None,
                }],
                states: vec![],
            },
            leaf("lmn"),
        ],
    };
    assert_eq!(ast, expected);
}

#[test]
fn parallel_initial_marker_and_guard() {
    let mut parser = Parser::new();
    let ast = parser.parse("abc\n  ast&*\n    opq -> rst; ifyes").unwrap();
    assert_eq!(ast.initial, Some(s("ast")));
    let par = &ast.states[0];
    assert_eq!(par.id, s("ast"));
    assert_eq!(par.typ, StateType::ParallelState);
    assert!(par.is_initial);
    let opq = &par.states[0];
    assert_eq!(opq.id, s("opq"));
    assert_eq!(
        opq.on[0],
        TransitionNode {
            source: s("opq"),
            target: s("rst"),
            resolved: path(&["abc", "ast", "rst"]),
            cond: Some(s("ifyes")),
            action: None,
        }
    );
    // The stub for rst is created beside opq, inside ast.
    assert_eq!(par.states[1], leaf("rst"));
}

#[test]
fn unmatched_dedent_width_fails_with_bad_indent() {
    // Indentation jumps from 2 to 6, then returns to 4, which matches
    // no width still on the stack: the parse fails at that line.
    let mut parser = Parser::new();
    let r = parser.parse("abc\n  def -> lmn\n      pqr\n    stm");
    assert_eq!(r, Err(ParseError::BadIndent { line: 3 }));
}

#[test]
fn bare_transitions_use_enclosing_state_as_source() {
    let mut parser = Parser::new();
    let ast = parser
        .parse("abc\n  lastState\n    -> ast; ifyes\n    -> lastState; ifno")
        .unwrap();
    let last = &ast.states[0];
    assert_eq!(last.id, s("lastState"));
    assert_eq!(last.on.len(), 2);
    assert_eq!(
        last.on[0],
        TransitionNode {
            source: s("lastState"),
            target: s("ast"),
            resolved: path(&["abc", "ast"]),
            cond: Some(s("ifyes")),
            action: None,
        }
    );
    assert_eq!(
        last.on[1],
        TransitionNode {
            source: s("lastState"),
            target: s("lastState"),
            resolved: path(&["abc", "lastState"]),
            cond: Some(s("ifno")),
            action: None,
        }
    );
    // The unfound target ast was auto-created as lastState's sibling.
    assert_eq!(ast.states[1], leaf("ast"));
}

#[test]
fn resolving_again_is_a_no_op() {
    // Idempotent resolution on a tree with stubs, a self-reference and
    // a qualified path.
    let mut parser = Parser::new();
    let ast = parser
        .parse("abc\n  lastState\n    -> ast; ifyes\n    -> #abc.lastState; ifno\n  x -> y")
        .unwrap();
    assert_eq!(resolve(&ast), Ok(ast));
}

#[test]
fn qualified_path_bypasses_scope_search() {
    // A bare `b` from inside `a` would find the nearer sibling b; the
    // qualified path goes from the root regardless of position.
    let mut parser = Parser::new();
    let ast = parser
        .parse("abc\n  b\n  a\n    b\n    x -> #abc.b\n    y -> b")
        .unwrap();
    let a = &ast.states[1];
    let x = &a.states[1];
    assert_eq!(x.id, s("x"));
    assert_eq!(x.on[0].resolved, path(&["abc", "b"]));
    let y = &a.states[2];
    assert_eq!(y.on[0].resolved, path(&["abc", "a", "b"]));
}

#[test]
fn qualified_path_with_missing_segment_fails() {
    let mut parser = Parser::new();
    let r = parser.parse("abc\n  x -> #abc.zzz");
    assert_eq!(r, Err(ParseError::UnresolvedReference { name: s("zzz") }));
}

#[test]
fn qualified_path_with_wrong_root_fails() {
    let mut parser = Parser::new();
    let r = parser.parse("abc\n  x -> #zzz.b");
    assert_eq!(r, Err(ParseError::UnresolvedReference { name: s("zzz") }));
}

#[test]
fn missing_target_after_arrow_fails() {
    let mut parser = Parser::new();
    let r = parser.parse("abc\n  ->");
    assert_eq!(r, Err(ParseError::ExpectedIdentifier { line: 2, col: 0 }));
}

#[test]
fn duplicate_sibling_declaration_fails() {
    let mut parser = Parser::new();
    let r = parser.parse("abc\n  d\n  d");
    assert_eq!(r, Err(ParseError::DuplicateState { line: 2, col: 2, id: s("d") }));
}

#[test]
fn second_initial_marker_fails() {
    let mut parser = Parser::new();
    let r = parser.parse("abc\n  a*\n  b*");
    assert_eq!(r, Err(ParseError::MultipleInitial { line: 2, col: 2, id: s("b") }));
}

#[test]
fn parallel_and_final_markers_conflict() {
    let mut parser = Parser::new();
    let r = parser.parse("abc\n  a&$");
    assert_eq!(r, Err(ParseError::UnexpectedToken { line: 1, col: 4 }));
}

#[test]
fn final_state_cannot_own_a_block() {
    let mut parser = Parser::new();
    let r = parser.parse("abc\n  a$\n    b");
    assert_eq!(r, Err(ParseError::UnexpectedToken { line: 2, col: 0 }));
}

#[test]
fn final_state_cannot_be_a_transition_source() {
    let mut parser = Parser::new();
    let r = parser.parse("abc\n  a$\n  a -> b");
    assert_eq!(r, Err(ParseError::UnexpectedToken { line: 2, col: 4 }));
}

#[test]
fn unknown_character_blocks_the_grammar() {
    let mut parser = Parser::new();
    let r = parser.parse("abc\n  (");
    assert_eq!(
        r,
        Err(ParseError::UnknownCharacter { line: 1, col: 2, text: s("(") })
    );
}

#[test]
fn condition_and_action_accepted_in_either_order() {
    let mut p1 = Parser::new();
    let a1 = p1.parse("abc\n  a -> b; c > act").unwrap();
    let mut p2 = Parser::new();
    let a2 = p2.parse("abc\n  a -> b > act ; c").unwrap();
    assert_eq!(a1, a2);
    let a = &a1.states[0];
    assert_eq!(a.on[0].cond, Some(s("c")));
    assert_eq!(a.on[0].action, Some(s("act")));
}

#[test]
fn first_declared_child_is_default_initial() {
    let mut parser = Parser::new();
    let ast = parser.parse("abc\n  a\n  b").unwrap();
    assert_eq!(ast.initial, Some(s("a")));
}

#[test]
fn marked_child_overrides_declaration_order() {
    let mut parser = Parser::new();
    let ast = parser.parse("abc\n  a\n  b*").unwrap();
    assert_eq!(ast.initial, Some(s("b")));
    assert!(ast.states[1].is_initial);
}

#[test]
fn final_marker_yields_final_leaf() {
    let mut parser = Parser::new();
    let ast = parser.parse("abc\n  a\n  done$").unwrap();
    assert_eq!(ast.states[1].typ, StateType::FinalState);
    assert_eq!(ast.states[1].states.len(), 0);
    assert_eq!(ast.states[1].on.len(), 0);
}

#[test]
fn root_may_target_itself_bare() {
    let mut parser = Parser::new();
    let ast = parser.parse("abc\n  -> abc").unwrap();
    assert_eq!(ast.on[0].source, s("abc"));
    assert_eq!(ast.on[0].resolved, path(&["abc"]));
}

#[test]
fn root_level_unknown_bare_target_fails() {
    // The root has no sibling scope to extend with a stub.
    let mut parser = Parser::new();
    let r = parser.parse("abc\n  -> nowhere");
    assert_eq!(r, Err(ParseError::UnresolvedReference { name: s("nowhere") }));
}

#[test]
fn trailing_tokens_after_root_fail() {
    let mut parser = Parser::new();
    let r = parser.parse("abc def");
    assert_eq!(r, Err(ParseError::UnexpectedToken { line: 0, col: 4 }));
}

#[test]
fn empty_document_fails() {
    let mut parser = Parser::new();
    let r = parser.parse("");
    assert_eq!(r, Err(ParseError::ExpectedIdentifier { line: 0, col: 0 }));
}

#[test]
fn transition_source_reuses_declared_sibling() {
    let mut parser = Parser::new();
    let ast = parser.parse("abc\n  a&\n  a -> b\n  b").unwrap();
    let a = &ast.states[0];
    assert_eq!(a.typ, StateType::ParallelState);
    assert_eq!(a.on.len(), 1);
    assert_eq!(a.on[0].resolved, path(&["abc", "b"]));
    assert_eq!(ast.states.len(), 2);
}

#[test]
fn comment_line_at_body_level_is_harmless() {
    let mut parser = Parser::new();
    let ast = parser.parse("abc\n  % a note\n  def").unwrap();
    assert_eq!(ast.states.len(), 1);
    assert_eq!(ast.states[0], leaf("def"));
}

#[test]
fn carriage_returns_are_ignored() {
    let mut parser = Parser::new();
    let ast = parser.parse("abc\r\n  def -> lmn\r\n").unwrap();
    assert_eq!(ast.id, s("abc"));
    assert_eq!(ast.states[0].id, s("def"));
    assert_eq!(ast.states[0].on[0].resolved, path(&["abc", "lmn"]));
}

#[test]
fn nested_qualified_target_resolves_deep() {
    let mut parser = Parser::new();
    let ast = parser.parse("abc\n  a\n    b\n  x -> #abc.a.b").unwrap();
    let x = &ast.states[1];
    assert_eq!(x.on[0].resolved, path(&["abc", "a", "b"]));
}
