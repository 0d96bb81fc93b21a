use statechart::diag::ParseError;
use statechart::tokenizer::{tokenize, Token};

static INPUT: &str = "abc
% some comment
  def -> lmn
  pasta -> noodles %more comment
  ast&*
    opq -> rst; ifyes
    uvw -> #abc.lastState
    nestedstate1
    nestedstate2*
  tried -> that > andDoThis
  lastState
    % trying out transient state
    -> ast; ifyes
    -> lastState; ifno";

fn s(x: &str) -> String {
    x.to_string()
}

#[test]
fn it_works() {
    let tokens = tokenize(INPUT).unwrap();
    let expected_tokens = vec![
        Token::Identifier(s("abc")),
        Token::Comment(s("% some comment")),
        Token::Indent,
        Token::Identifier(s("def")),
        Token::TransitionArrow,
        Token::Identifier(s("lmn")),
        Token::Identifier(s("pasta")),
        Token::TransitionArrow,
        Token::Identifier(s("noodles")),
        Token::Comment(s("%more comment")),
        Token::Identifier(s("ast")),
        Token::ParallelState,
        Token::InitialState,
        Token::Indent,
        Token::Identifier(s("opq")),
        Token::TransitionArrow,
        Token::Identifier(s("rst")),
        Token::Condition(s("ifyes")),
        Token::Identifier(s("uvw")),
        Token::TransitionArrow,
        Token::Identifier(s("#abc.lastState")),
        Token::Identifier(s("nestedstate1")),
        Token::Identifier(s("nestedstate2")),
        Token::InitialState,
        Token::Dedent,
        Token::Identifier(s("tried")),
        Token::TransitionArrow,
        Token::Identifier(s("that")),
        Token::Action(s("andDoThis")),
        Token::Identifier(s("lastState")),
        Token::Indent,
        Token::Comment(s("% trying out transient state")),
        Token::TransitionArrow,
        Token::Identifier(s("ast")),
        Token::Condition(s("ifyes")),
        Token::TransitionArrow,
        Token::Identifier(s("lastState")),
        Token::Condition(s("ifno")),
        Token::Dedent,
        Token::Dedent,
    ];

    assert_eq!(tokens.len(), 40);
    assert_eq!(expected_tokens, tokens);

    let mut i = 0;
    while i < expected_tokens.len() {
        assert_eq!(expected_tokens[i], tokens[i]);
        i += 1;
    }
}

#[test]
fn balanced_structure_on_nested_input() {
    // Balanced structure: the lexer emits as many indents as dedents.
    let tokens = tokenize(INPUT).unwrap();
    let indents = tokens.iter().filter(|t| matches!(t, Token::Indent)).count();
    let dedents = tokens.iter().filter(|t| matches!(t, Token::Dedent)).count();
    assert_eq!(indents, 3);
    assert_eq!(dedents, 3);
}

#[test]
fn balanced_structure_on_deep_input() {
    let tokens = tokenize("a\n b\n  c\n   d\ne").unwrap();
    let indents = tokens.iter().filter(|t| matches!(t, Token::Indent)).count();
    let dedents = tokens.iter().filter(|t| matches!(t, Token::Dedent)).count();
    assert_eq!(indents, dedents);
    assert_eq!(indents, 3);
}

#[test]
fn bad_dedent_is_reported_with_its_line() {
    // Width 1 matches no entry still on the stack [2].
    assert_eq!(tokenize("a\n  b\n c"), Err(ParseError::BadIndent { line: 2 }));
}

#[test]
fn lone_dash_is_unknown() {
    let tokens = tokenize("a - b").unwrap();
    assert_eq!(
        tokens,
        vec![
            Token::Identifier(s("a")),
            Token::Unknown(s("-")),
            Token::Identifier(s("b")),
        ]
    );
}

#[test]
fn semicolon_without_identifier_is_unknown() {
    let tokens = tokenize("a ;").unwrap();
    assert_eq!(tokens, vec![Token::Identifier(s("a")), Token::Unknown(s(";"))]);
}

#[test]
fn blank_lines_do_not_close_scopes() {
    let tokens = tokenize("a\n  b\n\n  c").unwrap();
    assert_eq!(
        tokens,
        vec![
            Token::Identifier(s("a")),
            Token::Indent,
            Token::Identifier(s("b")),
            Token::Identifier(s("c")),
            Token::Dedent,
        ]
    );
}

#[test]
fn qualified_path_is_one_identifier() {
    let tokens = tokenize("x -> #a.b.c").unwrap();
    assert_eq!(
        tokens,
        vec![
            Token::Identifier(s("x")),
            Token::TransitionArrow,
            Token::Identifier(s("#a.b.c")),
        ]
    );
}

#[test]
fn condition_skips_to_next_identifier_run() {
    let tokens = tokenize("a -> b ;   cond").unwrap();
    assert_eq!(
        tokens,
        vec![
            Token::Identifier(s("a")),
            Token::TransitionArrow,
            Token::Identifier(s("b")),
            Token::Condition(s("cond")),
        ]
    );
}

#[test]
fn action_token_takes_the_following_identifier() {
    let tokens = tokenize("x -> y > doIt").unwrap();
    assert_eq!(
        tokens,
        vec![
            Token::Identifier(s("x")),
            Token::TransitionArrow,
            Token::Identifier(s("y")),
            Token::Action(s("doIt")),
        ]
    );
}
