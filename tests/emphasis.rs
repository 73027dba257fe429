use emphasis::ast::ASTNode;
use emphasis::parser::parse;
use emphasis::token::{Marker, Token};
use emphasis::tokenizer::{tokenize, TokenizedString};

fn text(s: &str) -> ASTNode {
    ASTNode::Text(String::from(s))
}

fn parse_str(s: &str) -> ASTNode {
    let mut tokens = TokenizedString::new(String::from(s));
    parse(&mut tokens)
}

fn has_emphasis(n: &ASTNode) -> bool {
    match n {
        ASTNode::Bold(_) | ASTNode::Italics(_) => true,
        ASTNode::Document(v) => v.iter().any(has_emphasis),
        ASTNode::Text(_) => false,
    }
}

fn flatten(n: &ASTNode, out: &mut String) {
    match n {
        ASTNode::Text(s) => out.push_str(s),
        ASTNode::Document(v) | ASTNode::Bold(v) | ASTNode::Italics(v) => {
            for c in v {
                flatten(c, out);
            }
        }
    }
}

#[test]
fn basic_ast() {
    let source = String::from("Hello **World**");
    let mut tokens = TokenizedString::new(source);
    let ast = parse(&mut tokens);

    let expected_ast = ASTNode::Document(vec![
        ASTNode::Text(String::from("Hello ")),
        ASTNode::Bold(vec![ASTNode::Text(String::from("World"))]),
    ]);

    assert_eq!(ast, expected_ast);
}

#[test]
fn plain_text_round_trip() {
    assert_eq!(parse_str("just some words"), ASTNode::Document(vec![text("just some words")]));
}

#[test]
fn escaped_markers_stay_text() {
    let toks = tokenize(String::from("a \\*b\\_ \\\\c"));
    assert_eq!(toks, vec![Token::Text(String::from("a *b_ \\c")), Token::EndOfInput]);
}

#[test]
fn trailing_backslash_is_dropped() {
    let toks = tokenize(String::from("ab\\"));
    assert_eq!(toks, vec![Token::Text(String::from("ab")), Token::EndOfInput]);
}

#[test]
fn balanced_bold() {
    assert_eq!(
        parse_str("a **b** c"),
        ASTNode::Document(vec![text("a "), ASTNode::Bold(vec![text("b")]), text(" c")])
    );
}

#[test]
fn balanced_italics() {
    assert_eq!(
        parse_str("a _b_ c"),
        ASTNode::Document(vec![text("a "), ASTNode::Italics(vec![text("b")]), text(" c")])
    );
}

#[test]
fn triple_marker_nesting() {
    assert_eq!(
        parse_str("***x***"),
        ASTNode::Document(vec![ASTNode::Italics(vec![ASTNode::Bold(vec![text("x")])])])
    );
}

#[test]
fn triple_underscore_nesting() {
    assert_eq!(
        parse_str("___x___"),
        ASTNode::Document(vec![ASTNode::Italics(vec![ASTNode::Bold(vec![text("x")])])])
    );
}

#[test]
fn unmatched_marker_degrades_to_text() {
    let ast = parse_str("a *b");
    assert!(!has_emphasis(&ast));
    assert_eq!(ast, ASTNode::Document(vec![text("a "), text("*"), text("b")]));
    let mut flat = String::new();
    flatten(&ast, &mut flat);
    assert_eq!(flat, "a *b");
}

#[test]
fn unmatched_double_marker_is_literal() {
    assert_eq!(parse_str("x **"), ASTNode::Document(vec![text("x "), text("**")]));
}

#[test]
fn nested_same_kind_bold() {
    assert_eq!(
        parse_str("**a **b** c**"),
        ASTNode::Document(vec![ASTNode::Bold(vec![
            text("a "),
            ASTNode::Bold(vec![text("b")]),
            text(" c"),
        ])])
    );
}

#[test]
fn empty_input() {
    assert_eq!(tokenize(String::new()), vec![Token::EndOfInput]);
    let mut ts = TokenizedString { tokens: vec![Token::EndOfInput] };
    assert_eq!(parse(&mut ts), ASTNode::Document(vec![]));
    assert!(ts.tokens.is_empty());
}

#[test]
fn runs_are_collapsed() {
    let toks = tokenize(String::from("a***b_c"));
    assert_eq!(
        toks,
        vec![
            Token::Text(String::from("a")),
            Token::DelimiterRun(Marker::Star, 3),
            Token::Text(String::from("b")),
            Token::DelimiterRun(Marker::Underscore, 1),
            Token::Text(String::from("c")),
            Token::EndOfInput,
        ]
    );
}

#[test]
fn adjacent_runs_make_empty_bold() {
    let mut ts = TokenizedString {
        tokens: vec![
            Token::DelimiterRun(Marker::Star, 2),
            Token::DelimiterRun(Marker::Star, 2),
            Token::EndOfInput,
        ],
    };
    assert_eq!(parse(&mut ts), ASTNode::Document(vec![ASTNode::Bold(vec![])]));
}

#[test]
fn different_markers_do_not_match() {
    let ast = parse_str("*a_");
    assert!(!has_emphasis(&ast));
    assert_eq!(ast, ASTNode::Document(vec![text("*"), text("a"), text("_")]));
}

#[test]
fn crossing_opener_becomes_text() {
    assert_eq!(
        parse_str("*a _b*"),
        ASTNode::Document(vec![ASTNode::Italics(vec![text("a "), text("_"), text("b")])])
    );
}

#[test]
fn longer_closer_leaves_literal() {
    assert_eq!(
        parse_str("*a**"),
        ASTNode::Document(vec![ASTNode::Italics(vec![text("a")]), text("*")])
    );
}

#[test]
fn peek_and_pop() {
    let mut ts = TokenizedString::new(String::from("x*"));
    assert_eq!(ts.peek(1), Token::DelimiterRun(Marker::Star, 1));
    assert_eq!(ts.pop(), Token::Text(String::from("x")));
    assert_eq!(ts.tokens.len(), 2);
    assert_eq!(ts.peek(0), Token::DelimiterRun(Marker::Star, 1));
}

#[test]
fn many_unmatched_markers_keep_all_text() {
    let mut source = String::new();
    for i in 0..2000 {
        source.push_str(if i % 2 == 0 { "a *" } else { "b _" });
    }
    source.push_str("z");
    let ast = parse_str(&source);
    assert!(!has_emphasis(&ast));
    let mut flat = String::new();
    flatten(&ast, &mut flat);
    assert_eq!(flat, source);
}

#[test]
fn deep_nesting_of_alternating_markers() {
    let ast = parse_str("*a _b *c* d_ e*");
    assert_eq!(
        ast,
        ASTNode::Document(vec![ASTNode::Italics(vec![
            text("a "),
            ASTNode::Italics(vec![text("b "), ASTNode::Italics(vec![text("c")]), text(" d")]),
            text(" e"),
        ])])
    );
}

#[test]
fn triple_marker_around_text_ending_in_space() {
    assert_eq!(
        parse_str("***x ***"),
        ASTNode::Document(vec![ASTNode::Italics(vec![ASTNode::Bold(vec![text("x ")])])])
    );
    assert_eq!(
        parse_str("___x ___"),
        ASTNode::Document(vec![ASTNode::Italics(vec![ASTNode::Bold(vec![text("x ")])])])
    );
}

#[test]
fn closer_after_space_at_end_closes() {
    assert_eq!(
        parse_str("*a *"),
        ASTNode::Document(vec![ASTNode::Italics(vec![text("a ")])])
    );
}

#[test]
fn closer_after_space_before_space_closes() {
    assert_eq!(
        parse_str("*a * b"),
        ASTNode::Document(vec![ASTNode::Italics(vec![text("a ")]), text(" b")])
    );
}
