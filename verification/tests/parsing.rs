use brain_f_rs::compiler::lexer::{lex, Token};
use brain_f_rs::compiler::parser::{parse, CodeElement, ParseError, Parser, Status};

fn failure_of(source: &str) -> Option<ParseError> {
    let mut parser = Parser::new();
    parser.parse(lex(source));
    parser.failure()
}

fn depth(elements: &[CodeElement]) -> usize {
    elements
        .iter()
        .map(|element| match element {
            CodeElement::Loop(body) => 1 + depth(body),
            _ => 0,
        })
        .max()
        .unwrap_or(0)
}

#[test]
fn parse_increments_and_output() {
    assert_eq!(
        parse(lex("++.")),
        Some(vec![CodeElement::Inc, CodeElement::Inc, CodeElement::Print])
    );
}

#[test]
fn parse_every_leaf() {
    assert_eq!(
        parse(lex("><+-.,")),
        Some(vec![
            CodeElement::IncPtr,
            CodeElement::DecPtr,
            CodeElement::Inc,
            CodeElement::Dec,
            CodeElement::Print,
            CodeElement::Read,
        ])
    );
}

#[test]
fn parse_empty_input() {
    assert_eq!(parse(lex("")), Some(vec![]));
    assert_eq!(parse(Vec::new()), Some(vec![]));
}

#[test]
fn parse_noise_only_input() {
    assert_eq!(parse(lex("no symbols here\n")), Some(vec![]));
}

#[test]
fn parse_simple_loop() {
    assert_eq!(
        parse(lex("[-]")),
        Some(vec![CodeElement::Loop(vec![CodeElement::Dec])])
    );
}

#[test]
fn parse_empty_loop() {
    assert_eq!(parse(lex("[]")), Some(vec![CodeElement::Loop(vec![])]));
}

#[test]
fn parse_nested_loops() {
    assert_eq!(
        parse(lex("+[>[-]<.]-")),
        Some(vec![
            CodeElement::Inc,
            CodeElement::Loop(vec![
                CodeElement::IncPtr,
                CodeElement::Loop(vec![CodeElement::Dec]),
                CodeElement::DecPtr,
                CodeElement::Print,
            ]),
            CodeElement::Dec,
        ])
    );
}

#[test]
fn parse_loops_side_by_side() {
    assert_eq!(
        parse(lex("[][+]")),
        Some(vec![
            CodeElement::Loop(vec![]),
            CodeElement::Loop(vec![CodeElement::Inc]),
        ])
    );
}

#[test]
fn parse_lone_open_fails() {
    assert_eq!(parse(lex("[")), None);
}

#[test]
fn parse_lone_close_fails() {
    assert_eq!(parse(lex("]")), None);
}

#[test]
fn parse_unmatched_open_fails() {
    assert_eq!(parse(lex("[[-]")), None);
    assert_eq!(parse(lex("+[")), None);
    assert_eq!(parse(lex("[+[-]+")), None);
}

#[test]
fn parse_unmatched_close_fails() {
    assert_eq!(parse(lex("+]")), None);
    assert_eq!(parse(lex("]+")), None);
    assert_eq!(parse(lex("[-]]")), None);
    assert_eq!(parse(lex("[]][")), None);
}

#[test]
fn parse_close_before_open_fails() {
    assert_eq!(parse(lex("][")), None);
}

#[test]
fn parse_takes_symbols_that_no_text_was_lexed_from() {
    assert_eq!(
        parse(vec![Token::LoopStart, Token::Read, Token::LoopEnd]),
        Some(vec![CodeElement::Loop(vec![CodeElement::Read])])
    );
}

#[test]
fn parsed_depth_is_the_bracket_depth() {
    assert_eq!(depth(&parse(lex("+-.")).unwrap()), 0);
    assert_eq!(depth(&parse(lex("[]")).unwrap()), 1);
    assert_eq!(depth(&parse(lex("[[[]]][]")).unwrap()), 3);
    assert_eq!(depth(&parse(lex("[][[]][[[[+]]]]>[-]")).unwrap()), 4);
}

#[test]
fn parser_starts_not_started() {
    let parser = Parser::new();
    assert_eq!(*parser.status(), Status::NotStarted);
    assert_eq!(parser.failure(), None);
}

#[test]
fn parser_ends_done_on_balanced_input() {
    let mut parser = Parser::new();
    parser.parse(lex("+[-]"));
    assert_eq!(*parser.status(), Status::Done);
    assert_eq!(parser.failure(), None);
    assert_eq!(
        parser.code_elements(),
        vec![CodeElement::Inc, CodeElement::Loop(vec![CodeElement::Dec])]
    );
}

#[test]
fn parser_ends_failed_on_unbalanced_input() {
    let mut parser = Parser::new();
    parser.parse(lex("[-"));
    assert_eq!(*parser.status(), Status::Failed);
    let mut parser = Parser::new();
    parser.parse(lex("-]"));
    assert_eq!(*parser.status(), Status::Failed);
}

#[test]
fn failure_names_the_unmatched_open() {
    assert_eq!(failure_of("["), Some(ParseError::UnmatchedLoopStart));
    assert_eq!(failure_of("[[]"), Some(ParseError::UnmatchedLoopStart));
    assert_eq!(failure_of("[][+"), Some(ParseError::UnmatchedLoopStart));
}

#[test]
fn failure_names_the_unmatched_close() {
    assert_eq!(failure_of("]"), Some(ParseError::UnmatchedLoopEnd));
    assert_eq!(failure_of("[]]"), Some(ParseError::UnmatchedLoopEnd));
    assert_eq!(failure_of("+]+"), Some(ParseError::UnmatchedLoopEnd));
}

#[test]
fn failure_names_the_close_where_both_are_wrong() {
    assert_eq!(failure_of("]["), Some(ParseError::UnmatchedLoopEnd));
    assert_eq!(failure_of("[]]["), Some(ParseError::UnmatchedLoopEnd));
    assert_eq!(failure_of("[[]]]["), Some(ParseError::UnmatchedLoopEnd));
}

#[test]
fn failure_is_none_on_balanced_input() {
    assert_eq!(failure_of(""), None);
    assert_eq!(failure_of("[[][]]"), None);
}

#[test]
fn parse_deep_nesting() {
    let source = format!("{}{}", "[".repeat(500), "]".repeat(500));
    assert_eq!(depth(&parse(lex(&source)).unwrap()), 500);
    let short = format!("{}{}", "[".repeat(500), "]".repeat(499));
    assert_eq!(failure_of(&short), Some(ParseError::UnmatchedLoopStart));
    let long = format!("{}{}", "[".repeat(500), "]".repeat(501));
    assert_eq!(failure_of(&long), Some(ParseError::UnmatchedLoopEnd));
}
