use brain_f_rs::compiler::lexer::{lex, Token};

#[test]
fn lex_maps_each_symbol() {
    assert_eq!(
        lex("+-><.,[]"),
        vec![
            Token::Inc,
            Token::Dec,
            Token::IncPtr,
            Token::DecPtr,
            Token::Print,
            Token::Read,
            Token::LoopStart,
            Token::LoopEnd,
        ]
    );
}

#[test]
fn lex_keeps_order_and_repeats() {
    assert_eq!(
        lex("++.+"),
        vec![Token::Inc, Token::Inc, Token::Print, Token::Inc]
    );
}

#[test]
fn lex_empty_text() {
    assert_eq!(lex(""), Vec::<Token>::new());
}

#[test]
fn lex_text_without_symbols() {
    assert_eq!(lex("hello world\n\t 0123 (){}*/ def"), Vec::<Token>::new());
}

#[test]
fn lex_skips_whitespace_and_newlines() {
    assert_eq!(
        lex(" +\n-\r\n\t> "),
        vec![Token::Inc, Token::Dec, Token::IncPtr]
    );
}

#[test]
fn lex_skips_characters_outside_ascii() {
    assert_eq!(
        lex("é+日本語]\u{1F600}."),
        vec![Token::Inc, Token::LoopEnd, Token::Print]
    );
}

#[test]
fn lex_is_unchanged_by_inserted_noise() {
    let plain = lex("+[->+<]");
    assert_eq!(lex("x+[->+<]"), plain);
    assert_eq!(lex("+[- add one >+< and go back ]"), plain);
    assert_eq!(lex("+[->+<]\n"), plain);
    assert_eq!(lex("+ [ - > + < ]"), plain);
}

#[test]
fn lex_does_not_take_look_alikes() {
    assert_eq!(lex("\u{FF0B}\u{2212}\u{3002}"), Vec::<Token>::new());
}

#[test]
fn lex_is_unchanged_by_noise_at_every_position() {
    let source = "+[->+<].,";
    let plain = lex(source);
    for at in 0..=source.len() {
        let mut noisy = String::from(&source[..at]);
        noisy.push_str("x y\nz\u{e9}");
        noisy.push_str(&source[at..]);
        assert_eq!(lex(&noisy), plain);
    }
}

#[test]
fn lex_long_text() {
    let source = "+-".repeat(50_000);
    let tokens = lex(&source);
    assert_eq!(tokens.len(), 100_000);
    assert_eq!(tokens[0], Token::Inc);
    assert_eq!(tokens[99_999], Token::Dec);
}
