//! Source text to symbols.
use vstd::prelude::*;

verus! {

/// One of the eight symbols of the language.
#[derive(Debug, Clone, Copy, PartialEq, Eq)]
pub enum Token {
    /// `+`: add one to the selected cell.
    Inc,
    /// `-`: subtract one from the selected cell.
    Dec,
    /// `>`: move the pointer one cell forward.
    IncPtr,
    /// `<`: move the pointer one cell backward.
    DecPtr,
    /// `.`: write the selected cell out.
    Print,
    /// `,`: read into the selected cell.
    Read,
    /// `[`: open a loop.
    LoopStart,
    /// `]`: close a loop.
    LoopEnd,
}

/// The symbol that a character stands for, if it stands for one.
pub open spec fn symbol(c: char) -> Option<Token> {
    if c == '+' {
        Some(Token::Inc)
    } else if c == '-' {
        Some(Token::Dec)
    } else if c == '>' {
        Some(Token::IncPtr)
    } else if c == '<' {
        Some(Token::DecPtr)
    } else if c == '.' {
        Some(Token::Print)
    } else if c == ',' {
        Some(Token::Read)
    } else if c == '[' {
        Some(Token::LoopStart)
    } else if c == ']' {
        Some(Token::LoopEnd)
    } else {
        None
    }
}

/// The symbols of a text: one for each character that stands for a symbol,
/// in the order of the text. Every other character leaves no trace.
pub open spec fn tokens_of(text: Seq<char>) -> Seq<Token> {
    text.filter_map(|c: char| symbol(c))
}

/// The symbols of two texts, one after the other, are the symbols of the
/// first and then those of the second.
pub proof fn lemma_tokens_concat(first: Seq<char>, second: Seq<char>)
    ensures
        tokens_of(first + second) == tokens_of(first) + tokens_of(second),
    decreases second.len(),
{
    if second.len() > 0 {
        assert((first + second).drop_last() =~= first + second.drop_last());
        lemma_tokens_concat(first, second.drop_last());
    }
}

/// A text without a character that stands for a symbol has no symbols.
pub proof fn lemma_tokens_noise(noise: Seq<char>)
    requires
        forall|i: int| 0 <= i < noise.len() ==> symbol(#[trigger] noise[i]) is None,
    ensures
        tokens_of(noise) == Seq::<Token>::empty(),
    decreases noise.len(),
{
    if noise.len() > 0 {
        lemma_tokens_noise(noise.drop_last());
    }
}

/// Characters that stand for no symbol, put anywhere into a text, do not
/// change the symbols of the text.
pub proof fn lemma_lex_ignores_noise(before: Seq<char>, noise: Seq<char>, after: Seq<char>)
    requires
        forall|i: int| 0 <= i < noise.len() ==> symbol(#[trigger] noise[i]) is None,
    ensures
        tokens_of(before + noise + after) == tokens_of(before + after),
{
    lemma_tokens_concat(before + noise, after);
    lemma_tokens_concat(before, noise);
    lemma_tokens_concat(before, after);
    lemma_tokens_noise(noise);
}

/// Classifies one character.
fn classify(c: char) -> (token: Option<Token>)
    ensures
        token == symbol(c),
{
    match c {
        '+' => Some(Token::Inc),
        '-' => Some(Token::Dec),
        '>' => Some(Token::IncPtr),
        '<' => Some(Token::DecPtr),
        '.' => Some(Token::Print),
        ',' => Some(Token::Read),
        '[' => Some(Token::LoopStart),
        ']' => Some(Token::LoopEnd),
        _ => None,
    }
}

/// Turns source text into its symbols. No text is refused.
pub fn lex(input: &str) -> (tokens: Vec<Token>)
    ensures
        tokens@ == tokens_of(input@),
{
    let mut tokens: Vec<Token> = Vec::new();
    for c in it: input.chars()
        invariant
            it.seq() == input@,
            tokens@ == tokens_of(input@.take(it.index())),
    {
        proof {
            input@.lemma_filter_map_take_succ(|c: char| symbol(c), it.index());
        }
        match classify(c) {
            Some(token) => tokens.push(token),
            None => {},
        }
    }
    assert(input@.take(input@.len() as int) == input@);
    tokens
}

} // verus!
