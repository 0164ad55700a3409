//! Symbols to a tree of loops.
use vstd::prelude::*;
use crate::compiler::lexer::Token;
use crate::compiler::syntax::{
    balanced, depth, lemma_level_concat, lemma_level_single, lemma_program_of,
    lemma_stays_above_concat, lemma_stays_above_single, lemma_unparse, lemma_unparse_push, level,
    peak, program_of, stays_above, unparse, unparse_node, Node,
};

verus! {

/// One element of a parsed program. A loop owns the elements of its body.
#[derive(Debug, PartialEq, Eq)]
pub enum CodeElement {
    /// Move the pointer one cell forward.
    IncPtr,
    /// Move the pointer one cell backward.
    DecPtr,
    /// Add one to the selected cell.
    Inc,
    /// Subtract one from the selected cell.
    Dec,
    /// Write the selected cell out.
    Print,
    /// Read into the selected cell.
    Read,
    /// Repeat the body while the selected cell is not zero.
    Loop(Vec<CodeElement>),
}

/// Where a parser stands in its one parse.
#[derive(Debug, Clone, Copy, PartialEq, Eq, Structural)]
pub enum Status {
    /// The parser has not been given symbols yet.
    NotStarted,
    /// The parser is at work.
    Parsing,
    /// The symbols were no program.
    Failed,
    /// The symbols were a program, which the parser holds.
    Done,
}

/// Why symbols are no program: the two ways in which brackets fail to match.
#[derive(Debug, Clone, Copy, PartialEq, Eq)]
pub enum ParseError {
    /// A `]` stands where no loop is open.
    UnmatchedLoopEnd,
    /// The symbols end inside a loop that a `[` opened.
    UnmatchedLoopStart,
}

/// A parser for one parse: it is made, parses once, and then hands out what
/// it found.
pub struct Parser {
    elements: Vec<CodeElement>,
    status: Status,
    failure: Option<ParseError>,
}

/// What a parser holds, as mathematics.
pub struct ParserView {
    /// Where the parser stands.
    pub status: Status,
    /// The program that it found.
    pub tree: Seq<Node>,
    /// Why it failed, if it did.
    pub failure: Option<ParseError>,
}

impl View for Parser {
    type V = ParserView;

    closed spec fn view(&self) -> ParserView {
        ParserView { status: self.status, tree: nodes(self.elements@), failure: self.failure }
    }
}

impl CodeElement {
    /// The node that this element stands for.
    pub open spec fn node(self) -> Node
        decreases self, 0nat,
    {
        match self {
            CodeElement::IncPtr => Node::IncPtr,
            CodeElement::DecPtr => Node::DecPtr,
            CodeElement::Inc => Node::Inc,
            CodeElement::Dec => Node::Dec,
            CodeElement::Print => Node::Print,
            CodeElement::Read => Node::Read,
            CodeElement::Loop(body) => Node::Loop(nodes(body@)),
        }
    }
}

/// The nodes that a sequence of elements stands for.
pub open spec fn nodes(elements: Seq<CodeElement>) -> Seq<Node>
    decreases elements, 1nat,
{
    if elements.len() == 0 {
        Seq::empty()
    } else {
        nodes(elements.drop_last()).push(elements.last().node())
    }
}

/// What is wrong with the brackets of the symbols, if anything is: a `]`
/// that no `[` before it is left to match, or else a `[` that is never
/// closed. Where both are wrong, the `]` is named.
pub open spec fn imbalance(tokens: Seq<Token>) -> Option<ParseError> {
    if !stays_above(tokens, 0) {
        Some(ParseError::UnmatchedLoopEnd)
    } else if level(tokens) != 0 {
        Some(ParseError::UnmatchedLoopStart)
    } else {
        None
    }
}

/// The nodes of a sequence with one more element at its end.
pub proof fn lemma_nodes_push(elements: Seq<CodeElement>, element: CodeElement)
    ensures
        nodes(elements.push(element)) == nodes(elements).push(element.node()),
{
    assert(elements.push(element).drop_last() =~= elements);
}

/// The nodes stand in the order of the elements, one for each.
pub proof fn lemma_nodes_each(elements: Seq<CodeElement>)
    ensures
        nodes(elements).len() == elements.len(),
        forall|i: int| 0 <= i < elements.len() ==> nodes(elements)[i] == elements[i].node(),
    decreases elements.len(),
{
    if elements.len() > 0 {
        lemma_nodes_each(elements.drop_last());
    }
}

/// The nodes of the first elements are the first of the nodes.
pub proof fn lemma_nodes_take(elements: Seq<CodeElement>, count: int)
    requires
        0 <= count <= elements.len(),
    ensures
        nodes(elements.take(count)) == nodes(elements).take(count),
{
    lemma_nodes_each(elements);
    lemma_nodes_each(elements.take(count));
}

/// Appending an element whose symbols come next extends the stretch of
/// symbols that the elements spell.
proof fn lemma_extend(
    elements: Seq<CodeElement>,
    element: CodeElement,
    tokens: Seq<Token>,
    start: int,
    from: int,
    to: int,
)
    requires
        0 <= start <= from <= to <= tokens.len(),
        unparse(nodes(elements)) == tokens.subrange(start, from),
        unparse_node(element.node()) == tokens.subrange(from, to),
    ensures
        unparse(nodes(elements.push(element))) == tokens.subrange(start, to),
{
    lemma_nodes_push(elements, element);
    lemma_unparse_push(nodes(elements), element.node());
}

/// A loop that is opened after complete elements and whose inside never
/// comes back down leaves the whole stretch above its starting level.
proof fn lemma_unclosed(elements: Seq<CodeElement>, tokens: Seq<Token>, start: int, from: int)
    requires
        0 <= start <= from < tokens.len(),
        unparse(nodes(elements)) == tokens.subrange(start, from),
        tokens[from] == Token::LoopStart,
        stays_above(tokens.subrange(from + 1, tokens.len() as int), 0),
        level(tokens.subrange(from + 1, tokens.len() as int)) >= 0,
    ensures
        stays_above(tokens.subrange(start, tokens.len() as int), 0),
        level(tokens.subrange(start, tokens.len() as int)) > 0,
{
    let front = tokens.subrange(start, from);
    let open = seq![Token::LoopStart];
    let inside = tokens.subrange(from + 1, tokens.len() as int);
    assert(tokens.subrange(start, tokens.len() as int) =~= front + open + inside);
    lemma_unparse(nodes(elements));
    lemma_level_single(Token::LoopStart);
    lemma_stays_above_single(Token::LoopStart);
    lemma_stays_above_concat(front, open, 0);
    lemma_level_concat(front, open);
    lemma_stays_above_concat(front + open, inside, 0);
    lemma_level_concat(front + open, inside);
}

/// Parses elements from `*position` on, as far as they go: to the end of the
/// symbols, or to a `]` that closes no loop opened since `*position`, which
/// is left in place. `None` means that a loop opened here is never closed.
fn parse_internal(token_stream: &Vec<Token>, position: &mut usize) -> (result: Option<
    Vec<CodeElement>,
>)
    requires
        *old(position) <= token_stream.len(),
    ensures
        *old(position) <= *final(position) <= token_stream.len(),
        match result {
            Some(elements) => {
                &&& unparse(nodes(elements@)) == token_stream@.subrange(
                    *old(position) as int,
                    *final(position) as int,
                )
                &&& *final(position) < token_stream.len() ==> token_stream@[*final(position) as int]
                    == Token::LoopEnd
            },
            None => {
                let rest = token_stream@.subrange(
                    *old(position) as int,
                    token_stream.len() as int,
                );
                stays_above(rest, 0) && level(rest) > 0
            },
        },
    decreases token_stream.len() - *old(position),
{
    let mut code_elements: Vec<CodeElement> = Vec::new();
    let ghost start = *position as int;
    let ghost tokens = token_stream@;
    while *position < token_stream.len()
        invariant
            tokens == token_stream@,
            *old(position) == start,
            start <= *position <= token_stream.len(),
            unparse(nodes(code_elements@)) == tokens.subrange(start, *position as int),
        decreases token_stream.len() - *position,
    {
        let ghost from = *position as int;
        let ghost before = code_elements@;
        let token = token_stream[*position];
        assert(tokens.subrange(from, from + 1) =~= seq![token]);
        let element = match token {
            Token::LoopEnd => {
                return Some(code_elements);
            },
            Token::LoopStart => {
                *position += 1;
                let body = match parse_internal(token_stream, position) {
                    Some(body) => body,
                    None => {
                        proof {
                            lemma_unclosed(before, tokens, start, from);
                        }
                        return None;
                    },
                };
                if *position == token_stream.len() {
                    proof {
                        lemma_unparse(nodes(body@));
                        lemma_unclosed(before, tokens, start, from);
                    }
                    return None;
                }
                assert(tokens.subrange(from, *position + 1) =~= seq![Token::LoopStart]
                    + tokens.subrange(from + 1, *position as int) + seq![Token::LoopEnd]);
                CodeElement::Loop(body)
            },
            Token::Inc => CodeElement::Inc,
            Token::Dec => CodeElement::Dec,
            Token::IncPtr => CodeElement::IncPtr,
            Token::DecPtr => CodeElement::DecPtr,
            Token::Print => CodeElement::Print,
            Token::Read => CodeElement::Read,
        };
        *position += 1;
        proof {
            lemma_extend(before, element, tokens, start, from, *position as int);
        }
        code_elements.push(element);
    }
    Some(code_elements)
}

impl Parser {
    /// Parses the symbols. The parser ends as `Done` if their brackets are
    /// balanced, and then holds the program that they spell; else it ends as
    /// `Failed` and holds the reason.
    pub fn parse(&mut self, token_stream: Vec<Token>)
        requires
            old(self)@.status == Status::NotStarted,
        ensures
            final(self)@.status == if balanced(token_stream@) {
                Status::Done
            } else {
                Status::Failed
            },
            final(self)@.failure == imbalance(token_stream@),
            final(self)@.tree == if balanced(token_stream@) {
                program_of(token_stream@)
            } else {
                old(self)@.tree
            },
    {
        self.status = Status::Parsing;
        let ghost tokens = token_stream@;
        let mut position: usize = 0;
        let parsed = parse_internal(&token_stream, &mut position);
        assert(tokens.subrange(0, tokens.len() as int) =~= tokens);
        match parsed {
            Some(elements) => {
                if position == token_stream.len() {
                    proof {
                        lemma_unparse(nodes(elements@));
                        lemma_program_of(tokens);
                    }
                    self.elements = elements;
                    self.status = Status::Done;
                    self.failure = None;
                } else {
                    proof {
                        let front = tokens.subrange(0, position as int);
                        lemma_unparse(nodes(elements@));
                        lemma_level_single(Token::LoopEnd);
                        lemma_level_concat(front, seq![Token::LoopEnd]);
                        assert(tokens.take(position + 1) =~= front + seq![Token::LoopEnd]);
                    }
                    self.status = Status::Failed;
                    self.failure = Some(ParseError::UnmatchedLoopEnd);
                }
            },
            None => {
                self.status = Status::Failed;
                self.failure = Some(ParseError::UnmatchedLoopStart);
            },
        }
    }

    /// A parser that has not parsed yet.
    pub fn new() -> (parser: Self)
        ensures
            parser@.status == Status::NotStarted,
            parser@.tree == Seq::<Node>::empty(),
            parser@.failure == None::<ParseError>,
    {
        Self { elements: Vec::new(), status: Status::NotStarted, failure: None }
    }

    /// The program that a successful parse found.
    pub fn code_elements(self) -> (elements: Vec<CodeElement>)
        requires
            self@.status == Status::Done,
        ensures
            nodes(elements@) == self@.tree,
    {
        self.elements
    }

    /// Where the parser stands.
    pub fn status(&self) -> (status: &Status)
        ensures
            *status == self@.status,
    {
        &self.status
    }

    /// Why the parse failed: `None` before a parse and after a successful one.
    pub fn failure(&self) -> (failure: Option<ParseError>)
        ensures
            failure == self@.failure,
    {
        self.failure
    }
}

/// Parses the symbols into the program that they spell. There is one if and
/// only if their brackets are balanced, and it is then as deep as the
/// brackets go.
pub fn parse(to_parse: Vec<Token>) -> (result: Option<Vec<CodeElement>>)
    ensures
        result is Some <==> balanced(to_parse@),
        result matches Some(elements) ==> {
            &&& nodes(elements@) == program_of(to_parse@)
            &&& unparse(nodes(elements@)) == to_parse@
            &&& depth(nodes(elements@)) == peak(to_parse@)
        },
{
    proof {
        lemma_program_of(to_parse@);
    }
    let mut parser = Parser::new();
    parser.parse(to_parse);
    if parser.status != Status::Done {
        return None
    }
    Some(parser.code_elements())
}

} // verus!
