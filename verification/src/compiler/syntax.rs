//! The mathematical model of a program: its tree, the symbols that spell it,
//! and the nesting of its brackets.
use vstd::prelude::*;
use crate::compiler::lexer::Token;

verus! {

/// A node of a program's tree. A loop owns its body, so no node is shared
/// and no node lies inside itself.
pub enum Node {
    /// Move the pointer one cell forward.
    IncPtr,
    /// Move the pointer one cell backward.
    DecPtr,
    /// Add one to the selected cell.
    Inc,
    /// Subtract one from the selected cell.
    Dec,
    /// Write the selected cell out.
    Print,
    /// Read into the selected cell.
    Read,
    /// Repeat the body while the selected cell is not zero.
    Loop(Seq<Node>),
}

/// The symbols that spell one node.
pub open spec fn unparse_node(node: Node) -> Seq<Token>
    decreases node, 0nat,
{
    match node {
        Node::IncPtr => seq![Token::IncPtr],
        Node::DecPtr => seq![Token::DecPtr],
        Node::Inc => seq![Token::Inc],
        Node::Dec => seq![Token::Dec],
        Node::Print => seq![Token::Print],
        Node::Read => seq![Token::Read],
        Node::Loop(body) => seq![Token::LoopStart] + unparse(body) + seq![Token::LoopEnd],
    }
}

/// The symbols that spell a sequence of nodes, one node after the other.
pub open spec fn unparse(nodes: Seq<Node>) -> Seq<Token>
    decreases nodes, 1nat,
{
    if nodes.len() == 0 {
        Seq::empty()
    } else {
        unparse(nodes.drop_last()) + unparse_node(nodes.last())
    }
}

/// The program that symbols spell. Balanced symbols spell exactly one, and
/// no others spell any: see `lemma_program_of`.
pub open spec fn program_of(tokens: Seq<Token>) -> Seq<Node> {
    choose|nodes: Seq<Node>| unparse(nodes) == tokens
}

/// What one symbol adds to the nesting level: a bracket that opens adds one,
/// one that closes takes one away, every other symbol leaves it.
pub open spec fn step(token: Token) -> int {
    match token {
        Token::LoopStart => 1,
        Token::LoopEnd => -1,
        _ => 0,
    }
}

/// The nesting level after the symbols: brackets opened minus brackets closed.
pub open spec fn level(tokens: Seq<Token>) -> int
    decreases tokens.len(),
{
    if tokens.len() == 0 {
        0
    } else {
        level(tokens.drop_last()) + step(tokens.last())
    }
}

/// No prefix of the symbols has a nesting level below `floor`.
pub open spec fn stays_above(tokens: Seq<Token>, floor: int) -> bool {
    forall|n: int| 0 <= n <= tokens.len() ==> level(#[trigger] tokens.take(n)) >= floor
}

/// Every bracket that closes has one that opened before it, and every bracket
/// that opens is closed.
pub open spec fn balanced(tokens: Seq<Token>) -> bool {
    stays_above(tokens, 0) && level(tokens) == 0
}

/// The highest nesting level that any prefix of the symbols reaches.
pub open spec fn peak(tokens: Seq<Token>) -> int
    decreases tokens.len(),
{
    if tokens.len() == 0 {
        0
    } else if peak(tokens.drop_last()) >= level(tokens) {
        peak(tokens.drop_last())
    } else {
        level(tokens)
    }
}

/// How many loops lie around the innermost point of a node.
pub open spec fn depth_of(node: Node) -> nat
    decreases node, 0nat,
{
    match node {
        Node::Loop(body) => 1 + depth(body),
        _ => 0,
    }
}

/// The loop-nesting depth of a sequence of nodes: that of its deepest node.
pub open spec fn depth(nodes: Seq<Node>) -> nat
    decreases nodes, 1nat,
{
    if nodes.len() == 0 {
        0
    } else if depth(nodes.drop_last()) >= depth_of(nodes.last()) {
        depth(nodes.drop_last())
    } else {
        depth_of(nodes.last())
    }
}

/// The level of one symbol is its step.
pub proof fn lemma_level_single(token: Token)
    ensures
        level(seq![token]) == step(token),
        peak(seq![token]) == if step(token) > 0 { step(token) } else { 0 },
{
    reveal_with_fuel(level, 2);
    reveal_with_fuel(peak, 2);
}

/// Levels add up over concatenation.
pub proof fn lemma_level_concat(a: Seq<Token>, b: Seq<Token>)
    ensures
        level(a + b) == level(a) + level(b),
    decreases b.len(),
{
    if b.len() > 0 {
        assert((a + b).drop_last() =~= a + b.drop_last());
        lemma_level_concat(a, b.drop_last());
    }
}

/// The peak of a concatenation is reached in the first part, or in the second
/// part on top of the level at which the first part ends.
pub proof fn lemma_peak_concat(a: Seq<Token>, b: Seq<Token>)
    ensures
        peak(a) >= 0,
        peak(a) >= level(a),
        peak(a + b) == if peak(a) >= level(a) + peak(b) {
            peak(a)
        } else {
            level(a) + peak(b)
        },
    decreases a.len() + b.len(),
{
    if a.len() > 0 {
        lemma_peak_concat(a.drop_last(), Seq::empty());
    }
    if b.len() > 0 {
        assert((a + b).drop_last() =~= a + b.drop_last());
        lemma_peak_concat(a, b.drop_last());
        lemma_level_concat(a, b);
    }
}

/// A concatenation stays above a floor if its first part does and its second
/// part stays above what is left of the floor at the level the first part
/// ends at.
pub proof fn lemma_stays_above_concat(a: Seq<Token>, b: Seq<Token>, floor: int)
    requires
        stays_above(a, floor),
        stays_above(b, floor - level(a)),
    ensures
        stays_above(a + b, floor),
{
    assert forall|n: int| 0 <= n <= (a + b).len() implies level(#[trigger] (a + b).take(n))
        >= floor by {
        if n <= a.len() {
            assert((a + b).take(n) =~= a.take(n));
        } else {
            assert((a + b).take(n) =~= a + b.take(n - a.len()));
            lemma_level_concat(a, b.take(n - a.len()));
        }
    }
}

/// One symbol stays above zero unless it closes a bracket, and above minus
/// one in any case.
pub proof fn lemma_stays_above_single(token: Token)
    ensures
        stays_above(seq![token], -1),
        token != Token::LoopEnd ==> stays_above(seq![token], 0),
{
    lemma_level_single(token);
    assert forall|n: int| 0 <= n <= 1 implies level(#[trigger] seq![token].take(n)) >= (if token
        == Token::LoopEnd {
        -1int
    } else {
        0int
    }) by {
        if n == 1 {
            assert(seq![token].take(1) =~= seq![token]);
        }
    }
}

/// The symbols that spell a node are balanced, and their peak is the node's
/// depth.
pub proof fn lemma_unparse_node(node: Node)
    ensures
        balanced(unparse_node(node)),
        peak(unparse_node(node)) == depth_of(node),
        unparse_node(node).len() > 0,
    decreases node, 0nat,
{
    match node {
        Node::Loop(body) => {
            let open = seq![Token::LoopStart];
            let close = seq![Token::LoopEnd];
            let inner = unparse(body);
            lemma_unparse(body);
            lemma_level_single(Token::LoopStart);
            lemma_level_single(Token::LoopEnd);
            lemma_stays_above_single(Token::LoopStart);
            lemma_stays_above_single(Token::LoopEnd);
            lemma_stays_above_concat(open, inner, 0);
            lemma_level_concat(open, inner);
            lemma_stays_above_concat(open + inner, close, 0);
            lemma_level_concat(open + inner, close);
            lemma_peak_concat(open, inner);
            lemma_peak_concat(open + inner, close);
            lemma_peak_concat(inner, Seq::empty());
        },
        _ => {
            let token = unparse_node(node)[0];
            lemma_level_single(token);
            lemma_stays_above_single(token);
        },
    }
}

/// The symbols that spell a sequence of nodes are balanced, and their peak is
/// the depth of the sequence.
pub proof fn lemma_unparse(nodes: Seq<Node>)
    ensures
        balanced(unparse(nodes)),
        peak(unparse(nodes)) == depth(nodes),
    decreases nodes, 1nat,
{
    if nodes.len() > 0 {
        let front = unparse(nodes.drop_last());
        let back = unparse_node(nodes.last());
        lemma_unparse(nodes.drop_last());
        lemma_unparse_node(nodes.last());
        lemma_stays_above_concat(front, back, 0);
        lemma_level_concat(front, back);
        lemma_peak_concat(front, back);
    }
}

/// Spelling a sequence with one more node at its end appends the node's
/// symbols.
pub proof fn lemma_unparse_push(nodes: Seq<Node>, node: Node)
    ensures
        unparse(nodes.push(node)) == unparse(nodes) + unparse_node(node),
{
    assert(nodes.push(node).drop_last() =~= nodes);
}

/// Where two spellings of the same symbols both end in a loop, the loop of
/// the first does not start after the loop of the second: it would then
/// start inside it, above the level at which a loop at the top starts.
proof fn lemma_last_loop_start(
    front: Seq<Token>,
    inside: Seq<Token>,
    other_front: Seq<Token>,
    other_inside: Seq<Token>,
)
    requires
        level(front) == 0,
        level(other_front) == 0,
        stays_above(other_inside, 0),
        front + (seq![Token::LoopStart] + inside + seq![Token::LoopEnd]) == other_front + (
            seq![Token::LoopStart] + other_inside + seq![Token::LoopEnd]),
    ensures
        front.len() <= other_front.len(),
{
    if front.len() > other_front.len() {
        let open = seq![Token::LoopStart];
        let close = seq![Token::LoopEnd];
        let all = front + (open + inside + close);
        let within = front.len() - other_front.len();
        assert(all.take(front.len() as int) =~= front);
        assert(all.take(front.len() as int) =~= other_front + (open + other_inside.take(
            within - 1,
        )));
        lemma_level_concat(other_front, open + other_inside.take(within - 1));
        lemma_level_concat(open, other_inside.take(within - 1));
        lemma_level_single(Token::LoopStart);
    }
}

/// A spelling spells one program: two sequences of nodes with the same
/// symbols are the same.
pub proof fn lemma_unparse_unique(first: Seq<Node>, second: Seq<Node>)
    requires
        unparse(first) == unparse(second),
    ensures
        first == second,
    decreases unparse(first).len(),
{
    if first.len() == 0 || second.len() == 0 {
        if first.len() > 0 {
            lemma_unparse_node(first.last());
        }
        if second.len() > 0 {
            lemma_unparse_node(second.last());
        }
    } else {
        let all = unparse(first);
        let front = unparse(first.drop_last());
        let other_front = unparse(second.drop_last());
        let other_back = unparse_node(second.last());
        lemma_unparse(first.drop_last());
        lemma_unparse(second.drop_last());
        lemma_unparse_node(first.last());
        lemma_unparse_node(second.last());
        assert(all.last() == other_back.last());
        match (first.last(), second.last()) {
            (Node::Loop(body), Node::Loop(other_body)) => {
                let inside = unparse(body);
                let other_inside = unparse(other_body);
                lemma_unparse(body);
                lemma_unparse(other_body);
                lemma_last_loop_start(front, inside, other_front, other_inside);
                lemma_last_loop_start(other_front, other_inside, front, inside);
                assert(front =~= all.take(front.len() as int));
                assert(other_front =~= all.take(front.len() as int));
                assert(inside =~= all.subrange(front.len() as int + 1, all.len() - 1));
                assert(other_inside =~= all.subrange(front.len() as int + 1, all.len() - 1));
                lemma_unparse_unique(body, other_body);
            },
            _ => {
                assert(front =~= all.drop_last());
                assert(other_front =~= all.drop_last());
            },
        }
        lemma_unparse_unique(first.drop_last(), second.drop_last());
        assert(second =~= second.drop_last().push(second.last()));
    }
}

/// The node that a symbol other than a bracket spells.
spec fn leaf(token: Token) -> Node {
    match token {
        Token::IncPtr => Node::IncPtr,
        Token::DecPtr => Node::DecPtr,
        Token::Inc => Node::Inc,
        Token::Dec => Node::Dec,
        Token::Print => Node::Print,
        _ => Node::Read,
    }
}

/// The length of the longest prefix, of at most `limit` symbols, after
/// which the nesting level is zero.
spec fn last_ground(tokens: Seq<Token>, limit: int) -> int
    decreases limit,
{
    if limit <= 0 {
        0
    } else if level(tokens.take(limit)) == 0 {
        limit
    } else {
        last_ground(tokens, limit - 1)
    }
}

/// After `last_ground` symbols the level is zero, and it is not zero again
/// up to the limit.
proof fn lemma_last_ground(tokens: Seq<Token>, limit: int)
    requires
        0 <= limit <= tokens.len(),
    ensures
        0 <= last_ground(tokens, limit) <= limit,
        level(tokens.take(last_ground(tokens, limit))) == 0,
        forall|n: int|
            last_ground(tokens, limit) < n <= limit ==> level(#[trigger] tokens.take(n)) != 0,
    decreases limit,
{
    if limit > 0 && level(tokens.take(limit)) != 0 {
        lemma_last_ground(tokens, limit - 1);
    }
}

/// Balanced symbols spell a program. The proof finds it from the end: the
/// last symbol is a node of its own, or it closes the loop that was opened
/// where the level was last zero.
pub proof fn lemma_balanced_has_program(tokens: Seq<Token>) -> (nodes: Seq<Node>)
    requires
        balanced(tokens),
    ensures
        unparse(nodes) == tokens,
    decreases tokens.len(),
{
    if tokens.len() == 0 {
        Seq::empty()
    } else {
        let length = tokens.len() as int;
        let rest = tokens.drop_last();
        assert forall|n: int| 0 <= n <= rest.len() implies level(#[trigger] rest.take(n))
            >= 0 by {
            assert(rest.take(n) =~= tokens.take(n));
        }
        if tokens.last() == Token::LoopEnd {
            let start = last_ground(tokens, length - 1);
            lemma_last_ground(tokens, length - 1);
            let front = tokens.take(start);
            let opened = tokens.take(start + 1);
            let inside = tokens.subrange(start + 1, length - 1);
            assert(opened.drop_last() =~= front);
            assert forall|n: int| 0 <= n <= front.len() implies level(#[trigger] front.take(n))
                >= 0 by {
                assert(front.take(n) =~= tokens.take(n));
            }
            assert forall|n: int| 0 <= n <= inside.len() implies level(
                #[trigger] inside.take(n),
            ) >= 0 by {
                assert(tokens.take(start + 1 + n) =~= opened + inside.take(n));
                lemma_level_concat(opened, inside.take(n));
            }
            assert(level(inside) == 0) by {
                assert(rest =~= opened + inside);
                lemma_level_concat(opened, inside);
            }
            let before = lemma_balanced_has_program(front);
            let body = lemma_balanced_has_program(inside);
            let nodes = before.push(Node::Loop(body));
            lemma_unparse_push(before, Node::Loop(body));
            nodes
        } else {
            let before = lemma_balanced_has_program(rest);
            let nodes = before.push(leaf(tokens.last()));
            lemma_unparse_push(before, leaf(tokens.last()));
            nodes
        }
    }
}

/// Symbols spell a program if and only if they are balanced. The program is
/// then the only one that they spell, and it is as deep as their brackets
/// go.
pub proof fn lemma_program_of(tokens: Seq<Token>)
    ensures
        balanced(tokens) <==> unparse(program_of(tokens)) == tokens,
        balanced(tokens) ==> depth(program_of(tokens)) == peak(tokens),
        forall|nodes: Seq<Node>| unparse(nodes) == tokens ==> nodes == program_of(tokens),
{
    if balanced(tokens) {
        let nodes = lemma_balanced_has_program(tokens);
    }
    lemma_unparse(program_of(tokens));
    assert forall|nodes: Seq<Node>| unparse(nodes) == tokens implies nodes == program_of(
        tokens,
    ) by {
        lemma_unparse_unique(nodes, program_of(tokens));
    }
}

} // verus!
