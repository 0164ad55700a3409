//! What lowering is: the operations and basic blocks that each node of a
//! program stands for.
use vstd::prelude::*;
use crate::compiler::ir::{
    BlockKind, BlockView, ImportView, Instr, Place, ProcedureView, Routine, ARRAY_BYTES,
    ARRAY_SIZE, signature,
};
use crate::compiler::lexer::Token;
use crate::compiler::syntax::{unparse, unparse_node, Node};

verus! {

/// A procedure that is being written: its blocks so far, and the block that
/// the next operation goes into.
pub struct Emission {
    pub imports: Seq<ImportView>,
    pub blocks: Seq<BlockView>,
    pub current: int,
}

impl Emission {
    /// There is a block for the next operation to go into.
    pub open spec fn valid(self) -> bool {
        0 <= self.current < self.blocks.len()
    }

    /// With the operations added at the end of the current block.
    pub open spec fn emit(self, instrs: Seq<Instr>) -> Emission {
        let block = self.blocks[self.current];
        Emission {
            blocks: self.blocks.update(
                self.current,
                BlockView { kind: block.kind, instrs: block.instrs + instrs },
            ),
            ..self
        }
    }

    /// With a new, empty block after the others. Its number is the number of
    /// blocks that there were.
    pub open spec fn append_basic_block(self, kind: BlockKind) -> Emission {
        Emission { blocks: self.blocks.push(BlockView { kind, instrs: Seq::empty() }), ..self }
    }

    /// With another block as the current one.
    pub open spec fn position_at_end(self, block: int) -> Emission {
        Emission { current: block, ..self }
    }

    /// With a node lowered. A node other than a loop adds its operations to
    /// the current block. A loop adds three blocks. First come its
    /// `Condition` block, to which the current block jumps, and its `Body`
    /// block, in which the lowering of the body starts; where the body ends,
    /// a jump leads back to the `Condition` block. Then comes its `After`
    /// block, and the `Condition` block gets the test, which leaves for the
    /// `After` block if the selected cell holds zero and goes on with the
    /// `Body` block if not. The `After` block is the current one afterwards.
    pub open spec fn lower_node(self, node: Node) -> Emission
        decreases node, 0nat,
    {
        match node {
            Node::Loop(body) => {
                let condition = self.blocks.len() as int;
                let entered = self.append_basic_block(BlockKind::Condition).emit(
                    seq![Instr::Jump(condition as usize)],
                ).append_basic_block(BlockKind::Body).position_at_end(condition + 1);
                let inside = entered.lower_nodes(body).emit(seq![Instr::Jump(condition as usize)]);
                let after = inside.blocks.len() as int;
                inside.append_basic_block(BlockKind::After).position_at_end(condition).emit(
                    loop_test(after as usize, (condition + 1) as usize),
                ).position_at_end(after)
            },
            _ => self.emit(operations(node)),
        }
    }

    /// With the nodes lowered one after the other.
    pub open spec fn lower_nodes(self, nodes: Seq<Node>) -> Emission
        decreases nodes, 1nat,
    {
        if nodes.len() == 0 {
            self
        } else {
            self.lower_nodes(nodes.drop_last()).lower_node(nodes.last())
        }
    }

    /// The finished procedure: the current block ends with the call that
    /// halts the process and a return.
    pub open spec fn finish(self) -> ProcedureView {
        let done = self.emit(seq![Instr::CallExit, Instr::Return]);
        ProcedureView { imports: done.imports, blocks: done.blocks }
    }
}

/// Computes the address of the selected cell: the base of the array plus the
/// pointer.
pub open spec fn select_cell() -> Seq<Instr> {
    seq![Instr::Load(Place::Pointer), Instr::Select]
}

/// Adds a number to what a place holds: load, add, store.
pub open spec fn add_to(place: Place, amount: i32) -> Seq<Instr> {
    seq![Instr::Load(place), Instr::Add(amount), Instr::Store(place)]
}

/// The operations that a node other than a loop stands for. Reading input
/// has none.
pub open spec fn operations(node: Node) -> Seq<Instr> {
    match node {
        Node::IncPtr => add_to(Place::Pointer, 1),
        Node::DecPtr => add_to(Place::Pointer, -1i32),
        Node::Inc => select_cell() + add_to(Place::Cell, 1),
        Node::Dec => select_cell() + add_to(Place::Cell, -1i32),
        Node::Print => select_cell() + seq![Instr::CallPrint],
        _ => Seq::empty(),
    }
}

/// The test of a loop: load the selected cell, and leave the loop for the
/// block `after` if it holds zero, else go on with the block `body`.
pub open spec fn loop_test(after: usize, body: usize) -> Seq<Instr> {
    select_cell() + seq![Instr::Load(Place::Cell), Instr::Branch { zero: after, nonzero: body }]
}

/// The three routines, declared in this order: print, zero_mem, exit.
pub open spec fn imports() -> Seq<ImportView> {
    seq![
        ImportView { routine: Routine::Print, params: signature(Routine::Print) },
        ImportView { routine: Routine::ZeroMem, params: signature(Routine::ZeroMem) },
        ImportView { routine: Routine::Exit, params: signature(Routine::Exit) },
    ]
}

/// Where every procedure starts: the routines are declared, and the entry
/// block reserves the array and the pointer, sets the pointer to zero and
/// has the whole array set to zero.
pub open spec fn prologue() -> Emission {
    Emission {
        imports: imports(),
        blocks: seq![
            BlockView {
                kind: BlockKind::Entry,
                instrs: seq![
                    Instr::AllocCells(ARRAY_SIZE),
                    Instr::AllocPointer,
                    Instr::Const(0),
                    Instr::Store(Place::Pointer),
                    Instr::CallZeroMem(ARRAY_BYTES),
                ],
            },
        ],
        current: 0,
    }
}

/// The procedure that a program is lowered to.
pub open spec fn lowered(nodes: Seq<Node>) -> ProcedureView {
    prologue().lower_nodes(nodes).finish()
}

/// Whether a node can be lowered: reading input cannot, nor can a loop that
/// holds what cannot.
pub open spec fn supported_node(node: Node) -> bool
    decreases node, 0nat,
{
    match node {
        Node::Read => false,
        Node::Loop(body) => supported(body),
        _ => true,
    }
}

/// Whether all the nodes can be lowered.
pub open spec fn supported(nodes: Seq<Node>) -> bool
    decreases nodes, 1nat,
{
    nodes.len() == 0 || (supported(nodes.drop_last()) && supported_node(nodes.last()))
}

/// The number of loops in a node: itself, if it is one, and those inside
/// it.
pub open spec fn loops_in(node: Node) -> nat
    decreases node, 0nat,
{
    match node {
        Node::Loop(body) => 1 + loops(body),
        _ => 0,
    }
}

/// The number of loops in the nodes, nested ones included.
pub open spec fn loops(nodes: Seq<Node>) -> nat
    decreases nodes, 1nat,
{
    if nodes.len() == 0 {
        0
    } else {
        loops(nodes.drop_last()) + loops_in(nodes.last())
    }
}

/// A symbol stands in two stretches of symbols, one after the other, if and
/// only if it stands in one of them.
proof fn lemma_contains_concat(first: Seq<Token>, second: Seq<Token>, token: Token)
    ensures
        (first + second).contains(token) <==> first.contains(token) || second.contains(token),
{
    let all = first + second;
    if first.contains(token) {
        let i = choose|i: int| 0 <= i < first.len() && first[i] == token;
        assert(all[i] == token);
    }
    if second.contains(token) {
        let i = choose|i: int| 0 <= i < second.len() && second[i] == token;
        assert(all[first.len() + i] == token);
    }
}

/// A node can be lowered if and only if `,` is none of its symbols.
pub proof fn lemma_supported_node_symbols(node: Node)
    ensures
        supported_node(node) <==> !unparse_node(node).contains(Token::Read),
    decreases node, 0nat,
{
    match node {
        Node::Loop(body) => {
            let open = seq![Token::LoopStart];
            let close = seq![Token::LoopEnd];
            lemma_supported_symbols(body);
            lemma_contains_concat(open, unparse(body), Token::Read);
            lemma_contains_concat(open + unparse(body), close, Token::Read);
        },
        _ => {
            let symbols = unparse_node(node);
            if node is Read {
                assert(symbols[0] == Token::Read);
            }
        },
    }
}

/// A program can be lowered if and only if `,` is none of its symbols.
pub proof fn lemma_supported_symbols(nodes: Seq<Node>)
    ensures
        supported(nodes) <==> !unparse(nodes).contains(Token::Read),
    decreases nodes, 1nat,
{
    if nodes.len() > 0 {
        lemma_supported_symbols(nodes.drop_last());
        lemma_supported_node_symbols(nodes.last());
        lemma_contains_concat(
            unparse(nodes.drop_last()),
            unparse_node(nodes.last()),
            Token::Read,
        );
    }
}

/// Adding operations in two steps is adding them all at once.
pub proof fn lemma_emit_twice(emission: Emission, first: Seq<Instr>, second: Seq<Instr>)
    requires
        emission.valid(),
    ensures
        emission.emit(first).emit(second) == emission.emit(first + second),
{
    let at = emission.current;
    let before = emission.blocks[at].instrs;
    assert((before + first) + second =~= before + (first + second));
    assert(emission.emit(first).emit(second).blocks =~= emission.emit(first + second).blocks);
}

/// Nodes can be lowered if and only if each of them can.
pub proof fn lemma_supported_each(nodes: Seq<Node>)
    ensures
        supported(nodes) <==> forall|i: int| 0 <= i < nodes.len() ==> supported_node(nodes[i]),
    decreases nodes.len(),
{
    if nodes.len() > 0 {
        lemma_supported_each(nodes.drop_last());
        if supported(nodes) {
            assert forall|i: int| 0 <= i < nodes.len() implies supported_node(nodes[i]) by {
                if i < nodes.len() - 1 {
                    assert(nodes.drop_last()[i] == nodes[i]);
                }
            }
        }
    }
}

/// Lowering one more node at the end lowers the others first and then
/// that node.
pub proof fn lemma_lower_push(emission: Emission, nodes: Seq<Node>, node: Node)
    ensures
        emission.lower_nodes(nodes.push(node)) == emission.lower_nodes(nodes).lower_node(node),
        supported(nodes.push(node)) == (supported(nodes) && supported_node(node)),
        loops(nodes.push(node)) == loops(nodes) + loops_in(node),
{
    assert(nodes.push(node).drop_last() =~= nodes);
}

} // verus!
