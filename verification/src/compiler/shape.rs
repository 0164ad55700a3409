//! The shape of what lowering writes: how many blocks there are, that each
//! is a basic block, and where the procedure halts.
use vstd::prelude::*;
use crate::compiler::ir::{
    address_ready, closed_block, halting, halts_once, open_block, operands_ready,
    registers_ready, targets_within, terminator, value_ready, well_formed, BlockKind, BlockView,
    Instr, Place, ARRAY_BYTES, ARRAY_SIZE,
};
use crate::compiler::lowering::{
    add_to, imports, loop_test, loops, loops_in, lowered, operations, prologue, select_cell,
    Emission,
};
use crate::compiler::syntax::Node;

verus! {

/// An operation that neither leaves its block nor halts.
pub open spec fn plain(instr: Instr) -> bool {
    !terminator(instr) && !halting(instr)
}

/// No operation of the block halts the process or returns.
pub open spec fn quiet(block: BlockView) -> bool {
    forall|i: int| 0 <= i < block.instrs.len() ==> !halting(#[trigger] block.instrs[i])
}

/// What holds of a procedure between two nodes while it is written. The
/// current block is the last one and can take more operations. The blocks
/// in `pending` are the tests of the loops that are still being lowered:
/// they are empty. Every other block is a basic block.
pub open spec fn settled(emission: Emission, pending: Set<int>) -> bool {
    let count = emission.blocks.len() as int;
    &&& 0 < count <= usize::MAX
    &&& emission.current == count - 1
    &&& emission.blocks[0].kind == BlockKind::Entry
    &&& open_block(emission.blocks[emission.current])
    &&& forall|b: int| pending.contains(b) ==> 0 <= b < count - 1
    &&& forall|b: int|
        0 <= b < count ==> {
            &&& quiet(#[trigger] emission.blocks[b])
            &&& targets_within(emission.blocks[b], count)
            &&& registers_ready(emission.blocks[b].instrs)
        }
    &&& forall|b: int|
        0 <= b < count - 1 ==> if pending.contains(b) {
            (#[trigger] emission.blocks[b]).instrs.len() == 0
        } else {
            closed_block(emission.blocks[b])
        }
}

/// What one more operation does to the registers, and that it keeps the
/// operations ready if it finds what it reads.
pub proof fn lemma_ready_push(instrs: Seq<Instr>, instr: Instr)
    requires
        registers_ready(instrs),
        operands_ready(instrs, instr),
    ensures
        registers_ready(instrs.push(instr)),
        value_ready(instrs.push(instr)) == (instr is Const || instr is Load || value_ready(
            instrs,
        )),
        address_ready(instrs.push(instr)) == (instr is Select || address_ready(instrs)),
{
    let all = instrs.push(instr);
    assert(all.drop_last() =~= instrs);
    assert forall|i: int| 0 <= i < all.len() implies operands_ready(
        #[trigger] all.take(i),
        all[i],
    ) by {
        if i < instrs.len() {
            assert(all.take(i) =~= instrs.take(i));
        }
    }
}

/// Computing the address of the selected cell sets both registers.
pub proof fn lemma_select_cell_ready()
    ensures
        registers_ready(select_cell()),
        value_ready(select_cell()),
        address_ready(select_cell()),
{
    let none = Seq::<Instr>::empty();
    let load = Instr::Load(Place::Pointer);
    lemma_ready_push(none, load);
    lemma_ready_push(none.push(load), Instr::Select);
    assert(select_cell() =~= none.push(load).push(Instr::Select));
}

/// Adding to a place reads no register that it has not set, but for the
/// address of the cell, where the place is the cell.
pub proof fn lemma_add_to_ready(before: Seq<Instr>, place: Place, amount: i32)
    requires
        registers_ready(before),
        place is Cell ==> address_ready(before),
    ensures
        registers_ready(before + add_to(place, amount)),
{
    let load = Instr::Load(place);
    let add = Instr::Add(amount);
    let store = Instr::Store(place);
    lemma_ready_push(before, load);
    lemma_ready_push(before.push(load), add);
    lemma_ready_push(before.push(load).push(add), store);
    assert(before + add_to(place, amount) =~= before.push(load).push(add).push(store));
}

/// The operations of a node other than a loop are plain, and they set the
/// registers that they read.
pub proof fn lemma_operations_plain(node: Node)
    ensures
        forall|i: int| 0 <= i < operations(node).len() ==> plain(#[trigger] operations(node)[i]),
        registers_ready(operations(node)),
{
    let none = Seq::<Instr>::empty();
    lemma_select_cell_ready();
    match node {
        Node::IncPtr => {
            lemma_add_to_ready(none, Place::Pointer, 1);
        },
        Node::DecPtr => {
            lemma_add_to_ready(none, Place::Pointer, -1i32);
        },
        Node::Inc => {
            lemma_add_to_ready(select_cell(), Place::Cell, 1);
        },
        Node::Dec => {
            lemma_add_to_ready(select_cell(), Place::Cell, -1i32);
        },
        Node::Print => {
            lemma_ready_push(select_cell(), Instr::CallPrint);
        },
        _ => {},
    }
}

/// The test of a loop sets the registers that it reads.
pub proof fn lemma_loop_test_ready(after: usize, body: usize)
    ensures
        registers_ready(loop_test(after, body)),
{
    let load = Instr::Load(Place::Cell);
    let branch = Instr::Branch { zero: after, nonzero: body };
    lemma_select_cell_ready();
    lemma_ready_push(select_cell(), load);
    lemma_ready_push(select_cell().push(load), branch);
}

/// A register that is set by the operations that follow is set whatever
/// came before them.
pub proof fn lemma_ready_after(before: Seq<Instr>, after: Seq<Instr>)
    ensures
        value_ready(after) ==> value_ready(before + after),
        address_ready(after) ==> address_ready(before + after),
    decreases after.len(),
{
    if after.len() > 0 {
        assert((before + after).drop_last() =~= before + after.drop_last());
        lemma_ready_after(before, after.drop_last());
    }
}

/// Operations that set the registers that they read still do so after
/// others that do.
pub proof fn lemma_ready_concat(before: Seq<Instr>, after: Seq<Instr>)
    requires
        registers_ready(before),
        registers_ready(after),
    ensures
        registers_ready(before + after),
{
    let all = before + after;
    assert forall|i: int| 0 <= i < all.len() implies operands_ready(
        #[trigger] all.take(i),
        all[i],
    ) by {
        if i < before.len() {
            assert(all.take(i) =~= before.take(i));
        } else {
            let within = i - before.len();
            assert(all.take(i) =~= before + after.take(within));
            lemma_ready_after(before, after.take(within));
        }
    }
}

/// Lowering adds three blocks for each loop and keeps the declarations.
pub proof fn lemma_block_count(emission: Emission, nodes: Seq<Node>)
    requires
        emission.valid(),
    ensures
        emission.lower_nodes(nodes).valid(),
        emission.lower_nodes(nodes).blocks.len() == emission.blocks.len() + 3 * loops(nodes),
        emission.lower_nodes(nodes).imports == emission.imports,
    decreases nodes, 1nat,
{
    if nodes.len() > 0 {
        lemma_block_count(emission, nodes.drop_last());
        lemma_block_count_node(emission.lower_nodes(nodes.drop_last()), nodes.last());
    }
}

/// Lowering a loop adds three blocks for it and for each loop inside it;
/// lowering another node adds none.
pub proof fn lemma_block_count_node(emission: Emission, node: Node)
    requires
        emission.valid(),
    ensures
        emission.lower_node(node).valid(),
        emission.lower_node(node).blocks.len() == emission.blocks.len() + 3 * loops_in(node),
        emission.lower_node(node).imports == emission.imports,
    decreases node, 0nat,
{
    match node {
        Node::Loop(body) => {
            let condition = emission.blocks.len() as int;
            let entered = emission.append_basic_block(BlockKind::Condition).emit(
                seq![Instr::Jump(condition as usize)],
            ).append_basic_block(BlockKind::Body).position_at_end(condition + 1);
            lemma_block_count(entered, body);
        },
        _ => {},
    }
}

/// Lowering leaves every block that was there as it was, but for the current
/// one, which keeps its kind and gets operations at its end. The current
/// block afterwards is the same or a new one.
pub proof fn lemma_lower_frame(emission: Emission, nodes: Seq<Node>)
    requires
        emission.valid(),
    ensures
        emission.lower_nodes(nodes).current == emission.current || emission.lower_nodes(
            nodes,
        ).current >= emission.blocks.len(),
        forall|b: int|
            0 <= b < emission.blocks.len() && b != emission.current ==> #[trigger] emission.lower_nodes(
                nodes,
            ).blocks[b] == emission.blocks[b],
        emission.lower_nodes(nodes).blocks[emission.current].kind
            == emission.blocks[emission.current].kind,
        emission.blocks[emission.current].instrs.is_prefix_of(
            emission.lower_nodes(nodes).blocks[emission.current].instrs,
        ),
    decreases nodes, 1nat,
{
    if nodes.len() > 0 {
        let before = emission.lower_nodes(nodes.drop_last());
        lemma_lower_frame(emission, nodes.drop_last());
        lemma_block_count(emission, nodes.drop_last());
        lemma_lower_frame_node(before, nodes.last());
    }
}

/// Lowering one node leaves every block that was there as it was, but for
/// the current one, which keeps its kind and gets operations at its end.
pub proof fn lemma_lower_frame_node(emission: Emission, node: Node)
    requires
        emission.valid(),
    ensures
        emission.lower_node(node).current == emission.current || emission.lower_node(
            node,
        ).current >= emission.blocks.len(),
        forall|b: int|
            0 <= b < emission.blocks.len() && b != emission.current ==> #[trigger] emission.lower_node(
                node,
            ).blocks[b] == emission.blocks[b],
        emission.lower_node(node).blocks[emission.current].kind
            == emission.blocks[emission.current].kind,
        emission.blocks[emission.current].instrs.is_prefix_of(
            emission.lower_node(node).blocks[emission.current].instrs,
        ),
    decreases node, 0nat,
{
    match node {
        Node::Loop(body) => {
            let condition = emission.blocks.len() as int;
            let entered = emission.append_basic_block(BlockKind::Condition).emit(
                seq![Instr::Jump(condition as usize)],
            ).append_basic_block(BlockKind::Body).position_at_end(condition + 1);
            lemma_lower_frame(entered, body);
            lemma_block_count(entered, body);
        },
        _ => {},
    }
}

/// Where the three blocks of a loop stand. The `Condition` block takes the
/// next free number and the `Body` block the one after it; the `After`
/// block follows the blocks of the loops inside the body. The block that
/// was the current one gets the jump to the `Condition` block and nothing
/// else, and the `Condition` block holds the test and nothing else.
pub proof fn lemma_loop_layout(emission: Emission, body: Seq<Node>)
    requires
        emission.valid(),
    ensures
        ({
            let condition = emission.blocks.len() as int;
            let after = condition + 2 + 3 * loops(body);
            let done = emission.lower_node(Node::Loop(body));
            &&& done.blocks.len() == after + 1
            &&& done.current == after
            &&& done.blocks[emission.current].instrs == emission.blocks[emission.current].instrs.push(
                Instr::Jump(condition as usize),
            )
            &&& done.blocks[condition] == (BlockView {
                kind: BlockKind::Condition,
                instrs: loop_test(after as usize, (condition + 1) as usize),
            })
            &&& done.blocks[condition + 1].kind == BlockKind::Body
            &&& done.blocks[after] == (BlockView {
                kind: BlockKind::After,
                instrs: Seq::empty(),
            })
        }),
{
    let condition = emission.blocks.len() as int;
    let entered = emission.append_basic_block(BlockKind::Condition).emit(
        seq![Instr::Jump(condition as usize)],
    ).append_basic_block(BlockKind::Body).position_at_end(condition + 1);
    lemma_lower_frame(entered, body);
    lemma_block_count(entered, body);
}

/// Adding plain operations to the current block keeps a procedure settled.
pub proof fn lemma_settled_emit(emission: Emission, pending: Set<int>, instrs: Seq<Instr>)
    requires
        settled(emission, pending),
        forall|i: int| 0 <= i < instrs.len() ==> plain(#[trigger] instrs[i]),
        registers_ready(instrs),
    ensures
        settled(emission.emit(instrs), pending),
{
    let after = emission.emit(instrs);
    let at = emission.current;
    let count = emission.blocks.len() as int;
    assert forall|b: int| 0 <= b < count implies quiet(#[trigger] after.blocks[b])
        && targets_within(after.blocks[b], count) && registers_ready(after.blocks[b].instrs) by {
        if b == at {
            lemma_ready_concat(emission.blocks[b].instrs, instrs);
        }
    }
}

/// Lowering a node keeps a procedure settled, as long as the blocks can
/// still be numbered.
pub proof fn lemma_settled_node(emission: Emission, node: Node, pending: Set<int>)
    requires
        settled(emission, pending),
        emission.blocks.len() + 3 * loops_in(node) <= usize::MAX,
    ensures
        settled(emission.lower_node(node), pending),
    decreases node, 0nat,
{
    match node {
        Node::Loop(body) => {
            let condition = emission.blocks.len() as int;
            let enter = seq![Instr::Jump(condition as usize)];
            let entered = emission.append_basic_block(BlockKind::Condition).emit(
                enter,
            ).append_basic_block(BlockKind::Body).position_at_end(condition + 1);
            let waiting = pending.insert(condition);
            lemma_ready_push(Seq::empty(), Instr::Jump(condition as usize));
            assert(settled(entered, waiting)) by {
                let count = condition + 2;
                assert forall|b: int| 0 <= b < count implies quiet(#[trigger] entered.blocks[b])
                    && targets_within(entered.blocks[b], count) && registers_ready(
                    entered.blocks[b].instrs,
                ) by {
                    if b == condition - 1 {
                        lemma_ready_concat(emission.blocks[b].instrs, enter);
                    }
                }
            }
            lemma_block_count(entered, body);
            lemma_settled(entered, body, waiting);
            let lowered = entered.lower_nodes(body);
            let inside = lowered.emit(enter);
            let after = inside.blocks.len() as int;
            let test = loop_test(after as usize, (condition + 1) as usize);
            let result = inside.append_basic_block(BlockKind::After).position_at_end(
                condition,
            ).emit(test).position_at_end(after);
            lemma_loop_test_ready(after as usize, (condition + 1) as usize);
            assert(settled(result, pending)) by {
                let count = after + 1;
                assert forall|b: int| 0 <= b < count implies quiet(#[trigger] result.blocks[b])
                    && targets_within(result.blocks[b], count) && registers_ready(
                    result.blocks[b].instrs,
                ) by {
                    if b == after - 1 {
                        lemma_ready_concat(lowered.blocks[b].instrs, enter);
                    }
                }
            }
        },
        _ => {
            lemma_operations_plain(node);
            lemma_settled_emit(emission, pending, operations(node));
        },
    }
}

/// Lowering nodes keeps a procedure settled, as long as the blocks can still
/// be numbered.
pub proof fn lemma_settled(emission: Emission, nodes: Seq<Node>, pending: Set<int>)
    requires
        settled(emission, pending),
        emission.blocks.len() + 3 * loops(nodes) <= usize::MAX,
    ensures
        settled(emission.lower_nodes(nodes), pending),
    decreases nodes, 1nat,
{
    if nodes.len() > 0 {
        lemma_settled(emission, nodes.drop_last(), pending);
        lemma_block_count(emission, nodes.drop_last());
        lemma_settled_node(emission.lower_nodes(nodes.drop_last()), nodes.last(), pending);
    }
}

/// The procedure of a program has one block and three more for each loop;
/// its blocks are basic blocks; it halts once, where it ends; and it
/// declares the three routines. This holds of every program whose blocks can
/// be numbered.
pub proof fn lemma_lowered_shape(nodes: Seq<Node>)
    requires
        1 + 3 * loops(nodes) <= usize::MAX,
    ensures
        lowered(nodes).blocks.len() == 1 + 3 * loops(nodes),
        lowered(nodes).imports == imports(),
        well_formed(lowered(nodes)),
        halts_once(lowered(nodes)),
{
    let start = prologue();
    let none = Set::<int>::empty();
    let halt = seq![Instr::CallExit, Instr::Return];
    assert(registers_ready(start.blocks[0].instrs)) by {
        let first = Seq::<Instr>::empty().push(Instr::AllocCells(ARRAY_SIZE));
        let second = first.push(Instr::AllocPointer);
        let third = second.push(Instr::Const(0));
        let fourth = third.push(Instr::Store(Place::Pointer));
        lemma_ready_push(Seq::empty(), Instr::AllocCells(ARRAY_SIZE));
        lemma_ready_push(first, Instr::AllocPointer);
        lemma_ready_push(second, Instr::Const(0));
        lemma_ready_push(third, Instr::Store(Place::Pointer));
        lemma_ready_push(fourth, Instr::CallZeroMem(ARRAY_BYTES));
    }
    assert(registers_ready(halt)) by {
        lemma_ready_push(Seq::empty(), Instr::CallExit);
        lemma_ready_push(Seq::<Instr>::empty().push(Instr::CallExit), Instr::Return);
    }
    lemma_block_count(start, nodes);
    lemma_settled(start, nodes, none);
    let written = start.lower_nodes(nodes);
    let done = lowered(nodes);
    let last = written.current;
    let count = written.blocks.len() as int;
    assert forall|b: int| 0 <= b < count implies closed_block(#[trigger] done.blocks[b])
        && targets_within(done.blocks[b], count) && registers_ready(done.blocks[b].instrs) by {
        if b == last {
            lemma_ready_concat(written.blocks[b].instrs, halt);
        }
    }
}

} // verus!
