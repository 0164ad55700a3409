//! The low-level form that a program is lowered to: one procedure made of
//! basic blocks, for a machine with an array of cells and a pointer.
//!
//! The machine has a fixed array of 32-bit cells, one 32-bit pointer variable
//! that holds the index of the selected cell, and two registers that live
//! within a basic block: the value register, which holds a 32-bit number, and
//! the address register, which holds the address of a cell. The pointer is
//! never checked against the bounds of the array.
use vstd::prelude::*;

verus! {

/// The number of cells in the array.
pub const ARRAY_SIZE: i32 = 1024;

/// The number of bytes that the array takes: four for each cell.
pub const ARRAY_BYTES: u64 = 4096;

/// The bytes of the array are those of all its cells.
pub proof fn lemma_array_bytes()
    ensures
        ARRAY_BYTES == 4 * ARRAY_SIZE,
{
}

/// A routine that the procedure calls and that the host supplies at link
/// time.
#[derive(Debug, Clone, Copy, PartialEq, Eq)]
pub enum Routine {
    /// Writes out the cell whose address it is given.
    Print,
    /// Sets a stretch of memory to zero, given its address and its length in
    /// bytes.
    ZeroMem,
    /// Ends the process. It takes nothing and does not return.
    Exit,
}

/// The type of a parameter of a routine.
#[derive(Debug, Clone, Copy, PartialEq, Eq)]
pub enum Param {
    /// The address of a 32-bit cell.
    CellPointer,
    /// A 64-bit count of bytes.
    ByteCount,
}

/// Something that a load reads or a store writes.
#[derive(Debug, Clone, Copy, PartialEq, Eq)]
pub enum Place {
    /// The pointer variable.
    Pointer,
    /// The cell whose address the address register holds.
    Cell,
}

/// One operation of the procedure.
#[derive(Debug, Clone, Copy, PartialEq, Eq)]
pub enum Instr {
    /// Reserves the array, of that many cells.
    AllocCells(i32),
    /// Reserves the pointer variable.
    AllocPointer,
    /// Puts a number into the value register.
    Const(i32),
    /// Reads a place into the value register.
    Load(Place),
    /// Puts into the address register the address of the cell whose index
    /// the value register holds: the base of the array plus that index.
    Select,
    /// Adds a number to the value register.
    Add(i32),
    /// Writes the value register to a place.
    Store(Place),
    /// Calls `Routine::Print` with the address register.
    CallPrint,
    /// Calls `Routine::ZeroMem` with the base of the array and a number of
    /// bytes.
    CallZeroMem(u64),
    /// Calls `Routine::Exit`.
    CallExit,
    /// Goes on with another block.
    Jump(usize),
    /// Goes on with the block `zero` if the value register holds zero, and
    /// with the block `nonzero` if it does not.
    Branch { zero: usize, nonzero: usize },
    /// Returns from the procedure.
    Return,
}

/// What a basic block is there for.
#[derive(Debug, Clone, Copy, PartialEq, Eq)]
pub enum BlockKind {
    /// The block that the procedure starts in.
    Entry,
    /// The block that tests whether a loop goes on.
    Condition,
    /// The block that the body of a loop starts in.
    Body,
    /// The block that follows a loop.
    After,
}

/// A basic block: operations that run one after the other.
#[derive(Debug, PartialEq, Eq)]
pub struct Block {
    pub kind: BlockKind,
    pub instrs: Vec<Instr>,
}

/// A basic block, as mathematics.
pub struct BlockView {
    pub kind: BlockKind,
    pub instrs: Seq<Instr>,
}

impl View for Block {
    type V = BlockView;

    open spec fn view(&self) -> BlockView {
        BlockView { kind: self.kind, instrs: self.instrs@ }
    }
}

/// The declaration of a routine that the host supplies.
#[derive(Debug, PartialEq, Eq)]
pub struct Import {
    pub routine: Routine,
    pub params: Vec<Param>,
}

/// The declaration of a routine, as mathematics.
pub struct ImportView {
    pub routine: Routine,
    pub params: Seq<Param>,
}

impl View for Import {
    type V = ImportView;

    open spec fn view(&self) -> ImportView {
        ImportView { routine: self.routine, params: self.params@ }
    }
}

/// The procedure that a program compiles to, with the routines that it
/// imports. It takes no parameters and returns nothing. It starts in block 0.
#[derive(Debug, PartialEq, Eq)]
pub struct Procedure {
    pub imports: Vec<Import>,
    pub blocks: Vec<Block>,
}

/// A procedure, as mathematics.
pub struct ProcedureView {
    pub imports: Seq<ImportView>,
    pub blocks: Seq<BlockView>,
}

/// The views of a sequence of blocks.
pub open spec fn block_views(blocks: Seq<Block>) -> Seq<BlockView> {
    blocks.map_values(|block: Block| block@)
}

/// The views of a sequence of declarations.
pub open spec fn import_views(imports: Seq<Import>) -> Seq<ImportView> {
    imports.map_values(|import: Import| import@)
}

impl View for Procedure {
    type V = ProcedureView;

    open spec fn view(&self) -> ProcedureView {
        ProcedureView {
            imports: import_views(self.imports@),
            blocks: block_views(self.blocks@),
        }
    }
}

/// The name under which the host supplies a routine.
pub open spec fn routine_name(routine: Routine) -> Seq<char> {
    match routine {
        Routine::Print => "print"@,
        Routine::ZeroMem => "zero_mem"@,
        Routine::Exit => "exit"@,
    }
}

/// The parameters that a routine takes. None of the routines returns a
/// value.
pub open spec fn signature(routine: Routine) -> Seq<Param> {
    match routine {
        Routine::Print => seq![Param::CellPointer],
        Routine::ZeroMem => seq![Param::CellPointer, Param::ByteCount],
        Routine::Exit => Seq::empty(),
    }
}

impl Routine {
    /// The name under which the host supplies the routine.
    pub fn name(&self) -> (name: &'static str)
        ensures
            name@ == routine_name(*self),
    {
        match self {
            Routine::Print => "print",
            Routine::ZeroMem => "zero_mem",
            Routine::Exit => "exit",
        }
    }
}

impl Procedure {
    /// The name of the procedure: `main`.
    pub fn name(&self) -> (name: &'static str)
        ensures
            name@ == "main"@,
    {
        "main"
    }
}

/// The routine that an operation calls, if it calls one.
pub open spec fn callee(instr: Instr) -> Option<Routine> {
    match instr {
        Instr::CallPrint => Some(Routine::Print),
        Instr::CallZeroMem(_) => Some(Routine::ZeroMem),
        Instr::CallExit => Some(Routine::Exit),
        _ => None,
    }
}

/// Whether an operation ends a basic block.
pub open spec fn terminator(instr: Instr) -> bool {
    instr is Jump || instr is Branch || instr is Return
}

/// No operation of the block ends a basic block: more can follow.
pub open spec fn open_block(block: BlockView) -> bool {
    forall|i: int| 0 <= i < block.instrs.len() ==> !terminator(#[trigger] block.instrs[i])
}

/// The block is a basic block: its last operation ends it, and no other
/// does.
pub open spec fn closed_block(block: BlockView) -> bool {
    &&& block.instrs.len() > 0
    &&& terminator(block.instrs.last())
    &&& forall|i: int| 0 <= i < block.instrs.len() - 1 ==> !terminator(#[trigger] block.instrs[i])
}

/// Every block that an operation of the block goes on with is one of the
/// first `count` blocks.
pub open spec fn targets_within(block: BlockView, count: int) -> bool {
    forall|i: int|
        0 <= i < block.instrs.len() ==> match #[trigger] block.instrs[i] {
            Instr::Jump(target) => target < count,
            Instr::Branch { zero, nonzero } => zero < count && nonzero < count,
            _ => true,
        }
}

/// Whether the value register has been set by one of the operations.
pub open spec fn value_ready(instrs: Seq<Instr>) -> bool
    decreases instrs.len(),
{
    instrs.len() > 0 && match instrs.last() {
        Instr::Const(_) | Instr::Load(_) => true,
        _ => value_ready(instrs.drop_last()),
    }
}

/// Whether the address register has been set by one of the operations.
pub open spec fn address_ready(instrs: Seq<Instr>) -> bool
    decreases instrs.len(),
{
    instrs.len() > 0 && (instrs.last() is Select || address_ready(instrs.drop_last()))
}

/// Whether an operation finds the registers that it reads set by the
/// operations before it.
pub open spec fn operands_ready(before: Seq<Instr>, instr: Instr) -> bool {
    match instr {
        Instr::Select | Instr::Add(_) | Instr::Branch { .. } => value_ready(before),
        Instr::Load(Place::Cell) | Instr::CallPrint => address_ready(before),
        Instr::Store(Place::Pointer) => value_ready(before),
        Instr::Store(Place::Cell) => value_ready(before) && address_ready(before),
        _ => true,
    }
}

/// Every operation reads only registers that an earlier operation of the
/// same sequence has set.
pub open spec fn registers_ready(instrs: Seq<Instr>) -> bool {
    forall|i: int|
        0 <= i < instrs.len() ==> operands_ready(#[trigger] instrs.take(i), instrs[i])
}

/// The procedure is made of basic blocks: it has an entry block, every block
/// ends in the one operation that leaves it, every block that an operation
/// goes on with exists, and within a block every register is set before it
/// is read.
pub open spec fn well_formed(procedure: ProcedureView) -> bool {
    &&& procedure.blocks.len() > 0
    &&& procedure.blocks[0].kind == BlockKind::Entry
    &&& forall|b: int|
        0 <= b < procedure.blocks.len() ==> {
            &&& closed_block(#[trigger] procedure.blocks[b])
            &&& targets_within(procedure.blocks[b], procedure.blocks.len() as int)
            &&& registers_ready(procedure.blocks[b].instrs)
        }
}

/// The procedure halts once, where it ends: its last block ends with the
/// call of `Routine::Exit` and a return, and neither stands anywhere else.
pub open spec fn halts_once(procedure: ProcedureView) -> bool {
    let last = procedure.blocks.len() - 1;
    let end = procedure.blocks[last].instrs;
    &&& last >= 0
    &&& end.len() >= 2
    &&& end[end.len() - 2] == Instr::CallExit
    &&& end[end.len() - 1] == Instr::Return
    &&& forall|b: int, i: int|
        0 <= b <= last && 0 <= i < procedure.blocks[b].instrs.len() && halting(
            #[trigger] procedure.blocks[b].instrs[i],
        ) ==> b == last && i >= end.len() - 2
}

/// Whether an operation halts the process or returns from the procedure.
pub open spec fn halting(instr: Instr) -> bool {
    instr is CallExit || instr is Return
}

} // verus!
