//! A tree of loops to basic blocks.
use vstd::prelude::*;
use crate::compiler::ir::{
    block_views, halts_once, import_views, signature, well_formed, Block, BlockKind, Import,
    ImportView, Instr, Param, Place, Procedure, Routine, ARRAY_BYTES, ARRAY_SIZE,
};
use crate::compiler::lowering::{
    add_to, lemma_emit_twice, lemma_lower_push, lemma_supported_each, loop_test, loops, lowered,
    prologue, select_cell, supported, supported_node, Emission,
};
use crate::compiler::shape::{lemma_block_count, lemma_lowered_shape};
use crate::compiler::parser::{lemma_nodes_each, lemma_nodes_take, nodes, CodeElement};
use crate::compiler::syntax::Node;

verus! {

/// Why a program cannot be lowered.
#[derive(Debug, Clone, Copy, PartialEq, Eq)]
pub enum CodegenError {
    /// The program holds a construct that has no lowering: reading input.
    UnsupportedConstruct,
}

/// Writes the procedure of one program: it holds the declared routines, the
/// blocks written so far, and the block that the next operation goes into.
pub struct Codegen {
    imports: Vec<Import>,
    blocks: Vec<Block>,
    current: usize,
}

impl View for Codegen {
    type V = Emission;

    closed spec fn view(&self) -> Emission {
        Emission {
            imports: import_views(self.imports@),
            blocks: block_views(self.blocks@),
            current: self.current as int,
        }
    }
}

impl Codegen {
    /// Lowers the program and hands out the finished procedure. It fails if
    /// and only if the program holds what has no lowering.
    pub fn codegen(self, to_gen: Vec<CodeElement>) -> (result: Result<Procedure, CodegenError>)
        requires
            self@ == prologue(),
        ensures
            result is Ok <==> supported(nodes(to_gen@)),
            result matches Ok(procedure) ==> {
                &&& procedure@ == lowered(nodes(to_gen@))
                &&& procedure@.blocks.len() == 1 + 3 * loops(nodes(to_gen@))
                &&& well_formed(procedure@)
                &&& halts_once(procedure@)
            },
    {
        let mut codegen = self;
        codegen.codegen_internal(&to_gen)?;
        let procedure = Procedure { imports: codegen.imports, blocks: codegen.blocks };
        proof {
            lemma_block_count(prologue(), nodes(to_gen@));
            assert(procedure@.blocks.len() == procedure.blocks.len());
            lemma_lowered_shape(nodes(to_gen@));
        }
        Ok(procedure)
    }

    /// Lowers the elements and ends the procedure: the call that halts the
    /// process, then a return.
    fn codegen_internal(&mut self, to_gen: &Vec<CodeElement>) -> (result: Result<
        (),
        CodegenError,
    >)
        requires
            old(self)@.valid(),
        ensures
            result is Ok <==> supported(nodes(to_gen@)),
            result is Ok ==> {
                let done = old(self)@.lower_nodes(nodes(to_gen@)).emit(
                    seq![Instr::CallExit, Instr::Return],
                );
                &&& final(self)@ == done
                &&& final(self)@.valid()
            },
    {
        self.codegen_elements(to_gen)?;
        let ghost lowered = self@;
        self.emit(Instr::CallExit);
        self.emit(Instr::Return);
        proof {
            lemma_emit_twice(lowered, seq![Instr::CallExit], seq![Instr::Return]);
            assert(seq![Instr::CallExit] + seq![Instr::Return] =~= seq![
                Instr::CallExit,
                Instr::Return,
            ]);
        }
        Ok(())
    }

    /// Adds one operation at the end of the current block.
    fn emit(&mut self, instr: Instr)
        requires
            old(self)@.valid(),
        ensures
            final(self)@ == old(self)@.emit(seq![instr]),
            final(self)@.valid(),
            final(self)@.blocks.len() == old(self)@.blocks.len(),
    {
        self.blocks[self.current].instrs.push(instr);
        proof {
            let before = old(self).blocks@[self.current as int].instrs@;
            assert(before.push(instr) =~= before + seq![instr]);
            assert(self@.blocks =~= old(self)@.emit(seq![instr]).blocks);
        }
    }

    /// Adds a new, empty block after the others and gives its number.
    fn append_basic_block(&mut self, kind: BlockKind) -> (block: usize)
        requires
            old(self)@.valid(),
        ensures
            block == old(self)@.blocks.len(),
            final(self)@ == old(self)@.append_basic_block(kind),
            final(self)@.valid(),
    {
        let block = self.blocks.len();
        self.blocks.push(Block { kind, instrs: Vec::new() });
        assert(self@.blocks =~~= old(self)@.append_basic_block(kind).blocks);
        block
    }

    /// Loads what a place holds into the value register.
    fn codegen_load_specified_ptr(&mut self, to_load: Place)
        requires
            old(self)@.valid(),
        ensures
            final(self)@ == old(self)@.emit(seq![Instr::Load(to_load)]),
            final(self)@.valid(),
            final(self)@.blocks.len() == old(self)@.blocks.len(),
    {
        self.emit(Instr::Load(to_load));
    }

    /// Computes the address of the selected cell into the address register,
    /// and gives the place that stands for that cell.
    fn codegen_get_pointer_to_selected_value(&mut self) -> (address: Place)
        requires
            old(self)@.valid(),
        ensures
            address == Place::Cell,
            final(self)@ == old(self)@.emit(select_cell()),
            final(self)@.valid(),
            final(self)@.blocks.len() == old(self)@.blocks.len(),
    {
        self.codegen_load_specified_ptr(Place::Pointer);
        self.emit(Instr::Select);
        proof {
            lemma_emit_twice(old(self)@, seq![Instr::Load(Place::Pointer)], seq![Instr::Select]);
            assert(seq![Instr::Load(Place::Pointer)] + seq![Instr::Select] =~= select_cell());
        }
        Place::Cell
    }

    /// Adds a number to what a place holds.
    fn add_to_memory(&mut self, amount: i32, address: Place)
        requires
            old(self)@.valid(),
        ensures
            final(self)@ == old(self)@.emit(add_to(address, amount)),
            final(self)@.valid(),
            final(self)@.blocks.len() == old(self)@.blocks.len(),
    {
        self.codegen_load_specified_ptr(address);
        self.emit(Instr::Add(amount));
        self.emit(Instr::Store(address));
        proof {
            let load = seq![Instr::Load(address)];
            let add = seq![Instr::Add(amount)];
            let store = seq![Instr::Store(address)];
            lemma_emit_twice(old(self)@, load, add);
            lemma_emit_twice(old(self)@, load + add, store);
            assert(load + add + store =~= add_to(address, amount));
        }
    }

    /// Moves the pointer by a number of cells.
    fn codegen_change_ptr(&mut self, amount: i32)
        requires
            old(self)@.valid(),
        ensures
            final(self)@ == old(self)@.emit(add_to(Place::Pointer, amount)),
            final(self)@.valid(),
            final(self)@.blocks.len() == old(self)@.blocks.len(),
    {
        self.add_to_memory(amount, Place::Pointer);
    }

    /// Adds a number to the selected cell.
    fn codegen_change_value(&mut self, amount: i32)
        requires
            old(self)@.valid(),
        ensures
            final(self)@ == old(self)@.emit(select_cell() + add_to(Place::Cell, amount)),
            final(self)@.valid(),
            final(self)@.blocks.len() == old(self)@.blocks.len(),
    {
        let address = self.codegen_get_pointer_to_selected_value();
        self.add_to_memory(amount, address);
        proof {
            lemma_emit_twice(old(self)@, select_cell(), add_to(Place::Cell, amount));
        }
    }

    /// Lowers `>`.
    fn codegen_ptr_inc(&mut self)
        requires
            old(self)@.valid(),
        ensures
            final(self)@ == old(self)@.lower_node(Node::IncPtr),
            final(self)@.valid(),
            final(self)@.blocks.len() == old(self)@.blocks.len(),
    {
        self.codegen_change_ptr(1);
    }

    /// Lowers `<`.
    fn codegen_ptr_dec(&mut self)
        requires
            old(self)@.valid(),
        ensures
            final(self)@ == old(self)@.lower_node(Node::DecPtr),
            final(self)@.valid(),
            final(self)@.blocks.len() == old(self)@.blocks.len(),
    {
        self.codegen_change_ptr(-1);
    }

    /// Lowers `+`.
    fn codegen_inc(&mut self)
        requires
            old(self)@.valid(),
        ensures
            final(self)@ == old(self)@.lower_node(Node::Inc),
            final(self)@.valid(),
            final(self)@.blocks.len() == old(self)@.blocks.len(),
    {
        self.codegen_change_value(1);
    }

    /// Lowers `-`.
    fn codegen_dec(&mut self)
        requires
            old(self)@.valid(),
        ensures
            final(self)@ == old(self)@.lower_node(Node::Dec),
            final(self)@.valid(),
            final(self)@.blocks.len() == old(self)@.blocks.len(),
    {
        self.codegen_change_value(-1);
    }

    /// Lowers `.`.
    fn codegen_print(&mut self)
        requires
            old(self)@.valid(),
        ensures
            final(self)@ == old(self)@.lower_node(Node::Print),
            final(self)@.valid(),
            final(self)@.blocks.len() == old(self)@.blocks.len(),
    {
        self.codegen_get_pointer_to_selected_value();
        self.emit(Instr::CallPrint);
        proof {
            lemma_emit_twice(old(self)@, select_cell(), seq![Instr::CallPrint]);
        }
    }

    /// Lowers one element, into the current block and the blocks of the
    /// loops that it holds.
    fn codegen_single(&mut self, to_gen: &CodeElement) -> (result: Result<(), CodegenError>)
        requires
            old(self)@.valid(),
        ensures
            result is Ok <==> supported_node(to_gen.node()),
            result is Ok ==> {
                &&& final(self)@ == old(self)@.lower_node(to_gen.node())
                &&& final(self)@.valid()
                &&& final(self)@.blocks.len() >= old(self)@.blocks.len()
            },
        decreases to_gen, 0nat,
    {
        match to_gen {
            CodeElement::IncPtr => {
                self.codegen_ptr_inc();
                Ok(())
            },
            CodeElement::DecPtr => {
                self.codegen_ptr_dec();
                Ok(())
            },
            CodeElement::Inc => {
                self.codegen_inc();
                Ok(())
            },
            CodeElement::Dec => {
                self.codegen_dec();
                Ok(())
            },
            CodeElement::Print => {
                self.codegen_print();
                Ok(())
            },
            CodeElement::Read => Err(CodegenError::UnsupportedConstruct),
            CodeElement::Loop(elements) => self.codegen_loop(elements),
        }
    }

    /// Lowers elements one after the other, and stops at the first that has
    /// no lowering.
    fn codegen_elements(&mut self, elements: &Vec<CodeElement>) -> (result: Result<
        (),
        CodegenError,
    >)
        requires
            old(self)@.valid(),
        ensures
            result is Ok <==> supported(nodes(elements@)),
            result is Ok ==> {
                &&& final(self)@ == old(self)@.lower_nodes(nodes(elements@))
                &&& final(self)@.valid()
                &&& final(self)@.blocks.len() >= old(self)@.blocks.len()
            },
        decreases elements, 0nat,
    {
        let mut index: usize = 0;
        while index < elements.len()
            invariant
                index <= elements.len(),
                supported(nodes(elements@.take(index as int))),
                self@ == old(self)@.lower_nodes(nodes(elements@.take(index as int))),
                self@.valid(),
                self@.blocks.len() >= old(self)@.blocks.len(),
            decreases elements.len() - index,
        {
            proof {
                let done = nodes(elements@.take(index as int));
                let next = elements@[index as int].node();
                lemma_nodes_each(elements@);
                lemma_nodes_take(elements@, index as int);
                lemma_nodes_take(elements@, index + 1);
                assert(nodes(elements@).take(index + 1) =~= done.push(next));
                lemma_lower_push(old(self)@, done, next);
                lemma_supported_each(nodes(elements@));
            }
            match self.codegen_single(&elements[index]) {
                Ok(()) => {},
                Err(error) => {
                    return Err(error);
                },
            }
            index += 1;
        }
        assert(elements@.take(elements.len() as int) =~= elements@);
        Ok(())
    }

    /// Lowers a loop into three new blocks: one that tests the selected
    /// cell, one that the body starts in, and one that follows the loop and
    /// is the current block afterwards.
    fn codegen_loop(&mut self, inner: &Vec<CodeElement>) -> (result: Result<(), CodegenError>)
        requires
            old(self)@.valid(),
        ensures
            result is Ok <==> supported(nodes(inner@)),
            result is Ok ==> {
                &&& final(self)@ == old(self)@.lower_node(Node::Loop(nodes(inner@)))
                &&& final(self)@.valid()
                &&& final(self)@.blocks.len() >= old(self)@.blocks.len()
            },
        decreases inner, 1nat,
    {
        let loop_cond_bb = self.append_basic_block(BlockKind::Condition);
        self.emit(Instr::Jump(loop_cond_bb));
        let loop_bb = self.append_basic_block(BlockKind::Body);
        self.position_at_end(loop_bb);
        self.codegen_elements(inner)?;
        self.emit(Instr::Jump(loop_cond_bb));
        let after_loop_bb = self.append_basic_block(BlockKind::After);
        self.position_at_end(loop_cond_bb);
        let ghost before_test = self@;

        let address = self.codegen_get_pointer_to_selected_value();
        self.codegen_load_specified_ptr(address);
        self.emit(Instr::Branch { zero: after_loop_bb, nonzero: loop_bb });
        proof {
            let load = seq![Instr::Load(Place::Cell)];
            let branch = seq![Instr::Branch { zero: after_loop_bb, nonzero: loop_bb }];
            lemma_emit_twice(before_test, select_cell(), load);
            lemma_emit_twice(before_test, select_cell() + load, branch);
            assert(select_cell() + load + branch =~= loop_test(after_loop_bb, loop_bb));
        }
        self.position_at_end(after_loop_bb);
        Ok(())
    }

    /// A code generator that has written the start of a procedure: the
    /// routines are declared, and the entry block reserves the array and the
    /// pointer, sets the pointer to zero and has the array set to zero.
    pub fn new() -> (codegen: Self)
        ensures
            codegen@ == prologue(),
    {
        let mut imports: Vec<Import> = Vec::new();
        imports.push(Self::load_print());
        imports.push(Self::load_zero_mem());
        imports.push(Self::load_exit());

        let mut instrs: Vec<Instr> = Vec::new();
        instrs.push(Instr::AllocCells(ARRAY_SIZE));
        instrs.push(Instr::AllocPointer);
        instrs.push(Instr::Const(0));
        instrs.push(Instr::Store(Place::Pointer));
        instrs.push(Instr::CallZeroMem(ARRAY_BYTES));
        assert(instrs@ =~= prologue().blocks[0].instrs);
        let mut blocks: Vec<Block> = Vec::new();
        blocks.push(Block { kind: BlockKind::Entry, instrs });

        let codegen = Self { imports, blocks, current: 0 };
        proof {
            assert(codegen@.imports =~~= prologue().imports);
            assert(codegen@.blocks =~= prologue().blocks);
        }
        codegen
    }

    /// Declares the routine that halts the process: it takes nothing.
    fn load_exit() -> (import: Import)
        ensures
            import@ == (ImportView { routine: Routine::Exit, params: signature(Routine::Exit) }),
    {
        Import { routine: Routine::Exit, params: Vec::new() }
    }

    /// Declares the routine that zeroes memory: it takes an address and a
    /// number of bytes.
    fn load_zero_mem() -> (import: Import)
        ensures
            import@ == (ImportView {
                routine: Routine::ZeroMem,
                params: signature(Routine::ZeroMem),
            }),
    {
        let mut params: Vec<Param> = Vec::new();
        params.push(Param::CellPointer);
        params.push(Param::ByteCount);
        assert(params@ =~= signature(Routine::ZeroMem));
        Import { routine: Routine::ZeroMem, params }
    }

    /// Declares the routine that writes a cell out: it takes the address of
    /// the cell.
    fn load_print() -> (import: Import)
        ensures
            import@ == (ImportView { routine: Routine::Print, params: signature(Routine::Print) }),
    {
        let mut params: Vec<Param> = Vec::new();
        params.push(Param::CellPointer);
        Import { routine: Routine::Print, params }
    }

    /// Makes another block the current one.
    fn position_at_end(&mut self, block: usize)
        requires
            block < old(self)@.blocks.len(),
        ensures
            final(self)@ == old(self)@.position_at_end(block as int),
            final(self)@.valid(),
    {
        self.current = block;
    }
}

/// Lowers a program to its procedure. It fails if and only if the program
/// holds what has no lowering.
pub fn codegen(to_gen: Vec<CodeElement>) -> (result: Result<Procedure, CodegenError>)
    ensures
        result is Ok <==> supported(nodes(to_gen@)),
        result matches Ok(procedure) ==> {
            &&& procedure@ == lowered(nodes(to_gen@))
            &&& procedure@.blocks.len() == 1 + 3 * loops(nodes(to_gen@))
            &&& well_formed(procedure@)
            &&& halts_once(procedure@)
        },
{
    let codegen = Codegen::new();
    codegen.codegen(to_gen)
}

} // verus!
