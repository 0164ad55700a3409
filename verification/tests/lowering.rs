use brain_f_rs::compiler::codegen::{codegen, Codegen, CodegenError};
use brain_f_rs::compiler::ir::{
    Block, BlockKind, Import, Instr, Param, Place, Procedure, Routine, ARRAY_BYTES, ARRAY_SIZE,
};
use brain_f_rs::compiler::lexer::lex;
use brain_f_rs::compiler::parser::{parse, CodeElement};
use brain_f_rs::compiler::{compile, CompileError};
use brain_f_rs::compiler::parser::ParseError;

fn prologue() -> Vec<Instr> {
    vec![
        Instr::AllocCells(1024),
        Instr::AllocPointer,
        Instr::Const(0),
        Instr::Store(Place::Pointer),
        Instr::CallZeroMem(4096),
    ]
}

fn change_cell(amount: i32) -> Vec<Instr> {
    vec![
        Instr::Load(Place::Pointer),
        Instr::Select,
        Instr::Load(Place::Cell),
        Instr::Add(amount),
        Instr::Store(Place::Cell),
    ]
}

fn change_pointer(amount: i32) -> Vec<Instr> {
    vec![
        Instr::Load(Place::Pointer),
        Instr::Add(amount),
        Instr::Store(Place::Pointer),
    ]
}

fn print() -> Vec<Instr> {
    vec![Instr::Load(Place::Pointer), Instr::Select, Instr::CallPrint]
}

fn test(after: usize, body: usize) -> Vec<Instr> {
    vec![
        Instr::Load(Place::Pointer),
        Instr::Select,
        Instr::Load(Place::Cell),
        Instr::Branch { zero: after, nonzero: body },
    ]
}

fn halt() -> Vec<Instr> {
    vec![Instr::CallExit, Instr::Return]
}

fn lower(source: &str) -> Procedure {
    codegen(parse(lex(source)).unwrap()).unwrap()
}

fn count(procedure: &Procedure, wanted: Instr) -> usize {
    procedure
        .blocks
        .iter()
        .map(|block| block.instrs.iter().filter(|instr| **instr == wanted).count())
        .sum()
}

fn is_terminator(instr: &Instr) -> bool {
    matches!(instr, Instr::Jump(_) | Instr::Branch { .. } | Instr::Return)
}

#[test]
fn the_array_has_1024_cells_of_four_bytes() {
    assert_eq!(ARRAY_SIZE, 1024);
    assert_eq!(ARRAY_BYTES, 4096);
    assert_eq!(ARRAY_BYTES, 4 * ARRAY_SIZE as u64);
}

#[test]
fn empty_program_is_prologue_and_halt() {
    let procedure = lower("");
    assert_eq!(
        procedure.blocks,
        vec![Block {
            kind: BlockKind::Entry,
            instrs: [prologue(), halt()].concat(),
        }]
    );
}

#[test]
fn noise_only_program_is_prologue_and_halt() {
    assert_eq!(lower("nothing to do\n"), lower(""));
}

#[test]
fn two_increments_and_a_print() {
    let procedure = lower("++.");
    assert_eq!(
        procedure.blocks,
        vec![Block {
            kind: BlockKind::Entry,
            instrs: [prologue(), change_cell(1), change_cell(1), print(), halt()].concat(),
        }]
    );
    assert_eq!(count(&procedure, Instr::CallPrint), 1);
    assert_eq!(count(&procedure, Instr::Add(1)), 2);
}

#[test]
fn each_leaf_has_its_operations() {
    assert_eq!(
        lower(">").blocks[0].instrs,
        [prologue(), change_pointer(1), halt()].concat()
    );
    assert_eq!(
        lower("<").blocks[0].instrs,
        [prologue(), change_pointer(-1), halt()].concat()
    );
    assert_eq!(
        lower("+").blocks[0].instrs,
        [prologue(), change_cell(1), halt()].concat()
    );
    assert_eq!(
        lower("-").blocks[0].instrs,
        [prologue(), change_cell(-1), halt()].concat()
    );
    assert_eq!(
        lower(".").blocks[0].instrs,
        [prologue(), print(), halt()].concat()
    );
}

#[test]
fn a_loop_is_three_blocks() {
    let procedure = lower("[-]");
    assert_eq!(
        procedure.blocks,
        vec![
            Block {
                kind: BlockKind::Entry,
                instrs: [prologue(), vec![Instr::Jump(1)]].concat(),
            },
            Block { kind: BlockKind::Condition, instrs: test(3, 2) },
            Block {
                kind: BlockKind::Body,
                instrs: [change_cell(-1), vec![Instr::Jump(1)]].concat(),
            },
            Block { kind: BlockKind::After, instrs: halt() },
        ]
    );
}

#[test]
fn code_after_a_loop_goes_into_its_after_block() {
    let procedure = lower("+[]>");
    assert_eq!(
        procedure.blocks,
        vec![
            Block {
                kind: BlockKind::Entry,
                instrs: [prologue(), change_cell(1), vec![Instr::Jump(1)]].concat(),
            },
            Block { kind: BlockKind::Condition, instrs: test(3, 2) },
            Block { kind: BlockKind::Body, instrs: vec![Instr::Jump(1)] },
            Block {
                kind: BlockKind::After,
                instrs: [change_pointer(1), halt()].concat(),
            },
        ]
    );
}

#[test]
fn nested_loops_nest_their_blocks() {
    let procedure = lower("[>[.]<]");
    assert_eq!(
        procedure.blocks,
        vec![
            Block {
                kind: BlockKind::Entry,
                instrs: [prologue(), vec![Instr::Jump(1)]].concat(),
            },
            Block { kind: BlockKind::Condition, instrs: test(6, 2) },
            Block {
                kind: BlockKind::Body,
                instrs: [change_pointer(1), vec![Instr::Jump(3)]].concat(),
            },
            Block { kind: BlockKind::Condition, instrs: test(5, 4) },
            Block {
                kind: BlockKind::Body,
                instrs: [print(), vec![Instr::Jump(3)]].concat(),
            },
            Block {
                kind: BlockKind::After,
                instrs: [change_pointer(-1), vec![Instr::Jump(1)]].concat(),
            },
            Block { kind: BlockKind::After, instrs: halt() },
        ]
    );
}

#[test]
fn three_blocks_for_each_loop() {
    assert_eq!(lower("+-><.").blocks.len(), 1);
    assert_eq!(lower("[]").blocks.len(), 4);
    assert_eq!(lower("[][]").blocks.len(), 7);
    assert_eq!(lower("[[-]>[+]]").blocks.len(), 10);
    assert_eq!(lower("[[[[[]]]]]+[-]").blocks.len(), 19);
}

#[test]
fn every_block_ends_in_its_only_terminator() {
    let procedure = lower("+[>[-]<[.>]]-[]");
    for block in &procedure.blocks {
        let (last, rest) = block.instrs.split_last().unwrap();
        assert!(is_terminator(last));
        assert!(!rest.iter().any(is_terminator));
    }
}

#[test]
fn every_target_is_a_block() {
    let procedure = lower("+[>[-]<[.>]]-[]");
    let blocks = procedure.blocks.len();
    for block in &procedure.blocks {
        for instr in &block.instrs {
            match instr {
                Instr::Jump(target) => assert!(*target < blocks),
                Instr::Branch { zero, nonzero } => {
                    assert!(*zero < blocks);
                    assert!(*nonzero < blocks);
                }
                _ => {}
            }
        }
    }
}

#[test]
fn the_procedure_halts_once_at_its_end() {
    for source in ["", "++.", "[-]", "+[>[-]<[.>]]-[]"] {
        let procedure = lower(source);
        assert_eq!(count(&procedure, Instr::CallExit), 1);
        assert_eq!(count(&procedure, Instr::Return), 1);
        let last = &procedure.blocks.last().unwrap().instrs;
        assert_eq!(last[last.len() - 2..], [Instr::CallExit, Instr::Return]);
    }
}

#[test]
fn the_entry_block_comes_first() {
    let procedure = lower("[[]]");
    assert_eq!(procedure.blocks[0].kind, BlockKind::Entry);
    let entries = procedure
        .blocks
        .iter()
        .filter(|block| block.kind == BlockKind::Entry)
        .count();
    assert_eq!(entries, 1);
}

#[test]
fn the_three_routines_are_declared() {
    let procedure = lower("+");
    assert_eq!(
        procedure.imports,
        vec![
            Import { routine: Routine::Print, params: vec![Param::CellPointer] },
            Import {
                routine: Routine::ZeroMem,
                params: vec![Param::CellPointer, Param::ByteCount],
            },
            Import { routine: Routine::Exit, params: vec![] },
        ]
    );
}

#[test]
fn the_names_of_the_abi() {
    assert_eq!(Routine::Print.name(), "print");
    assert_eq!(Routine::ZeroMem.name(), "zero_mem");
    assert_eq!(Routine::Exit.name(), "exit");
    assert_eq!(lower("").name(), "main");
}

#[test]
fn reading_input_is_unsupported() {
    let elements = parse(lex(",")).unwrap();
    assert_eq!(elements, vec![CodeElement::Read]);
    assert_eq!(codegen(elements), Err(CodegenError::UnsupportedConstruct));
}

#[test]
fn reading_input_inside_a_loop_is_unsupported() {
    assert_eq!(
        codegen(parse(lex("+[>[,]<]")).unwrap()),
        Err(CodegenError::UnsupportedConstruct)
    );
    assert_eq!(
        codegen(parse(lex("+.[-],")).unwrap()),
        Err(CodegenError::UnsupportedConstruct)
    );
}

#[test]
fn a_code_generator_lowers_like_the_function() {
    let elements = parse(lex("+[-]")).unwrap();
    assert_eq!(Codegen::new().codegen(elements), Ok(lower("+[-]")));
}

#[test]
fn compile_goes_through_all_stages() {
    assert_eq!(compile("+[-] done"), Ok(lower("+[-]")));
    assert_eq!(compile(""), Ok(lower("")));
}

#[test]
fn compile_names_the_stage_that_refused() {
    assert_eq!(
        compile("["),
        Err(CompileError::Parse(ParseError::UnmatchedLoopStart))
    );
    assert_eq!(
        compile("]"),
        Err(CompileError::Parse(ParseError::UnmatchedLoopEnd))
    );
    assert_eq!(
        compile(","),
        Err(CompileError::Codegen(CodegenError::UnsupportedConstruct))
    );
}

#[test]
fn compile_asks_the_parser_first() {
    assert_eq!(
        compile(",]"),
        Err(CompileError::Parse(ParseError::UnmatchedLoopEnd))
    );
    assert_eq!(
        compile("[,"),
        Err(CompileError::Parse(ParseError::UnmatchedLoopStart))
    );
}

#[test]
fn deep_nesting_is_lowered_block_by_block() {
    let source = format!("{}-{}", "[".repeat(300), "]".repeat(300));
    let procedure = lower(&source);
    assert_eq!(procedure.blocks.len(), 901);
    assert_eq!(procedure.blocks[1].instrs, test(900, 2));
    assert_eq!(procedure.blocks[599].instrs, test(601, 600));
    assert_eq!(procedure.blocks[898].instrs, vec![Instr::Jump(3)]);
    assert_eq!(count(&procedure, Instr::CallExit), 1);
}
