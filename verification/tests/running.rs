use brain_f_rs::compiler::compile;
use brain_f_rs::compiler::ir::{BlockKind, Instr, Place, Procedure};

/// What a run of a procedure did.
struct Run {
    /// The cells that were printed, in order.
    output: Vec<i32>,
    /// How often each block was entered.
    visits: Vec<usize>,
    /// Whether the run ended in the call that halts the process.
    halted: bool,
    /// The cells at the end.
    cells: Vec<i32>,
}

/// Runs a procedure on a machine whose fresh memory is not zero.
fn run(procedure: &Procedure) -> Run {
    let mut cells: Vec<i32> = Vec::new();
    let mut pointer: i32 = 0x5a5a;
    let mut value: Option<i32> = None;
    let mut address: Option<usize> = None;
    let mut visits = vec![0usize; procedure.blocks.len()];
    let mut output = Vec::new();
    let mut block = 0;
    let mut steps = 0u32;
    loop {
        visits[block] += 1;
        let mut next = None;
        for instr in &procedure.blocks[block].instrs {
            steps += 1;
            assert!(steps < 10_000_000, "the run does not end");
            match *instr {
                Instr::AllocCells(count) => cells = vec![0x7e7e; count as usize],
                Instr::AllocPointer => pointer = 0x5a5a,
                Instr::Const(number) => value = Some(number),
                Instr::Load(Place::Pointer) => value = Some(pointer),
                Instr::Load(Place::Cell) => value = Some(cells[address.unwrap()]),
                Instr::Select => address = Some(value.unwrap() as usize),
                Instr::Add(amount) => value = Some(value.unwrap().wrapping_add(amount)),
                Instr::Store(Place::Pointer) => pointer = value.unwrap(),
                Instr::Store(Place::Cell) => cells[address.unwrap()] = value.unwrap(),
                Instr::CallPrint => output.push(cells[address.unwrap()]),
                Instr::CallZeroMem(bytes) => {
                    for cell in cells.iter_mut().take(bytes as usize / 4) {
                        *cell = 0;
                    }
                }
                Instr::CallExit => {
                    return Run { output, visits, halted: true, cells };
                }
                Instr::Jump(target) => next = Some(target),
                Instr::Branch { zero, nonzero } => {
                    next = Some(if value.unwrap() == 0 { zero } else { nonzero })
                }
                Instr::Return => {
                    return Run { output, visits, halted: false, cells };
                }
            }
        }
        block = next.expect("a block ends without saying where to go on");
    }
}

fn condition_visits(procedure: &Procedure, run: &Run) -> Vec<usize> {
    procedure
        .blocks
        .iter()
        .zip(&run.visits)
        .filter(|(block, _)| block.kind == BlockKind::Condition)
        .map(|(_, visits)| *visits)
        .collect()
}

#[test]
fn clearing_loop_tests_once_more_than_the_cell_holds() {
    for start in 1..=5usize {
        let source = format!("{}[-]", "+".repeat(start));
        let procedure = compile(&source).unwrap();
        let run = run(&procedure);
        assert!(run.halted);
        assert_eq!(condition_visits(&procedure, &run), vec![start + 1]);
        assert_eq!(run.cells[0], 0);
    }
}

#[test]
fn loop_on_a_zero_cell_tests_once_and_skips_the_body() {
    let procedure = compile("[-]").unwrap();
    let run = run(&procedure);
    assert!(run.halted);
    assert_eq!(run.visits, vec![1, 1, 0, 1]);
    assert_eq!(run.cells[0], 0);
}

#[test]
fn memory_is_zeroed_before_the_program_runs() {
    let procedure = compile(".>.").unwrap();
    let run = run(&procedure);
    assert_eq!(run.output, vec![0, 0]);
    assert!(run.cells.iter().all(|cell| *cell == 0));
    assert_eq!(run.cells.len(), 1024);
}

#[test]
fn increments_are_printed() {
    let run = run(&compile("++.").unwrap());
    assert!(run.halted);
    assert_eq!(run.output, vec![2]);
}

#[test]
fn decrement_below_zero_is_signed() {
    let run = run(&compile("-.").unwrap());
    assert_eq!(run.output, vec![-1]);
}

#[test]
fn multiplication_by_nested_counting() {
    let run = run(&compile("++++++++[>++++++++<-]>+.").unwrap());
    assert!(run.halted);
    assert_eq!(run.output, vec![65]);
}

#[test]
fn nested_loops_run_to_the_end() {
    let procedure = compile("++[>+++[>+<-]<-]>>.").unwrap();
    let run = run(&procedure);
    assert!(run.halted);
    assert_eq!(run.output, vec![6]);
    assert_eq!(condition_visits(&procedure, &run), vec![3, 8]);
}

#[test]
fn every_program_without_loops_halts() {
    for source in ["", "+", "><", "+.-.", ">>>+<<<."] {
        let run = run(&compile(source).unwrap());
        assert!(run.halted);
        assert!(run.visits.iter().all(|visits| *visits == 1));
    }
}
