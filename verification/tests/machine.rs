use midifuc::interpreter::{
    find_loop_destinations, interpret, run, Halt, Machine, MachineError, Run,
};
use midifuc::parser::{Instruction, Operation};

fn ins(operation: Operation, repetitions: u32, change_in_value: u32) -> Instruction {
    Instruction { operation, repetitions, change_in_value }
}

fn text(s: &str) -> Vec<char> {
    s.chars().collect()
}

#[test]
fn empty_program_finishes_at_once() {
    assert_eq!(
        interpret(Vec::new(), &Vec::new(), 0),
        Run { output: Vec::new(), halt: Halt::Finished }
    );
}

#[test]
fn loops_are_paired_by_nesting() {
    let program = vec![
        ins(Operation::BeginLoop, 0, 0),
        ins(Operation::BeginLoop, 0, 0),
        ins(Operation::EndLoop, 0, 0),
        ins(Operation::BeginLoop, 0, 0),
        ins(Operation::EndLoop, 0, 0),
        ins(Operation::EndLoop, 0, 0),
        ins(Operation::Output, 0, 0),
    ];
    assert_eq!(find_loop_destinations(&program), Ok(vec![5, 2, 1, 4, 3, 0, 6]));
}

#[test]
fn loop_end_without_begin_is_refused() {
    let program = vec![ins(Operation::Output, 0, 65), ins(Operation::EndLoop, 0, 0)];
    assert_eq!(find_loop_destinations(&program), Err(MachineError::StructuralMismatch));
    assert_eq!(
        interpret(program, &Vec::new(), 100),
        Run { output: Vec::new(), halt: Halt::Failed(MachineError::StructuralMismatch) }
    );
}

#[test]
fn loop_begin_without_end_is_refused() {
    let program = vec![ins(Operation::SpecialInstruction, 0, 65), ins(Operation::BeginLoop, 0, 0)];
    assert_eq!(find_loop_destinations(&program), Err(MachineError::StructuralMismatch));
    assert_eq!(
        interpret(program, &Vec::new(), 100),
        Run { output: Vec::new(), halt: Halt::Failed(MachineError::StructuralMismatch) }
    );
}

#[test]
fn input_without_data_ends_the_run_cleanly() {
    let program = vec![
        ins(Operation::SpecialInstruction, 0, 65),
        ins(Operation::Output, 0, 0),
        ins(Operation::Input, 0, 0),
        ins(Operation::Output, 0, 0),
    ];
    assert_eq!(
        interpret(program, &Vec::new(), 100),
        Run { output: text("A"), halt: Halt::InputExhausted }
    );
    assert_eq!(
        interpret(vec![ins(Operation::Input, 0, 0)], &Vec::new(), 100),
        Run { output: Vec::new(), halt: Halt::InputExhausted }
    );
}

#[test]
fn input_is_read_byte_by_byte() {
    let program = vec![
        ins(Operation::Input, 0, 0),
        ins(Operation::Output, 0, 0),
        ins(Operation::Input, 1, 1),
        ins(Operation::Output, 0, 0),
        ins(Operation::Input, 0, 0),
    ];
    assert_eq!(
        interpret(program, &vec![b'x', b'y', b'a'], 100),
        Run { output: text("xb"), halt: Halt::InputExhausted }
    );
}

#[test]
fn operation_repeats_and_magnitude_applies_once() {
    let program = vec![ins(Operation::SpecialInstruction, 5, 65), ins(Operation::Output, 2, 1)];
    assert_eq!(
        interpret(program, &Vec::new(), 100),
        Run { output: text("AAA"), halt: Halt::Finished }
    );
    let program = vec![
        ins(Operation::MovePointerRight, 2, 66),
        ins(Operation::MovePointerLeft, 1, 67),
        ins(Operation::Output, 0, 0),
        ins(Operation::MovePointerRight, 1, 0),
        ins(Operation::Output, 0, 0),
    ];
    assert_eq!(
        interpret(program, &Vec::new(), 100),
        Run { output: text("CB"), halt: Halt::Finished }
    );
}

#[test]
fn toggle_with_repetitions_flips_each_time() {
    let program = vec![
        ins(Operation::SpecialInstruction, 0, 70),
        ins(Operation::ToggleIncDec, 1, 2),
        ins(Operation::ToggleIncDec, 0, 7),
        ins(Operation::Output, 0, 0),
    ];
    assert_eq!(
        interpret(program, &Vec::new(), 100),
        Run { output: text("A"), halt: Halt::Finished }
    );
}

#[test]
fn loop_on_zero_cell_never_runs_its_body() {
    let program = vec![
        ins(Operation::BeginLoop, 0, 0),
        ins(Operation::SpecialInstruction, 0, 65),
        ins(Operation::Output, 0, 0),
        ins(Operation::EndLoop, 0, 0),
        ins(Operation::SpecialInstruction, 0, 66),
        ins(Operation::Output, 0, 0),
    ];
    assert_eq!(
        interpret(program, &Vec::new(), 100),
        Run { output: text("B"), halt: Halt::Finished }
    );
}

#[test]
fn loop_runs_as_often_as_its_cell_counts() {
    let program = vec![
        ins(Operation::SpecialInstruction, 0, 3),
        ins(Operation::MovePointerRight, 0, 66),
        ins(Operation::MovePointerLeft, 0, 0),
        ins(Operation::ToggleIncDec, 0, 0),
        ins(Operation::BeginLoop, 0, 0),
        ins(Operation::MovePointerRight, 0, 0),
        ins(Operation::Output, 0, 0),
        ins(Operation::MovePointerLeft, 0, 1),
        ins(Operation::EndLoop, 0, 0),
    ];
    assert_eq!(
        interpret(program, &Vec::new(), 1000),
        Run { output: text("BBB"), halt: Halt::Finished }
    );
}

#[test]
fn direction_is_restored_at_each_iteration() {
    let program = vec![
        ins(Operation::SpecialInstruction, 0, 2),
        ins(Operation::ToggleIncDec, 0, 0),
        ins(Operation::BeginLoop, 0, 0),
        ins(Operation::SpecialInstruction, 0, 1),
        ins(Operation::MovePointerRight, 0, 0),
        ins(Operation::ToggleIncDec, 0, 5),
        ins(Operation::MovePointerLeft, 0, 0),
        ins(Operation::EndLoop, 0, 0),
        ins(Operation::MovePointerRight, 0, 55),
        ins(Operation::Output, 0, 0),
    ];
    assert_eq!(
        interpret(program, &Vec::new(), 1000),
        Run { output: text("A"), halt: Halt::Finished }
    );
}

#[test]
fn pointer_may_not_leave_the_tape() {
    assert_eq!(
        interpret(vec![ins(Operation::MovePointerLeft, 0, 0)], &Vec::new(), 10),
        Run { output: Vec::new(), halt: Halt::Failed(MachineError::BoundsViolation) }
    );
    assert_eq!(
        interpret(vec![ins(Operation::MovePointerRight, 65534, 0)], &Vec::new(), 10),
        Run { output: Vec::new(), halt: Halt::Finished }
    );
    let program = vec![
        ins(Operation::SpecialInstruction, 0, 65),
        ins(Operation::Output, 0, 0),
        ins(Operation::MovePointerRight, 65535, 0),
    ];
    assert_eq!(
        interpret(program, &Vec::new(), 10),
        Run { output: text("A"), halt: Halt::Failed(MachineError::BoundsViolation) }
    );
}

#[test]
fn only_scalar_values_can_be_printed() {
    let program = vec![
        ins(Operation::SpecialInstruction, 0, 0x263A),
        ins(Operation::Output, 0, 0),
        ins(Operation::SpecialInstruction, 0, 0xD800 - 0x263A),
        ins(Operation::Output, 0, 0),
    ];
    assert_eq!(
        interpret(program, &Vec::new(), 10),
        Run { output: text("\u{263A}"), halt: Halt::Failed(MachineError::InvalidScalarOutput) }
    );
    let program = vec![ins(Operation::SpecialInstruction, 0, 0x110000), ins(Operation::Output, 0, 0)];
    assert_eq!(
        interpret(program, &Vec::new(), 10),
        Run { output: Vec::new(), halt: Halt::Failed(MachineError::InvalidScalarOutput) }
    );
    let program = vec![ins(Operation::SpecialInstruction, 0, 0x10FFFF), ins(Operation::Output, 0, 0)];
    assert_eq!(
        interpret(program, &Vec::new(), 10),
        Run { output: text("\u{10FFFF}"), halt: Halt::Finished }
    );
}

#[test]
fn cells_wrap_around() {
    let program = vec![
        ins(Operation::ToggleIncDec, 0, 1),
        ins(Operation::ToggleIncDec, 0, 66),
        ins(Operation::Output, 0, 0),
    ];
    assert_eq!(
        interpret(program, &Vec::new(), 10),
        Run { output: text("A"), halt: Halt::Finished }
    );
}

#[test]
fn endless_loop_stops_at_the_step_limit() {
    let program = vec![
        ins(Operation::SpecialInstruction, 0, 65),
        ins(Operation::BeginLoop, 0, 0),
        ins(Operation::Output, 0, 0),
        ins(Operation::EndLoop, 0, 0),
    ];
    assert_eq!(
        interpret(program, &Vec::new(), 6),
        Run { output: text("AA"), halt: Halt::StepLimit }
    );
}

#[test]
fn run_takes_the_pairing_it_is_given() {
    let program = vec![ins(Operation::SpecialInstruction, 0, 72), ins(Operation::Output, 1, 0)];
    assert_eq!(
        run(&program, &vec![0, 1], &Vec::new(), 5),
        Run { output: text("HH"), halt: Halt::Finished }
    );
}

#[test]
fn machine_steps_one_instruction_at_a_time() {
    let program = vec![
        ins(Operation::Input, 1, 1),
        ins(Operation::Output, 0, 0),
        ins(Operation::Input, 0, 0),
    ];
    let loops = find_loop_destinations(&program).unwrap();
    let input = vec![b'a', b'b'];
    let mut machine = Machine::new();
    assert_eq!(machine.instruction_pointer(), 0);
    assert_eq!(machine.consumed(), 0);
    assert_eq!(machine.step(&program, &loops, &input), Ok(Vec::new()));
    assert_eq!(machine.instruction_pointer(), 1);
    assert_eq!(machine.consumed(), 2);
    assert_eq!(machine.step(&program, &loops, &input), Ok(vec!['c']));
    assert_eq!(machine.instruction_pointer(), 2);
    assert_eq!(machine.step(&program, &loops, &input), Err(Halt::InputExhausted));
}
