//! The tape machine: pairing of loop instructions, the effect of one
//! instruction on the machine, and bounded runs of whole programs.

use crate::parser::{Instruction, Operation};
use vstd::prelude::*;

verus! {

/// Number of cells of the tape.
pub const TAPE_CELLS: usize = 65536;

/// Why a program cannot be run, or why a run was broken off.
#[derive(Debug, Clone, Copy, PartialEq, Eq, Structural)]
pub enum MachineError {
    /// A loop end without a loop begin before it, or a loop begin that is never ended.
    StructuralMismatch,
    /// The pointer was moved off the tape.
    BoundsViolation,
    /// The cell to print does not hold a Unicode scalar value.
    InvalidScalarOutput,
}

/// How a run ended.
#[derive(Debug, Clone, Copy, PartialEq, Eq, Structural)]
pub enum Halt {
    /// The instruction pointer went past the last instruction.
    Finished,
    /// An input instruction found no input left.
    InputExhausted,
    /// The allowed number of instructions was executed.
    StepLimit,
    /// The run failed.
    Failed(MachineError),
}

/// What an operation adds to the number of open loops.
pub open spec fn depth_change(operation: Operation) -> int {
    match operation {
        Operation::BeginLoop => 1,
        Operation::EndLoop => -1,
        _ => 0,
    }
}

/// Loops begun and not yet ended within the first `n` instructions.
pub open spec fn depth(program: Seq<Instruction>, n: int) -> int
    decreases n,
{
    if n <= 0 {
        0
    } else {
        depth(program, n - 1) + depth_change(program[n - 1].operation)
    }
}

/// Every loop end has a loop begin before it, and every loop is ended.
pub open spec fn balanced(program: Seq<Instruction>) -> bool {
    &&& forall|n: int| 0 <= n <= program.len() ==> depth(program, n) >= 0
    &&& depth(program, program.len() as int) == 0
}

/// `t` pairs each loop begin of `program` with the loop end that closes it:
/// partners name each other, a begin stands before its end, loops nest, and
/// every other instruction is its own partner.
pub open spec fn is_matching(program: Seq<Instruction>, t: Seq<usize>) -> bool {
    &&& t.len() == program.len()
    &&& forall|i: int| 0 <= i < t.len() ==> #[trigger] t[i] < t.len()
    &&& forall|i: int| 0 <= i < t.len() ==> t[#[trigger] t[i] as int] == i
    &&& forall|i: int|
        0 <= i < t.len() && program[i].operation == Operation::BeginLoop ==> i < #[trigger] t[i]
            && program[t[i] as int].operation == Operation::EndLoop
    &&& forall|i: int|
        0 <= i < t.len() && program[i].operation == Operation::EndLoop ==> #[trigger] t[i] < i
            && program[t[i] as int].operation == Operation::BeginLoop
    &&& forall|i: int|
        0 <= i < t.len() && depth_change(program[i].operation) == 0 ==> #[trigger] t[i] == i
    &&& forall|i: int, j: int|
        0 <= i < j < t.len() && j < #[trigger] t[i] && program[i].operation == Operation::BeginLoop
            ==> #[trigger] t[j] < t[i]
}

/// The pairing of the loops of `program`.
pub open spec fn loop_partners(program: Seq<Instruction>) -> Seq<usize> {
    choose|t: Seq<usize>| is_matching(program, t)
}

/// Of two pairings of one program, neither gives a loop begin a nearer loop
/// end than the other.
proof fn lemma_partner_not_nearer(program: Seq<Instruction>, t: Seq<usize>, u: Seq<usize>, i: int)
    requires
        is_matching(program, t),
        is_matching(program, u),
        0 <= i < program.len(),
        program[i].operation == Operation::BeginLoop,
    ensures
        u[i] <= t[i],
    decreases program.len() - i,
{
    if t[i] < u[i] {
        let e = t[i] as int;
        let b = u[e] as int;
        assert(u[b] == e);
        if b < i {
            assert(u[i] < u[b]);
        } else {
            assert(t[b] < t[i]);
            lemma_partner_not_nearer(program, t, u, b);
        }
    }
}

/// A program has at most one pairing of its loops.
pub proof fn lemma_matching_is_unique(program: Seq<Instruction>, t: Seq<usize>, u: Seq<usize>)
    requires
        is_matching(program, t),
        is_matching(program, u),
    ensures
        t == u,
{
    assert forall|i: int| 0 <= i < t.len() implies t[i] == u[i] by {
        if program[i].operation == Operation::BeginLoop {
            lemma_partner_not_nearer(program, t, u, i);
            lemma_partner_not_nearer(program, u, t, i);
        } else if program[i].operation == Operation::EndLoop {
            let b = t[i] as int;
            assert(t[b] == i);
            lemma_partner_not_nearer(program, t, u, b);
            lemma_partner_not_nearer(program, u, t, b);
            assert(u[u[b] as int] == b);
        }
    }
    assert(t =~= u);
}

/// A pairing of the loops of a program is the pairing of its loops.
pub proof fn lemma_matching_is_loop_partners(program: Seq<Instruction>, t: Seq<usize>)
    requires
        is_matching(program, t),
    ensures
        t == loop_partners(program),
{
    lemma_matching_is_unique(program, t, loop_partners(program));
}

/// Pairs the loop instructions of `program` by scanning it once with a stack
/// of the loops that are open. A program whose loops do not pair up is refused.
pub fn find_loop_destinations(program: &Vec<Instruction>) -> (r: Result<Vec<usize>, MachineError>)
    ensures
        match r {
            Ok(t) => balanced(program@) && is_matching(program@, t@) && t@ == loop_partners(
                program@,
            ),
            Err(e) => e == MachineError::StructuralMismatch && !balanced(program@),
        },
{
    let mut table: Vec<usize> = Vec::new();
    let mut open: Vec<usize> = Vec::new();
    let mut i: usize = 0;
    while i < program.len()
        invariant
            i <= program.len(),
            table.len() == i,
            open.len() == depth(program@, i as int),
            forall|n: int| 0 <= n <= i ==> depth(program@, n) >= 0,
            forall|k: int|
                0 <= k < open.len() ==> #[trigger] open[k] < i && program[open[k] as int].operation
                    == Operation::BeginLoop && table[open[k] as int] == open[k],
            forall|k: int, l: int| 0 <= k < l < open.len() ==> open[k] < open[l],
            forall|j: int| 0 <= j < i ==> #[trigger] table[j] < i,
            forall|j: int| 0 <= j < i ==> table[#[trigger] table[j] as int] == j,
            forall|j: int|
                0 <= j < i && program[j].operation == Operation::BeginLoop ==> j <= #[trigger] table[j]
                    && (table[j] == j ==> exists|k: int| 0 <= k < open.len() && open[k] == j) && (
                table[j] != j ==> program[table[j] as int].operation == Operation::EndLoop),
            forall|j: int|
                0 <= j < i && program[j].operation == Operation::EndLoop ==> #[trigger] table[j] < j
                    && program[table[j] as int].operation == Operation::BeginLoop,
            forall|j: int|
                0 <= j < i && depth_change(program[j].operation) == 0 ==> #[trigger] table[j] == j,
            forall|j: int, k: int|
                0 <= j < i && 0 <= k < open.len() && j < #[trigger] table[j] ==> #[trigger] open[k]
                    < j || open[k] > table[j],
            forall|j: int, l: int|
                0 <= j < l < i && l < #[trigger] table[j] && program[j].operation
                    == Operation::BeginLoop ==> #[trigger] table[l] < table[j],
        decreases program.len() - i,
    {
        let ghost before = table@;
        let ghost stack = open@;
        table.push(i);
        match program[i].operation {
            Operation::BeginLoop => {
                open.push(i);
                proof {
                    assert(open[open.len() - 1] == i);
                    assert forall|j: int|
                        0 <= j < i + 1 && program[j].operation == Operation::BeginLoop
                            && #[trigger] table[j] == j implies exists|k: int|
                        0 <= k < open.len() && open[k] == j by {
                        if j < i {
                            let k = choose|k: int| 0 <= k < stack.len() && stack[k] == j;
                            assert(open[k] == j);
                        }
                    }
                }
            },
            Operation::EndLoop => {
                let begin = match open.pop() {
                    Some(b) => b,
                    None => {
                        proof {
                            assert(depth(program@, i + 1) < 0);
                        }
                        return Err(MachineError::StructuralMismatch);
                    },
                };
                table.set(i, begin);
                table.set(begin, i);
                proof {
                    assert(stack[stack.len() - 1] == begin);
                    assert(before[begin as int] == begin);
                    assert forall|j: int| 0 <= j < i + 1 implies table[#[trigger] table[j] as int]
                        == j by {
                        if j < i && j != begin {
                            assert(before[before[j] as int] == j);
                        }
                    }
                    assert forall|j: int|
                        0 <= j < i + 1 && program[j].operation == Operation::BeginLoop
                            && #[trigger] table[j] == j implies exists|k: int|
                        0 <= k < open.len() && open[k] == j by {
                        let k = choose|k: int| 0 <= k < stack.len() && stack[k] == j;
                        assert(open[k] == j);
                    }
                    assert forall|j: int, l: int|
                        0 <= j < l < i + 1 && l < #[trigger] table[j] && program[j].operation
                            == Operation::BeginLoop implies #[trigger] table[l] < table[j] by {
                        if j != begin && l != begin {
                            assert(before[l] < before[j]);
                        }
                    }
                }
            },
            _ => {},
        }
        i += 1;
    }
    if open.len() > 0 {
        return Err(MachineError::StructuralMismatch);
    }
    proof {
        lemma_matching_is_loop_partners(program@, table@);
    }
    Ok(table)
}

/// The tape machine as a mathematical value.
pub struct MachineState {
    /// The cells of the tape.
    pub memory: Seq<u32>,
    /// The cell the machine points at.
    pub pointer: int,
    /// The instruction to execute next.
    pub ip: int,
    /// Whether magnitudes are added to cells (or subtracted from them).
    pub incrementing: bool,
    /// For each loop that is open, the direction in force when it was entered.
    pub contexts: Seq<bool>,
    /// Number of input bytes read so far.
    pub consumed: int,
}

/// The machine before its first instruction: a tape of zeros, pointing at
/// the first cell, adding.
pub open spec fn initial_machine() -> MachineState {
    MachineState {
        memory: Seq::new(65536, |i: int| 0u32),
        pointer: 0,
        ip: 0,
        incrementing: true,
        contexts: Seq::empty(),
        consumed: 0,
    }
}

/// The machine while it executes one instruction.
pub struct Progress {
    pub state: MachineState,
    /// Where a loop instruction has decided to go on.
    pub jump: Option<int>,
    /// The characters printed by this instruction.
    pub output: Seq<char>,
}

/// The values a cell can print.
pub open spec fn is_scalar_value(v: u32) -> bool {
    v < 0xD800 || 0xE000 <= v <= 0x10FFFF
}

/// `v` brought into the range of a cell.
pub open spec fn wrapped(v: int) -> u32 {
    (v % 0x1_0000_0000) as u32
}

/// One execution of `operation`. `partner` is the index of the instruction
/// paired with the one that executes, `input` all the input there is.
///
/// A move that would take the pointer off the tape fails. A loop begin on a
/// cell that holds zero goes on behind its loop end; on any other cell it
/// saves the direction and lets the body follow. A loop end on a cell that
/// does not hold zero goes back to the first instruction of the body and
/// restores the direction saved last, which stays saved; on zero it drops
/// what was saved last and lets the next instruction follow. Where nothing
/// is saved, the direction stays and nothing is dropped. Output fails on a
/// cell that holds no scalar value; input with no byte left ends the run.
pub open spec fn operate(
    operation: Operation,
    p: Progress,
    partner: int,
    input: Seq<u8>,
) -> Result<Progress, Halt> {
    let s = p.state;
    let cell = s.memory[s.pointer];
    match operation {
        Operation::MovePointerRight => if s.pointer + 1 < 65536 {
            Ok(Progress { state: MachineState { pointer: s.pointer + 1, ..s }, ..p })
        } else {
            Err(Halt::Failed(MachineError::BoundsViolation))
        },
        Operation::MovePointerLeft => if s.pointer > 0 {
            Ok(Progress { state: MachineState { pointer: s.pointer - 1, ..s }, ..p })
        } else {
            Err(Halt::Failed(MachineError::BoundsViolation))
        },
        Operation::ToggleIncDec => Ok(
            Progress { state: MachineState { incrementing: !s.incrementing, ..s }, ..p },
        ),
        Operation::BeginLoop => if cell == 0 {
            Ok(Progress { jump: Some(partner + 1), ..p })
        } else {
            Ok(
                Progress {
                    state: MachineState { contexts: s.contexts.push(s.incrementing), ..s },
                    ..p
                },
            )
        },
        Operation::EndLoop => if cell != 0 {
            Ok(
                Progress {
                    state: MachineState {
                        incrementing: if s.contexts.len() > 0 {
                            s.contexts.last()
                        } else {
                            s.incrementing
                        },
                        ..s
                    },
                    jump: Some(partner + 1),
                    ..p
                },
            )
        } else {
            Ok(
                Progress {
                    state: MachineState {
                        contexts: if s.contexts.len() > 0 {
                            s.contexts.drop_last()
                        } else {
                            s.contexts
                        },
                        ..s
                    },
                    ..p
                },
            )
        },
        Operation::Output => if is_scalar_value(cell) {
            Ok(Progress { output: p.output.push(cell as char), ..p })
        } else {
            Err(Halt::Failed(MachineError::InvalidScalarOutput))
        },
        Operation::Input => if s.consumed < input.len() {
            Ok(
                Progress {
                    state: MachineState {
                        memory: s.memory.update(s.pointer, input[s.consumed] as u32),
                        consumed: s.consumed + 1,
                        ..s
                    },
                    ..p
                },
            )
        } else {
            Err(Halt::InputExhausted)
        },
        Operation::SpecialInstruction => Ok(p),
    }
}

/// `n` executions of `operation` in a row; the first that fails ends them.
pub open spec fn operate_times(
    operation: Operation,
    p: Progress,
    partner: int,
    input: Seq<u8>,
    n: nat,
) -> Result<Progress, Halt>
    decreases n,
{
    if n == 0 {
        Ok(p)
    } else {
        match operate_times(operation, p, partner, input, (n - 1) as nat) {
            Ok(q) => operate(operation, q, partner, input),
            Err(e) => Err(e),
        }
    }
}

/// The machine after an instruction's executions: the magnitude is added to
/// the cell at the pointer, or subtracted from it, modulo 2^32, and the
/// instruction pointer goes where a loop instruction decided, else to the
/// next instruction.
pub open spec fn settle(p: Progress, magnitude: u32) -> MachineState {
    let s = p.state;
    let cell = s.memory[s.pointer];
    MachineState {
        memory: s.memory.update(
            s.pointer,
            if s.incrementing {
                wrapped(cell + magnitude)
            } else {
                wrapped(cell - magnitude)
            },
        ),
        ip: match p.jump {
            Some(target) => target,
            None => s.ip + 1,
        },
        ..s
    }
}

/// The effect of one instruction: its operation is executed once more than
/// it has repetitions, then its magnitude is applied once.
pub open spec fn execute(
    s: MachineState,
    instruction: Instruction,
    partner: int,
    input: Seq<u8>,
) -> Result<(MachineState, Seq<char>), Halt> {
    match operate_times(
        instruction.operation,
        Progress { state: s, jump: None, output: Seq::empty() },
        partner,
        input,
        (instruction.repetitions + 1) as nat,
    ) {
        Ok(p) => Ok((settle(p, instruction.change_in_value), p.output)),
        Err(e) => Err(e),
    }
}

/// Once an execution has failed, further repetitions change nothing.
pub proof fn lemma_failure_is_final(
    operation: Operation,
    p: Progress,
    partner: int,
    input: Seq<u8>,
    k: nat,
    n: nat,
)
    requires
        k <= n,
        operate_times(operation, p, partner, input, k).is_err(),
    ensures
        operate_times(operation, p, partner, input, n) == operate_times(
            operation,
            p,
            partner,
            input,
            k,
        ),
    decreases n,
{
    if k < n {
        lemma_failure_is_final(operation, p, partner, input, k, (n - 1) as nat);
    }
}

/// Gives the character with scalar value `v` by `char::from_u32` of the
/// standard library, which answers `None` exactly for the values that are no
/// Unicode scalar values: the surrogates and what lies above 0x10FFFF.
#[verifier::external_body]
fn scalar_to_char(v: u32) -> (r: Option<char>)
    ensures
        r.is_some() == is_scalar_value(v),
        r.is_some() ==> r.unwrap() == v as char,
{
    char::from_u32(v)
}

/// A tape machine.
pub struct Machine {
    memory: Vec<u32>,
    pointer: usize,
    ip: usize,
    incrementing: bool,
    contexts: Vec<bool>,
    consumed: usize,
    jump: Option<usize>,
}

impl Machine {
    /// The tape has all its cells and the pointer is on it.
    pub closed spec fn wf(&self) -> bool {
        self.memory.len() == 65536 && self.pointer < 65536
    }

    /// The machine between two instructions.
    pub closed spec fn view(&self) -> MachineState {
        MachineState {
            memory: self.memory@,
            pointer: self.pointer as int,
            ip: self.ip as int,
            incrementing: self.incrementing,
            contexts: self.contexts@,
            consumed: self.consumed as int,
        }
    }

    /// A machine before its first instruction.
    pub fn new() -> (m: Machine)
        ensures
            m.wf(),
            m@ == initial_machine(),
    {
        let mut memory: Vec<u32> = Vec::new();
        let mut i: usize = 0;
        while i < TAPE_CELLS
            invariant
                i <= 65536,
                memory.len() == i,
                forall|j: int| 0 <= j < i ==> memory[j] == 0,
            decreases 65536 - i,
        {
            memory.push(0);
            i += 1;
        }
        let m = Machine {
            memory,
            pointer: 0,
            ip: 0,
            incrementing: true,
            contexts: Vec::new(),
            consumed: 0,
            jump: None,
        };
        proof {
            assert(m@.memory =~= initial_machine().memory);
        }
        m
    }

    /// The index of the instruction to execute next.
    pub fn instruction_pointer(&self) -> (ip: usize)
        ensures
            ip == self@.ip,
    {
        self.ip
    }

    /// Number of input bytes read so far.
    pub fn consumed(&self) -> (n: usize)
        ensures
            n == self@.consumed,
    {
        self.consumed
    }

    /// Executes `operation` once.
    fn operate(
        &mut self,
        operation: Operation,
        partner: usize,
        input: &Vec<u8>,
        output: &mut Vec<char>,
    ) -> (r: Result<(), Halt>)
        requires
            old(self).wf(),
            partner < usize::MAX,
            old(self).consumed <= input.len(),
        ensures
            final(self).wf(),
            final(self).consumed <= input.len(),
            match operate(operation, old(self).progress(old(output)@), partner as int, input@) {
                Ok(p) => r.is_ok() && final(self).progress(final(output)@) == p,
                Err(e) => r == Err::<(), Halt>(e),
            },
    {
        let cell = self.memory[self.pointer];
        match operation {
            Operation::MovePointerRight => {
                if self.pointer + 1 < TAPE_CELLS {
                    self.pointer = self.pointer + 1;
                } else {
                    return Err(Halt::Failed(MachineError::BoundsViolation));
                }
            },
            Operation::MovePointerLeft => {
                if self.pointer > 0 {
                    self.pointer = self.pointer - 1;
                } else {
                    return Err(Halt::Failed(MachineError::BoundsViolation));
                }
            },
            Operation::ToggleIncDec => {
                self.incrementing = !self.incrementing;
            },
            Operation::BeginLoop => {
                if cell == 0 {
                    self.jump = Some(partner + 1);
                } else {
                    self.contexts.push(self.incrementing);
                }
            },
            Operation::EndLoop => {
                if cell != 0 {
                    self.jump = Some(partner + 1);
                    if self.contexts.len() > 0 {
                        self.incrementing = self.contexts[self.contexts.len() - 1];
                    }
                } else {
                    self.contexts.pop();
                    proof {
                        if old(self).contexts.len() > 0 {
                            assert(self.contexts@ =~= old(self).contexts@.drop_last());
                        }
                    }
                }
            },
            Operation::Output => {
                match scalar_to_char(cell) {
                    Some(c) => {
                        output.push(c);
                    },
                    None => {
                        return Err(Halt::Failed(MachineError::InvalidScalarOutput));
                    },
                }
            },
            Operation::Input => {
                if self.consumed < input.len() {
                    self.memory.set(self.pointer, input[self.consumed] as u32);
                    self.consumed = self.consumed + 1;
                } else {
                    return Err(Halt::InputExhausted);
                }
            },
            Operation::SpecialInstruction => {},
        }
        Ok(())
    }

    /// The machine within an instruction that has printed `output`.
    pub closed spec fn progress(&self, output: Seq<char>) -> Progress {
        Progress {
            state: self@,
            jump: match self.jump {
                Some(t) => Some(t as int),
                None => None,
            },
            output,
        }
    }

    /// Executes the instruction at the instruction pointer and answers what it
    /// printed. `loops` names the partner of each loop instruction, `input` is
    /// all the input there is, read or not. Where the instruction fails, or
    /// finds no input, the run is over and the machine is of no further use.
    pub fn step(&mut self, program: &Vec<Instruction>, loops: &Vec<usize>, input: &Vec<u8>) -> (r:
        Result<Vec<char>, Halt>)
        requires
            old(self).wf(),
            old(self)@.ip < program.len(),
            loops.len() == program.len(),
            loops[old(self)@.ip] < program.len(),
            old(self)@.consumed <= input.len(),
        ensures
            final(self).wf(),
            match execute(
                old(self)@,
                program[old(self)@.ip],
                loops[old(self)@.ip] as int,
                input@,
            ) {
                Ok((s, printed)) => r.is_ok() && r.unwrap()@ == printed && final(self)@ == s
                    && s.consumed <= input.len(),
                Err(e) => r == Err::<Vec<char>, Halt>(e),
            },
    {
        let instruction = program[self.ip];
        let partner = loops[self.ip];
        let times: u64 = instruction.repetitions as u64 + 1;
        let mut output: Vec<char> = Vec::new();
        self.jump = None;
        let ghost start = self.progress(output@);
        proof {
            assert(output@ =~= Seq::<char>::empty());
            assert(start == Progress { state: old(self)@, jump: None, output: Seq::empty() });
        }
        let mut k: u64 = 0;
        while k < times
            invariant
                k <= times,
                times == instruction.repetitions + 1,
                self.wf(),
                self.consumed <= input.len(),
                partner < usize::MAX,
                self.ip == old(self).ip,
                old(self)@.ip < program.len() == loops.len(),
                instruction == program[old(self)@.ip],
                partner == loops[old(self)@.ip],
                start == (Progress { state: old(self)@, jump: None, output: Seq::empty() }),
                operate_times(instruction.operation, start, partner as int, input@, k as nat) == Ok::<
                    Progress,
                    Halt,
                >(self.progress(output@)),
            decreases times - k,
        {
            let ghost before = self.progress(output@);
            match self.operate(instruction.operation, partner, input, &mut output) {
                Ok(()) => {},
                Err(e) => {
                    proof {
                        assert(operate(instruction.operation, before, partner as int, input@)
                            == Err::<Progress, Halt>(e));
                        assert(operate_times(
                            instruction.operation,
                            start,
                            partner as int,
                            input@,
                            (k + 1) as nat,
                        ) == Err::<Progress, Halt>(e));
                        lemma_failure_is_final(
                            instruction.operation,
                            start,
                            partner as int,
                            input@,
                            (k + 1) as nat,
                            times as nat,
                        );
                    }
                    return Err(e);
                },
            }
            k += 1;
        }
        let cell = self.memory[self.pointer];
        let changed = if self.incrementing {
            cell.wrapping_add(instruction.change_in_value)
        } else {
            cell.wrapping_sub(instruction.change_in_value)
        };
        self.memory.set(self.pointer, changed);
        self.ip = match self.jump {
            Some(target) => target,
            None => self.ip + 1,
        };
        Ok(output)
    }
}

/// What a run printed and how it ended.
#[derive(Debug, PartialEq, Eq)]
pub struct Run {
    pub output: Vec<char>,
    pub halt: Halt,
}

/// `loops` names an instruction of `program` for each of its instructions.
pub open spec fn partners_in_range(program: Seq<Instruction>, loops: Seq<usize>) -> bool {
    &&& loops.len() == program.len()
    &&& forall|i: int| 0 <= i < loops.len() ==> #[trigger] loops[i] < loops.len()
}

/// What a run from state `s` prints and how it ends, where at most `fuel`
/// instructions are executed.
pub open spec fn run_from(
    program: Seq<Instruction>,
    loops: Seq<usize>,
    s: MachineState,
    input: Seq<u8>,
    fuel: nat,
) -> (Seq<char>, Halt)
    decreases fuel,
{
    if s.ip >= program.len() {
        (Seq::empty(), Halt::Finished)
    } else if fuel == 0 {
        (Seq::empty(), Halt::StepLimit)
    } else {
        match execute(s, program[s.ip], loops[s.ip] as int, input) {
            Err(halt) => (Seq::empty(), halt),
            Ok((t, printed)) => {
                let rest = run_from(program, loops, t, input, (fuel - 1) as nat);
                (printed + rest.0, rest.1)
            },
        }
    }
}

/// Runs `program` on a fresh machine until it ends, fails, finds no input
/// left, or has executed `max_steps` instructions.
pub fn run(program: &Vec<Instruction>, loops: &Vec<usize>, input: &Vec<u8>, max_steps: u64) -> (r:
    Run)
    requires
        partners_in_range(program@, loops@),
    ensures
        (r.output@, r.halt) == run_from(
            program@,
            loops@,
            initial_machine(),
            input@,
            max_steps as nat,
        ),
{
    let mut machine = Machine::new();
    let mut output: Vec<char> = Vec::new();
    let mut left: u64 = max_steps;
    let ghost whole = run_from(program@, loops@, initial_machine(), input@, max_steps as nat);
    proof {
        assert(output@ + whole.0 =~= whole.0);
    }
    while machine.instruction_pointer() < program.len() && left > 0
        invariant
            machine.wf(),
            machine@.consumed <= input.len(),
            partners_in_range(program@, loops@),
            whole == run_from(program@, loops@, initial_machine(), input@, max_steps as nat),
            whole.0 == output@ + run_from(program@, loops@, machine@, input@, left as nat).0,
            whole.1 == run_from(program@, loops@, machine@, input@, left as nat).1,
        decreases left,
    {
        let ghost before = machine@;
        let ghost printed_before = output@;
        match machine.step(program, loops, input) {
            Ok(printed) => {
                let mut printed = printed;
                let ghost fresh = printed@;
                output.append(&mut printed);
                left = left - 1;
                proof {
                    let rest = run_from(program@, loops@, machine@, input@, left as nat);
                    assert(printed_before + (fresh + rest.0) =~= output@ + rest.0);
                }
            },
            Err(halt) => {
                proof {
                    assert(run_from(program@, loops@, before, input@, left as nat) == (
                        Seq::<char>::empty(),
                        halt,
                    ));
                    assert(printed_before + Seq::<char>::empty() =~= printed_before);
                    assert(whole == (output@, halt));
                }
                return Run { output, halt };
            },
        }
    }
    proof {
        assert(output@ + Seq::<char>::empty() =~= output@);
        assert(whole.0 == output@);
    }
    let halt = if machine.instruction_pointer() >= program.len() {
        Halt::Finished
    } else {
        Halt::StepLimit
    };
    Run { output, halt }
}

/// Pairs the loops of `program` and runs it on a fresh machine. A program
/// whose loops do not pair up is refused before anything is executed.
pub fn interpret(program: Vec<Instruction>, input: &Vec<u8>, max_steps: u64) -> (r: Run)
    ensures
        !balanced(program@) ==> r.halt == Halt::Failed(MachineError::StructuralMismatch)
            && r.output@.len() == 0,
        balanced(program@) ==> (r.output@, r.halt) == run_from(
            program@,
            loop_partners(program@),
            initial_machine(),
            input@,
            max_steps as nat,
        ),
{
    match find_loop_destinations(&program) {
        Ok(loops) => run(&program, &loops, input, max_steps),
        Err(e) => Run { output: Vec::new(), halt: Halt::Failed(e) },
    }
}

/// The machine in state `s` at the start of an instruction.
pub open spec fn at_start(s: MachineState) -> Progress {
    Progress { state: s, jump: None, output: Seq::empty() }
}

/// One repetition more means one execution more of the operation, and still
/// one application of the magnitude: an instruction with `r + 1` repetitions
/// does what the `r + 1` executions of one with `r` repetitions do, then
/// executes the operation once more, then applies the magnitude once.
pub proof fn lemma_one_more_repetition(
    s: MachineState,
    operation: Operation,
    r: u32,
    magnitude: u32,
    partner: int,
    input: Seq<u8>,
)
    requires
        r < u32::MAX,
    ensures
        execute(
            s,
            Instruction { operation, repetitions: (r + 1) as u32, change_in_value: magnitude },
            partner,
            input,
        ) == match operate_times(operation, at_start(s), partner, input, (r + 1) as nat) {
            Ok(p) => match operate(operation, p, partner, input) {
                Ok(q) => Ok::<(MachineState, Seq<char>), Halt>((settle(q, magnitude), q.output)),
                Err(e) => Err(e),
            },
            Err(e) => Err(e),
        },
{
    assert(operate_times(operation, at_start(s), partner, input, (r + 2) as nat)
        == match operate_times(operation, at_start(s), partner, input, (r + 1) as nat) {
        Ok(q) => operate(operation, q, partner, input),
        Err(e) => Err(e),
    });
}

/// `n` moves to the right that stay on the tape advance the pointer by `n`
/// and change nothing else.
pub proof fn lemma_moves_right(p: Progress, partner: int, input: Seq<u8>, n: nat)
    requires
        p.state.pointer + n < 65536,
    ensures
        operate_times(Operation::MovePointerRight, p, partner, input, n) == Ok::<Progress, Halt>(
            Progress { state: MachineState { pointer: p.state.pointer + n, ..p.state }, ..p },
        ),
    decreases n,
{
    if n > 0 {
        lemma_moves_right(p, partner, input, (n - 1) as nat);
    }
}

/// A move to the right with `repetitions` repetitions advances the pointer by
/// `repetitions + 1`, and its magnitude changes the cell arrived at once.
pub proof fn lemma_repeated_move_right(
    s: MachineState,
    repetitions: u32,
    magnitude: u32,
    partner: int,
    input: Seq<u8>,
)
    requires
        s.pointer + repetitions + 1 < 65536,
    ensures
        execute(
            s,
            Instruction {
                operation: Operation::MovePointerRight,
                repetitions,
                change_in_value: magnitude,
            },
            partner,
            input,
        ) == Ok::<(MachineState, Seq<char>), Halt>(
            (
                settle(
                    at_start(MachineState { pointer: s.pointer + repetitions + 1, ..s }),
                    magnitude,
                ),
                Seq::empty(),
            ),
        ),
{
    lemma_moves_right(at_start(s), partner, input, (repetitions + 1) as nat);
}

/// On a cell that holds zero, any number of executions of a loop begin
/// decide for the instruction after the loop end and change nothing else.
pub proof fn lemma_begin_on_zero(p: Progress, partner: int, input: Seq<u8>, n: nat)
    requires
        p.state.memory[p.state.pointer] == 0,
        n > 0,
    ensures
        operate_times(Operation::BeginLoop, p, partner, input, n) == Ok::<Progress, Halt>(
            Progress { jump: Some(partner + 1), ..p },
        ),
    decreases n,
{
    if n > 1 {
        lemma_begin_on_zero(p, partner, input, (n - 1) as nat);
    } else {
        assert(operate_times(Operation::BeginLoop, p, partner, input, 0) == Ok::<Progress, Halt>(p));
    }
}

/// A loop met on a cell that holds zero is not entered: the machine goes on
/// behind the loop end, and no loop context is opened.
pub proof fn lemma_loop_on_zero_is_skipped(
    s: MachineState,
    repetitions: u32,
    magnitude: u32,
    partner: int,
    input: Seq<u8>,
)
    requires
        s.memory[s.pointer] == 0,
    ensures
        execute(
            s,
            Instruction { operation: Operation::BeginLoop, repetitions, change_in_value: magnitude },
            partner,
            input,
        ) == Ok::<(MachineState, Seq<char>), Halt>(
            (
                settle(Progress { state: s, jump: Some(partner + 1), output: Seq::empty() }, magnitude),
                Seq::empty(),
            ),
        ),
        settle(
            Progress { state: s, jump: Some(partner + 1), output: Seq::empty() },
            magnitude,
        ).ip == partner + 1,
        settle(
            Progress { state: s, jump: Some(partner + 1), output: Seq::empty() },
            magnitude,
        ).contexts == s.contexts,
{
    lemma_begin_on_zero(at_start(s), partner, input, (repetitions + 1) as nat);
}

/// Executions of an operation that neither flips the direction nor ends a
/// loop leave the direction as it is.
pub proof fn lemma_direction_kept(
    operation: Operation,
    p: Progress,
    partner: int,
    input: Seq<u8>,
    n: nat,
)
    requires
        operation != Operation::ToggleIncDec,
        operation != Operation::EndLoop,
    ensures
        match operate_times(operation, p, partner, input, n) {
            Ok(q) => q.state.incrementing == p.state.incrementing,
            Err(_) => true,
        },
    decreases n,
{
    if n > 0 {
        lemma_direction_kept(operation, p, partner, input, (n - 1) as nat);
    }
}

/// The direction set by a flip stays in force through every instruction that
/// is no flip and no loop end.
pub proof fn lemma_direction_persists(
    s: MachineState,
    instruction: Instruction,
    partner: int,
    input: Seq<u8>,
)
    requires
        instruction.operation != Operation::ToggleIncDec,
        instruction.operation != Operation::EndLoop,
    ensures
        match execute(s, instruction, partner, input) {
            Ok((t, _)) => t.incrementing == s.incrementing,
            Err(_) => true,
        },
{
    lemma_direction_kept(
        instruction.operation,
        at_start(s),
        partner,
        input,
        (instruction.repetitions + 1) as nat,
    );
}

/// A flip without repetitions reverses the direction, and its own magnitude
/// is already applied in the new direction.
pub proof fn lemma_toggle_flips(s: MachineState, magnitude: u32, partner: int, input: Seq<u8>)
    ensures
        execute(
            s,
            Instruction {
                operation: Operation::ToggleIncDec,
                repetitions: 0,
                change_in_value: magnitude,
            },
            partner,
            input,
        ) == Ok::<(MachineState, Seq<char>), Halt>(
            (
                settle(at_start(MachineState { incrementing: !s.incrementing, ..s }), magnitude),
                Seq::empty(),
            ),
        ),
{
    reveal_with_fuel(operate_times, 2);
}

/// Entering a loop saves the direction in force, and each return from the
/// loop end to the loop body restores the direction saved last and keeps it
/// saved; leaving the loop drops it.
pub proof fn lemma_loop_context(s: MachineState, magnitude: u32, partner: int, input: Seq<u8>)
    ensures
        s.memory[s.pointer] != 0 ==> execute(
            s,
            Instruction {
                operation: Operation::BeginLoop,
                repetitions: 0,
                change_in_value: magnitude,
            },
            partner,
            input,
        ) == Ok::<(MachineState, Seq<char>), Halt>(
            (
                settle(
                    at_start(MachineState { contexts: s.contexts.push(s.incrementing), ..s }),
                    magnitude,
                ),
                Seq::empty(),
            ),
        ),
        s.memory[s.pointer] != 0 && s.contexts.len() > 0 ==> execute(
            s,
            Instruction { operation: Operation::EndLoop, repetitions: 0, change_in_value: magnitude },
            partner,
            input,
        ) == Ok::<(MachineState, Seq<char>), Halt>(
            (
                settle(
                    Progress {
                        state: MachineState { incrementing: s.contexts.last(), ..s },
                        jump: Some(partner + 1),
                        output: Seq::empty(),
                    },
                    magnitude,
                ),
                Seq::empty(),
            ),
        ),
        s.memory[s.pointer] == 0 && s.contexts.len() > 0 ==> execute(
            s,
            Instruction { operation: Operation::EndLoop, repetitions: 0, change_in_value: magnitude },
            partner,
            input,
        ) == Ok::<(MachineState, Seq<char>), Halt>(
            (
                settle(at_start(MachineState { contexts: s.contexts.drop_last(), ..s }), magnitude),
                Seq::empty(),
            ),
        ),
{
    reveal_with_fuel(operate_times, 2);
}

/// An instruction that prints nothing takes one step of a run.
pub proof fn lemma_silent_step(
    program: Seq<Instruction>,
    loops: Seq<usize>,
    s: MachineState,
    input: Seq<u8>,
    fuel: nat,
    t: MachineState,
)
    requires
        0 <= s.ip < program.len(),
        fuel > 0,
        execute(s, program[s.ip], loops[s.ip] as int, input) == Ok::<
            (MachineState, Seq<char>),
            Halt,
        >((t, Seq::empty())),
    ensures
        run_from(program, loops, s, input, fuel) == run_from(
            program,
            loops,
            t,
            input,
            (fuel - 1) as nat,
        ),
{
    let rest = run_from(program, loops, t, input, (fuel - 1) as nat);
    assert(Seq::<char>::empty() + rest.0 =~= rest.0);
}

/// At `b` stands a loop whose body is the one instruction that changes the
/// cell by one.
pub open spec fn counting_loop_at(program: Seq<Instruction>, loops: Seq<usize>, b: int) -> bool {
    &&& 0 <= b
    &&& b + 2 < program.len()
    &&& loops.len() == program.len()
    &&& program[b] == (Instruction {
        operation: Operation::BeginLoop,
        repetitions: 0,
        change_in_value: 0,
    })
    &&& program[b + 1] == (Instruction {
        operation: Operation::SpecialInstruction,
        repetitions: 0,
        change_in_value: 1,
    })
    &&& program[b + 2] == (Instruction {
        operation: Operation::EndLoop,
        repetitions: 0,
        change_in_value: 0,
    })
    &&& loops[b] == b + 2
    &&& loops[b + 2] == b
}

/// Inside a counting loop, with the machine subtracting and the cell at
/// `n >= 1`, the run goes through body and loop end `n` times each and then
/// stands behind the loop with the cell at zero and the loop's context dropped.
pub proof fn lemma_counting_loop_body(
    program: Seq<Instruction>,
    loops: Seq<usize>,
    b: int,
    s: MachineState,
    input: Seq<u8>,
    fuel: nat,
)
    requires
        counting_loop_at(program, loops, b),
        s.ip == b + 1,
        s.memory.len() == 65536,
        0 <= s.pointer < 65536,
        s.memory[s.pointer] >= 1,
        !s.incrementing,
        s.contexts.len() > 0,
        !s.contexts.last(),
        fuel >= 2 * s.memory[s.pointer],
    ensures
        run_from(program, loops, s, input, fuel) == run_from(
            program,
            loops,
            MachineState {
                memory: s.memory.update(s.pointer, 0),
                ip: b + 3,
                contexts: s.contexts.drop_last(),
                ..s
            },
            input,
            (fuel - 2 * s.memory[s.pointer]) as nat,
        ),
    decreases s.memory[s.pointer],
{
    reveal_with_fuel(operate_times, 2);
    let n = s.memory[s.pointer];
    let lowered = s.memory.update(s.pointer, (n - 1) as u32);
    let t = MachineState { memory: lowered, ip: b + 2, ..s };
    assert(settle(at_start(s), 1).memory =~= lowered);
    lemma_silent_step(program, loops, s, input, fuel, t);
    if n == 1 {
        let u = MachineState { contexts: s.contexts.drop_last(), ip: b + 3, ..t };
        assert(settle(at_start(MachineState { contexts: s.contexts.drop_last(), ..t }), 0).memory
            =~= lowered);
        lemma_silent_step(program, loops, t, input, (fuel - 1) as nat, u);
        assert(lowered =~= s.memory.update(s.pointer, 0));
    } else {
        let u = MachineState { ip: b + 1, ..t };
        assert(settle(
            Progress { state: t, jump: Some(b + 1), output: Seq::empty() },
            0,
        ).memory =~= lowered);
        lemma_silent_step(program, loops, t, input, (fuel - 1) as nat, u);
        lemma_counting_loop_body(program, loops, b, u, input, (fuel - 2) as nat);
        assert(lowered.update(s.pointer, 0) =~= s.memory.update(s.pointer, 0));
    }
}

/// A counting loop met with the machine subtracting and the cell at `n`
/// executes its body exactly `n` times: after the loop begin, `n` bodies and
/// `n` loop ends the run stands behind the loop, the cell at zero and
/// everything else as before. With `n` zero the body is not executed at all.
pub proof fn lemma_counting_loop_runs_n_times(
    program: Seq<Instruction>,
    loops: Seq<usize>,
    b: int,
    s: MachineState,
    input: Seq<u8>,
    fuel: nat,
)
    requires
        counting_loop_at(program, loops, b),
        s.ip == b,
        s.memory.len() == 65536,
        0 <= s.pointer < 65536,
        !s.incrementing,
        fuel >= 2 * s.memory[s.pointer] + 1,
    ensures
        run_from(program, loops, s, input, fuel) == run_from(
            program,
            loops,
            MachineState { memory: s.memory.update(s.pointer, 0), ip: b + 3, ..s },
            input,
            (fuel - 2 * s.memory[s.pointer] - 1) as nat,
        ),
{
    reveal_with_fuel(operate_times, 2);
    let n = s.memory[s.pointer];
    if n == 0 {
        let t = MachineState { ip: b + 3, ..s };
        assert(settle(
            Progress { state: s, jump: Some(b + 3), output: Seq::empty() },
            0,
        ).memory =~= s.memory);
        lemma_silent_step(program, loops, s, input, fuel, t);
        assert(s.memory.update(s.pointer, 0) =~= s.memory);
    } else {
        let entered = MachineState { contexts: s.contexts.push(s.incrementing), ..s };
        let t = MachineState { ip: b + 1, ..entered };
        assert(settle(at_start(entered), 0).memory =~= s.memory);
        lemma_silent_step(program, loops, s, input, fuel, t);
        lemma_counting_loop_body(program, loops, b, t, input, (fuel - 1) as nat);
        assert(t.contexts.drop_last() =~= s.contexts);
    }
}

} // verus!
