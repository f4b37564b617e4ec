//! Day 8: a boot code that loops, and the one instruction to change.

use crate::text::{chars_of, parse_signed_chars, signed_value, spells, split, split_chars, views};
use vstd::prelude::*;
use vstd::seq_lib::seq_to_set_is_finite;
use vstd::set_lib::{lemma_int_range, lemma_len_subset, set_int_range};

verus! {

/// What a tick of the program came to.
#[derive(Debug, Clone, Copy, PartialEq, Eq, Structural)]
pub enum ExecutionStatus {
    /// An instruction was executed.
    OK,
    /// The next instruction was executed before.
    BOOTLOOP,
    /// The next instruction lies beyond the end of the code.
    TERMINATED,
}

/// An instruction of the boot code, with its argument.
#[derive(Debug, Clone, Copy, PartialEq, Eq, Structural)]
pub enum Instruction {
    /// Does nothing.
    NOP(i64),
    /// Adds its argument to the accumulator.
    ACC(i64),
    /// Jumps by its argument.
    JMP(i64),
}

/// Why a line is no instruction, or an instruction cannot be changed.
#[derive(Debug, Clone, Copy, PartialEq, Eq, Structural)]
pub enum CodeError {
    /// The operation is none of `nop`, `acc`, `jmp`.
    UnknownInstruction,
    /// An `acc` cannot be flipped.
    CannotFlipAcc,
}

/// The argument that a line spells in its second word.
pub open spec fn argument_of(line: Seq<char>) -> Option<int> {
    if split(line, ' ').len() >= 2 {
        signed_value(split(line, ' ')[1], i64::MIN as int, i64::MAX as int)
    } else {
        None
    }
}

/// The instruction that a line spells, if its first word is an operation.
pub open spec fn instruction_of(line: Seq<char>) -> Option<Instruction> {
    let word = split(line, ' ')[0];
    let value = argument_of(line).unwrap() as i64;
    if word == seq!['n', 'o', 'p'] {
        Some(Instruction::NOP(value))
    } else if word == seq!['a', 'c', 'c'] {
        Some(Instruction::ACC(value))
    } else if word == seq!['j', 'm', 'p'] {
        Some(Instruction::JMP(value))
    } else {
        None
    }
}

impl Instruction {
    /// The instruction that `s` spells: an operation, a blank, and a number.
    pub fn from_str(s: &str) -> (parsed: Result<Instruction, CodeError>)
        requires
            argument_of(s@) is Some,
        ensures
            match parsed {
                Ok(instruction) => instruction_of(s@) == Some(instruction),
                Err(e) => instruction_of(s@) is None && e == CodeError::UnknownInstruction,
            },
    {
        let chars = chars_of(s);
        let chunks = split_chars(&chars, ' ');
        assert(chunks.len() == views(chunks@).len());
        assert(chunks[0]@ == split(s@, ' ')[0]);
        assert(chunks[1]@ == split(s@, ' ')[1]);
        let val: i64 = match parse_signed_chars(&chunks[1], i64::MIN, i64::MAX) {
            Some(v) => v,
            None => 0,
        };
        proof {
            reveal_strlit("nop");
            reveal_strlit("acc");
            reveal_strlit("jmp");
            assert("nop"@ =~= seq!['n', 'o', 'p']);
            assert("acc"@ =~= seq!['a', 'c', 'c']);
            assert("jmp"@ =~= seq!['j', 'm', 'p']);
        }
        if spells(&chunks[0], "nop") {
            Ok(Instruction::NOP(val))
        } else if spells(&chunks[0], "acc") {
            Ok(Instruction::ACC(val))
        } else if spells(&chunks[0], "jmp") {
            Ok(Instruction::JMP(val))
        } else {
            Err(CodeError::UnknownInstruction)
        }
    }

    /// The instruction with `nop` and `jmp` exchanged.
    pub open spec fn flipped(self) -> Instruction {
        match self {
            Instruction::NOP(v) => Instruction::JMP(v),
            Instruction::JMP(v) => Instruction::NOP(v),
            Instruction::ACC(v) => Instruction::ACC(v),
        }
    }
}

/// The state of a running program.
pub struct Machine {
    /// The accumulator.
    pub accumulator: int,
    /// The place of the next instruction.
    pub next: int,
    /// The places of the instructions executed, in order.
    pub executed: Seq<int>,
}

/// Where a jump by `value` from `next` leads; a place that no machine
/// word holds stands for the greatest one, which is beyond any code.
pub open spec fn jump(next: int, value: int) -> int {
    if 0 <= next + value <= usize::MAX {
        next + value
    } else {
        usize::MAX as int
    }
}

/// What the next tick comes to.
pub open spec fn status_of(code: Seq<Instruction>, m: Machine) -> ExecutionStatus {
    if m.executed.contains(m.next) {
        ExecutionStatus::BOOTLOOP
    } else if m.next >= code.len() {
        ExecutionStatus::TERMINATED
    } else {
        ExecutionStatus::OK
    }
}

/// The state after the next instruction is executed.
pub open spec fn step_of(code: Seq<Instruction>, m: Machine) -> Machine {
    match code[m.next] {
        Instruction::NOP(_) => Machine {
            accumulator: m.accumulator,
            next: m.next + 1,
            executed: m.executed.push(m.next),
        },
        Instruction::JMP(value) => Machine {
            accumulator: m.accumulator,
            next: jump(m.next, value as int),
            executed: m.executed.push(m.next),
        },
        Instruction::ACC(value) => Machine {
            accumulator: m.accumulator + value,
            next: m.next + 1,
            executed: m.executed.push(m.next),
        },
    }
}

/// The state after `k` instructions are executed.
pub open spec fn run_of(code: Seq<Instruction>, m: Machine, k: nat) -> Machine
    decreases k,
{
    if k == 0 {
        m
    } else {
        step_of(code, run_of(code, m, (k - 1) as nat))
    }
}

/// The program executes `k` instructions and then stops.
pub open spec fn halts_at(code: Seq<Instruction>, m: Machine, k: nat) -> bool {
    &&& status_of(code, run_of(code, m, k)) != ExecutionStatus::OK
    &&& forall|j: nat| j < k ==> status_of(code, #[trigger] run_of(code, m, j)) == ExecutionStatus::OK
}

/// The next instruction can be executed without the accumulator overflowing.
pub open spec fn can_step(code: Seq<Instruction>, m: Machine) -> bool {
    status_of(code, m) == ExecutionStatus::OK ==> match code[m.next] {
        Instruction::ACC(value) => i64::MIN <= m.accumulator + value <= i64::MAX,
        _ => true,
    }
}

/// The accumulator never overflows while the program runs.
pub open spec fn can_run(code: Seq<Instruction>, m: Machine) -> bool {
    forall|k: nat| can_step(code, #[trigger] run_of(code, m, k))
}

/// No instruction was executed twice, and each lies in the code.
pub open spec fn is_trace(code: Seq<Instruction>, executed: Seq<int>) -> bool {
    &&& executed.no_duplicates()
    &&& forall|i: int| 0 <= i < executed.len() ==> 0 <= #[trigger] executed[i] < code.len()
}

/// Different places below `n` are at most `n`.
pub proof fn lemma_trace_len(executed: Seq<int>, n: int)
    requires
        n >= 0,
        executed.no_duplicates(),
        forall|i: int| 0 <= i < executed.len() ==> 0 <= #[trigger] executed[i] < n,
    ensures
        executed.len() <= n,
{
    executed.unique_seq_to_set();
    seq_to_set_is_finite(executed);
    lemma_int_range(0, n);
    assert(executed.to_set().subset_of(set_int_range(0, n))) by {
        assert forall|x: int| executed.to_set().contains(x) implies set_int_range(0, n).contains(
            x,
        ) by {
            let i = choose|i: int| 0 <= i < executed.len() && executed[i] == x;
            assert(0 <= executed[i] < n);
        }
    }
    lemma_len_subset(executed.to_set(), set_int_range(0, n));
}

/// A program with the state it runs in.
pub struct Program {
    pub accumulator: i64,
    pub next: usize,
    pub code: Vec<Instruction>,
    pub executed: Vec<usize>,
}

/// Whether `place` is among the places in `executed`.
fn was_executed(executed: &Vec<usize>, place: usize) -> (found: bool)
    ensures
        found == executed@.map_values(|p: usize| p as int).contains(place as int),
{
    let ghost places = executed@.map_values(|p: usize| p as int);
    let mut i: usize = 0;
    while i < executed.len()
        invariant
            i <= executed.len(),
            places == executed@.map_values(|p: usize| p as int),
            forall|j: int| 0 <= j < i ==> places[j] != place,
        decreases executed.len() - i,
    {
        if executed[i] == place {
            assert(places[i as int] == place);
            return true;
        }
        i += 1;
    }
    false
}

impl Program {
    /// The state of the program.
    pub open spec fn machine(&self) -> Machine {
        Machine {
            accumulator: self.accumulator as int,
            next: self.next as int,
            executed: self.executed@.map_values(|p: usize| p as int),
        }
    }

    /// No instruction was executed twice, and each lies in the code.
    pub open spec fn wf(&self) -> bool {
        is_trace(self.code@, self.machine().executed)
    }

    /// The program that the lines spell, about to execute its first instruction.
    pub fn from(lines: Vec<String>) -> (made: Result<Program, CodeError>)
        requires
            forall|i: int| 0 <= i < lines.len() ==> argument_of(#[trigger] lines[i]@) is Some,
            forall|i: int| 0 <= i < lines.len() ==> instruction_of(#[trigger] lines[i]@) is Some,
        ensures
            made is Ok,
            made.unwrap().accumulator == 0,
            made.unwrap().next == 0,
            made.unwrap().executed@.len() == 0,
            made.unwrap().code@.len() == lines.len(),
            forall|i: int|
                0 <= i < lines.len() ==> instruction_of(lines[i]@) == Some(
                    #[trigger] made.unwrap().code@[i],
                ),
    {
        let mut code: Vec<Instruction> = Vec::new();
        let mut i: usize = 0;
        while i < lines.len()
            invariant
                i <= lines.len(),
                code.len() == i,
                forall|j: int| 0 <= j < lines.len() ==> argument_of(#[trigger] lines[j]@) is Some,
                forall|j: int|
                    0 <= j < lines.len() ==> instruction_of(#[trigger] lines[j]@) is Some,
                forall|j: int|
                    0 <= j < i ==> instruction_of(lines[j]@) == Some(#[trigger] code@[j]),
            decreases lines.len() - i,
        {
            match Instruction::from_str(lines[i].as_str()) {
                Ok(instruction) => code.push(instruction),
                Err(_) => {
                    assert(instruction_of(lines[i as int]@) is Some);
                },
            }
            i += 1;
        }
        Ok(Program { accumulator: 0, next: 0, code, executed: Vec::new() })
    }

    /// Executes the next instruction, unless it was executed before or
    /// lies beyond the end of the code.
    pub fn tick(&mut self) -> (status: ExecutionStatus)
        requires
            can_step(old(self).code@, old(self).machine()),
        ensures
            status == status_of(old(self).code@, old(self).machine()),
            final(self).code@ == old(self).code@,
            status == ExecutionStatus::OK ==> final(self).machine() == step_of(
                old(self).code@,
                old(self).machine(),
            ),
            status != ExecutionStatus::OK ==> final(self).machine() == old(self).machine(),
            old(self).wf() ==> final(self).wf(),
    {
        if was_executed(&self.executed, self.next) {
            return ExecutionStatus::BOOTLOOP;
        }
        if self.next >= self.code.len() {
            return ExecutionStatus::TERMINATED;
        }
        let ghost before = self.machine();
        let place = self.next;
        self.executed.push(place);
        proof {
            assert(self.executed@.map_values(|p: usize| p as int) =~= before.executed.push(
                place as int,
            ));
        }
        match self.code[place] {
            Instruction::NOP(_) => {
                self.next = place + 1;
            },
            Instruction::JMP(val) => {
                let target: i128 = place as i128 + val as i128;
                if 0 <= target && target <= usize::MAX as i128 {
                    self.next = target as usize;
                } else {
                    self.next = usize::MAX;
                }
            },
            Instruction::ACC(val) => {
                self.accumulator = self.accumulator + val;
                self.next = place + 1;
            },
        }
        ExecutionStatus::OK
    }

    /// Ticks until the program stops, and says why it stopped.
    pub fn run_to_end(&mut self) -> (status: ExecutionStatus)
        requires
            old(self).wf(),
            can_run(old(self).code@, old(self).machine()),
        ensures
            final(self).code@ == old(self).code@,
            status != ExecutionStatus::OK,
            exists|k: nat|
                halts_at(old(self).code@, old(self).machine(), k) && final(self).machine()
                    == #[trigger] run_of(old(self).code@, old(self).machine(), k) && status
                    == status_of(old(self).code@, final(self).machine()),
    {
        let ghost start = self.machine();
        let ghost code = self.code@;
        let ghost mut k: nat = 0;
        loop
            invariant
                self.code@ == code,
                code == old(self).code@,
                start == old(self).machine(),
                self.wf(),
                can_run(code, start),
                self.machine() == run_of(code, start, k),
                forall|j: nat|
                    j < k ==> status_of(code, #[trigger] run_of(code, start, j))
                        == ExecutionStatus::OK,
            decreases self.code.len() - self.executed.len(),
        {
            proof {
                assert(can_step(code, run_of(code, start, k)));
                lemma_trace_len(self.machine().executed, code.len() as int);
            }
            let ghost before = self.machine();
            let status = self.tick();
            match status {
                ExecutionStatus::OK => {
                    proof {
                        lemma_trace_len(self.machine().executed, code.len() as int);
                        assert(self.machine().executed.len() == before.executed.len() + 1);
                        k = k + 1;
                    }
                },
                _ => {
                    assert(halts_at(code, start, k));
                    return status;
                },
            }
        }
    }

    /// A copy of the program in which the instruction at `index` is
    /// flipped: `nop` becomes `jmp` and `jmp` becomes `nop`.
    pub fn create_mutated(&self, index: usize) -> (made: Result<Program, CodeError>)
        requires
            index < self.code.len(),
        ensures
            match made {
                Ok(program) => !(self.code[index as int] is ACC) && program.code@
                    == self.code@.update(index as int, self.code[index as int].flipped())
                    && program.machine() == self.machine(),
                Err(e) => self.code[index as int] is ACC && e == CodeError::CannotFlipAcc,
            },
    {
        let flipped = match self.code[index] {
            Instruction::NOP(val) => Instruction::JMP(val),
            Instruction::JMP(val) => Instruction::NOP(val),
            Instruction::ACC(_) => {
                return Err(CodeError::CannotFlipAcc);
            },
        };
        let mut code: Vec<Instruction> = Vec::new();
        let mut i: usize = 0;
        while i < self.code.len()
            invariant
                i <= self.code.len(),
                code.len() == i,
                forall|j: int| 0 <= j < i ==> code[j] == self.code[j],
            decreases self.code.len() - i,
        {
            code.push(self.code[i]);
            i += 1;
        }
        code.set(index, flipped);
        let mut executed: Vec<usize> = Vec::new();
        i = 0;
        while i < self.executed.len()
            invariant
                i <= self.executed.len(),
                executed.len() == i,
                forall|j: int| 0 <= j < i ==> executed[j] == self.executed[j],
            decreases self.executed.len() - i,
        {
            executed.push(self.executed[i]);
            i += 1;
        }
        proof {
            assert(code@ =~= self.code@.update(index as int, self.code[index as int].flipped()));
            assert(executed@ =~= self.executed@);
        }
        Ok(Program { accumulator: self.accumulator, next: self.next, code, executed })
    }
}

/// The accumulator when the program stops.
pub fn part1(program: Program) -> (accumulator: i64)
    requires
        program.wf(),
        can_run(program.code@, program.machine()),
    ensures
        exists|k: nat|
            halts_at(program.code@, program.machine(), k) && accumulator == (#[trigger] run_of(
                program.code@,
                program.machine(),
                k,
            )).accumulator,
{
    let mut program = program;
    program.run_to_end();
    program.accumulator
}

/// The code with the instruction at `index` flipped.
pub open spec fn flipped_code(code: Seq<Instruction>, index: int) -> Seq<Instruction> {
    code.update(index, code[index].flipped())
}

/// With the instruction at `index` flipped the program executes `k`
/// instructions and then runs off the end of the code.
pub open spec fn is_fix(code: Seq<Instruction>, m: Machine, index: int, k: nat) -> bool {
    &&& 0 <= index < code.len()
    &&& !(code[index] is ACC)
    &&& halts_at(flipped_code(code, index), m, k)
    &&& status_of(flipped_code(code, index), run_of(flipped_code(code, index), m, k))
        == ExecutionStatus::TERMINATED
}

/// Flipping the instruction at `index` does not make the program run off
/// the end of the code.
pub open spec fn is_no_fix(code: Seq<Instruction>, m: Machine, index: int) -> bool {
    forall|k: nat| !is_fix(code, m, index, k)
}

/// The accumulator when the program has run off the end of its code, with
/// the first instruction flipped whose flipping makes it do so.
pub fn part2(program: Program) -> (accumulator: i64)
    requires
        program.wf(),
        exists|index: int, k: nat| is_fix(program.code@, program.machine(), index, k),
        forall|index: int|
            0 <= index < program.code.len() ==> can_run(
                #[trigger] flipped_code(program.code@, index),
                program.machine(),
            ),
    ensures
        exists|index: int, k: nat|
            is_fix(program.code@, program.machine(), index, k) && accumulator == (#[trigger] run_of(
                flipped_code(program.code@, index),
                program.machine(),
                k,
            )).accumulator && forall|earlier: int|
                0 <= earlier < index ==> is_no_fix(program.code@, program.machine(), earlier),
{
    let ghost code = program.code@;
    let ghost start = program.machine();
    let mut line_to_flip: usize = 0;
    while line_to_flip < program.code.len()
        invariant
            code == program.code@,
            start == program.machine(),
            program.wf(),
            forall|index: int|
                0 <= index < code.len() ==> can_run(#[trigger] flipped_code(code, index), start),
            forall|earlier: int| 0 <= earlier < line_to_flip ==> is_no_fix(code, start, earlier),
        decreases program.code.len() - line_to_flip,
    {
        let ghost changed = flipped_code(code, line_to_flip as int);
        match program.create_mutated(line_to_flip) {
            Ok(mut mutated) => {
                assert(can_run(changed, start));
                assert(mutated.wf());
                let status = mutated.run_to_end();
                let ghost k = choose|k: nat|
                    halts_at(changed, start, k) && mutated.machine() == #[trigger] run_of(
                        changed,
                        start,
                        k,
                    ) && status == status_of(changed, mutated.machine());
                if status == ExecutionStatus::TERMINATED {
                    assert(is_fix(code, start, line_to_flip as int, k));
                    return mutated.accumulator;
                }
                proof {
                    assert forall|j: nat| !is_fix(code, start, line_to_flip as int, j) by {
                        if is_fix(code, start, line_to_flip as int, j) {
                            lemma_halts_once(changed, start, j, k);
                        }
                    }
                }
            },
            Err(_) => {},
        }
        line_to_flip += 1;
    }
    proof {
        let (index, k) = choose|index: int, k: nat| is_fix(code, start, index, k);
        assert(is_no_fix(code, start, index));
    }
    0
}

/// A program stops after one number of instructions only.
pub proof fn lemma_halts_once(code: Seq<Instruction>, m: Machine, j: nat, k: nat)
    requires
        halts_at(code, m, j),
        halts_at(code, m, k),
    ensures
        j == k,
{
    if j < k {
        assert(status_of(code, run_of(code, m, j)) == ExecutionStatus::OK);
    } else if k < j {
        assert(status_of(code, run_of(code, m, k)) == ExecutionStatus::OK);
    }
}

} // verus!
