//! Day 12: the instructions by which a ship is steered.

use crate::text::{chars_of, parse_signed_chars, signed_value, slice_of};
use vstd::prelude::*;

verus! {

/// An instruction: an action and its amount.
#[derive(Debug, Clone, Copy, PartialEq, Eq, Structural)]
pub enum Instruction {
    North(i32),
    South(i32),
    East(i32),
    West(i32),
    TurnLeft(i32),
    TurnRight(i32),
    Forward(i32),
}

/// Whether `c` is the letter of an action.
pub open spec fn is_action(c: char) -> bool {
    c == 'N' || c == 'S' || c == 'E' || c == 'W' || c == 'L' || c == 'R' || c == 'F'
}

/// The amount that a line spells behind its first character.
pub open spec fn amount_of(s: Seq<char>) -> Option<int> {
    signed_value(s.drop_first(), i32::MIN as int, i32::MAX as int)
}

/// The line spells an instruction: the letter of an action and a number.
pub open spec fn is_instruction(s: Seq<char>) -> bool {
    s.len() > 0 && is_action(s[0]) && amount_of(s) is Some
}

/// The instruction that a line spells.
pub open spec fn instruction_of(s: Seq<char>) -> Instruction {
    let val = amount_of(s).unwrap() as i32;
    if s[0] == 'N' {
        Instruction::North(val)
    } else if s[0] == 'S' {
        Instruction::South(val)
    } else if s[0] == 'E' {
        Instruction::East(val)
    } else if s[0] == 'W' {
        Instruction::West(val)
    } else if s[0] == 'L' {
        Instruction::TurnLeft(val)
    } else if s[0] == 'R' {
        Instruction::TurnRight(val)
    } else {
        Instruction::Forward(val)
    }
}

impl Instruction {
    /// The instruction that a line spells.
    pub fn from_str(s: &str) -> (instruction: Instruction)
        requires
            is_instruction(s@),
        ensures
            instruction == instruction_of(s@),
    {
        let chars = chars_of(s);
        let action = chars[0];
        let rest = slice_of(&chars, 1, chars.len());
        proof {
            assert(rest@ =~= s@.drop_first());
        }
        let val: i32 = match parse_signed_chars(&rest, i32::MIN as i64, i32::MAX as i64) {
            Some(v) => v as i32,
            None => 0,
        };
        if action == 'N' {
            Instruction::North(val)
        } else if action == 'S' {
            Instruction::South(val)
        } else if action == 'E' {
            Instruction::East(val)
        } else if action == 'W' {
            Instruction::West(val)
        } else if action == 'L' {
            Instruction::TurnLeft(val)
        } else if action == 'R' {
            Instruction::TurnRight(val)
        } else {
            Instruction::Forward(val)
        }
    }
}

/// The instructions that the lines spell, one on each line.
pub fn read_instructions(lines: &Vec<String>) -> (instructions: Vec<Instruction>)
    requires
        forall|i: int| 0 <= i < lines.len() ==> is_instruction(#[trigger] lines[i]@),
    ensures
        instructions.len() == lines.len(),
        forall|i: int|
            0 <= i < lines.len() ==> #[trigger] instructions[i] == instruction_of(lines[i]@),
{
    let mut instructions: Vec<Instruction> = Vec::new();
    let mut i: usize = 0;
    while i < lines.len()
        invariant
            i <= lines.len(),
            forall|j: int| 0 <= j < lines.len() ==> is_instruction(#[trigger] lines[j]@),
            instructions.len() == i,
            forall|j: int| 0 <= j < i ==> #[trigger] instructions[j] == instruction_of(lines[j]@),
        decreases lines.len() - i,
    {
        assert(is_instruction(lines[i as int]@));
        instructions.push(Instruction::from_str(lines[i].as_str()));
        i += 1;
    }
    instructions
}

} // verus!
