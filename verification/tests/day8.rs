use advent2020::day8::{part1, part2, CodeError, ExecutionStatus, Instruction, Program};

fn sample() -> Program {
    let lines = ["nop +0", "acc +1", "jmp +4", "acc +3", "jmp -3", "acc -99", "acc +1", "jmp -4", "acc +6"]
        .iter()
        .map(|l| l.to_string())
        .collect();
    Program::from(lines).unwrap()
}

#[test]
fn lines_spell_instructions() {
    assert_eq!(Instruction::from_str("nop +0"), Ok(Instruction::NOP(0)));
    assert_eq!(Instruction::from_str("acc -99"), Ok(Instruction::ACC(-99)));
    assert_eq!(Instruction::from_str("jmp 4"), Ok(Instruction::JMP(4)));
    assert_eq!(Instruction::from_str("mul 4"), Err(CodeError::UnknownInstruction));
}

#[test]
fn sample_program_loops_with_five() {
    assert_eq!(part1(sample()), 5);
}

#[test]
fn sample_program_mended_ends_with_eight() {
    assert_eq!(part2(sample()), 8);
}

#[test]
fn ticks_one_by_one() {
    let mut program = sample();
    assert_eq!(program.tick(), ExecutionStatus::OK);
    assert_eq!((program.next, program.accumulator), (1, 0));
    assert_eq!(program.tick(), ExecutionStatus::OK);
    assert_eq!((program.next, program.accumulator), (2, 1));
    assert_eq!(program.tick(), ExecutionStatus::OK);
    assert_eq!((program.next, program.accumulator), (6, 1));
    assert_eq!(program.executed, vec![0, 1, 2]);
    assert_eq!(program.run_to_end(), ExecutionStatus::BOOTLOOP);
    assert_eq!(program.tick(), ExecutionStatus::BOOTLOOP);
    assert_eq!(program.accumulator, 5);
}

#[test]
fn a_jump_before_the_code_ends_the_program() {
    let mut program = Program::from(vec!["jmp -5".to_string()]).unwrap();
    assert_eq!(program.tick(), ExecutionStatus::OK);
    assert_eq!(program.tick(), ExecutionStatus::TERMINATED);
}

#[test]
fn only_nop_and_jmp_are_flipped() {
    let program = sample();
    assert_eq!(program.create_mutated(0).unwrap().code[0], Instruction::JMP(0));
    assert_eq!(program.create_mutated(2).unwrap().code[2], Instruction::NOP(4));
    assert_eq!(program.create_mutated(1).err(), Some(CodeError::CannotFlipAcc));
}
