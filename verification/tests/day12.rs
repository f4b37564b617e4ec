use advent2020::day12::{read_instructions, Instruction};

#[test]
fn lines_spell_actions_and_amounts() {
    let lines: Vec<String> =
        ["F10", "N3", "F7", "R90", "F11", "S-2", "E+4", "W0", "L270"].iter().map(|l| l.to_string()).collect();
    assert_eq!(
        read_instructions(&lines),
        vec![
            Instruction::Forward(10),
            Instruction::North(3),
            Instruction::Forward(7),
            Instruction::TurnRight(90),
            Instruction::Forward(11),
            Instruction::South(-2),
            Instruction::East(4),
            Instruction::West(0),
            Instruction::TurnLeft(270),
        ]
    );
    assert_eq!(Instruction::from_str("N2147483647"), Instruction::North(i32::MAX));
}
