use advent2020::day14::{
    apply_with_variations, bitmask_variation, part1, part2, read_input, sum_memory, ProgramChunk,
};

fn chunk(mask: &str, instructions: &[(u64, u64)]) -> ProgramChunk {
    let mut zeroes = 0u64;
    let mut ones = 0u64;
    for ch in mask.chars() {
        zeroes = zeroes << 1 | (ch == 'X') as u64;
        ones = ones << 1 | (ch == '1') as u64;
    }
    ProgramChunk {
        original_bitmask: mask.bytes().collect(),
        bitmask_zeroes: zeroes,
        bitmask_ones: ones,
        instructions: instructions.to_vec(),
    }
}

#[test]
fn sample_values_masked() {
    let input = vec![chunk("XXXXXXXXXXXXXXXXXXXXXXXXXXXXX1XXXX0X", &[(8, 11), (7, 101), (8, 0)])];
    assert_eq!(part1(&input), 165);
    assert_eq!(part1(&[]), 0);
}

#[test]
fn sample_addresses_spread() {
    let input = vec![
        chunk("000000000000000000000000000000X1001X", &[(42, 100)]),
        chunk("00000000000000000000000000000000X0XX", &[(26, 1)]),
    ];
    assert_eq!(part2(&input), 208);
}

#[test]
fn addresses_that_come_of_one() {
    assert_eq!(
        apply_with_variations(42, b"000000000000000000000000000000X1001X"),
        vec![26, 27, 58, 59]
    );
    assert_eq!(
        apply_with_variations(26, b"00000000000000000000000000000000X0XX"),
        vec![16, 17, 18, 19, 24, 25, 26, 27]
    );
    assert_eq!(apply_with_variations(0xf_ffff_ffff, b"0000"), vec![15]);
}

#[test]
fn numbers_that_a_mask_spells() {
    assert_eq!(bitmask_variation(b"X1X"), vec![2, 3, 6, 7]);
    assert_eq!(bitmask_variation(b"101"), vec![5]);
    assert_eq!(bitmask_variation(b""), vec![0]);
    assert_eq!(bitmask_variation(b"XX").len(), 4);
}

#[test]
fn a_later_write_replaces_an_earlier_one() {
    assert_eq!(sum_memory(&vec![(1, 10), (2, 20), (1, 3), (3, 0), (2, 21), (1, 4)]), 4 + 21);
    assert_eq!(sum_memory(&vec![(5, u64::MAX), (5, 1), (6, u64::MAX - 1)]), u64::MAX);
    assert_eq!(sum_memory(&Vec::new()), 0);
}

fn lines(text: &str) -> Vec<String> {
    text.lines().map(|l| l.to_string()).collect()
}

#[test]
fn test_example1() {
    let input = read_input(&lines(
        "mask = XXXXXXXXXXXXXXXXXXXXXXXXXXXXX1XXXX0X\nmem[8] = 11\nmem[7] = 101\nmem[8] = 0",
    ));
    assert_eq!(part1(&input), 165);
}

#[test]
fn test_example2() {
    let input = read_input(&lines(
        "mask = 000000000000000000000000000000X1001X\nmem[42] = 100\nmask = 00000000000000000000000000000000X0XX\nmem[26] = 1",
    ));
    assert_eq!(part2(&input), 208);
}

#[test]
fn the_program_is_read_chunk_by_chunk() {
    let input = read_input(&lines(
        "mem[1] = 2\nmask = X1\nmask = 0X1\nmem[3] = 4\nnoise\nmem[5] = 6 \nmem[7] = 8\nmask = 1\n",
    ));
    assert_eq!(input.len(), 3);
    assert_eq!(input[0].instructions, vec![(1, 2)]);
    assert_eq!(input[0].original_bitmask, Vec::<u8>::new());
    assert_eq!(input[1].original_bitmask, b"0X1".to_vec());
    assert_eq!((input[1].bitmask_zeroes, input[1].bitmask_ones), (2, 1));
    assert_eq!(input[1].instructions, vec![(3, 4), (7, 8)]);
    assert_eq!(input[2].original_bitmask, b"1".to_vec());
    assert_eq!(input[2].instructions, Vec::<(u64, u64)>::new());
    assert_eq!(read_input(&Vec::new()).len(), 1);
}
