use advent2020::day13::{calculate_ctr, extended_gcd, mod_inv, part1, part2, read_notes};

#[test]
fn greatest_common_divisor_with_coefficients() {
    assert_eq!(extended_gcd(240, 46), (2, -9, 47));
    assert_eq!(240 * -9 + 46 * 47, 2);
    assert_eq!(extended_gcd(0, 5), (5, 0, 1));
    assert_eq!(extended_gcd(5, 0), (5, 1, 0));
}

#[test]
fn inverse_takes_the_sign_of_the_coefficient() {
    assert_eq!(mod_inv(3, 7), -2);
    assert_eq!(mod_inv(3, 11), 4);
    assert_eq!((3 * mod_inv(3, 7) - 1) % 7, 0);
}

#[test]
fn sample_notes() {
    let lines = vec!["939".to_string(), "7,13,x,x,59,x,31,19".to_string()];
    let notes = read_notes(&lines);
    assert_eq!(notes.earliest, 939);
    assert_eq!(notes.buses, vec![(0, 7), (-1, 13), (-4, 59), (-6, 31), (-7, 19)]);
    assert_eq!(part1(&notes), 295);
    assert_eq!(part2(&notes), 1068781);
}

#[test]
fn small_congruences() {
    assert_eq!(calculate_ctr(&[(2, 3), (3, 5), (2, 7)]), 23);
    assert_eq!(calculate_ctr(&[]), 0);
}
