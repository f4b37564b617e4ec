use advent2020::day5::{part1, part2, read_seats, Seat};

#[test]
fn sample_passes() {
    let seat = Seat::from_str("FBFBBFFRLR");
    assert_eq!((seat.row, seat.column, seat.generate_id()), (44, 5, 357));
    let seat = Seat::from_str("BFFFBBFRRR");
    assert_eq!((seat.row, seat.column, seat.generate_id()), (70, 7, 567));
    let seat = Seat::from_str("FFFBBBFRRR");
    assert_eq!((seat.row, seat.column, seat.generate_id()), (14, 7, 119));
    let seat = Seat::from_str("BBFFBBFRLL");
    assert_eq!((seat.row, seat.column, seat.generate_id()), (102, 4, 820));
}

#[test]
fn highest_and_missing_identifier() {
    let lines: Vec<String> = ["FFFFFFFLLR", "FFFFFFFLRR", "FFFFFFFLRL", "FFFFFFFRLR", "FFFFFFFRRL"]
        .iter()
        .map(|l| l.to_string())
        .collect();
    let seats = read_seats(&lines);
    assert_eq!(part1(&seats), 6);
    assert_eq!(part2(&seats), 4);
}

#[test]
fn a_seat_taken_twice_counts_as_a_break() {
    let seats = vec![Seat { row: 0, column: 3 }, Seat { row: 0, column: 3 }, Seat { row: 0, column: 2 }];
    assert_eq!(part2(&seats), 4);
}
