//! Day 5: boarding passes that spell a seat in binary.

use crate::adaptors::{pair_windows, sorted_copy};
use crate::sorting::{lemma_ascending_is_sorted, values};
use crate::text::chars_of;
use vstd::arithmetic::power2::{lemma2_to64, lemma_pow2_strictly_increases, pow2};
use vstd::prelude::*;

verus! {

/// A seat of the plane.
pub struct Seat {
    pub row: usize,
    pub column: usize,
}

/// Whether `c` is a letter of a boarding pass.
pub open spec fn is_pass_letter(c: char) -> bool {
    c == 'F' || c == 'B' || c == 'L' || c == 'R'
}

/// A boarding pass that can be read: letters of a pass only, few enough
/// for row and column to fit.
pub open spec fn is_pass(s: Seq<char>) -> bool {
    &&& s.len() <= 31
    &&& forall|i: int| 0 <= i < s.len() ==> is_pass_letter(#[trigger] s[i])
}

/// The number that the letters `zero` and `one` in `s` spell in binary,
/// other letters passed over.
pub open spec fn binary_value(s: Seq<char>, zero: char, one: char) -> nat
    decreases s.len(),
{
    if s.len() == 0 {
        0
    } else if s.last() == zero {
        2 * binary_value(s.drop_last(), zero, one)
    } else if s.last() == one {
        2 * binary_value(s.drop_last(), zero, one) + 1
    } else {
        binary_value(s.drop_last(), zero, one)
    }
}

/// Letters spell less than two to the power of their number.
pub proof fn lemma_binary_bound(s: Seq<char>, zero: char, one: char)
    ensures
        binary_value(s, zero, one) < pow2(s.len()),
    decreases s.len(),
{
    lemma2_to64();
    if s.len() > 0 {
        lemma_binary_bound(s.drop_last(), zero, one);
        vstd::arithmetic::power2::lemma_pow2_unfold(s.len());
    }
}

/// The identifier of the seat in `row` and `column`.
pub open spec fn seat_id(row: int, column: int) -> int {
    row * 8 + column
}

impl Seat {
    /// The identifier of the seat.
    pub open spec fn id(&self) -> int {
        seat_id(self.row as int, self.column as int)
    }

    /// The identifier of the seat.
    pub fn generate_id(&self) -> (id: usize)
        requires
            self.id() <= usize::MAX,
        ensures
            id == self.id(),
    {
        self.row * 8 + self.column
    }

    /// The seat that a boarding pass spells: `F` and `B` spell the row, `L`
    /// and `R` the column, each in binary with the second letter for 1.
    pub fn from_str(s: &str) -> (seat: Seat)
        requires
            is_pass(s@),
        ensures
            seat.row == binary_value(s@, 'F', 'B'),
            seat.column == binary_value(s@, 'L', 'R'),
    {
        let chars = chars_of(s);
        let mut row: usize = 0;
        let mut column: usize = 0;
        let mut i: usize = 0;
        while i < chars.len()
            invariant
                i <= chars.len() <= 31,
                chars@ == s@,
                row == binary_value(chars@.take(i as int), 'F', 'B'),
                column == binary_value(chars@.take(i as int), 'L', 'R'),
            decreases chars.len() - i,
        {
            proof {
                let upto = chars@.take(i + 1);
                assert(upto.drop_last() =~= chars@.take(i as int));
                lemma_binary_bound(upto, 'F', 'B');
                lemma_binary_bound(upto, 'L', 'R');
                lemma2_to64();
                if upto.len() < 32 {
                    lemma_pow2_strictly_increases(upto.len(), 32);
                }
            }
            let ch = chars[i];
            if ch == 'F' {
                row = row * 2;
            } else if ch == 'B' {
                row = row * 2 + 1;
            } else if ch == 'L' {
                column = column * 2;
            } else if ch == 'R' {
                column = column * 2 + 1;
            }
            i += 1;
        }
        proof {
            assert(chars@.take(i as int) =~= chars@);
        }
        Seat { row, column }
    }
}

/// The identifiers of the seats, in order.
pub open spec fn ids_of(seats: Seq<Seat>) -> Seq<int> {
    seats.map_values(|seat: Seat| seat.id())
}

/// Every identifier fits in a machine word.
pub open spec fn ids_fit(seats: Seq<Seat>) -> bool {
    forall|i: int| 0 <= i < seats.len() ==> (#[trigger] seats[i]).id() <= usize::MAX
}

/// The identifiers of the seats.
pub fn all_ids(seats: &[Seat]) -> (ids: Vec<usize>)
    requires
        ids_fit(seats@),
    ensures
        values(ids@) == ids_of(seats@),
{
    let mut ids: Vec<usize> = Vec::new();
    let mut i: usize = 0;
    while i < seats.len()
        invariant
            i <= seats.len(),
            ids_fit(seats@),
            ids.len() == i,
            forall|j: int| 0 <= j < i ==> #[trigger] ids[j] == seats[j].id(),
        decreases seats.len() - i,
    {
        ids.push(seats[i].generate_id());
        i += 1;
    }
    proof {
        assert(values(ids@) =~= ids_of(seats@));
    }
    ids
}

/// The greatest identifier among the seats.
pub fn part1(seats: &[Seat]) -> (highest: usize)
    requires
        seats.len() > 0,
        ids_fit(seats@),
    ensures
        ids_of(seats@).contains(highest as int),
        forall|i: int| 0 <= i < seats.len() ==> (#[trigger] seats[i]).id() <= highest,
{
    let mut highest = seats[0].generate_id();
    assert(ids_of(seats@)[0] == highest);
    let mut i: usize = 1;
    while i < seats.len()
        invariant
            1 <= i <= seats.len(),
            ids_fit(seats@),
            ids_of(seats@).contains(highest as int),
            forall|j: int| 0 <= j < i ==> (#[trigger] seats[j]).id() <= highest,
        decreases seats.len() - i,
    {
        let id = seats[i].generate_id();
        if id > highest {
            highest = id;
            assert(ids_of(seats@)[i as int] == highest);
        }
        i += 1;
    }
    highest
}

/// `i` is the first place of the ascending identifiers that is not
/// followed by the next identifier up.
pub open spec fn is_first_break(sorted: Seq<int>, i: int) -> bool {
    &&& 0 <= i < sorted.len() - 1
    &&& sorted[i] + 1 != sorted[i + 1]
    &&& forall|j: int| 0 <= j < i ==> #[trigger] sorted[j] + 1 == sorted[j + 1]
}

/// The identifier that is missing: one more than the first of the
/// ascending identifiers that is not followed by the next one up.
pub fn part2(seats: &[Seat]) -> (missing: usize)
    requires
        ids_fit(seats@),
        exists|i: int| is_first_break(ids_of(seats@).sort(), i),
        forall|i: int|
            is_first_break(ids_of(seats@).sort(), i) ==> ids_of(seats@).sort()[i] < usize::MAX,
    ensures
        exists|i: int|
            is_first_break(ids_of(seats@).sort(), i) && missing == ids_of(seats@).sort()[i] + 1,
{
    let ids = all_ids(seats);
    let sorted = sorted_copy(ids.as_slice());
    let windows = pair_windows(sorted.as_slice());
    let ghost order = ids_of(seats@).sort();
    proof {
        lemma_ascending_is_sorted(ids_of(seats@), values(sorted@));
    }
    let mut i: usize = 0;
    while i < windows.len()
        invariant
            i <= windows.len(),
            order == ids_of(seats@).sort(),
            order == values(sorted@),
            windows.len() == if sorted.len() == 0 { 0 } else { sorted.len() - 1 },
            forall|j: int|
                0 <= j < windows.len() ==> #[trigger] windows[j] == (sorted[j], sorted[j + 1]),
            forall|j: int| 0 <= j < i ==> #[trigger] order[j] + 1 == order[j + 1],
            forall|j: int| is_first_break(order, j) ==> order[j] < usize::MAX,
        decreases windows.len() - i,
    {
        let (x, y) = windows[i];
        assert(x == order[i as int] && y == order[i + 1]);
        if y == 0 || x != y - 1 {
            assert(is_first_break(order, i as int));
            let missing = x + 1;
            assert(is_first_break(ids_of(seats@).sort(), i as int) && missing == ids_of(
                seats@,
            ).sort()[i as int] + 1);
            return missing;
        }
        i += 1;
    }
    proof {
        let b = choose|b: int| is_first_break(order, b);
        assert(order[b] + 1 == order[b + 1]);
    }
    0
}

/// The seats that the lines spell, one per line.
pub fn read_seats(lines: &Vec<String>) -> (seats: Vec<Seat>)
    requires
        forall|i: int| 0 <= i < lines.len() ==> is_pass(#[trigger] lines[i]@),
    ensures
        seats.len() == lines.len(),
        forall|i: int|
            0 <= i < seats.len() ==> (#[trigger] seats[i]).row == binary_value(lines[i]@, 'F', 'B')
                && seats[i].column == binary_value(lines[i]@, 'L', 'R'),
{
    let mut seats: Vec<Seat> = Vec::new();
    let mut i: usize = 0;
    while i < lines.len()
        invariant
            i <= lines.len(),
            seats.len() == i,
            forall|j: int| 0 <= j < lines.len() ==> is_pass(#[trigger] lines[j]@),
            forall|j: int|
                0 <= j < i ==> (#[trigger] seats[j]).row == binary_value(lines[j]@, 'F', 'B')
                    && seats[j].column == binary_value(lines[j]@, 'L', 'R'),
        decreases lines.len() - i,
    {
        seats.push(Seat::from_str(lines[i].as_str()));
        i += 1;
    }
    seats
}

} // verus!
