//! Day 11: seats of a waiting area that fill and empty by rule.

use crate::budget::Budget;
use crate::text::{chars_of, views};
use vstd::prelude::*;

verus! {

/// A grid of floor (`.`), empty seats (`L`) and occupied seats (`#`).
pub type Grid = Seq<Seq<char>>;

/// Every row is as long as the first, and rows and columns can be counted in 32 bits.
pub open spec fn is_grid(g: Grid) -> bool {
    &&& g.len() < i32::MAX
    &&& g.len() > 0 ==> g[0].len() < i32::MAX
    &&& forall|r: int| 0 <= r < g.len() ==> (#[trigger] g[r]).len() == g[0].len()
}

/// Whether row `r` and column `c` lie in the grid.
pub open spec fn in_grid(g: Grid, r: int, c: int) -> bool {
    0 <= r < g.len() && 0 <= c < g[0].len()
}

/// One where an occupied seat stands at row `r` and column `c`, else zero.
pub open spec fn occupied(g: Grid, r: int, c: int) -> nat {
    if in_grid(g, r, c) && g[r][c] == '#' {
        1
    } else {
        0
    }
}

/// The number of occupied seats among the eight places round a place.
pub open spec fn adjacent_occupied(g: Grid, r: int, c: int) -> nat {
    occupied(g, r - 1, c - 1) + occupied(g, r, c - 1) + occupied(g, r + 1, c - 1) + occupied(
        g,
        r - 1,
        c,
    ) + occupied(g, r + 1, c) + occupied(g, r - 1, c + 1) + occupied(g, r, c + 1) + occupied(
        g,
        r + 1,
        c + 1,
    )
}

/// How far a ray can still go before it leaves the grid.
pub open spec fn reach(g: Grid, r: int, dr: int, c: int, dc: int) -> int {
    if dr > 0 {
        g.len() - r
    } else if dr < 0 {
        r + 1
    } else if dc > 0 {
        g[0].len() - c
    } else {
        c + 1
    }
}

/// One where the first seat met from a place in the direction `(dr, dc)`
/// is occupied, else zero.
pub open spec fn seen_along(g: Grid, r: int, dr: int, c: int, dc: int) -> nat
    decreases reach(g, r, dr, c, dc),
{
    if dr == 0 && dc == 0 {
        0
    } else if !in_grid(g, r + dr, c + dc) {
        0
    } else if g[r + dr][c + dc] == '#' {
        1
    } else if g[r + dr][c + dc] == 'L' {
        0
    } else {
        seen_along(g, r + dr, dr, c + dc, dc)
    }
}

/// The number of occupied seats among the first seats seen in the eight directions.
pub open spec fn visible_occupied(g: Grid, r: int, c: int) -> nat {
    seen_along(g, r, -1, c, -1) + seen_along(g, r, 0, c, -1) + seen_along(g, r, 1, c, -1)
        + seen_along(g, r, -1, c, 0) + seen_along(g, r, 1, c, 0) + seen_along(g, r, -1, c, 1)
        + seen_along(g, r, 0, c, 1) + seen_along(g, r, 1, c, 1)
}

/// What stands at a place after a round: an empty seat with no occupied
/// seat in view fills, an occupied seat with `crowd` or more in view
/// empties, anything else stays.
pub open spec fn next_cell(g: Grid, r: int, c: int, visible: bool) -> char {
    let count = if visible {
        visible_occupied(g, r, c)
    } else {
        adjacent_occupied(g, r, c)
    };
    let crowd: nat = if visible {
        5
    } else {
        4
    };
    if g[r][c] == 'L' && count == 0 {
        '#'
    } else if g[r][c] == '#' && count >= crowd {
        'L'
    } else {
        g[r][c]
    }
}

/// The grid after a round.
pub open spec fn next_grid(g: Grid, visible: bool) -> Grid {
    Seq::new(g.len(), |r: int| Seq::new(g[r].len(), |c: int| next_cell(g, r, c, visible)))
}

/// The grid after `k` rounds.
pub open spec fn after_rounds(g: Grid, visible: bool, k: nat) -> Grid
    decreases k,
{
    if k == 0 {
        g
    } else {
        next_grid(after_rounds(g, visible, (k - 1) as nat), visible)
    }
}

/// `k` is the first round after which nothing changes any more.
pub open spec fn settles_at(g: Grid, visible: bool, k: nat) -> bool {
    &&& next_grid(after_rounds(g, visible, k), visible) == after_rounds(g, visible, k)
    &&& forall|j: nat|
        j < k ==> next_grid(#[trigger] after_rounds(g, visible, j), visible) != after_rounds(
            g,
            visible,
            j,
        )
}

/// The number of occupied seats in the first `c` places of a row.
pub open spec fn occupied_in_row(row: Seq<char>, c: nat) -> nat
    decreases c,
{
    if c == 0 {
        0
    } else {
        occupied_in_row(row, (c - 1) as nat) + if row[c - 1] == '#' {
            1nat
        } else {
            0nat
        }
    }
}

/// The number of occupied seats in the first `r` rows.
pub open spec fn occupied_in_rows(g: Grid, r: nat) -> nat
    decreases r,
{
    if r == 0 {
        0
    } else {
        occupied_in_rows(g, (r - 1) as nat) + occupied_in_row(g[r - 1], g[r - 1].len())
    }
}

/// The number of occupied seats.
pub open spec fn total_occupied(g: Grid) -> nat {
    occupied_in_rows(g, g.len())
}

/// A round leaves the shape of the grid as it is.
pub proof fn lemma_next_is_grid(g: Grid, visible: bool)
    requires
        is_grid(g),
    ensures
        is_grid(next_grid(g, visible)),
        next_grid(g, visible).len() == g.len(),
{
    let n = next_grid(g, visible);
    assert forall|r: int| 0 <= r < n.len() implies (#[trigger] n[r]).len() == n[0].len() by {
        assert(g[r].len() == g[0].len());
    }
}

/// Rounds leave the shape of the grid as it is.
pub proof fn lemma_rounds_are_grids(g: Grid, visible: bool, k: nat)
    requires
        is_grid(g),
    ensures
        is_grid(after_rounds(g, visible, k)),
    decreases k,
{
    if k > 0 {
        lemma_rounds_are_grids(g, visible, (k - 1) as nat);
        lemma_next_is_grid(after_rounds(g, visible, (k - 1) as nat), visible);
    }
}

/// No more seats of the front of a row are occupied than of more of it.
pub proof fn lemma_occupied_in_row_grows(row: Seq<char>, c: nat, d: nat)
    requires
        c <= d,
    ensures
        occupied_in_row(row, c) <= occupied_in_row(row, d),
    decreases d,
{
    if c < d {
        lemma_occupied_in_row_grows(row, c, (d - 1) as nat);
    }
}

/// No more seats of the first rows are occupied than of more rows.
pub proof fn lemma_occupied_in_rows_grows(g: Grid, r: nat, s: nat)
    requires
        r <= s,
    ensures
        occupied_in_rows(g, r) <= occupied_in_rows(g, s),
    decreases s,
{
    if r < s {
        lemma_occupied_in_rows_grows(g, r, (s - 1) as nat);
    }
}

/// The seats of a waiting area.
pub struct Layout {
    pub layout: Vec<Vec<char>>,
}

impl View for Layout {
    type V = Grid;

    open spec fn view(&self) -> Grid {
        views(self.layout@)
    }
}

impl Layout {
    /// The layout of the rows given.
    pub fn from_lines(layout: Vec<Vec<char>>) -> (made: Layout)
        ensures
            made@ == views(layout@),
    {
        Layout { layout }
    }

    /// One where an occupied seat stands at `row` and `col`, else zero.
    fn occupied_at(&self, row: i32, col: i32) -> (count: usize)
        requires
            is_grid(self@),
        ensures
            count == occupied(self@, row as int, col as int),
    {
        if row < 0 || row >= self.layout.len() as i32 || col < 0 || col
            >= self.layout[0].len() as i32 {
            0
        } else {
            assert(self@[row as int] == self.layout[row as int]@);
            assert(self@[0] == self.layout[0]@);
            if self.layout[row as usize][col as usize] == '#' {
                1
            } else {
                0
            }
        }
    }

    /// The number of occupied seats among the eight places round `row` and `col`.
    pub fn count_adjacent_occupied(&self, row: usize, col: usize) -> (count: usize)
        requires
            is_grid(self@),
            row < i32::MAX,
            col < i32::MAX,
        ensures
            count == adjacent_occupied(self@, row as int, col as int),
    {
        let mut result: usize = 0;
        result += self.occupied_at(row as i32 - 1, col as i32 - 1);
        result += self.occupied_at(row as i32, col as i32 - 1);
        result += self.occupied_at(row as i32 + 1, col as i32 - 1);
        result += self.occupied_at(row as i32 - 1, col as i32);
        result += self.occupied_at(row as i32 + 1, col as i32);
        result += self.occupied_at(row as i32 - 1, col as i32 + 1);
        result += self.occupied_at(row as i32, col as i32 + 1);
        result + self.occupied_at(row as i32 + 1, col as i32 + 1)
    }

    /// One where the first seat met from `row` and `col` in the direction
    /// of `row_mod` and `col_mod` is occupied, else zero.
    pub fn add_occupied(&self, row: i32, row_mod: i32, col: i32, col_mod: i32) -> (count: usize)
        requires
            is_grid(self@),
            row_mod != 0 || col_mod != 0,
            i32::MIN <= row + row_mod <= i32::MAX,
            i32::MIN <= col + col_mod <= i32::MAX,
            row_mod > 0 ==> self@.len() + row_mod <= i32::MAX,
            col_mod > 0 && self@.len() > 0 ==> self@[0].len() + col_mod <= i32::MAX,
        ensures
            count == seen_along(self@, row as int, row_mod as int, col as int, col_mod as int),
            count <= 1,
        decreases reach(self@, row as int, row_mod as int, col as int, col_mod as int),
    {
        let curr_row = row + row_mod;
        let curr_col = col + col_mod;
        if curr_row < 0 || curr_row >= self.layout.len() as i32 || curr_col < 0 || curr_col
            >= self.layout[0].len() as i32 {
            0
        } else {
            assert(self@[curr_row as int] == self.layout[curr_row as int]@);
            assert(self@[0] == self.layout[0]@);
            let ch = self.layout[curr_row as usize][curr_col as usize];
            if ch == '#' {
                1
            } else if ch == 'L' {
                0
            } else {
                self.add_occupied(curr_row, row_mod, curr_col, col_mod)
            }
        }
    }

    /// The number of occupied seats among the first seats seen from `row`
    /// and `col` in the eight directions.
    pub fn count_visible_occupied(&self, row: usize, col: usize) -> (count: usize)
        requires
            is_grid(self@),
            row < i32::MAX,
            col < i32::MAX,
        ensures
            count == visible_occupied(self@, row as int, col as int),
    {
        let mut result: usize = 0;
        result += self.add_occupied(row as i32, -1, col as i32, -1);
        result += self.add_occupied(row as i32, 0, col as i32, -1);
        result += self.add_occupied(row as i32, 1, col as i32, -1);
        result += self.add_occupied(row as i32, -1, col as i32, 0);
        result += self.add_occupied(row as i32, 1, col as i32, 0);
        result += self.add_occupied(row as i32, -1, col as i32, 1);
        result += self.add_occupied(row as i32, 0, col as i32, 1);
        result + self.add_occupied(row as i32, 1, col as i32, 1)
    }

    /// The number of occupied seats.
    pub fn count_occupied(&self) -> (count: u32)
        requires
            total_occupied(self@) <= u32::MAX,
        ensures
            count == total_occupied(self@),
    {
        let mut count: u32 = 0;
        let mut r: usize = 0;
        while r < self.layout.len()
            invariant
                r <= self.layout.len(),
                total_occupied(self@) <= u32::MAX,
                count == occupied_in_rows(self@, r as nat),
            decreases self.layout.len() - r,
        {
            let row = &self.layout[r];
            assert(self@[r as int] == row@);
            let mut c: usize = 0;
            proof {
                lemma_occupied_in_rows_grows(self@, (r + 1) as nat, self@.len());
            }
            while c < row.len()
                invariant
                    c <= row.len(),
                    r < self.layout.len(),
                    self@[r as int] == row@,
                    occupied_in_rows(self@, (r + 1) as nat) <= u32::MAX,
                    count == occupied_in_rows(self@, r as nat) + occupied_in_row(row@, c as nat),
                decreases row.len() - c,
            {
                proof {
                    lemma_occupied_in_row_grows(row@, (c + 1) as nat, row@.len());
                }
                if row[c] == '#' {
                    count += 1;
                }
                c += 1;
            }
            r += 1;
        }
        count
    }

    /// The layout after a round, by places round a seat or by seats in
    /// view; `None` where the round changes nothing.
    fn create_next(&self, visible: bool) -> (next: Option<Layout>)
        requires
            is_grid(self@),
        ensures
            match next {
                Some(layout) => layout@ == next_grid(self@, visible) && layout@ != self@,
                None => next_grid(self@, visible) == self@,
            },
    {
        let mut modified = false;
        let ghost mut changed_row: int = 0;
        let ghost mut changed_col: int = 0;
        let mut new_layout: Vec<Vec<char>> = Vec::new();
        let mut x: usize = 0;
        while x < self.layout.len()
            invariant
                x <= self.layout.len(),
                is_grid(self@),
                new_layout.len() == x,
                forall|r: int|
                    0 <= r < x ==> (#[trigger] new_layout[r])@ == next_grid(self@, visible)[r],
                modified ==> 0 <= changed_row < x && 0 <= changed_col < self@[changed_row].len()
                    && next_cell(self@, changed_row, changed_col, visible)
                    != self@[changed_row][changed_col],
                !modified ==> forall|r: int|
                    0 <= r < x ==> #[trigger] next_grid(self@, visible)[r] == self@[r],
            decreases self.layout.len() - x,
        {
            let row = &self.layout[x];
            assert(self@[x as int] == row@);
            assert(self@[0].len() == row@.len());
            let mut line: Vec<char> = Vec::new();
            let ghost was_modified = modified;
            let mut y: usize = 0;
            while y < row.len()
                invariant
                    y <= row.len(),
                    x < self.layout.len(),
                    is_grid(self@),
                    self@[x as int] == row@,
                    line.len() == y,
                    forall|c: int|
                        0 <= c < y ==> #[trigger] line[c] == next_cell(self@, x as int, c, visible),
                    modified ==> 0 <= changed_row <= x && 0 <= changed_col
                        < self@[changed_row].len() && next_cell(
                        self@,
                        changed_row,
                        changed_col,
                        visible,
                    ) != self@[changed_row][changed_col],
                    !modified ==> !was_modified && forall|c: int|
                        0 <= c < y ==> next_cell(self@, x as int, c, visible) == #[trigger] row[c],
                    was_modified ==> modified,
                decreases row.len() - y,
            {
                let val = row[y];
                let new_val = if val == 'L' {
                    let count = if visible {
                        self.count_visible_occupied(x, y)
                    } else {
                        self.count_adjacent_occupied(x, y)
                    };
                    if count == 0 {
                        '#'
                    } else {
                        'L'
                    }
                } else if val == '#' {
                    let count = if visible {
                        self.count_visible_occupied(x, y)
                    } else {
                        self.count_adjacent_occupied(x, y)
                    };
                    if (visible && count >= 5) || (!visible && count >= 4) {
                        'L'
                    } else {
                        '#'
                    }
                } else {
                    val
                };
                if new_val != val {
                    modified = true;
                    proof {
                        changed_row = x as int;
                        changed_col = y as int;
                    }
                }
                line.push(new_val);
                y += 1;
            }
            proof {
                assert(line@ =~= next_grid(self@, visible)[x as int]);
                if !modified {
                    assert(next_grid(self@, visible)[x as int] =~= self@[x as int]);
                }
            }
            new_layout.push(line);
            x += 1;
        }
        proof {
            assert(views(new_layout@) =~= next_grid(self@, visible));
            if modified {
                assert(next_grid(self@, visible)[changed_row][changed_col]
                    != self@[changed_row][changed_col]);
            } else {
                assert(next_grid(self@, visible) =~= self@);
            }
        }
        if modified {
            Some(Layout::from_lines(new_layout))
        } else {
            None
        }
    }

    /// The layout after a round in which seats look at the eight places
    /// round them and empty at four occupied ones; `None` where the round
    /// changes nothing.
    pub fn create_next_with_adjacent(&self) -> (next: Option<Layout>)
        requires
            is_grid(self@),
        ensures
            match next {
                Some(layout) => layout@ == next_grid(self@, false) && layout@ != self@,
                None => next_grid(self@, false) == self@,
            },
    {
        self.create_next(false)
    }

    /// The layout after a round in which seats look at the first seat in
    /// each of the eight directions and empty at five occupied ones; `None`
    /// where the round changes nothing.
    pub fn create_next_with_visible(&self) -> (next: Option<Layout>)
        requires
            is_grid(self@),
        ensures
            match next {
                Some(layout) => layout@ == next_grid(self@, true) && layout@ != self@,
                None => next_grid(self@, true) == self@,
            },
    {
        self.create_next(true)
    }

    /// A copy of the layout.
    pub fn copy(&self) -> (same: Layout)
        ensures
            same@ == self@,
    {
        let mut rows: Vec<Vec<char>> = Vec::new();
        let mut r: usize = 0;
        while r < self.layout.len()
            invariant
                r <= self.layout.len(),
                rows.len() == r,
                forall|i: int| 0 <= i < r ==> (#[trigger] rows[i])@ == self.layout[i]@,
            decreases self.layout.len() - r,
        {
            let row = &self.layout[r];
            let mut line: Vec<char> = Vec::new();
            let mut c: usize = 0;
            while c < row.len()
                invariant
                    c <= row.len(),
                    line@ == row@.take(c as int),
                decreases row.len() - c,
            {
                line.push(row[c]);
                proof {
                    assert(row@.take(c + 1) =~= row@.take(c as int).push(row[c as int]));
                }
                c += 1;
            }
            proof {
                assert(row@.take(c as int) =~= row@);
            }
            rows.push(line);
            r += 1;
        }
        proof {
            assert(views(rows@) =~= self@);
        }
        Layout::from_lines(rows)
    }

    /// The layout once rounds change nothing any more, as far as the
    /// budget allows to go; `None` where it does not allow to get there.
    fn settle(&self, visible: bool, budget: Budget) -> (settled: Option<Layout>)
        requires
            is_grid(self@),
            budget is Endless ==> settles_at(self@, visible, budget.fuel()),
        ensures
            match settled {
                Some(layout) => exists|k: nat|
                    k <= budget.fuel() && settles_at(self@, visible, k) && layout@
                        == #[trigger] after_rounds(self@, visible, k),
                None => forall|k: nat| k <= budget.fuel() ==> !settles_at(self@, visible, k),
            },
    {
        let ghost fuel = budget.fuel();
        let ghost mut k: nat = 0;
        let mut left = budget;
        let mut current = self.copy();
        loop
            invariant
                is_grid(self@),
                fuel == budget.fuel(),
                budget is Endless ==> settles_at(self@, visible, fuel),
                left is Endless <==> budget is Endless,
                k + left.fuel() == fuel,
                current@ == after_rounds(self@, visible, k),
                forall|j: nat|
                    j < k ==> next_grid(#[trigger] after_rounds(self@, visible, j), visible)
                        != after_rounds(self@, visible, j),
            decreases left.fuel(),
        {
            proof {
                lemma_rounds_are_grids(self@, visible, k);
            }
            match current.create_next(visible) {
                None => {
                    assert(settles_at(self@, visible, k));
                    return Some(current);
                },
                Some(next) => {
                    proof {
                        if budget is Endless && k == fuel {
                            assert(false);
                        }
                    }
                    match left.spend() {
                        Some(less) => {
                            left = less;
                        },
                        None => {
                            proof {
                                assert forall|m: nat| m <= fuel implies !settles_at(
                                    self@,
                                    visible,
                                    m,
                                ) by {
                                    if settles_at(self@, visible, m) && m < k {
                                        assert(next_grid(
                                            after_rounds(self@, visible, m),
                                            visible,
                                        ) != after_rounds(self@, visible, m));
                                    }
                                }
                            }
                            return None;
                        },
                    }
                    current = next;
                    proof {
                        k = k + 1;
                    }
                },
            }
        }
    }

    /// The layout once rounds change nothing any more, `rounds` rounds
    /// at most; `None` where it takes more. Seats look at the places
    /// round them, or where `visible` holds at the seats in view.
    pub fn settle_within(&self, visible: bool, rounds: usize) -> (settled: Option<Layout>)
        requires
            is_grid(self@),
        ensures
            match settled {
                Some(layout) => exists|k: nat|
                    k <= rounds && settles_at(self@, visible, k) && layout@
                        == #[trigger] after_rounds(self@, visible, k),
                None => forall|k: nat| k <= rounds ==> !settles_at(self@, visible, k),
            },
    {
        self.settle(visible, Budget::Counted(rounds))
    }

    /// The occupied seats once rounds change nothing any more.
    fn count_settled(&self, visible: bool) -> (count: u32)
        requires
            is_grid(self@),
            exists|k: nat| settles_at(self@, visible, k),
            forall|k: nat|
                settles_at(self@, visible, k) ==> total_occupied(
                    #[trigger] after_rounds(self@, visible, k),
                ) <= u32::MAX,
        ensures
            exists|k: nat|
                settles_at(self@, visible, k) && count == total_occupied(
                    #[trigger] after_rounds(self@, visible, k),
                ),
    {
        let ghost end = choose|k: nat| settles_at(self@, visible, k);
        match self.settle(visible, Budget::Endless(Ghost(end))) {
            Some(layout) => {
                let ghost k = choose|k: nat|
                    k <= end && settles_at(self@, visible, k) && layout@
                        == #[trigger] after_rounds(self@, visible, k);
                let count = layout.count_occupied();
                assert(settles_at(self@, visible, k) && count == total_occupied(
                    after_rounds(self@, visible, k),
                ));
                count
            },
            None => 0,
        }
    }
}

/// The occupied seats once rounds by the places round a seat change nothing any more.
pub fn part1(layout: &Layout) -> (count: u32)
    requires
        is_grid(layout@),
        exists|k: nat| settles_at(layout@, false, k),
        forall|k: nat|
            settles_at(layout@, false, k) ==> total_occupied(
                #[trigger] after_rounds(layout@, false, k),
            ) <= u32::MAX,
    ensures
        exists|k: nat|
            settles_at(layout@, false, k) && count == total_occupied(
                #[trigger] after_rounds(layout@, false, k),
            ),
{
    layout.count_settled(false)
}

/// The occupied seats once rounds by the seats in view change nothing any more.
pub fn part2(layout: &Layout) -> (count: u32)
    requires
        is_grid(layout@),
        exists|k: nat| settles_at(layout@, true, k),
        forall|k: nat|
            settles_at(layout@, true, k) ==> total_occupied(
                #[trigger] after_rounds(layout@, true, k),
            ) <= u32::MAX,
    ensures
        exists|k: nat|
            settles_at(layout@, true, k) && count == total_occupied(
                #[trigger] after_rounds(layout@, true, k),
            ),
{
    layout.count_settled(true)
}

/// The layout that the lines draw, one row per line.
pub fn read_layout(lines: &Vec<String>) -> (layout: Layout)
    ensures
        layout@ == lines@.map_values(|line: String| line@),
{
    let mut rows: Vec<Vec<char>> = Vec::new();
    let mut i: usize = 0;
    while i < lines.len()
        invariant
            i <= lines.len(),
            rows.len() == i,
            forall|j: int| 0 <= j < i ==> (#[trigger] rows[j])@ == lines[j]@,
        decreases lines.len() - i,
    {
        rows.push(chars_of(lines[i].as_str()));
        i += 1;
    }
    proof {
        assert(views(rows@) =~= lines@.map_values(|line: String| line@));
    }
    Layout::from_lines(rows)
}

} // verus!
