//! Day 24: hexagonal tiles that are flipped, and then live by rule.

use crate::text::chars_of;
use std::collections::HashSet;
use vstd::prelude::*;

verus! {

/// A step to a neighbouring tile.
#[derive(Debug, Clone, Copy, PartialEq, Eq, Structural)]
pub enum Step {
    E,
    SE,
    SW,
    W,
    NW,
    NE,
}

/// A tile, by its place: `x` counts half tiles to the east, `y` rows to the south.
#[derive(Debug, Clone, Copy, PartialEq, Eq, Structural)]
pub struct Point {
    pub x: i32,
    pub y: i32,
}

/// A place as a pair of integers.
pub type Spot = (int, int);

/// The place of a tile.
pub open spec fn spot(p: Point) -> Spot {
    (p.x as int, p.y as int)
}

/// The six places round a place.
pub open spec fn around(p: Spot) -> Seq<Spot> {
    seq![
        (p.0 + 2, p.1),
        (p.0 - 2, p.1),
        (p.0 - 1, p.1 - 1),
        (p.0 + 1, p.1 + 1),
        (p.0 - 1, p.1 + 1),
        (p.0 + 1, p.1 - 1),
    ]
}

/// The place lies so far inside the range of 32 bits that tiles `margin`
/// steps away can still be told.
pub open spec fn is_inside(p: Spot, margin: int) -> bool {
    i32::MIN + 2 * margin <= p.0 <= i32::MAX - 2 * margin && i32::MIN + margin <= p.1 <= i32::MAX
        - margin
}

impl Point {
    /// The tile at `x` and `y`.
    pub fn new(x: i32, y: i32) -> (p: Point)
        ensures
            p.x == x,
            p.y == y,
    {
        Point { x, y }
    }

    /// The six tiles round the tile.
    pub fn generate_adjacent(&self) -> (adjacent: Vec<Point>)
        requires
            is_inside(spot(*self), 1),
        ensures
            adjacent@.map_values(|p: Point| spot(p)) == around(spot(*self)),
    {
        let mut adjacent: Vec<Point> = Vec::new();
        adjacent.push(Point::new(self.x + 2, self.y));
        adjacent.push(Point::new(self.x - 2, self.y));
        adjacent.push(Point::new(self.x - 1, self.y - 1));
        adjacent.push(Point::new(self.x + 1, self.y + 1));
        adjacent.push(Point::new(self.x - 1, self.y + 1));
        adjacent.push(Point::new(self.x + 1, self.y - 1));
        proof {
            assert(adjacent@.map_values(|p: Point| spot(p)) =~= around(spot(*self)));
        }
        adjacent
    }
}

/// The number that stands for a place in the index of a set of tiles.
pub open spec fn key_of(p: Spot) -> int {
    (p.0 + 0x8000_0000) * 0x1_0000_0000 + (p.1 + 0x8000_0000)
}

/// The number that stands for a tile in the index of a set of tiles.
fn key(p: Point) -> (k: u64)
    ensures
        k == key_of(spot(p)),
{
    ((p.x as i64 + 0x8000_0000) as u64) * 0x1_0000_0000 + ((p.y as i64 + 0x8000_0000) as u64)
}

/// The places of some tiles.
pub open spec fn spots(list: Seq<Point>) -> Seq<Spot> {
    list.map_values(|p: Point| spot(p))
}

/// A set of tiles. Its view is the set of their places.
pub struct Tiles {
    list: Vec<Point>,
    index: HashSet<u64>,
}

impl View for Tiles {
    type V = Set<Spot>;

    closed spec fn view(&self) -> Set<Spot> {
        spots(self.list@).to_set()
    }
}

impl Tiles {
    /// The list holds no tile twice, and the index holds the numbers of the tiles listed.
    pub closed spec fn wf(&self) -> bool {
        &&& spots(self.list@).no_duplicates()
        &&& forall|p: Point|
            self.index@.contains(#[trigger] key_of(spot(p)) as u64) <==> spots(self.list@).contains(
                spot(p),
            )
    }

    /// The tiles, each once, in the order in which they came into the set.
    pub closed spec fn listed(&self) -> Seq<Spot> {
        spots(self.list@)
    }

    /// The list of a set holds each of its tiles once.
    pub proof fn lemma_listed(&self)
        requires
            self.wf(),
        ensures
            self.listed().no_duplicates(),
            self.listed().to_set() == self@,
            self.listed().len() == self@.len(),
            self@.finite(),
    {
        self.listed().unique_seq_to_set();
        vstd::seq_lib::seq_to_set_is_finite(self.listed());
    }

    /// The empty set.
    pub fn new() -> (tiles: Tiles)
        ensures
            tiles.wf(),
            tiles@ == Set::<Spot>::empty(),
    {
        let tiles = Tiles { list: Vec::new(), index: HashSet::new() };
        proof {
            assert(spots(tiles.list@) =~= Seq::<Spot>::empty());
            assert(tiles@ =~= Set::<Spot>::empty());
        }
        tiles
    }

    /// The number of tiles.
    pub fn len(&self) -> (count: usize)
        requires
            self.wf(),
        ensures
            count == self@.len(),
    {
        proof {
            self.lemma_listed();
        }
        self.list.len()
    }

    /// The tile at place `i` of the list.
    pub fn get(&self, i: usize) -> (p: Point)
        requires
            self.wf(),
            i < self@.len(),
        ensures
            spot(p) == self.listed()[i as int],
            self@.contains(spot(p)),
    {
        proof {
            self.lemma_listed();
            assert(spots(self.list@)[i as int] == spot(self.list[i as int]));
        }
        self.list[i]
    }

    /// Whether the tile is in the set.
    pub fn contains(&self, p: &Point) -> (found: bool)
        requires
            self.wf(),
        ensures
            found == self@.contains(spot(*p)),
    {
        broadcast use vstd::std_specs::hash::group_hash_axioms;

        let k = key(*p);
        self.index.contains(&k)
    }

    /// Puts the tile into the set.
    pub fn insert(&mut self, p: Point)
        requires
            old(self).wf(),
        ensures
            final(self).wf(),
            final(self)@ == old(self)@.insert(spot(p)),
    {
        broadcast use vstd::std_specs::hash::group_hash_axioms;

        let k = key(p);
        if !self.index.contains(&k) {
            let ghost before = spots(self.list@);
            self.index.insert(k);
            self.list.push(p);
            proof {
                assert(spots(self.list@) =~= before.push(spot(p)));
                assert forall|q: Point|
                    self.index@.contains(#[trigger] key_of(spot(q)) as u64) <==> spots(
                        self.list@,
                    ).contains(spot(q)) by {
                    if spot(q) == spot(p) {
                        assert(spots(self.list@)[before.len() as int] == spot(q));
                    } else {
                        assert(key_of(spot(q)) != key_of(spot(p)));
                        if before.contains(spot(q)) {
                            let i = choose|i: int| 0 <= i < before.len() && before[i] == spot(q);
                            assert(spots(self.list@)[i] == spot(q));
                        }
                        if spots(self.list@).contains(spot(q)) {
                            let now = spots(self.list@);
                            let i = choose|i: int| 0 <= i < now.len() && now[i] == spot(q);
                            assert(before[i] == spot(q));
                        }
                    }
                }
                assert(self@ =~= old(self)@.insert(spot(p))) by {
                    assert forall|s: Spot| self@.contains(s) <==> old(self)@.insert(
                        spot(p),
                    ).contains(s) by {
                        if before.contains(s) {
                            let i = choose|i: int| 0 <= i < before.len() && before[i] == s;
                            assert(spots(self.list@)[i] == s);
                        }
                        if s == spot(p) {
                            assert(spots(self.list@)[before.len() as int] == s);
                        }
                        if spots(self.list@).contains(s) {
                            let now = spots(self.list@);
                            let i = choose|i: int| 0 <= i < now.len() && now[i] == s;
                            if i < before.len() {
                                assert(before[i] == s);
                            }
                        }
                    }
                }
            }
        } else {
            proof {
                assert(self@ =~= old(self)@.insert(spot(p)));
            }
        }
    }

    /// Takes the tile out of the set.
    pub fn remove(&mut self, p: &Point)
        requires
            old(self).wf(),
        ensures
            final(self).wf(),
            final(self)@ == old(self)@.remove(spot(*p)),
    {
        broadcast use vstd::std_specs::hash::group_hash_axioms;

        let k = key(*p);
        let ghost before = spots(self.list@);
        let mut i: usize = 0;
        while i < self.list.len()
            invariant
                i <= self.list.len(),
                self.list@ == old(self).list@,
                self.index@ == old(self).index@,
                before == spots(self.list@),
                old(self).wf(),
                k == key_of(spot(*p)),
                forall|j: int| 0 <= j < i ==> before[j] != spot(*p),
            decreases self.list.len() - i,
        {
            if self.list[i].x == p.x && self.list[i].y == p.y {
                assert(before[i as int] == spot(*p));
                self.list.remove(i);
                self.index.remove(&k);
                proof {
                    let now = spots(self.list@);
                    assert(now =~= before.remove(i as int));
                    assert forall|a: int, b: int| 0 <= a < b < now.len() implies now[a] != now[b] by {
                        let a0 = if a < i { a } else { a + 1 };
                        let b0 = if b < i { b } else { b + 1 };
                        assert(before[a0] != before[b0]);
                    }
                    assert forall|s: Spot| now.contains(s) <==> (before.contains(s) && s != spot(
                        *p,
                    )) by {
                        if now.contains(s) {
                            let a = choose|a: int| 0 <= a < now.len() && now[a] == s;
                            let a0 = if a < i { a } else { a + 1 };
                            assert(before[a0] == s);
                            if s == spot(*p) {
                                assert(before[a0] != before[i as int]);
                            }
                        }
                        if before.contains(s) && s != spot(*p) {
                            let a0 = choose|a0: int| 0 <= a0 < before.len() && before[a0] == s;
                            let a = if a0 < i { a0 } else { a0 - 1 };
                            assert(now[a] == s);
                        }
                    }
                    assert forall|q: Point|
                        self.index@.contains(#[trigger] key_of(spot(q)) as u64) <==> now.contains(
                            spot(q),
                        ) by {
                        if spot(q) != spot(*p) {
                            assert(key_of(spot(q)) != key_of(spot(*p)));
                        }
                    }
                    assert(self@ =~= old(self)@.remove(spot(*p)));
                }
                return ;
            }
            i += 1;
        }
        proof {
            assert(!before.contains(spot(*p)));
            assert(self@ =~= old(self)@.remove(spot(*p)));
        }
    }
}


/// The place one step from a place.
pub open spec fn moved(p: Spot, step: Step) -> Spot {
    match step {
        Step::E => (p.0 + 2, p.1),
        Step::SE => (p.0 + 1, p.1 + 1),
        Step::SW => (p.0 - 1, p.1 + 1),
        Step::W => (p.0 - 2, p.1),
        Step::NW => (p.0 - 1, p.1 - 1),
        Step::NE => (p.0 + 1, p.1 - 1),
    }
}

/// The place reached from the tile in the middle by the first `k` steps.
pub open spec fn walked(steps: Seq<Step>, k: nat) -> Spot
    decreases k,
{
    if k == 0 {
        (0, 0)
    } else {
        moved(walked(steps, (k - 1) as nat), steps[k - 1])
    }
}

/// The set with the place flipped: out if it was in, in if it was out.
pub open spec fn toggled(s: Set<Spot>, p: Spot) -> Set<Spot> {
    if s.contains(p) {
        s.remove(p)
    } else {
        s.insert(p)
    }
}

/// The black tiles after the tiles that the first `k` lines lead to are flipped.
pub open spec fn flipped(lines: Seq<Vec<Step>>, k: nat) -> Set<Spot>
    decreases k,
{
    if k == 0 {
        Set::empty()
    } else {
        toggled(flipped(lines, (k - 1) as nat), walked(lines[k - 1]@, lines[k - 1]@.len()))
    }
}

/// Steps lead no further than twice their number to the east or west,
/// and their number to the north or south.
pub proof fn lemma_walked_bound(steps: Seq<Step>, k: nat)
    ensures
        -2 * k <= walked(steps, k).0 <= 2 * k,
        -k <= walked(steps, k).1 <= k,
    decreases k,
{
    if k > 0 {
        lemma_walked_bound(steps, (k - 1) as nat);
    }
}

/// The black tiles after each tile that a line of steps leads to is flipped.
pub fn part1(steps: &[Vec<Step>]) -> (flipped_tiles: Tiles)
    requires
        forall|i: int| 0 <= i < steps.len() ==> (#[trigger] steps[i]).len() <= 0x3fff_ffff,
    ensures
        flipped_tiles.wf(),
        flipped_tiles@ == flipped(steps@, steps@.len()),
{
    let mut tiles = Tiles::new();
    let mut i: usize = 0;
    while i < steps.len()
        invariant
            i <= steps.len(),
            forall|j: int| 0 <= j < steps.len() ==> (#[trigger] steps[j]).len() <= 0x3fff_ffff,
            tiles.wf(),
            tiles@ == flipped(steps@, i as nat),
        decreases steps.len() - i,
    {
        let line = &steps[i];
        let mut small_x: i32 = 0;
        let mut small_y: i32 = 0;
        let mut k: usize = 0;
        while k < line.len()
            invariant
                k <= line.len() <= 0x3fff_ffff,
                (small_x as int, small_y as int) == walked(line@, k as nat),
            decreases line.len() - k,
        {
            proof {
                lemma_walked_bound(line@, k as nat);
            }
            match line[k] {
                Step::E => {
                    small_x += 2;
                },
                Step::SE => {
                    small_x += 1;
                    small_y += 1;
                },
                Step::SW => {
                    small_x -= 1;
                    small_y += 1;
                },
                Step::W => {
                    small_x -= 2;
                },
                Step::NW => {
                    small_x -= 1;
                    small_y -= 1;
                },
                Step::NE => {
                    small_x += 1;
                    small_y -= 1;
                },
            }
            k += 1;
        }
        let p = Point::new(small_x, small_y);
        if tiles.contains(&p) {
            tiles.remove(&p);
        } else {
            tiles.insert(p);
        }
        i += 1;
    }
    tiles
}

/// One where the place is in the set, else zero.
pub open spec fn one_if_in(s: Set<Spot>, p: Spot) -> int {
    if s.contains(p) {
        1
    } else {
        0
    }
}

/// The number of black tiles round a place.
pub open spec fn black_around(s: Set<Spot>, p: Spot) -> int {
    one_if_in(s, (p.0 + 2, p.1)) + one_if_in(s, (p.0 - 2, p.1)) + one_if_in(s, (p.0 - 1, p.1 - 1))
        + one_if_in(s, (p.0 + 1, p.1 + 1)) + one_if_in(s, (p.0 - 1, p.1 + 1)) + one_if_in(
        s,
        (p.0 + 1, p.1 - 1),
    )
}

/// Whether the tile at a place is black the next day: a black tile with
/// one or two black tiles round it, or a white one with two.
pub open spec fn is_black_next(s: Set<Spot>, p: Spot) -> bool {
    if s.contains(p) {
        0 < black_around(s, p) < 3
    } else {
        black_around(s, p) == 2
    }
}

/// The black tiles of the next day.
pub open spec fn next_day(s: Set<Spot>) -> Set<Spot> {
    Set::new(|p: Spot| is_black_next(s, p))
}

/// The black tiles after `k` days.
pub open spec fn after_days(s: Set<Spot>, k: nat) -> Set<Spot>
    decreases k,
{
    if k == 0 {
        s
    } else {
        next_day(after_days(s, (k - 1) as nat))
    }
}

/// Every tile of the set lies `margin` steps inside the range of 32 bits.
pub open spec fn all_inside(s: Set<Spot>, margin: int) -> bool {
    forall|p: Spot| s.contains(p) ==> is_inside(p, margin)
}

/// The number of black tiles round a tile.
pub fn count_around(black: &Tiles, p: Point) -> (count: usize)
    requires
        black.wf(),
        is_inside(spot(p), 1),
    ensures
        count == black_around(black@, spot(p)),
{
    let mut count: usize = 0;
    if black.contains(&Point::new(p.x + 2, p.y)) {
        count += 1;
    }
    if black.contains(&Point::new(p.x - 2, p.y)) {
        count += 1;
    }
    if black.contains(&Point::new(p.x - 1, p.y - 1)) {
        count += 1;
    }
    if black.contains(&Point::new(p.x + 1, p.y + 1)) {
        count += 1;
    }
    if black.contains(&Point::new(p.x - 1, p.y + 1)) {
        count += 1;
    }
    if black.contains(&Point::new(p.x + 1, p.y - 1)) {
        count += 1;
    }
    count
}

/// The tile at `q` and the tiles round it are black the next day only if
/// they are in `next`, and those of them that are not black now also if.
pub open spec fn is_settled_round(s: Set<Spot>, next: Set<Spot>, q: Spot) -> bool {
    &&& is_black_next(s, q) ==> next.contains(q)
    &&& forall|n: int|
        0 <= n < 6 && !s.contains(#[trigger] around(q)[n]) && is_black_next(s, around(q)[n])
            ==> next.contains(around(q)[n])
}

/// A tile that turns black has a black tile round it, and is itself round that tile.
proof fn lemma_black_tile_near(s: Set<Spot>, p: Spot)
    requires
        black_around(s, p) > 0,
    ensures
        exists|n: int| 0 <= n < 6 && s.contains(#[trigger] around(p)[n]) && around(around(p)[n])[if n % 2 == 0 { n + 1 } else { n - 1 }] == p,
{
    if s.contains((p.0 + 2, p.1)) {
        assert(s.contains(around(p)[0]) && around(around(p)[0])[1] == p);
    } else if s.contains((p.0 - 2, p.1)) {
        assert(s.contains(around(p)[1]) && around(around(p)[1])[0] == p);
    } else if s.contains((p.0 - 1, p.1 - 1)) {
        assert(s.contains(around(p)[2]) && around(around(p)[2])[3] == p);
    } else if s.contains((p.0 + 1, p.1 + 1)) {
        assert(s.contains(around(p)[3]) && around(around(p)[3])[2] == p);
    } else if s.contains((p.0 - 1, p.1 + 1)) {
        assert(s.contains(around(p)[4]) && around(around(p)[4])[5] == p);
    } else {
        assert(s.contains(around(p)[5]) && around(around(p)[5])[4] == p);
    }
}

/// What is settled round a tile stays settled when more tiles turn black.
proof fn lemma_settled_stays(s: Set<Spot>, next: Set<Spot>, more: Set<Spot>, q: Spot)
    requires
        is_settled_round(s, next, q),
        next.subset_of(more),
    ensures
        is_settled_round(s, more, q),
{
    assert forall|n: int|
        0 <= n < 6 && !s.contains(#[trigger] around(q)[n]) && is_black_next(
            s,
            around(q)[n],
        ) implies more.contains(around(q)[n]) by {
        assert(next.contains(around(q)[n]));
    }
}

/// Puts into `new_black` the tile and those of the white tiles round it
/// that are black the next day.
fn settle_round(black: &Tiles, new_black: &mut Tiles, tile: Point, Ghost(margin): Ghost<int>)
    requires
        black.wf(),
        old(new_black).wf(),
        margin >= 2,
        all_inside(black@, margin),
        all_inside(old(new_black)@, margin - 1),
        black@.contains(spot(tile)),
        forall|p: Spot| old(new_black)@.contains(p) ==> is_black_next(black@, p),
    ensures
        final(new_black).wf(),
        all_inside(final(new_black)@, margin - 1),
        old(new_black)@.subset_of(final(new_black)@),
        forall|p: Spot| final(new_black)@.contains(p) ==> is_black_next(black@, p),
        is_settled_round(black@, final(new_black)@, spot(tile)),
{
    let ghost q = spot(tile);
    assert(is_inside(q, margin));
    let tile_adjacents = tile.generate_adjacent();
    let black_adjacent_count = count_around(black, tile);
    if black_adjacent_count > 0 && black_adjacent_count < 3 {
        new_black.insert(tile);
    }
    let mut a: usize = 0;
    assert(tile_adjacents@.len() == spots(tile_adjacents@).len());
    while a < 6
        invariant
            a <= 6,
            tile_adjacents@.len() == 6,
            spots(tile_adjacents@) == around(q),
            black.wf(),
            margin >= 2,
            is_inside(q, margin),
            all_inside(black@, margin),
            new_black.wf(),
            all_inside(new_black@, margin - 1),
            old(new_black)@.subset_of(new_black@),
            forall|p: Spot| new_black@.contains(p) ==> is_black_next(black@, p),
            is_black_next(black@, q) ==> new_black@.contains(q),
            forall|n: int|
                0 <= n < a && !black@.contains(#[trigger] around(q)[n]) && is_black_next(
                    black@,
                    around(q)[n],
                ) ==> new_black@.contains(around(q)[n]),
        decreases 6 - a,
    {
        let adjacent = tile_adjacents[a];
        assert(spots(tile_adjacents@)[a as int] == spot(adjacent));
        assert(is_inside(spot(adjacent), margin - 1));
        if !black.contains(&adjacent) {
            let adjacent_count = count_around(black, adjacent);
            if adjacent_count == 2 {
                new_black.insert(adjacent);
            }
        }
        a += 1;
    }
}

/// The black tiles of the next day.
fn one_day(black: &Tiles, Ghost(margin): Ghost<int>) -> (new_black: Tiles)
    requires
        black.wf(),
        margin >= 2,
        all_inside(black@, margin),
    ensures
        new_black.wf(),
        new_black@ == next_day(black@),
        all_inside(new_black@, margin - 1),
{
    let mut new_black = Tiles::new();
    let count = black.len();
    let mut i: usize = 0;
    proof {
        black.lemma_listed();
    }
    while i < count
        invariant
            i <= count == black@.len(),
            black.wf(),
            margin >= 2,
            all_inside(black@, margin),
            new_black.wf(),
            all_inside(new_black@, margin - 1),
            forall|p: Spot| new_black@.contains(p) ==> is_black_next(black@, p),
            forall|j: int|
                0 <= j < i ==> is_settled_round(black@, new_black@, #[trigger] black.listed()[j]),
        decreases count - i,
    {
        let tile = black.get(i);
        let ghost before_tile = new_black@;
        settle_round(black, &mut new_black, tile, Ghost(margin));
        proof {
            assert forall|j: int| 0 <= j < i + 1 implies is_settled_round(
                black@,
                new_black@,
                #[trigger] black.listed()[j],
            ) by {
                if j < i {
                    lemma_settled_stays(black@, before_tile, new_black@, black.listed()[j]);
                }
            }
        }
        i += 1;
    }
    proof {
        black.lemma_listed();
        assert forall|p: Spot| is_black_next(black@, p) implies new_black@.contains(p) by {
            if black@.contains(p) {
                assert(black.listed().to_set().contains(p));
                let j = choose|j: int| 0 <= j < black.listed().len() && black.listed()[j] == p;
                assert(is_settled_round(black@, new_black@, black.listed()[j]));
            } else {
                lemma_black_tile_near(black@, p);
                let n = choose|n: int|
                    0 <= n < 6 && black@.contains(#[trigger] around(p)[n]) && around(
                        around(p)[n],
                    )[if n % 2 == 0 {
                        n + 1
                    } else {
                        n - 1
                    }] == p;
                let q = around(p)[n];
                assert(black.listed().to_set().contains(q));
                let j = choose|j: int| 0 <= j < black.listed().len() && black.listed()[j] == q;
                assert(is_settled_round(black@, new_black@, black.listed()[j]));
                let back = if n % 2 == 0 {
                    n + 1
                } else {
                    n - 1
                };
                assert(around(q)[back] == p);
            }
        }
        assert(new_black@ =~= next_day(black@));
    }
    new_black
}

/// The number of black tiles after a hundred days.
pub fn part2(black: Tiles) -> (count: usize)
    requires
        black.wf(),
        all_inside(black@, 102),
    ensures
        count == after_days(black@, 100).len(),
{
    let mut current = black;
    let mut day: usize = 0;
    while day < 100
        invariant
            day <= 100,
            current.wf(),
            all_inside(current@, 102 - day),
            current@ == after_days(black@, day as nat),
        decreases 100 - day,
    {
        current = one_day(&current, Ghost(102 - day));
        day += 1;
    }
    current.len()
}

/// The steps that the first `k` characters of a line spell: `e` and `w`
/// by themselves, or behind an `n` or an `s`. The second part tells the
/// character that waits for the one behind it.
pub open spec fn steps_of(line: Seq<char>, k: nat) -> (Seq<Step>, Option<char>)
    decreases k,
{
    if k == 0 {
        (Seq::empty(), None)
    } else {
        let (steps, last) = steps_of(line, (k - 1) as nat);
        let ch = line[k - 1];
        match last {
            None => if ch == 'e' {
                (steps.push(Step::E), None)
            } else if ch == 'w' {
                (steps.push(Step::W), None)
            } else {
                (steps, Some(ch))
            },
            Some(pre) => if ch == 'e' && pre == 's' {
                (steps.push(Step::SE), None)
            } else if ch == 'e' && pre == 'n' {
                (steps.push(Step::NE), None)
            } else if ch == 'w' && pre == 'n' {
                (steps.push(Step::NW), None)
            } else {
                (steps.push(Step::SW), None)
            },
        }
    }
}

/// Every character that follows one that waits makes a step with it.
pub open spec fn is_steps_line(line: Seq<char>) -> bool {
    forall|k: nat|
        1 <= k <= line.len() ==> match (#[trigger] steps_of(line, (k - 1) as nat)).1 {
            None => true,
            Some(pre) => (line[k - 1] == 'e' || line[k - 1] == 'w') && (pre == 'n' || pre == 's'),
        }
}

/// The steps that each line spells.
pub fn read_steps(lines: &Vec<String>) -> (result: Vec<Vec<Step>>)
    requires
        forall|i: int| 0 <= i < lines.len() ==> is_steps_line(#[trigger] lines[i]@),
    ensures
        result.len() == lines.len(),
        forall|i: int|
            0 <= i < lines.len() ==> (#[trigger] result[i])@ == steps_of(lines[i]@, lines[i]@.len()).0,
{
    let mut result: Vec<Vec<Step>> = Vec::new();
    let mut i: usize = 0;
    while i < lines.len()
        invariant
            i <= lines.len(),
            forall|j: int| 0 <= j < lines.len() ==> is_steps_line(#[trigger] lines[j]@),
            result.len() == i,
            forall|j: int|
                0 <= j < i ==> (#[trigger] result[j])@ == steps_of(lines[j]@, lines[j]@.len()).0,
        decreases lines.len() - i,
    {
        let line = chars_of(lines[i].as_str());
        assert(is_steps_line(lines[i as int]@));
        let mut steps: Vec<Step> = Vec::new();
        let mut last: Option<char> = None;
        let mut k: usize = 0;
        while k < line.len()
            invariant
                k <= line.len(),
                is_steps_line(line@),
                (steps@, last) == steps_of(line@, k as nat),
            decreases line.len() - k,
        {
            let ch = line[k];
            proof {
                let before = steps_of(line@, ((k + 1) - 1) as nat);
                assert(before == steps_of(line@, k as nat));
            }
            match last {
                None => {
                    if ch == 'e' {
                        steps.push(Step::E);
                    } else if ch == 'w' {
                        steps.push(Step::W);
                    } else {
                        last = Some(ch);
                    }
                },
                Some(pre) => {
                    last = None;
                    if ch == 'e' && pre == 's' {
                        steps.push(Step::SE);
                    } else if ch == 'e' && pre == 'n' {
                        steps.push(Step::NE);
                    } else if ch == 'w' && pre == 'n' {
                        steps.push(Step::NW);
                    } else {
                        steps.push(Step::SW);
                    }
                },
            }
            k += 1;
        }
        result.push(steps);
        i += 1;
    }
    result
}

} // verus!
