//! Day 17: cubes in three and in four dimensions that switch on and off by rule.

use crate::text::chars_of;
use std::collections::HashMap;
use vstd::prelude::*;

verus! {

/// A place in space.
#[derive(Debug, Clone, Copy, PartialEq, Eq, Structural)]
pub struct Point {
    pub x: i32,
    pub y: i32,
    pub z: i32,
    pub w: i32,
}

/// A place as four integers.
pub type Cell = (int, int, int, int);

/// The place of a point.
pub open spec fn cell(p: Point) -> Cell {
    (p.x as int, p.y as int, p.z as int, p.w as int)
}

/// The place lies `margin` steps inside the range of 32 bits.
pub open spec fn is_inside(c: Cell, margin: int) -> bool {
    &&& i32::MIN + margin <= c.0 <= i32::MAX - margin
    &&& i32::MIN + margin <= c.1 <= i32::MAX - margin
    &&& i32::MIN + margin <= c.2 <= i32::MAX - margin
    &&& i32::MIN + margin <= c.3 <= i32::MAX - margin
}

/// The number that stands for a place in the index of a space.
pub open spec fn key_of(c: Cell) -> int {
    (((c.0 + 0x8000_0000) * 0x1_0000_0000 + (c.1 + 0x8000_0000)) * 0x1_0000_0000 + (c.2
        + 0x8000_0000)) * 0x1_0000_0000 + (c.3 + 0x8000_0000)
}

/// The number that stands for a point in the index of a space.
fn key(p: Point) -> (k: u128)
    ensures
        k == key_of(cell(p)),
{
    let a = (p.x as i64 + 0x8000_0000) as u128;
    let b = (p.y as i64 + 0x8000_0000) as u128;
    let c = (p.z as i64 + 0x8000_0000) as u128;
    let d = (p.w as i64 + 0x8000_0000) as u128;
    ((a * 0x1_0000_0000 + b) * 0x1_0000_0000 + c) * 0x1_0000_0000 + d
}

/// Different points have different numbers.
proof fn lemma_key_differs(p: Point, q: Point)
    requires
        cell(p) != cell(q),
    ensures
        key_of(cell(p)) != key_of(cell(q)),
{
    let a = p.x + 0x8000_0000;
    let b = p.y + 0x8000_0000;
    let c = p.z + 0x8000_0000;
    let d = p.w + 0x8000_0000;
    let e = q.x + 0x8000_0000;
    let f = q.y + 0x8000_0000;
    let g = q.z + 0x8000_0000;
    let h = q.w + 0x8000_0000;
    let k1 = a * 0x1_0000_0000 + b;
    let l1 = e * 0x1_0000_0000 + f;
    let k2 = k1 * 0x1_0000_0000 + c;
    let l2 = l1 * 0x1_0000_0000 + g;
    assert(k1 == l1 ==> a == e && b == f);
    assert(k2 == l2 ==> k1 == l1 && c == g);
    assert(k2 * 0x1_0000_0000 + d == l2 * 0x1_0000_0000 + h ==> k2 == l2 && d == h);
}

/// The places of the points listed.
pub open spec fn cells(list: Seq<(Point, bool)>) -> Seq<Cell> {
    list.map_values(|entry: (Point, bool)| cell(entry.0))
}

/// The cubes that are known, each with its state. The view maps the
/// place of each known cube to whether it is active.
pub struct Space {
    list: Vec<(Point, bool)>,
    index: HashMap<u128, bool>,
}

impl View for Space {
    type V = Map<Cell, bool>;

    closed spec fn view(&self) -> Map<Cell, bool> {
        Map::new(
            |c: Cell| cells(self.list@).contains(c),
            |c: Cell| self.list@[cells(self.list@).index_of(c)].1,
        )
    }
}

impl Space {
    /// The list holds no cube twice, and the index holds the cubes listed with their states.
    pub closed spec fn wf(&self) -> bool {
        &&& cells(self.list@).no_duplicates()
        &&& forall|p: Point|
            self.index@.contains_key(#[trigger] key_of(cell(p)) as u128) <==> cells(
                self.list@,
            ).contains(cell(p))
        &&& forall|i: int|
            0 <= i < self.list@.len() ==> self.index@[key_of(#[trigger] cells(self.list@)[i]) as u128]
                == self.list@[i].1
    }

    /// The places of the known cubes, each once.
    pub closed spec fn listed(&self) -> Seq<Cell> {
        cells(self.list@)
    }

    /// The list of a space holds each known place once, and only places
    /// that 32 bits can tell.
    pub proof fn lemma_listed(&self)
        requires
            self.wf(),
        ensures
            self.listed().no_duplicates(),
            forall|c: Cell| self@.contains_key(c) <==> self.listed().contains(c),
            forall|c: Cell| self@.contains_key(c) ==> is_inside(c, 0),
    {
        assert forall|c: Cell| self@.contains_key(c) implies is_inside(c, 0) by {
            let i = choose|i: int| 0 <= i < cells(self.list@).len() && cells(self.list@)[i] == c;
            assert(c == cell(self.list@[i].0));
        }
    }

    /// The empty space.
    pub fn new() -> (space: Space)
        ensures
            space.wf(),
            space@ == Map::<Cell, bool>::empty(),
    {
        let space = Space { list: Vec::new(), index: HashMap::new() };
        proof {
            assert(cells(space.list@) =~= Seq::<Cell>::empty());
            assert(space@ =~= Map::<Cell, bool>::empty());
        }
        space
    }

    /// The number of known cubes.
    pub fn len(&self) -> (count: usize)
        requires
            self.wf(),
        ensures
            count == self.listed().len(),
    {
        self.list.len()
    }

    /// The cube at place `i` of the list, and its state.
    pub fn entry(&self, i: usize) -> (found: (Point, bool))
        requires
            self.wf(),
            i < self.listed().len(),
        ensures
            cell(found.0) == self.listed()[i as int],
            self@.contains_key(cell(found.0)),
            self@[cell(found.0)] == found.1,
    {
        proof {
            let c = cells(self.list@)[i as int];
            assert(c == cell(self.list@[i as int].0));
            let j = cells(self.list@).index_of(c);
            assert(cells(self.list@).contains(c));
            if j != i {
                assert(cells(self.list@)[j] == cells(self.list@)[i as int]);
            }
        }
        self.list[i]
    }

    /// The state of the cube at `p`, if it is known.
    pub fn get(&self, p: &Point) -> (state: Option<bool>)
        requires
            self.wf(),
        ensures
            state == if self@.contains_key(cell(*p)) {
                Some(self@[cell(*p)])
            } else {
                None
            },
    {
        broadcast use vstd::std_specs::hash::group_hash_axioms;

        let k = key(*p);
        let found = self.index.get(&k);
        proof {
            if cells(self.list@).contains(cell(*p)) {
                let i = cells(self.list@).index_of(cell(*p));
                assert(cells(self.list@)[i] == cell(*p));
            }
        }
        match found {
            Some(state) => Some(*state),
            None => None,
        }
    }

    /// Notes the state of a cube that was not known.
    pub fn insert_new(&mut self, p: Point, state: bool)
        requires
            old(self).wf(),
            !old(self)@.contains_key(cell(p)),
        ensures
            final(self).wf(),
            final(self)@ == old(self)@.insert(cell(p), state),
    {
        broadcast use vstd::std_specs::hash::group_hash_axioms;

        let k = key(p);
        let ghost before = cells(self.list@);
        let ghost entries = self.list@;
        self.index.insert(k, state);
        self.list.push((p, state));
        proof {
            let now = cells(self.list@);
            assert(now =~= before.push(cell(p)));
            assert forall|c: Cell| now.contains(c) <==> (before.contains(c) || c == cell(p)) by {
                if before.contains(c) {
                    let i = choose|i: int| 0 <= i < before.len() && before[i] == c;
                    assert(now[i] == c);
                }
                if c == cell(p) {
                    assert(now[before.len() as int] == c);
                }
                if now.contains(c) {
                    let i = choose|i: int| 0 <= i < now.len() && now[i] == c;
                    if i < before.len() {
                        assert(before[i] == c);
                    }
                }
            }
            assert forall|q: Point|
                self.index@.contains_key(#[trigger] key_of(cell(q)) as u128) <==> now.contains(
                    cell(q),
                ) by {
                if cell(q) != cell(p) {
                    lemma_key_differs(q, p);
                }
            }
            assert forall|i: int| 0 <= i < self.list@.len() implies self.index@[key_of(
                #[trigger] now[i],
            ) as u128] == self.list@[i].1 by {
                if i < before.len() {
                    assert(now[i] == before[i]);
                    assert(before[i] == cell(entries[i].0));
                    assert(before.contains(before[i]));
                    lemma_key_differs(entries[i].0, p);
                }
            }
            assert forall|c: Cell| now.contains(c) implies #[trigger] self@[c] == old(
                self,
            )@.insert(cell(p), state)[c] by {
                let j = now.index_of(c);
                assert(now[j] == c);
                if c == cell(p) {
                    if j != before.len() {
                        assert(before[j] == c);
                        assert(before.contains(c));
                    }
                } else {
                    let j0 = before.index_of(c);
                    assert(before[j0] == c);
                    assert(now[j0] == c);
                    if j != j0 {
                        assert(now[j] == now[j0]);
                    }
                }
            }
            assert(self@ =~= old(self)@.insert(cell(p), state));
        }
    }
}


/// The place `i` of the box round a place: the box is gone through with
/// `x` changing fastest, then `y`, then `z`, then `w`.
pub open spec fn cell_near(p: Cell, fourth_search: int, i: int) -> Cell {
    (p.0 + i % 3 - 1, p.1 + (i / 3) % 3 - 1, p.2 + (i / 9) % 3 - 1, p.3 + i / 27 - fourth_search)
}

/// The number of places of the box round a place.
pub open spec fn box_size(fourth_search: int) -> int {
    27 * (2 * fourth_search + 1)
}

/// Whether the cube at a place is known and active.
pub open spec fn is_active(space: Map<Cell, bool>, c: Cell) -> bool {
    space.contains_key(c) && space[c]
}

/// How many of the first `k` places of the box round `p`, `p` itself
/// left out, hold an active cube.
pub open spec fn active_among(space: Map<Cell, bool>, p: Cell, fourth_search: int, k: nat) -> nat
    decreases k,
{
    if k == 0 {
        0
    } else {
        active_among(space, p, fourth_search, (k - 1) as nat) + if cell_near(
            p,
            fourth_search,
            k - 1,
        ) != p && is_active(space, cell_near(p, fourth_search, k - 1)) {
            1nat
        } else {
            0nat
        }
    }
}

/// The number of active cubes round a place.
pub open spec fn active_near(space: Map<Cell, bool>, p: Cell, fourth_search: int) -> nat {
    active_among(space, p, fourth_search, box_size(fourth_search) as nat)
}

/// Whether an unknown cube at `c` becomes known: it lies in the box
/// round a known cube, and three active cubes lie round it.
pub open spec fn comes_up(space: Map<Cell, bool>, c: Cell, fourth_search: int) -> bool {
    &&& !space.contains_key(c)
    &&& active_near(space, c, fourth_search) == 3
    &&& exists|p: Cell, i: int|
        space.contains_key(p) && 0 <= i < box_size(fourth_search) && #[trigger] cell_near(
            p,
            fourth_search,
            i,
        ) == c
}

/// The state of a cube after a tick: a known cube is active if three
/// active cubes lie round it, or two and it was active; a cube that
/// becomes known is active.
pub open spec fn next_state(space: Map<Cell, bool>, c: Cell, fourth_search: int) -> bool {
    if space.contains_key(c) {
        active_near(space, c, fourth_search) == 3 || (space[c] && active_near(
            space,
            c,
            fourth_search,
        ) == 2)
    } else {
        true
    }
}

/// The space after a tick.
pub open spec fn next_space(space: Map<Cell, bool>, fourth_search: int) -> Map<Cell, bool> {
    Map::new(
        |c: Cell| space.contains_key(c) || comes_up(space, c, fourth_search),
        |c: Cell| next_state(space, c, fourth_search),
    )
}

/// The space after `k` ticks.
pub open spec fn after_ticks(space: Map<Cell, bool>, fourth_search: int, k: nat) -> Map<Cell, bool>
    decreases k,
{
    if k == 0 {
        space
    } else {
        next_space(after_ticks(space, fourth_search, (k - 1) as nat), fourth_search)
    }
}

/// Every known cube lies `margin` steps inside the range of 32 bits.
pub open spec fn all_inside(space: Map<Cell, bool>, margin: int) -> bool {
    forall|c: Cell| space.contains_key(c) ==> is_inside(c, margin)
}

/// How many of the first `k` cubes listed are active.
pub open spec fn active_listed(space: Map<Cell, bool>, listed: Seq<Cell>, k: nat) -> nat
    decreases k,
{
    if k == 0 {
        0
    } else {
        active_listed(space, listed, (k - 1) as nat) + if space[listed[k - 1]] {
            1nat
        } else {
            0nat
        }
    }
}

/// The point at place `i` of the box round a point.
fn point_near(p: Point, fourth_search: i32, i: i32) -> (q: Point)
    requires
        0 <= fourth_search <= 1,
        0 <= i < box_size(fourth_search as int),
        is_inside(cell(p), 1),
    ensures
        cell(q) == cell_near(cell(p), fourth_search as int, i as int),
        is_inside(cell(p), 2) ==> is_inside(cell(q), 1),
{
    Point {
        x: p.x + (i % 3 - 1),
        y: p.y + ((i / 3) % 3 - 1),
        z: p.z + ((i / 9) % 3 - 1),
        w: p.w + (i / 27 - fourth_search),
    }
}

/// The number of active cubes round a point.
fn count_neighbours(space: &Space, p: Point, fourth_search: i32) -> (count: usize)
    requires
        space.wf(),
        0 <= fourth_search <= 1,
        is_inside(cell(p), 1),
    ensures
        count == active_near(space@, cell(p), fourth_search as int),
{
    let size: i32 = 27 * (2 * fourth_search + 1);
    let mut count: usize = 0;
    let mut i: i32 = 0;
    while i < size
        invariant
            0 <= i <= size == box_size(fourth_search as int),
            0 <= fourth_search <= 1,
            space.wf(),
            is_inside(cell(p), 1),
            count == active_among(space@, cell(p), fourth_search as int, i as nat),
            count <= i,
        decreases size - i,
    {
        let q = point_near(p, fourth_search, i);
        if !(q.x == p.x && q.y == p.y && q.z == p.z && q.w == p.w) {
            match space.get(&q) {
                Some(active) => {
                    if active {
                        count += 1;
                    }
                },
                None => {},
            }
        }
        i += 1;
    }
    count
}

/// Whatever is known in `next` is known after the tick, in the state noted.
pub open spec fn agrees(next: Map<Cell, bool>, space: Map<Cell, bool>, fourth_search: int) -> bool {
    forall|c: Cell|
        #[trigger] next.contains_key(c) ==> (space.contains_key(c) || comes_up(
            space,
            c,
            fourth_search,
        )) && next[c] == next_state(space, c, fourth_search)
}

/// What a tick asks for round the cube at `p` is done in `next`: `p`
/// is known there, and so is every cube of its box that comes up.
pub open spec fn is_done_round(
    space: Map<Cell, bool>,
    next: Map<Cell, bool>,
    p: Cell,
    fourth_search: int,
    upto: int,
) -> bool {
    forall|i: int|
        0 <= i < upto && comes_up(space, #[trigger] cell_near(p, fourth_search, i), fourth_search)
            ==> next.contains_key(cell_near(p, fourth_search, i))
}

/// What is done round a cube stays done when more cubes become known.
proof fn lemma_done_stays(
    space: Map<Cell, bool>,
    next: Map<Cell, bool>,
    more: Map<Cell, bool>,
    p: Cell,
    fourth_search: int,
)
    requires
        is_done_round(space, next, p, fourth_search, box_size(fourth_search)),
        next.contains_key(p),
        next.dom().subset_of(more.dom()),
    ensures
        is_done_round(space, more, p, fourth_search, box_size(fourth_search)),
        more.contains_key(p),
{
    assert forall|i: int|
        0 <= i < box_size(fourth_search) && comes_up(
            space,
            #[trigger] cell_near(p, fourth_search, i),
            fourth_search,
        ) implies more.contains_key(cell_near(p, fourth_search, i)) by {
        assert(next.dom().contains(cell_near(p, fourth_search, i)));
    }
    assert(next.dom().contains(p));
}

/// Notes in `next` the state after the tick of the cube at `p`, and of
/// the unknown cubes round it that come up.
fn tick_round(space: &Space, next: &mut Space, p: Point, is_active_now: bool, fourth_search: i32)
    requires
        space.wf(),
        old(next).wf(),
        0 <= fourth_search <= 1,
        all_inside(space@, 2),
        space@.contains_key(cell(p)),
        space@[cell(p)] == is_active_now,
        agrees(old(next)@, space@, fourth_search as int),
    ensures
        final(next).wf(),
        old(next)@.dom().subset_of(final(next)@.dom()),
        agrees(final(next)@, space@, fourth_search as int),
        final(next)@.contains_key(cell(p)),
        is_done_round(
            space@,
            final(next)@,
            cell(p),
            fourth_search as int,
            box_size(fourth_search as int),
        ),
{
    let size: i32 = 27 * (2 * fourth_search + 1);
    let mut active_neighbours: usize = 0;
    let mut i: i32 = 0;
    assert(is_inside(cell(p), 2));
    while i < size
        invariant
            0 <= i <= size == box_size(fourth_search as int),
            0 <= fourth_search <= 1,
            space.wf(),
            next.wf(),
            all_inside(space@, 2),
            is_inside(cell(p), 2),
            space@.contains_key(cell(p)),
            old(next)@.dom().subset_of(next@.dom()),
            agrees(next@, space@, fourth_search as int),
            active_neighbours == active_among(space@, cell(p), fourth_search as int, i as nat),
            active_neighbours <= i,
            is_done_round(space@, next@, cell(p), fourth_search as int, i as int),
        decreases size - i,
    {
        let this_point = point_near(p, fourth_search, i);
        let ghost q = cell(this_point);
        let ghost before = next@;
        if !(this_point.x == p.x && this_point.y == p.y && this_point.z == p.z && this_point.w
            == p.w) {
            match space.get(&this_point) {
                Some(neighbour) => {
                    if neighbour {
                        active_neighbours += 1;
                    }
                },
                None => {
                    let neighbours = count_neighbours(space, this_point, fourth_search);
                    if neighbours == 3 {
                        proof {
                            assert(cell_near(cell(p), fourth_search as int, i as int) == q);
                            assert(comes_up(space@, q, fourth_search as int));
                        }
                        if next.get(&this_point).is_none() {
                            next.insert_new(this_point, true);
                        }
                    }
                },
            }
        }
        proof {
            assert forall|j: int|
                0 <= j < i + 1 && comes_up(
                    space@,
                    #[trigger] cell_near(cell(p), fourth_search as int, j),
                    fourth_search as int,
                ) implies next@.contains_key(cell_near(cell(p), fourth_search as int, j)) by {
                if j < i {
                    assert(before.contains_key(cell_near(cell(p), fourth_search as int, j)));
                }
            }
        }
        i += 1;
    }
    let state = if is_active_now {
        active_neighbours == 2 || active_neighbours == 3
    } else {
        active_neighbours == 3
    };
    let ghost before = next@;
    if next.get(&p).is_none() {
        next.insert_new(p, state);
    }
    proof {
        assert forall|j: int|
            0 <= j < box_size(fourth_search as int) && comes_up(
                space@,
                #[trigger] cell_near(cell(p), fourth_search as int, j),
                fourth_search as int,
            ) implies next@.contains_key(cell_near(cell(p), fourth_search as int, j)) by {
            assert(before.contains_key(cell_near(cell(p), fourth_search as int, j)));
        }
    }
}

/// The game: the cubes that are known.
pub struct Game {
    pub space: Space,
}

impl Game {
    /// A tick in three dimensions.
    pub fn tick3d(&mut self)
        requires
            old(self).space.wf(),
            all_inside(old(self).space@, 2),
        ensures
            final(self).space.wf(),
            final(self).space@ == next_space(old(self).space@, 0),
    {
        self.tick(0)
    }

    /// A tick in four dimensions.
    pub fn tick4d(&mut self)
        requires
            old(self).space.wf(),
            all_inside(old(self).space@, 2),
        ensures
            final(self).space.wf(),
            final(self).space@ == next_space(old(self).space@, 1),
    {
        self.tick(1)
    }

    /// A tick: every known cube takes its next state, and the unknown
    /// cubes round known ones that have three active cubes round them
    /// become known. In the fourth dimension cubes are looked for
    /// `fourth_search` steps either way.
    pub fn tick(&mut self, fourth_search: i32)
        requires
            old(self).space.wf(),
            0 <= fourth_search <= 1,
            all_inside(old(self).space@, 2),
        ensures
            final(self).space.wf(),
            final(self).space@ == next_space(old(self).space@, fourth_search as int),
    {
        let mut new_space = Space::new();
        let count = self.space.len();
        let ghost space = self.space@;
        let ghost goal = next_space(space, fourth_search as int);
        let mut j: usize = 0;
        proof {
            self.space.lemma_listed();
        }
        while j < count
            invariant
                j <= count == self.space.listed().len(),
                self.space == old(self).space,
                space == self.space@,
                goal == next_space(space, fourth_search as int),
                self.space.wf(),
                0 <= fourth_search <= 1,
                all_inside(space, 2),
                new_space.wf(),
                agrees(new_space@, space, fourth_search as int),
                forall|k: int|
                    0 <= k < j ==> new_space@.contains_key(#[trigger] self.space.listed()[k])
                        && is_done_round(
                        space,
                        new_space@,
                        self.space.listed()[k],
                        fourth_search as int,
                        box_size(fourth_search as int),
                    ),
            decreases count - j,
        {
            let (point, is_active_now) = self.space.entry(j);
            let ghost before = new_space@;
            tick_round(&self.space, &mut new_space, point, is_active_now, fourth_search);
            proof {
                assert forall|k: int| 0 <= k < j + 1 implies new_space@.contains_key(
                    #[trigger] self.space.listed()[k],
                ) && is_done_round(
                    space,
                    new_space@,
                    self.space.listed()[k],
                    fourth_search as int,
                    box_size(fourth_search as int),
                ) by {
                    if k < j {
                        lemma_done_stays(
                            space,
                            before,
                            new_space@,
                            self.space.listed()[k],
                            fourth_search as int,
                        );
                    }
                }
            }
            j += 1;
        }
        proof {
            self.space.lemma_listed();
            assert forall|c: Cell| goal.contains_key(c) implies new_space@.contains_key(c) by {
                if space.contains_key(c) {
                    assert(self.space.listed().contains(c));
                    let k = choose|k: int|
                        0 <= k < self.space.listed().len() && self.space.listed()[k] == c;
                    assert(new_space@.contains_key(self.space.listed()[k]));
                } else {
                    assert(comes_up(space, c, fourth_search as int));
                    let (p, i) = choose|p: Cell, i: int|
                        space.contains_key(p) && 0 <= i < box_size(fourth_search as int)
                            && #[trigger] cell_near(p, fourth_search as int, i) == c;
                    assert(self.space.listed().contains(p));
                    let k = choose|k: int|
                        0 <= k < self.space.listed().len() && self.space.listed()[k] == p;
                    assert(is_done_round(
                        space,
                        new_space@,
                        self.space.listed()[k],
                        fourth_search as int,
                        box_size(fourth_search as int),
                    ));
                }
            }
            assert(new_space@ =~= goal);
        }
        self.space = new_space;
    }

    /// The number of active cubes.
    pub fn count_active(&self) -> (count: usize)
        requires
            self.space.wf(),
        ensures
            count == active_listed(self.space@, self.space.listed(), self.space.listed().len()),
    {
        let total = self.space.len();
        let mut result: usize = 0;
        let mut i: usize = 0;
        while i < total
            invariant
                i <= total == self.space.listed().len(),
                self.space.wf(),
                result == active_listed(self.space@, self.space.listed(), i as nat),
                result <= i,
            decreases total - i,
        {
            let (_, active) = self.space.entry(i);
            if active {
                result += 1;
            }
            i += 1;
        }
        result
    }
}


/// The places of the active cubes.
pub open spec fn active_set(space: Map<Cell, bool>) -> Set<Cell> {
    Set::new(|c: Cell| is_active(space, c))
}

/// The active ones among the first `k` places listed.
spec fn active_part(space: Map<Cell, bool>, listed: Seq<Cell>, k: nat) -> Set<Cell> {
    Set::new(|c: Cell| exists|i: int| 0 <= i < k && listed[i] == c && space[c])
}

/// Counting the active cubes along a list that holds each once counts their set.
proof fn lemma_active_part(space: Map<Cell, bool>, listed: Seq<Cell>, k: nat)
    requires
        listed.no_duplicates(),
        k <= listed.len(),
    ensures
        active_part(space, listed, k).finite(),
        active_part(space, listed, k).len() == active_listed(space, listed, k),
    decreases k,
{
    if k == 0 {
        assert(active_part(space, listed, 0) =~= Set::<Cell>::empty());
    } else {
        lemma_active_part(space, listed, (k - 1) as nat);
        let before = active_part(space, listed, (k - 1) as nat);
        let x = listed[k - 1];
        if space[x] {
            assert(!before.contains(x)) by {
                if before.contains(x) {
                    let i = choose|i: int| 0 <= i < k - 1 && listed[i] == x && space[x];
                    assert(listed[i] == listed[k - 1]);
                }
            }
            assert(active_part(space, listed, k) =~= before.insert(x)) by {
                assert forall|c: Cell| active_part(space, listed, k).contains(c) <==> before.insert(
                    x,
                ).contains(c) by {
                    if active_part(space, listed, k).contains(c) {
                        let i = choose|i: int| 0 <= i < k && listed[i] == c && space[c];
                        if i < k - 1 {
                            assert(before.contains(c));
                        }
                    }
                    if before.contains(c) {
                        let i = choose|i: int| 0 <= i < k - 1 && listed[i] == c && space[c];
                        assert(0 <= i < k && listed[i] == c && space[c]);
                    }
                    if c == x {
                        assert(0 <= k - 1 < k && listed[k - 1] == c && space[c]);
                    }
                }
            }
        } else {
            assert(active_part(space, listed, k) =~= before) by {
                assert forall|c: Cell| active_part(space, listed, k).contains(c) <==> before.contains(
                    c,
                ) by {
                    if active_part(space, listed, k).contains(c) {
                        let i = choose|i: int| 0 <= i < k && listed[i] == c && space[c];
                        assert(i < k - 1);
                    }
                    if before.contains(c) {
                        let i = choose|i: int| 0 <= i < k - 1 && listed[i] == c && space[c];
                        assert(0 <= i < k && listed[i] == c && space[c]);
                    }
                }
            }
        }
    }
}

/// A tick makes known only cubes next to known ones.
pub proof fn lemma_next_inside(space: Map<Cell, bool>, fourth_search: int, margin: int)
    requires
        0 <= fourth_search <= 1,
        all_inside(space, margin),
    ensures
        all_inside(next_space(space, fourth_search), margin - 1),
{
    assert forall|c: Cell| next_space(space, fourth_search).contains_key(c) implies is_inside(
        c,
        margin - 1,
    ) by {
        if !space.contains_key(c) {
            assert(comes_up(space, c, fourth_search));
            let (p, i) = choose|p: Cell, i: int|
                space.contains_key(p) && 0 <= i < box_size(fourth_search) && #[trigger] cell_near(
                    p,
                    fourth_search,
                    i,
                ) == c;
            assert(is_inside(p, margin));
            assert(0 <= i % 3 < 3 && 0 <= (i / 3) % 3 < 3 && 0 <= (i / 9) % 3 < 3 && 0 <= i / 27 <= 2
                * fourth_search);
            assert(c.0 == p.0 + i % 3 - 1);
            assert(c.1 == p.1 + (i / 3) % 3 - 1);
            assert(c.2 == p.2 + (i / 9) % 3 - 1);
            assert(c.3 == p.3 + i / 27 - fourth_search);
        } else {
            assert(is_inside(c, margin));
        }
    }
}

impl Game {
    /// The number of active cubes is the size of their set.
    pub proof fn lemma_count(&self)
        requires
            self.space.wf(),
        ensures
            active_set(self.space@).finite(),
            active_listed(self.space@, self.space.listed(), self.space.listed().len())
                == active_set(self.space@).len(),
    {
        self.space.lemma_listed();
        let listed = self.space.listed();
        lemma_active_part(self.space@, listed, listed.len());
        assert(active_part(self.space@, listed, listed.len()) =~= active_set(self.space@)) by {
            assert forall|c: Cell| active_part(self.space@, listed, listed.len()).contains(c)
                <==> active_set(self.space@).contains(c) by {
                if active_part(self.space@, listed, listed.len()).contains(c) {
                    let i = choose|i: int| 0 <= i < listed.len() && listed[i] == c && self.space@[c];
                    assert(listed.contains(c));
                }
                if active_set(self.space@).contains(c) {
                    assert(listed.contains(c));
                    let i = choose|i: int| 0 <= i < listed.len() && listed[i] == c;
                    assert(0 <= i < listed.len() && listed[i] == c && self.space@[c]);
                }
            }
        }
    }

    /// A copy of the game.
    pub fn copy(&self) -> (game: Game)
        requires
            self.space.wf(),
        ensures
            game.space.wf(),
            game.space@ == self.space@,
    {
        let mut space = Space::new();
        let count = self.space.len();
        let mut i: usize = 0;
        proof {
            self.space.lemma_listed();
        }
        while i < count
            invariant
                i <= count == self.space.listed().len(),
                self.space.wf(),
                self.space.listed().no_duplicates(),
                space.wf(),
                forall|c: Cell|
                    space@.contains_key(c) <==> exists|k: int|
                        0 <= k < i && self.space.listed()[k] == c,
                forall|c: Cell| space@.contains_key(c) ==> space@[c] == self.space@[c],
            decreases count - i,
        {
            let (point, active) = self.space.entry(i);
            let ghost before = space@;
            proof {
                if before.contains_key(cell(point)) {
                    let k = choose|k: int| 0 <= k < i && self.space.listed()[k] == cell(point);
                    assert(self.space.listed()[k] == self.space.listed()[i as int]);
                }
            }
            space.insert_new(point, active);
            proof {
                assert forall|c: Cell|
                    space@.contains_key(c) <==> exists|k: int|
                        0 <= k < i + 1 && self.space.listed()[k] == c by {
                    if before.contains_key(c) {
                        let k = choose|k: int| 0 <= k < i && self.space.listed()[k] == c;
                        assert(0 <= k < i + 1 && self.space.listed()[k] == c);
                    }
                    if c == cell(point) {
                        assert(0 <= i < i + 1 && self.space.listed()[i as int] == c);
                    }
                    if exists|k: int| 0 <= k < i + 1 && self.space.listed()[k] == c {
                        let k = choose|k: int| 0 <= k < i + 1 && self.space.listed()[k] == c;
                        if k < i {
                            assert(before.contains_key(c));
                        }
                    }
                }
            }
            i += 1;
        }
        proof {
            assert forall|c: Cell| space@.contains_key(c) <==> self.space@.contains_key(c) by {
                if space@.contains_key(c) {
                    let k = choose|k: int| 0 <= k < count && self.space.listed()[k] == c;
                    assert(self.space.listed().contains(c));
                }
                if self.space@.contains_key(c) {
                    assert(self.space.listed().contains(c));
                    let k = choose|k: int|
                        0 <= k < self.space.listed().len() && self.space.listed()[k] == c;
                    assert(0 <= k < count && self.space.listed()[k] == c);
                }
            }
            assert(space@ =~= self.space@);
        }
        Game { space }
    }

    /// The number of active cubes after six ticks.
    fn six_ticks(&self, fourth_search: i32) -> (count: usize)
        requires
            self.space.wf(),
            0 <= fourth_search <= 1,
            all_inside(self.space@, 7),
        ensures
            count == active_set(after_ticks(self.space@, fourth_search as int, 6)).len(),
    {
        let mut game = self.copy();
        let mut round: usize = 0;
        while round < 6
            invariant
                round <= 6,
                0 <= fourth_search <= 1,
                game.space.wf(),
                all_inside(game.space@, 7 - round),
                game.space@ == after_ticks(self.space@, fourth_search as int, round as nat),
            decreases 6 - round,
        {
            proof {
                lemma_next_inside(game.space@, fourth_search as int, 7 - round);
                assert forall|c: Cell| game.space@.contains_key(c) implies is_inside(c, 2) by {
                    assert(is_inside(c, 7 - round));
                }
            }
            game.tick(fourth_search);
            round += 1;
        }
        proof {
            game.lemma_count();
        }
        game.count_active()
    }
}

/// The number of active cubes after six ticks in three dimensions.
pub fn part1(game: &Game) -> (count: usize)
    requires
        game.space.wf(),
        all_inside(game.space@, 7),
    ensures
        count == active_set(after_ticks(game.space@, 0, 6)).len(),
{
    game.six_ticks(0)
}

/// The number of active cubes after six ticks in four dimensions.
pub fn part2(game: &Game) -> (count: usize)
    requires
        game.space.wf(),
        all_inside(game.space@, 7),
    ensures
        count == active_set(after_ticks(game.space@, 1, 6)).len(),
{
    game.six_ticks(1)
}

/// The space that lines of a map draw: a cube for each character, in
/// the plane where `z` and `w` are zero, active where the character is `#`.
pub open spec fn drawn(lines: Seq<String>) -> Map<Cell, bool> {
    Map::new(
        |c: Cell| c.2 == 0 && c.3 == 0 && 0 <= c.1 < lines.len() && 0 <= c.0 < lines[c.1]@.len(),
        |c: Cell| lines[c.1]@[c.0] == '#',
    )
}

/// Whether a place lies in the part of the map that is drawn before
/// column `x` of row `y` is.
pub open spec fn is_drawn_before(lines: Seq<String>, c: Cell, y: int, x: int) -> bool {
    drawn(lines).contains_key(c) && (c.1 < y || (c.1 == y && c.0 < x))
}

/// The game that the lines of a map draw.
pub fn read_game(lines: &Vec<String>) -> (game: Game)
    requires
        lines.len() <= i32::MAX,
        forall|i: int| 0 <= i < lines.len() ==> (#[trigger] lines[i])@.len() <= i32::MAX,
    ensures
        game.space.wf(),
        game.space@ == drawn(lines@),
{
    let mut space = Space::new();
    let mut y: usize = 0;
    while y < lines.len()
        invariant
            y <= lines.len() <= i32::MAX,
            forall|i: int| 0 <= i < lines.len() ==> (#[trigger] lines[i])@.len() <= i32::MAX,
            space.wf(),
            forall|c: Cell| space@.contains_key(c) <==> is_drawn_before(lines@, c, y as int, 0),
            forall|c: Cell| space@.contains_key(c) ==> space@[c] == drawn(lines@)[c],
        decreases lines.len() - y,
    {
        let line = chars_of(lines[y].as_str());
        let mut x: usize = 0;
        while x < line.len()
            invariant
                x <= line.len() <= i32::MAX,
                y < lines.len() <= i32::MAX,
                line@ == lines[y as int]@,
                space.wf(),
                forall|c: Cell|
                    space@.contains_key(c) <==> is_drawn_before(lines@, c, y as int, x as int),
                forall|c: Cell| space@.contains_key(c) ==> space@[c] == drawn(lines@)[c],
            decreases line.len() - x,
        {
            let point = Point { x: x as i32, y: y as i32, z: 0, w: 0 };
            space.insert_new(point, line[x] == '#');
            x += 1;
        }
        y += 1;
    }
    proof {
        assert(space@ =~= drawn(lines@));
    }
    Game { space }
}

} // verus!
