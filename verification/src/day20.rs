//! Day 20: square tiles of an image, and the four that are its corners.

use crate::text::{
    chars_of, parse_unsigned_chars, remove_char, split, split_chars, starts_with, unsigned_value,
    views, without,
};
use vstd::string::StrSliceExecFns;
use vstd::utf8::encode_utf8;
use vstd::prelude::*;

verus! {

/// A tile of the image: its number and its rows.
pub struct Tile {
    pub id: u32,
    pub data: Vec<Vec<u8>>,
}

/// The rows of a tile.
pub open spec fn rows_of(tile: Tile) -> Seq<Seq<u8>> {
    views(tile.data@)
}

/// A tile has rows, and no row is empty.
pub open spec fn has_edges(rows: Seq<Seq<u8>>) -> bool {
    rows.len() > 0 && forall|r: int| 0 <= r < rows.len() ==> (#[trigger] rows[r]).len() > 0
}

/// The four edges of a tile: the upper and the lower, each from left to
/// right, and the left and the right, each from top to bottom.
pub open spec fn edges_of(rows: Seq<Seq<u8>>) -> Seq<Seq<u8>> {
    seq![
        rows[0],
        rows[rows.len() - 1],
        Seq::new(rows.len(), |r: int| rows[r][0]),
        Seq::new(rows.len(), |r: int| rows[r][rows[r].len() - 1]),
    ]
}

/// Whether an edge fits another, as it is or turned round.
pub open spec fn fits(edge: Seq<u8>, other: Seq<u8>) -> bool {
    other == edge || other == edge.reverse()
}

/// Whether an edge fits one of the edges of a tile.
pub open spec fn fits_tile(edge: Seq<u8>, rows: Seq<Seq<u8>>) -> bool {
    exists|b: int| 0 <= b < 4 && fits(edge, #[trigger] edges_of(rows)[b])
}

/// How many of the first `k` tiles with another number than `id` have an
/// edge that `edge` fits.
pub open spec fn tiles_fitting(tiles: Seq<Tile>, id: u32, edge: Seq<u8>, k: nat) -> nat
    decreases k,
{
    if k == 0 {
        0
    } else {
        tiles_fitting(tiles, id, edge, (k - 1) as nat) + if tiles[k - 1].id != id && fits_tile(
            edge,
            rows_of(tiles[k - 1]),
        ) {
            1nat
        } else {
            0nat
        }
    }
}

/// How many pairs there are of one of the first `a` edges of tile `t` and
/// another tile with an edge that it fits.
pub open spec fn neighbours_of(tiles: Seq<Tile>, t: int, a: nat) -> nat
    decreases a,
{
    if a == 0 {
        0
    } else {
        neighbours_of(tiles, t, (a - 1) as nat) + tiles_fitting(
            tiles,
            tiles[t].id,
            edges_of(rows_of(tiles[t]))[a - 1],
            tiles.len(),
        )
    }
}

/// The product of the numbers of those of the first `k` tiles that have
/// just two neighbours: the corners of the image.
pub open spec fn corner_product(tiles: Seq<Tile>, k: nat) -> int
    decreases k,
{
    if k == 0 {
        1
    } else if neighbours_of(tiles, k - 1, 4) == 2 {
        corner_product(tiles, (k - 1) as nat) * tiles[k - 1].id
    } else {
        corner_product(tiles, (k - 1) as nat)
    }
}

/// The tiles have edges, no two have the same number, and neither the
/// count of neighbours nor the product of corners overflows.
pub open spec fn can_assemble(tiles: Seq<Tile>) -> bool {
    &&& 4 * tiles.len() <= usize::MAX
    &&& forall|t: int| 0 <= t < tiles.len() ==> has_edges(rows_of(#[trigger] tiles[t]))
    &&& forall|s: int, t: int| 0 <= s < t < tiles.len() ==> tiles[s].id != tiles[t].id
    &&& forall|k: nat| k <= tiles.len() ==> #[trigger] corner_product(tiles, k) <= u64::MAX
}

/// The four edges of a tile.
pub fn edges(tile: &Tile) -> (found: Vec<Vec<u8>>)
    requires
        has_edges(rows_of(*tile)),
    ensures
        views(found@) == edges_of(rows_of(*tile)),
{
    let ghost rows = rows_of(*tile);
    let height = tile.data.len();
    assert(tile.data@.len() == rows.len());
    let mut upper: Vec<u8> = Vec::new();
    let mut bottom: Vec<u8> = Vec::new();
    let mut left: Vec<u8> = Vec::new();
    let mut right: Vec<u8> = Vec::new();
    let first = &tile.data[0];
    let last = &tile.data[height - 1];
    assert(rows[0] == first@);
    assert(rows[height - 1] == last@);
    let mut i: usize = 0;
    while i < first.len()
        invariant
            i <= first.len(),
            upper@ == first@.take(i as int),
        decreases first.len() - i,
    {
        upper.push(first[i]);
        proof {
            assert(first@.take(i + 1) =~= first@.take(i as int).push(first[i as int]));
        }
        i += 1;
    }
    proof {
        assert(first@.take(i as int) =~= first@);
    }
    i = 0;
    while i < last.len()
        invariant
            i <= last.len(),
            bottom@ == last@.take(i as int),
        decreases last.len() - i,
    {
        bottom.push(last[i]);
        proof {
            assert(last@.take(i + 1) =~= last@.take(i as int).push(last[i as int]));
        }
        i += 1;
    }
    proof {
        assert(last@.take(i as int) =~= last@);
    }
    let mut r: usize = 0;
    while r < height
        invariant
            r <= height == tile.data.len(),
            rows == rows_of(*tile),
            has_edges(rows),
            left.len() == r,
            right.len() == r,
            forall|j: int| 0 <= j < r ==> #[trigger] left[j] == rows[j][0],
            forall|j: int| 0 <= j < r ==> #[trigger] right[j] == rows[j][rows[j].len() - 1],
        decreases height - r,
    {
        let row = &tile.data[r];
        assert(rows[r as int] == row@);
        left.push(row[0]);
        right.push(row[row.len() - 1]);
        r += 1;
    }
    let mut found: Vec<Vec<u8>> = Vec::new();
    found.push(upper);
    found.push(bottom);
    found.push(left);
    found.push(right);
    proof {
        assert(found[2]@ =~= edges_of(rows)[2]);
        assert(found[3]@ =~= edges_of(rows)[3]);
        assert(views(found@) =~= edges_of(rows));
    }
    found
}

/// Whether an edge fits another, as it is or turned round.
pub fn check_fit(edge: &Vec<u8>, other: &Vec<u8>) -> (fit: bool)
    ensures
        fit == fits(edge@, other@),
{
    if edge.len() != other.len() {
        return false;
    }
    let len = edge.len();
    let mut same = true;
    let mut turned = true;
    let mut i: usize = 0;
    while i < len
        invariant
            i <= len == edge.len() == other.len(),
            same <==> forall|j: int| 0 <= j < i ==> other[j] == edge[j],
            turned <==> forall|j: int| 0 <= j < i ==> other[j] == edge[len - 1 - j],
        decreases len - i,
    {
        if other[i] != edge[i] {
            same = false;
        }
        if other[i] != edge[len - 1 - i] {
            turned = false;
        }
        i += 1;
    }
    proof {
        if same {
            assert(other@ =~= edge@);
        } else {
            let j = choose|j: int| 0 <= j < len && other[j] != edge[j];
            assert(other@[j] != edge@[j]);
        }
        if turned {
            assert(other@ =~= edge@.reverse());
        } else {
            let j = choose|j: int| 0 <= j < len && other[j] != edge[len - 1 - j];
            assert(other@[j] != edge@.reverse()[j]);
        }
    }
    same || turned
}

/// The product of the numbers of the tiles that have just two
/// neighbours: an edge and another tile with an edge that it fits count
/// as one neighbour.
pub fn part1(tiles: &[Tile]) -> (product: u64)
    requires
        can_assemble(tiles@),
    ensures
        product == corner_product(tiles@, tiles@.len()),
{
    let mut all_edges: Vec<Vec<Vec<u8>>> = Vec::new();
    let mut t: usize = 0;
    while t < tiles.len()
        invariant
            t <= tiles.len(),
            can_assemble(tiles@),
            all_edges.len() == t,
            forall|i: int|
                0 <= i < t ==> views((#[trigger] all_edges[i])@) == edges_of(rows_of(tiles[i])),
        decreases tiles.len() - t,
    {
        assert(has_edges(rows_of(tiles[t as int])));
        all_edges.push(edges(&tiles[t]));
        t += 1;
    }
    let mut result: u64 = 1;
    t = 0;
    while t < tiles.len()
        invariant
            t <= tiles.len() == all_edges.len(),
            can_assemble(tiles@),
            forall|i: int|
                0 <= i < tiles.len() ==> views((#[trigger] all_edges[i])@) == edges_of(
                    rows_of(tiles[i]),
                ),
            result == corner_product(tiles@, t as nat),
        decreases tiles.len() - t,
    {
        let mut valid_neighbours: usize = 0;
        let mut a: usize = 0;
        assert(views(all_edges[t as int]@) == edges_of(rows_of(tiles[t as int])));
        assert(all_edges[t as int]@.len() == views(all_edges[t as int]@).len());
        while a < 4
            invariant
                a <= 4,
                t < tiles.len() == all_edges.len(),
                4 * tiles.len() <= usize::MAX,
                all_edges[t as int]@.len() == 4,
                forall|i: int|
                    0 <= i < tiles.len() ==> views((#[trigger] all_edges[i])@) == edges_of(
                        rows_of(tiles[i]),
                    ),
                valid_neighbours == neighbours_of(tiles@, t as int, a as nat),
                valid_neighbours <= a * tiles.len(),
            decreases 4 - a,
        {
            let edge = &all_edges[t][a];
            assert(views(all_edges[t as int]@)[a as int] == edge@);
            let mut n: usize = 0;
            let ghost base = valid_neighbours;
            while n < tiles.len()
                invariant
                    n <= tiles.len() == all_edges.len(),
                    4 * tiles.len() <= usize::MAX,
                    t < tiles.len(),
                    a < 4,
                    edge@ == edges_of(rows_of(tiles[t as int]))[a as int],
                    forall|i: int|
                        0 <= i < tiles.len() ==> views((#[trigger] all_edges[i])@) == edges_of(
                            rows_of(tiles[i]),
                        ),
                    valid_neighbours == base + tiles_fitting(
                        tiles@,
                        tiles[t as int].id,
                        edge@,
                        n as nat,
                    ),
                    base <= a * tiles.len(),
                    valid_neighbours <= base + n,
                decreases tiles.len() - n,
            {
                if tiles[n].id != tiles[t].id {
                    let theirs = &all_edges[n];
                    assert(views(theirs@) == edges_of(rows_of(tiles[n as int])));
                    assert(theirs@.len() == views(theirs@).len());
                    let mut found = false;
                    let mut b: usize = 0;
                    while b < 4
                        invariant
                            b <= 4,
                            theirs@.len() == 4,
                            found <==> exists|c: int|
                                0 <= c < b && fits(edge@, #[trigger] views(theirs@)[c]),
                        decreases 4 - b,
                    {
                        assert(views(theirs@)[b as int] == theirs[b as int]@);
                        if check_fit(edge, &theirs[b]) {
                            found = true;
                        }
                        b += 1;
                    }
                    if found {
                        assert(a * tiles.len() + n < 4 * tiles.len()) by (nonlinear_arith)
                            requires
                                a < 4,
                                n < tiles.len(),
                        ;
                        valid_neighbours += 1;
                    }
                }
                n += 1;
            }
            proof {
                assert(base + tiles.len() <= (a + 1) * tiles.len()) by (nonlinear_arith)
                    requires
                        base <= a * tiles.len(),
                ;
            }
            a += 1;
        }
        proof {
            assert(corner_product(tiles@, (t + 1) as nat) <= u64::MAX);
            assert(0 <= corner_product(tiles@, t as nat)) by {
                lemma_corner_product_sign(tiles@, t as nat);
            }
        }
        if valid_neighbours == 2 {
            result = result * tiles[t].id as u64;
        }
        t += 1;
    }
    result
}

/// The product of corners is not negative.
pub proof fn lemma_corner_product_sign(tiles: Seq<Tile>, k: nat)
    ensures
        0 <= corner_product(tiles, k),
    decreases k,
{
    if k > 0 {
        lemma_corner_product_sign(tiles, (k - 1) as nat);
        assert(0 <= corner_product(tiles, (k - 1) as nat) * tiles[k - 1].id) by (nonlinear_arith)
            requires
                0 <= corner_product(tiles, (k - 1) as nat),
                0 <= tiles[k - 1].id,
        ;
    }
}


/// What is read of the tiles so far: the tiles that are closed, and the
/// number and the rows of the tile that is open.
pub struct Reading {
    pub closed: Seq<(u32, Seq<Seq<u8>>)>,
    pub id: u32,
    pub rows: Seq<Seq<u8>>,
}

/// The number that a heading spells: its second word, colons taken out.
pub open spec fn heading_number(line: Seq<char>) -> Option<int> {
    if split(line, ' ').len() >= 2 {
        unsigned_value(without(split(line, ' ')[1], ':'), u32::MAX as int)
    } else {
        None
    }
}

/// What is read after the first `k` lines: an empty line is passed over;
/// a line that starts with `Tile` closes the open tile if it has rows,
/// and opens the tile of its number; any other line is a row of the open tile.
pub open spec fn reading_after(lines: Seq<String>, k: nat) -> Reading
    decreases k,
{
    if k == 0 {
        Reading { closed: Seq::empty(), id: 0, rows: Seq::empty() }
    } else {
        let before = reading_after(lines, (k - 1) as nat);
        let line = lines[k - 1]@;
        if line.len() == 0 {
            before
        } else if "Tile"@.is_prefix_of(line) {
            let id = heading_number(line).unwrap() as u32;
            if before.rows.len() > 0 {
                Reading { closed: before.closed.push((before.id, before.rows)), id: id, rows: Seq::empty() }
            } else {
                Reading { id: id, ..before }
            }
        } else {
            Reading { rows: before.rows.push(encode_utf8(line)), ..before }
        }
    }
}

/// The tiles that the lines hold: those that are closed, and the open one.
pub open spec fn tiles_in(lines: Seq<String>) -> Seq<(u32, Seq<Seq<u8>>)> {
    let read = reading_after(lines, lines.len());
    read.closed.push((read.id, read.rows))
}

/// What stands for the tiles in the specification: number and rows of each.
pub open spec fn as_read(tiles: Seq<Tile>) -> Seq<(u32, Seq<Seq<u8>>)> {
    tiles.map_values(|tile: Tile| (tile.id, rows_of(tile)))
}

/// The tiles that the lines hold.
pub fn read_tiles(lines: &Vec<String>) -> (tiles: Vec<Tile>)
    requires
        forall|i: int|
            0 <= i < lines.len() && "Tile"@.is_prefix_of(lines[i]@) ==> heading_number(
                #[trigger] lines[i]@,
            ) is Some,
    ensures
        as_read(tiles@) == tiles_in(lines@),
{
    let mut tiles: Vec<Tile> = Vec::new();
    let mut current_id: u32 = 0;
    let mut current_data: Vec<Vec<u8>> = Vec::new();
    let mut k: usize = 0;
    proof {
        assert(as_read(tiles@) =~= reading_after(lines@, 0).closed);
        assert(views(current_data@) =~= reading_after(lines@, 0).rows);
    }
    while k < lines.len()
        invariant
            k <= lines.len(),
            forall|i: int|
                0 <= i < lines.len() && "Tile"@.is_prefix_of(lines[i]@) ==> heading_number(
                    #[trigger] lines[i]@,
                ) is Some,
            as_read(tiles@) == reading_after(lines@, k as nat).closed,
            current_id == reading_after(lines@, k as nat).id,
            views(current_data@) == reading_after(lines@, k as nat).rows,
        decreases lines.len() - k,
    {
        let line = chars_of(lines[k].as_str());
        let ghost before = reading_after(lines@, k as nat);
        if line.len() == 0 {
        } else if starts_with(&line, "Tile") {
            assert(heading_number(lines[k as int]@) is Some);
            if current_data.len() > 0 {
                let ghost closed = as_read(tiles@);
                tiles.push(Tile { id: current_id, data: current_data });
                current_data = Vec::new();
                proof {
                    assert(as_read(tiles@) =~= closed.push((before.id, before.rows)));
                    assert(views(current_data@) =~= Seq::<Seq<u8>>::empty());
                }
            }
            let words = split_chars(&line, ' ');
            assert(words.len() == views(words@).len());
            assert(words[1]@ == split(line@, ' ')[1]);
            let number = remove_char(&words[1], ':');
            match parse_unsigned_chars(&number, u32::MAX as u64) {
                Some(id) => {
                    current_id = id as u32;
                },
                None => {},
            }
        } else {
            let ghost rows = views(current_data@);
            current_data.push(lines[k].as_str().as_bytes_vec());
            proof {
                assert(views(current_data@) =~= rows.push(encode_utf8(lines[k as int]@)));
            }
        }
        k += 1;
    }
    let ghost closed = as_read(tiles@);
    let ghost read = reading_after(lines@, lines@.len());
    tiles.push(Tile { id: current_id, data: current_data });
    proof {
        assert(as_read(tiles@) =~= closed.push((read.id, read.rows)));
    }
    tiles
}

} // verus!
