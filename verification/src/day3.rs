//! Day 3: counting trees along a slope across a map that repeats sideways.

use vstd::prelude::*;
use vstd::string::StrSliceExecFns;
use vstd::utf8::encode_utf8;

verus! {

/// The width of the map: the length in bytes of its first row.
pub open spec fn width_of(map: Seq<String>) -> int {
    encode_utf8(map[0]@).len() as int
}

/// The column reached after `k` steps of `h` to the right, wrapping round at `width`.
pub open spec fn column_at(h: int, width: int, k: nat) -> int
    decreases k,
{
    if k == 0 {
        0
    } else {
        (column_at(h, width, (k - 1) as nat) + h) % width
    }
}

/// Whether the `k`-th step of the slope lands on a tree.
pub open spec fn tree_at(map: Seq<String>, h: int, v: int, k: nat) -> bool {
    map[k * v]@[column_at(h, width_of(map), k)] == '#'
}

/// The number of trees on which the first `k` steps of the slope land.
pub open spec fn trees_met(map: Seq<String>, h: int, v: int, k: nat) -> int
    decreases k,
{
    if k == 0 {
        0
    } else {
        trees_met(map, h, v, (k - 1) as nat) + if tree_at(map, h, v, k) {
            1int
        } else {
            0int
        }
    }
}

/// The number of steps of `v` rows that stay on a map of `len` rows.
pub open spec fn steps_on(len: int, v: int) -> nat {
    ((len - 1) / v) as nat
}

/// The slope can be followed to the bottom of the map: it goes down, the
/// map has rows and a width, and every step lands inside its row.
pub open spec fn can_traverse(map: Seq<String>, h: int, v: int) -> bool {
    &&& 1 <= map.len() <= i64::MAX
    &&& 1 <= v <= map.len()
    &&& width_of(map) >= 1
    &&& width_of(map) + h <= usize::MAX
    &&& forall|k: nat|
        1 <= k <= steps_on(map.len() as int, v) ==> 0 <= #[trigger] column_at(h, width_of(map), k)
            < map[k * v]@.len()
}

/// The number of trees met on the way down.
pub open spec fn trees_on(map: Seq<String>, h: int, v: int) -> int {
    trees_met(map, h, v, steps_on(map.len() as int, v))
}

/// The trees met when going `horizontal_slope` right and `vertical_slope`
/// down from the top left corner until the bottom is reached.
pub fn traverse(map: &[String], horizontal_slope: usize, vertical_slope: usize) -> (trees: i64)
    requires
        can_traverse(map@, horizontal_slope as int, vertical_slope as int),
    ensures
        trees == trees_on(map@, horizontal_slope as int, vertical_slope as int),
        0 <= trees < map.len(),
{
    let mut x: usize = 0;
    let mut y: usize = 0;
    let mut trees: i64 = 0;
    let ghost mut k: nat = 0;
    let ghost total = steps_on(map@.len() as int, vertical_slope as int);
    let map_width = map[0].as_str().len();
    proof {
        let len = map@.len() as int;
        let v = vertical_slope as int;
        assert(0 <= (len - 1) / v && ((len - 1) / v) * v <= len - 1 < ((len - 1) / v) * v + v)
            by (nonlinear_arith)
            requires
                len >= 1,
                v >= 1,
        ;
    }
    while y < map.len() - vertical_slope
        invariant
            can_traverse(map@, horizontal_slope as int, vertical_slope as int),
            map_width == width_of(map@),
            total == steps_on(map@.len() as int, vertical_slope as int),
            total * vertical_slope <= map@.len() - 1 < total * vertical_slope + vertical_slope,
            k <= total,
            y == k * vertical_slope,
            y < map.len(),
            x == column_at(horizontal_slope as int, map_width as int, k),
            x < map_width,
            trees == trees_met(map@, horizontal_slope as int, vertical_slope as int, k),
            0 <= trees <= k,
        decreases map.len() - y,
    {
        proof {
            assert((k + 1) * vertical_slope == k * vertical_slope + vertical_slope)
                by (nonlinear_arith);
            if k + 1 > total {
                assert((k + 1) * vertical_slope >= total * vertical_slope + vertical_slope)
                    by (nonlinear_arith)
                    requires
                        k + 1 > total,
                        vertical_slope >= 1,
                ;
            }
            k = k + 1;
        }
        y += vertical_slope;
        x = (x + horizontal_slope) % map_width;
        proof {
            assert(1 <= k <= total);
            assert(x == column_at(horizontal_slope as int, width_of(map@), k));
            assert(column_at(horizontal_slope as int, width_of(map@), k) < map@[k
                * vertical_slope]@.len());
        }
        if map[y].as_str().get_char(x) == '#' {
            trees += 1;
        }
    }
    proof {
        if k < total {
            assert((k + 1) * vertical_slope <= total * vertical_slope) by (nonlinear_arith)
                requires
                    k + 1 <= total,
                    vertical_slope >= 1,
            ;
            assert((k + 1) * vertical_slope == k * vertical_slope + vertical_slope)
                by (nonlinear_arith);
        }
    }
    trees
}

/// The trees met on the slope of three right and one down.
pub fn part1(map: &[String]) -> (trees: i64)
    requires
        can_traverse(map@, 3, 1),
    ensures
        trees == trees_on(map@, 3, 1),
{
    traverse(map, 3, 1)
}

/// The product of the trees met on the five slopes of the puzzle.
pub open spec fn product_of_slopes(map: Seq<String>) -> int {
    trees_on(map, 1, 1) * trees_on(map, 3, 1) * trees_on(map, 5, 1) * trees_on(map, 7, 1)
        * trees_on(map, 1, 2)
}

/// The product of the trees met on the five slopes of the puzzle.
pub fn part2(map: &[String]) -> (product: i64)
    requires
        can_traverse(map@, 1, 1),
        can_traverse(map@, 3, 1),
        can_traverse(map@, 5, 1),
        can_traverse(map@, 7, 1),
        can_traverse(map@, 1, 2),
        product_of_slopes(map@) <= i64::MAX,
    ensures
        product == product_of_slopes(map@),
{
    let a = traverse(map, 1, 1);
    let b = traverse(map, 3, 1);
    let c = traverse(map, 5, 1);
    let d = traverse(map, 7, 1);
    let e = traverse(map, 1, 2);
    if a == 0 || b == 0 || c == 0 || d == 0 || e == 0 {
        assert(a * b * c * d * e == 0) by (nonlinear_arith)
            requires
                a == 0 || b == 0 || c == 0 || d == 0 || e == 0,
        ;
        return 0;
    }
    assert(a * b <= a * b * c * d * e && a * b * c <= a * b * c * d * e && a * b * c * d <= a * b
        * c * d * e && 0 <= a * b && 0 <= a * b * c && 0 <= a * b * c * d) by (nonlinear_arith)
        requires
            a >= 1,
            b >= 1,
            c >= 1,
            d >= 1,
            e >= 1,
    ;
    a * b * c * d * e
}

} // verus!
