//! A ring of `N` cups labelled `1..=N`, stored as a successor table indexed
//! by label, so that lifting three cups and putting them back elsewhere takes
//! constant time.

use vstd::prelude::*;
use vstd::seq_lib::seq_to_set_is_finite;
use vstd::set_lib::{lemma_int_range, lemma_subset_equality, set_int_range};

verus! {

/// Why a ring could not be built from the labels given.
#[derive(Debug, Clone, Copy, PartialEq, Eq, Structural)]
pub enum ConfigError {
    /// A label is zero.
    ZeroLabel,
    /// A label is larger than the number of labels given, so a smaller one is missing.
    LabelGap,
    /// A label occurs twice.
    DuplicateLabel,
    /// The requested size is smaller than the number of labels given.
    TargetTooSmall,
    /// The ring would hold fewer than four cups.
    TooFewCups,
}

/// The index that follows `i` on a cycle of length `n`.
pub open spec fn succ_index(i: int, n: int) -> int {
    if i + 1 == n {
        0
    } else {
        i + 1
    }
}

/// The index `k` places after `p` on a cycle of length `n`, for `k <= n`.
pub open spec fn rot_index(p: int, k: int, n: int) -> int {
    if p + k < n {
        p + k
    } else {
        p + k - n
    }
}

/// `order` lists each label `1..=order.len()` exactly once.
pub open spec fn is_label_order(order: Seq<u32>) -> bool {
    &&& order.len() <= u32::MAX
    &&& forall|i: int| 0 <= i < order.len() ==> 1 <= #[trigger] order[i] <= order.len()
    &&& forall|i: int, j: int| 0 <= i < j < order.len() ==> order[i] != order[j]
    &&& forall|l: u32| 1 <= l <= order.len() ==> #[trigger] order.contains(l)
}

/// The successor table `next` links the labels in the clockwise order `order`:
/// entry `order[i]` holds `order[i + 1]`, and the last label links back to the first.
pub open spec fn is_cycle(next: Seq<u32>, order: Seq<u32>) -> bool {
    &&& next.len() == order.len() + 1
    &&& next[0] == 0
    &&& is_label_order(order)
    &&& forall|i: int|
        0 <= i < order.len() ==> next[#[trigger] order[i] as int] == order[succ_index(
            i,
            order.len() as int,
        )]
}

/// The label reached from `from` after `k` steps along `next`.
pub open spec fn walk(next: Seq<u32>, from: u32, k: nat) -> u32
    decreases k,
{
    if k == 0 {
        from
    } else {
        next[walk(next, from, (k - 1) as nat) as int]
    }
}

/// Whether `label` is one of the three lifted cups.
pub open spec fn is_lifted(label: int, cup1: u32, cup2: u32, cup3: u32) -> bool {
    label == cup1 || label == cup2 || label == cup3
}

/// The label `k` decrements below `current` among `1..=n`, wrapping from 1 to `n`.
pub open spec fn label_below(current: int, k: int, n: int) -> int {
    if current > k {
        current - k
    } else {
        current - k + n
    }
}

/// How many decrements from `current` it takes to reach a label that is not lifted.
pub open spec fn destination_steps(current: int, cup1: u32, cup2: u32, cup3: u32, n: int) -> int {
    if !is_lifted(label_below(current, 1, n), cup1, cup2, cup3) {
        1
    } else if !is_lifted(label_below(current, 2, n), cup1, cup2, cup3) {
        2
    } else if !is_lifted(label_below(current, 3, n), cup1, cup2, cup3) {
        3
    } else {
        4
    }
}

/// The destination of a move: the first label below `current`, wrapping from
/// 1 to `n`, that is not lifted.
pub open spec fn destination_of(current: int, cup1: u32, cup2: u32, cup3: u32, n: int) -> int {
    label_below(current, destination_steps(current, cup1, cup2, cup3, n), n)
}

/// In a ring of at least four cups the destination is found within four
/// decrements, hence within `n`: it is a label of the ring, it is not lifted,
/// and every candidate passed over before it is lifted.
pub proof fn lemma_destination_found(current: int, cup1: u32, cup2: u32, cup3: u32, n: int)
    requires
        n >= 4,
        1 <= current <= n,
    ensures
        1 <= destination_steps(current, cup1, cup2, cup3, n) <= 4 <= n,
        1 <= destination_of(current, cup1, cup2, cup3, n) <= n,
        !is_lifted(destination_of(current, cup1, cup2, cup3, n), cup1, cup2, cup3),
        forall|k: int|
            1 <= k < destination_steps(current, cup1, cup2, cup3, n) ==> is_lifted(
                #[trigger] label_below(current, k, n),
                cup1,
                cup2,
                cup3,
            ),
{
}

/// Picks the label after which the three lifted cups are put back: the first
/// label below `current_cup`, counting down, that is none of the three lifted
/// cups. `None` when the count reaches zero before such a label is found.
pub fn select_destination(current_cup: u32, cup1: u32, cup2: u32, cup3: u32) -> (found: Option<u32>)
    requires
        current_cup >= 1,
    ensures
        match found {
            Some(t) => 1 <= t < current_cup && !is_lifted(t as int, cup1, cup2, cup3)
                && forall|c: int| t < c < current_cup ==> is_lifted(c, cup1, cup2, cup3),
            None => forall|c: int| 1 <= c < current_cup ==> is_lifted(c, cup1, cup2, cup3),
        },
{
    let mut target: u32 = current_cup - 1;
    while target != 0
        invariant
            target < current_cup,
            forall|c: int| target < c < current_cup ==> is_lifted(c, cup1, cup2, cup3),
        decreases target,
    {
        if target == cup1 || target == cup2 || target == cup3 {
            target -= 1;
        } else {
            return Some(target);
        }
    }
    None
}

/// The destination in a ring of `n` cups: `select_destination`, and where it
/// runs out below `current`, the same search again from `n` downwards.
pub fn wrapping_destination(current: u32, cup1: u32, cup2: u32, cup3: u32, n: u32) -> (dest: u32)
    requires
        4 <= n < u32::MAX,
        1 <= current <= n,
    ensures
        dest == destination_of(current as int, cup1, cup2, cup3, n as int),
        1 <= dest <= n,
        !is_lifted(dest as int, cup1, cup2, cup3),
{
    proof {
        lemma_destination_found(current as int, cup1, cup2, cup3, n as int);
    }
    match select_destination(current, cup1, cup2, cup3) {
        Some(t) => {
            assert(is_lifted(current - 1, cup1, cup2, cup3) || t == current - 1);
            assert(current - 2 > t ==> is_lifted(current - 2, cup1, cup2, cup3));
            assert(current - 3 > t ==> is_lifted(current - 3, cup1, cup2, cup3));
            assert(current - 4 > t ==> is_lifted(current - 4, cup1, cup2, cup3));
            t
        },
        None => {
            assert(current >= 2 ==> is_lifted(1, cup1, cup2, cup3));
            assert(current >= 3 ==> is_lifted(2, cup1, cup2, cup3));
            assert(current >= 4 ==> is_lifted(3, cup1, cup2, cup3));
            assert(current >= 5 ==> is_lifted(4, cup1, cup2, cup3));
            match select_destination(n + 1, cup1, cup2, cup3) {
                Some(t) => {
                    assert(n - 1 > t ==> is_lifted(n - 1, cup1, cup2, cup3));
                    assert(n - 2 > t ==> is_lifted(n - 2, cup1, cup2, cup3));
                    assert(n - 3 > t ==> is_lifted(n - 3, cup1, cup2, cup3));
                    assert(n > t ==> is_lifted(n as int, cup1, cup2, cup3));
                    t
                },
                None => {
                    assert(is_lifted(1, cup1, cup2, cup3));
                    assert(is_lifted(2, cup1, cup2, cup3));
                    assert(is_lifted(3, cup1, cup2, cup3));
                    assert(is_lifted(4, cup1, cup2, cup3));
                    assert(false);
                    current
                },
            }
        },
    }
}


/// The clockwise order, read from the new current cup, after one move on a
/// ring whose clockwise order from its current cup is `order`: the three cups
/// behind the current one are lifted out and put back behind the destination,
/// and the cup that then follows the old current cup becomes current.
pub open spec fn move_order(order: Seq<u32>) -> Seq<u32> {
    let n = order.len() as int;
    let dest = destination_of(order[0] as int, order[1], order[2], order[3], n) as u32;
    let p = order.index_of(dest);
    let lifted = order.subrange(1, 4);
    if p == 0 {
        lifted + order.subrange(4, n).push(order[0])
    } else {
        order.subrange(4, p + 1) + lifted + order.subrange(p + 1, n).push(order[0])
    }
}

/// The clockwise order after `k` moves.
pub open spec fn after_moves(order: Seq<u32>, k: nat) -> Seq<u32>
    decreases k,
{
    if k == 0 {
        order
    } else {
        move_order(after_moves(order, (k - 1) as nat))
    }
}

/// The successor table after one move from `current`: the current cup is
/// linked past the three cups behind it, and those are spliced in behind
/// the destination.
pub open spec fn move_links(next: Seq<u32>, current: u32) -> Seq<u32> {
    let a = next[current as int];
    let b = next[a as int];
    let c = next[b as int];
    let dest = destination_of(current as int, a, b, c, next.len() - 1) as u32;
    let lifted_out = next.update(current as int, next[c as int]);
    lifted_out.update(dest as int, a).update(a as int, b).update(b as int, c).update(
        c as int,
        lifted_out[dest as int],
    )
}

/// Where the cup at place `j` of the order after a move stood before it,
/// `p` being the old place of the destination.
spec fn place_before(j: int, p: int, n: int) -> int {
    if j == n - 1 {
        0
    } else if p == 0 {
        j + 1
    } else if j < p - 3 {
        j + 4
    } else if j < p {
        j - p + 4
    } else {
        j + 1
    }
}

/// Where the cup at place `k` of the order stands after a move.
spec fn place_after(k: int, p: int, n: int) -> int {
    if k == 0 {
        n - 1
    } else if p == 0 {
        k - 1
    } else if k <= 3 {
        k + p - 4
    } else if k <= p {
        k - 4
    } else {
        k - 1
    }
}

/// The place of a label in an order that holds every label once.
pub proof fn lemma_place_of(order: Seq<u32>, label: u32)
    requires
        is_label_order(order),
        1 <= label <= order.len(),
    ensures
        0 <= order.index_of(label) < order.len(),
        order[order.index_of(label)] == label,
{
    assert(order.contains(label));
}

/// The place of the destination in `order`, for the move that starts from `order[0]`.
pub open spec fn destination_place(order: Seq<u32>) -> int {
    order.index_of(
        destination_of(order[0] as int, order[1], order[2], order[3], order.len() as int) as u32,
    )
}

/// The destination stands at the current cup's place only in a ring of four
/// cups, and never at the place of a lifted cup.
proof fn lemma_destination_place(order: Seq<u32>)
    requires
        is_label_order(order),
        order.len() >= 4,
    ensures
        destination_place(order) == 0 || 4 <= destination_place(order) < order.len(),
        destination_place(order) == 0 ==> order.len() == 4,
        order[destination_place(order)] == destination_of(
            order[0] as int,
            order[1],
            order[2],
            order[3],
            order.len() as int,
        ),
{
    let n = order.len() as int;
    lemma_destination_found(order[0] as int, order[1], order[2], order[3], n);
    let dest = destination_of(order[0] as int, order[1], order[2], order[3], n) as u32;
    lemma_place_of(order, dest);
}

/// The order after a move holds, at each place, the cup that `place_before` names.
proof fn lemma_move_places(order: Seq<u32>)
    requires
        order.len() >= 4,
        destination_place(order) == 0 || 4 <= destination_place(order) < order.len(),
    ensures
        move_order(order).len() == order.len(),
        forall|j: int|
            0 <= j < order.len() ==> #[trigger] move_order(order)[j] == order[place_before(
                j,
                destination_place(order),
                order.len() as int,
            )],
{
}

/// `place_before` and `place_after` are inverse renumberings of the places.
proof fn lemma_places_inverse(p: int, n: int)
    requires
        n >= 4,
        p == 0 || 4 <= p < n,
    ensures
        forall|j: int| 0 <= j < n ==> 0 <= #[trigger] place_before(j, p, n) < n,
        forall|k: int|
            0 <= k < n ==> 0 <= #[trigger] place_after(k, p, n) < n && place_before(
                place_after(k, p, n),
                p,
                n,
            ) == k,
        forall|i: int, j: int|
            0 <= i < j < n ==> #[trigger] place_before(i, p, n) != #[trigger] place_before(j, p, n),
{
}

/// Two places of an order of labels that differ hold different labels.
proof fn lemma_distinct_places(order: Seq<u32>, x: int, y: int)
    requires
        is_label_order(order),
        0 <= x < order.len(),
        0 <= y < order.len(),
        x != y,
    ensures
        order[x] != order[y],
{
    if x < y {
        assert(order[x] != order[y]);
    } else {
        assert(order[y] != order[x]);
    }
}

/// The successor table after a move links the cup that stood at place `x`
/// to the cup that follows it in the order after the move.
proof fn lemma_move_link_at(next: Seq<u32>, order: Seq<u32>, x: int)
    requires
        is_cycle(next, order),
        order.len() >= 4,
        0 <= x < order.len(),
    ensures
        move_links(next, order[0])[order[x] as int] == order[place_before(
            succ_index(
                place_after(x, destination_place(order), order.len() as int),
                order.len() as int,
            ),
            destination_place(order),
            order.len() as int,
        )],
{
    let n = order.len() as int;
    let p = destination_place(order);
    lemma_destination_place(order);
    assert(next[order[0] as int] == order[1]);
    assert(next[order[1] as int] == order[2]);
    assert(next[order[2] as int] == order[3]);
    assert(next[order[3] as int] == order[succ_index(3, n)]);
    assert(next[order[p] as int] == order[succ_index(p, n)]);
    assert(next[order[x] as int] == order[succ_index(x, n)]);
    if x != 0 {
        lemma_distinct_places(order, x, 0);
    }
    if x != 1 {
        lemma_distinct_places(order, x, 1);
    }
    if x != 2 {
        lemma_distinct_places(order, x, 2);
    }
    if x != 3 {
        lemma_distinct_places(order, x, 3);
    }
    if x != p {
        lemma_distinct_places(order, x, p);
    }
    lemma_distinct_places(order, 0, 1);
    lemma_distinct_places(order, 0, 2);
    lemma_distinct_places(order, 0, 3);
    lemma_distinct_places(order, 1, 2);
    lemma_distinct_places(order, 1, 3);
    lemma_distinct_places(order, 2, 3);
    if p != 0 {
        lemma_distinct_places(order, p, 0);
        lemma_distinct_places(order, p, 1);
        lemma_distinct_places(order, p, 2);
        lemma_distinct_places(order, p, 3);
    }
}

/// One move turns a single cycle through all labels into a single cycle
/// through all labels: the successor table after the move links the cups in
/// the order that `move_order` gives, the new current cup is the one that
/// follows the old current cup, and no label is lost or added.
pub proof fn lemma_move_keeps_cycle(next: Seq<u32>, order: Seq<u32>)
    requires
        is_cycle(next, order),
        order.len() >= 4,
    ensures
        is_cycle(move_links(next, order[0]), move_order(order)),
        move_order(order).len() == order.len(),
        move_order(order)[0] == move_links(next, order[0])[order[0] as int],
{
    let n = order.len() as int;
    let p = destination_place(order);
    let after = move_order(order);
    let links = move_links(next, order[0]);
    lemma_destination_place(order);
    lemma_move_places(order);
    lemma_places_inverse(p, n);
    assert forall|i: int, j: int| 0 <= i < j < n implies after[i] != after[j] by {
        lemma_distinct_places(order, place_before(i, p, n), place_before(j, p, n));
    }
    assert forall|l: u32| 1 <= l <= n implies #[trigger] after.contains(l) by {
        lemma_place_of(order, l);
        assert(after[place_after(order.index_of(l), p, n)] == l);
    }
    assert forall|j: int| 0 <= j < n implies links[#[trigger] after[j] as int] == after[succ_index(
        j,
        n,
    )] by {
        lemma_move_link_at(next, order, place_before(j, p, n));
        assert(place_after(place_before(j, p, n), p, n) == j);
    }
    lemma_move_link_at(next, order, 0);
    assert(links[0] == 0);
}

/// However many moves are made, the clockwise order keeps its length and
/// still holds every label exactly once.
pub proof fn lemma_moves_keep_labels(order: Seq<u32>, k: nat)
    requires
        is_label_order(order),
        order.len() >= 4,
    ensures
        is_label_order(after_moves(order, k)),
        after_moves(order, k).len() == order.len(),
    decreases k,
{
    if k > 0 {
        lemma_moves_keep_labels(order, (k - 1) as nat);
        let before = after_moves(order, (k - 1) as nat);
        lemma_links_exist(before);
        lemma_move_keeps_cycle(links_of(before), before);
    }
}

/// The successor table after `k` moves, starting from the table `next`
/// of a ring whose clockwise order from its current cup is `order`.
pub open spec fn links_after_moves(next: Seq<u32>, order: Seq<u32>, k: nat) -> Seq<u32>
    decreases k,
{
    if k == 0 {
        next
    } else {
        move_links(
            links_after_moves(next, order, (k - 1) as nat),
            after_moves(order, (k - 1) as nat)[0],
        )
    }
}

/// However many moves are made on a ring of four cups or more, its
/// successor table stays one cycle through all labels, in the order that
/// `after_moves` gives: at every move count it is a bijection on the
/// labels, and from any label it leads back to that label after as many
/// steps as there are cups and no fewer.
pub proof fn lemma_moves_keep_cycle(next: Seq<u32>, order: Seq<u32>, k: nat)
    requires
        is_cycle(next, order),
        order.len() >= 4,
    ensures
        is_cycle(links_after_moves(next, order, k), after_moves(order, k)),
        after_moves(order, k).len() == order.len(),
    decreases k,
{
    if k > 0 {
        lemma_moves_keep_cycle(next, order, (k - 1) as nat);
        lemma_move_keeps_cycle(
            links_after_moves(next, order, (k - 1) as nat),
            after_moves(order, (k - 1) as nat),
        );
    }
}

/// The successor table that links the labels in the order given.
pub open spec fn links_of(order: Seq<u32>) -> Seq<u32> {
    Seq::new(
        order.len() + 1,
        |l: int|
            if l == 0 {
                0
            } else {
                order[succ_index(order.index_of(l as u32), order.len() as int)]
            },
    )
}

/// Every order of the labels is the clockwise order of a ring.
pub proof fn lemma_links_exist(order: Seq<u32>)
    requires
        is_label_order(order),
    ensures
        is_cycle(links_of(order), order),
{
    let n = order.len() as int;
    assert forall|i: int| 0 <= i < n implies links_of(order)[#[trigger] order[i] as int]
        == order[succ_index(i, n)] by {
        lemma_place_of(order, order[i]);
        let k = order.index_of(order[i]);
        if k < i {
            assert(order[k] != order[i]);
        } else if i < k {
            assert(order[i] != order[k]);
        }
    }
}


/// Following links that join each place of `order` to the next for `k <= n`
/// steps from place `i` arrives `k` places further round.
proof fn lemma_walk_links(next: Seq<u32>, order: Seq<u32>, i: int, k: nat)
    requires
        forall|j: int|
            0 <= j < order.len() ==> next[#[trigger] order[j] as int] == order[succ_index(
                j,
                order.len() as int,
            )],
        0 <= i < order.len(),
        k <= order.len(),
    ensures
        walk(next, order[i], k) == order[rot_index(i, k as int, order.len() as int)],
    decreases k,
{
    if k > 0 {
        lemma_walk_links(next, order, i, (k - 1) as nat);
        let before = rot_index(i, k - 1, order.len() as int);
        assert(walk(next, order[i], (k - 1) as nat) == order[before]);
        assert(next[order[before] as int] == order[succ_index(before, order.len() as int)]);
        assert(succ_index(before, order.len() as int) == rot_index(
            i,
            k as int,
            order.len() as int,
        ));
        assert(walk(next, order[i], k) == next[walk(next, order[i], (k - 1) as nat) as int]);
    }
}

/// Following the successor table for `k <= n` steps from the cup at place
/// `i` of the clockwise order arrives at the cup `k` places further round.
pub proof fn lemma_walk_along(next: Seq<u32>, order: Seq<u32>, i: int, k: nat)
    requires
        is_cycle(next, order),
        0 <= i < order.len(),
        k <= order.len(),
    ensures
        walk(next, order[i], k) == order[rot_index(i, k as int, order.len() as int)],
{
    lemma_walk_links(next, order, i, k);
}

/// Some label is linked to `m`.
pub open spec fn has_predecessor(next: Seq<u32>, m: u32) -> bool {
    exists|l: int| 1 <= l < next.len() && #[trigger] next[l] == m
}

/// The successor table of a ring is a bijection on the labels `1..=n`: it
/// maps labels to labels, no two labels to the same one, and reaches every label.
pub proof fn lemma_successor_bijection(next: Seq<u32>, order: Seq<u32>)
    requires
        is_cycle(next, order),
    ensures
        forall|l: int| 1 <= l <= order.len() ==> 1 <= #[trigger] next[l] <= order.len(),
        forall|l: int, m: int|
            1 <= l <= order.len() && 1 <= m <= order.len() && l != m ==> #[trigger] next[l]
                != #[trigger] next[m],
        forall|m: u32| 1 <= m <= order.len() ==> #[trigger] has_predecessor(next, m),
{
    let n = order.len() as int;
    assert forall|l: int| 1 <= l <= n implies 1 <= #[trigger] next[l] <= n by {
        lemma_place_of(order, l as u32);
        let i = order.index_of(l as u32);
        assert(next[order[i] as int] == order[succ_index(i, n)]);
    }
    assert forall|l: int, m: int| 1 <= l <= n && 1 <= m <= n && l != m implies #[trigger] next[l]
        != #[trigger] next[m] by {
        lemma_place_of(order, l as u32);
        lemma_place_of(order, m as u32);
        let i = order.index_of(l as u32);
        let j = order.index_of(m as u32);
        assert(next[order[i] as int] == order[succ_index(i, n)]);
        assert(next[order[j] as int] == order[succ_index(j, n)]);
        lemma_distinct_places(order, succ_index(i, n), succ_index(j, n));
    }
    assert forall|m: u32| 1 <= m <= n implies #[trigger] has_predecessor(next, m) by {
        lemma_place_of(order, m);
        let j = order.index_of(m);
        let i = if j == 0 {
            n - 1
        } else {
            j - 1
        };
        assert(next[order[i] as int] == order[succ_index(i, n)]);
    }
}

/// The successor table of a ring is one cycle through all `n` labels: from
/// any label, `n` steps lead back to it and fewer steps do not.
pub proof fn lemma_single_cycle(next: Seq<u32>, order: Seq<u32>, label: u32)
    requires
        is_cycle(next, order),
        1 <= label <= order.len(),
    ensures
        walk(next, label, order.len()) == label,
        forall|k: nat| 0 < k < order.len() ==> #[trigger] walk(next, label, k) != label,
{
    let n = order.len() as int;
    lemma_place_of(order, label);
    let i = order.index_of(label);
    lemma_walk_along(next, order, i, order.len());
    assert forall|k: nat| 0 < k < order.len() implies #[trigger] walk(next, label, k) != label by {
        lemma_walk_along(next, order, i, k);
        lemma_distinct_places(order, rot_index(i, k as int, n), i);
    }
}

/// Distinct labels in `1..=len`, `len` of them, are all of `1..=len`.
proof fn lemma_labels_all_present(labels: Seq<u32>)
    requires
        forall|i: int| 0 <= i < labels.len() ==> 1 <= #[trigger] labels[i] <= labels.len(),
        forall|i: int, j: int| 0 <= i < j < labels.len() ==> labels[i] != labels[j],
    ensures
        forall|l: u32| 1 <= l <= labels.len() ==> #[trigger] labels.contains(l),
{
    let ints = labels.map_values(|v: u32| v as int);
    let range = set_int_range(1, labels.len() as int + 1);
    assert(ints.no_duplicates());
    ints.unique_seq_to_set();
    seq_to_set_is_finite(ints);
    lemma_int_range(1, labels.len() as int + 1);
    assert(ints.to_set().subset_of(range)) by {
        assert forall|x: int| ints.to_set().contains(x) implies range.contains(x) by {
            let i = choose|i: int| 0 <= i < ints.len() && ints[i] == x;
            assert(ints[i] == labels[i]);
        }
    }
    lemma_subset_equality(ints.to_set(), range);
    assert forall|l: u32| 1 <= l <= labels.len() implies #[trigger] labels.contains(l) by {
        assert(range.contains(l as int));
        assert(ints.contains(l as int));
        let i = choose|i: int| 0 <= i < ints.len() && ints[i] == l as int;
        assert(labels[i] == l);
    }
}

/// The first error, if any, in the labels given for a ring of `target` cups.
pub open spec fn config_error(initial: Seq<u32>, target: int) -> Option<ConfigError> {
    if exists|i: int| 0 <= i < initial.len() && initial[i] == 0 {
        Some(ConfigError::ZeroLabel)
    } else if exists|i: int| 0 <= i < initial.len() && initial[i] > initial.len() {
        Some(ConfigError::LabelGap)
    } else if target < initial.len() {
        Some(ConfigError::TargetTooSmall)
    } else if exists|i: int, j: int| 0 <= i < j < initial.len() && initial[i] == initial[j] {
        Some(ConfigError::DuplicateLabel)
    } else if target < 4 {
        Some(ConfigError::TooFewCups)
    } else {
        None
    }
}

/// The labels given, followed by the labels above them up to `target` in
/// increasing order.
pub open spec fn extended_order(initial: Seq<u32>, target: int) -> Seq<u32> {
    initial + Seq::new(
        (target - initial.len()) as nat,
        |k: int| (initial.len() + 1 + k) as u32,
    )
}

/// Labels that pass `config_error`, extended to `target`, hold every label once.
pub proof fn lemma_extended_order(initial: Seq<u32>, target: int)
    requires
        config_error(initial, target) is None,
        target <= u32::MAX,
    ensures
        is_label_order(extended_order(initial, target)),
        extended_order(initial, target).len() == target,
{
    let order = extended_order(initial, target);
    let len = initial.len() as int;
    assert forall|i: int| 0 <= i < len implies 1 <= #[trigger] initial[i] <= len by {}
    lemma_labels_all_present(initial);
    assert forall|l: u32| 1 <= l <= target implies #[trigger] order.contains(l) by {
        if l <= len {
            assert(initial.contains(l));
            let i = choose|i: int| 0 <= i < len && initial[i] == l;
            assert(order[i] == l);
        } else {
            assert(order[l - 1] == l);
        }
    }
}

/// The labels that follow `label` clockwise, all but `label` itself.
pub open spec fn labels_after(order: Seq<u32>, label: u32) -> Seq<u32> {
    Seq::new(
        (order.len() - 1) as nat,
        |i: int| order[rot_index(order.index_of(label), i + 1, order.len() as int)],
    )
}

/// The labels that follow one label are one fewer than the ring holds, and
/// each is a label of the ring.
pub proof fn lemma_labels_after(order: Seq<u32>, label: u32)
    requires
        is_label_order(order),
        1 <= label <= order.len(),
    ensures
        labels_after(order, label).len() == order.len() - 1,
        forall|i: int|
            0 <= i < order.len() - 1 ==> 1 <= #[trigger] labels_after(order, label)[i]
                <= order.len(),
{
    lemma_place_of(order, label);
}

/// The product of the two labels that follow `label` clockwise.
pub open spec fn product_after(order: Seq<u32>, label: u32) -> int {
    order[rot_index(order.index_of(label), 1, order.len() as int)] * order[rot_index(
        order.index_of(label),
        2,
        order.len() as int,
    )]
}

/// Checks the labels given for a ring of `n_target` cups.
pub fn check_config(initial: &[u32], n_target: u32) -> (found: Option<ConfigError>)
    ensures
        found == config_error(initial@, n_target as int),
{
    let len = initial.len();
    let mut gap = false;
    let mut i: usize = 0;
    while i < len
        invariant
            i <= len,
            len == initial.len(),
            forall|j: int| 0 <= j < i ==> initial[j] != 0,
            gap <==> exists|j: int| 0 <= j < i && initial[j] > len,
        decreases len - i,
    {
        let label = initial[i];
        if label == 0 {
            return Some(ConfigError::ZeroLabel);
        }
        if label as usize > len {
            gap = true;
        }
        i += 1;
    }
    if gap {
        return Some(ConfigError::LabelGap);
    }
    if (n_target as usize) < len {
        return Some(ConfigError::TargetTooSmall);
    }
    let mut seen: Vec<bool> = vec![false; len];
    i = 0;
    while i < len
        invariant
            i <= len <= n_target,
            len == initial.len(),
            seen.len() == len,
            forall|j: int| 0 <= j < len ==> 1 <= #[trigger] initial[j] <= len,
            forall|j: int, k: int| 0 <= j < k < i ==> initial[j] != initial[k],
            forall|l: int|
                0 <= l < len ==> (#[trigger] seen[l] <==> exists|j: int|
                    0 <= j < i && initial[j] == l + 1),
        decreases len - i,
    {
        let l = (initial[i] - 1) as usize;
        if seen[l] {
            return Some(ConfigError::DuplicateLabel);
        }
        seen.set(l, true);
        i += 1;
    }
    if n_target < 4 {
        return Some(ConfigError::TooFewCups);
    }
    None
}

/// Builds the successor table that links the labels given, and after them
/// the labels above them up to `n_target`, into one cycle.
fn link_in_order(initial: &[u32], n_target: u32) -> (next: Vec<u32>)
    requires
        config_error(initial@, n_target as int) is None,
        n_target < u32::MAX,
    ensures
        is_cycle(next@, extended_order(initial@, n_target as int)),
{
    let len = initial.len();
    let n = n_target as usize;
    let ghost order = extended_order(initial@, n_target as int);
    proof {
        lemma_extended_order(initial@, n_target as int);
    }
    let first: u32 = if len > 0 {
        initial[0]
    } else {
        1
    };
    let mut next: Vec<u32> = vec![0u32; n + 1];
    let mut i: usize = 0;
    while i < len
        invariant
            i <= len <= n,
            len == initial.len(),
            n == n_target,
            next.len() == n + 1,
            next[0] == 0,
            first == order[0],
            order == extended_order(initial@, n_target as int),
            is_label_order(order),
            order.len() == n,
            forall|j: int|
                0 <= j < i ==> next[#[trigger] order[j] as int] == order[succ_index(j, n as int)],
        decreases len - i,
    {
        let follower: u32 = if i + 1 < len {
            initial[i + 1]
        } else if len < n {
            (len + 1) as u32
        } else {
            first
        };
        proof {
            assert forall|j: int| 0 <= j < i implies #[trigger] order[j] != order[i as int] by {
                lemma_distinct_places(order, j, i as int);
            }
            assert(order[i as int] == initial[i as int]);
            assert(follower == order[succ_index(i as int, n as int)]);
        }
        next.set(initial[i] as usize, follower);
        i += 1;
    }
    let mut label: usize = len + 1;
    while label <= n
        invariant
            len + 1 <= label <= n + 1,
            len == initial.len(),
            n == n_target < u32::MAX,
            next.len() == n + 1,
            next[0] == 0,
            first == order[0],
            order == extended_order(initial@, n_target as int),
            is_label_order(order),
            order.len() == n,
            forall|j: int|
                0 <= j < label - 1 ==> next[#[trigger] order[j] as int] == order[succ_index(
                    j,
                    n as int,
                )],
        decreases n + 1 - label,
    {
        let follower: u32 = if label < n {
            (label + 1) as u32
        } else {
            first
        };
        proof {
            assert forall|j: int| 0 <= j < label - 1 implies #[trigger] order[j] != order[label
                - 1] by {
                lemma_distinct_places(order, j, label - 1);
            }
            assert(order[label - 1] == label);
            assert(follower == order[succ_index(label - 1, n as int)]);
        }
        next.set(label, follower);
        label += 1;
    }
    next
}

/// A ring of cups. Its view is the clockwise order of the labels, starting
/// at the current cup.
pub struct CupRing {
    next: Vec<u32>,
    current: u32,
    order: Ghost<Seq<u32>>,
}

impl View for CupRing {
    type V = Seq<u32>;

    closed spec fn view(&self) -> Seq<u32> {
        self.order@
    }
}

impl CupRing {
    /// The successor table: entry `l` is the label clockwise of label `l`; entry 0 is unused.
    pub closed spec fn links(&self) -> Seq<u32> {
        self.next@
    }

    /// The label of the current cup.
    pub closed spec fn current_label(&self) -> u32 {
        self.current
    }

    /// The number of cups.
    pub open spec fn size(&self) -> nat {
        (self.links().len() - 1) as nat
    }

    /// What holds of the table at every time, also while three cups are
    /// lifted out: every label is linked to a label.
    pub open spec fn linked(&self) -> bool {
        &&& 5 <= self.links().len() <= u32::MAX
        &&& forall|l: int| 1 <= l <= self.size() ==> 1 <= #[trigger] self.links()[l] <= self.size()
        &&& 1 <= self.current_label() <= self.size()
    }

    /// The ring is whole: the table is one cycle through all labels, in the
    /// order of the view, which starts at the current cup.
    pub open spec fn wf(&self) -> bool {
        &&& self.linked()
        &&& is_cycle(self.links(), self@)
        &&& self@[0] == self.current_label()
    }

    /// A ring of exactly the cups given, in the order given; the first is current.
    pub fn new(initial: &[u32]) -> (made: Result<CupRing, ConfigError>)
        requires
            initial.len() < u32::MAX,
        ensures
            match made {
                Ok(ring) => config_error(initial@, initial@.len() as int) is None && ring.wf()
                    && ring@ == initial@,
                Err(e) => config_error(initial@, initial@.len() as int) == Some(e),
            },
    {
        let made = CupRing::with_size(initial, initial.len() as u32);
        proof {
            assert(extended_order(initial@, initial@.len() as int) =~= initial@);
        }
        made
    }

    /// A ring of `n_target` cups: the cups given, in the order given, then
    /// the labels above them in increasing order. The first cup is current.
    pub fn with_size(initial: &[u32], n_target: u32) -> (made: Result<CupRing, ConfigError>)
        requires
            n_target < u32::MAX,
        ensures
            match made {
                Ok(ring) => config_error(initial@, n_target as int) is None && ring.wf() && ring@
                    == extended_order(initial@, n_target as int),
                Err(e) => config_error(initial@, n_target as int) == Some(e),
            },
    {
        match check_config(initial, n_target) {
            Some(e) => Err(e),
            None => {
                let ghost order = extended_order(initial@, n_target as int);
                let first: u32 = if initial.len() > 0 {
                    initial[0]
                } else {
                    1
                };
                let next = link_in_order(initial, n_target);
                proof {
                    lemma_extended_order(initial@, n_target as int);
                    lemma_successor_bijection(next@, order);
                }
                Ok(CupRing { next, current: first, order: Ghost(order) })
            },
        }
    }

    /// The label clockwise of `label`.
    pub fn successor(&self, label: u32) -> (follower: u32)
        requires
            self.linked(),
            1 <= label <= self.size(),
        ensures
            follower == self.links()[label as int],
            1 <= follower <= self.size(),
    {
        self.next[label as usize]
    }

    /// The label of the current cup.
    pub fn current(&self) -> (label: u32)
        ensures
            label == self.current_label(),
    {
        self.current
    }

    /// The number of cups.
    pub fn len(&self) -> (n: usize)
        requires
            self.linked(),
        ensures
            n == self.size(),
    {
        self.next.len() - 1
    }

    /// Lifts out the three cups clockwise of `label` by linking `label` past
    /// them, and returns their labels in clockwise order. The entries of the
    /// three cups themselves stay as they were.
    pub fn remove_three_after(&mut self, label: u32) -> (lifted: (u32, u32, u32))
        requires
            old(self).linked(),
            1 <= label <= old(self).size(),
        ensures
            final(self).linked(),
            lifted.0 == old(self).links()[label as int],
            lifted.1 == old(self).links()[lifted.0 as int],
            lifted.2 == old(self).links()[lifted.1 as int],
            final(self).links() == old(self).links().update(
                label as int,
                old(self).links()[lifted.2 as int],
            ),
            final(self).current_label() == old(self).current_label(),
            final(self)@ == old(self)@,
    {
        let a = self.next[label as usize];
        let b = self.next[a as usize];
        let c = self.next[b as usize];
        let past = self.next[c as usize];
        self.next.set(label as usize, past);
        (a, b, c)
    }

    /// Puts three cups back clockwise of `label`, in the order given.
    pub fn insert_three_after(&mut self, label: u32, lifted: (u32, u32, u32))
        requires
            old(self).linked(),
            1 <= label <= old(self).size(),
            1 <= lifted.0 <= old(self).size(),
            1 <= lifted.1 <= old(self).size(),
            1 <= lifted.2 <= old(self).size(),
        ensures
            final(self).linked(),
            final(self).links() == old(self).links().update(label as int, lifted.0).update(
                lifted.0 as int,
                lifted.1,
            ).update(lifted.1 as int, lifted.2).update(
                lifted.2 as int,
                old(self).links()[label as int],
            ),
            final(self).current_label() == old(self).current_label(),
            final(self)@ == old(self)@,
    {
        let follower = self.next[label as usize];
        self.next.set(label as usize, lifted.0);
        self.next.set(lifted.0 as usize, lifted.1);
        self.next.set(lifted.1 as usize, lifted.2);
        self.next.set(lifted.2 as usize, follower);
    }

    /// The `count` labels met when walking clockwise from `label`, not
    /// counting `label` itself.
    pub fn labels_clockwise_from(&self, label: u32, count: usize) -> (labels: Vec<u32>)
        requires
            self.linked(),
            1 <= label <= self.size(),
        ensures
            labels.len() == count,
            forall|i: int|
                0 <= i < count ==> #[trigger] labels[i] == walk(self.links(), label, (i + 1) as nat),
    {
        let mut labels: Vec<u32> = Vec::new();
        let mut at = label;
        while labels.len() < count
            invariant
                self.linked(),
                labels.len() <= count,
                1 <= at <= self.size(),
                at == walk(self.links(), label, labels.len() as nat),
                forall|i: int|
                    0 <= i < labels.len() ==> #[trigger] labels[i] == walk(
                        self.links(),
                        label,
                        (i + 1) as nat,
                    ),
            decreases count - labels.len(),
        {
            at = self.next[at as usize];
            labels.push(at);
        }
        labels
    }

    /// One move: the three cups clockwise of the current cup are lifted out
    /// and put back clockwise of the destination, and the cup that then
    /// follows the current cup becomes current.
    pub fn play_move(&mut self)
        requires
            old(self).wf(),
        ensures
            final(self).wf(),
            final(self)@ == move_order(old(self)@),
            final(self).links() == move_links(old(self).links(), old(self).current_label()),
            final(self).size() == old(self).size(),
    {
        let ghost before = self.order@;
        let ghost links = self.next@;
        let current = self.current;
        let n = (self.next.len() - 1) as u32;
        let lifted = self.remove_three_after(current);
        let destination = wrapping_destination(current, lifted.0, lifted.1, lifted.2, n);
        self.insert_three_after(destination, lifted);
        self.current = self.successor(current);
        proof {
            assert(links[before[0] as int] == before[1]);
            assert(links[before[1] as int] == before[2]);
            assert(links[before[2] as int] == before[3]);
            lemma_move_keeps_cycle(links, before);
            assert(self.next@ =~= move_links(links, current));
            lemma_successor_bijection(self.next@, move_order(before));
        }
        self.order = Ghost(move_order(before));
    }

    /// The labels that follow label 1 clockwise, all `n - 1` of them.
    pub fn ordered_labels(&self) -> (labels: Vec<u32>)
        requires
            self.wf(),
        ensures
            labels@ == labels_after(self@, 1),
    {
        let labels = self.labels_clockwise_from(1, self.next.len() - 2);
        proof {
            lemma_place_of(self@, 1);
            assert forall|i: int| 0 <= i < labels.len() implies labels[i] == labels_after(
                self@,
                1,
            )[i] by {
                lemma_walk_along(self.links(), self@, self@.index_of(1), (i + 1) as nat);
            }
            assert(labels@ =~= labels_after(self@, 1));
        }
        labels
    }

    /// The product of the two labels that follow label 1 clockwise.
    pub fn pair_product(&self) -> (product: u64)
        requires
            self.wf(),
        ensures
            product == product_after(self@, 1),
    {
        let first = self.next[1];
        let second = self.next[first as usize];
        proof {
            lemma_place_of(self@, 1);
            lemma_walk_along(self.links(), self@, self@.index_of(1), 1);
            lemma_walk_along(self.links(), self@, self@.index_of(1), 2);
            assert(walk(self.links(), 1, 1) == first);
            assert(walk(self.links(), 1, 2) == second);
            assert(first as u64 * second as u64 <= u64::MAX) by (nonlinear_arith)
                requires
                    first <= u32::MAX,
                    second <= u32::MAX,
            ;
        }
        first as u64 * second as u64
    }
}

/// A whole ring is determined by its clockwise order: two rings with the
/// same order from their current cups have the same successor table and the
/// same current cup.
pub proof fn lemma_order_determines_ring(a: &CupRing, b: &CupRing)
    requires
        a.wf(),
        b.wf(),
        a@ == b@,
    ensures
        a.links() == b.links(),
        a.current_label() == b.current_label(),
{
    let order = a@;
    assert forall|l: int| 0 <= l < a.links().len() implies a.links()[l] == b.links()[l] by {
        if l > 0 {
            lemma_place_of(order, l as u32);
            let i = order.index_of(l as u32);
            assert(a.links()[order[i] as int] == order[succ_index(i, order.len() as int)]);
            assert(b.links()[order[i] as int] == order[succ_index(i, order.len() as int)]);
        }
    }
    assert(a.links() =~= b.links());
}

/// Plays `move_count` moves on the ring.
pub fn run(ring: &mut CupRing, move_count: u64)
    requires
        old(ring).wf(),
    ensures
        final(ring).wf(),
        final(ring)@ == after_moves(old(ring)@, move_count as nat),
        final(ring).links() == links_after_moves(
            old(ring).links(),
            old(ring)@,
            move_count as nat,
        ),
        final(ring).size() == old(ring).size(),
{
    let mut played: u64 = 0;
    while played < move_count
        invariant
            played <= move_count,
            ring.wf(),
            ring@ == after_moves(old(ring)@, played as nat),
            ring.links() == links_after_moves(old(ring).links(), old(ring)@, played as nat),
            ring.size() == old(ring).size(),
        decreases move_count - played,
    {
        ring.play_move();
        played += 1;
    }
}

} // verus!
