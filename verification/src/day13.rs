//! Day 13: bus departures and the Chinese remainder theorem.

use crate::text::{chars_of, parse_i64, parse_signed_chars, signed_value, spells, split, split_chars, views};
use vstd::prelude::*;

verus! {

/// `d` divides `n`.
pub open spec fn divides(d: int, n: int) -> bool {
    exists|k: int| n == #[trigger] (k * d)
}

/// The greatest common divisor of `a` and `b` with the coefficients that
/// the extended Euclidean algorithm finds for it: `(g, x, y)`.
pub open spec fn bezout(a: int, b: int) -> (int, int, int)
    recommends
        a >= 0,
        b >= 0,
    decreases a,
{
    if a <= 0 {
        (b, 0, 1)
    } else {
        let (g, x1, y1) = bezout(b % a, a);
        (g, y1 - (b / a) * x1, x1)
    }
}

/// The magnitude of `x`.
pub open spec fn magnitude(x: int) -> int {
    if x < 0 {
        -x
    } else {
        x
    }
}

/// What the extended Euclidean algorithm finds is a common divisor of
/// `a` and `b` that is a combination of them, hence their greatest; and
/// its coefficients are no larger than `a` and `b`.
pub proof fn lemma_bezout(a: int, b: int)
    requires
        a >= 0,
        b >= 0,
    ensures
        a * bezout(a, b).1 + b * bezout(a, b).2 == bezout(a, b).0,
        bezout(a, b).0 >= 0,
        divides(bezout(a, b).0, a),
        divides(bezout(a, b).0, b),
        magnitude(bezout(a, b).1) <= if b >= 1 { b } else { 1 },
        magnitude(bezout(a, b).2) <= if a >= 1 { a } else { 1 },
        a == 0 ==> bezout(a, b) == (b, 0int, 1int),
    decreases a,
{
    if a == 0 {
        assert(a == 0 * b);
        assert(b == 1 * b);
    } else {
        let r = b % a;
        let q = b / a;
        assert(b == q * a + r && 0 <= r < a && q >= 0) by (nonlinear_arith)
            requires
                a > 0,
                b >= 0,
                r == b % a,
                q == b / a,
        ;
        lemma_bezout(r, a);
        let (g, x1, y1) = bezout(r, a);
        let x = y1 - q * x1;
        assert(a * x + b * x1 == g) by (nonlinear_arith)
            requires
                r * x1 + a * y1 == g,
                b == q * a + r,
                x == y1 - q * x1,
        ;
        let ka = choose|k: int| a == #[trigger] (k * g);
        let kr = choose|k: int| r == #[trigger] (k * g);
        assert(b == (q * ka + kr) * g) by (nonlinear_arith)
            requires
                b == q * a + r,
                a == ka * g,
                r == kr * g,
        ;
        if r == 0 {
            assert(x == 1);
        } else {
            assert(magnitude(q * x1) <= q * a) by (nonlinear_arith)
                requires
                    magnitude(x1) <= a,
                    q >= 0,
            ;
        }
    }
}

/// The extended Euclidean algorithm: the greatest common divisor of `a`
/// and `b`, and `x` and `y` with `a * x + b * y` equal to it.
pub fn extended_gcd(a: i64, b: i64) -> (found: (i64, i64, i64))
    requires
        a >= 0,
        b >= 0,
    ensures
        (found.0 as int, found.1 as int, found.2 as int) == bezout(a as int, b as int),
        a * found.1 + b * found.2 == found.0,
        divides(found.0 as int, a as int),
        divides(found.0 as int, b as int),
    decreases a,
{
    proof {
        lemma_bezout(a as int, b as int);
    }
    if a == 0 {
        (b, 0, 1)
    } else {
        proof {
            lemma_bezout((b % a) as int, a as int);
            let q = b as int / a as int;
            let r = b as int % a as int;
            assert(b == q * a + r && 0 <= r < a && q >= 0) by (nonlinear_arith)
                requires
                    a > 0,
                    b >= 0,
                    r == b as int % a as int,
                    q == b as int / a as int,
            ;
            let x1 = bezout(r, a as int).1;
            assert(magnitude(q * x1) <= q * a) by (nonlinear_arith)
                requires
                    magnitude(x1) <= a,
                    q >= 0,
            ;
        }
        let (gcd, x1, y1) = extended_gcd(b % a, a);
        (gcd, y1 - (b / a) * x1, x1)
    }
}


/// The remainder of `x` by `m` that takes the sign of `x`.
pub open spec fn rem_toward_zero(x: int, m: int) -> int {
    if x >= 0 {
        x % m
    } else {
        -((-x) % m)
    }
}

/// The inverse of `a` modulo `m` as the extended Euclidean algorithm gives it.
pub open spec fn inverse_of(a: int, m: int) -> int {
    rem_toward_zero(bezout(a, m).1, m)
}

/// The modular inverse of `a` modulo `m`: a number whose product with `a`
/// is one more than a multiple of `m`.
pub fn mod_inv(a: i64, m: i64) -> (inverse: i64)
    requires
        a >= 0,
        m >= 1,
        bezout(a as int, m as int).0 == 1,
    ensures
        inverse == inverse_of(a as int, m as int),
        divides(m as int, a * inverse - 1),
        -m < inverse < m,
{
    let (g, x, y) = extended_gcd(a, m);
    let inverse = x % m;
    proof {
        let xi = x as int;
        let mi = m as int;
        let t = if xi >= 0 {
            xi / mi
        } else {
            -((-xi) / mi)
        };
        assert(xi == t * mi + rem_toward_zero(xi, mi) && -mi < rem_toward_zero(xi, mi) < mi)
            by (nonlinear_arith)
            requires
                mi >= 1,
                t == if xi >= 0 {
                    xi / mi
                } else {
                    -((-xi) / mi)
                },
        ;
        assert(inverse == rem_toward_zero(xi, mi));
        let k = -(y + a * t);
        assert(a * inverse - 1 == k * mi) by (nonlinear_arith)
            requires
                a * xi + mi * y == 1,
                xi == t * mi + inverse,
                k == -(y + a * t),
        ;
    }
    inverse
}

/// The product of the moduli of the first `k` congruences.
pub open spec fn moduli_product(inputs: Seq<(i64, i64)>, k: nat) -> int
    decreases k,
{
    if k == 0 {
        1
    } else {
        moduli_product(inputs, (k - 1) as nat) * inputs[k - 1].1
    }
}

/// The share of one congruence in the sum: its residue, times the product
/// of the other moduli, times the inverse of that product modulo its own.
pub open spec fn share(input: (i64, i64), product: int) -> int {
    input.0 * (product / input.1 as int) * inverse_of(product / input.1 as int, input.1 as int)
}

/// The sum of the shares of the first `k` congruences, reduced by the
/// product of all moduli after each.
pub open spec fn shares_sum(inputs: Seq<(i64, i64)>, k: nat) -> int
    decreases k,
{
    if k == 0 {
        0
    } else {
        rem_toward_zero(
            shares_sum(inputs, (k - 1) as nat) + share(
                inputs[k - 1],
                moduli_product(inputs, inputs.len()),
            ),
            moduli_product(inputs, inputs.len()),
        )
    }
}

/// Whether a value fits in 64 bits with a sign.
pub open spec fn fits(x: int) -> bool {
    i64::MIN <= x <= i64::MAX
}

/// The congruences can be solved in 64 bits: every modulus is positive
/// and shares no factor with the product of the others, and nothing that
/// is computed on the way overflows.
pub open spec fn solvable(inputs: Seq<(i64, i64)>) -> bool {
    let product = moduli_product(inputs, inputs.len());
    &&& fits(product)
    &&& forall|i: int| 0 <= i < inputs.len() ==> (#[trigger] inputs[i]).1 >= 1
    &&& forall|i: int|
        0 <= i < inputs.len() ==> bezout(product / (#[trigger] inputs[i]).1 as int, inputs[i].1 as int).0
            == 1
    &&& forall|i: int|
        0 <= i < inputs.len() ==> fits((#[trigger] inputs[i]).0 * (product / inputs[i].1 as int))
            && fits(share(inputs[i], product))
    &&& forall|k: nat|
        1 <= k <= inputs.len() ==> fits(
            #[trigger] shares_sum(inputs, (k - 1) as nat) + share(inputs[k - 1], product),
        )
}

/// With positive moduli the product of some is at least one and at most
/// the product of more.
pub proof fn lemma_moduli_product(inputs: Seq<(i64, i64)>, k: nat, m: nat)
    requires
        k <= m <= inputs.len(),
        forall|i: int| 0 <= i < inputs.len() ==> (#[trigger] inputs[i]).1 >= 1,
    ensures
        1 <= moduli_product(inputs, k) <= moduli_product(inputs, m),
    decreases m,
{
    if k < m {
        lemma_moduli_product(inputs, k, (m - 1) as nat);
        let before = moduli_product(inputs, (m - 1) as nat);
        let factor = inputs[m - 1].1;
        assert(before <= before * factor) by (nonlinear_arith)
            requires
                before >= 1,
                factor >= 1,
        ;
    } else if k > 0 {
        lemma_moduli_product(inputs, (k - 1) as nat, (k - 1) as nat);
        let before = moduli_product(inputs, (k - 1) as nat);
        let factor = inputs[k - 1].1;
        assert(1 <= before * factor) by (nonlinear_arith)
            requires
                before >= 1,
                factor >= 1,
        ;
    }
}

/// Solves congruences given as pairs of residue and modulus, as the
/// Chinese remainder theorem does: the sum of the shares of all
/// congruences, reduced by the product of all moduli.
pub fn calculate_ctr(inputs: &[(i64, i64)]) -> (solution: i64)
    requires
        solvable(inputs@),
    ensures
        solution == shares_sum(inputs@, inputs@.len()),
        forall|j: int|
            0 <= j < inputs.len() ==> divides(
                (#[trigger] inputs[j]).1 as int,
                solution - inputs[j].0,
            ),
{
    proof {
        assert forall|j: int| 0 <= j < inputs.len() implies divides(
            (#[trigger] inputs[j]).1 as int,
            shares_sum(inputs@, inputs@.len()) - inputs[j].0,
        ) by {
            lemma_calculate_ctr(inputs@, j);
        }
    }
    let mut product: i64 = 1;
    let mut i: usize = 0;
    while i < inputs.len()
        invariant
            i <= inputs.len(),
            solvable(inputs@),
            product == moduli_product(inputs@, i as nat),
        decreases inputs.len() - i,
    {
        proof {
            lemma_moduli_product(inputs@, (i + 1) as nat, inputs@.len());
        }
        product = product * inputs[i].1;
        i += 1;
    }
    let mut sum: i64 = 0;
    i = 0;
    proof {
        lemma_moduli_product(inputs@, 0, inputs@.len());
    }
    while i < inputs.len()
        invariant
            i <= inputs.len(),
            solvable(inputs@),
            product == moduli_product(inputs@, inputs@.len()),
            product >= 1,
            sum == shares_sum(inputs@, i as nat),
        decreases inputs.len() - i,
    {
        let (residue, modulus) = inputs[i];
        let p = product / modulus;
        proof {
            assert(inputs@[i as int].1 >= 1);
            assert(fits(inputs@[i as int].0 * (product as int / inputs@[i as int].1 as int)));
            assert(fits(shares_sum(inputs@, ((i + 1) - 1) as nat) + share(inputs@[i + 1 - 1], product as int)));
            assert(0 <= product as int / modulus as int) by (nonlinear_arith)
                requires
                    product >= 1,
                    modulus >= 1,
            ;
        }
        let inverse = mod_inv(p, modulus);
        sum = (sum + residue * p * inverse) % product;
        i += 1;
    }
    sum
}

/// What was noted at the bus stop.
pub struct Notes {
    /// The earliest time of departure.
    pub earliest: i64,
    /// The buses in service, each with minus its place in the list, and its number.
    pub buses: Vec<(i64, i64)>,
}

/// How long one waits for `bus` from `earliest` on: until its next
/// departure after `earliest`.
pub open spec fn wait_for(earliest: int, bus: int) -> int {
    (earliest / bus + 1) * bus - earliest
}

/// Bus `i` is the first of those for which one waits least.
pub open spec fn is_first_bus(earliest: int, buses: Seq<(i64, i64)>, i: int) -> bool {
    &&& 0 <= i < buses.len()
    &&& forall|j: int|
        0 <= j < i ==> wait_for(earliest, buses[i].1 as int) < wait_for(
            earliest,
            (#[trigger] buses[j]).1 as int,
        )
    &&& forall|j: int|
        i <= j < buses.len() ==> wait_for(earliest, buses[i].1 as int) <= wait_for(
            earliest,
            (#[trigger] buses[j]).1 as int,
        )
}

/// The notes can be worked on: there is a bus, time is not negative, bus
/// numbers are positive, and the next departure of each fits in 64 bits.
pub open spec fn can_wait(earliest: int, buses: Seq<(i64, i64)>) -> bool {
    &&& buses.len() >= 1
    &&& earliest >= 0
    &&& forall|i: int|
        0 <= i < buses.len() ==> (#[trigger] buses[i]).1 >= 1 && earliest + buses[i].1 <= i64::MAX
}

/// The wait is positive and at most the number of the bus.
pub proof fn lemma_wait(earliest: int, bus: int)
    requires
        earliest >= 0,
        bus >= 1,
    ensures
        0 < wait_for(earliest, bus) <= bus,
        0 <= earliest / bus,
        (earliest / bus + 1) * bus <= earliest + bus,
{
    assert(0 <= earliest / bus && (earliest / bus) * bus <= earliest < (earliest / bus) * bus + bus
        && (earliest / bus + 1) * bus == (earliest / bus) * bus + bus) by (nonlinear_arith)
        requires
            earliest >= 0,
            bus >= 1,
    ;
}

/// The number of the first bus for which one waits least, times that wait.
pub fn part1(notes: &Notes) -> (answer: i64)
    requires
        can_wait(notes.earliest as int, notes.buses@),
        forall|i: int|
            is_first_bus(notes.earliest as int, notes.buses@, i) ==> notes.buses[i].1 * wait_for(
                notes.earliest as int,
                notes.buses[i].1 as int,
            ) <= i64::MAX,
    ensures
        exists|i: int|
            is_first_bus(notes.earliest as int, notes.buses@, i) && answer == notes.buses[i].1
                * wait_for(notes.earliest as int, notes.buses[i].1 as int),
{
    let earliest = notes.earliest;
    let mut best: usize = 0;
    proof {
        lemma_wait(earliest as int, notes.buses[0].1 as int);
    }
    let mut best_wait: i64 = (earliest / notes.buses[0].1 + 1) * notes.buses[0].1 - earliest;
    let mut i: usize = 1;
    while i < notes.buses.len()
        invariant
            1 <= i <= notes.buses.len(),
            earliest == notes.earliest,
            can_wait(earliest as int, notes.buses@),
            best < i,
            best_wait == wait_for(earliest as int, notes.buses[best as int].1 as int),
            forall|j: int|
                0 <= j < best ==> best_wait < wait_for(
                    earliest as int,
                    (#[trigger] notes.buses[j]).1 as int,
                ),
            forall|j: int|
                best <= j < i ==> best_wait <= wait_for(
                    earliest as int,
                    (#[trigger] notes.buses[j]).1 as int,
                ),
        decreases notes.buses.len() - i,
    {
        let bus = notes.buses[i].1;
        proof {
            lemma_wait(earliest as int, bus as int);
        }
        let wait = (earliest / bus + 1) * bus - earliest;
        if wait < best_wait {
            best = i;
            best_wait = wait;
        }
        i += 1;
    }
    proof {
        assert(is_first_bus(earliest as int, notes.buses@, best as int));
        lemma_wait(earliest as int, notes.buses[best as int].1 as int);
        assert(0 <= notes.buses[best as int].1 * best_wait) by (nonlinear_arith)
            requires
                notes.buses[best as int].1 >= 1,
                best_wait > 0,
        ;
    }
    notes.buses[best].1 * best_wait
}

/// The time that solves the congruences of the buses.
pub fn part2(notes: &Notes) -> (time: i64)
    requires
        solvable(notes.buses@),
    ensures
        time == shares_sum(notes.buses@, notes.buses@.len()),
        forall|j: int|
            0 <= j < notes.buses.len() ==> divides(
                (#[trigger] notes.buses[j]).1 as int,
                time - notes.buses[j].0,
            ),
{
    calculate_ctr(notes.buses.as_slice())
}

/// The number that a piece of the list of buses spells.
pub open spec fn bus_number(piece: Seq<char>) -> Option<int> {
    signed_value(piece, i64::MIN as int, i64::MAX as int)
}

/// The buses that the first `k` pieces of the list name: a piece `x` names
/// none, any other the bus of its number, noted with minus its place.
pub open spec fn buses_of(pieces: Seq<Seq<char>>, k: nat) -> Seq<(i64, i64)>
    decreases k,
{
    if k == 0 {
        Seq::empty()
    } else if pieces[k - 1] == seq!['x'] {
        buses_of(pieces, (k - 1) as nat)
    } else {
        buses_of(pieces, (k - 1) as nat).push(
            ((-(k - 1)) as i64, bus_number(pieces[k - 1]).unwrap() as i64),
        )
    }
}

/// The list of buses can be read: each piece is `x` or spells a number.
pub open spec fn is_bus_list(line: Seq<char>) -> bool {
    forall|i: int|
        0 <= i < split(line, ',').len() ==> #[trigger] split(line, ',')[i] == seq!['x']
            || bus_number(split(line, ',')[i]) is Some
}

/// The notes that two lines spell: the earliest time on the first, the
/// list of buses, separated by commas, on the second.
pub fn read_notes(lines: &Vec<String>) -> (notes: Notes)
    requires
        lines.len() >= 2,
        bus_number(lines[0]@) is Some,
        is_bus_list(lines[1]@),
        split(lines[1]@, ',').len() <= i64::MAX,
    ensures
        bus_number(lines[0]@) == Some(notes.earliest as int),
        notes.buses@ == buses_of(split(lines[1]@, ','), split(lines[1]@, ',').len()),
{
    let earliest = match parse_i64(lines[0].as_str()) {
        Some(v) => v,
        None => 0,
    };
    let line = chars_of(lines[1].as_str());
    let pieces = split_chars(&line, ',');
    let ghost cut = split(lines[1]@, ',');
    assert(pieces.len() == views(pieces@).len());
    let mut buses: Vec<(i64, i64)> = Vec::new();
    let mut i: usize = 0;
    proof {
        reveal_strlit("x");
    }
    while i < pieces.len()
        invariant
            i <= pieces.len() <= i64::MAX,
            lines.len() >= 2,
            cut == split(lines[1]@, ','),
            views(pieces@) == cut,
            is_bus_list(lines[1]@),
            "x"@ == seq!['x'],
            buses@ == buses_of(cut, i as nat),
        decreases pieces.len() - i,
    {
        assert(pieces[i as int]@ == cut[i as int]);
        assert(cut[i as int] == seq!['x'] || bus_number(cut[i as int]) is Some);
        if !spells(&pieces[i], "x") {
            match parse_signed_chars(&pieces[i], i64::MIN, i64::MAX) {
                Some(bus) => {
                    buses.push((-(i as i64), bus));
                },
                None => {},
            }
        }
        i += 1;
    }
    Notes { earliest, buses }
}


/// What divides two numbers divides their sum.
pub proof fn lemma_divides_sum(d: int, a: int, b: int)
    requires
        divides(d, a),
        divides(d, b),
    ensures
        divides(d, a + b),
{
    let ka = choose|k: int| a == #[trigger] (k * d);
    let kb = choose|k: int| b == #[trigger] (k * d);
    assert(a + b == (ka + kb) * d) by (nonlinear_arith)
        requires
            a == ka * d,
            b == kb * d,
    ;
}

/// What divides a number divides its multiples.
pub proof fn lemma_divides_multiple(d: int, a: int, c: int)
    requires
        divides(d, a),
    ensures
        divides(d, a * c),
        divides(d, c * a),
{
    let ka = choose|k: int| a == #[trigger] (k * d);
    assert(a * c == (ka * c) * d && c * a == (ka * c) * d) by (nonlinear_arith)
        requires
            a == ka * d,
    ;
}

/// What divides a divisor of a number divides the number.
pub proof fn lemma_divides_through(d: int, e: int, a: int)
    requires
        divides(d, e),
        divides(e, a),
    ensures
        divides(d, a),
{
    let ke = choose|k: int| e == #[trigger] (k * d);
    let ka = choose|k: int| a == #[trigger] (k * e);
    assert(a == (ka * ke) * d) by (nonlinear_arith)
        requires
            e == ke * d,
            a == ka * e,
    ;
}

/// A number and its remainder differ by a multiple of the modulus.
pub proof fn lemma_remainder(x: int, m: int)
    requires
        m >= 1,
    ensures
        divides(m, x - rem_toward_zero(x, m)),
{
    let t = if x >= 0 {
        x / m
    } else {
        -((-x) / m)
    };
    assert(x - rem_toward_zero(x, m) == t * m) by (nonlinear_arith)
        requires
            m >= 1,
            t == if x >= 0 {
                x / m
            } else {
                -((-x) / m)
            },
            rem_toward_zero(x, m) == if x >= 0 {
                x % m
            } else {
                -((-x) % m)
            },
    ;
}

/// The inverse of `a` modulo `m`, times `a`, is one more than a multiple of `m`.
pub proof fn lemma_inverse(a: int, m: int)
    requires
        a >= 0,
        m >= 1,
        bezout(a, m).0 == 1,
    ensures
        divides(m, a * inverse_of(a, m) - 1),
{
    lemma_bezout(a, m);
    let x = bezout(a, m).1;
    let y = bezout(a, m).2;
    lemma_remainder(x, m);
    let t = choose|t: int| x - inverse_of(a, m) == #[trigger] (t * m);
    let k = -(y + a * t);
    assert(a * inverse_of(a, m) - 1 == k * m) by (nonlinear_arith)
        requires
            a * x + m * y == 1,
            x - inverse_of(a, m) == t * m,
            k == -(y + a * t),
    ;
}

/// The product of the moduli of the first `k` congruences, that of congruence `i` left out.
pub open spec fn product_without(inputs: Seq<(i64, i64)>, k: nat, i: int) -> int
    decreases k,
{
    if k == 0 {
        1
    } else if k - 1 == i {
        product_without(inputs, (k - 1) as nat, i)
    } else {
        product_without(inputs, (k - 1) as nat, i) * inputs[k - 1].1
    }
}

/// The product of all moduli is one modulus times the product of the others.
pub proof fn lemma_product_split(inputs: Seq<(i64, i64)>, k: nat, i: int)
    requires
        k <= inputs.len(),
    ensures
        0 <= i < k ==> moduli_product(inputs, k) == inputs[i].1 * product_without(inputs, k, i),
        !(0 <= i < k) ==> moduli_product(inputs, k) == product_without(inputs, k, i),
    decreases k,
{
    if k > 0 {
        lemma_product_split(inputs, (k - 1) as nat, i);
        let before = product_without(inputs, (k - 1) as nat, i);
        let last = inputs[k - 1].1 as int;
        if k - 1 != i && 0 <= i < k {
            let mi = inputs[i].1 as int;
            assert((mi * before) * last == mi * (before * last)) by (nonlinear_arith);
        }
        if k - 1 == i {
            assert(before * last == last * before) by (nonlinear_arith);
        }
    }
}

/// Each modulus but the one left out divides the product of the others.
pub proof fn lemma_product_without(inputs: Seq<(i64, i64)>, k: nat, i: int, j: int)
    requires
        k <= inputs.len(),
        0 <= j < k,
        i != j,
    ensures
        divides(inputs[j].1 as int, product_without(inputs, k, i)),
    decreases k,
{
    let mj = inputs[j].1 as int;
    let before = product_without(inputs, (k - 1) as nat, i);
    if k - 1 == j {
        assert(before * mj == before * mj);
        assert(divides(mj, before * mj));
    } else {
        lemma_product_without(inputs, (k - 1) as nat, i, j);
        if k - 1 != i {
            lemma_divides_multiple(mj, before, inputs[k - 1].1 as int);
        }
    }
}

/// The share of a congruence counts for its residue in its own modulus,
/// and for nothing in the others.
pub proof fn lemma_share(inputs: Seq<(i64, i64)>, i: int, j: int)
    requires
        solvable(inputs),
        0 <= i < inputs.len(),
        0 <= j < inputs.len(),
    ensures
        divides(
            inputs[j].1 as int,
            share(inputs[i], moduli_product(inputs, inputs.len())) - if i == j {
                inputs[i].0 as int
            } else {
                0
            },
        ),
{
    let product = moduli_product(inputs, inputs.len());
    let mi = inputs[i].1 as int;
    let mj = inputs[j].1 as int;
    let r = inputs[i].0 as int;
    let others = product_without(inputs, inputs.len(), i);
    lemma_product_split(inputs, inputs.len(), i);
    assert(product / mi == others) by (nonlinear_arith)
        requires
            product == mi * others,
            mi >= 1,
    ;
    let inv = inverse_of(others, mi);
    assert(bezout(product / mi, mi).0 == 1);
    if i == j {
        lemma_product_positive(inputs, inputs.len(), i);
        lemma_inverse(others, mi);
        lemma_divides_multiple(mi, others * inv - 1, r);
        assert(r * others * inv - r == r * (others * inv - 1)) by (nonlinear_arith);
    } else {
        lemma_product_without(inputs, inputs.len(), i, j);
        lemma_divides_multiple(mj, others, r);
        lemma_divides_multiple(mj, r * others, inv);
    }
}

/// With positive moduli a product of them is positive.
pub proof fn lemma_product_positive(inputs: Seq<(i64, i64)>, k: nat, i: int)
    requires
        k <= inputs.len(),
        forall|l: int| 0 <= l < inputs.len() ==> (#[trigger] inputs[l]).1 >= 1,
    ensures
        product_without(inputs, k, i) >= 1,
    decreases k,
{
    if k > 0 {
        lemma_product_positive(inputs, (k - 1) as nat, i);
        let before = product_without(inputs, (k - 1) as nat, i);
        let last = inputs[k - 1].1 as int;
        assert(before * last >= 1) by (nonlinear_arith)
            requires
                before >= 1,
                last >= 1,
        ;
    }
}

/// After the shares of the first `k` congruences are summed, the sum
/// leaves in the modulus of congruence `j` its residue if it is among
/// them, and nothing if not.
pub proof fn lemma_shares_sum(inputs: Seq<(i64, i64)>, j: int, k: nat)
    requires
        solvable(inputs),
        0 <= j < inputs.len(),
        k <= inputs.len(),
    ensures
        divides(
            inputs[j].1 as int,
            shares_sum(inputs, k) - if j < k {
                inputs[j].0 as int
            } else {
                0
            },
        ),
    decreases k,
{
    let mj = inputs[j].1 as int;
    if k == 0 {
        assert(0 == 0 * mj);
    } else {
        let product = moduli_product(inputs, inputs.len());
        lemma_shares_sum(inputs, j, (k - 1) as nat);
        lemma_share(inputs, k - 1, j);
        let before = shares_sum(inputs, (k - 1) as nat);
        let here = share(inputs[k - 1], product);
        let counted = if j < k - 1 {
            inputs[j].0 as int
        } else {
            0
        };
        let added = if k - 1 == j {
            inputs[j].0 as int
        } else {
            0
        };
        lemma_divides_sum(mj, before - counted, here - added);
        lemma_moduli_product(inputs, 0, inputs.len());
        lemma_remainder(before + here, product);
        lemma_product_split(inputs, inputs.len(), j);
        assert(divides(mj, product)) by {
            let others = product_without(inputs, inputs.len(), j);
            assert(product == others * mj) by (nonlinear_arith)
                requires
                    product == mj * others,
            ;
        }
        lemma_divides_through(mj, product, before + here - shares_sum(inputs, k));
        lemma_divides_multiple(mj, before + here - shares_sum(inputs, k), -1);
        lemma_divides_sum(
            mj,
            (before - counted) + (here - added),
            (before + here - shares_sum(inputs, k)) * -1,
        );
    }
}

/// The Chinese remainder theorem: what `calculate_ctr` finds leaves in
/// every modulus the residue that goes with it.
pub proof fn lemma_calculate_ctr(inputs: Seq<(i64, i64)>, j: int)
    requires
        solvable(inputs),
        0 <= j < inputs.len(),
    ensures
        divides(inputs[j].1 as int, shares_sum(inputs, inputs.len()) - inputs[j].0),
{
    lemma_shares_sum(inputs, j, inputs.len());
}

} // verus!
