//! Greatest common divisors, least common multiples and simultaneous
//! congruences, on machine integers with contracts over the natural numbers.

use vstd::arithmetic::div_mod::{
    lemma_fundamental_div_mod, lemma_fundamental_div_mod_converse, lemma_mod_equivalence,
    lemma_mod_mod, lemma_mod_multiples_basic, lemma_multiply_divide_lt, lemma_small_mod,
};
use vstd::prelude::*;

verus! {

/// The greatest common divisor, by Euclid's rule. `gcd(a, 0)` is `a`.
pub open spec fn gcd(a: nat, b: nat) -> nat
    decreases b,
{
    if b == 0 {
        a
    } else {
        gcd(b, a % b)
    }
}

/// The least common multiple. It is zero if one of the numbers is.
pub open spec fn lcm(a: nat, b: nat) -> nat {
    if a == 0 || b == 0 {
        0
    } else {
        (a / gcd(a, b)) * b
    }
}

/// The least common multiple of all numbers of a list; one for the empty
/// list.
pub open spec fn lcm_seq(values: Seq<u64>) -> nat
    decreases values.len(),
{
    if values.len() == 0 {
        1
    } else {
        lcm(lcm_seq(values.drop_last()), values.last() as nat)
    }
}

/// Whether `d` divides `n`. Zero divides zero alone.
pub open spec fn divides(d: nat, n: nat) -> bool {
    if d == 0 {
        n == 0
    } else {
        n % d == 0
    }
}

/// A multiple of `d` is divided by `d`.
pub proof fn lemma_multiple_divides(k: nat, d: nat)
    ensures
        divides(d, k * d),
{
    if d > 0 {
        lemma_mod_multiples_basic(k as int, d as int);
    } else {
        assert(k * d == 0) by (nonlinear_arith)
            requires
                d == 0,
        ;
    }
}

/// What `d` divides is a multiple of `d`.
pub proof fn lemma_divides_multiple(d: nat, n: nat) -> (k: nat)
    requires
        divides(d, n),
    ensures
        n == k * d,
{
    if d > 0 {
        lemma_fundamental_div_mod(n as int, d as int);
        let k = n / d;
        assert(n == k * d) by (nonlinear_arith)
            requires
                n == d * k + 0,
        ;
        k
    } else {
        assert(0 == 0 * d) by (nonlinear_arith);
        0
    }
}

/// The greatest common divisor of two positive numbers is positive and at
/// most each of them.
pub proof fn lemma_gcd_bounds(a: nat, b: nat)
    ensures
        a > 0 ==> 0 < gcd(a, b) <= a,
        b > 0 ==> 0 < gcd(a, b) <= b,
        a == 0 ==> gcd(a, b) == b,
    decreases b,
{
    if b != 0 {
        lemma_gcd_bounds(b, a % b);
        lemma_fundamental_div_mod(a as int, b as int);
        if a % b == 0 && a > 0 {
            assert(b <= a) by (nonlinear_arith)
                requires
                    a == b * (a / b) + 0,
                    a > 0,
                    b > 0,
                    a / b >= 0,
            ;
        }
    }
}

/// The greatest common divisor.
pub fn gcd_u64(a: u64, b: u64) -> (g: u64)
    ensures
        g == gcd(a as nat, b as nat),
{
    let mut x = a;
    let mut y = b;
    while y != 0
        invariant
            gcd(x as nat, y as nat) == gcd(a as nat, b as nat),
        decreases y,
    {
        let r = x % y;
        x = y;
        y = r;
    }
    x
}

/// The least common multiple in full width.
pub fn lcm_wide(a: u64, b: u64) -> (l: u128)
    ensures
        l == lcm(a as nat, b as nat),
{
    if a == 0 || b == 0 {
        return 0;
    }
    let g = gcd_u64(a, b);
    proof {
        lemma_gcd_bounds(a as nat, b as nat);
    }
    let q = a / g;
    assert((q as u128) * (b as u128) <= 0xffff_ffff_ffff_ffff * 0xffff_ffff_ffff_ffff) by (nonlinear_arith)
        requires
            q <= 0xffff_ffff_ffff_ffff,
            b <= 0xffff_ffff_ffff_ffff,
    ;
    (q as u128) * (b as u128)
}

/// The least common multiple, if it fits.
pub fn checked_lcm(a: u64, b: u64) -> (l: Option<u64>)
    ensures
        match l {
            Some(value) => value == lcm(a as nat, b as nat),
            None => lcm(a as nat, b as nat) > u64::MAX,
        },
{
    let wide = lcm_wide(a, b);
    if wide > 0xffff_ffff_ffff_ffff {
        None
    } else {
        Some(wide as u64)
    }
}

/// The least common multiple of all numbers of a list, if it fits.
pub fn lcm_iter(values: &[u64]) -> (l: Option<u64>)
    ensures
        match l {
            Some(value) => value == lcm_seq(values@),
            None => lcm_seq(values@) > u64::MAX,
        },
{
    let mut z: usize = 0;
    while z < values.len()
        invariant
            z <= values@.len(),
            forall|j: int| 0 <= j < z ==> values@[j] != 0,
        decreases values@.len() - z,
    {
        if values[z] == 0 {
            proof {
                assert(values@.take(z + 1).drop_last() =~= values@.take(z as int));
                lemma_lcm_seq_zero(values@, z as int + 1);
            }
            return Some(0);
        }
        z += 1;
    }
    let mut acc: u64 = 1;
    let mut i: usize = 0;
    assert(values@.take(0) =~= Seq::<u64>::empty());
    while i < values.len()
        invariant
            i <= values@.len(),
            forall|j: int| 0 <= j < values@.len() ==> values@[j] != 0,
            acc == lcm_seq(values@.take(i as int)),
            acc > 0,
        decreases values@.len() - i,
    {
        assert(values@.take(i + 1).drop_last() =~= values@.take(i as int));
        proof {
            lemma_lcm_bounds(acc as nat, values@[i as int] as nat);
        }
        match checked_lcm(acc, values[i]) {
            Some(next) => {
                acc = next;
            },
            None => {
                proof {
                    lemma_lcm_seq_grows(values@, i as int + 1);
                }
                return None;
            },
        }
        i += 1;
    }
    assert(values@.take(values@.len() as int) =~= values@);
    Some(acc)
}

/// A least common multiple is zero or at least as large as each number.
pub proof fn lemma_lcm_bounds(a: nat, b: nat)
    ensures
        lcm(a, b) == 0 || (lcm(a, b) >= a && lcm(a, b) >= b),
        a > 0 && b > 0 ==> lcm(a, b) > 0,
{
    if a > 0 && b > 0 {
        lemma_gcd_bounds(a, b);
        lemma_gcd_divides(a, b);
        let g = gcd(a, b);
        let q = lemma_divides_multiple(g, a);
        let j = lemma_divides_multiple(g, b);
        lemma_fundamental_div_mod_converse(a as int, g as int, q as int, 0);
        assert(a / g == q);
        assert(q >= 1 && j >= 1) by (nonlinear_arith)
            requires
                a == q * g,
                b == j * g,
                a > 0,
                b > 0,
                g > 0,
        ;
        assert(q * b >= b && q * b >= a && q * b > 0) by (nonlinear_arith)
            requires
                a == q * g,
                b == j * g,
                q >= 1,
                j >= 1,
                g > 0,
        ;
    }
}

/// The greatest common divisor divides both numbers.
pub proof fn lemma_gcd_divides(a: nat, b: nat)
    ensures
        divides(gcd(a, b), a),
        divides(gcd(a, b), b),
    decreases b,
{
    if b == 0 {
        if a > 0 {
            lemma_mod_multiples_basic(1, a as int);
            lemma_mod_multiples_basic(0, a as int);
        }
    } else {
        lemma_gcd_divides(b, a % b);
        lemma_gcd_bounds(b, a % b);
        let g = gcd(a, b);
        let kb = lemma_divides_multiple(g, b);
        let kr = lemma_divides_multiple(g, a % b);
        let q = a / b;
        lemma_fundamental_div_mod(a as int, b as int);
        assert(a == (q * kb + kr) * g) by (nonlinear_arith)
            requires
                a == b * q + a % b,
                b == kb * g,
                a % b == kr * g,
        ;
        lemma_multiple_divides(q * kb + kr, g);
    }
}

/// Once the least common multiple of a start of a list of positive numbers
/// does not fit, that of the whole list does not either.
pub proof fn lemma_lcm_seq_grows(values: Seq<u64>, upto: int)
    requires
        0 <= upto <= values.len(),
        forall|j: int| 0 <= j < values.len() ==> values[j] != 0,
        lcm_seq(values.take(upto)) > u64::MAX,
    ensures
        lcm_seq(values) > u64::MAX,
    decreases values.len() - upto,
{
    if upto < values.len() {
        assert(values.take(upto + 1).drop_last() =~= values.take(upto));
        lemma_lcm_bounds(lcm_seq(values.take(upto)), values[upto] as nat);
        lemma_lcm_seq_grows(values, upto + 1);
    } else {
        assert(values.take(upto) =~= values);
    }
}

/// Once the least common multiple of a start of the list is zero, that of the
/// whole list is.
pub proof fn lemma_lcm_seq_zero(values: Seq<u64>, upto: int)
    requires
        0 <= upto <= values.len(),
        lcm_seq(values.take(upto)) == 0,
    ensures
        lcm_seq(values) == 0,
    decreases values.len() - upto,
{
    if upto < values.len() {
        assert(values.take(upto + 1).drop_last() =~= values.take(upto));
        lemma_lcm_seq_zero(values, upto + 1);
    } else {
        assert(values.take(upto) =~= values);
    }
}

/// The greatest common divisor is a sum of multiples of the two numbers.
pub proof fn lemma_bezout(a: nat, b: nat) -> (coefficients: (int, int))
    ensures
        coefficients.0 * a + coefficients.1 * b == gcd(a, b),
    decreases b,
{
    if b == 0 {
        (1, 0)
    } else {
        let (s, t) = lemma_bezout(b, a % b);
        let q = (a / b) as int;
        lemma_fundamental_div_mod(a as int, b as int);
        let r = (a % b) as int;
        assert(t * a + (s - t * q) * b == s * b + t * r) by (nonlinear_arith)
            requires
                a == b * q + r,
        ;
        (t, s - t * q)
    }
}

/// The least common multiple of two positive numbers is a multiple of each:
/// it is the one times the part of the other that they do not share.
pub proof fn lemma_lcm_multiple(a: nat, b: nat)
    requires
        a > 0,
        b > 0,
    ensures
        lcm(a, b) == a * (b / gcd(a, b)),
        lcm(a, b) == b * (a / gcd(a, b)),
        b / gcd(a, b) > 0,
        a / gcd(a, b) > 0,
        lcm(a, b) > 0,
{
    lemma_gcd_bounds(a, b);
    lemma_gcd_divides(a, b);
    let g = gcd(a, b);
    let x = lemma_divides_multiple(g, a);
    let y = lemma_divides_multiple(g, b);
    lemma_fundamental_div_mod_converse(a as int, g as int, x as int, 0);
    lemma_fundamental_div_mod_converse(b as int, g as int, y as int, 0);
    assert(x > 0 && y > 0) by (nonlinear_arith)
        requires
            a == x * g,
            b == y * g,
            a > 0,
            b > 0,
            g > 0,
    ;
    assert(x * b == a * y && x * b == b * x && x * b > 0) by (nonlinear_arith)
        requires
            a == x * g,
            b == y * g,
            x > 0,
            b > 0,
    ;
}

/// What two positive numbers both divide, their least common multiple
/// divides.
pub proof fn lemma_lcm_least(a: nat, b: nat, d: int)
    requires
        a > 0,
        b > 0,
        d % (a as int) == 0,
        d % (b as int) == 0,
    ensures
        d % (lcm(a, b) as int) == 0,
{
    lemma_lcm_multiple(a, b);
    lemma_gcd_bounds(a, b);
    lemma_gcd_divides(a, b);
    let g = gcd(a, b) as int;
    let (s, t) = lemma_bezout(a, b);
    let ai = a as int;
    let bi = b as int;
    let x = d / ai;
    let y = d / bi;
    lemma_fundamental_div_mod(d, ai);
    lemma_fundamental_div_mod(d, bi);
    let a1 = (a / gcd(a, b)) as int;
    lemma_fundamental_div_mod(ai, g);
    let l = lcm(a, b) as int;
    let k = y * s + x * t;
    // d * g == a * b * k, and a == a1 * g, so d == a1 * b * k
    assert(d * (s * ai) == ai * bi * (y * s)) by (nonlinear_arith)
        requires
            d == bi * y,
    ;
    assert(d * (t * bi) == ai * bi * (x * t)) by (nonlinear_arith)
        requires
            d == ai * x,
    ;
    assert(d * g == d * (s * ai) + d * (t * bi)) by (nonlinear_arith)
        requires
            s * ai + t * bi == g,
    ;
    assert(ai * bi * (y * s) + ai * bi * (x * t) == ai * bi * k) by (nonlinear_arith)
        requires
            k == y * s + x * t,
    ;
    assert(ai == g * a1);
    assert(d == l * k) by (nonlinear_arith)
        requires
            d * g == ai * bi * k,
            ai == g * a1,
            l == bi * a1,
            g > 0,
    ;
    lemma_mod_multiples_basic(k, l);
    assert(d == k * l) by (nonlinear_arith)
        requires
            d == l * k,
    ;
}

/// A multiple of a number that is nearer to zero than the number is zero.
pub proof fn lemma_small_multiple(d: int, m: int)
    requires
        m > 0,
        -m < d < m,
        d % m == 0,
    ensures
        d == 0,
{
    lemma_fundamental_div_mod(d, m);
    let q = d / m;
    assert(q == 0) by (nonlinear_arith)
        requires
            d == m * q,
            -m < d < m,
            m > 0,
    ;
}

/// Whether `x` meets the first `upto` congruences: it leaves the same
/// remainder as the residue when divided by the modulus.
pub open spec fn meets(pairs: Seq<(u64, u64)>, x: int, upto: int) -> bool {
    forall|i: int|
        0 <= i < upto && i < pairs.len() ==> (#[trigger] pairs[i]).1 != 0 && x % (pairs[i].1 as int)
            == pairs[i].0 % pairs[i].1
}

/// The moduli of the congruences.
pub open spec fn moduli_of(pairs: Seq<(u64, u64)>) -> Seq<u64> {
    Seq::new(pairs.len(), |i: int| pairs[i].1)
}

/// Whether a modulus is zero.
pub open spec fn has_zero_modulus(pairs: Seq<(u64, u64)>) -> bool {
    exists|i: int| 0 <= i < pairs.len() && (#[trigger] pairs[i]).1 == 0
}

/// What the Chinese remainder theorem gives for a list of congruences, each a
/// residue with its modulus: the least number that meets them all. There is
/// none if a modulus is zero, if the least common multiple of the moduli does
/// not fit, or if no number meets them all; else there is one.
pub open spec fn is_crt_solution(pairs: Seq<(u64, u64)>, solution: Option<u64>) -> bool {
    match solution {
        Some(x) => {
            &&& meets(pairs, x as int, pairs.len() as int)
            &&& x < lcm_seq(moduli_of(pairs)) <= u64::MAX
            &&& forall|y: int| y >= 0 && #[trigger] meets(pairs, y, pairs.len() as int) ==> x <= y
        },
        None => {
            ||| has_zero_modulus(pairs)
            ||| lcm_seq(moduli_of(pairs)) > u64::MAX
            ||| forall|y: int| y >= 0 ==> !#[trigger] meets(pairs, y, pairs.len() as int)
        },
    }
}

/// With the modulus `big` a multiple of `small`, a remainder modulo `big`
/// leaves the remainder modulo `small` that the number itself leaves.
proof fn lemma_mod_of_mod(y: int, small: int, factor: int)
    requires
        small > 0,
        factor > 0,
    ensures
        (y % (small * factor)) % small == y % small,
        0 <= y % (small * factor) < small * factor,
{
    lemma_mod_mod(y, small, factor);
    vstd::arithmetic::div_mod::lemma_mod_bound(y, small * factor);
}

/// Joins one more congruence to a solution of the congruences before it.
///
/// `x` is the least solution of a system whose solutions are the numbers that
/// leave the remainder `x` modulo `big`. The result is the least number that
/// also leaves the remainder of `residue` modulo `modulus`, or none if there is
/// none.
fn join_congruence(x: u64, big: u64, residue: u64, modulus: u64, joined: u64) -> (solution: Option<u64>)
    requires
        big > 0,
        modulus > 0,
        x < big,
        joined == lcm(big as nat, modulus as nat),
    ensures
        match solution {
            Some(z) => {
                &&& z < joined
                &&& z % big == x
                &&& z % modulus == residue % modulus
                &&& forall|y: int|
                    y % (big as int) == x && #[trigger] (y % (modulus as int)) == residue % modulus ==> y
                        % (joined as int) == z
            },
            None => forall|y: int|
                y % (big as int) == x ==> #[trigger] (y % (modulus as int)) != residue % modulus,
        },
{
    let g = gcd_u64(big, modulus);
    proof {
        lemma_gcd_bounds(big as nat, modulus as nat);
        lemma_lcm_multiple(big as nat, modulus as nat);
    }
    let steps = modulus / g;
    let want = residue % modulus;
    let mut k: u64 = 0;
    while k < steps
        invariant
            k <= steps,
            steps == modulus / g,
            g == gcd(big as nat, modulus as nat),
            big > 0,
            modulus > 0,
            x < big,
            want == residue % modulus,
            joined == big * steps,
            joined == lcm(big as nat, modulus as nat),
            forall|j: int| 0 <= j < k ==> #[trigger] ((x + j * big) % (modulus as int)) != want,
        decreases steps - k,
    {
        assert(x + k * big < joined && k * big >= 0) by (nonlinear_arith)
            requires
                x < big,
                k < steps,
                joined == big * steps,
                big > 0,
        ;
        let candidate: u64 = x + k * big;
        if candidate % modulus == want {
            proof {
                let z = candidate as int;
                assert(z % (big as int) == x) by {
                    lemma_fundamental_div_mod_converse(z, big as int, k as int, x as int);
                }
                assert forall|y: int|
                    y % (big as int) == x && #[trigger] (y % (modulus as int)) == residue
                        % modulus implies y % (joined as int) == z by {
                    let rest = y % (joined as int);
                    lemma_lcm_multiple(big as nat, modulus as nat);
                    lemma_mod_of_mod(y, big as int, steps as int);
                    assert(joined == modulus * (big / g));
                    lemma_mod_of_mod(y, modulus as int, (big / g) as int);
                    let d = rest - z;
                    lemma_mod_equivalence(rest, z, big as int);
                    lemma_mod_equivalence(rest, z, modulus as int);
                    lemma_lcm_least(big as nat, modulus as nat, d);
                    lemma_small_multiple(d, joined as int);
                }
            }
            return Some(candidate);
        }
        k += 1;
    }
    proof {
        assert forall|y: int| y % (big as int) == x implies #[trigger] (y % (modulus as int)) != want by {
            if y % (modulus as int) == want {
                let rest = y % (joined as int);
                lemma_lcm_multiple(big as nat, modulus as nat);
                lemma_mod_of_mod(y, big as int, steps as int);
                assert(joined == modulus * (big / g));
                lemma_mod_of_mod(y, modulus as int, (big / g) as int);
                let j = rest / (big as int);
                lemma_fundamental_div_mod(rest, big as int);
                lemma_multiply_divide_lt(rest, big as int, steps as int);
                vstd::arithmetic::div_mod::lemma_div_pos_is_pos(rest, big as int);
                assert(rest == x + j * big) by (nonlinear_arith)
                    requires
                        rest == big * j + x,
                ;
                assert((x + j * big) % (modulus as int) != want);
            }
        }
    }
    None
}

/// The least number that meets all congruences, each a residue with its
/// modulus.
pub fn chinese_remainder_theorem(pairs: &Vec<(u64, u64)>) -> (solution: Option<u64>)
    ensures
        is_crt_solution(pairs@, solution),
{
    let mut z: usize = 0;
    while z < pairs.len()
        invariant
            z <= pairs@.len(),
            forall|j: int| 0 <= j < z ==> (#[trigger] pairs@[j]).1 != 0,
        decreases pairs@.len() - z,
    {
        if pairs[z].1 == 0 {
            return None;
        }
        z += 1;
    }
    let ghost moduli = moduli_of(pairs@);
    let mut x: u64 = 0;
    let mut big: u64 = 1;
    let mut i: usize = 0;
    proof {
        assert(moduli.take(0) =~= Seq::<u64>::empty());
        assert forall|y: int| #[trigger] meets(pairs@, y, 0) implies y % 1 == 0 by {}
    }
    while i < pairs.len()
        invariant
            i <= pairs@.len(),
            moduli == moduli_of(pairs@),
            forall|j: int| 0 <= j < pairs@.len() ==> (#[trigger] pairs@[j]).1 != 0,
            big == lcm_seq(moduli.take(i as int)),
            big > 0,
            x < big,
            meets(pairs@, x as int, i as int),
            forall|y: int| #[trigger] meets(pairs@, y, i as int) ==> y % (big as int) == x,
        decreases pairs@.len() - i,
    {
        let (residue, modulus) = pairs[i];
        proof {
            assert(moduli.take(i + 1).drop_last() =~= moduli.take(i as int));
            assert(moduli.take(i + 1).last() == modulus);
            lemma_lcm_bounds(big as nat, modulus as nat);
        }
        let joined = match checked_lcm(big, modulus) {
            Some(joined) => joined,
            None => {
                proof {
                    assert forall|j: int| 0 <= j < moduli.len() implies moduli[j] != 0 by {
                        assert(pairs@[j].1 != 0);
                    }
                    lemma_lcm_seq_grows(moduli, i as int + 1);
                }
                return None;
            },
        };
        match join_congruence(x, big, residue, modulus, joined) {
            Some(next) => {
                proof {
                    lemma_lcm_multiple(big as nat, modulus as nat);
                    let steps = (modulus as nat) / gcd(big as nat, modulus as nat);
                    assert forall|j: int| 0 <= j < i + 1 implies (#[trigger] pairs@[j]).1 != 0 && (
                    next as int) % (pairs@[j].1 as int) == pairs@[j].0 % pairs@[j].1 by {
                        if j < i {
                            // the new solution leaves the remainder `x` modulo `big`
                            assert(meets(pairs@, x as int, i as int));
                            lemma_meets_same(pairs@, x as int, next as int, big as int, i as int, j);
                        }
                    }
                    assert forall|y: int| #[trigger] meets(pairs@, y, i + 1) implies y % (joined as int)
                        == next by {
                        assert(meets(pairs@, y, i as int));
                        assert(pairs@[i as int].1 != 0 && y % (pairs@[i as int].1 as int) == pairs@[i as int].0
                            % pairs@[i as int].1);
                    }
                }
                x = next;
                big = joined;
            },
            None => {
                proof {
                    assert forall|y: int| y >= 0 implies !#[trigger] meets(pairs@, y, pairs@.len() as int) by {
                        if meets(pairs@, y, pairs@.len() as int) {
                            assert(meets(pairs@, y, i as int));
                            assert(pairs@[i as int].1 != 0 && y % (pairs@[i as int].1 as int) == pairs@[i as int].0
                                % pairs@[i as int].1);
                        }
                    }
                }
                return None;
            },
        }
        i += 1;
    }
    proof {
        assert(moduli.take(pairs@.len() as int) =~= moduli);
        assert forall|y: int| y >= 0 && #[trigger] meets(pairs@, y, pairs@.len() as int) implies x <= y by {
            assert(y % (big as int) == x);
            lemma_fundamental_div_mod(y, big as int);
            vstd::arithmetic::div_mod::lemma_div_pos_is_pos(y, big as int);
            assert(y >= x) by (nonlinear_arith)
                requires
                    y == big * (y / (big as int)) + x,
                    y / (big as int) >= 0,
                    big > 0,
            ;
        }
    }
    Some(x)
}

/// Two numbers that leave the same remainder modulo the least common multiple
/// of the moduli before `upto` meet the same of those congruences.
proof fn lemma_meets_same(pairs: Seq<(u64, u64)>, x: int, z: int, big: int, upto: int, j: int)
    requires
        0 <= j < upto <= pairs.len(),
        forall|k: int| 0 <= k < pairs.len() ==> (#[trigger] pairs[k]).1 != 0,
        big == lcm_seq(moduli_of(pairs).take(upto)),
        big > 0,
        z % big == x % big,
        meets(pairs, x, upto),
    ensures
        z % (pairs[j].1 as int) == pairs[j].0 % pairs[j].1,
{
    let m = pairs[j].1 as int;
    lemma_lcm_seq_multiple(moduli_of(pairs), upto, j);
    let d = z - x;
    lemma_mod_equivalence(z, x, big);
    lemma_fundamental_div_mod(big, m);
    lemma_fundamental_div_mod(d, big);
    let q = big / m;
    let k = d / big;
    assert(d == m * (q * k)) by (nonlinear_arith)
        requires
            big == m * q,
            d == big * k,
    ;
    lemma_mod_multiples_basic(q * k, m);
    assert(d == (q * k) * m) by (nonlinear_arith)
        requires
            d == m * (q * k),
    ;
    lemma_mod_equivalence(z, x, m);
    assert(pairs[j].1 != 0 && x % (pairs[j].1 as int) == pairs[j].0 % pairs[j].1);
}

/// The least common multiple of the first numbers of a list of positive
/// numbers is a multiple of each of them.
pub proof fn lemma_lcm_seq_multiple(values: Seq<u64>, upto: int, j: int)
    requires
        0 <= j < upto <= values.len(),
        forall|k: int| 0 <= k < values.len() ==> #[trigger] values[k] != 0,
    ensures
        lcm_seq(values.take(upto)) > 0,
        (lcm_seq(values.take(upto)) as int) % (values[j] as int) == 0,
    decreases upto,
{
    assert(values.take(upto).drop_last() =~= values.take(upto - 1));
    let before = lcm_seq(values.take(upto - 1));
    let last = values[upto - 1] as nat;
    lemma_lcm_seq_positive(values, upto - 1);
    lemma_lcm_multiple(before, last);
    let all = lcm(before, last);
    if j == upto - 1 {
        lemma_mod_multiples_basic((before / gcd(before, last)) as int, last as int);
        assert(all == (before / gcd(before, last)) * last) by (nonlinear_arith)
            requires
                all == last * (before / gcd(before, last)),
        ;
    } else {
        lemma_lcm_seq_multiple(values, upto - 1, j);
        let m = values[j] as int;
        lemma_fundamental_div_mod(before as int, m);
        let q = (before as int) / m;
        let f = (last / gcd(before, last)) as int;
        assert(all == (q * f) * m) by (nonlinear_arith)
            requires
                all == before * f,
                before == m * q,
        ;
        lemma_mod_multiples_basic(q * f, m);
    }
}

/// The least common multiple of the first numbers of a list of positive
/// numbers is positive.
pub proof fn lemma_lcm_seq_positive(values: Seq<u64>, upto: int)
    requires
        0 <= upto <= values.len(),
        forall|k: int| 0 <= k < values.len() ==> #[trigger] values[k] != 0,
    ensures
        lcm_seq(values.take(upto)) > 0,
    decreases upto,
{
    if upto > 0 {
        assert(values.take(upto).drop_last() =~= values.take(upto - 1));
        lemma_lcm_seq_positive(values, upto - 1);
        lemma_lcm_bounds(lcm_seq(values.take(upto - 1)), values[upto - 1] as nat);
    } else {
        assert(values.take(0) =~= Seq::<u64>::empty());
    }
}

/// The least common multiple of a list of positive numbers divides every
/// positive number that each of them divides.
pub proof fn lemma_lcm_seq_least(values: Seq<u64>, upto: int, d: int)
    requires
        0 <= upto <= values.len(),
        d > 0,
        forall|k: int| 0 <= k < values.len() ==> #[trigger] values[k] != 0 && d % (values[k] as int) == 0,
    ensures
        lcm_seq(values.take(upto)) > 0,
        d % (lcm_seq(values.take(upto)) as int) == 0,
    decreases upto,
{
    lemma_lcm_seq_positive(values, upto);
    if upto > 0 {
        assert(values.take(upto).drop_last() =~= values.take(upto - 1));
        lemma_lcm_seq_least(values, upto - 1, d);
        assert(values[upto - 1] != 0);
        lemma_lcm_least(lcm_seq(values.take(upto - 1)), values[upto - 1] as nat, d);
    } else {
        assert(values.take(0) =~= Seq::<u64>::empty());
        lemma_mod_multiples_basic(d, 1);
        assert(d * 1 == d);
    }
}

/// Two positive numbers that divide each other are one number.
pub proof fn lemma_divide_each_other(a: int, b: int)
    requires
        a > 0,
        b > 0,
        a % b == 0,
        b % a == 0,
    ensures
        a == b,
{
    lemma_fundamental_div_mod(a, b);
    lemma_fundamental_div_mod(b, a);
    let q = a / b;
    let r = b / a;
    assert(a == b) by (nonlinear_arith)
        requires
            a > 0,
            b > 0,
            a == b * q,
            b == a * r,
    ;
}

/// Whether every number of the first list is a number of the second.
pub open spec fn all_among(a: Seq<u64>, b: Seq<u64>) -> bool {
    forall|i: int| 0 <= i < a.len() ==> b.contains(#[trigger] a[i])
}

/// The least common multiple of a list of positive numbers divides that of a
/// list of positive numbers that holds each number of the first.
pub proof fn lemma_lcm_seq_divides(a: Seq<u64>, b: Seq<u64>)
    requires
        forall|k: int| 0 <= k < a.len() ==> #[trigger] a[k] != 0,
        forall|k: int| 0 <= k < b.len() ==> #[trigger] b[k] != 0,
        all_among(a, b),
    ensures
        lcm_seq(a) > 0,
        lcm_seq(b) > 0,
        (lcm_seq(b) as int) % (lcm_seq(a) as int) == 0,
{
    assert(a.take(a.len() as int) =~= a);
    assert(b.take(b.len() as int) =~= b);
    lemma_lcm_seq_positive(b, b.len() as int);
    let d = lcm_seq(b) as int;
    assert forall|k: int| 0 <= k < a.len() implies #[trigger] a[k] != 0 && d % (a[k] as int) == 0 by {
        assert(b.contains(a[k]));
        let j = choose|j: int| 0 <= j < b.len() && b[j] == a[k];
        lemma_lcm_seq_multiple(b, b.len() as int, j);
    }
    lemma_lcm_seq_least(a, a.len() as int, d);
}

/// Two lists of positive numbers that hold the same numbers have one least
/// common multiple.
pub proof fn lemma_lcm_seq_same(a: Seq<u64>, b: Seq<u64>)
    requires
        forall|k: int| 0 <= k < a.len() ==> #[trigger] a[k] != 0,
        forall|k: int| 0 <= k < b.len() ==> #[trigger] b[k] != 0,
        all_among(a, b),
        all_among(b, a),
    ensures
        lcm_seq(a) == lcm_seq(b),
{
    lemma_lcm_seq_divides(a, b);
    lemma_lcm_seq_divides(b, a);
    lemma_divide_each_other(lcm_seq(a) as int, lcm_seq(b) as int);
}

} // verus!
