//! Decoding has one answer: a permutation has one list of cycles, so that
//! every facelet has one chromatic order, and congruences have one least
//! solution.

use crate::architectures::{
    is_chromatic_orders, is_decoded, is_generator_orders, is_orders_of, lemma_iterate_cycle, readings,
};
use crate::numbers::{is_crt_solution, lcm_seq, meets, moduli_of};
use crate::permutations::{apply_mapping, in_cycles, is_cycle_decomposition, is_cycle_of, iterate, Algorithm};
use vstd::prelude::*;

verus! {

/// Two cycles of a mapping hold the same numbers if they share one: what
/// stands in the first stands in the second.
proof fn lemma_cycle_within(mapping: Seq<usize>, first: Seq<usize>, second: Seq<usize>, j: int, k: int, i: int)
    requires
        is_cycle_of(mapping, first),
        is_cycle_of(mapping, second),
        0 <= j < first.len(),
        0 <= k < second.len(),
        first[j] == second[k],
        0 <= i < first.len(),
    ensures
        second.contains(first[i]),
{
    let len = first.len() as int;
    let times = (if i >= j {
        i - j
    } else {
        len - j + i
    }) as nat;
    lemma_iterate_cycle(mapping, first, j, times);
    lemma_iterate_cycle(mapping, second, k, times);
    if i >= j {
        vstd::arithmetic::div_mod::lemma_small_mod(i as nat, len as nat);
    } else {
        vstd::arithmetic::div_mod::lemma_fundamental_div_mod_converse(j + times, len, 1, i);
    }
    vstd::arithmetic::div_mod::lemma_mod_bound(k + times, second.len() as int);
}

/// Two cycles of a mapping that share a number are one cycle.
pub proof fn lemma_cycles_agree(mapping: Seq<usize>, first: Seq<usize>, second: Seq<usize>, j: int, k: int)
    requires
        is_cycle_of(mapping, first),
        is_cycle_of(mapping, second),
        0 <= j < first.len(),
        0 <= k < second.len(),
        first[j] == second[k],
    ensures
        first == second,
{
    lemma_cycle_within(mapping, first, second, j, k, 0);
    lemma_cycle_within(mapping, second, first, k, j, 0);
    let at_second = choose|at: int| 0 <= at < second.len() && second[at] == first[0];
    let at_first = choose|at: int| 0 <= at < first.len() && first[at] == second[0];
    assert(first[0] == second[0]) by {
        if at_second != 0 {
            assert(second[0] < second[at_second]);
        }
        if at_first != 0 {
            assert(first[0] < first[at_first]);
        }
    }
    let shorter = if first.len() <= second.len() {
        first.len() as int
    } else {
        second.len() as int
    };
    assert forall|t: int| 0 <= t < shorter implies first[t] == second[t] by {
        lemma_iterate_cycle(mapping, first, 0, t as nat);
        lemma_iterate_cycle(mapping, second, 0, t as nat);
        vstd::arithmetic::div_mod::lemma_small_mod(t as nat, first.len());
        vstd::arithmetic::div_mod::lemma_small_mod(t as nat, second.len());
    }
    if first.len() < second.len() {
        let t = first.len();
        lemma_iterate_cycle(mapping, first, 0, t);
        lemma_iterate_cycle(mapping, second, 0, t);
        vstd::arithmetic::div_mod::lemma_mod_self_0(t as int);
        vstd::arithmetic::div_mod::lemma_small_mod(t, second.len());
        assert(second[t as int] == second[0]);
    }
    if second.len() < first.len() {
        let t = second.len();
        lemma_iterate_cycle(mapping, first, 0, t);
        lemma_iterate_cycle(mapping, second, 0, t);
        vstd::arithmetic::div_mod::lemma_mod_self_0(t as int);
        vstd::arithmetic::div_mod::lemma_small_mod(t, first.len());
        assert(first[t as int] == first[0]);
    }
    assert(first =~= second);
}

/// The facelets have one list of chromatic orders under a permutation.
pub proof fn lemma_orders_unique(first: Seq<u64>, second: Seq<u64>, mapping: Seq<usize>, colors: Seq<String>)
    requires
        colors.len() <= usize::MAX,
        is_orders_of(first, mapping, colors),
        is_orders_of(second, mapping, colors),
    ensures
        first == second,
{
    let one = choose|cycles: Seq<Vec<usize>>|
        #[trigger] is_cycle_decomposition(mapping, cycles) && is_chromatic_orders(first, colors, cycles);
    let two = choose|cycles: Seq<Vec<usize>>|
        #[trigger] is_cycle_decomposition(mapping, cycles) && is_chromatic_orders(second, colors, cycles);
    assert(first.len() == colors.len() && second.len() == colors.len());
    assert forall|f: int| 0 <= f < first.len() implies first[f] == second[f] by {
        lemma_order_agrees(first, second, mapping, colors, one, two, f as usize);
    }
    assert(first =~= second);
}

proof fn lemma_moved(mapping: Seq<usize>, cycle: Seq<usize>, j: int)
    requires
        is_cycle_of(mapping, cycle),
        0 <= j < cycle.len(),
    ensures
        cycle[j] < mapping.len(),
        mapping[cycle[j] as int] != cycle[j],
{
    if j < cycle.len() - 1 {
        assert(mapping[cycle[j] as int] == cycle[j + 1]);
    } else {
        assert(mapping[cycle.last() as int] == cycle[0]);
    }
}

proof fn lemma_order_agrees(
    first: Seq<u64>,
    second: Seq<u64>,
    mapping: Seq<usize>,
    colors: Seq<String>,
    one: Seq<Vec<usize>>,
    two: Seq<Vec<usize>>,
    f: usize,
)
    requires
        is_cycle_decomposition(mapping, one),
        is_chromatic_orders(first, colors, one),
        is_cycle_decomposition(mapping, two),
        is_chromatic_orders(second, colors, two),
        first.len() == second.len(),
        f < first.len(),
    ensures
        first[f as int] == second[f as int],
{
    if in_cycles(one, f) {
        lemma_order_in_cycle(first, second, mapping, colors, one, two, f);
    } else if in_cycles(two, f) {
        let (b, k) = choose|b: int, k: int|
            0 <= b < two.len() && 0 <= k < two[b]@.len() && #[trigger] two[b]@[k] == f;
        assert(is_cycle_of(mapping, two[b]@));
        lemma_moved(mapping, two[b]@, k);
        assert(in_cycles(one, f));
    } else {
        assert(first[f as int] == 1);
        assert(second[f as int] == 1);
    }
}

proof fn lemma_order_in_cycle(
    first: Seq<u64>,
    second: Seq<u64>,
    mapping: Seq<usize>,
    colors: Seq<String>,
    one: Seq<Vec<usize>>,
    two: Seq<Vec<usize>>,
    f: usize,
)
    requires
        is_cycle_decomposition(mapping, one),
        is_chromatic_orders(first, colors, one),
        is_cycle_decomposition(mapping, two),
        is_chromatic_orders(second, colors, two),
        first.len() == second.len(),
        f < first.len(),
        in_cycles(one, f),
    ensures
        first[f as int] == second[f as int],
{
    let (a, j) = choose|a: int, j: int|
        0 <= a < one.len() && 0 <= j < one[a]@.len() && #[trigger] one[a]@[j] == f;
    assert(is_cycle_of(mapping, one[a]@));
    lemma_moved(mapping, one[a]@, j);
    assert(in_cycles(two, f));
    let (b, k) = choose|b: int, k: int|
        0 <= b < two.len() && 0 <= k < two[b]@.len() && #[trigger] two[b]@[k] == f;
    assert(is_cycle_of(mapping, two[b]@));
    lemma_cycles_agree(mapping, one[a]@, two[b]@, j, k);
    assert(first[one[a]@[j] as int] == crate::architectures::chromatic_order_of(colors, one[a]@));
    assert(second[two[b]@[k] as int] == crate::architectures::chromatic_order_of(colors, two[b]@));
}

/// Congruences have one least solution.
pub proof fn lemma_crt_unique(pairs: Seq<(u64, u64)>, first: Option<u64>, second: Option<u64>)
    requires
        is_crt_solution(pairs, first),
        is_crt_solution(pairs, second),
    ensures
        first == second,
{
    match (first, second) {
        (Some(x), Some(y)) => {
            assert(meets(pairs, x as int, pairs.len() as int));
            assert(meets(pairs, y as int, pairs.len() as int));
        },
        (Some(x), None) => {
            lemma_solved(pairs, x);
        },
        (None, Some(y)) => {
            lemma_solved(pairs, y);
        },
        (None, None) => {},
    }
}

proof fn lemma_solved(pairs: Seq<(u64, u64)>, x: u64)
    requires
        is_crt_solution(pairs, Some(x)),
    ensures
        !is_crt_solution(pairs, None),
{
    assert(meets(pairs, x as int, pairs.len() as int));
    if exists|i: int| 0 <= i < pairs.len() && (#[trigger] pairs[i]).1 == 0 {
        let i = choose|i: int| 0 <= i < pairs.len() && (#[trigger] pairs[i]).1 == 0;
        assert(pairs[i].1 != 0);
    }
}

/// A register has one value: what decoding gives is given by the permutation,
/// the facelets and the generator. (The facelets of a puzzle can be counted by
/// the machine.)
pub proof fn lemma_decode_unique(
    first: Option<u64>,
    second: Option<u64>,
    permutation: Seq<usize>,
    facelets: Seq<usize>,
    generator: &Algorithm,
)
    requires
        generator.group_view().colors_view().len() <= usize::MAX,
        exists|orders: Seq<u64>|
            #[trigger] is_generator_orders(orders, generator) && is_decoded(
                first,
                permutation,
                generator.permutation_view().mapping_view(),
                orders,
                facelets,
            ),
        exists|orders: Seq<u64>|
            #[trigger] is_generator_orders(orders, generator) && is_decoded(
                second,
                permutation,
                generator.permutation_view().mapping_view(),
                orders,
                facelets,
            ),
    ensures
        first == second,
{
    let mapping = generator.permutation_view().mapping_view();
    let colors = generator.group_view().colors_view();
    let one = choose|orders: Seq<u64>|
        #[trigger] is_generator_orders(orders, generator) && is_decoded(first, permutation, mapping, orders, facelets);
    let two = choose|orders: Seq<u64>|
        #[trigger] is_generator_orders(orders, generator) && is_decoded(second, permutation, mapping, orders, facelets);
    lemma_orders_unique(one, two, mapping, colors);
    match readings(permutation, mapping, one, facelets, facelets.len() as int) {
        Some(pairs) => {
            lemma_crt_unique(pairs, first, second);
        },
        None => {},
    }
}

} // verus!
