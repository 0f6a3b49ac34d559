//! Registers on a puzzle: chromatic orders, cycle generators and decoding.

use crate::names::{bytes_to_vec};
use crate::numbers::{chinese_remainder_theorem, is_crt_solution, lcm_iter, lcm_seq, lemma_lcm_seq_positive};
use crate::permutations::{
    apply_mapping, effect_of, find_generator, in_cycles, is_bijection, is_cycle_decomposition, is_cycle_of,
    iterate, Algorithm, Generator, Permutation, PermutationGroup,
};
use std::sync::Arc;
use vstd::prelude::*;

verus! {

/// A cycle of facelets that is part of the generator of a register.
#[derive(Debug)]
pub struct CycleGeneratorSubcycle {
    pub facelet_cycle: Vec<usize>,
    /// The order of the cycle once colors are taken into account.
    pub chromatic_order: u64,
}

/// The generator of a register of an architecture.
#[derive(Debug)]
pub struct CycleGenerator {
    pub algorithm: Algorithm,
    /// The cycles of the algorithm that no other register touches.
    pub unshared_cycles: Vec<CycleGeneratorSubcycle>,
    /// The least common multiple of the chromatic orders of those cycles.
    pub order: u64,
}

/// An assignment of registers to a puzzle.
#[derive(Debug)]
pub struct Architecture {
    pub perm_group: Arc<PermutationGroup>,
    pub registers: Vec<CycleGenerator>,
    /// The facelets that more than one register moves.
    pub shared_facelets: Vec<usize>,
    /// Sequences of moves that are known to be short for what they do to the
    /// registers, each move by its place among the moves of the group.
    pub optimized_table: Vec<Vec<usize>>,
}

impl CycleGeneratorSubcycle {
    /// The cycle of facelets.
    pub fn facelet_cycle(&self) -> (cycle: &[usize])
        ensures
            cycle@ == self.facelet_cycle@,
    {
        self.facelet_cycle.as_slice()
    }

    /// The order of the cycle after accounting for colors.
    pub fn chromatic_order(&self) -> (order: u64)
        ensures
            order == self.chromatic_order,
    {
        self.chromatic_order
    }
}

impl CycleGenerator {
    pub fn algorithm(&self) -> (algorithm: &Algorithm)
        ensures
            *algorithm == self.algorithm,
    {
        &self.algorithm
    }

    /// The cycles of the generator that no other register of the architecture
    /// touches.
    pub fn unshared_cycles(&self) -> (cycles: &[CycleGeneratorSubcycle])
        ensures
            cycles@ == self.unshared_cycles@,
    {
        self.unshared_cycles.as_slice()
    }

    /// The order of the register.
    pub fn order(&self) -> (order: u64)
        ensures
            order == self.order,
    {
        self.order
    }
}

impl Architecture {
    /// The group of the puzzle.
    pub fn group(&self) -> (group: &PermutationGroup)
        ensures
            *group == *self.perm_group,
    {
        &self.perm_group
    }

    /// The group of the puzzle, shared.
    pub fn group_arc(&self) -> (group: Arc<PermutationGroup>)
        ensures
            group == self.perm_group,
    {
        self.perm_group.clone()
    }

    /// The registers of the architecture.
    pub fn registers(&self) -> (registers: &[CycleGenerator])
        ensures
            registers@ == self.registers@,
    {
        self.registers.as_slice()
    }

    /// The facelets that more than one register moves.
    pub fn shared_facelets(&self) -> (facelets: &[usize])
        ensures
            facelets@ == self.shared_facelets@,
    {
        self.shared_facelets.as_slice()
    }
}

/// Whether shifting the word `w` by `d` places maps every letter onto an equal
/// letter, as far as both places lie in the word.
pub open spec fn has_period(w: Seq<String>, d: int) -> bool {
    forall|i: int| 0 <= i && i + d < w.len() ==> (#[trigger] w[i])@ == w[i + d]@
}

/// Whether `w` is a whole number of copies of its first `d` letters.
pub open spec fn is_repetition_of_prefix(w: Seq<String>, d: int) -> bool {
    &&& 0 < d <= w.len()
    &&& w.len() as int % d == 0
    &&& has_period(w, d)
}

/// The length of the shortest prefix that the word is a repetition of; one
/// for the empty word.
pub open spec fn shortest_repetition(w: Seq<String>) -> int {
    if w.len() == 0 {
        1
    } else {
        choose|d: int|
            is_repetition_of_prefix(w, d) && forall|e: int|
                0 < e < d ==> !#[trigger] is_repetition_of_prefix(w, e)
    }
}

/// Exec test of `has_period` for a shift that is at most the word's length.
fn check_period(colors: &[String], d: usize) -> (ok: bool)
    requires
        0 < d <= colors@.len(),
    ensures
        ok == has_period(colors@, d as int),
{
    let n: usize = colors.len();
    let mut i: usize = 0;
    while i < n - d
        invariant
            0 < d <= n,
            n == colors@.len(),
            i <= n - d,
            forall|j: int| 0 <= j < i ==> (#[trigger] colors@[j])@ == colors@[j + d]@,
        decreases n - d - i,
    {
        if colors[i] != colors[i + d] {
            return false;
        }
        i += 1;
    }
    true
}

/// The length of the shortest prefix that the word is a repetition of.
///
/// `AAAA` gives 1, `ABAB` gives 2, `ABCA` gives 4 and `ABABA` gives 5: a prefix
/// only counts when the word is a whole number of copies of it. Every string is
/// one letter. The empty word gives 1.
///
/// This is the chromatic order of a cycle whose facelets show these colors.
pub fn length_of_substring_that_this_string_is_n_repeated_copies_of(colors: &[String]) -> (len:
    usize)
    ensures
        colors@.len() == 0 ==> len == 1,
        colors@.len() > 0 ==> is_repetition_of_prefix(colors@, len as int),
        forall|d: int| 0 < d < len ==> !#[trigger] is_repetition_of_prefix(colors@, d),
        len == shortest_repetition(colors@),
        1 <= len,
        colors@.len() > 0 ==> len <= colors@.len(),
{
    let n: usize = colors.len();
    if n == 0 {
        return 1;
    }
    let mut d: usize = 1;
    while d < n
        invariant
            1 <= d <= n,
            n == colors@.len(),
            forall|e: int| 0 < e < d ==> !#[trigger] is_repetition_of_prefix(colors@, e),
        decreases n - d,
    {
        if n % d == 0 && check_period(colors, d) {
            proof {
                lemma_shortest_repetition(colors@, d as int);
            }
            return d;
        }
        d += 1;
    }
    proof {
        assert(has_period(colors@, n as int));
        lemma_shortest_repetition(colors@, d as int);
    }
    d
}

/// The shortest repetition is the one length that repeats while none below it
/// does.
pub proof fn lemma_shortest_repetition(w: Seq<String>, d: int)
    requires
        is_repetition_of_prefix(w, d),
        forall|e: int| 0 < e < d ==> !#[trigger] is_repetition_of_prefix(w, e),
    ensures
        shortest_repetition(w) == d,
{
    let chosen = shortest_repetition(w);
    assert(is_repetition_of_prefix(w, chosen) && forall|e: int|
        0 < e < chosen ==> !#[trigger] is_repetition_of_prefix(w, e));
    if chosen < d {
        assert(!is_repetition_of_prefix(w, chosen));
    }
    if d < chosen {
        assert(!is_repetition_of_prefix(w, d));
    }
}

/// The colors that the facelets of a cycle show, in the order of the cycle.
pub open spec fn color_word(colors: Seq<String>, cycle: Seq<usize>) -> Seq<String> {
    Seq::new(cycle.len(), |j: int| colors[cycle[j] as int])
}

/// The chromatic order of a cycle of facelets: the least number of steps
/// along the cycle after which every facelet meets its own color.
pub open spec fn chromatic_order_of(colors: Seq<String>, cycle: Seq<usize>) -> int {
    shortest_repetition(color_word(colors, cycle))
}

/// Whether `orders` holds for every facelet the chromatic order of its cycle
/// among `cycles`, and one for a facelet of no cycle.
pub open spec fn is_chromatic_orders(orders: Seq<u64>, colors: Seq<String>, cycles: Seq<Vec<usize>>) -> bool {
    &&& orders.len() == colors.len()
    &&& forall|a: int, j: int|
        0 <= a < cycles.len() && 0 <= j < cycles[a]@.len() ==> (#[trigger] cycles[a]@[j]) < orders.len()
            && orders[cycles[a]@[j] as int] == chromatic_order_of(colors, cycles[a]@)
    &&& forall|f: usize| f < orders.len() && !in_cycles(cycles, f) ==> #[trigger] orders[f as int] == 1
}

/// The chromatic order of a cycle of facelets.
pub fn cycle_chromatic_order(colors: &Vec<String>, cycle: &Vec<usize>) -> (order: u64)
    requires
        forall|j: int| 0 <= j < cycle@.len() ==> (#[trigger] cycle@[j]) < colors@.len(),
    ensures
        order == chromatic_order_of(colors@, cycle@),
        order >= 1,
{
    let mut word: Vec<String> = Vec::new();
    let mut j: usize = 0;
    while j < cycle.len()
        invariant
            j <= cycle@.len(),
            forall|k: int| 0 <= k < cycle@.len() ==> (#[trigger] cycle@[k]) < colors@.len(),
            word@ == color_word(colors@, cycle@).take(j as int),
        decreases cycle@.len() - j,
    {
        word.push(colors[cycle[j]].clone());
        assert(word@ =~= color_word(colors@, cycle@).take(j + 1));
        j += 1;
    }
    assert(word@ =~= color_word(colors@, cycle@));
    length_of_substring_that_this_string_is_n_repeated_copies_of(word.as_slice()) as u64
}

/// The chromatic order of every facelet when the algorithm is seen as the
/// generator of a register: for a facelet that the algorithm moves, the
/// chromatic order of its cycle; one for a facelet that it leaves in place.
pub fn chromatic_orders_by_facelets(alg: &Algorithm) -> (orders: Vec<u64>)
    ensures
        exists|cycles: Seq<Vec<usize>>|
            #[trigger] is_cycle_decomposition(alg.permutation_view().mapping_view(), cycles)
                && is_chromatic_orders(orders@, alg.group_view().colors_view(), cycles),
        forall|f: int| 0 <= f < orders@.len() ==> #[trigger] orders@[f] >= 1,
{
    let group = alg.group();
    proof {
        use_type_invariant(alg);
        use_type_invariant(group);
    }
    let colors = group.facelet_colors();
    let n = colors.len();
    let mut out: Vec<u64> = Vec::new();
    let mut f: usize = 0;
    while f < n
        invariant
            f <= n,
            out@.len() == f,
            forall|k: int| 0 <= k < f ==> #[trigger] out@[k] == 1,
        decreases n - f,
    {
        out.push(1);
        f += 1;
    }
    let cycles = alg.permutation().cycles();
    let ghost mapping = alg.permutation_view().mapping_view();
    let mut a: usize = 0;
    while a < cycles.len()
        invariant
            a <= cycles@.len(),
            n == colors@.len(),
            out@.len() == n,
            mapping.len() <= n,
            is_cycle_decomposition(mapping, cycles@),
            forall|b: int, j: int|
                0 <= b < a && 0 <= j < cycles@[b]@.len() ==> out@[(#[trigger] cycles@[b]@[j]) as int]
                    == chromatic_order_of(colors@, cycles@[b]@),
            forall|x: usize|
                x < n && !(exists|b: int, j: int|
                    0 <= b < a && 0 <= j < cycles@[b]@.len() && #[trigger] cycles@[b]@[j] == x)
                    ==> #[trigger] out@[x as int] == 1,
            forall|x: int| 0 <= x < n ==> #[trigger] out@[x] >= 1,
        decreases cycles@.len() - a,
    {
        let cycle = &cycles[a];
        assert(is_cycle_of(mapping, cycles@[a as int]@));
        let order = cycle_chromatic_order(colors, cycle);
        let mut j: usize = 0;
        let ghost before = out@;
        while j < cycle.len()
            invariant
                j <= cycle@.len(),
                a < cycles@.len(),
                cycle@ == cycles@[a as int]@,
                out@.len() == n,
                mapping.len() <= n,
                is_cycle_of(mapping, cycle@),
                order >= 1,
                forall|k: int| 0 <= k < j ==> out@[(#[trigger] cycle@[k]) as int] == order,
                forall|x: int|
                    0 <= x < n && !(exists|k: int| 0 <= k < j && cycle@[k] == x) ==> #[trigger] out@[x]
                        == before[x],
                forall|x: int| 0 <= x < n ==> #[trigger] out@[x] >= 1,
                forall|x: int| 0 <= x < n ==> #[trigger] before[x] >= 1,
            decreases cycle@.len() - j,
        {
            let ghost marked = out@;
            out[cycle[j]] = order;
            proof {
                assert forall|k: int| 0 <= k < j + 1 implies out@[(#[trigger] cycle@[k]) as int] == order by {
                    if k < j {
                        assert(marked[cycle@[k] as int] == order);
                    }
                }
                assert forall|x: int|
                    0 <= x < n && !(exists|k: int| 0 <= k < j + 1 && cycle@[k] == x) implies #[trigger] out@[x]
                    == before[x] by {
                    assert(x != cycle@[j as int]);
                    if exists|k: int| 0 <= k < j && cycle@[k] == x {
                        let k = choose|k: int| 0 <= k < j && cycle@[k] == x;
                        assert(0 <= k < j + 1 && cycle@[k] == x);
                    }
                }
            }
            j += 1;
        }
        proof {
            assert forall|b: int, k: int|
                0 <= b < a + 1 && 0 <= k < cycles@[b]@.len() implies out@[(
            #[trigger] cycles@[b]@[k]) as int] == chromatic_order_of(colors@, cycles@[b]@) by {
                if b < a {
                    let x = cycles@[b]@[k];
                    assert(is_cycle_of(mapping, cycles@[b]@));
                    if exists|m: int| 0 <= m < cycle@.len() && cycle@[m] == x {
                        let m = choose|m: int| 0 <= m < cycle@.len() && cycle@[m] == x;
                        assert(cycles@[a as int]@[m] == cycles@[b]@[k]);
                    }
                    assert(out@[x as int] == before[x as int]);
                }
            }
            assert forall|x: usize|
                x < n && !(exists|b: int, k: int|
                    0 <= b < a + 1 && 0 <= k < cycles@[b]@.len() && #[trigger] cycles@[b]@[k] == x)
                    implies #[trigger] out@[x as int] == 1 by {
                if exists|k: int| 0 <= k < cycle@.len() && cycle@[k] == x {
                    let k = choose|k: int| 0 <= k < cycle@.len() && cycle@[k] == x;
                    assert(cycles@[a as int]@[k] == x);
                }
                if exists|b: int, k: int|
                    0 <= b < a && 0 <= k < cycles@[b]@.len() && #[trigger] cycles@[b]@[k] == x {
                    let (b, k) = choose|b: int, k: int|
                        0 <= b < a && 0 <= k < cycles@[b]@.len() && #[trigger] cycles@[b]@[k] == x;
                    assert(0 <= b < a + 1 && cycles@[b]@[k] == x);
                }
                assert(out@[x as int] == before[x as int]);
            }
        }
        a += 1;
    }
    proof {
        assert forall|b: int, j: int| 0 <= b < cycles@.len() && 0 <= j < cycles@[b]@.len() implies (
        #[trigger] cycles@[b]@[j]) < out@.len() by {
            assert(is_cycle_of(mapping, cycles@[b]@));
        }
        assert forall|x: usize| x < out@.len() && !in_cycles(cycles@, x) implies #[trigger] out@[x as int]
            == 1 by {
            if exists|b: int, j: int|
                0 <= b < cycles@.len() && 0 <= j < cycles@[b]@.len() && #[trigger] cycles@[b]@[j] == x {
                assert(in_cycles(cycles@, x));
            }
        }
        assert(is_chromatic_orders(out@, colors@, cycles@));
    }
    out
}

/// The chromatic orders of cycles, in their order.
pub open spec fn subcycle_orders(cycles: Seq<CycleGeneratorSubcycle>) -> Seq<u64> {
    Seq::new(cycles.len(), |i: int| cycles[i].chromatic_order)
}

impl CycleGenerator {
    /// The order of the register is the least common multiple of the chromatic
    /// orders of its cycles.
    pub open spec fn wf(&self) -> bool {
        self.order == lcm_seq(subcycle_orders(self.unshared_cycles@))
    }

    /// The generator of a register with the given algorithm and cycles. There
    /// is none if the order of the register does not fit.
    pub fn new(algorithm: Algorithm, unshared_cycles: Vec<CycleGeneratorSubcycle>) -> (generator: Option<
        CycleGenerator,
    >)
        ensures
            match generator {
                Some(generator) => generator.wf() && generator.algorithm == algorithm
                    && generator.unshared_cycles == unshared_cycles,
                None => lcm_seq(subcycle_orders(unshared_cycles@)) > u64::MAX,
            },
    {
        let mut orders: Vec<u64> = Vec::new();
        let mut i: usize = 0;
        while i < unshared_cycles.len()
            invariant
                i <= unshared_cycles@.len(),
                orders@ == subcycle_orders(unshared_cycles@).take(i as int),
            decreases unshared_cycles@.len() - i,
        {
            orders.push(unshared_cycles[i].chromatic_order);
            assert(orders@ =~= subcycle_orders(unshared_cycles@).take(i + 1));
            i += 1;
        }
        assert(orders@ =~= subcycle_orders(unshared_cycles@));
        match lcm_iter(orders.as_slice()) {
            Some(order) => Some(CycleGenerator { algorithm, unshared_cycles, order }),
            None => None,
        }
    }
}

/// Why no architecture can be made of a list of algorithms.
#[derive(Debug, PartialEq, Eq)]
pub enum ArchitectureError {
    /// A move of an algorithm is no move of the puzzle.
    UnknownMove(Vec<u8>),
    /// Every cycle of a register is touched by another register.
    NoUnsharedCycles { register: usize },
    /// The order of a register does not fit.
    OrderOverflow { register: usize },
}

/// Whether the mapping moves the facelet.
pub open spec fn moves_facelet(mapping: Seq<usize>, f: int) -> bool {
    0 <= f < mapping.len() && mapping[f] != f
}

/// How many of the first `upto` mappings move the facelet.
pub open spec fn touches(mappings: Seq<Seq<usize>>, f: int, upto: int) -> nat
    decreases upto,
{
    if upto <= 0 {
        0
    } else {
        touches(mappings, f, upto - 1) + if moves_facelet(mappings[upto - 1], f) {
            1nat
        } else {
            0nat
        }
    }
}

/// Whether more than one of the mappings moves the facelet.
pub open spec fn is_shared(mappings: Seq<Seq<usize>>, f: int) -> bool {
    touches(mappings, f, mappings.len() as int) >= 2
}

/// Whether none of the first `upto` facelets of a cycle is shared.
pub open spec fn cycle_unshared(mappings: Seq<Seq<usize>>, cycle: Seq<usize>, upto: int) -> bool {
    forall|k: int| 0 <= k < upto && k < cycle.len() ==> !is_shared(mappings, #[trigger] cycle[k] as int)
}

/// Those of the first `upto` cycles that hold no shared facelet, in their
/// order.
pub open spec fn unshared_of(cycles: Seq<Vec<usize>>, mappings: Seq<Seq<usize>>, upto: int) -> Seq<
    Seq<usize>,
>
    decreases upto,
{
    if upto <= 0 {
        Seq::empty()
    } else {
        let before = unshared_of(cycles, mappings, upto - 1);
        if cycle_unshared(mappings, cycles[upto - 1]@, cycles[upto - 1]@.len() as int) {
            before.push(cycles[upto - 1]@)
        } else {
            before
        }
    }
}

/// The shared facelets below `upto`, in rising order.
pub open spec fn shared_below(mappings: Seq<Seq<usize>>, upto: int) -> Seq<usize>
    decreases upto,
{
    if upto <= 0 {
        Seq::empty()
    } else {
        let before = shared_below(mappings, upto - 1);
        if is_shared(mappings, upto - 1) {
            before.push((upto - 1) as usize)
        } else {
            before
        }
    }
}

/// The effects of the algorithms of registers.
pub open spec fn register_mappings(registers: Seq<CycleGenerator>) -> Seq<Seq<usize>> {
    Seq::new(registers.len(), |r: int| registers[r].algorithm.permutation_view().mapping_view())
}

/// The effects of algorithms.
pub open spec fn algorithm_mappings(algorithms: Seq<Algorithm>) -> Seq<Seq<usize>> {
    Seq::new(algorithms.len(), |r: int| algorithms[r].permutation_view().mapping_view())
}

/// Whether the cycles of a register are the unshared cycles of its algorithm
/// among the given cycles, each with its chromatic order.
pub open spec fn are_unshared_cycles(
    subcycles: Seq<CycleGeneratorSubcycle>,
    cycles: Seq<Vec<usize>>,
    mappings: Seq<Seq<usize>>,
    colors: Seq<String>,
) -> bool {
    let unshared = unshared_of(cycles, mappings, cycles.len() as int);
    &&& subcycles.len() == unshared.len()
    &&& forall|i: int|
        0 <= i < subcycles.len() ==> (#[trigger] subcycles[i]).facelet_cycle@ == unshared[i]
            && subcycles[i].chromatic_order == chromatic_order_of(colors, unshared[i])
}

proof fn lemma_algorithm_acts(algorithm: Algorithm, names: Seq<Vec<u8>>)
    requires
        algorithm.wf(),
        algorithm.moves_view().len() == names.len(),
        forall|i: int|
            0 <= i < names.len() ==> find_generator(
                algorithm.group_view().generators_view(),
                (#[trigger] names[i])@,
                0,
            ) == Some(algorithm.moves_view()[i] as int),
    ensures
        acts_as(algorithm.permutation_view().mapping_view(), algorithm.group_view().generators_view(), names),
{
    let moves = algorithm.moves_view();
    let generators = algorithm.group_view().generators_view();
    let mapping = algorithm.permutation_view().mapping_view();
    assert forall|x: int| #[trigger]
        apply_mapping(mapping, x) == apply_mapping(effect_of(generators, moves, moves.len() as int), x) by {
        assert(algorithm.permutation_view().apply(x) == apply_mapping(algorithm.effect(), x));
    }
}

fn count_touches(algorithms: &Vec<Algorithm>, f: usize) -> (count: usize)
    ensures
        count == touches(algorithm_mappings(algorithms@), f as int, algorithms@.len() as int),
{
    let mut count: usize = 0;
    let mut r: usize = 0;
    let ghost mappings = algorithm_mappings(algorithms@);
    while r < algorithms.len()
        invariant
            r <= algorithms@.len(),
            mappings == algorithm_mappings(algorithms@),
            count == touches(mappings, f as int, r as int),
            count <= r,
        decreases algorithms@.len() - r,
    {
        let permutation = algorithms[r].permutation();
        if f < permutation.len() && permutation.get(f) != f {
            count += 1;
        }
        r += 1;
    }
    count
}

fn is_cycle_unshared(algorithms: &Vec<Algorithm>, cycle: &Vec<usize>) -> (unshared: bool)
    ensures
        unshared == cycle_unshared(algorithm_mappings(algorithms@), cycle@, cycle@.len() as int),
{
    let mut k: usize = 0;
    while k < cycle.len()
        invariant
            k <= cycle@.len(),
            cycle_unshared(algorithm_mappings(algorithms@), cycle@, k as int),
        decreases cycle@.len() - k,
    {
        if count_touches(algorithms, cycle[k]) >= 2 {
            return false;
        }
        k += 1;
    }
    true
}

/// Whether every move of every algorithm is a move of the puzzle.
pub open spec fn all_moves_known(generators: Seq<Generator>, algorithms: Seq<Vec<Vec<u8>>>) -> bool {
    forall|r: int, i: int|
        0 <= r < algorithms.len() && 0 <= i < algorithms[r]@.len() ==> find_generator(
            generators,
            (#[trigger] algorithms[r]@[i])@,
            0,
        ) is Some
}

/// Whether a mapping does to the facelets what the moves of the given names
/// do, one after the other.
pub open spec fn acts_as(mapping: Seq<usize>, generators: Seq<Generator>, names: Seq<Vec<u8>>) -> bool {
    exists|moves: Seq<usize>|
        {
            &&& moves.len() == names.len()
            &&& forall|i: int|
                0 <= i < names.len() ==> find_generator(generators, (#[trigger] names[i])@, 0) == Some(
                    moves[i] as int,
                )
            &&& forall|x: int| #[trigger]
                apply_mapping(mapping, x) == apply_mapping(effect_of(generators, moves, moves.len() as int), x)
        }
}

/// Whether the mappings do what the algorithms do, each each.
pub open spec fn act_as(mappings: Seq<Seq<usize>>, generators: Seq<Generator>, algorithms: Seq<Vec<Vec<u8>>>) -> bool {
    &&& mappings.len() == algorithms.len()
    &&& forall|r: int| 0 <= r < mappings.len() ==> acts_as(#[trigger] mappings[r], generators, algorithms[r]@)
}

/// How it stands with a register.
#[derive(Clone, Copy, Debug, PartialEq, Eq, Structural, Hash)]
pub enum RegisterOutcome {
    /// The register has cycles of its own, and an order.
    Fine,
    /// Every cycle of the register holds a facelet that another register
    /// moves.
    NoUnsharedCycles,
    /// The order of the register does not fit.
    OrderOverflow,
}

/// Whether it stands so with the register `r` among registers of the given
/// effects.
pub open spec fn is_register_outcome(
    outcome: RegisterOutcome,
    mappings: Seq<Seq<usize>>,
    colors: Seq<String>,
    r: int,
) -> bool {
    exists|cycles: Seq<Vec<usize>>, subcycles: Seq<CycleGeneratorSubcycle>|
        {
            &&& #[trigger] is_cycle_decomposition(mappings[r], cycles)
            &&& #[trigger] are_unshared_cycles(subcycles, cycles, mappings, colors)
            &&& outcome == if subcycles.len() == 0 {
                RegisterOutcome::NoUnsharedCycles
            } else if lcm_seq(subcycle_orders(subcycles)) > u64::MAX {
                RegisterOutcome::OrderOverflow
            } else {
                RegisterOutcome::Fine
            }
        }
}

/// Whether the register `at` is the first with which it does not stand well,
/// and it stands with it as `outcome` says.
pub open spec fn fails_at(
    outcome: RegisterOutcome,
    at: int,
    colors: Seq<String>,
    generators: Seq<Generator>,
    algorithms: Seq<Vec<Vec<u8>>>,
) -> bool {
    exists|mappings: Seq<Seq<usize>>|
        {
            &&& #[trigger] act_as(mappings, generators, algorithms)
            &&& 0 <= at < algorithms.len()
            &&& is_register_outcome(outcome, mappings, colors, at)
            &&& forall|k: int| 0 <= k < at ==> is_register_outcome(RegisterOutcome::Fine, mappings, colors, k)
        }
}

impl Architecture {
    /// What holds of an architecture that was made of algorithms: every
    /// register has the order of its cycles, which is not zero, and an
    /// algorithm of the group of the architecture.
    pub open spec fn wf(&self) -> bool {
        forall|r: int|
            0 <= r < self.registers@.len() ==> {
                let register = #[trigger] self.registers@[r];
                register.wf() && register.order != 0 && register.algorithm.group_view() == self.perm_group
            }
    }

    /// The architecture whose registers are generated by the given algorithms,
    /// each a list of names of moves.
    ///
    /// A facelet that more than one algorithm moves is shared. The cycles of a
    /// register are the cycles of its algorithm that hold no shared facelet,
    /// and its order is the least common multiple of their chromatic orders.
    pub fn new(perm_group: Arc<PermutationGroup>, algorithms: &Vec<Vec<Vec<u8>>>) -> (architecture: Result<
        Architecture,
        ArchitectureError,
    >)
        ensures
            match architecture {
                Ok(architecture) => {
                    let mappings = register_mappings(architecture.registers@);
                    &&& architecture.wf()
                    &&& architecture.perm_group == perm_group
                    &&& architecture.optimized_table@.len() == 0
                    &&& architecture.registers@.len() == algorithms@.len()
                    &&& architecture.shared_facelets@ == shared_below(
                        mappings,
                        perm_group.colors_view().len() as int,
                    )
                    &&& forall|r: int|
                        0 <= r < algorithms@.len() ==> {
                            let register = #[trigger] architecture.registers@[r];
                            &&& register.wf()
                            &&& register.algorithm.group_view() == perm_group
                            &&& register.algorithm.moves_view().len() == algorithms@[r]@.len()
                            &&& forall|i: int|
                                0 <= i < algorithms@[r]@.len() ==> find_generator(
                                    perm_group.generators_view(),
                                    (#[trigger] algorithms@[r]@[i])@,
                                    0,
                                ) == Some(register.algorithm.moves_view()[i] as int)
                            &&& register.unshared_cycles@.len() > 0
                            &&& exists|cycles: Seq<Vec<usize>>|
                                #[trigger] is_cycle_decomposition(mappings[r], cycles)
                                    && are_unshared_cycles(
                                    register.unshared_cycles@,
                                    cycles,
                                    mappings,
                                    perm_group.colors_view(),
                                )
                        }
                },
                Err(ArchitectureError::UnknownMove(name)) => exists|r: int, i: int|
                    0 <= r < algorithms@.len() && 0 <= i < algorithms@[r]@.len() && name@
                        == (#[trigger] algorithms@[r]@[i])@ && find_generator(
                        perm_group.generators_view(),
                        name@,
                        0,
                    ) is None,
                Err(ArchitectureError::NoUnsharedCycles { register }) => fails_at(
                    RegisterOutcome::NoUnsharedCycles,
                    register as int,
                    perm_group.colors_view(),
                    perm_group.generators_view(),
                    algorithms@,
                ),
                Err(ArchitectureError::OrderOverflow { register }) => fails_at(
                    RegisterOutcome::OrderOverflow,
                    register as int,
                    perm_group.colors_view(),
                    perm_group.generators_view(),
                    algorithms@,
                ),
            },
            all_moves_known(perm_group.generators_view(), algorithms@) <==> !(architecture matches Err(
                ArchitectureError::UnknownMove(_),
            )),
            architecture is Ok ==> act_as(
                register_mappings(architecture->Ok_0.registers@),
                perm_group.generators_view(),
                algorithms@,
            ) && forall|r: int|
                0 <= r < algorithms@.len() ==> #[trigger] is_register_outcome(
                    RegisterOutcome::Fine,
                    register_mappings(architecture->Ok_0.registers@),
                    perm_group.colors_view(),
                    r,
                ),
    {
        let mut built: Vec<Algorithm> = Vec::new();
        let mut r: usize = 0;
        while r < algorithms.len()
            invariant
                r <= algorithms@.len(),
                built@.len() == r,
                forall|k: int|
                    0 <= k < r ==> {
                        let algorithm = #[trigger] built@[k];
                        &&& algorithm.wf()
                        &&& algorithm.group_view() == perm_group
                        &&& algorithm.moves_view().len() == algorithms@[k]@.len()
                        &&& forall|i: int|
                            0 <= i < algorithms@[k]@.len() ==> find_generator(
                                perm_group.generators_view(),
                                (#[trigger] algorithms@[k]@[i])@,
                                0,
                            ) == Some(algorithm.moves_view()[i] as int)
                    },
            decreases algorithms@.len() - r,
        {
            let mut names: Vec<Vec<u8>> = Vec::new();
            let mut i: usize = 0;
            while i < algorithms[r].len()
                invariant
                    r < algorithms@.len(),
                    i <= algorithms@[r as int]@.len(),
                    names@.len() == i,
                    forall|k: int| 0 <= k < i ==> (#[trigger] names@[k])@ == algorithms@[r as int]@[k]@,
                decreases algorithms@[r as int]@.len() - i,
            {
                names.push(bytes_to_vec(algorithms[r][i].as_slice()));
                i += 1;
            }
            let ghost given = names@;
            let ghost before = built@;
            match Algorithm::new_from_move_seq(perm_group.clone(), names) {
                Ok(algorithm) => {
                    proof {
                        use_type_invariant(&algorithm);
                        assert forall|i: int| 0 <= i < algorithms@[r as int]@.len() implies find_generator(
                            perm_group.generators_view(),
                            (#[trigger] algorithms@[r as int]@[i])@,
                            0,
                        ) == Some(algorithm.moves_view()[i] as int) by {
                            assert(given[i]@ == algorithms@[r as int]@[i]@);
                        }
                    }
                    built.push(algorithm);
                    proof {
                        assert forall|k: int| 0 <= k < r implies built@[k] == before[k] by {}
                    }
                },
                Err(name) => {
                    proof {
                        let at = choose|at: int|
                            0 <= at < names@.len() && name@ == (#[trigger] names@[at])@ && find_generator(
                                perm_group.generators_view(),
                                names@[at]@,
                                0,
                            ) is None;
                        assert(name@ == algorithms@[r as int]@[at]@);
                    }
                    return Err(ArchitectureError::UnknownMove(name));
                },
            }
            r += 1;
        }
        let ghost mappings = algorithm_mappings(built@);
        proof {
            let generators = perm_group.generators_view();
            assert forall|r: int| 0 <= r < mappings.len() implies acts_as(
                #[trigger] mappings[r],
                generators,
                algorithms@[r]@,
            ) by {
                let algorithm = built@[r];
                lemma_algorithm_acts(algorithm, algorithms@[r]@);
            }
            assert(act_as(mappings, generators, algorithms@));
            assert(all_moves_known(generators, algorithms@)) by {
                assert forall|r: int, i: int|
                    0 <= r < algorithms@.len() && 0 <= i < algorithms@[r]@.len() implies find_generator(
                    generators,
                    (#[trigger] algorithms@[r]@[i])@,
                    0,
                ) is Some by {
                    let algorithm = built@[r];
                    assert(find_generator(generators, algorithms@[r]@[i]@, 0) == Some(
                        algorithm.moves_view()[i] as int,
                    ));
                }
            }
        }
        let count = perm_group.facelet_count();
        let mut shared_facelets: Vec<usize> = Vec::new();
        let mut f: usize = 0;
        while f < count
            invariant
                f <= count,
                mappings == algorithm_mappings(built@),
                shared_facelets@ == shared_below(mappings, f as int),
            decreases count - f,
        {
            if count_touches(&built, f) >= 2 {
                shared_facelets.push(f);
            }
            f += 1;
        }
        let colors = perm_group.facelet_colors();
        let mut registers: Vec<CycleGenerator> = Vec::new();
        let mut g: usize = 0;
        while g < built.len()
            invariant
                g <= built@.len(),
                built@.len() == algorithms@.len(),
                mappings == algorithm_mappings(built@),
                colors@ == perm_group.colors_view(),
                registers@.len() == g,
                forall|k: int| 0 <= k < built@.len() ==> (#[trigger] built@[k]).group_view() == perm_group,
                act_as(mappings, perm_group.generators_view(), algorithms@),
                all_moves_known(perm_group.generators_view(), algorithms@),
                forall|k: int|
                    0 <= k < g ==> #[trigger] is_register_outcome(RegisterOutcome::Fine, mappings, colors@, k),
                forall|k: int|
                    0 <= k < g ==> {
                        let register = #[trigger] registers@[k];
                        &&& register.wf()
                        &&& register.order != 0
                        &&& register.algorithm.group_view() == built@[k].group_view()
                        &&& register.algorithm.moves_view() == built@[k].moves_view()
                        &&& register.algorithm.permutation_view().mapping_view()
                            == built@[k].permutation_view().mapping_view()
                        &&& register.unshared_cycles@.len() > 0
                        &&& exists|cycles: Seq<Vec<usize>>|
                            #[trigger] is_cycle_decomposition(mappings[k], cycles) && are_unshared_cycles(
                                register.unshared_cycles@,
                                cycles,
                                mappings,
                                colors@,
                            )
                    },
            decreases built@.len() - g,
        {
            let algorithm = built[g].clone();
            let shared: &PermutationGroup = &perm_group;
            proof {
                use_type_invariant(&algorithm);
                use_type_invariant(shared);
            }
            let cycles = algorithm.permutation().cycles();
            let mut unshared: Vec<CycleGeneratorSubcycle> = Vec::new();
            let mut a: usize = 0;
            while a < cycles.len()
                invariant
                    a <= cycles@.len(),
                    mappings == algorithm_mappings(built@),
                    is_cycle_decomposition(algorithm.permutation_view().mapping_view(), cycles@),
                    algorithm.permutation_view().mapping_view().len() <= colors@.len(),
                    unshared@.len() == unshared_of(cycles@, mappings, a as int).len(),
                    forall|i: int|
                        0 <= i < unshared@.len() ==> (#[trigger] unshared@[i]).facelet_cycle@
                            == unshared_of(cycles@, mappings, a as int)[i] && unshared@[i].chromatic_order
                            == chromatic_order_of(colors@, unshared_of(cycles@, mappings, a as int)[i]),
                    forall|i: int| 0 <= i < unshared@.len() ==> (#[trigger] unshared@[i]).chromatic_order >= 1,
                decreases cycles@.len() - a,
            {
                let cycle = &cycles[a];
                if is_cycle_unshared(&built, cycle) {
                    assert(is_cycle_of(algorithm.permutation_view().mapping_view(), cycles@[a as int]@));
                    let chromatic_order = cycle_chromatic_order(colors, cycle);
                    let mut facelet_cycle: Vec<usize> = Vec::new();
                    let mut j: usize = 0;
                    while j < cycle.len()
                        invariant
                            j <= cycle@.len(),
                            facelet_cycle@ == cycle@.take(j as int),
                        decreases cycle@.len() - j,
                    {
                        facelet_cycle.push(cycle[j]);
                        assert(facelet_cycle@ =~= cycle@.take(j + 1));
                        j += 1;
                    }
                    assert(cycle@.take(cycle@.len() as int) =~= cycle@);
                    unshared.push(CycleGeneratorSubcycle { facelet_cycle, chromatic_order });
                }
                a += 1;
            }
            proof {
                assert(mappings[g as int] == built@[g as int].permutation_view().mapping_view());
                assert(is_cycle_decomposition(mappings[g as int], cycles@));
                assert(are_unshared_cycles(unshared@, cycles@, mappings, colors@));
            }
            if unshared.len() == 0 {
                proof {
                    assert(is_register_outcome(RegisterOutcome::NoUnsharedCycles, mappings, colors@, g as int));
                    assert(fails_at(
                        RegisterOutcome::NoUnsharedCycles,
                        g as int,
                        colors@,
                        perm_group.generators_view(),
                        algorithms@,
                    ));
                }
                return Err(ArchitectureError::NoUnsharedCycles { register: g });
            }
            let ghost subcycles = unshared@;
            let generator = match CycleGenerator::new(algorithm, unshared) {
                Some(generator) => generator,
                None => {
                    proof {
                        assert(is_register_outcome(RegisterOutcome::OrderOverflow, mappings, colors@, g as int));
                        assert(fails_at(
                            RegisterOutcome::OrderOverflow,
                            g as int,
                            colors@,
                            perm_group.generators_view(),
                            algorithms@,
                        ));
                    }
                    return Err(ArchitectureError::OrderOverflow { register: g });
                },
            };
            proof {
                assert(generator.unshared_cycles@ == subcycles);
                assert(lcm_seq(subcycle_orders(subcycles)) == generator.order);
                assert(is_register_outcome(RegisterOutcome::Fine, mappings, colors@, g as int));
            }
            proof {
                let values = subcycle_orders(subcycles);
                assert(values.take(values.len() as int) =~= values);
                lemma_lcm_seq_positive(values, values.len() as int);
                assert(mappings[g as int] == built@[g as int].permutation_view().mapping_view());
                assert(is_cycle_decomposition(mappings[g as int], cycles@));
                assert(are_unshared_cycles(generator.unshared_cycles@, cycles@, mappings, colors@));
            }
            let ghost before = registers@;
            let ghost added = generator;
            registers.push(generator);
            proof {
                assert forall|k: int| 0 <= k < g + 1 implies {
                    let register = #[trigger] registers@[k];
                    &&& register.wf()
                    &&& register.order != 0
                    &&& register.algorithm.group_view() == built@[k].group_view()
                    &&& register.algorithm.moves_view() == built@[k].moves_view()
                    &&& register.algorithm.permutation_view().mapping_view()
                        == built@[k].permutation_view().mapping_view()
                    &&& register.unshared_cycles@.len() > 0
                    &&& exists|cycles: Seq<Vec<usize>>|
                        #[trigger] is_cycle_decomposition(mappings[k], cycles) && are_unshared_cycles(
                            register.unshared_cycles@,
                            cycles,
                            mappings,
                            colors@,
                        )
                } by {
                    if k < g {
                        assert(registers@[k] == before[k]);
                    } else {
                        assert(registers@[k] == added);
                        assert(is_cycle_decomposition(mappings[k], cycles@));
                    }
                }
            }
            g += 1;
        }
        proof {
            assert(register_mappings(registers@) =~= mappings);
        }
        Ok(Architecture { perm_group, registers, shared_facelets, optimized_table: Vec::new() })
    }
}

/// Whether `steps` is the least number of applications of the mapping that
/// take `from` to `to`.
pub open spec fn is_steps(mapping: Seq<usize>, from: int, to: int, steps: nat) -> bool {
    &&& iterate(mapping, steps, from) == to
    &&& forall|fewer: nat| fewer < steps ==> #[trigger] iterate(mapping, fewer, from) != to
}

/// Whether some number of applications of the mapping takes `from` to `to`.
pub open spec fn is_reachable(mapping: Seq<usize>, from: int, to: int) -> bool {
    exists|steps: nat| #[trigger] iterate(mapping, steps, from) == to
}

/// The least number of applications of the mapping that take `from` to `to`.
pub open spec fn least_steps(mapping: Seq<usize>, from: int, to: int) -> nat {
    choose|steps: nat| is_steps(mapping, from, to, steps)
}

/// What the first `upto` facelets say of the register: for each facelet, how
/// far along the generator's cycle the permutation has taken it, modulo the
/// facelet's chromatic order, with that order. They say nothing if a facelet
/// is none of the puzzle, or if the generator never takes a facelet to where
/// the permutation has taken it.
pub open spec fn readings(
    permutation: Seq<usize>,
    generator: Seq<usize>,
    orders: Seq<u64>,
    facelets: Seq<usize>,
    upto: int,
) -> Option<Seq<(u64, u64)>>
    decreases upto,
{
    if upto <= 0 {
        Some(Seq::empty())
    } else {
        match readings(permutation, generator, orders, facelets, upto - 1) {
            None => None,
            Some(before) => {
                let facelet = facelets[upto - 1] as int;
                let image = apply_mapping(permutation, facelet);
                if facelet < orders.len() && orders[facelet] != 0 && is_reachable(
                    generator,
                    facelet,
                    image,
                ) {
                    Some(
                        before.push(
                            (
                                (least_steps(generator, facelet, image) % (orders[facelet] as nat)) as u64,
                                orders[facelet],
                            ),
                        ),
                    )
                } else {
                    None
                }
            },
        }
    }
}

/// What decoding gives: nothing if the facelets say nothing; else the least
/// number that agrees with what every facelet says, if there is one.
pub open spec fn is_decoded(
    value: Option<u64>,
    permutation: Seq<usize>,
    generator: Seq<usize>,
    orders: Seq<u64>,
    facelets: Seq<usize>,
) -> bool {
    match readings(permutation, generator, orders, facelets, facelets.len() as int) {
        None => value is None,
        Some(pairs) => is_crt_solution(pairs, value),
    }
}

/// The least number of steps is the number of steps that is least.
pub proof fn lemma_least_steps(mapping: Seq<usize>, from: int, to: int, steps: nat)
    requires
        is_steps(mapping, from, to, steps),
    ensures
        least_steps(mapping, from, to) == steps,
        is_reachable(mapping, from, to),
{
    let chosen = least_steps(mapping, from, to);
    assert(is_steps(mapping, from, to, chosen));
    if chosen < steps {
        assert(iterate(mapping, chosen, from) != to);
    }
    if steps < chosen {
        assert(iterate(mapping, steps, from) != to);
    }
}

/// Along a cycle, the mapping applied `times` times takes an entry to the
/// entry `times` places on, round the cycle.
pub proof fn lemma_iterate_cycle(mapping: Seq<usize>, cycle: Seq<usize>, at: int, times: nat)
    requires
        is_cycle_of(mapping, cycle),
        0 <= at < cycle.len(),
    ensures
        iterate(mapping, times, cycle[at] as int) == cycle[(at + times) % (cycle.len() as int)],
    decreases times,
{
    let n = cycle.len() as int;
    if times == 0 {
        vstd::arithmetic::div_mod::lemma_small_mod(at as nat, n as nat);
    } else {
        lemma_iterate_cycle(mapping, cycle, at, (times - 1) as nat);
        let before = (at + times - 1) % n;
        vstd::arithmetic::div_mod::lemma_mod_bound(at + times - 1, n);
        assert(iterate(mapping, times, cycle[at] as int) == apply_mapping(mapping, cycle[before] as int));
        assert(cycle[before] < mapping.len());
        if before == n - 1 {
            assert(mapping[cycle.last() as int] == cycle[0]);
            assert((at + times) % n == 0) by {
                vstd::arithmetic::div_mod::lemma_fundamental_div_mod(at + times - 1, n);
                let q = (at + times - 1) / n;
                assert(at + times == n * (q + 1) + 0) by (nonlinear_arith)
                    requires
                        at + times - 1 == n * q + (n - 1),
                ;
                vstd::arithmetic::div_mod::lemma_fundamental_div_mod_converse(at + times, n, q + 1, 0);
            }
        } else {
            assert(mapping[cycle[before] as int] == cycle[before + 1]);
            assert((at + times) % n == before + 1) by {
                vstd::arithmetic::div_mod::lemma_fundamental_div_mod(at + times - 1, n);
                let q = (at + times - 1) / n;
                assert(at + times == q * n + (before + 1)) by (nonlinear_arith)
                    requires
                        at + times - 1 == n * q + before,
                ;
                vstd::arithmetic::div_mod::lemma_fundamental_div_mod_converse(at + times, n, q, before + 1);
            }
        }
    }
}

/// What the mapping leaves in place stays in place however often the mapping
/// is applied.
pub proof fn lemma_iterate_fixed(mapping: Seq<usize>, at: int, times: nat)
    requires
        apply_mapping(mapping, at) == at,
    ensures
        iterate(mapping, times, at) == at,
    decreases times,
{
    if times > 0 {
        lemma_iterate_fixed(mapping, at, (times - 1) as nat);
    }
}

/// The place of a number in a list.
fn position_in(cycle: &Vec<usize>, x: usize) -> (found: Option<usize>)
    ensures
        match found {
            Some(at) => at < cycle@.len() && cycle@[at as int] == x,
            None => !cycle@.contains(x),
        },
{
    let mut at: usize = 0;
    while at < cycle.len()
        invariant
            at <= cycle@.len(),
            forall|j: int| 0 <= j < at ==> cycle@[j] != x,
        decreases cycle@.len() - at,
    {
        if cycle[at] == x {
            return Some(at);
        }
        at += 1;
    }
    None
}

/// Along a cycle, a place is reached from another in as many steps as lie
/// between them, and in no fewer.
proof fn lemma_steps_along(generator: Seq<usize>, cycle: Seq<usize>, start: int, end: int)
    requires
        is_cycle_of(generator, cycle),
        0 <= start < cycle.len(),
        0 <= end < cycle.len(),
    ensures
        is_steps(
            generator,
            cycle[start] as int,
            cycle[end] as int,
            (if end >= start {
                end - start
            } else {
                cycle.len() - start + end
            }) as nat,
        ),
{
    let n = cycle.len() as int;
    let from = cycle[start] as int;
    let to = cycle[end] as int;
    let steps = (if end >= start {
        end - start
    } else {
        n - start + end
    }) as nat;
    lemma_iterate_cycle(generator, cycle, start, steps);
    if end >= start {
        vstd::arithmetic::div_mod::lemma_small_mod(end as nat, n as nat);
    } else {
        vstd::arithmetic::div_mod::lemma_fundamental_div_mod_converse(start + steps, n, 1, end);
    }
    assert forall|fewer: nat| fewer < steps implies #[trigger] iterate(generator, fewer, from) != to by {
        lemma_iterate_cycle(generator, cycle, start, fewer);
        let at = (start + fewer) % n;
        vstd::arithmetic::div_mod::lemma_mod_bound(start + fewer, n);
        if at == end {
            if start + fewer < n {
                vstd::arithmetic::div_mod::lemma_small_mod((start + fewer) as nat, n as nat);
            } else {
                vstd::arithmetic::div_mod::lemma_fundamental_div_mod_converse(
                    start + fewer,
                    n,
                    1,
                    start + fewer - n,
                );
            }
        }
    }
}

/// From a place on a cycle nothing is reached that is not on the cycle.
proof fn lemma_steps_astray(generator: Seq<usize>, cycle: Seq<usize>, start: int, to: int)
    requires
        is_cycle_of(generator, cycle),
        0 <= start < cycle.len(),
        forall|j: int| 0 <= j < cycle.len() ==> cycle[j] != to,
    ensures
        !is_reachable(generator, cycle[start] as int, to),
{
    let n = cycle.len() as int;
    assert forall|k: nat| #[trigger] iterate(generator, k, cycle[start] as int) != to by {
        lemma_iterate_cycle(generator, cycle, start, k);
        vstd::arithmetic::div_mod::lemma_mod_bound(start + k, n);
    }
}

/// How far along the generator's cycle the facelet `from` has to go to reach
/// `to`.
fn steps_between(cycles: &Vec<Vec<usize>>, from: usize, to: usize, Ghost(generator): Ghost<Seq<usize>>) -> (steps:
    Option<usize>)
    requires
        is_cycle_decomposition(generator, cycles@),
        is_bijection(generator),
    ensures
        match steps {
            Some(steps) => is_steps(generator, from as int, to as int, steps as nat),
            None => !is_reachable(generator, from as int, to as int),
        },
{
    if from == to {
        return Some(0);
    }
    let mut a: usize = 0;
    while a < cycles.len()
        invariant
            a <= cycles@.len(),
            is_cycle_decomposition(generator, cycles@),
            forall|b: int| 0 <= b < a ==> !(#[trigger] cycles@[b])@.contains(from),
        decreases cycles@.len() - a,
    {
        let cycle = &cycles[a];
        match position_in(cycle, from) {
            Some(start) => {
                assert(is_cycle_of(generator, cycles@[a as int]@));
                let n = cycle.len();
                match position_in(cycle, to) {
                    Some(end) => {
                        let steps = if end >= start {
                            end - start
                        } else {
                            n - start + end
                        };
                        proof {
                            lemma_steps_along(generator, cycle@, start as int, end as int);
                        }
                        return Some(steps);
                    },
                    None => {
                        proof {
                            lemma_steps_astray(generator, cycle@, start as int, to as int);
                        }
                        return None;
                    },
                }
            },
            None => {},
        }
        a += 1;
    }
    proof {
        // the generator leaves `from` in place
        if from < generator.len() && generator[from as int] != from {
            assert(in_cycles(cycles@, from));
            let (b, j) = choose|b: int, j: int|
                0 <= b < cycles@.len() && 0 <= j < cycles@[b]@.len() && #[trigger] cycles@[b]@[j] == from;
            assert(cycles@[b]@.contains(from));
        }
        assert forall|k: nat| #[trigger] iterate(generator, k, from as int) != to by {
            lemma_iterate_fixed(generator, from as int, k);
        }
    }
    None
}

/// Decodes with the cycles and the chromatic orders of the generator at hand.
fn decode_with(
    permutation: &Permutation,
    facelets: &[usize],
    cycles: &Vec<Vec<usize>>,
    orders: &Vec<u64>,
    Ghost(generator): Ghost<Seq<usize>>,
) -> (value: Option<u64>)
    requires
        is_cycle_decomposition(generator, cycles@),
        is_bijection(generator),
    ensures
        is_decoded(value, permutation.mapping_view(), generator, orders@, facelets@),
{
    let mut pairs: Vec<(u64, u64)> = Vec::new();
    let mut i: usize = 0;
    while i < facelets.len()
        invariant
            i <= facelets@.len(),
            is_cycle_decomposition(generator, cycles@),
            is_bijection(generator),
            readings(permutation.mapping_view(), generator, orders@, facelets@, i as int) == Some(
                pairs@,
            ),
        decreases facelets@.len() - i,
    {
        let facelet = facelets[i];
        if facelet >= orders.len() || orders[facelet] == 0 {
            proof {
                lemma_readings_fail(
                    permutation.mapping_view(),
                    generator,
                    orders@,
                    facelets@,
                    i as int + 1,
                    facelets@.len() as int,
                );
            }
            return None;
        }
        let image = permutation.get(facelet);
        match steps_between(cycles, facelet, image, Ghost(generator)) {
            Some(steps) => {
                proof {
                    lemma_least_steps(generator, facelet as int, image as int, steps as nat);
                }
                pairs.push(((steps as u64) % orders[facelet], orders[facelet]));
            },
            None => {
                proof {
                    lemma_readings_fail(
                        permutation.mapping_view(),
                        generator,
                        orders@,
                        facelets@,
                        i as int + 1,
                        facelets@.len() as int,
                    );
                }
                return None;
            },
        }
        i += 1;
    }
    chinese_remainder_theorem(&pairs)
}

proof fn lemma_readings_fail(
    permutation: Seq<usize>,
    generator: Seq<usize>,
    orders: Seq<u64>,
    facelets: Seq<usize>,
    at: int,
    upto: int,
)
    requires
        0 <= at <= upto,
        readings(permutation, generator, orders, facelets, at) is None,
    ensures
        readings(permutation, generator, orders, facelets, upto) is None,
    decreases upto - at,
{
    if at < upto {
        lemma_readings_fail(permutation, generator, orders, facelets, at, upto - 1);
    }
}

/// Whether `orders` are the chromatic orders of the facelets under the
/// generator.
pub open spec fn is_generator_orders(orders: Seq<u64>, generator: &Algorithm) -> bool {
    is_orders_of(orders, generator.permutation_view().mapping_view(), generator.group_view().colors_view())
}

/// Whether `orders` are the chromatic orders of the facelets under a
/// permutation of facelets with the given colors.
pub open spec fn is_orders_of(orders: Seq<u64>, mapping: Seq<usize>, colors: Seq<String>) -> bool {
    exists|cycles: Seq<Vec<usize>>|
        #[trigger] is_cycle_decomposition(mapping, cycles) && is_chromatic_orders(orders, colors, cycles)
}

/// Decodes the register from the permutation, by the given facelets and the
/// generator of the register.
///
/// Each facelet says how far along the generator's cycle the permutation has
/// taken it, modulo its chromatic order. The value of the register is the
/// least number that agrees with all of them. There is none if the generator
/// never takes a facelet to where the permutation has taken it, if a facelet
/// is none of the puzzle, or if the facelets contradict each other.
pub fn decode(permutation: &Permutation, facelets: &[usize], generator: &Algorithm) -> (value: Option<u64>)
    ensures
        exists|orders: Seq<u64>|
            #[trigger] is_generator_orders(orders, generator) && is_decoded(
                value,
                permutation.mapping_view(),
                generator.permutation_view().mapping_view(),
                orders,
                facelets@,
            ),
{
    let effect = generator.permutation();
    proof {
        use_type_invariant(generator);
        use_type_invariant(effect);
    }
    let orders = chromatic_orders_by_facelets(generator);
    let cycles = generator.permutation().cycles();
    let value = decode_with(
        permutation,
        facelets,
        &cycles,
        &orders,
        Ghost(generator.permutation_view().mapping_view()),
    );
    assert(is_generator_orders(orders@, generator));
    value
}

} // verus!
