//! Architectures that a puzzle comes with, and finding one whose registers
//! have the orders that a program asks for.
use crate::architectures::{Architecture, CycleGenerator, CycleGeneratorSubcycle};
use crate::permutations::{copy_moves, PermutationGroup};
use crate::table_building::register_orders;
use std::sync::Arc;
use vstd::prelude::*;

verus! {

/// A puzzle: its group, and the architectures that it comes with.
#[derive(Debug)]
pub struct PuzzleDefinition {
    pub perm_group: Arc<PermutationGroup>,
    pub presets: Vec<Arc<Architecture>>,
}

/// The first register from `from` on that is not used yet and has the order;
/// the number of registers if there is none.
pub open spec fn first_free(register_orders: Seq<u64>, used: Seq<bool>, order: u64, from: int) -> int
    decreases register_orders.len() - from,
{
    if from < 0 || from >= register_orders.len() {
        register_orders.len() as int
    } else if !used[from] && register_orders[from] == order {
        from
    } else {
        first_free(register_orders, used, order, from + 1)
    }
}

/// The registers that the first `upto` orders are matched with, and which
/// registers are used by them: each order takes the first register of that
/// order that no order before it has taken. There is no matching if an order
/// finds no register.
pub open spec fn matched(orders: Seq<u64>, register_orders: Seq<u64>, upto: int) -> Option<(Seq<bool>, Seq<usize>)>
    decreases upto,
{
    if upto <= 0 {
        Some((Seq::new(register_orders.len(), |j: int| false), Seq::empty()))
    } else {
        match matched(orders, register_orders, upto - 1) {
            None => None,
            Some((used, places)) => {
                let place = first_free(register_orders, used, orders[upto - 1], 0);
                if place < register_orders.len() {
                    Some((used.update(place, true), places.push(place as usize)))
                } else {
                    None
                }
            },
        }
    }
}

/// The registers that the orders are matched with, if the architecture has as
/// many registers as there are orders and every order finds a register.
pub open spec fn places_for(orders: Seq<u64>, architecture: &Architecture) -> Option<Seq<usize>> {
    if architecture.registers@.len() != orders.len() {
        None
    } else {
        match matched(orders, register_orders(architecture.registers@), orders.len() as int) {
            Some((_, places)) => Some(places),
            None => None,
        }
    }
}

/// Whether a register is a copy of another.
pub open spec fn same_register(copy: CycleGenerator, register: CycleGenerator) -> bool {
    &&& copy.order == register.order
    &&& copy.algorithm.group_view() == register.algorithm.group_view()
    &&& copy.algorithm.moves_view() == register.algorithm.moves_view()
    &&& copy.algorithm.permutation_view().mapping_view() == register.algorithm.permutation_view().mapping_view()
    &&& copy.unshared_cycles@.len() == register.unshared_cycles@.len()
    &&& forall|c: int|
        0 <= c < copy.unshared_cycles@.len() ==> (#[trigger] copy.unshared_cycles@[c]).facelet_cycle@
            == register.unshared_cycles@[c].facelet_cycle@ && copy.unshared_cycles@[c].chromatic_order
            == register.unshared_cycles@[c].chromatic_order
}

/// Whether an architecture is another with its registers in the given order:
/// the register at each place is a copy of the register that the place names.
pub open spec fn is_rearranged(adapted: &Architecture, architecture: &Architecture, places: Seq<usize>) -> bool {
    &&& adapted.perm_group == architecture.perm_group
    &&& adapted.shared_facelets@ == architecture.shared_facelets@
    &&& adapted.optimized_table@.len() == architecture.optimized_table@.len()
    &&& forall|k: int|
        0 <= k < adapted.optimized_table@.len() ==> (#[trigger] adapted.optimized_table@[k])@
            == architecture.optimized_table@[k]@
    &&& adapted.registers@.len() == places.len()
    &&& forall|i: int|
        0 <= i < places.len() ==> places[i] < architecture.registers@.len() && same_register(
            #[trigger] adapted.registers@[i],
            architecture.registers@[places[i] as int],
        )
}

/// Whether every place names itself.
pub open spec fn in_place(places: Seq<usize>) -> bool {
    forall|i: int| 0 <= i < places.len() ==> #[trigger] places[i] == i
}

proof fn lemma_unmatched(orders: Seq<u64>, register_orders: Seq<u64>, at: int, upto: int)
    requires
        0 <= at <= upto,
        matched(orders, register_orders, at) is None,
    ensures
        matched(orders, register_orders, upto) is None,
    decreases upto - at,
{
    if at < upto {
        lemma_unmatched(orders, register_orders, at, upto - 1);
    }
}

fn copy_register(register: &CycleGenerator) -> (copy: CycleGenerator)
    ensures
        same_register(copy, *register),
{
    let mut cycles: Vec<CycleGeneratorSubcycle> = Vec::new();
    let mut c: usize = 0;
    while c < register.unshared_cycles.len()
        invariant
            c <= register.unshared_cycles@.len(),
            cycles@.len() == c,
            forall|k: int|
                0 <= k < c ==> (#[trigger] cycles@[k]).facelet_cycle@ == register.unshared_cycles@[k].facelet_cycle@
                    && cycles@[k].chromatic_order == register.unshared_cycles@[k].chromatic_order,
        decreases register.unshared_cycles@.len() - c,
    {
        cycles.push(
            CycleGeneratorSubcycle {
                facelet_cycle: copy_moves(&register.unshared_cycles[c].facelet_cycle),
                chromatic_order: register.unshared_cycles[c].chromatic_order,
            },
        );
        c += 1;
    }
    CycleGenerator { algorithm: register.algorithm.clone(), unshared_cycles: cycles, order: register.order }
}

impl PuzzleDefinition {
    /// The architecture with its registers in the order of the given orders.
    ///
    /// Each order takes the first register of that order that no order before
    /// it has taken. There is no such architecture if the architecture does
    /// not have as many registers as there are orders, or if an order finds no
    /// register. An architecture whose registers stand in that order already is
    /// handed back as it is.
    pub fn adapt_architecture(architecture: &Arc<Architecture>, orders: &[u64]) -> (adapted: Option<
        Arc<Architecture>,
    >)
        ensures
            match places_for(orders@, &**architecture) {
                None => adapted is None,
                Some(places) => adapted matches Some(adapted) && is_rearranged(&*adapted, &**architecture, places)
                    && (in_place(places) ==> adapted == *architecture),
            },
    {
        let count: usize = architecture.registers.len();
        if count != orders.len() {
            return None;
        }
        let ghost register_orders = register_orders(architecture.registers@);
        let mut used: Vec<bool> = Vec::new();
        let mut j: usize = 0;
        while j < count
            invariant
                j <= count,
                used@.len() == j,
                forall|k: int| 0 <= k < j ==> !#[trigger] used@[k],
            decreases count - j,
        {
            used.push(false);
            j += 1;
        }
        assert(used@ =~= Seq::new(register_orders.len(), |j: int| false));
        let mut places: Vec<usize> = Vec::new();
        let mut unmoved = true;
        let mut i: usize = 0;
        while i < count
            invariant
                i <= count,
                count == orders@.len(),
                count == architecture.registers@.len(),
                register_orders == crate::table_building::register_orders(architecture.registers@),
                used@.len() == count,
                places@.len() == i,
                matched(orders@, register_orders, i as int) == Some((used@, places@)),
                forall|k: int| 0 <= k < i ==> #[trigger] places@[k] < count,
                unmoved == in_place(places@),
            decreases count - i,
        {
            let mut j: usize = 0;
            while j < count && (used[j] || architecture.registers[j].order != orders[i])
                invariant
                    j <= count,
                    i < count,
                    count == orders@.len(),
                    count == architecture.registers@.len(),
                    used@.len() == count,
                    register_orders == crate::table_building::register_orders(architecture.registers@),
                    first_free(register_orders, used@, orders@[i as int], 0) == first_free(
                        register_orders,
                        used@,
                        orders@[i as int],
                        j as int,
                    ),
                decreases count - j,
            {
                j += 1;
            }
            if j >= count {
                proof {
                    lemma_unmatched(orders@, register_orders, i + 1, count as int);
                }
                return None;
            }
            used[j] = true;
            let ghost before = places@;
            places.push(j);
            if j != i {
                unmoved = false;
            }
            proof {
                if in_place(before) && j == i {
                    assert forall|k: int| 0 <= k < places@.len() implies #[trigger] places@[k] == k by {
                        if k < i {
                            assert(places@[k] == before[k]);
                        }
                    }
                } else if !in_place(before) {
                    let k = choose|k: int| 0 <= k < before.len() && #[trigger] before[k] != k;
                    assert(places@[k] == before[k]);
                } else {
                    assert(places@[i as int] != i);
                }
            }
            i += 1;
        }
        if unmoved {
            return Some(Arc::clone(architecture));
        }
        let mut registers: Vec<CycleGenerator> = Vec::new();
        let mut i: usize = 0;
        while i < count
            invariant
                i <= count,
                count == places@.len(),
                count == architecture.registers@.len(),
                registers@.len() == i,
                forall|k: int| 0 <= k < count ==> #[trigger] places@[k] < count,
                forall|k: int|
                    0 <= k < i ==> same_register(
                        #[trigger] registers@[k],
                        architecture.registers@[places@[k] as int],
                    ),
            decreases count - i,
        {
            let place: usize = places[i];
            assert(places@[i as int] < count);
            registers.push(copy_register(&architecture.registers[place]));
            i += 1;
        }
        let mut optimized_table: Vec<Vec<usize>> = Vec::new();
        let mut k: usize = 0;
        while k < architecture.optimized_table.len()
            invariant
                k <= architecture.optimized_table@.len(),
                optimized_table@.len() == k,
                forall|e: int| 0 <= e < k ==> (#[trigger] optimized_table@[e])@ == architecture.optimized_table@[e]@,
            decreases architecture.optimized_table@.len() - k,
        {
            optimized_table.push(copy_moves(&architecture.optimized_table[k]));
            k += 1;
        }
        Some(
            Arc::new(
                Architecture {
                    perm_group: architecture.perm_group.clone(),
                    registers,
                    shared_facelets: copy_moves(&architecture.shared_facelets),
                    optimized_table,
                },
            ),
        )
    }

    /// The first preset from `from` on that can be adapted to the orders; the
    /// number of presets if there is none.
    pub open spec fn first_fit(presets: Seq<Arc<Architecture>>, orders: Seq<u64>, from: int) -> int
        decreases presets.len() - from,
    {
        if from < 0 || from >= presets.len() {
            presets.len() as int
        } else if places_for(orders, &*presets[from]) is Some {
            from
        } else {
            Self::first_fit(presets, orders, from + 1)
        }
    }

    /// The first preset whose registers can be matched with the given orders,
    /// with its registers in the order of the orders. There is none if no
    /// preset has registers of just these orders.
    pub fn get_preset(&self, orders: &[u64]) -> (preset: Option<Arc<Architecture>>)
        ensures
            ({
                let at = Self::first_fit(self.presets@, orders@, 0);
                if at < self.presets@.len() {
                    let places = places_for(orders@, &*self.presets@[at]).unwrap();
                    preset matches Some(adapted) && is_rearranged(&*adapted, &*self.presets@[at], places) && (
                    in_place(places) ==> adapted == self.presets@[at])
                } else {
                    preset is None
                }
            }),
    {
        let mut at: usize = 0;
        while at < self.presets.len()
            invariant
                at <= self.presets@.len(),
                Self::first_fit(self.presets@, orders@, 0) == Self::first_fit(self.presets@, orders@, at as int),
            decreases self.presets@.len() - at,
        {
            match Self::adapt_architecture(&self.presets[at], orders) {
                Some(adapted) => {
                    return Some(adapted);
                },
                None => {},
            }
            at += 1;
        }
        None
    }
}

} // verus!
