//! Building the decoding table of an architecture.
//!
//! The table is filled with the algorithm of each register and what undoes
//! it, and with the sequences of moves that the architecture was given as
//! short ones, each with what undoes it. A sequence is entered for what the
//! registers read after it, by their signature facelets.
use crate::architectures::{decode, is_decoded, is_generator_orders, readings, Architecture, CycleGenerator};
use crate::decoding_table::{entered_into, offsets_in_range, DecodingTable, TableEntry};
use crate::permutations::{
    apply_mapping, copy_moves, effect_of, inverted_moves, moves_valid, repeated_moves, Algorithm,
    PermutationGroup,
};
use crate::signature_facelets::Facelets;
use std::sync::Arc;
use vstd::prelude::*;

verus! {

/// Whether `value` is what a register reads when the puzzle has been
/// permuted, by the signature facelets of the register.
#[verifier::opaque]
pub open spec fn is_reading(value: Option<u64>, permutation: Seq<usize>, register: CycleGenerator) -> bool {
    exists|orders: Seq<u64>|
        #[trigger] is_generator_orders(orders, &register.algorithm) && is_decoded(
            value,
            permutation,
            register.algorithm.permutation_view().mapping_view(),
            orders,
            register.signature().facelets,
        )
}

/// Whether `offsets` is what the registers of an architecture read after a
/// sequence of moves: the value of each register, or nothing if some register
/// cannot be read.
pub open spec fn is_offsets(offsets: Option<Seq<u64>>, architecture: &Architecture, moves: Seq<usize>) -> bool {
    let effect = effect_of(architecture.perm_group.generators_view(), moves, moves.len() as int);
    match offsets {
        Some(values) => values.len() == architecture.registers@.len() && forall|r: int|
            0 <= r < values.len() ==> is_reading(Some(#[trigger] values[r]), effect, architecture.registers@[r]),
        None => exists|r: int|
            0 <= r < architecture.registers@.len() && is_reading(None, effect, #[trigger] architecture.registers@[r]),
    }
}

/// The orders of the registers.
pub open spec fn register_orders(registers: Seq<CycleGenerator>) -> Seq<u64> {
    Seq::new(registers.len(), |r: int| registers[r].order)
}

/// The sequence of moves that is tried for the table at the place `k`: for
/// each register its algorithm and then what undoes it; behind these, for
/// each sequence that the architecture was given, what undoes it; behind
/// these, the sequences themselves. A sequence with a move that the group
/// does not have is not tried.
pub open spec fn candidate(architecture: &Architecture, k: int) -> Option<Seq<usize>> {
    let generators = architecture.perm_group.generators_view();
    let registers = architecture.registers@;
    let given = architecture.optimized_table@;
    if k < 2 * registers.len() {
        if k % 2 == 0 {
            Some(registers[k / 2].algorithm.moves_view())
        } else {
            Some(inverted_moves(generators, registers[k / 2].algorithm.moves_view()))
        }
    } else if k < 2 * registers.len() + given.len() {
        let moves = given[k - 2 * registers.len()]@;
        if moves_valid(generators, moves) {
            Some(inverted_moves(generators, moves))
        } else {
            None
        }
    } else {
        let moves = given[k - 2 * registers.len() - given.len()]@;
        if moves_valid(generators, moves) {
            Some(moves)
        } else {
            None
        }
    }
}

/// How many sequences of moves are tried for the table.
pub open spec fn candidate_count(architecture: &Architecture) -> nat {
    2 * architecture.registers@.len() + 2 * architecture.optimized_table@.len()
}

/// Whether `tried` is what trying a sequence of moves gives: an entry for the
/// offsets that the registers read after it, if they can be read and are
/// below the orders of the registers.
#[verifier::opaque]
pub open spec fn is_trial(tried: Option<TableEntry>, architecture: &Architecture, candidate: Option<Seq<usize>>) -> bool {
    let orders = register_orders(architecture.registers@);
    match candidate {
        None => tried is None,
        Some(moves) => match tried {
            Some(entry) => entry.alg@ == moves && is_offsets(Some(entry.achieves@), architecture, moves)
                && offsets_in_range(entry.achieves@, orders),
            None => is_offsets(None, architecture, moves) || exists|offsets: Seq<u64>|
                #[trigger] is_offsets(Some(offsets), architecture, moves) && !offsets_in_range(offsets, orders),
        },
    }
}

/// The entries of the table after the first `upto` trials.
pub open spec fn table_of(log: Seq<Option<TableEntry>>, upto: int) -> Seq<TableEntry>
    decreases upto,
{
    if upto <= 0 {
        Seq::empty()
    } else {
        match log[upto - 1] {
            Some(entry) => entered_into(table_of(log, upto - 1), entry),
            None => table_of(log, upto - 1),
        }
    }
}

/// Whether the entries are those of the table of an architecture.
pub open spec fn is_table_of(entries: Seq<TableEntry>, architecture: &Architecture) -> bool {
    exists|log: Seq<Option<TableEntry>>|
        {
            &&& log.len() == candidate_count(architecture)
            &&& forall|k: int|
                0 <= k < log.len() ==> is_trial(#[trigger] log[k], architecture, candidate(architecture, k))
            &&& entries == #[trigger] table_of(log, log.len() as int)
        }
}

proof fn lemma_readings_same(
    p: Seq<usize>,
    q: Seq<usize>,
    generator: Seq<usize>,
    orders: Seq<u64>,
    facelets: Seq<usize>,
    upto: int,
)
    requires
        forall|i: int| #[trigger] apply_mapping(p, i) == apply_mapping(q, i),
    ensures
        readings(p, generator, orders, facelets, upto) == readings(q, generator, orders, facelets, upto),
    decreases upto,
{
    if upto > 0 {
        lemma_readings_same(p, q, generator, orders, facelets, upto - 1);
        assert(apply_mapping(p, facelets[upto - 1] as int) == apply_mapping(q, facelets[upto - 1] as int));
    }
}

/// The offsets, if there are any.
pub open spec fn offsets_view(offsets: Option<Vec<u64>>) -> Option<Seq<u64>> {
    match offsets {
        Some(values) => Some(values@),
        None => None,
    }
}

/// Whether the facelets are the signature facelets of the registers.
pub open spec fn are_signatures(facelets: Seq<Facelets>, registers: Seq<CycleGenerator>) -> bool {
    &&& facelets.len() == registers.len()
    &&& forall|r: int|
        0 <= r < facelets.len() ==> (#[trigger] facelets[r]).facelets@ == registers[r].signature().facelets
}

/// Reads every register after an algorithm.
fn read_offsets(architecture: &Architecture, facelets: &Vec<Facelets>, algorithm: &Algorithm) -> (offsets: Option<
    Vec<u64>,
>)
    requires
        are_signatures(facelets@, architecture.registers@),
        algorithm.group_view() == architecture.perm_group,
    ensures
        is_offsets(offsets_view(offsets), architecture, algorithm.moves_view()),
{
    proof {
        use_type_invariant(algorithm);
    }
    let permutation = algorithm.permutation();
    let ghost effect = effect_of(
        architecture.perm_group.generators_view(),
        algorithm.moves_view(),
        algorithm.moves_view().len() as int,
    );
    assert forall|i: int| #[trigger] apply_mapping(permutation.mapping_view(), i) == apply_mapping(effect, i) by {
        assert(algorithm.permutation_view().apply(i) == apply_mapping(algorithm.effect(), i));
    }
    let mut values: Vec<u64> = Vec::new();
    let mut r: usize = 0;
    while r < architecture.registers.len()
        invariant
            r <= architecture.registers@.len(),
            values@.len() == r,
            effect == effect_of(
                architecture.perm_group.generators_view(),
                algorithm.moves_view(),
                algorithm.moves_view().len() as int,
            ),
            are_signatures(facelets@, architecture.registers@),
            forall|i: int| #[trigger] apply_mapping(permutation.mapping_view(), i) == apply_mapping(effect, i),
            forall|k: int|
                0 <= k < r ==> is_reading(Some(#[trigger] values@[k]), effect, architecture.registers@[k]),
        decreases architecture.registers@.len() - r,
    {
        let register = &architecture.registers[r];
        let value = decode(permutation, facelets[r].facelets(), &register.algorithm);
        proof {
            lemma_reading(value, permutation.mapping_view(), effect, *register, facelets@[r as int].facelets@);
        }
        match value {
            Some(value) => {
                values.push(value);
            },
            None => {
                assert(is_reading(None, effect, architecture.registers@[r as int]));
                return None;
            },
        }
        r += 1;
    }
    Some(values)
}

impl Architecture {
    /// Gives the architecture sequences of moves that are known to be short for
    /// what they do to the registers, each move by its place among the moves of
    /// the group. The decoding table holds them, and what undoes them.
    pub fn set_optimized_table(&mut self, optimized_table: Vec<Vec<usize>>)
        ensures
            final(self).optimized_table == optimized_table,
            final(self).perm_group == old(self).perm_group,
            final(self).registers == old(self).registers,
            final(self).shared_facelets == old(self).shared_facelets,
    {
        self.optimized_table = optimized_table;
    }

    /// Tries a sequence of moves: it is entered into the table for what the
    /// registers read after it.
    fn try_enter(&self, table: &mut DecodingTable, facelets: &Vec<Facelets>, moves: Vec<usize>) -> (tried: Ghost<
        Option<TableEntry>,
    >)
        requires
            are_signatures(facelets@, self.registers@),
            moves_valid(self.perm_group.generators_view(), moves@),
            old(table).orders_view() == register_orders(self.registers@),
        ensures
            is_trial(tried@, self, Some(moves@)),
            final(table).orders_view() == old(table).orders_view(),
            final(table).entries() == match tried@ {
                Some(entry) => entered_into(old(table).entries(), entry),
                None => old(table).entries(),
            },
    {
        proof {
            reveal(is_trial);
        }
        match Algorithm::from_moves(self.perm_group.clone(), copy_moves(&moves)) {
            Some(algorithm) => {
                match read_offsets(self, facelets, &algorithm) {
                    Some(achieved) => {
                        let ghost entry = TableEntry { achieves: achieved, alg: moves };
                        let entered = table.insert(achieved, moves);
                        proof {
                            assert(is_offsets(Some(entry.achieves@), self, entry.alg@));
                        }
                        if entered {
                            Ghost(Some(entry))
                        } else {
                            Ghost(None)
                        }
                    },
                    None => Ghost(None),
                }
            },
            None => Ghost(None),
        }
    }

    /// The decoding table of the architecture.
    ///
    /// It holds, for what the registers read after them: the algorithm of
    /// each register and what undoes it, and the sequences of moves that the
    /// architecture was given, each with what undoes it. Of two sequences that
    /// give the registers the same values, the one that is tried later stays.
    pub fn decoding_table(&self) -> (table: DecodingTable)
        requires
            self.wf(),
        ensures
            table.orders_view() == register_orders(self.registers@),
            is_table_of(table.entries(), self),
    {
        let mut facelets: Vec<Facelets> = Vec::new();
        let mut orders: Vec<u64> = Vec::new();
        let mut r: usize = 0;
        while r < self.registers.len()
            invariant
                self.wf(),
                r <= self.registers@.len(),
                facelets@.len() == r,
                orders@.len() == r,
                forall|k: int|
                    0 <= k < r ==> (#[trigger] facelets@[k]).facelets@ == self.registers@[k].signature().facelets,
                forall|k: int| 0 <= k < r ==> #[trigger] orders@[k] == self.registers@[k].order,
            decreases self.registers@.len() - r,
        {
            facelets.push(self.registers[r].signature_facelets());
            orders.push(self.registers[r].order);
            r += 1;
        }
        assert(orders@ =~= register_orders(self.registers@));
        let mut table = DecodingTable::new(orders);
        let ghost generators = self.perm_group.generators_view();
        let ghost mut log: Seq<Option<TableEntry>> = Seq::empty();
        let count: usize = self.registers.len();
        let given: usize = self.optimized_table.len();
        let mut r: usize = 0;
        while r < count
            invariant
                self.wf(),
                r <= count,
                count == self.registers@.len(),
                given == self.optimized_table@.len(),
                generators == self.perm_group.generators_view(),
                are_signatures(facelets@, self.registers@),
                table.orders_view() == register_orders(self.registers@),
                log.len() == 2 * r,
                forall|k: int| 0 <= k < log.len() ==> is_trial(#[trigger] log[k], self, candidate(self, k)),
                table.entries() == table_of(log, log.len() as int),
            decreases count - r,
        {
            let register = &self.registers[r];
            proof {
                use_type_invariant(&register.algorithm);
            }
            let forth = copy_moves(register.algorithm.moves());
            assert(candidate(self, 2 * r) == Some(forth@));
            let tried = self.try_enter(&mut table, &facelets, forth);
            proof {
                let before = log;
                log = log.push(tried@);
                assert(table_of(log, log.len() as int) == table.entries()) by {
                    assert(log.drop_last() =~= before);
                    assert(table_of(log, log.len() - 1) == table_of(before, before.len() as int)) by {
                        lemma_table_of_prefix(log, before, before.len() as int);
                    }
                }
            }
            let mut inverse = register.algorithm.clone();
            inverse.exponentiate(-1);
            proof {
                use_type_invariant(&inverse);
                let undone = inverted_moves(generators, register.algorithm.moves_view());
                assert(repeated_moves(undone, 1) =~= undone) by {
                    assert(repeated_moves(undone, 0) =~= Seq::<usize>::empty());
                }
            }
            let back = copy_moves(inverse.moves());
            assert(candidate(self, 2 * r + 1) == Some(back@));
            let tried = self.try_enter(&mut table, &facelets, back);
            proof {
                let before = log;
                log = log.push(tried@);
                assert(table_of(log, log.len() as int) == table.entries()) by {
                    lemma_table_of_prefix(log, before, before.len() as int);
                }
            }
            r += 1;
        }
        let mut k: usize = 0;
        while k < given
            invariant
                k <= given,
                count == self.registers@.len(),
                given == self.optimized_table@.len(),
                generators == self.perm_group.generators_view(),
                are_signatures(facelets@, self.registers@),
                table.orders_view() == register_orders(self.registers@),
                log.len() == 2 * count + k,
                forall|j: int| 0 <= j < log.len() ==> is_trial(#[trigger] log[j], self, candidate(self, j)),
                table.entries() == table_of(log, log.len() as int),
            decreases given - k,
        {
            let ghost before = log;
            let ghost tried: Option<TableEntry> = None;
            if self.has_moves(&self.optimized_table[k]) {
                let mut undone = copy_moves(&self.optimized_table[k]);
                self.perm_group.invert_generator_moves(&mut undone);
                assert(candidate(self, 2 * count + k) == Some(undone@));
                let entered = self.try_enter(&mut table, &facelets, undone);
                proof {
                    tried = entered@;
                }
            } else {
                assert(candidate(self, 2 * count + k) == None::<Seq<usize>>);
                proof {
                    reveal(is_trial);
                }
            }
            proof {
                log = log.push(tried);
                lemma_table_of_prefix(log, before, before.len() as int);
            }
            k += 1;
        }
        let mut k: usize = 0;
        while k < given
            invariant
                k <= given,
                count == self.registers@.len(),
                given == self.optimized_table@.len(),
                generators == self.perm_group.generators_view(),
                are_signatures(facelets@, self.registers@),
                table.orders_view() == register_orders(self.registers@),
                log.len() == 2 * count + given + k,
                forall|j: int| 0 <= j < log.len() ==> is_trial(#[trigger] log[j], self, candidate(self, j)),
                table.entries() == table_of(log, log.len() as int),
            decreases given - k,
        {
            let ghost before = log;
            let ghost tried: Option<TableEntry> = None;
            if self.has_moves(&self.optimized_table[k]) {
                let moves = copy_moves(&self.optimized_table[k]);
                assert(candidate(self, 2 * count + given + k) == Some(moves@));
                let entered = self.try_enter(&mut table, &facelets, moves);
                proof {
                    tried = entered@;
                }
            } else {
                assert(candidate(self, 2 * count + given + k) == None::<Seq<usize>>);
                proof {
                    reveal(is_trial);
                }
            }
            proof {
                log = log.push(tried);
                lemma_table_of_prefix(log, before, before.len() as int);
            }
            k += 1;
        }
        assert(is_table_of(table.entries(), self));
        table
    }

    /// Whether every move of the sequence is a move of the group.
    fn has_moves(&self, moves: &Vec<usize>) -> (valid: bool)
        ensures
            valid == moves_valid(self.perm_group.generators_view(), moves@),
    {
        let count: usize = self.perm_group.generators().len();
        let mut i: usize = 0;
        while i < moves.len()
            invariant
                i <= moves@.len(),
                count == self.perm_group.generators_view().len(),
                forall|j: int| 0 <= j < i ==> (#[trigger] moves@[j]) < count,
            decreases moves@.len() - i,
        {
            if moves[i] >= count {
                return false;
            }
            i += 1;
        }
        true
    }
}

proof fn lemma_reading(
    value: Option<u64>,
    permutation: Seq<usize>,
    effect: Seq<usize>,
    register: CycleGenerator,
    facelets: Seq<usize>,
)
    requires
        forall|i: int| #[trigger] apply_mapping(permutation, i) == apply_mapping(effect, i),
        facelets == register.signature().facelets,
        exists|orders: Seq<u64>|
            #[trigger] is_generator_orders(orders, &register.algorithm) && is_decoded(
                value,
                permutation,
                register.algorithm.permutation_view().mapping_view(),
                orders,
                facelets,
            ),
    ensures
        is_reading(value, effect, register),
{
    reveal(is_reading);
    let generator = register.algorithm.permutation_view().mapping_view();
    let orders = choose|orders: Seq<u64>|
        #[trigger] is_generator_orders(orders, &register.algorithm) && is_decoded(
            value,
            permutation,
            generator,
            orders,
            facelets,
        );
    lemma_readings_same(permutation, effect, generator, orders, facelets, facelets.len() as int);
    assert(is_decoded(value, effect, generator, orders, facelets));
}

proof fn lemma_table_of_prefix(log: Seq<Option<TableEntry>>, before: Seq<Option<TableEntry>>, upto: int)
    requires
        0 <= upto <= before.len() <= log.len(),
        forall|k: int| 0 <= k < before.len() ==> log[k] == before[k],
    ensures
        table_of(log, upto) == table_of(before, upto),
    decreases upto,
{
    if upto > 0 {
        lemma_table_of_prefix(log, before, upto - 1);
    }
}

} // verus!
