//! The decoding table of an architecture: for tuples of register offsets, a
//! sequence of moves that achieves them. An arbitrary effect on the registers
//! is put together from entries of the table.

use crate::permutations::{append_moves, copy_moves, moves_valid, Algorithm, PermutationGroup};
use std::sync::Arc;
use vstd::prelude::*;

verus! {

/// Offsets of the registers with a sequence of moves that achieves them.
#[derive(Debug)]
pub struct TableEntry {
    pub achieves: Vec<u64>,
    pub alg: Vec<usize>,
}

/// The entries of a table, in the order of their offsets, with the orders of
/// the registers.
#[derive(Debug)]
pub struct DecodingTable {
    orders: Vec<u64>,
    table: Vec<TableEntry>,
}

/// How two lists of numbers stand to each other.
#[derive(Clone, Copy, Debug, PartialEq, Eq, Structural, Hash)]
pub enum Rank {
    Before,
    Same,
    After,
}

/// How `a` and `b` stand to each other from the place `from` on: the first
/// place at which they differ decides, and a list that ends there comes first.
pub open spec fn rank_from(a: Seq<u64>, b: Seq<u64>, from: int) -> Rank
    decreases a.len() - from,
{
    if from < 0 {
        Rank::Same
    } else if from >= a.len() {
        if from >= b.len() {
            Rank::Same
        } else {
            Rank::Before
        }
    } else if from >= b.len() {
        Rank::After
    } else if a[from] < b[from] {
        Rank::Before
    } else if a[from] > b[from] {
        Rank::After
    } else {
        rank_from(a, b, from + 1)
    }
}

/// How two lists of numbers stand to each other in the order of a dictionary.
pub open spec fn rank(a: Seq<u64>, b: Seq<u64>) -> Rank {
    rank_from(a, b, 0)
}

/// How two lists of numbers stand to each other in the order of a dictionary.
pub fn rank_of(a: &Vec<u64>, b: &Vec<u64>) -> (r: Rank)
    ensures
        r == rank(a@, b@),
{
    let mut i: usize = 0;
    loop
        invariant
            i <= a@.len(),
            i <= b@.len(),
            rank(a@, b@) == rank_from(a@, b@, i as int),
        decreases a@.len() - i,
    {
        if i >= a.len() {
            if i >= b.len() {
                return Rank::Same;
            }
            return Rank::Before;
        }
        if i >= b.len() {
            return Rank::After;
        }
        if a[i] < b[i] {
            return Rank::Before;
        }
        if a[i] > b[i] {
            return Rank::After;
        }
        i += 1;
    }
}

/// Two lists that stand the same are the same list.
pub proof fn lemma_rank_same(a: Seq<u64>, b: Seq<u64>, from: int)
    requires
        0 <= from <= a.len(),
        from <= b.len(),
        rank_from(a, b, from) == Rank::Same,
    ensures
        a.len() == b.len(),
        forall|i: int| from <= i < a.len() ==> a[i] == b[i],
    decreases a.len() - from,
{
    if from < a.len() && from < b.len() {
        lemma_rank_same(a, b, from + 1);
    }
}

/// The place of the first entry from `from` on whose offsets do not stand
/// before `achieves`; the number of entries if there is none.
pub open spec fn place(entries: Seq<TableEntry>, achieves: Seq<u64>, from: int) -> int
    decreases entries.len() - from,
{
    if from < 0 || from >= entries.len() {
        entries.len() as int
    } else if rank(entries[from].achieves@, achieves) != Rank::Before {
        from
    } else {
        place(entries, achieves, from + 1)
    }
}

/// The entries with one more: it takes the place of the entry for the same
/// offsets, or stands before the first entry whose offsets come after its
/// own.
pub open spec fn entered_into(entries: Seq<TableEntry>, entry: TableEntry) -> Seq<TableEntry> {
    let at = place(entries, entry.achieves@, 0);
    if at < entries.len() && rank(entries[at].achieves@, entry.achieves@) == Rank::Same {
        entries.update(at, entry)
    } else {
        entries.insert(at, entry)
    }
}

/// The distance of two offsets of a register of the given order, the shorter
/// way round.
pub open spec fn torus_component(achieved: u64, target: u64, order: u64) -> nat {
    let apart = if achieved >= target {
        achieved - target
    } else {
        target - achieved
    };
    if apart > order / 2 {
        if order >= apart {
            (order - apart) as nat
        } else {
            0
        }
    } else {
        apart as nat
    }
}

/// The sum of the distances of the first `upto` registers.
pub open spec fn torus_distance(achieved: Seq<u64>, target: Seq<u64>, orders: Seq<u64>, upto: int) -> nat
    decreases upto,
{
    if upto <= 0 {
        0
    } else {
        torus_distance(achieved, target, orders, upto - 1) + torus_component(
            achieved[upto - 1],
            target[upto - 1],
            orders[upto - 1],
        )
    }
}

/// Whether the entry at `at` comes as close to the target as any entry, and
/// closer than every entry before it.
pub open spec fn is_closest(entries: Seq<TableEntry>, orders: Seq<u64>, target: Seq<u64>, at: int) -> bool {
    &&& 0 <= at < entries.len()
    &&& forall|k: int|
        0 <= k < entries.len() ==> torus_distance(
            entries[at].achieves@,
            target,
            orders,
            target.len() as int,
        ) <= torus_distance((#[trigger] entries[k]).achieves@, target, orders, target.len() as int)
    &&& forall|k: int|
        0 <= k < at ==> torus_distance(entries[at].achieves@, target, orders, target.len() as int)
            < torus_distance((#[trigger] entries[k]).achieves@, target, orders, target.len() as int)
}

/// Whether every offset is below the order of its register.
pub open spec fn offsets_in_range(offsets: Seq<u64>, orders: Seq<u64>) -> bool {
    &&& offsets.len() == orders.len()
    &&& forall|i: int| 0 <= i < offsets.len() ==> (#[trigger] offsets[i]) < orders[i]
}

proof fn lemma_torus_bound(achieved: Seq<u64>, target: Seq<u64>, orders: Seq<u64>, upto: int)
    requires
        0 <= upto <= orders.len(),
        achieved.len() == orders.len(),
        target.len() == orders.len(),
    ensures
        torus_distance(achieved, target, orders, upto) <= upto * 0x8000_0000_0000_0000,
    decreases upto,
{
    if upto > 0 {
        lemma_torus_bound(achieved, target, orders, upto - 1);
        assert(torus_component(achieved[upto - 1], target[upto - 1], orders[upto - 1])
            <= 0x8000_0000_0000_0000);
        assert(upto * 0x8000_0000_0000_0000 == (upto - 1) * 0x8000_0000_0000_0000
            + 0x8000_0000_0000_0000) by (nonlinear_arith);
    }
}

fn component(achieved: u64, target: u64, order: u64) -> (distance: u64)
    ensures
        distance == torus_component(achieved, target, order),
{
    let apart = if achieved >= target {
        achieved - target
    } else {
        target - achieved
    };
    if apart > order / 2 {
        if order >= apart {
            order - apart
        } else {
            0
        }
    } else {
        apart
    }
}

/// The torus distance of two tuples of offsets.
pub fn distance(achieved: &Vec<u64>, target: &[u64], orders: &Vec<u64>) -> (sum: u128)
    requires
        achieved@.len() == orders@.len(),
        target@.len() == orders@.len(),
    ensures
        sum == torus_distance(achieved@, target@, orders@, orders@.len() as int),
{
    let mut sum: u128 = 0;
    let mut i: usize = 0;
    while i < orders.len()
        invariant
            i <= orders@.len(),
            achieved@.len() == orders@.len(),
            target@.len() == orders@.len(),
            sum == torus_distance(achieved@, target@, orders@, i as int),
        decreases orders@.len() - i,
    {
        proof {
            lemma_torus_bound(achieved@, target@, orders@, i as int);
            lemma_torus_bound(achieved@, target@, orders@, i + 1);
            assert((i + 1) * 0x8000_0000_0000_0000 <= 0x1_0000_0000_0000_0000 * 0x8000_0000_0000_0000)
                by (nonlinear_arith)
                requires
                    i + 1 <= 0x1_0000_0000_0000_0000,
            ;
        }
        sum = sum + component(achieved[i], target[i], orders[i]) as u128;
        i += 1;
    }
    sum
}

impl DecodingTable {
    /// The orders of the registers.
    pub closed spec fn orders_view(&self) -> Seq<u64> {
        self.orders@
    }

    /// The entries, in the order of their offsets.
    pub closed spec fn entries(&self) -> Seq<TableEntry> {
        self.table@
    }

    /// What holds of every table: the offsets of each entry are below the
    /// orders of the registers, and the entries stand in the order of their
    /// offsets, none twice.
    pub open spec fn wf(&self) -> bool {
        &&& forall|k: int|
            0 <= k < self.entries().len() ==> offsets_in_range(
                (#[trigger] self.entries()[k]).achieves@,
                self.orders_view(),
            )
        &&& forall|j: int, k: int|
            0 <= j < k < self.entries().len() ==> rank(
                (#[trigger] self.entries()[j]).achieves@,
                (#[trigger] self.entries()[k]).achieves@,
            ) == Rank::Before
    }

    #[verifier::type_invariant]
    pub open spec fn inv(self) -> bool {
        self.wf()
    }

    /// The table without entries for registers of the given orders.
    pub fn new(orders: Vec<u64>) -> (table: DecodingTable)
        ensures
            table.orders_view() == orders@,
            table.entries().len() == 0,
    {
        DecodingTable { orders, table: Vec::new() }
    }

    /// The orders of the registers.
    pub fn orders(&self) -> (orders: &Vec<u64>)
        ensures
            orders@ == self.orders_view(),
    {
        &self.orders
    }

    /// The number of entries.
    pub fn len(&self) -> (count: usize)
        ensures
            count == self.entries().len(),
    {
        self.table.len()
    }

    /// The entry at a place.
    pub fn entry(&self, at: usize) -> (entry: &TableEntry)
        requires
            at < self.entries().len(),
        ensures
            *entry == self.entries()[at as int],
    {
        &self.table[at]
    }

    /// The place of the first entry whose offsets do not stand before
    /// `achieves`.
    fn place_of(&self, achieves: &Vec<u64>) -> (at: usize)
        ensures
            at <= self.entries().len(),
            at == place(self.entries(), achieves@, 0),
            forall|j: int| 0 <= j < at ==> rank((#[trigger] self.entries()[j]).achieves@, achieves@)
                == Rank::Before,
            at < self.entries().len() ==> rank(self.entries()[at as int].achieves@, achieves@)
                != Rank::Before,
    {
        let mut at: usize = 0;
        while at < self.table.len()
            invariant
                at <= self.table@.len(),
                place(self.table@, achieves@, 0) == place(self.table@, achieves@, at as int),
                forall|j: int| 0 <= j < at ==> rank((#[trigger] self.table@[j]).achieves@, achieves@)
                    == Rank::Before,
            decreases self.table@.len() - at,
        {
            match rank_of(&self.table[at].achieves, achieves) {
                Rank::Before => {},
                _ => {
                    return at;
                },
            }
            at += 1;
        }
        at
    }

    /// The place of the entry that comes as close to the target as possible:
    /// the first, in the order of the table, of those whose torus distance to the
    /// target is the least. There is none in a table without entries.
    pub fn closest_index(&self, target: &[u64]) -> (closest: Option<usize>)
        requires
            target@.len() == self.orders_view().len(),
        ensures
            match closest {
                Some(at) => is_closest(self.entries(), self.orders_view(), target@, at as int),
                None => self.entries().len() == 0,
            },
    {
        proof {
            use_type_invariant(self);
        }
        if self.table.len() == 0 {
            return None;
        }
        let ghost n = target@.len() as int;
        let mut best: usize = 0;
        assert(offsets_in_range(self.table@[0].achieves@, self.orders@));
        let mut best_distance = distance(&self.table[0].achieves, target, &self.orders);
        let mut k: usize = 1;
        while k < self.table.len()
            invariant
                1 <= k <= self.table@.len(),
                best < k,
                n == target@.len(),
                self.wf(),
                target@.len() == self.orders@.len(),
                best_distance == torus_distance(self.table@[best as int].achieves@, target@, self.orders@, n),
                forall|j: int|
                    0 <= j < k ==> best_distance <= torus_distance(
                        (#[trigger] self.table@[j]).achieves@,
                        target@,
                        self.orders@,
                        n,
                    ),
                forall|j: int|
                    0 <= j < best ==> best_distance < torus_distance(
                        (#[trigger] self.table@[j]).achieves@,
                        target@,
                        self.orders@,
                        n,
                    ),
            decreases self.table@.len() - k,
        {
            assert(offsets_in_range(self.table@[k as int].achieves@, self.orders@));
            let here = distance(&self.table[k].achieves, target, &self.orders);
            if here < best_distance {
                best = k;
                best_distance = here;
            }
            k += 1;
        }
        Some(best)
    }

    /// The entry that comes as close to the target as possible, with its
    /// offsets and its moves: the first, in the order of the table, of those
    /// whose torus distance to the target is the least. There is none in a table
    /// without entries.
    pub fn closest_alg(&self, target: &[u64]) -> (closest: Option<(&Vec<u64>, &Vec<usize>)>)
        requires
            target@.len() == self.orders_view().len(),
        ensures
            match closest {
                Some((achieves, alg)) => exists|at: int|
                    #[trigger] is_closest(self.entries(), self.orders_view(), target@, at) && *achieves
                        == self.entries()[at].achieves && *alg == self.entries()[at].alg,
                None => self.entries().len() == 0,
            },
    {
        match self.closest_index(target) {
            Some(at) => {
                let entry = &self.table[at];
                assert(is_closest(self.entries(), self.orders_view(), target@, at as int));
                Some((&entry.achieves, &entry.alg))
            },
            None => None,
        }
    }

    /// Enters a sequence of moves for the offsets that it achieves. It takes
    /// the place of an entry for the same offsets. Nothing is entered if the
    /// offsets are not below the orders of the registers.
    pub fn insert(&mut self, achieves: Vec<u64>, alg: Vec<usize>) -> (entered: bool)
        ensures
            final(self).orders_view() == old(self).orders_view(),
            entered == offsets_in_range(achieves@, old(self).orders_view()),
            !entered ==> final(self).entries() == old(self).entries(),
            entered ==> final(self).entries() == entered_into(
                old(self).entries(),
                TableEntry { achieves, alg },
            ),
    {
        proof {
            use_type_invariant(&*self);
        }
        if achieves.len() != self.orders.len() {
            return false;
        }
        let mut i: usize = 0;
        while i < achieves.len()
            invariant
                i <= achieves@.len(),
                achieves@.len() == self.orders@.len(),
                forall|j: int| 0 <= j < i ==> (#[trigger] achieves@[j]) < self.orders@[j],
            decreases achieves@.len() - i,
        {
            if achieves[i] >= self.orders[i] {
                return false;
            }
            i += 1;
        }
        let at = self.place_of(&achieves);
        let ghost before = self.table@;
        let replace = at < self.table.len() && match rank_of(&self.table[at].achieves, &achieves) {
            Rank::Same => true,
            _ => false,
        };
        let mut table: Vec<TableEntry> = Vec::new();
        std::mem::swap(&mut table, &mut self.table);
        if replace {
            proof {
                lemma_rank_same(before[at as int].achieves@, achieves@, 0);
                assert(before[at as int].achieves@ =~= achieves@);
            }
            table[at] = TableEntry { achieves, alg };
            proof {
                assert forall|j: int, k: int| 0 <= j < k < table@.len() implies rank(
                    (#[trigger] table@[j]).achieves@,
                    (#[trigger] table@[k]).achieves@,
                ) == Rank::Before by {
                    assert(table@[j].achieves@ == before[j].achieves@);
                    assert(table@[k].achieves@ == before[k].achieves@);
                    assert(rank(before[j].achieves@, before[k].achieves@) == Rank::Before);
                }
            }
        } else {
            table.insert(at, TableEntry { achieves, alg });
            proof {
                assert forall|j: int, k: int| 0 <= j < k < table@.len() implies rank(
                    (#[trigger] table@[j]).achieves@,
                    (#[trigger] table@[k]).achieves@,
                ) == Rank::Before by {
                    let new = table@[at as int].achieves@;
                    if k < at {
                        assert(table@[j] == before[j] && table@[k] == before[k]);
                        assert(rank(before[j].achieves@, before[k].achieves@) == Rank::Before);
                    } else if k == at {
                        assert(table@[j] == before[j]);
                    } else if j == at {
                        assert(table@[k] == before[k - 1]);
                        if k - 1 > at {
                            assert(rank(before[at as int].achieves@, before[k - 1].achieves@)
                                == Rank::Before);
                            lemma_rank_after(new, before[at as int].achieves@, before[k - 1].achieves@);
                        } else {
                            lemma_rank_flip(before[at as int].achieves@, new, 0);
                        }
                    } else if j < at {
                        assert(table@[j] == before[j] && table@[k] == before[k - 1]);
                        assert(rank(before[j].achieves@, before[k - 1].achieves@) == Rank::Before);
                    } else {
                        assert(table@[j] == before[j - 1] && table@[k] == before[k - 1]);
                        assert(rank(before[j - 1].achieves@, before[k - 1].achieves@) == Rank::Before);
                    }
                }
            }
        }
        self.table = table;
        true
    }
}

/// If `b` does not stand before `a`, and is not the same, `a` stands before
/// `b`.
pub proof fn lemma_rank_flip(b: Seq<u64>, a: Seq<u64>, from: int)
    requires
        0 <= from,
    ensures
        rank_from(b, a, from) == Rank::After <==> rank_from(a, b, from) == Rank::Before,
        rank_from(b, a, from) == Rank::Same <==> rank_from(a, b, from) == Rank::Same,
    decreases a.len() + b.len() - from,
{
    if from < a.len() && from < b.len() && a[from] == b[from] {
        lemma_rank_flip(b, a, from + 1);
    }
}

/// If `a` is at or before `b`, and `b` stands before `c`, then `a` stands
/// before `c`.
pub proof fn lemma_rank_after(a: Seq<u64>, b: Seq<u64>, c: Seq<u64>)
    requires
        rank(b, a) != Rank::Before,
        rank(b, c) == Rank::Before,
    ensures
        rank(a, c) == Rank::Before,
{
    lemma_rank_flip(b, a, 0);
    lemma_rank_chain(a, b, c, 0);
}

proof fn lemma_rank_chain(a: Seq<u64>, b: Seq<u64>, c: Seq<u64>, from: int)
    requires
        0 <= from,
        rank_from(a, b, from) != Rank::After,
        rank_from(b, c, from) == Rank::Before,
    ensures
        rank_from(a, c, from) == Rank::Before,
    decreases a.len() + b.len() + c.len() - from,
{
    if from < a.len() && from < b.len() && from < c.len() && a[from] == b[from] && b[from] == c[from] {
        lemma_rank_chain(a, b, c, from + 1);
    }
}

/// Whether every register has an order.
pub open spec fn orders_positive(orders: Seq<u64>) -> bool {
    forall|i: int| 0 <= i < orders.len() ==> #[trigger] orders[i] != 0
}

/// The offsets that an effect asks for: for each register that it names, the
/// last amount given for it, modulo the order of the register; zero for the
/// others. There are none if a register has no order, or if the effect names a
/// register that does not exist.
pub open spec fn expanded_effect(effect: Seq<(usize, u64)>, orders: Seq<u64>, upto: int) -> Option<
    Seq<u64>,
>
    decreases upto,
{
    if upto <= 0 {
        if orders_positive(orders) {
            Some(Seq::new(orders.len(), |i: int| 0u64))
        } else {
            None
        }
    } else {
        match expanded_effect(effect, orders, upto - 1) {
            Some(before) => {
                let (register, amt) = effect[upto - 1];
                if register < orders.len() && orders[register as int] != 0 {
                    Some(before.update(register as int, amt % orders[register as int]))
                } else {
                    None
                }
            },
            None => None,
        }
    }
}

/// The sum of the offsets of the register `register` over the picked entries.
pub open spec fn picked_sum(entries: Seq<TableEntry>, picks: Seq<int>, register: int, upto: int) -> int
    decreases upto,
{
    if upto <= 0 {
        0
    } else {
        picked_sum(entries, picks, register, upto - 1) + entries[picks[upto - 1]].achieves@[register]
    }
}

/// The moves of the picked entries, one entry after the other.
pub open spec fn picked_moves(entries: Seq<TableEntry>, picks: Seq<int>, upto: int) -> Seq<usize>
    decreases upto,
{
    if upto <= 0 {
        Seq::empty()
    } else {
        picked_moves(entries, picks, upto - 1) + entries[picks[upto - 1]].alg@
    }
}

/// Whether the picked entries together achieve the offsets: for every
/// register, the sum of their offsets is the wanted offset modulo the order of
/// the register.
#[verifier::opaque]
pub open spec fn picks_achieve(
    entries: Seq<TableEntry>,
    orders: Seq<u64>,
    picks: Seq<int>,
    wanted: Seq<u64>,
) -> bool {
    &&& forall|p: int| 0 <= p < picks.len() ==> 0 <= #[trigger] picks[p] < entries.len()
    &&& forall|i: int|
        0 <= i < orders.len() ==> #[trigger] picked_sum(entries, picks, i, picks.len() as int)
            % (orders[i] as int) == wanted[i]
}

/// Whether the moves are those of entries of the table, one entry after the
/// other, that together achieve the wanted offsets.
pub open spec fn is_put_together(
    moves: Seq<usize>,
    entries: Seq<TableEntry>,
    orders: Seq<u64>,
    wanted: Seq<u64>,
) -> bool {
    exists|picks: Seq<int>|
        #[trigger] picks_achieve(entries, orders, picks, wanted) && moves == picked_moves(
            entries,
            picks,
            picks.len() as int,
        )
}

/// What `new_from_effect` owes for the offsets that an effect asks for: no
/// algorithm if there are none; else an algorithm of the group that is put
/// together from entries of the table and achieves them, or none, which it may
/// only do if an offset is wanted at all.
pub open spec fn is_effect_outcome(
    algorithm: Option<Algorithm>,
    group: Arc<PermutationGroup>,
    entries: Seq<TableEntry>,
    orders: Seq<u64>,
    asked: Option<Seq<u64>>,
) -> bool {
    match asked {
        None => algorithm is None,
        Some(wanted) => match algorithm {
            Some(found) => found.group_view() == group && is_put_together(
                found.moves_view(),
                entries,
                orders,
                wanted,
            ),
            None => !nothing_wanted(wanted),
        },
    }
}

/// Whether every offset is zero.
pub open spec fn nothing_wanted(wanted: Seq<u64>) -> bool {
    forall|i: int| 0 <= i < wanted.len() ==> #[trigger] wanted[i] == 0
}

fn expand_effect(effect: &Vec<(usize, u64)>, orders: &Vec<u64>) -> (expanded: Option<Vec<u64>>)
    ensures
        match expanded {
            Some(offsets) => expanded_effect(effect@, orders@, effect@.len() as int) == Some(offsets@)
                && offsets_in_range(offsets@, orders@) && orders_positive(orders@),
            None => expanded_effect(effect@, orders@, effect@.len() as int) is None,
        },
{
    let mut offsets: Vec<u64> = Vec::new();
    let mut i: usize = 0;
    while i < orders.len()
        invariant
            i <= orders@.len(),
            offsets@.len() == i,
            forall|j: int| 0 <= j < i ==> #[trigger] offsets@[j] == 0,
            forall|j: int| 0 <= j < i ==> #[trigger] orders@[j] != 0,
        decreases orders@.len() - i,
    {
        if orders[i] == 0 {
            proof {
                lemma_expand_fails(effect@, orders@, 0, effect@.len() as int);
            }
            return None;
        }
        offsets.push(0);
        i += 1;
    }
    assert(offsets@ =~= Seq::new(orders@.len(), |i: int| 0u64));
    let mut k: usize = 0;
    while k < effect.len()
        invariant
            k <= effect@.len(),
            offsets@.len() == orders@.len(),
            orders_positive(orders@),
            expanded_effect(effect@, orders@, k as int) == Some(offsets@),
            offsets_in_range(offsets@, orders@),
        decreases effect@.len() - k,
    {
        let (register, amt) = effect[k];
        if register >= orders.len() || orders[register] == 0 {
            proof {
                lemma_expand_fails(effect@, orders@, k as int + 1, effect@.len() as int);
            }
            return None;
        }
        offsets[register] = amt % orders[register];
        k += 1;
    }
    Some(offsets)
}

proof fn lemma_expand_fails(effect: Seq<(usize, u64)>, orders: Seq<u64>, at: int, upto: int)
    requires
        0 <= at <= upto,
        expanded_effect(effect, orders, at) is None,
    ensures
        expanded_effect(effect, orders, upto) is None,
    decreases upto - at,
{
    if at < upto {
        lemma_expand_fails(effect, orders, at, upto - 1);
    }
}

fn all_zero(offsets: &Vec<u64>) -> (zero: bool)
    ensures
        zero == forall|i: int| 0 <= i < offsets@.len() ==> #[trigger] offsets@[i] == 0,
{
    let mut i: usize = 0;
    while i < offsets.len()
        invariant
            i <= offsets@.len(),
            forall|j: int| 0 <= j < i ==> #[trigger] offsets@[j] == 0,
        decreases offsets@.len() - i,
    {
        if offsets[i] != 0 {
            return false;
        }
        i += 1;
    }
    true
}

/// The offsets that are left once `achieved` is taken off `wanted`, each
/// modulo the order of its register.
pub open spec fn offsets_left(wanted: Seq<u64>, achieved: Seq<u64>, orders: Seq<u64>) -> Seq<u64> {
    Seq::new(
        wanted.len(),
        |i: int|
            if wanted[i] < achieved[i] {
                (wanted[i] + orders[i] - achieved[i]) as u64
            } else {
                (wanted[i] - achieved[i]) as u64
            },
    )
}

fn take_off(wanted: &Vec<u64>, achieved: &Vec<u64>, orders: &Vec<u64>) -> (left: Vec<u64>)
    requires
        offsets_in_range(wanted@, orders@),
        offsets_in_range(achieved@, orders@),
    ensures
        left@ == offsets_left(wanted@, achieved@, orders@),
        offsets_in_range(left@, orders@),
{
    let mut left: Vec<u64> = Vec::new();
    let mut i: usize = 0;
    while i < wanted.len()
        invariant
            i <= wanted@.len(),
            offsets_in_range(wanted@, orders@),
            offsets_in_range(achieved@, orders@),
            left@ == offsets_left(wanted@, achieved@, orders@).take(i as int),
            forall|j: int| 0 <= j < i ==> (#[trigger] left@[j]) < orders@[j],
        decreases wanted@.len() - i,
    {
        let value = if wanted[i] < achieved[i] {
            orders[i] - achieved[i] + wanted[i]
        } else {
            wanted[i] - achieved[i]
        };
        left.push(value);
        assert(left@ =~= offsets_left(wanted@, achieved@, orders@).take(i + 1));
        i += 1;
    }
    assert(left@ =~= offsets_left(wanted@, achieved@, orders@));
    left
}

fn zeros(count: usize) -> (list: Vec<u64>)
    ensures
        list@.len() == count,
        forall|i: int| 0 <= i < count ==> #[trigger] list@[i] == 0,
{
    let mut list: Vec<u64> = Vec::new();
    let mut i: usize = 0;
    while i < count
        invariant
            i <= count,
            list@.len() == i,
            forall|j: int| 0 <= j < i ==> #[trigger] list@[j] == 0,
        decreases count - i,
    {
        list.push(0);
        i += 1;
    }
    list
}

/// Whether the picked entries and what is left together make up the wanted
/// offsets, modulo the orders of the registers.
#[verifier::opaque]
pub open spec fn sums_match(
    entries: Seq<TableEntry>,
    orders: Seq<u64>,
    picks: Seq<int>,
    left: Seq<u64>,
    wanted: Seq<u64>,
) -> bool {
    &&& forall|p: int| 0 <= p < picks.len() ==> 0 <= #[trigger] picks[p] < entries.len()
    &&& forall|i: int|
        0 <= i < orders.len() ==> (#[trigger] picked_sum(entries, picks, i, picks.len() as int) + left[i])
            % (orders[i] as int) == wanted[i]
}

proof fn lemma_sums_start(entries: Seq<TableEntry>, orders: Seq<u64>, wanted: Seq<u64>)
    requires
        offsets_in_range(wanted, orders),
    ensures
        sums_match(entries, orders, Seq::empty(), wanted, wanted),
{
    reveal(sums_match);
    assert forall|i: int| 0 <= i < orders.len() implies (#[trigger] picked_sum(
        entries,
        Seq::<int>::empty(),
        i,
        0,
    ) + wanted[i]) % (orders[i] as int) == wanted[i] by {
        vstd::arithmetic::div_mod::lemma_small_mod(wanted[i] as nat, orders[i] as nat);
    }
}

proof fn lemma_sums_step(
    entries: Seq<TableEntry>,
    orders: Seq<u64>,
    picks: Seq<int>,
    at: int,
    left: Seq<u64>,
    wanted: Seq<u64>,
)
    requires
        sums_match(entries, orders, picks, left, wanted),
        0 <= at < entries.len(),
        offsets_in_range(left, orders),
        offsets_in_range(entries[at].achieves@, orders),
    ensures
        sums_match(
            entries,
            orders,
            picks.push(at),
            offsets_left(left, entries[at].achieves@, orders),
            wanted,
        ),
        picked_moves(entries, picks.push(at), picks.len() as int + 1) == picked_moves(
            entries,
            picks,
            picks.len() as int,
        ) + entries[at].alg@,
{
    reveal(sums_match);
    let grown = picks.push(at);
    let rest = offsets_left(left, entries[at].achieves@, orders);
    assert forall|i: int| 0 <= i < orders.len() implies (#[trigger] picked_sum(
        entries,
        grown,
        i,
        grown.len() as int,
    ) + rest[i]) % (orders[i] as int) == wanted[i] by {
        lemma_picked_prefix(entries, picks, grown, i, picks.len() as int);
        let before = picked_sum(entries, picks, i, picks.len() as int);
        let a = entries[at].achieves@[i];
        let order = orders[i] as int;
        assert((before + left[i]) % order == wanted[i]);
        assert(picked_sum(entries, grown, i, grown.len() as int) == before + a);
        if left[i] < a {
            assert(before + a + rest[i] == order * 1 + (before + left[i]));
            vstd::arithmetic::div_mod::lemma_mod_multiples_vanish(1, before + left[i], order);
        } else {
            assert(before + a + rest[i] == before + left[i]);
        }
    }
    lemma_moves_prefix(entries, picks, grown, picks.len() as int);
}

proof fn lemma_sums_end(
    entries: Seq<TableEntry>,
    orders: Seq<u64>,
    picks: Seq<int>,
    left: Seq<u64>,
    wanted: Seq<u64>,
)
    requires
        sums_match(entries, orders, picks, left, wanted),
        left.len() == orders.len(),
        forall|i: int| 0 <= i < left.len() ==> #[trigger] left[i] == 0,
    ensures
        picks_achieve(entries, orders, picks, wanted),
{
    reveal(sums_match);
    reveal(picks_achieve);
    assert forall|i: int| 0 <= i < orders.len() implies #[trigger] picked_sum(
        entries,
        picks,
        i,
        picks.len() as int,
    ) % (orders[i] as int) == wanted[i] by {
        assert(left[i] == 0);
        assert((picked_sum(entries, picks, i, picks.len() as int) + left[i]) % (orders[i] as int)
            == wanted[i]);
    }
}

/// The place of the entry that comes closest to a target.
pub open spec fn closest_place(entries: Seq<TableEntry>, orders: Seq<u64>, target: Seq<u64>) -> int {
    choose|at: int| is_closest(entries, orders, target, at)
}

/// How far offsets are from nothing.
pub open spec fn norm_of(left: Seq<u64>, orders: Seq<u64>) -> nat {
    torus_distance(left, Seq::new(orders.len(), |i: int| 0u64), orders, orders.len() as int)
}

/// The entries that are taken, one after the other, for offsets that are
/// wanted: again and again the entry that comes closest to what is still
/// wanted, until nothing is wanted. There are none if the table has no entry,
/// or if at some time the closest entry does not bring what is wanted closer
/// to nothing.
pub open spec fn greedy_picks(entries: Seq<TableEntry>, orders: Seq<u64>, left: Seq<u64>) -> Option<Seq<int>>
    decreases norm_of(left, orders),
{
    if nothing_wanted(left) {
        Some(Seq::empty())
    } else if entries.len() == 0 {
        None
    } else {
        let at = closest_place(entries, orders, left);
        let rest = offsets_left(left, entries[at].achieves@, orders);
        if norm_of(rest, orders) >= norm_of(left, orders) {
            None
        } else {
            match greedy_picks(entries, orders, rest) {
                Some(more) => Some(seq![at] + more),
                None => None,
            }
        }
    }
}

/// Picks before picks that may be missing.
pub open spec fn picks_before(picks: Seq<int>, more: Option<Seq<int>>) -> Option<Seq<int>> {
    match more {
        Some(more) => Some(picks + more),
        None => None,
    }
}

/// What `new_from_effect` gives for offsets that are wanted: the moves of the
/// entries that are taken for them, as an algorithm of the group. There is
/// none if no entries can be taken, or if one of them holds a move that the
/// group does not have.
pub open spec fn is_greedy_outcome(
    algorithm: Option<Algorithm>,
    group: Arc<PermutationGroup>,
    entries: Seq<TableEntry>,
    orders: Seq<u64>,
    asked: Option<Seq<u64>>,
) -> bool {
    match asked {
        None => algorithm is None,
        Some(wanted) => match greedy_picks(entries, orders, wanted) {
            None => algorithm is None,
            Some(picks) => {
                let moves = picked_moves(entries, picks, picks.len() as int);
                if moves_valid(group.generators_view(), moves) {
                    algorithm matches Some(found) && found.group_view() == group && found.moves_view() == moves
                } else {
                    algorithm is None
                }
            },
        },
    }
}

/// One entry alone is the closest to a target.
pub proof fn lemma_closest_unique(entries: Seq<TableEntry>, orders: Seq<u64>, target: Seq<u64>, at: int)
    requires
        is_closest(entries, orders, target, at),
    ensures
        closest_place(entries, orders, target) == at,
{
    let other = closest_place(entries, orders, target);
    assert(is_closest(entries, orders, target, other));
    if other < at {
        assert(torus_distance(entries[at].achieves@, target, orders, target.len() as int) < torus_distance(
            entries[other].achieves@,
            target,
            orders,
            target.len() as int,
        ));
        assert(torus_distance(entries[other].achieves@, target, orders, target.len() as int)
            <= torus_distance(entries[at].achieves@, target, orders, target.len() as int));
    }
    if at < other {
        assert(torus_distance(entries[other].achieves@, target, orders, target.len() as int)
            < torus_distance(entries[at].achieves@, target, orders, target.len() as int));
        assert(torus_distance(entries[at].achieves@, target, orders, target.len() as int) <= torus_distance(
            entries[other].achieves@,
            target,
            orders,
            target.len() as int,
        ));
    }
}

/// Puts an algorithm together that adds the given amounts to the given
/// registers, from entries of the table.
///
/// Again and again the entry that comes closest to what is still wanted is
/// taken, until nothing is wanted any more. There is no algorithm if the effect
/// names a register that does not exist, if a register has no order, if the
/// table runs out of entries that bring the rest closer to zero, or if an entry
/// holds a move that the group does not have.
pub fn new_from_effect(group: Arc<PermutationGroup>, table: &DecodingTable, effect: Vec<(usize, u64)>) -> (algorithm:
    Option<Algorithm>)
    ensures
        is_effect_outcome(
            algorithm,
            group,
            table.entries(),
            table.orders_view(),
            expanded_effect(effect@, table.orders_view(), effect@.len() as int),
        ),
        is_greedy_outcome(
            algorithm,
            group,
            table.entries(),
            table.orders_view(),
            expanded_effect(effect@, table.orders_view(), effect@.len() as int),
        ),
{
    proof {
        use_type_invariant(table);
    }
    let orders = table.orders();
    let mut left = match expand_effect(&effect, orders) {
        Some(offsets) => offsets,
        None => {
            return None;
        },
    };
    let ghost wanted = left@;
    let ghost entries = table.entries();
    let nothing = zeros(orders.len());
    let mut moves: Vec<usize> = Vec::new();
    let ghost mut picks: Seq<int> = Seq::empty();
    proof {
        lemma_sums_start(entries, orders@, wanted);
    }
    assert(nothing@ =~= Seq::new(orders@.len(), |i: int| 0u64));
    if all_zero(&left) {
        proof {
            lemma_sums_end(entries, orders@, picks, left@, wanted);
            assert(moves@ =~= picked_moves(entries, picks, picks.len() as int));
            assert(is_put_together(moves@, entries, orders@, wanted));
            assert(greedy_picks(entries, orders@, wanted) == Some(picks));
        }
        return Algorithm::from_moves(group, moves);
    }
    assert(!nothing_wanted(wanted));
    let mut norm = distance(&left, nothing.as_slice(), orders);
    assert(picks + Seq::<int>::empty() =~= picks);
    while !all_zero(&left)
        invariant
            table.wf(),
            entries == table.entries(),
            orders@ == table.orders_view(),
            offsets_in_range(left@, orders@),
            !nothing_wanted(wanted),
            expanded_effect(effect@, table.orders_view(), effect@.len() as int) == Some(wanted),
            nothing@ == Seq::new(orders@.len(), |i: int| 0u64),
            norm == norm_of(left@, orders@),
            greedy_picks(entries, orders@, wanted) == picks_before(picks, greedy_picks(entries, orders@, left@)),
            moves@ == picked_moves(entries, picks, picks.len() as int),
            sums_match(entries, orders@, picks, left@, wanted),
        decreases norm,
    {
        let at = match table.closest_index(left.as_slice()) {
            Some(at) => at,
            None => {
                return None;
            },
        };
        let entry = table.entry(at);
        assert(offsets_in_range(entries[at as int].achieves@, orders@));
        proof {
            lemma_closest_unique(entries, orders@, left@, at as int);
        }
        let rest = take_off(&left, &entry.achieves, orders);
        let rest_norm = distance(&rest, nothing.as_slice(), orders);
        if rest_norm >= norm {
            return None;
        }
        append_moves(&mut moves, &entry.alg);
        proof {
            lemma_sums_step(entries, orders@, picks, at as int, left@, wanted);
            let more = greedy_picks(entries, orders@, rest@);
            if more is Some {
                assert(picks + (seq![at as int] + more.unwrap()) =~= picks.push(at as int) + more.unwrap());
            }
            picks = picks.push(at as int);
        }
        left = rest;
        norm = rest_norm;
    }
    proof {
        lemma_sums_end(entries, orders@, picks, left@, wanted);
        assert(is_put_together(moves@, entries, orders@, wanted));
        assert(picks + Seq::<int>::empty() =~= picks);
    }
    Algorithm::from_moves(group, moves)
}

proof fn lemma_picked_prefix(entries: Seq<TableEntry>, a: Seq<int>, b: Seq<int>, register: int, upto: int)
    requires
        0 <= upto <= a.len(),
        upto <= b.len(),
        forall|p: int| 0 <= p < upto ==> a[p] == b[p],
    ensures
        picked_sum(entries, a, register, upto) == picked_sum(entries, b, register, upto),
    decreases upto,
{
    if upto > 0 {
        lemma_picked_prefix(entries, a, b, register, upto - 1);
    }
}

proof fn lemma_moves_prefix(entries: Seq<TableEntry>, a: Seq<int>, b: Seq<int>, upto: int)
    requires
        0 <= upto <= a.len(),
        upto <= b.len(),
        forall|p: int| 0 <= p < upto ==> a[p] == b[p],
    ensures
        picked_moves(entries, a, upto) == picked_moves(entries, b, upto),
    decreases upto,
{
    if upto > 0 {
        lemma_moves_prefix(entries, a, b, upto - 1);
    }
}

} // verus!
