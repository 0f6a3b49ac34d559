//! Choosing the facelets by which a register is read.
//!
//! A register is decoded from some of the cycles of its generator. Cycles whose
//! order adds nothing to the modulus that is asked for are left out, smallest
//! first; of the cycles that are kept, the facelets that show one color along
//! their cycle are chosen, piece by piece.
use crate::architectures::{subcycle_orders, CycleGenerator, CycleGeneratorSubcycle};
use crate::numbers::{
    all_among, lcm_iter, lcm_seq, lemma_divide_each_other, lemma_lcm_seq_least, lemma_lcm_seq_multiple,
    lemma_lcm_seq_same, lemma_lcm_seq_zero,
};
use vstd::prelude::*;

verus! {

/// The facelets by which a register is decoded and found solved, the pieces
/// that they lie on, and the modulus to which they give the register.
#[derive(Debug)]
pub struct Facelets {
    pub facelets: Vec<usize>,
    pub pieces: Vec<String>,
    pub modulus: u64,
}

impl Facelets {
    pub fn new(facelets: Vec<usize>, pieces: Vec<String>, modulus: u64) -> (made: Facelets)
        ensures
            made.facelets == facelets,
            made.pieces == pieces,
            made.modulus == modulus,
    {
        Facelets { facelets, pieces, modulus }
    }

    /// The facelets.
    pub fn facelets(&self) -> (facelets: &[usize])
        ensures
            facelets@ == self.facelets@,
    {
        self.facelets.as_slice()
    }

    /// The pieces that the facelets lie on.
    pub fn pieces(&self) -> (pieces: &[String])
        ensures
            pieces@ == self.pieces@,
    {
        self.pieces.as_slice()
    }

    /// The modulus to which the facelets give the register.
    pub fn modulus(&self) -> (modulus: u64)
        ensures
            modulus == self.modulus,
    {
        self.modulus
    }
}

/// The cycles among the first `upto` whose order is above one and divides the
/// modulus, each as its order and its place in the list.
pub open spec fn candidates(cycles: Seq<CycleGeneratorSubcycle>, modulus: u64, upto: int) -> Seq<(u64, usize)>
    decreases upto,
{
    if upto <= 0 {
        Seq::empty()
    } else {
        let before = candidates(cycles, modulus, upto - 1);
        let order = cycles[upto - 1].chromatic_order;
        if order > 1 && modulus % order == 0 {
            before.push((order, (upto - 1) as usize))
        } else {
            before
        }
    }
}

/// The orders of a list of cycles.
pub open spec fn orders_of(picked: Seq<(u64, usize)>) -> Seq<u64> {
    Seq::new(picked.len(), |i: int| picked[i].0)
}

/// Whether every cycle of the list is one of the first `count` cycles, with an
/// order that is not zero.
pub open spec fn all_known(picked: Seq<(u64, usize)>, count: nat) -> bool {
    forall|i: int| 0 <= i < picked.len() ==> (#[trigger] picked[i]).1 < count && picked[i].0 != 0
}

/// A list in ascending order with one more cycle: it stands behind all that
/// have no larger order.
pub open spec fn entered(sorted: Seq<(u64, usize)>, entry: (u64, usize)) -> Seq<(u64, usize)>
    decreases sorted.len(),
{
    if sorted.len() == 0 || sorted.last().0 <= entry.0 {
        sorted.push(entry)
    } else {
        entered(sorted.drop_last(), entry).push(sorted.last())
    }
}

/// The first `upto` cycles of a list by ascending order; cycles of one order
/// stay as they stood.
pub open spec fn ascending(picked: Seq<(u64, usize)>, upto: int) -> Seq<(u64, usize)>
    decreases upto,
{
    if upto <= 0 {
        Seq::empty()
    } else {
        entered(ascending(picked, upto - 1), picked[upto - 1])
    }
}

/// The cycles that are kept among the first `upto` of a list: a cycle is kept
/// if the cycles kept before it and the cycles behind it do not reach the
/// modulus without it.
pub open spec fn needed(sorted: Seq<(u64, usize)>, modulus: u64, upto: int) -> Seq<(u64, usize)>
    decreases upto,
{
    if upto <= 0 {
        Seq::empty()
    } else {
        let kept = needed(sorted, modulus, upto - 1);
        let others = orders_of(kept) + orders_of(sorted.skip(upto));
        if lcm_seq(others) != modulus {
            kept.push(sorted[upto - 1])
        } else {
            kept
        }
    }
}

/// The cycles by which a register is read to the modulus, if the cycles whose
/// order divides the modulus reach it.
pub open spec fn chosen_cycles(cycles: Seq<CycleGeneratorSubcycle>, modulus: u64) -> Option<Seq<(u64, usize)>> {
    let all = candidates(cycles, modulus, cycles.len() as int);
    if lcm_seq(orders_of(all)) == modulus {
        let sorted = ascending(all, all.len() as int);
        Some(needed(sorted, modulus, sorted.len() as int))
    } else {
        None
    }
}

proof fn lemma_entered(sorted: Seq<(u64, usize)>, entry: (u64, usize), at: int)
    requires
        0 <= at <= sorted.len(),
        forall|j: int| at <= j < sorted.len() ==> (#[trigger] sorted[j]).0 > entry.0,
        at > 0 ==> sorted[at - 1].0 <= entry.0,
    ensures
        entered(sorted, entry) == sorted.insert(at, entry),
    decreases sorted.len(),
{
    if at == sorted.len() {
        assert(sorted.insert(at, entry) =~= sorted.push(entry));
    } else {
        assert(sorted.last().0 > entry.0);
        lemma_entered(sorted.drop_last(), entry, at);
        assert(sorted.drop_last().insert(at, entry).push(sorted.last()) =~= sorted.insert(at, entry));
    }
}

fn collect_candidates(cycles: &Vec<CycleGeneratorSubcycle>, modulus: u64) -> (all: Vec<(u64, usize)>)
    ensures
        all@ == candidates(cycles@, modulus, cycles@.len() as int),
        all_known(all@, cycles@.len()),
{
    let mut all: Vec<(u64, usize)> = Vec::new();
    let mut i: usize = 0;
    while i < cycles.len()
        invariant
            i <= cycles@.len(),
            all@ == candidates(cycles@, modulus, i as int),
            all_known(all@, cycles@.len()),
        decreases cycles@.len() - i,
    {
        let order: u64 = cycles[i].chromatic_order;
        if order > 1 && modulus % order == 0 {
            all.push((order, i));
        }
        i += 1;
    }
    all
}

fn orders_in(picked: &Vec<(u64, usize)>) -> (orders: Vec<u64>)
    ensures
        orders@ == orders_of(picked@),
{
    let mut orders: Vec<u64> = Vec::new();
    let mut i: usize = 0;
    while i < picked.len()
        invariant
            i <= picked@.len(),
            orders@ == orders_of(picked@.take(i as int)),
        decreases picked@.len() - i,
    {
        orders.push(picked[i].0);
        assert(orders@ =~= orders_of(picked@.take(i + 1)));
        i += 1;
    }
    assert(picked@.take(picked@.len() as int) =~= picked@);
    orders
}

fn sort_ascending(picked: &Vec<(u64, usize)>, Ghost(count): Ghost<nat>) -> (sorted: Vec<(u64, usize)>)
    requires
        all_known(picked@, count),
    ensures
        sorted@ == ascending(picked@, picked@.len() as int),
        sorted@.len() == picked@.len(),
        all_known(sorted@, count),
{
    let mut sorted: Vec<(u64, usize)> = Vec::new();
    let mut i: usize = 0;
    while i < picked.len()
        invariant
            i <= picked@.len(),
            sorted@ == ascending(picked@, i as int),
            sorted@.len() == i,
            all_known(picked@, count),
            all_known(sorted@, count),
        decreases picked@.len() - i,
    {
        let entry = picked[i];
        let mut at: usize = sorted.len();
        while at > 0 && sorted[at - 1].0 > entry.0
            invariant
                at <= sorted@.len(),
                forall|j: int| at <= j < sorted@.len() ==> (#[trigger] sorted@[j]).0 > entry.0,
            decreases at,
        {
            at -= 1;
        }
        proof {
            lemma_entered(sorted@, entry, at as int);
        }
        let ghost before = sorted@;
        sorted.insert(at, entry);
        proof {
            assert forall|j: int| 0 <= j < sorted@.len() implies (#[trigger] sorted@[j]).1 < count
                && sorted@[j].0 != 0 by {
                if j < at {
                    assert(sorted@[j] == before[j]);
                } else if j > at {
                    assert(sorted@[j] == before[j - 1]);
                } else {
                    assert(sorted@[j] == picked@[i as int]);
                }
            }
        }
        i += 1;
    }
    sorted
}

fn keep_needed(sorted: &Vec<(u64, usize)>, modulus: u64, Ghost(count): Ghost<nat>) -> (kept: Vec<(u64, usize)>)
    requires
        all_known(sorted@, count),
    ensures
        kept@ == needed(sorted@, modulus, sorted@.len() as int),
        all_known(kept@, count),
{
    let mut kept: Vec<(u64, usize)> = Vec::new();
    let mut i: usize = 0;
    while i < sorted.len()
        invariant
            i <= sorted@.len(),
            kept@ == needed(sorted@, modulus, i as int),
            all_known(sorted@, count),
            all_known(kept@, count),
        decreases sorted@.len() - i,
    {
        let mut others: Vec<u64> = orders_in(&kept);
        let mut j: usize = i + 1;
        while j < sorted.len()
            invariant
                i < j <= sorted@.len(),
                others@ == orders_of(kept@) + orders_of(sorted@.subrange(i + 1, j as int)),
            decreases sorted@.len() - j,
        {
            others.push(sorted[j].0);
            assert(others@ =~= orders_of(kept@) + orders_of(sorted@.subrange(i + 1, j + 1)));
            j += 1;
        }
        assert(sorted@.subrange(i + 1, sorted@.len() as int) =~= sorted@.skip(i + 1));
        let reached = match lcm_iter(others.as_slice()) {
            Some(l) => l == modulus,
            None => false,
        };
        if !reached {
            kept.push(sorted[i]);
        }
        i += 1;
    }
    kept
}

/// The cycle that holds a facelet, among the first `upto` cycles that are
/// kept: the last of them that holds it.
pub open spec fn owner(cycles: Seq<CycleGeneratorSubcycle>, kept: Seq<(u64, usize)>, facelet: usize, upto: int) -> Option<
    usize,
>
    decreases upto,
{
    if upto <= 0 {
        None
    } else if cycles[kept[upto - 1].1 as int].facelet_cycle@.contains(facelet) {
        Some(kept[upto - 1].1)
    } else {
        owner(cycles, kept, facelet, upto - 1)
    }
}

/// For each of `count` facelets, the kept cycle that holds it.
pub open spec fn owners(cycles: Seq<CycleGeneratorSubcycle>, kept: Seq<(u64, usize)>, count: nat) -> Seq<
    Option<usize>,
> {
    Seq::new(count, |f: int| owner(cycles, kept, f as usize, kept.len() as int))
}

/// Whether every owner is one of the first `count` cycles.
pub open spec fn owners_known(owners: Seq<Option<usize>>, count: nat) -> bool {
    forall|f: int| 0 <= f < owners.len() ==> (#[trigger] owners[f] matches Some(cycle) ==> cycle < count)
}

proof fn lemma_take_contains(s: Seq<usize>, k: int, x: usize)
    requires
        0 <= k < s.len(),
    ensures
        s.take(k + 1).contains(x) <==> s.take(k).contains(x) || s[k] == x,
{
    let long = s.take(k + 1);
    let short = s.take(k);
    if long.contains(x) {
        let at = choose|at: int| 0 <= at < long.len() && long[at] == x;
        if at < k {
            assert(short[at] == x);
        }
    }
    if short.contains(x) {
        let at = choose|at: int| 0 <= at < short.len() && short[at] == x;
        assert(long[at] == x);
    }
    if s[k] == x {
        assert(long[k] == x);
    }
}

fn owners_in(cycles: &Vec<CycleGeneratorSubcycle>, kept: &Vec<(u64, usize)>, count: usize) -> (found: Vec<
    Option<usize>,
>)
    requires
        all_known(kept@, cycles@.len()),
    ensures
        found@ == owners(cycles@, kept@, count as nat),
        owners_known(found@, cycles@.len()),
{
    let mut found: Vec<Option<usize>> = Vec::new();
    let mut f: usize = 0;
    while f < count
        invariant
            f <= count,
            found@.len() == f,
            forall|g: int| 0 <= g < f ==> #[trigger] found@[g] is None,
        decreases count - f,
    {
        found.push(None);
        f += 1;
    }
    let mut i: usize = 0;
    while i < kept.len()
        invariant
            i <= kept@.len(),
            found@.len() == count,
            all_known(kept@, cycles@.len()),
            owners_known(found@, cycles@.len()),
            forall|g: int| 0 <= g < count ==> #[trigger] found@[g] == owner(cycles@, kept@, g as usize, i as int),
        decreases kept@.len() - i,
    {
        let index: usize = kept[i].1;
        assert(kept@[i as int].1 < cycles@.len());
        let cycle = &cycles[index].facelet_cycle;
        let mut k: usize = 0;
        assert(cycle@.take(0) =~= Seq::empty());
        while k < cycle.len()
            invariant
                k <= cycle@.len(),
                found@.len() == count,
                index < cycles@.len(),
                owners_known(found@, cycles@.len()),
                forall|g: int|
                    0 <= g < count ==> #[trigger] found@[g] == if cycle@.take(k as int).contains(g as usize) {
                        Some(index)
                    } else {
                        owner(cycles@, kept@, g as usize, i as int)
                    },
            decreases cycle@.len() - k,
        {
            let facelet: usize = cycle[k];
            let ghost before = found@;
            if facelet < count {
                found[facelet] = Some(index);
            }
            proof {
                assert forall|g: int| 0 <= g < count implies #[trigger] found@[g] == if cycle@.take(
                    k + 1,
                ).contains(g as usize) {
                    Some(index)
                } else {
                    owner(cycles@, kept@, g as usize, i as int)
                } by {
                    lemma_take_contains(cycle@, k as int, g as usize);
                    assert(before[g] == if cycle@.take(k as int).contains(g as usize) {
                        Some(index)
                    } else {
                        owner(cycles@, kept@, g as usize, i as int)
                    });
                }
            }
            k += 1;
        }
        assert(cycle@.take(cycle@.len() as int) =~= cycle@);
        i += 1;
    }
    assert(found@ =~= owners(cycles@, kept@, count as nat));
    found
}

/// The state of a choice of facelets: the cycle of each facelet that may
/// still be chosen, the facelets chosen, and the pieces that they lie on.
pub ghost struct Picking {
    pub owners: Seq<Option<usize>>,
    pub facelets: Seq<usize>,
    pub pieces: Seq<String>,
}

/// The facelets of a piece that may still be chosen, among the first `upto`
/// facelets, each with its cycle.
pub open spec fn mates(owners: Seq<Option<usize>>, pieces_of: Seq<String>, piece: String, upto: int) -> Seq<
    (usize, usize),
>
    decreases upto,
{
    if upto <= 0 {
        Seq::empty()
    } else {
        let before = mates(owners, pieces_of, piece, upto - 1);
        let f = upto - 1;
        if f < owners.len() && f < pieces_of.len() && pieces_of[f]@ == piece@ && owners[f] is Some {
            before.push((f as usize, owners[f].unwrap()))
        } else {
            before
        }
    }
}

/// The owners without the first `upto` facelets as far as they lie on the
/// piece.
pub open spec fn without_piece(owners: Seq<Option<usize>>, pieces_of: Seq<String>, piece: String, upto: int) -> Seq<
    Option<usize>,
> {
    Seq::new(
        owners.len(),
        |f: int|
            if f < upto && f < pieces_of.len() && pieces_of[f]@ == piece@ {
                None
            } else {
                owners[f]
            },
    )
}

/// The owners without the facelets of a cycle that show another color.
pub open spec fn without_other_colors(
    owners: Seq<Option<usize>>,
    colors: Seq<String>,
    cycle: Seq<usize>,
    color: String,
) -> Seq<Option<usize>> {
    Seq::new(
        owners.len(),
        |g: int|
            if cycle.contains(g as usize) && g < colors.len() && colors[g]@ != color@ {
                None
            } else {
                owners[g]
            },
    )
}

/// The choice after the first `upto` of the facelets of a piece have been
/// chosen: each is chosen, and the facelets of its cycle that show another
/// color than it shows can no longer be chosen.
pub open spec fn with_mates(
    picking: Picking,
    colors: Seq<String>,
    cycles: Seq<CycleGeneratorSubcycle>,
    chosen: Seq<(usize, usize)>,
    upto: int,
) -> Picking
    decreases upto,
{
    if upto <= 0 {
        picking
    } else {
        let before = with_mates(picking, colors, cycles, chosen, upto - 1);
        let (facelet, cycle) = chosen[upto - 1];
        Picking {
            owners: without_other_colors(
                before.owners,
                colors,
                cycles[cycle as int].facelet_cycle@,
                colors[facelet as int],
            ),
            facelets: before.facelets.push(facelet),
            pieces: before.pieces,
        }
    }
}

/// The choice after a facelet has had its turn. If it may still be chosen, its
/// piece is chosen, with all facelets of the piece that may still be chosen.
pub open spec fn turn(
    picking: Picking,
    colors: Seq<String>,
    pieces_of: Seq<String>,
    cycles: Seq<CycleGeneratorSubcycle>,
    facelet: int,
) -> Picking {
    if 0 <= facelet < picking.owners.len() && picking.owners[facelet] is Some {
        let piece = pieces_of[facelet];
        let count = picking.owners.len() as int;
        let chosen = mates(picking.owners, pieces_of, piece, count);
        with_mates(
            Picking {
                owners: without_piece(picking.owners, pieces_of, piece, count),
                facelets: picking.facelets,
                pieces: picking.pieces.push(piece),
            },
            colors,
            cycles,
            chosen,
            chosen.len() as int,
        )
    } else {
        picking
    }
}

/// The choice after the first `upto` facelets have had their turn, lowest
/// first.
pub open spec fn picked(
    start: Picking,
    colors: Seq<String>,
    pieces_of: Seq<String>,
    cycles: Seq<CycleGeneratorSubcycle>,
    upto: int,
) -> Picking
    decreases upto,
{
    if upto <= 0 {
        start
    } else {
        turn(picked(start, colors, pieces_of, cycles, upto - 1), colors, pieces_of, cycles, upto - 1)
    }
}

/// Whether every facelet that is chosen with its cycle is known.
pub open spec fn mates_known(chosen: Seq<(usize, usize)>, facelets: nat, cycles: nat) -> bool {
    forall|k: int| 0 <= k < chosen.len() ==> (#[trigger] chosen[k]).0 < facelets && chosen[k].1 < cycles
}

/// Takes the facelets of a piece that may still be chosen out of the owners.
fn take_mates(owners: &mut Vec<Option<usize>>, pieces_of: &Vec<String>, piece: &String, Ghost(cycles): Ghost<nat>) -> (chosen:
    Vec<(usize, usize)>)
    requires
        old(owners)@.len() == pieces_of@.len(),
        owners_known(old(owners)@, cycles),
    ensures
        chosen@ == mates(old(owners)@, pieces_of@, *piece, old(owners)@.len() as int),
        final(owners)@ == without_piece(old(owners)@, pieces_of@, *piece, old(owners)@.len() as int),
        mates_known(chosen@, old(owners)@.len(), cycles),
        owners_known(final(owners)@, cycles),
{
    let ghost start = owners@;
    let mut chosen: Vec<(usize, usize)> = Vec::new();
    let mut f: usize = 0;
    assert(owners@ =~= without_piece(start, pieces_of@, *piece, 0));
    while f < owners.len()
        invariant
            f <= owners@.len(),
            start.len() == pieces_of@.len(),
            owners@.len() == start.len(),
            owners_known(start, cycles),
            chosen@ == mates(start, pieces_of@, *piece, f as int),
            owners@ == without_piece(start, pieces_of@, *piece, f as int),
            mates_known(chosen@, start.len(), cycles),
        decreases owners@.len() - f,
    {
        if pieces_of[f] == *piece {
            assert(owners@[f as int] == start[f as int]);
            match owners[f] {
                Some(cycle) => {
                    chosen.push((f, cycle));
                },
                None => {},
            }
            owners[f] = None;
        }
        assert(owners@ =~= without_piece(start, pieces_of@, *piece, f + 1));
        f += 1;
    }
    assert(owners_known(owners@, cycles)) by {
        assert forall|g: int| 0 <= g < owners@.len() implies (#[trigger] owners@[g] matches Some(cycle) ==> cycle
            < cycles) by {
            if owners@[g] is Some {
                assert(owners@[g] == start[g]);
            }
        }
    }
    chosen
}

/// Takes the facelets of a cycle that show another color out of the owners.
fn drop_other_colors(owners: &mut Vec<Option<usize>>, colors: &Vec<String>, cycle: &Vec<usize>, color: &String, Ghost(cycles): Ghost<
    nat,
>)
    requires
        old(owners)@.len() == colors@.len(),
        owners_known(old(owners)@, cycles),
    ensures
        final(owners)@ == without_other_colors(old(owners)@, colors@, cycle@, *color),
        owners_known(final(owners)@, cycles),
{
    let ghost start = owners@;
    let mut k: usize = 0;
    assert(cycle@.take(0) =~= Seq::empty());
    assert(owners@ =~= without_other_colors(start, colors@, cycle@.take(0), *color));
    while k < cycle.len()
        invariant
            k <= cycle@.len(),
            owners@.len() == start.len(),
            start.len() == colors@.len(),
            owners@ == without_other_colors(start, colors@, cycle@.take(k as int), *color),
        decreases cycle@.len() - k,
    {
        let member: usize = cycle[k];
        let ghost before = owners@;
        if member < owners.len() {
            if colors[member] != *color {
                owners[member] = None;
            }
        }
        proof {
            let after = without_other_colors(start, colors@, cycle@.take(k + 1), *color);
            assert forall|g: int| 0 <= g < owners@.len() implies owners@[g] == after[g] by {
                lemma_take_contains(cycle@, k as int, g as usize);
                assert(before[g] == without_other_colors(start, colors@, cycle@.take(k as int), *color)[g]);
            }
            assert(owners@ =~= after);
        }
        k += 1;
    }
    assert(cycle@.take(cycle@.len() as int) =~= cycle@);
    assert(owners_known(owners@, cycles)) by {
        assert forall|g: int| 0 <= g < owners@.len() implies (#[trigger] owners@[g] matches Some(cycle) ==> cycle
            < cycles) by {
            if owners@[g] is Some {
                assert(owners@[g] == start[g]);
            }
        }
    }
}

/// The cycles that are kept reach the modulus, if the cycles that they are
/// kept from do.
pub proof fn lemma_needed_reaches(sorted: Seq<(u64, usize)>, modulus: u64, upto: int)
    requires
        0 <= upto <= sorted.len(),
        lcm_seq(orders_of(sorted)) == modulus,
    ensures
        lcm_seq(orders_of(needed(sorted, modulus, upto)) + orders_of(sorted.skip(upto))) == modulus,
    decreases upto,
{
    if upto == 0 {
        assert(sorted.skip(0) =~= sorted);
        assert(orders_of(needed(sorted, modulus, 0)) + orders_of(sorted) =~= orders_of(sorted));
    } else {
        lemma_needed_reaches(sorted, modulus, upto - 1);
        let kept = needed(sorted, modulus, upto - 1);
        let others = orders_of(kept) + orders_of(sorted.skip(upto));
        if lcm_seq(others) != modulus {
            assert(orders_of(kept.push(sorted[upto - 1])) + orders_of(sorted.skip(upto)) =~= orders_of(kept)
                + orders_of(sorted.skip(upto - 1)));
        }
    }
}

proof fn lemma_entered_members(sorted: Seq<(u64, usize)>, entry: (u64, usize))
    ensures
        entered(sorted, entry).len() == sorted.len() + 1,
        entered(sorted, entry).contains(entry),
        forall|x: (u64, usize)| #[trigger] sorted.contains(x) ==> entered(sorted, entry).contains(x),
        forall|x: (u64, usize)| #[trigger]
            entered(sorted, entry).contains(x) ==> sorted.contains(x) || x == entry,
    decreases sorted.len(),
{
    let all = entered(sorted, entry);
    if sorted.len() == 0 || sorted.last().0 <= entry.0 {
        assert forall|x: (u64, usize)|
            (all.contains(x) ==> sorted.contains(x) || x == entry) && ((sorted.contains(x) || x == entry)
                ==> all.contains(x)) by {
            if all.contains(x) {
                let at = choose|at: int| 0 <= at < all.len() && all[at] == x;
                if at < sorted.len() {
                    assert(sorted[at] == x);
                }
            }
            if sorted.contains(x) {
                let at = choose|at: int| 0 <= at < sorted.len() && sorted[at] == x;
                assert(all[at] == x);
            }
            if x == entry {
                assert(all[sorted.len() as int] == x);
            }
        }
    } else {
        let front = sorted.drop_last();
        let inner = entered(front, entry);
        lemma_entered_members(front, entry);
        assert forall|x: (u64, usize)|
            (all.contains(x) ==> sorted.contains(x) || x == entry) && ((sorted.contains(x) || x == entry)
                ==> all.contains(x)) by {
            if all.contains(x) {
                let at = choose|at: int| 0 <= at < all.len() && all[at] == x;
                if at < inner.len() {
                    assert(inner[at] == x);
                    assert(inner.contains(x));
                    if front.contains(x) {
                        let k = choose|k: int| 0 <= k < front.len() && front[k] == x;
                        assert(sorted[k] == x);
                    }
                } else {
                    assert(sorted[sorted.len() - 1] == x);
                }
            }
            if sorted.contains(x) {
                let at = choose|at: int| 0 <= at < sorted.len() && sorted[at] == x;
                if at < front.len() {
                    assert(front[at] == x);
                    assert(front.contains(x));
                    assert(inner.contains(x));
                    let k = choose|k: int| 0 <= k < inner.len() && inner[k] == x;
                    assert(all[k] == x);
                } else {
                    assert(all[inner.len() as int] == x);
                }
            }
            if x == entry {
                assert(inner.contains(x));
                let k = choose|k: int| 0 <= k < inner.len() && inner[k] == x;
                assert(all[k] == x);
            }
        }
    }
}

/// In ascending order a list holds the cycles that it held.
pub proof fn lemma_ascending_members(picked: Seq<(u64, usize)>, upto: int)
    requires
        0 <= upto <= picked.len(),
    ensures
        ascending(picked, upto).len() == upto,
        forall|x: (u64, usize)| #[trigger]
            ascending(picked, upto).contains(x) ==> picked.take(upto).contains(x),
        forall|x: (u64, usize)| #[trigger]
            picked.take(upto).contains(x) ==> ascending(picked, upto).contains(x),
    decreases upto,
{
    if upto > 0 {
        lemma_ascending_members(picked, upto - 1);
        lemma_entered_members(ascending(picked, upto - 1), picked[upto - 1]);
        let short = picked.take(upto - 1);
        let long = picked.take(upto);
        assert forall|x: (u64, usize)|
            (long.contains(x) ==> short.contains(x) || x == picked[upto - 1]) && ((short.contains(x) || x
                == picked[upto - 1]) ==> long.contains(x)) by {
            if long.contains(x) {
                let at = choose|at: int| 0 <= at < long.len() && long[at] == x;
                if at < upto - 1 {
                    assert(short[at] == x);
                }
            }
            if short.contains(x) {
                let at = choose|at: int| 0 <= at < short.len() && short[at] == x;
                assert(long[at] == x);
            }
            if x == picked[upto - 1] {
                assert(long[upto - 1] == x);
            }
        }
    } else {
        assert(picked.take(0) =~= Seq::empty());
        assert(ascending(picked, 0) =~= Seq::empty());
    }
}

proof fn lemma_orders_among(a: Seq<(u64, usize)>, b: Seq<(u64, usize)>)
    requires
        forall|x: (u64, usize)| a.contains(x) ==> b.contains(x),
    ensures
        all_among(orders_of(a), orders_of(b)),
{
    assert forall|i: int| 0 <= i < orders_of(a).len() implies orders_of(b).contains(#[trigger] orders_of(a)[i]) by {
        assert(a.contains(a[i]));
        let j = choose|j: int| 0 <= j < b.len() && b[j] == a[i];
        assert(orders_of(b)[j] == orders_of(a)[i]);
    }
}

/// In ascending order a list of cycles reaches what it reached.
pub proof fn lemma_ascending_reaches(picked: Seq<(u64, usize)>, count: nat)
    requires
        all_known(picked, count),
    ensures
        lcm_seq(orders_of(ascending(picked, picked.len() as int))) == lcm_seq(orders_of(picked)),
        all_known(ascending(picked, picked.len() as int), count),
{
    let sorted = ascending(picked, picked.len() as int);
    lemma_ascending_members(picked, picked.len() as int);
    assert(picked.take(picked.len() as int) =~= picked);
    lemma_orders_among(sorted, picked);
    lemma_orders_among(picked, sorted);
    assert forall|i: int| 0 <= i < sorted.len() implies (#[trigger] sorted[i]).1 < count && sorted[i].0 != 0 by {
        assert(sorted.contains(sorted[i]));
        let j = choose|j: int| 0 <= j < picked.len() && picked[j] == sorted[i];
        assert(picked[j].1 < count);
    }
    lemma_lcm_seq_same(orders_of(sorted), orders_of(picked));
}

proof fn lemma_candidates(cycles: Seq<CycleGeneratorSubcycle>, modulus: u64, upto: int)
    requires
        0 <= upto <= cycles.len() <= usize::MAX,
    ensures
        forall|k: int|
            0 <= k < candidates(cycles, modulus, upto).len() ==> {
                let entry = #[trigger] candidates(cycles, modulus, upto)[k];
                entry.1 < upto && entry.0 == cycles[entry.1 as int].chromatic_order && entry.0 > 1 && modulus
                    % entry.0 == 0
            },
        forall|i: int|
            0 <= i < upto && (#[trigger] cycles[i]).chromatic_order > 1 && modulus % cycles[i].chromatic_order
                == 0 ==> candidates(cycles, modulus, upto).contains((cycles[i].chromatic_order, i as usize)),
    decreases upto,
{
    if upto > 0 {
        lemma_candidates(cycles, modulus, upto - 1);
        let before = candidates(cycles, modulus, upto - 1);
        let all = candidates(cycles, modulus, upto);
        assert forall|i: int|
            0 <= i < upto && (#[trigger] cycles[i]).chromatic_order > 1 && modulus % cycles[i].chromatic_order
                == 0 implies all.contains((cycles[i].chromatic_order, i as usize)) by {
            let entry = (cycles[i].chromatic_order, i as usize);
            if i < upto - 1 {
                assert(before.contains(entry));
                let k = choose|k: int| 0 <= k < before.len() && before[k] == entry;
                assert(all[k] == entry);
            } else {
                assert(all[before.len() as int] == entry);
            }
        }
    }
}

/// The cycles whose order is above one and divides the order of the register
/// reach that order.
pub proof fn lemma_candidates_reach(cycles: Seq<CycleGeneratorSubcycle>, modulus: u64)
    requires
        cycles.len() <= usize::MAX,
        modulus == lcm_seq(subcycle_orders(cycles)),
        modulus != 0,
    ensures
        lcm_seq(orders_of(candidates(cycles, modulus, cycles.len() as int))) == modulus,
{
    let values = subcycle_orders(cycles);
    let count = cycles.len() as int;
    let picked = candidates(cycles, modulus, count);
    let orders = orders_of(picked);
    assert(values.take(count) =~= values);
    assert(orders.take(orders.len() as int) =~= orders);
    assert forall|k: int| 0 <= k < values.len() implies #[trigger] values[k] != 0 by {
        if values[k] == 0 {
            assert(values.take(k + 1).drop_last() =~= values.take(k));
            assert(lcm_seq(values.take(k + 1)) == 0);
            lemma_lcm_seq_zero(values, k + 1);
        }
    }
    lemma_candidates(cycles, modulus, count);
    let m = modulus as int;
    assert forall|k: int| 0 <= k < orders.len() implies #[trigger] orders[k] != 0 && m % (orders[k] as int)
        == 0 by {
        let entry = picked[k];
        assert(entry.0 > 1 && modulus % entry.0 == 0);
    }
    lemma_lcm_seq_least(orders, orders.len() as int, m);
    let reached = lcm_seq(orders) as int;
    assert forall|i: int| 0 <= i < values.len() implies #[trigger] values[i] != 0 && reached % (values[i] as int)
        == 0 by {
        lemma_lcm_seq_multiple(values, count, i);
        if values[i] > 1 {
            assert(cycles[i].chromatic_order == values[i]);
            let entry = (cycles[i].chromatic_order, i as usize);
            assert(picked.contains(entry));
            let k = choose|k: int| 0 <= k < picked.len() && picked[k] == entry;
            assert(orders[k] == values[i]);
            lemma_lcm_seq_multiple(orders, orders.len() as int, k);
        } else {
            assert(values[i] == 1);
        }
    }
    lemma_lcm_seq_least(values, count, reached);
    lemma_divide_each_other(reached, m);
}

/// The cycles by which a register is read reach the modulus together.
pub proof fn lemma_chosen_cycles_reach(cycles: Seq<CycleGeneratorSubcycle>, modulus: u64)
    requires
        cycles.len() <= usize::MAX,
        chosen_cycles(cycles, modulus) is Some,
    ensures
        lcm_seq(orders_of(chosen_cycles(cycles, modulus).unwrap())) == modulus,
{
    let all = candidates(cycles, modulus, cycles.len() as int);
    lemma_candidates(cycles, modulus, cycles.len() as int);
    assert(all_known(all, cycles.len()));
    lemma_ascending_reaches(all, cycles.len());
    let sorted = ascending(all, all.len() as int);
    lemma_needed_reaches(sorted, modulus, sorted.len() as int);
    let kept = needed(sorted, modulus, sorted.len() as int);
    assert(sorted.skip(sorted.len() as int) =~= Seq::empty());
    assert(orders_of(kept) + orders_of(sorted.skip(sorted.len() as int)) =~= orders_of(kept));
}

/// The facelets that are chosen from the kept cycles, with their pieces.
pub open spec fn chosen_facelets(
    cycles: Seq<CycleGeneratorSubcycle>,
    kept: Seq<(u64, usize)>,
    colors: Seq<String>,
    pieces_of: Seq<String>,
) -> Picking {
    picked(
        Picking { owners: owners(cycles, kept, colors.len()), facelets: Seq::empty(), pieces: Seq::empty() },
        colors,
        pieces_of,
        cycles,
        colors.len() as int,
    )
}

impl CycleGenerator {
    /// The facelets by which the register is read modulo its order, if there
    /// are any.
    pub open spec fn signature(&self) -> Picking {
        chosen_facelets(
            self.unshared_cycles@,
            chosen_cycles(self.unshared_cycles@, self.order).unwrap(),
            self.algorithm.group_view().colors_view(),
            self.algorithm.group_view().pieces_view(),
        )
    }

    /// The facelets by which the register is read modulo `remainder_mod`.
    ///
    /// Of the cycles of the register, those count whose order is above one and
    /// divides the modulus. There are no such facelets if these cycles do not
    /// reach the modulus together. Else the cycles that add nothing to it are
    /// left out, smallest order first, and the facelets are chosen from the
    /// rest: the lowest facelet that may still be chosen is taken with all such
    /// facelets of its piece, and for each facelet taken, the facelets of its
    /// cycle that show another color are given up.
    pub fn signature_facelets_mod(&self, remainder_mod: u64) -> (found: Option<Facelets>)
        ensures
            match chosen_cycles(self.unshared_cycles@, remainder_mod) {
                None => found is None,
                Some(kept) => {
                    let choice = chosen_facelets(
                        self.unshared_cycles@,
                        kept,
                        self.algorithm.group_view().colors_view(),
                        self.algorithm.group_view().pieces_view(),
                    );
                    found matches Some(facelets) && facelets.facelets@ == choice.facelets && facelets.pieces@
                        == choice.pieces && facelets.modulus == remainder_mod
                },
            },
    {
        let cycles = &self.unshared_cycles;
        let all = collect_candidates(cycles, remainder_mod);
        let orders = orders_in(&all);
        match lcm_iter(orders.as_slice()) {
            Some(reached) => {
                if reached != remainder_mod {
                    return None;
                }
            },
            None => {
                return None;
            },
        }
        let sorted = sort_ascending(&all, Ghost(cycles@.len()));
        let kept = keep_needed(&sorted, remainder_mod, Ghost(cycles@.len()));
        let group = self.algorithm.group();
        proof {
            use_type_invariant(group);
        }
        let colors = group.facelet_colors();
        let pieces_of = group.piece_assignments();
        let count: usize = group.facelet_count();
        let mut left = owners_in(cycles, &kept, count);
        let mut facelets: Vec<usize> = Vec::new();
        let mut pieces: Vec<String> = Vec::new();
        let ghost start = Picking { owners: left@, facelets: Seq::empty(), pieces: Seq::empty() };
        let mut f: usize = 0;
        while f < count
            invariant
                f <= count,
                count == colors@.len(),
                count == pieces_of@.len(),
                left@.len() == count,
                owners_known(left@, cycles@.len()),
                picked(start, colors@, pieces_of@, cycles@, f as int) == (Picking {
                    owners: left@,
                    facelets: facelets@,
                    pieces: pieces@,
                }),
            decreases count - f,
        {
            if left[f].is_some() {
                let piece = pieces_of[f].clone();
                let ghost before = Picking { owners: left@, facelets: facelets@, pieces: pieces@ };
                let chosen = take_mates(&mut left, pieces_of, &piece, Ghost(cycles@.len()));
                let ghost base = Picking { owners: left@, facelets: facelets@, pieces: pieces@.push(piece) };
                let mut k: usize = 0;
                while k < chosen.len()
                    invariant
                        k <= chosen@.len(),
                        count == colors@.len(),
                        left@.len() == count,
                        owners_known(left@, cycles@.len()),
                        mates_known(chosen@, count as nat, cycles@.len()),
                        with_mates(base, colors@, cycles@, chosen@, k as int) == (Picking {
                            owners: left@,
                            facelets: facelets@,
                            pieces: base.pieces,
                        }),
                    decreases chosen@.len() - k,
                {
                    let (facelet, cycle) = chosen[k];
                    assert(chosen@[k as int].0 < count && chosen@[k as int].1 < cycles@.len());
                    facelets.push(facelet);
                    drop_other_colors(
                        &mut left,
                        colors,
                        &cycles[cycle].facelet_cycle,
                        &colors[facelet],
                        Ghost(cycles@.len()),
                    );
                    k += 1;
                }
                pieces.push(piece);
                assert(turn(before, colors@, pieces_of@, cycles@, f as int) == (Picking {
                    owners: left@,
                    facelets: facelets@,
                    pieces: pieces@,
                }));
            }
            f += 1;
        }
        Some(Facelets { facelets, pieces, modulus: remainder_mod })
    }

    /// The facelets by which the register is read and found solved: those by
    /// which it is read modulo its order.
    pub fn signature_facelets(&self) -> (facelets: Facelets)
        requires
            self.wf(),
            self.order != 0,
        ensures
            chosen_cycles(self.unshared_cycles@, self.order) is Some,
            facelets.facelets@ == self.signature().facelets,
            facelets.pieces@ == self.signature().pieces,
            facelets.modulus == self.order,
    {
        let count: usize = self.unshared_cycles.len();
        proof {
            lemma_candidates_reach(self.unshared_cycles@, self.order);
        }
        match self.signature_facelets_mod(self.order) {
            Some(facelets) => facelets,
            None => unreached(),
        }
    }
}

} // verus!
