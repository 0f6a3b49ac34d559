//! The states that a program works on: registers that exist in theory only,
//! and puzzles.

use crate::architectures::{
    is_orders_of,
    chromatic_orders_by_facelets, decode, is_decoded, is_generator_orders,
};
use crate::numbers::lcm_iter;
use crate::permutations::{
    apply_mapping, inverse_mapping, is_bijection, iterate, lemma_inverse_composes_to_identity,
    lemma_inverse_mapping, lemma_iterate_same, lemma_left_inverse, magnitude, powered, Algorithm,
    Permutation, PermutationGroup,
};
use std::sync::Arc;
use vstd::prelude::*;

verus! {

/// A register that exists in theory only: a number below its order.
#[derive(Debug)]
pub struct TheoreticalState {
    value: u64,
    order: u64,
}

impl TheoreticalState {
    #[verifier::type_invariant]
    pub open spec fn inv(self) -> bool {
        self.wf()
    }

    /// The value of the register.
    pub closed spec fn value_view(&self) -> u64 {
        self.value
    }

    /// The order of the register.
    pub closed spec fn order_view(&self) -> u64 {
        self.order
    }

    /// The value is below the order.
    pub open spec fn wf(&self) -> bool {
        self.value_view() < self.order_view()
    }

    /// A register of the given order that holds zero. There is none of the
    /// order zero.
    pub fn new(order: u64) -> (state: Option<TheoreticalState>)
        ensures
            match state {
                Some(state) => order > 0 && state.order_view() == order && state.value_view() == 0,
                None => order == 0,
            },
    {
        if order == 0 {
            None
        } else {
            Some(TheoreticalState { value: 0, order })
        }
    }

    /// Adds a number that may be negative.
    pub fn add_to_i(&mut self, amt: i128)
        ensures
            final(self).order_view() == old(self).order_view(),
            final(self).value_view() == (old(self).value_view() + amt) % (old(self).order_view() as int),
    {
        proof {
            use_type_invariant(&*self);
        }
        let distance = magnitude(amt);
        let rest = (distance % (self.order as u128)) as u64;
        let positive: u64 = if amt >= 0 || rest == 0 {
            rest
        } else {
            self.order - rest
        };
        proof {
            let m = self.order as int;
            let d = distance as int;
            vstd::arithmetic::div_mod::lemma_fundamental_div_mod(d, m);
            let q = d / m;
            if amt >= 0 {
            } else if rest == 0 {
                assert(amt == m * (-q) + 0) by (nonlinear_arith)
                    requires
                        d == m * q + 0,
                        amt == -d,
                ;
                vstd::arithmetic::div_mod::lemma_fundamental_div_mod_converse(amt as int, m, -q, 0);
            } else {
                assert(amt == (-q - 1) * m + (m - rest)) by (nonlinear_arith)
                    requires
                        d == m * q + rest,
                        amt == -d,
                ;
                vstd::arithmetic::div_mod::lemma_fundamental_div_mod_converse(
                    amt as int,
                    m,
                    -q - 1,
                    m - rest,
                );
            }
            assert(positive as int == (amt as int) % m);
        }
        let ghost before = self.value;
        self.add_to(positive);
        proof {
            let m = self.order as int;
            vstd::arithmetic::div_mod::lemma_add_mod_noop(before as int, amt as int, m);
            vstd::arithmetic::div_mod::lemma_add_mod_noop(before as int, positive as int, m);
            vstd::arithmetic::div_mod::lemma_mod_twice(amt as int, m);
        }
    }

    /// Adds a number.
    pub fn add_to(&mut self, amt: u64)
        ensures
            final(self).order_view() == old(self).order_view(),
            final(self).value_view() == (old(self).value_view() + amt) % (old(self).order_view() as int),
    {
        proof {
            use_type_invariant(&*self);
        }
        let step = amt % self.order;
        let room = self.order - self.value;
        let value = if step >= room {
            step - room
        } else {
            self.value + step
        };
        proof {
            let m = self.order as int;
            let sum = self.value + step;
            vstd::arithmetic::div_mod::lemma_add_mod_noop(self.value as int, amt as int, m);
            vstd::arithmetic::div_mod::lemma_small_mod(self.value as nat, m as nat);
            if step >= room {
                vstd::arithmetic::div_mod::lemma_fundamental_div_mod_converse(sum, m, 1, value as int);
            } else {
                vstd::arithmetic::div_mod::lemma_small_mod(sum as nat, m as nat);
            }
        }
        self.value = value;
    }

    /// Sets the register to zero.
    pub fn zero_out(&mut self)
        ensures
            final(self).order_view() == old(self).order_view(),
            final(self).value_view() == 0,
    {
        proof {
            use_type_invariant(&*self);
        }
        self.value = 0;
    }

    /// The order of the register.
    pub fn order(&self) -> (order: u64)
        ensures
            order == self.order_view(),
    {
        self.order
    }

    /// The value of the register.
    pub fn value(&self) -> (value: u64)
        ensures
            value == self.value_view(),
    {
        self.value
    }
}

/// Whether each of the facelets shows, in the given state of the puzzle, the
/// color that belongs there: the facelet that has come to its place has its
/// color.
pub open spec fn shows_solved(state: Seq<usize>, colors: Seq<String>, facelets: Seq<usize>, upto: int) -> bool {
    forall|i: int|
        0 <= i < upto && i < facelets.len() ==> {
            let facelet = (#[trigger] facelets[i]) as int;
            let image = apply_mapping(state, facelet);
            facelet < colors.len() && image < colors.len() && colors[image]@ == colors[facelet]@
        }
}

/// Whether the facelets are solved in the given state of the puzzle. A
/// facelet that is none of the puzzle is not solved.
pub fn facelets_solved(group: &PermutationGroup, state: &Permutation, facelets: &[usize]) -> (solved: bool)
    ensures
        solved == shows_solved(
            state.mapping_view(),
            group.colors_view(),
            facelets@,
            facelets@.len() as int,
        ),
{
    let colors = group.facelet_colors();
    let mut i: usize = 0;
    while i < facelets.len()
        invariant
            i <= facelets@.len(),
            colors@ == group.colors_view(),
            shows_solved(state.mapping_view(), colors@, facelets@, i as int),
        decreases facelets@.len() - i,
    {
        let facelet = facelets[i];
        let image = state.get(facelet);
        if facelet >= colors.len() || image >= colors.len() {
            return false;
        }
        if colors[image] != colors[facelet] {
            return false;
        }
        i += 1;
    }
    true
}

/// A puzzle that exists in the memory of the machine only.
#[derive(Debug)]
pub struct SimulatedPuzzle {
    perm_group: Arc<PermutationGroup>,
    state: Permutation,
}

impl SimulatedPuzzle {
    /// The state of the puzzle.
    pub closed spec fn state_view(&self) -> Permutation {
        self.state
    }

    /// The group of the puzzle.
    pub closed spec fn group_view(&self) -> Arc<PermutationGroup> {
        self.perm_group
    }

    /// The puzzle in its solved state.
    pub fn initialize(perm_group: Arc<PermutationGroup>) -> (puzzle: SimulatedPuzzle)
        ensures
            puzzle.group_view() == perm_group,
            puzzle.state_view().mapping_view().len() == 0,
    {
        SimulatedPuzzle { perm_group, state: Permutation::identity() }
    }

    /// The state of the puzzle.
    pub fn puzzle_state(&self) -> (state: &Permutation)
        ensures
            *state == self.state_view(),
    {
        &self.state
    }

    /// The state of the puzzle, as a robot would show it.
    pub fn take_picture(&self) -> (state: &Permutation)
        ensures
            *state == self.state_view(),
    {
        &self.state
    }

    /// Performs an algorithm on the puzzle.
    pub fn compose_into(&mut self, alg: &Algorithm)
        ensures
            final(self).group_view() == old(self).group_view(),
            forall|i: int|
                #[trigger] final(self).state_view().apply(i) == alg.permutation_view().apply(
                    old(self).state_view().apply(i),
                ),
    {
        self.state.compose_into(alg.permutation());
    }

    /// Whether the facelets are solved.
    pub fn facelets_solved(&self, facelets: &[usize]) -> (solved: bool)
        ensures
            solved == shows_solved(
                self.state_view().mapping_view(),
                self.group_view().colors_view(),
                facelets@,
                facelets@.len() as int,
            ),
    {
        facelets_solved(&self.perm_group, &self.state, facelets)
    }

    /// Decodes the register with the given generator from the given facelets.
    /// The puzzle stays as it is.
    pub fn print(&self, facelets: &[usize], generator: &Algorithm) -> (value: Option<u64>)
        ensures
            exists|orders: Seq<u64>|
                #[trigger] is_generator_orders(orders, generator) && is_decoded(
                    value,
                    self.state_view().mapping_view(),
                    generator.permutation_view().mapping_view(),
                    orders,
                    facelets@,
                ),
    {
        decode(&self.state, facelets, generator)
    }

    /// Decodes the register as `print` does.
    pub fn halt(&self, facelets: &[usize], generator: &Algorithm) -> (value: Option<u64>)
        ensures
            exists|orders: Seq<u64>|
                #[trigger] is_generator_orders(orders, generator) && is_decoded(
                    value,
                    self.state_view().mapping_view(),
                    generator.permutation_view().mapping_view(),
                    orders,
                    facelets@,
                ),
    {
        self.print(facelets, generator)
    }

    /// Whether `value` is how often the generator has been undone in the
    /// state of the puzzle, as the facelets show it.
    pub open spec fn is_undone(&self, facelets: Seq<usize>, generator: &Algorithm, value: Option<u64>) -> bool {
        exists|back: Seq<usize>, orders: Seq<u64>|
            {
                &&& forall|j: int| #[trigger] apply_mapping(back, j) == powered(
                    generator.permutation_view().mapping_view(),
                    -1,
                    j,
                )
                &&& is_orders_of(orders, back, generator.group_view().colors_view())
                &&& #[trigger] is_decoded(value, self.state_view().mapping_view(), back, orders, facelets)
            }
    }

    /// Whether the puzzle is what repeating the generator until the facelets
    /// are solved makes of the puzzle `before`: the generator has been
    /// performed as often as it had been undone; if that cannot be decoded,
    /// nothing has been done.
    pub open spec fn is_repeated_until(
        &self,
        before: &SimulatedPuzzle,
        facelets: Seq<usize>,
        generator: &Algorithm,
        done: Option<()>,
    ) -> bool {
        exists|value: Option<u64>| #[trigger]
            before.is_undone(facelets, generator, value) && match value {
                Some(times) => done is Some && forall|i: int|
                    #[trigger] self.state_view().apply(i) == powered(
                        generator.permutation_view().mapping_view(),
                        times as int,
                        before.state_view().apply(i),
                    ),
                None => done is None && self.state_view() == before.state_view(),
            }
    }

    /// Performs the generator until the facelets are solved: decodes how
    /// often the generator that undoes the given one has been performed, and
    /// performs the given one as often. Returns `None`, and leaves the puzzle
    /// as it is, if the register cannot be decoded.
    pub fn repeat_until(&mut self, facelets: &[usize], generator: &Algorithm) -> (done: Option<()>)
        ensures
            final(self).group_view() == old(self).group_view(),
            final(self).is_repeated_until(old(self), facelets@, generator, done),
    {
        let effect = generator.permutation();
        proof {
            use_type_invariant(generator);
            use_type_invariant(effect);
        }
        let ghost forth = generator.permutation_view().mapping_view();
        let mut inverse = generator.clone();
        inverse.exponentiate(-1);
        let ghost back = inverse.permutation_view().mapping_view();
        let read = decode(&self.state, facelets, &inverse);
        let ghost orders = choose|orders: Seq<u64>|
            #[trigger] is_generator_orders(orders, &inverse) && is_decoded(
                read,
                self.state_view().mapping_view(),
                back,
                orders,
                facelets@,
            );
        proof {
            assert forall|j: int| #[trigger] apply_mapping(back, j) == powered(forth, -1, j) by {
                assert(inverse.permutation_view().apply(j) == powered(forth, -1, j));
            }
            assert(is_orders_of(orders, back, generator.group_view().colors_view()));
            assert(self.is_undone(facelets@, generator, read));
        }
        let ghost start = *self;
        let times = match read {
            Some(times) => times,
            None => {
                return None;
            },
        };
        let undone = inverse.permutation();
        proof {
            use_type_invariant(&inverse);
            use_type_invariant(undone);
        }
        let mut forward = inverse.clone();
        forward.exponentiate(-(times as i128));
        proof {
            lemma_inverse_mapping(forth);
            lemma_inverse_composes_to_identity(forth);
            let again = inverse_mapping(back);
            assert forall|j: int| #[trigger] apply_mapping(back, j) == apply_mapping(
                inverse_mapping(forth),
                j,
            ) by {
                assert(inverse.permutation_view().apply(j) == powered(forth, -1, j));
                assert(iterate(inverse_mapping(forth), 1, j) == apply_mapping(
                    inverse_mapping(forth),
                    iterate(inverse_mapping(forth), 0, j),
                ));
            }
            assert forall|j: int| #[trigger] apply_mapping(back, j) == powered(forth, -1, j) by {
                assert(inverse.permutation_view().apply(j) == powered(forth, -1, j));
            }
            // what undoes the undoing is the generator itself
            assert forall|k: int| 0 <= k < back.len() implies apply_mapping(forth, #[trigger] back[k] as int)
                == k by {
                assert(apply_mapping(back, k) == apply_mapping(inverse_mapping(forth), k));
                if k < forth.len() {
                    assert(forth[inverse_mapping(forth)[k] as int] == k);
                }
            }
            assert forall|k: int| k >= back.len() implies #[trigger] apply_mapping(forth, k) == k by {
                assert(apply_mapping(back, k) == apply_mapping(inverse_mapping(forth), k));
                if k < forth.len() {
                    assert(forth[inverse_mapping(forth)[k] as int] == k);
                }
            }
            assert forall|x: int|
                #[trigger] powered(back, -(times as int), x) == powered(forth, times as int, x) by {
                assert forall|k: int| #[trigger] apply_mapping(again, k) == apply_mapping(forth, k) by {
                    lemma_left_inverse(back, forth, k);
                }
                lemma_iterate_same(again, forth, times as nat, x);
            }
        }
        let ghost before = self.state;
        self.state.compose_into(forward.permutation());
        proof {
            assert forall|i: int|
                #[trigger] self.state_view().apply(i) == powered(forth, times as int, before.apply(i)) by {
                assert(self.state.apply(i) == forward.permutation_view().apply(before.apply(i)));
            }
            assert(start.is_undone(facelets@, generator, Some(times)));
        }
        Some(())
    }

    /// Brings the puzzle to its solved state.
    pub fn solve(&mut self)
        ensures
            final(self).group_view() == old(self).group_view(),
            final(self).state_view().mapping_view().len() == 0,
    {
        self.state = Permutation::identity();
    }
}

/// What a robot that can only perform moves and take pictures does next to
/// bring a register to zero.
#[derive(Clone, Copy, Debug, PartialEq, Eq, Structural, Hash)]
pub enum HaltStep {
    /// The facelets are solved: the register held this value.
    Done(u64),
    /// The generator was undone as often as the register has values, and
    /// the facelets are not solved.
    Failed,
    /// The generator has to be undone once more; so often will it then have
    /// been undone.
    Compose(u64),
}

/// The number of values that the facelets can tell apart: the least common
/// multiple of their chromatic orders under the generator. There is none if a
/// facelet is none of the puzzle or if the number does not fit.
pub fn halt_order(facelets: &[usize], generator: &Algorithm) -> (order: Option<u64>)
    ensures
        exists|orders: Seq<u64>|
            #[trigger] is_generator_orders(orders, generator) && match order {
                Some(order) => {
                    &&& forall|i: int| 0 <= i < facelets@.len() ==> (#[trigger] facelets@[i]) < orders.len()
                    &&& order == crate::numbers::lcm_seq(
                        Seq::new(facelets@.len(), |i: int| orders[facelets@[i] as int]),
                    )
                },
                None => (exists|i: int| 0 <= i < facelets@.len() && (#[trigger] facelets@[i]) >= orders.len())
                    || crate::numbers::lcm_seq(
                    Seq::new(facelets@.len(), |i: int| orders[facelets@[i] as int]),
                ) > u64::MAX,
            },
{
    let orders = chromatic_orders_by_facelets(generator);
    assert(is_generator_orders(orders@, generator));
    let mut chosen: Vec<u64> = Vec::new();
    let mut i: usize = 0;
    while i < facelets.len()
        invariant
            i <= facelets@.len(),
            is_generator_orders(orders@, generator),
            chosen@.len() == i,
            forall|j: int| 0 <= j < i ==> (#[trigger] facelets@[j]) < orders@.len(),
            forall|j: int| 0 <= j < i ==> #[trigger] chosen@[j] == orders@[facelets@[j] as int],
        decreases facelets@.len() - i,
    {
        if facelets[i] >= orders.len() {
            assert(is_generator_orders(orders@, generator));
            return None;
        }
        chosen.push(orders[facelets[i]]);
        i += 1;
    }
    assert(chosen@ =~= Seq::new(facelets@.len(), |i: int| orders@[facelets@[i] as int]));
    assert(is_generator_orders(orders@, generator));
    lcm_iter(chosen.as_slice())
}

/// What the robot does next, given whether the facelets are solved, how often
/// the generator has been undone, and how many values the facelets can tell
/// apart.
pub fn halt_step(solved: bool, undone: u64, order: u64) -> (step: HaltStep)
    ensures
        step == if solved {
            HaltStep::Done(undone)
        } else if undone + 1 >= order {
            HaltStep::Failed
        } else {
            HaltStep::Compose((undone + 1) as u64)
        },
{
    if solved {
        HaltStep::Done(undone)
    } else if undone >= order || undone + 1 >= order {
        HaltStep::Failed
    } else {
        HaltStep::Compose(undone + 1)
    }
}

/// What printing a register gives on a robot: the decoded value, if the
/// picture after the generator was performed again as often is the picture
/// before the decoding.
pub fn print_check(before: &Permutation, after: &Permutation, value: u64) -> (printed: Option<u64>)
    ensures
        printed == if before.same_as(after) {
            Some(value)
        } else {
            None
        },
{
    if before.equals(after) {
        Some(value)
    } else {
        None
    }
}

} // verus!
