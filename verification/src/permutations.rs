//! Permutations of the facelets of a puzzle, the group that a puzzle's moves
//! generate, and algorithms: sequences of moves with their effect.

use crate::names::{bytes_equal, bytes_to_vec};
use std::sync::Arc;
use vstd::prelude::*;

verus! {

/// A permutation of the natural numbers that moves only numbers below its
/// length.
#[derive(Debug)]
pub struct Permutation {
    mapping: Vec<usize>,
}

/// Whether `mapping` sends `0..len` onto itself, one to one.
pub open spec fn is_bijection(mapping: Seq<usize>) -> bool {
    &&& mapping.len() <= usize::MAX
    &&& forall|i: int| 0 <= i < mapping.len() ==> (#[trigger] mapping[i]) < mapping.len()
    &&& forall|i: int, j: int|
        0 <= i < mapping.len() && 0 <= j < mapping.len() && i != j ==> mapping[i] != mapping[j]
}

/// Where `mapping` sends `i`: beyond its length, nowhere else.
pub open spec fn apply_mapping(mapping: Seq<usize>, i: int) -> int {
    if 0 <= i < mapping.len() {
        mapping[i] as int
    } else {
        i
    }
}

/// The mapping that does `first` and then `second`.
pub open spec fn composed(first: Seq<usize>, second: Seq<usize>) -> Seq<usize> {
    Seq::new(
        if first.len() >= second.len() {
            first.len()
        } else {
            second.len()
        },
        |i: int| apply_mapping(second, apply_mapping(first, i)) as usize,
    )
}

/// A number that `mapping` sends to `j`.
pub open spec fn preimage(mapping: Seq<usize>, j: int) -> int {
    choose|i: int| 0 <= i < mapping.len() && mapping[i] == j
}

/// The mapping that undoes `mapping`.
pub open spec fn inverse_mapping(mapping: Seq<usize>) -> Seq<usize> {
    Seq::new(mapping.len(), |j: int| preimage(mapping, j) as usize)
}

/// Where `i` is after `mapping` was applied `times` times.
pub open spec fn iterate(mapping: Seq<usize>, times: nat, i: int) -> int
    decreases times,
{
    if times == 0 {
        i
    } else {
        apply_mapping(mapping, iterate(mapping, (times - 1) as nat, i))
    }
}

/// Where `i` is after `mapping` was applied `power` times; a negative power
/// applies what undoes `mapping`.
pub open spec fn powered(mapping: Seq<usize>, power: int, i: int) -> int {
    if power >= 0 {
        iterate(mapping, power as nat, i)
    } else {
        iterate(inverse_mapping(mapping), (-power) as nat, i)
    }
}

/// A list of distinct numbers below `n` has at most `n` entries.
pub proof fn lemma_distinct_bounded(s: Seq<usize>, n: nat)
    requires
        s.no_duplicates(),
        forall|i: int| 0 <= i < s.len() ==> (#[trigger] s[i]) < n,
    ensures
        s.len() <= n,
    decreases n,
{
    if s.len() > 0 {
        if n == 0 {
            assert(s[0] < n);
        } else {
            let top = (n - 1) as usize;
            if s.contains(top) {
                let j = choose|j: int| 0 <= j < s.len() && s[j] == top;
                let t = s.remove(j);
                assert forall|i: int| 0 <= i < t.len() implies (#[trigger] t[i]) < n - 1 by {
                    if i < j {
                        assert(t[i] == s[i]);
                    } else {
                        assert(t[i] == s[i + 1]);
                    }
                }
                assert(t.no_duplicates()) by {
                    assert forall|a: int, b: int|
                        0 <= a < t.len() && 0 <= b < t.len() && a != b implies t[a] != t[b] by {
                        let a2 = if a < j {
                            a
                        } else {
                            a + 1
                        };
                        let b2 = if b < j {
                            b
                        } else {
                            b + 1
                        };
                        assert(t[a] == s[a2] && t[b] == s[b2]);
                    }
                }
                lemma_distinct_bounded(t, (n - 1) as nat);
            } else {
                assert forall|i: int| 0 <= i < s.len() implies (#[trigger] s[i]) < n - 1 by {
                    if s[i] == top {
                        assert(s.contains(top));
                    }
                }
                lemma_distinct_bounded(s, (n - 1) as nat);
            }
        }
    }
}

/// A bijection reaches every number below its length.
pub proof fn lemma_bijection_onto(mapping: Seq<usize>, j: int)
    requires
        is_bijection(mapping),
        0 <= j < mapping.len(),
    ensures
        exists|i: int| 0 <= i < mapping.len() && mapping[i] == j,
{
    if !exists|i: int| 0 <= i < mapping.len() && mapping[i] == j {
        let n = mapping.len();
        let t = Seq::new(
            n,
            |i: int|
                if mapping[i] > j {
                    (mapping[i] - 1) as usize
                } else {
                    mapping[i]
                },
        );
        assert forall|i: int| 0 <= i < t.len() implies (#[trigger] t[i]) < n - 1 by {
            assert(mapping[i] < n);
            assert(mapping[i] != j);
        }
        assert(t.no_duplicates()) by {
            assert forall|a: int, b: int| 0 <= a < t.len() && 0 <= b < t.len() && a != b implies t[a]
                != t[b] by {
                assert(mapping[a] != mapping[b]);
                assert(mapping[a] != j && mapping[b] != j);
            }
        }
        lemma_distinct_bounded(t, (n - 1) as nat);
    }
}

/// What undoes a bijection is a bijection, and undoes it from both sides.
pub proof fn lemma_inverse_mapping(mapping: Seq<usize>)
    requires
        is_bijection(mapping),
    ensures
        is_bijection(inverse_mapping(mapping)),
        inverse_mapping(mapping).len() == mapping.len(),
        forall|i: int|
            0 <= i < mapping.len() ==> (#[trigger] inverse_mapping(mapping)[mapping[i] as int]) == i,
        forall|j: int|
            0 <= j < mapping.len() ==> mapping[(#[trigger] inverse_mapping(mapping)[j]) as int] == j,
{
    let inv = inverse_mapping(mapping);
    assert forall|j: int| 0 <= j < mapping.len() implies 0 <= (#[trigger] inv[j]) < mapping.len()
        && mapping[inv[j] as int] == j by {
        lemma_bijection_onto(mapping, j);
        let i = preimage(mapping, j);
        assert(0 <= i < mapping.len() && mapping[i] == j);
        assert(inv[j] == i as usize);
    }
    assert forall|i: int| 0 <= i < mapping.len() implies (#[trigger] inv[mapping[i] as int]) == i by {
        let j = mapping[i] as int;
        assert(mapping[inv[j] as int] == j);
    }
    assert forall|a: int, b: int| 0 <= a < inv.len() && 0 <= b < inv.len() && a != b implies inv[a]
        != inv[b] by {
        assert(mapping[inv[a] as int] == a);
        assert(mapping[inv[b] as int] == b);
    }
}

/// Doing one bijection after another is a bijection.
pub proof fn lemma_composed_bijection(first: Seq<usize>, second: Seq<usize>)
    requires
        is_bijection(first),
        is_bijection(second),
        first.len() <= usize::MAX,
        second.len() <= usize::MAX,
    ensures
        is_bijection(composed(first, second)),
        forall|i: int|
            #[trigger] apply_mapping(composed(first, second), i) == apply_mapping(
                second,
                apply_mapping(first, i),
            ),
{
    let both = composed(first, second);
    assert forall|i: int| 0 <= i < both.len() implies (#[trigger] both[i]) < both.len() by {
        let mid = apply_mapping(first, i);
        if mid < first.len() && i < first.len() {
            assert(first[i] < first.len());
        }
    }
    assert forall|i: int, j: int| 0 <= i < both.len() && 0 <= j < both.len() && i != j implies both[i]
        != both[j] by {
        let a = apply_mapping(first, i);
        let b = apply_mapping(first, j);
        if i < first.len() {
            assert(first[i] < first.len());
        }
        if j < first.len() {
            assert(first[j] < first.len());
        }
        assert(a != b);
        if a < second.len() {
            assert(second[a] < second.len());
        }
        if b < second.len() {
            assert(second[b] < second.len());
        }
    }
    assert forall|i: int|
        #[trigger] apply_mapping(both, i) == apply_mapping(second, apply_mapping(first, i)) by {
        if 0 <= i < both.len() {
        } else if i >= 0 {
            assert(apply_mapping(first, i) == i);
        } else {
        }
    }
}

/// Composing with the permutation that moves nothing changes nothing, from
/// either side.
pub proof fn lemma_compose_identity(mapping: Seq<usize>)
    requires
        is_bijection(mapping),
        mapping.len() <= usize::MAX,
    ensures
        forall|i: int|
            #[trigger] apply_mapping(composed(mapping, Seq::empty()), i) == apply_mapping(mapping, i),
        forall|i: int|
            #[trigger] apply_mapping(composed(Seq::empty(), mapping), i) == apply_mapping(mapping, i),
{
    assert(is_bijection(Seq::<usize>::empty()));
    lemma_composed_bijection(mapping, Seq::empty());
    lemma_composed_bijection(Seq::empty(), mapping);
}

/// A permutation to the power of minus one, composed with the permutation
/// from either side, moves nothing.
pub proof fn lemma_inverse_composes_to_identity(mapping: Seq<usize>)
    requires
        is_bijection(mapping),
        mapping.len() <= usize::MAX,
    ensures
        forall|i: int| #[trigger] apply_mapping(mapping, powered(mapping, -1, i)) == i,
        forall|i: int| #[trigger] powered(mapping, -1, apply_mapping(mapping, i)) == i,
        forall|i: int|
            #[trigger] apply_mapping(composed(inverse_mapping(mapping), mapping), i) == i,
        forall|i: int|
            #[trigger] apply_mapping(composed(mapping, inverse_mapping(mapping)), i) == i,
{
    let inv = inverse_mapping(mapping);
    lemma_inverse_mapping(mapping);
    lemma_composed_bijection(inv, mapping);
    lemma_composed_bijection(mapping, inv);
    assert forall|i: int| #[trigger] apply_mapping(mapping, powered(mapping, -1, i)) == i by {
        assert(iterate(inv, 1, i) == apply_mapping(inv, iterate(inv, 0, i)));
        if 0 <= i < mapping.len() {
            assert(mapping[inv[i] as int] == i);
        }
    }
    assert forall|i: int| #[trigger] powered(mapping, -1, apply_mapping(mapping, i)) == i by {
        let image = apply_mapping(mapping, i);
        assert(iterate(inv, 1, image) == apply_mapping(inv, iterate(inv, 0, image)));
        if 0 <= i < mapping.len() {
            assert(inv[mapping[i] as int] == i);
        }
    }
    assert forall|i: int| #[trigger] apply_mapping(composed(inv, mapping), i) == i by {
        if 0 <= i < mapping.len() {
            assert(mapping[inv[i] as int] == i);
        }
    }
    assert forall|i: int| #[trigger] apply_mapping(composed(mapping, inv), i) == i by {
        if 0 <= i < mapping.len() {
            assert(inv[mapping[i] as int] == i);
        }
    }
}

/// Applying a mapping `a + b` times is applying it `a` times and then `b`
/// times.
pub proof fn lemma_iterate_add(mapping: Seq<usize>, a: nat, b: nat, i: int)
    ensures
        iterate(mapping, a + b, i) == iterate(mapping, b, iterate(mapping, a, i)),
    decreases b,
{
    if b > 0 {
        lemma_iterate_add(mapping, a, (b - 1) as nat, i);
    }
}

/// The distance of a number from zero.
pub fn magnitude(power: i128) -> (distance: u128)
    ensures
        power >= 0 ==> distance == power,
        power < 0 ==> distance == -power,
{
    if power >= 0 {
        power as u128
    } else if power == i128::MIN {
        0x8000_0000_0000_0000_0000_0000_0000_0000u128
    } else {
        (-power) as u128
    }
}

impl Permutation {
    #[verifier::type_invariant]
    pub open spec fn inv(self) -> bool {
        self.wf()
    }

    /// The images of the numbers below the length.
    pub closed spec fn mapping_view(&self) -> Seq<usize> {
        self.mapping@
    }

    /// The permutation is one to one and onto.
    pub open spec fn wf(&self) -> bool {
        is_bijection(self.mapping_view())
    }

    /// Where the permutation sends `i`.
    pub open spec fn apply(&self, i: int) -> int {
        apply_mapping(self.mapping_view(), i)
    }

    /// Whether two permutations send every number to the same place.
    pub open spec fn same_as(&self, other: &Permutation) -> bool {
        forall|i: int| #[trigger] self.apply(i) == other.apply(i)
    }

    /// The permutation that moves nothing.
    pub fn identity() -> (id: Permutation)
        ensures
            id.wf(),
            id.mapping_view() == Seq::<usize>::empty(),
    {
        Permutation { mapping: Vec::new() }
    }

    /// The permutation with the given images of `0..len`, if they are a
    /// permutation of `0..len`.
    pub fn from_mapping(mapping: Vec<usize>) -> (permutation: Option<Permutation>)
        ensures
            match permutation {
                Some(p) => is_bijection(mapping@) && p.mapping_view() == mapping@,
                None => !is_bijection(mapping@),
            },
    {
        let len = mapping.len();
        let mut seen: Vec<bool> = Vec::new();
        let mut k: usize = 0;
        while k < len
            invariant
                k <= len,
                seen@.len() == k,
                forall|j: int| 0 <= j < k ==> !(#[trigger] seen@[j]),
            decreases len - k,
        {
            seen.push(false);
            k += 1;
        }
        let mut i: usize = 0;
        while i < len
            invariant
                i <= len,
                len == mapping@.len(),
                seen@.len() == len,
                forall|a: int| 0 <= a < i ==> (#[trigger] mapping@[a]) < len,
                forall|a: int, b: int| 0 <= a < i && 0 <= b < i && a != b ==> mapping@[a] != mapping@[b],
                forall|v: int|
                    0 <= v < len ==> (#[trigger] seen@[v] <==> exists|a: int|
                        0 <= a < i && mapping@[a] == v),
            decreases len - i,
        {
            let image = mapping[i];
            if image >= len {
                return None;
            }
            if seen[image] {
                let ghost a = choose|a: int| 0 <= a < i && mapping@[a] == image;
                assert(mapping@[a] == mapping@[i as int]);
                return None;
            }
            let ghost before = seen@;
            seen[image] = true;
            proof {
                assert forall|v: int| 0 <= v < len implies (#[trigger] seen@[v] <==> exists|a: int|
                    0 <= a < i + 1 && mapping@[a] == v) by {
                    if v == image {
                        assert(mapping@[i as int] == v);
                    } else {
                        if before[v] {
                            let a = choose|a: int| 0 <= a < i && mapping@[a] == v;
                            assert(0 <= a < i + 1 && mapping@[a] == v);
                        }
                        if exists|a: int| 0 <= a < i + 1 && mapping@[a] == v {
                            let a = choose|a: int| 0 <= a < i + 1 && mapping@[a] == v;
                            assert(a < i);
                        }
                    }
                }
                assert forall|a: int, b: int| 0 <= a < i + 1 && 0 <= b < i + 1 && a != b implies mapping@[a]
                    != mapping@[b] by {
                    if a == i && mapping@[b] == image {
                        assert(before[image as int]);
                    }
                    if b == i && mapping@[a] == image {
                        assert(before[image as int]);
                    }
                }
            }
            i += 1;
        }
        Some(Permutation { mapping })
    }

    /// The number from which on nothing is moved.
    pub fn len(&self) -> (len: usize)
        ensures
            len == self.mapping_view().len(),
    {
        self.mapping.len()
    }

    /// The images of the numbers below the length.
    pub fn mapping(&self) -> (mapping: &Vec<usize>)
        ensures
            mapping@ == self.mapping_view(),
    {
        &self.mapping
    }

    /// Where the permutation sends `i`.
    pub fn get(&self, i: usize) -> (image: usize)
        ensures
            image == self.apply(i as int),
    {
        if i < self.mapping.len() {
            self.mapping[i]
        } else {
            i
        }
    }

    /// Whether two permutations send every number to the same place.
    pub fn equals(&self, other: &Permutation) -> (same: bool)
        ensures
            same == self.same_as(other),
    {
        let len = if self.mapping.len() >= other.mapping.len() {
            self.mapping.len()
        } else {
            other.mapping.len()
        };
        let mut i: usize = 0;
        while i < len
            invariant
                i <= len,
                len >= self.mapping@.len(),
                len >= other.mapping@.len(),
                forall|j: int| 0 <= j < i ==> #[trigger] self.apply(j) == other.apply(j),
            decreases len - i,
        {
            if self.get(i) != other.get(i) {
                assert(self.apply(i as int) != other.apply(i as int));
                return false;
            }
            i += 1;
        }
        assert forall|j: int| #[trigger] self.apply(j) == other.apply(j) by {
            if 0 <= j < len {
            }
        }
        true
    }

    /// Whether the permutation moves nothing.
    pub fn is_identity(&self) -> (unmoved: bool)
        ensures
            unmoved == forall|i: int| #[trigger] self.apply(i) == i,
    {
        let mut i: usize = 0;
        while i < self.mapping.len()
            invariant
                i <= self.mapping@.len(),
                forall|j: int| 0 <= j < i ==> #[trigger] self.apply(j) == j,
            decreases self.mapping@.len() - i,
        {
            if self.mapping[i] != i {
                assert(self.apply(i as int) != i);
                return false;
            }
            i += 1;
        }
        assert forall|j: int| #[trigger] self.apply(j) == j by {
            if 0 <= j < self.mapping@.len() {
            }
        }
        true
    }

    /// The permutation that does `self` and then `other`.
    pub fn compose(&self, other: &Permutation) -> (both: Permutation)
        ensures
            both.wf(),
            both.mapping_view() == composed(self.mapping_view(), other.mapping_view()),
            forall|i: int| #[trigger] both.apply(i) == other.apply(self.apply(i)),
    {
        let len = if self.mapping.len() >= other.mapping.len() {
            self.mapping.len()
        } else {
            other.mapping.len()
        };
        let mut mapping: Vec<usize> = Vec::new();
        let mut i: usize = 0;
        while i < len
            invariant
                i <= len,
                len == composed(self.mapping@, other.mapping@).len(),
                mapping@ == composed(self.mapping@, other.mapping@).take(i as int),
            decreases len - i,
        {
            mapping.push(other.get(self.get(i)));
            assert(mapping@ =~= composed(self.mapping@, other.mapping@).take(i + 1));
            i += 1;
        }
        proof {
            use_type_invariant(self);
            use_type_invariant(other);
            assert(mapping@ =~= composed(self.mapping@, other.mapping@));
            lemma_composed_bijection(self.mapping@, other.mapping@);
        }
        Permutation { mapping }
    }

    /// Does `other` after `self`.
    pub fn compose_into(&mut self, other: &Permutation)
        ensures
            final(self).wf(),
            final(self).mapping_view() == composed(old(self).mapping_view(), other.mapping_view()),
            forall|i: int| #[trigger] final(self).apply(i) == other.apply(old(self).apply(i)),
    {
        let both = self.compose(other);
        *self = both;
    }

    /// The permutation that undoes this one.
    pub fn inverse(&self) -> (inverse: Permutation)
        ensures
            inverse.wf(),
            inverse.mapping_view() == inverse_mapping(self.mapping_view()),
            forall|i: int| #[trigger] inverse.apply(self.apply(i)) == i,
            forall|i: int| #[trigger] self.apply(inverse.apply(i)) == i,
    {
        proof {
            use_type_invariant(self);
        }
        let len = self.mapping.len();
        let mut mapping: Vec<usize> = Vec::new();
        let mut k: usize = 0;
        while k < len
            invariant
                k <= len,
                mapping@.len() == k,
            decreases len - k,
        {
            mapping.push(0);
            k += 1;
        }
        let mut i: usize = 0;
        while i < len
            invariant
                i <= len,
                len == self.mapping@.len(),
                mapping@.len() == len,
                is_bijection(self.mapping@),
                forall|a: int| 0 <= a < i ==> mapping@[(#[trigger] self.mapping@[a]) as int] == a,
            decreases len - i,
        {
            let image = self.mapping[i];
            assert(self.mapping@[i as int] < len);
            mapping[image] = i;
            i += 1;
        }
        proof {
            lemma_inverse_mapping(self.mapping@);
            let inv = inverse_mapping(self.mapping@);
            assert forall|j: int| 0 <= j < len implies mapping@[j] == inv[j] by {
                assert(self.mapping@[inv[j] as int] == j);
            }
            assert(mapping@ =~= inv);
            assert forall|i: int| #[trigger] apply_mapping(inv, apply_mapping(self.mapping@, i)) == i by {
                if 0 <= i < len {
                    assert(inv[self.mapping@[i] as int] == i);
                }
            }
            assert forall|i: int| #[trigger] apply_mapping(self.mapping@, apply_mapping(inv, i)) == i by {
                if 0 <= i < len {
                    assert(self.mapping@[inv[i] as int] == i);
                }
            }
        }
        Permutation { mapping }
    }

    /// Replaces the permutation by its power: `power` times the permutation,
    /// or what undoes it if `power` is negative.
    pub fn exponentiate(&mut self, power: i128)
        ensures
            final(self).wf(),
            final(self).mapping_view().len() <= old(self).mapping_view().len(),
            forall|i: int| #[trigger] final(self).apply(i) == powered(old(self).mapping_view(), power as int, i),
    {
        proof {
            use_type_invariant(&*self);
        }
        let mut base = if power >= 0 {
            self.clone()
        } else {
            self.inverse()
        };
        let ghost start = base.mapping@;
        let mut left: u128 = magnitude(power);
        let ghost total: nat = left as nat;
        let mut result = Permutation::identity();
        let ghost mut done: nat = 0;
        let ghost mut stride: nat = 1;
        proof {
            if power >= 0 {
                assert(start =~= self.mapping@);
            } else {
                lemma_inverse_mapping(self.mapping@);
            }
            assert forall|i: int| #[trigger] base.apply(i) == iterate(start, stride, i) by {
                assert(iterate(start, 0, i) == i);
                assert(iterate(start, 1, i) == apply_mapping(start, iterate(start, 0, i)));
            }
            assert forall|i: int| #[trigger] result.apply(i) == iterate(start, done, i) by {
                assert(iterate(start, 0, i) == i);
            }
        }
        while left > 0
            invariant
                is_bijection(start),
                base.wf(),
                result.wf(),
                base.mapping@.len() == start.len(),
                result.mapping@.len() <= start.len(),
                start.len() == old(self).mapping@.len(),
                done + left * stride == total,
                forall|i: int| #[trigger] result.apply(i) == iterate(start, done, i),
                forall|i: int| #[trigger] base.apply(i) == iterate(start, stride, i),
            decreases left,
        {
            let ghost left_before = left;
            if left % 2 == 1 {
                let ghost before = result;
                result = result.compose(&base);
                proof {
                    assert forall|i: int| #[trigger] result.apply(i) == iterate(start, done + stride, i) by {
                        lemma_iterate_add(start, done, stride, i);
                        assert(result.apply(i) == base.apply(before.apply(i)));
                    }
                    done = done + stride;
                }
            }
            let ghost half = base;
            let squared = base.compose(&base);
            base = squared;
            proof {
                assert forall|i: int| #[trigger] base.apply(i) == iterate(start, stride + stride, i) by {
                    lemma_iterate_add(start, stride, stride, i);
                    assert(base.apply(i) == half.apply(half.apply(i)));
                }
            }
            left = left / 2;
            proof {
                assert(done + left * (stride + stride) == total) by (nonlinear_arith)
                    requires
                        left == left_before / 2,
                        (left_before % 2 == 1 ==> done == (done - stride) + stride && (done - stride)
                            + left_before * stride == total),
                        (left_before % 2 != 1 ==> done + left_before * stride == total),
                ;
                stride = stride + stride;
            }
        }
        *self = result;
    }
}

impl Clone for Permutation {
    fn clone(&self) -> (copy: Self)
        ensures
            copy.mapping_view() == self.mapping_view(),
    {
        proof {
            use_type_invariant(self);
        }
        let mapping = self.mapping.clone();
        assert(mapping@ =~= self.mapping@);
        Permutation { mapping }
    }
}

} // verus!

verus! {

/// A move of a puzzle.
#[derive(Debug)]
pub struct Generator {
    pub name: Vec<u8>,
    pub permutation: Permutation,
    /// The move that undoes this one, by its place among the moves.
    pub inverse: usize,
}

/// The group of a puzzle: its moves with their effects, and the color and the
/// piece of every facelet.
#[derive(Debug)]
pub struct PermutationGroup {
    facelet_colors: Vec<String>,
    piece_assignments: Vec<String>,
    generators: Vec<Generator>,
}

/// Whether a mapping keeps the facelets of a piece together: two facelets of
/// one piece go to two facelets of one piece.
#[verifier::opaque]
pub open spec fn preserves_pieces(mapping: Seq<usize>, pieces: Seq<String>) -> bool {
    forall|i: int, j: int|
        0 <= i < pieces.len() && 0 <= j < pieces.len() && (#[trigger] pieces[i])@ == (#[trigger] pieces[j])@
            ==> pieces[apply_mapping(mapping, i)]@ == pieces[apply_mapping(mapping, j)]@
}

/// Whether `inverse` brings back what `mapping` has moved.
pub open spec fn undoes(inverse: Seq<usize>, mapping: Seq<usize>) -> bool {
    &&& inverse.len() == mapping.len()
    &&& forall|i: int| 0 <= i < mapping.len() ==> inverse[(#[trigger] mapping[i]) as int] == i
}

/// What holds of the move `g` of a group: it permutes the facelets, keeps the
/// pieces together, and names the move that undoes it.
pub open spec fn generator_wf(generators: Seq<Generator>, pieces: Seq<String>, g: int) -> bool {
    let generator = generators[g];
    &&& is_bijection(generator.permutation.mapping_view())
    &&& generator.permutation.mapping_view().len() <= pieces.len()
    &&& preserves_pieces(generator.permutation.mapping_view(), pieces)
    &&& generator.inverse < generators.len()
    &&& undoes(
        generators[generator.inverse as int].permutation.mapping_view(),
        generator.permutation.mapping_view(),
    )
}

/// What holds of the moves of a group.
pub open spec fn generators_wf(generators: Seq<Generator>, pieces: Seq<String>) -> bool {
    &&& pieces.len() <= usize::MAX
    &&& forall|g: int| 0 <= g < generators.len() ==> #[trigger] generator_wf(generators, pieces, g)
}

/// What brings back what a bijection has moved is what undoes it.
pub proof fn lemma_undoes(inverse: Seq<usize>, mapping: Seq<usize>)
    requires
        is_bijection(mapping),
        undoes(inverse, mapping),
    ensures
        inverse == inverse_mapping(mapping),
{
    lemma_inverse_mapping(mapping);
    let inv = inverse_mapping(mapping);
    assert forall|j: int| 0 <= j < mapping.len() implies inverse[j] == inv[j] by {
        let i = inv[j] as int;
        assert(mapping[i] == j);
        assert(inverse[mapping[i] as int] == i);
    }
    assert(inverse =~= inv);
}

/// The place of the first move of that name.
pub open spec fn find_generator(generators: Seq<Generator>, name: Seq<u8>, from: int) -> Option<int>
    decreases generators.len() - from,
{
    if from < 0 || from >= generators.len() {
        None
    } else if generators[from].name@ == name {
        Some(from)
    } else {
        find_generator(generators, name, from + 1)
    }
}

/// The effect of the first `upto` moves of a sequence, one after the other.
pub open spec fn effect_of(generators: Seq<Generator>, moves: Seq<usize>, upto: int) -> Seq<usize>
    decreases upto,
{
    if upto <= 0 {
        Seq::empty()
    } else {
        composed(
            effect_of(generators, moves, upto - 1),
            generators[moves[upto - 1] as int].permutation.mapping_view(),
        )
    }
}

/// The moves that undo a sequence of moves: the undoing moves in reverse
/// order.
pub open spec fn inverted_moves(generators: Seq<Generator>, moves: Seq<usize>) -> Seq<usize> {
    Seq::new(moves.len(), |i: int| generators[moves[moves.len() - 1 - i] as int].inverse)
}

/// A sequence of moves `times` times in a row.
pub open spec fn repeated_moves(moves: Seq<usize>, times: nat) -> Seq<usize>
    decreases times,
{
    if times == 0 {
        Seq::empty()
    } else {
        repeated_moves(moves, (times - 1) as nat) + moves
    }
}

/// Whether every move of the sequence is a move of the group.
pub open spec fn moves_valid(generators: Seq<Generator>, moves: Seq<usize>) -> bool {
    forall|i: int| 0 <= i < moves.len() ==> (#[trigger] moves[i]) < generators.len()
}

fn pieces_preserved(permutation: &Permutation, pieces: &Vec<String>) -> (kept: bool)
    requires
        permutation.mapping_view().len() <= pieces@.len(),
    ensures
        kept == preserves_pieces(permutation.mapping_view(), pieces@),
{
    proof {
        use_type_invariant(permutation);
        reveal(preserves_pieces);
    }
    let n = pieces.len();
    let ghost mapping = permutation.mapping_view();
    let mut i: usize = 0;
    while i < n
        invariant
            i <= n,
            n == pieces@.len(),
            is_bijection(mapping),
            mapping == permutation.mapping_view(),
            mapping.len() <= n,
            forall|a: int, b: int|
                0 <= a < i && 0 <= b < n && (#[trigger] pieces@[a])@ == (#[trigger] pieces@[b])@
                    ==> pieces@[apply_mapping(mapping, a)]@ == pieces@[apply_mapping(mapping, b)]@,
        decreases n - i,
    {
        let mut j: usize = 0;
        while j < n
            invariant
                i < n,
                j <= n,
                n == pieces@.len(),
                is_bijection(mapping),
                mapping == permutation.mapping_view(),
                mapping.len() <= n,
                forall|b: int|
                    0 <= b < j && pieces@[i as int]@ == (#[trigger] pieces@[b])@ ==> pieces@[apply_mapping(
                        mapping,
                        i as int,
                    )]@ == pieces@[apply_mapping(mapping, b)]@,
            decreases n - j,
        {
            if pieces[i] == pieces[j] {
                let to_i = permutation.get(i);
                let to_j = permutation.get(j);
                assert(to_i < n && to_j < n) by {
                    if i < mapping.len() {
                        assert(mapping[i as int] < mapping.len());
                    }
                    if j < mapping.len() {
                        assert(mapping[j as int] < mapping.len());
                    }
                }
                if pieces[to_i] != pieces[to_j] {
                    proof {
                        reveal(preserves_pieces);
                        assert(pieces@[i as int]@ == pieces@[j as int]@);
                    }
                    return false;
                }
            }
            j += 1;
        }
        i += 1;
    }
    proof {
        reveal(preserves_pieces);
    }
    true
}

/// Whether two mappings send every number to the same place.
pub open spec fn same_mapping(first: Seq<usize>, second: Seq<usize>) -> bool {
    forall|i: int| #[trigger] apply_mapping(first, i) == apply_mapping(second, i)
}

/// The place of the first of the moves from `from` on that is as long as
/// `undone` and sends every number where `undone` sends it.
pub open spec fn first_same(moves: Seq<(Vec<u8>, Permutation)>, undone: Seq<usize>, from: int) -> Option<int>
    decreases moves.len() - from,
{
    if from < 0 || from >= moves.len() {
        None
    } else if moves[from].1.mapping_view().len() == undone.len() && same_mapping(
        moves[from].1.mapping_view(),
        undone,
    ) {
        Some(from)
    } else {
        first_same(moves, undone, from + 1)
    }
}

/// Whether the move at `g` can be a move of a puzzle with the given pieces: it
/// does not reach beyond the facelets, it keeps the pieces together, and the
/// move that undoes it is among the moves.
pub open spec fn move_fits(moves: Seq<(Vec<u8>, Permutation)>, pieces: Seq<String>, g: int) -> bool {
    let mapping = moves[g].1.mapping_view();
    &&& mapping.len() <= pieces.len()
    &&& preserves_pieces(mapping, pieces)
    &&& first_same(moves, inverse_mapping(mapping), 0) is Some
}

/// The place of the first of the moves that is as long as `undone` and the
/// same permutation.
fn find_inverse(moves: &Vec<(Vec<u8>, Permutation)>, undone: &Permutation) -> (found: Option<usize>)
    ensures
        match found {
            Some(at) => first_same(moves@, undone.mapping_view(), 0) == Some(at as int) && at < moves@.len()
                && moves@[at as int].1.mapping_view().len() == undone.mapping_view().len()
                && moves@[at as int].1.same_as(undone),
            None => first_same(moves@, undone.mapping_view(), 0) is None,
        },
{
    let mut at: usize = 0;
    while at < moves.len()
        invariant
            at <= moves@.len(),
            first_same(moves@, undone.mapping_view(), 0) == first_same(moves@, undone.mapping_view(), at as int),
        decreases moves@.len() - at,
    {
        let same = moves[at].1.equals(undone);
        proof {
            let here = moves@[at as int].1;
            if same {
                assert forall|i: int| #[trigger]
                    apply_mapping(here.mapping_view(), i) == apply_mapping(undone.mapping_view(), i) by {
                    assert(here.apply(i) == undone.apply(i));
                }
            }
            if same_mapping(here.mapping_view(), undone.mapping_view()) {
                assert forall|i: int| #[trigger] here.apply(i) == undone.apply(i) by {
                    assert(apply_mapping(here.mapping_view(), i) == apply_mapping(undone.mapping_view(), i));
                }
            }
        }
        if moves[at].1.len() == undone.len() && same {
            return Some(at);
        }
        at += 1;
    }
    None
}

impl PermutationGroup {
    #[verifier::type_invariant]
    pub open spec fn inv(self) -> bool {
        self.wf()
    }

    /// The moves of the group.
    pub closed spec fn generators_view(&self) -> Seq<Generator> {
        self.generators@
    }

    /// The color of every facelet.
    pub closed spec fn colors_view(&self) -> Seq<String> {
        self.facelet_colors@
    }

    /// The piece of every facelet.
    pub closed spec fn pieces_view(&self) -> Seq<String> {
        self.piece_assignments@
    }

    /// What holds of every group.
    pub open spec fn wf(&self) -> bool {
        &&& self.colors_view().len() == self.pieces_view().len()
        &&& generators_wf(self.generators_view(), self.pieces_view())
    }

    /// The group of a puzzle with the given color and piece of each facelet
    /// and the given moves. There is no group if the lists of colors and
    /// pieces differ in length, if a move reaches beyond the facelets or tears
    /// a piece apart, or if the move that undoes a move is not among the
    /// moves.
    pub fn new(
        facelet_colors: Vec<String>,
        piece_assignments: Vec<String>,
        moves: Vec<(Vec<u8>, Permutation)>,
    ) -> (group: Option<PermutationGroup>)
        ensures
            group matches Some(group) ==> {
                    &&& group.wf()
                    &&& group.colors_view() == facelet_colors@
                    &&& group.pieces_view() == piece_assignments@
                    &&& group.generators_view().len() == moves@.len()
                    &&& forall|g: int|
                        0 <= g < moves@.len() ==> (#[trigger] group.generators_view()[g]).name@
                            == moves@[g].0@ && group.generators_view()[g].permutation.mapping_view()
                            == moves@[g].1.mapping_view() && first_same(
                            moves@,
                            inverse_mapping(moves@[g].1.mapping_view()),
                            0,
                        ) == Some(group.generators_view()[g].inverse as int)
            },
            group is Some <==> facelet_colors@.len() == piece_assignments@.len() && forall|g: int|
                0 <= g < moves@.len() ==> #[trigger] move_fits(moves@, piece_assignments@, g),
    {
        if facelet_colors.len() != piece_assignments.len() {
            return None;
        }
        let count = moves.len();
        let mut generators: Vec<Generator> = Vec::new();
        let mut g: usize = 0;
        while g < count
            invariant
                g <= count,
                count == moves@.len(),
                generators@.len() == g,
                forall|k: int|
                    0 <= k < g ==> {
                        let generator = #[trigger] generators@[k];
                        &&& generator.name@ == moves@[k].0@
                        &&& generator.permutation.mapping_view() == moves@[k].1.mapping_view()
                        &&& is_bijection(generator.permutation.mapping_view())
                        &&& generator.permutation.mapping_view().len() <= piece_assignments@.len()
                        &&& preserves_pieces(generator.permutation.mapping_view(), piece_assignments@)
                        &&& generator.inverse < count
                        &&& undoes(
                            moves@[generator.inverse as int].1.mapping_view(),
                            generator.permutation.mapping_view(),
                        )
                        &&& first_same(moves@, inverse_mapping(moves@[k].1.mapping_view()), 0) == Some(
                            generator.inverse as int,
                        )
                    },
                forall|k: int| 0 <= k < g ==> #[trigger] move_fits(moves@, piece_assignments@, k),
            decreases count - g,
        {
            let permutation = moves[g].1.clone();
            proof {
                use_type_invariant(&permutation);
            }
            if permutation.len() > piece_assignments.len() {
                assert(!move_fits(moves@, piece_assignments@, g as int));
                return None;
            }
            if !pieces_preserved(&permutation, &piece_assignments) {
                assert(!move_fits(moves@, piece_assignments@, g as int));
                return None;
            }
            let undone = permutation.inverse();
            let inverse = match find_inverse(&moves, &undone) {
                Some(inverse) => inverse,
                None => {
                    assert(!move_fits(moves@, piece_assignments@, g as int));
                    return None;
                },
            };
            assert(move_fits(moves@, piece_assignments@, g as int));
            proof {
                let found = moves@[inverse as int].1.mapping_view();
                let mapping = permutation.mapping_view();
                lemma_inverse_mapping(mapping);
                assert forall|i: int| 0 <= i < mapping.len() implies found[(#[trigger] mapping[i]) as int]
                    == i by {
                    let image = mapping[i] as int;
                    assert(moves@[inverse as int].1.apply(image) == undone.apply(image));
                    assert(undone.mapping_view()[image] == i);
                }
            }
            generators.push(
                Generator { name: bytes_to_vec(moves[g].0.as_slice()), permutation, inverse },
            );
            g += 1;
        }
        proof {
            assert forall|k: int| 0 <= k < generators@.len() implies #[trigger] generator_wf(
                generators@,
                piece_assignments@,
                k,
            ) by {
                let generator = generators@[k];
                let undo = generators@[generator.inverse as int];
                assert(undo.permutation.mapping_view() == moves@[generator.inverse as int].1.mapping_view());
            }
        }
        Some(PermutationGroup { facelet_colors, piece_assignments, generators })
    }

    /// The number of facelets.
    pub fn facelet_count(&self) -> (count: usize)
        ensures
            count == self.colors_view().len(),
    {
        self.facelet_colors.len()
    }

    /// The color of every facelet.
    pub fn facelet_colors(&self) -> (colors: &Vec<String>)
        ensures
            colors@ == self.colors_view(),
    {
        &self.facelet_colors
    }

    /// The piece of every facelet.
    pub fn piece_assignments(&self) -> (pieces: &Vec<String>)
        ensures
            pieces@ == self.pieces_view(),
    {
        &self.piece_assignments
    }

    /// The moves of the group.
    pub fn generators(&self) -> (generators: &Vec<Generator>)
        ensures
            generators@ == self.generators_view(),
    {
        &self.generators
    }

    /// The place of the move of that name.
    pub fn generator_index(&self, name: &[u8]) -> (found: Option<usize>)
        ensures
            match found {
                Some(index) => find_generator(self.generators_view(), name@, 0) == Some(index as int)
                    && index < self.generators_view().len(),
                None => find_generator(self.generators_view(), name@, 0) is None,
            },
    {
        let mut i: usize = 0;
        while i < self.generators.len()
            invariant
                i <= self.generators@.len(),
                find_generator(self.generators@, name@, 0) == find_generator(
                    self.generators@,
                    name@,
                    i as int,
                ),
            decreases self.generators@.len() - i,
        {
            if bytes_equal(self.generators[i].name.as_slice(), name) {
                return Some(i);
            }
            i += 1;
        }
        None
    }

    /// Replaces a sequence of moves by the sequence that undoes it.
    pub fn invert_generator_moves(&self, moves: &mut Vec<usize>)
        requires
            moves_valid(self.generators_view(), old(moves)@),
        ensures
            final(moves)@ == inverted_moves(self.generators_view(), old(moves)@),
            moves_valid(self.generators_view(), final(moves)@),
    {
        proof {
            use_type_invariant(self);
        }
        let mut inverted: Vec<usize> = Vec::new();
        let len = moves.len();
        let mut i: usize = 0;
        while i < len
            invariant
                i <= len,
                len == moves@.len(),
                moves@ == old(moves)@,
                moves_valid(self.generators@, moves@),
                inverted@ == inverted_moves(self.generators@, moves@).take(i as int),
            decreases len - i,
        {
            let index = moves[len - 1 - i];
            inverted.push(self.generators[index].inverse);
            assert(inverted@ =~= inverted_moves(self.generators@, moves@).take(i + 1));
            i += 1;
        }
        assert(inverted_moves(self.generators@, moves@).take(len as int) =~= inverted_moves(
            self.generators@,
            moves@,
        ));
        assert forall|k: int| 0 <= k < inverted@.len() implies (#[trigger] inverted@[k])
            < self.generators@.len() by {
            let index = moves@[len - 1 - k];
            assert(generator_wf(self.generators@, self.piece_assignments@, index as int));
        }
        *moves = inverted;
    }
}

} // verus!

verus! {

/// A sequence of moves of a group, with its effect.
#[derive(Debug)]
pub struct Algorithm {
    group: Arc<PermutationGroup>,
    move_seq: Vec<usize>,
    permutation: Permutation,
}

/// The effect of the first moves of a sequence is a permutation of the
/// facelets; one move more is done after them.
pub proof fn lemma_effect_step(
    generators: Seq<Generator>,
    pieces: Seq<String>,
    moves: Seq<usize>,
    upto: int,
)
    requires
        generators_wf(generators, pieces),
        moves_valid(generators, moves),
        0 <= upto <= moves.len(),
    ensures
        is_bijection(effect_of(generators, moves, upto)),
        effect_of(generators, moves, upto).len() <= pieces.len(),
        upto > 0 ==> forall|i: int|
            #[trigger] apply_mapping(effect_of(generators, moves, upto), i) == apply_mapping(
                generators[moves[upto - 1] as int].permutation.mapping_view(),
                apply_mapping(effect_of(generators, moves, upto - 1), i),
            ),
    decreases upto,
{
    if upto > 0 {
        lemma_effect_step(generators, pieces, moves, upto - 1);
        assert(generator_wf(generators, pieces, moves[upto - 1] as int));
        let g = generators[moves[upto - 1] as int].permutation.mapping_view();
        lemma_composed_bijection(effect_of(generators, moves, upto - 1), g);
    }
}

/// The effect of the first moves of a sequence depends on those moves alone.
pub proof fn lemma_effect_prefix(generators: Seq<Generator>, a: Seq<usize>, b: Seq<usize>, upto: int)
    requires
        0 <= upto <= a.len(),
        upto <= b.len(),
        forall|k: int| 0 <= k < upto ==> a[k] == b[k],
    ensures
        effect_of(generators, a, upto) == effect_of(generators, b, upto),
    decreases upto,
{
    if upto > 0 {
        lemma_effect_prefix(generators, a, b, upto - 1);
    }
}

/// One sequence of moves after another is a sequence of moves.
pub proof fn lemma_concat_valid(generators: Seq<Generator>, first: Seq<usize>, second: Seq<usize>)
    requires
        moves_valid(generators, first),
        moves_valid(generators, second),
    ensures
        moves_valid(generators, first + second),
{
    let all = first + second;
    assert forall|k: int| 0 <= k < all.len() implies (#[trigger] all[k]) < generators.len() by {
        if k < first.len() {
            assert(all[k] == first[k]);
        } else {
            assert(all[k] == second[k - first.len()]);
        }
    }
}

/// The effect of one sequence of moves after another is the effect of the
/// second after the effect of the first.
pub proof fn lemma_effect_concat(
    generators: Seq<Generator>,
    pieces: Seq<String>,
    first: Seq<usize>,
    second: Seq<usize>,
    upto: int,
    i: int,
)
    requires
        generators_wf(generators, pieces),
        moves_valid(generators, first),
        moves_valid(generators, second),
        0 <= upto <= second.len(),
    ensures
        apply_mapping(effect_of(generators, first + second, first.len() + upto), i) == apply_mapping(
            effect_of(generators, second, upto),
            apply_mapping(effect_of(generators, first, first.len() as int), i),
        ),
    decreases upto,
{
    let all = first + second;
    lemma_concat_valid(generators, first, second);
    if upto == 0 {
        lemma_effect_prefix(generators, all, first, first.len() as int);
    } else {
        lemma_effect_concat(generators, pieces, first, second, upto - 1, i);
        lemma_effect_step(generators, pieces, all, first.len() + upto);
        lemma_effect_step(generators, pieces, second, upto);
        assert(all[first.len() + upto - 1] == second[upto - 1]);
        let start = apply_mapping(effect_of(generators, first, first.len() as int), i);
        assert(apply_mapping(effect_of(generators, second, upto), start) == apply_mapping(
            generators[second[upto - 1] as int].permutation.mapping_view(),
            apply_mapping(effect_of(generators, second, upto - 1), start),
        ));
    }
}

/// The sequence of undoing moves is a sequence of moves.
pub proof fn lemma_inverted_valid(generators: Seq<Generator>, pieces: Seq<String>, moves: Seq<usize>)
    requires
        generators_wf(generators, pieces),
        moves_valid(generators, moves),
    ensures
        moves_valid(generators, inverted_moves(generators, moves)),
{
    let inverted = inverted_moves(generators, moves);
    assert forall|k: int| 0 <= k < inverted.len() implies (#[trigger] inverted[k]) < generators.len() by {
        let index = moves[moves.len() - 1 - k];
        assert(generator_wf(generators, pieces, index as int));
    }
}

/// The sequence of undoing moves undoes the sequence of moves.
pub proof fn lemma_effect_inverted(generators: Seq<Generator>, pieces: Seq<String>, moves: Seq<usize>, i: int)
    requires
        generators_wf(generators, pieces),
        moves_valid(generators, moves),
    ensures
        apply_mapping(
            effect_of(generators, inverted_moves(generators, moves), moves.len() as int),
            apply_mapping(effect_of(generators, moves, moves.len() as int), i),
        ) == i,
    decreases moves.len(),
{
    let inverted = inverted_moves(generators, moves);
    lemma_inverted_valid(generators, pieces, moves);
    if moves.len() > 0 {
        let n = moves.len() as int;
        let rest = moves.drop_last();
        let last = generators[moves[n - 1] as int];
        let undo = generators[last.inverse as int];
        assert(generator_wf(generators, pieces, moves[n - 1] as int));
        assert(generator_wf(generators, pieces, last.inverse as int));
        let before = apply_mapping(effect_of(generators, rest, n - 1), i);
        let image = apply_mapping(effect_of(generators, moves, n), i);
        // the image is the last move applied to what the moves before it give
        lemma_effect_prefix(generators, moves, rest, n - 1);
        lemma_effect_step(generators, pieces, moves, n);
        assert(image == apply_mapping(last.permutation.mapping_view(), before));
        // the undoing sequence starts with the move that undoes the last move
        let first = seq![last.inverse];
        let tail = inverted_moves(generators, rest);
        assert(inverted =~= first + tail);
        assert(moves_valid(generators, first));
        lemma_inverted_valid(generators, pieces, rest);
        lemma_effect_concat(generators, pieces, first, tail, n - 1, image);
        lemma_effect_step(generators, pieces, first, 1);
        assert(apply_mapping(effect_of(generators, first, 0), image) == image);
        lemma_undoes(undo.permutation.mapping_view(), last.permutation.mapping_view());
        lemma_inverse_mapping(last.permutation.mapping_view());
        let mapping = last.permutation.mapping_view();
        assert(apply_mapping(undo.permutation.mapping_view(), apply_mapping(mapping, before)) == before) by {
            if 0 <= before < mapping.len() {
                assert(inverse_mapping(mapping)[mapping[before] as int] == before);
            }
        }
        lemma_effect_inverted(generators, pieces, rest, i);
    }
}

/// A sequence of moves repeated is a sequence of moves.
pub proof fn lemma_repeated_valid(generators: Seq<Generator>, moves: Seq<usize>, times: nat)
    requires
        moves_valid(generators, moves),
    ensures
        moves_valid(generators, repeated_moves(moves, times)),
        repeated_moves(moves, times).len() == times * moves.len(),
    decreases times,
{
    if times > 0 {
        lemma_repeated_valid(generators, moves, (times - 1) as nat);
        lemma_concat_valid(generators, repeated_moves(moves, (times - 1) as nat), moves);
        assert(times * moves.len() == (times - 1) * moves.len() + moves.len()) by (nonlinear_arith);
    } else {
        assert(times * moves.len() == 0) by (nonlinear_arith)
            requires
                times == 0,
        ;
    }
}

/// The effect of a sequence of moves repeated is its effect iterated.
pub proof fn lemma_effect_repeated(
    generators: Seq<Generator>,
    pieces: Seq<String>,
    moves: Seq<usize>,
    times: nat,
    i: int,
)
    requires
        generators_wf(generators, pieces),
        moves_valid(generators, moves),
    ensures
        apply_mapping(
            effect_of(
                generators,
                repeated_moves(moves, times),
                repeated_moves(moves, times).len() as int,
            ),
            i,
        ) == iterate(effect_of(generators, moves, moves.len() as int), times, i),
    decreases times,
{
    if times > 0 {
        let before = repeated_moves(moves, (times - 1) as nat);
        lemma_effect_repeated(generators, pieces, moves, (times - 1) as nat, i);
        lemma_repeated_valid(generators, moves, (times - 1) as nat);
        lemma_effect_concat(generators, pieces, before, moves, moves.len() as int, i);
    }
}

/// Two mappings that are the same function give the same when iterated.
pub proof fn lemma_iterate_same(a: Seq<usize>, b: Seq<usize>, times: nat, i: int)
    requires
        forall|k: int| #[trigger] apply_mapping(a, k) == apply_mapping(b, k),
    ensures
        iterate(a, times, i) == iterate(b, times, i),
    decreases times,
{
    if times > 0 {
        lemma_iterate_same(a, b, (times - 1) as nat, i);
    }
}

/// A mapping that brings back what a bijection has moved is the same function
/// as what undoes the bijection.
pub proof fn lemma_left_inverse(mapping: Seq<usize>, undo: Seq<usize>, i: int)
    requires
        is_bijection(mapping),
        is_bijection(undo),
        forall|k: int| 0 <= k < mapping.len() ==> apply_mapping(undo, #[trigger] mapping[k] as int) == k,
        forall|k: int| k >= mapping.len() ==> #[trigger] apply_mapping(undo, k) == k,
    ensures
        apply_mapping(undo, i) == apply_mapping(inverse_mapping(mapping), i),
{
    lemma_inverse_mapping(mapping);
    if 0 <= i < mapping.len() {
        let k = inverse_mapping(mapping)[i] as int;
        assert(mapping[k] == i);
        assert(apply_mapping(undo, mapping[k] as int) == k);
    } else if i >= 0 {
        assert(apply_mapping(undo, i) == i);
    } else {
    }
}

/// Two bijections that are the same function are undone by the same
/// function.
pub proof fn lemma_inverse_same(a: Seq<usize>, b: Seq<usize>, i: int)
    requires
        is_bijection(a),
        is_bijection(b),
        forall|k: int| #[trigger] apply_mapping(a, k) == apply_mapping(b, k),
    ensures
        apply_mapping(inverse_mapping(a), i) == apply_mapping(inverse_mapping(b), i),
{
    lemma_inverse_mapping(a);
    assert forall|k: int| 0 <= k < b.len() implies apply_mapping(
        inverse_mapping(a),
        #[trigger] b[k] as int,
    ) == k by {
        assert(apply_mapping(a, k) == apply_mapping(b, k));
        if k < a.len() {
            assert(inverse_mapping(a)[a[k] as int] == k);
        } else {
            assert(b[k] == k);
        }
    }
    assert forall|k: int| k >= b.len() implies #[trigger] apply_mapping(inverse_mapping(a), k) == k by {
        if k < a.len() {
            assert(apply_mapping(a, k) == apply_mapping(b, k));
            assert(a[k] == k);
            assert(inverse_mapping(a)[a[k] as int] == k);
        }
    }
    lemma_left_inverse(b, inverse_mapping(a), i);
}

} // verus!

verus! {

/// A copy of a list of moves.
pub fn copy_moves(moves: &Vec<usize>) -> (copy: Vec<usize>)
    ensures
        copy@ == moves@,
{
    let mut copy: Vec<usize> = Vec::new();
    let mut i: usize = 0;
    while i < moves.len()
        invariant
            i <= moves@.len(),
            copy@ == moves@.take(i as int),
        decreases moves@.len() - i,
    {
        copy.push(moves[i]);
        assert(copy@ =~= moves@.take(i + 1));
        i += 1;
    }
    assert(moves@.take(moves@.len() as int) =~= moves@);
    copy
}

/// Appends a list of moves to another.
pub fn append_moves(moves: &mut Vec<usize>, more: &Vec<usize>)
    ensures
        final(moves)@ == old(moves)@ + more@,
{
    let mut k: usize = 0;
    assert(moves@ =~= old(moves)@ + more@.take(0));
    while k < more.len()
        invariant
            k <= more@.len(),
            moves@ == old(moves)@ + more@.take(k as int),
        decreases more@.len() - k,
    {
        moves.push(more[k]);
        assert(moves@ =~= old(moves)@ + more@.take(k + 1));
        k += 1;
    }
    assert(more@.take(more@.len() as int) =~= more@);
}

impl Algorithm {
    #[verifier::type_invariant]
    pub open spec fn inv(self) -> bool {
        self.wf()
    }

    /// The moves, each by its place among the moves of the group.
    pub closed spec fn moves_view(&self) -> Seq<usize> {
        self.move_seq@
    }

    /// The group.
    pub closed spec fn group_view(&self) -> Arc<PermutationGroup> {
        self.group
    }

    /// The effect.
    pub closed spec fn permutation_view(&self) -> Permutation {
        self.permutation
    }

    /// The effect of the moves, by the moves of the group.
    pub open spec fn effect(&self) -> Seq<usize> {
        effect_of(self.group_view().generators_view(), self.moves_view(), self.moves_view().len() as int)
    }

    /// What holds of every algorithm: its moves are moves of its group, and
    /// its effect is theirs.
    pub open spec fn wf(&self) -> bool {
        &&& moves_valid(self.group_view().generators_view(), self.moves_view())
        &&& self.permutation_view().mapping_view().len() <= self.group_view().pieces_view().len()
        &&& forall|i: int| #[trigger] self.permutation_view().apply(i) == apply_mapping(self.effect(), i)
    }

    /// The algorithm without moves.
    pub fn identity(group: Arc<PermutationGroup>) -> (algorithm: Algorithm)
        ensures
            algorithm.group_view() == group,
            algorithm.moves_view() == Seq::<usize>::empty(),
            forall|i: int| #[trigger] algorithm.permutation_view().apply(i) == i,
    {
        Algorithm { group, move_seq: Vec::new(), permutation: Permutation::identity() }
    }

    /// The algorithm of the given moves, each by its place among the moves of
    /// the group; none if a place is beyond them.
    pub fn from_moves(group: Arc<PermutationGroup>, moves: Vec<usize>) -> (algorithm: Option<Algorithm>)
        ensures
            match algorithm {
                Some(algorithm) => moves_valid(group.generators_view(), moves@) && algorithm.group_view()
                    == group && algorithm.moves_view() == moves@,
                None => !moves_valid(group.generators_view(), moves@),
            },
    {
        let shared: &PermutationGroup = &group;
        proof {
            use_type_invariant(shared);
        }
        let ghost generators = group.generators_view();
        let ghost pieces = group.pieces_view();
        let mut i: usize = 0;
        while i < moves.len()
            invariant
                i <= moves@.len(),
                generators == group.generators_view(),
                forall|k: int| 0 <= k < i ==> (#[trigger] moves@[k]) < generators.len(),
            decreases moves@.len() - i,
        {
            if moves[i] >= group.generators().len() {
                return None;
            }
            i += 1;
        }
        let mut permutation = Permutation::identity();
        let mut k: usize = 0;
        while k < moves.len()
            invariant
                k <= moves@.len(),
                generators == group.generators_view(),
                pieces == group.pieces_view(),
                generators_wf(generators, pieces),
                moves_valid(generators, moves@),
                permutation.mapping_view().len() <= pieces.len(),
                forall|j: int|
                    #[trigger] permutation.apply(j) == apply_mapping(effect_of(generators, moves@, k as int), j),
            decreases moves@.len() - k,
        {
            let ghost before = permutation;
            permutation.compose_into(&group.generators()[moves[k]].permutation);
            proof {
                assert(generator_wf(generators, pieces, moves@[k as int] as int));
                lemma_effect_step(generators, pieces, moves@, k + 1);
                assert forall|j: int|
                    #[trigger] permutation.apply(j) == apply_mapping(
                        effect_of(generators, moves@, k + 1),
                        j,
                    ) by {
                    assert(permutation.apply(j) == generators[moves@[k as int] as int].permutation.apply(
                        before.apply(j),
                    ));
                }
            }
            k += 1;
        }
        Some(Algorithm { group, move_seq: moves, permutation })
    }

    /// The algorithm of the moves of the given names. Fails with the first
    /// name that is not the name of a move of the group.
    pub fn new_from_move_seq(group: Arc<PermutationGroup>, move_seq: Vec<Vec<u8>>) -> (algorithm: Result<
        Algorithm,
        Vec<u8>,
    >)
        ensures
            match algorithm {
                Ok(algorithm) => {
                    &&& algorithm.group_view() == group
                    &&& algorithm.moves_view().len() == move_seq@.len()
                    &&& forall|i: int|
                        0 <= i < move_seq@.len() ==> find_generator(
                            group.generators_view(),
                            (#[trigger] move_seq@[i])@,
                            0,
                        ) == Some(algorithm.moves_view()[i] as int)
                },
                Err(unknown) => exists|i: int|
                    {
                        &&& 0 <= i < move_seq@.len()
                        &&& unknown@ == (#[trigger] move_seq@[i])@
                        &&& find_generator(group.generators_view(), move_seq@[i]@, 0) is None
                        &&& forall|k: int|
                            0 <= k < i ==> find_generator(
                                group.generators_view(),
                                (#[trigger] move_seq@[k])@,
                                0,
                            ) is Some
                    },
            },
    {
        let mut moves: Vec<usize> = Vec::new();
        let mut i: usize = 0;
        while i < move_seq.len()
            invariant
                i <= move_seq@.len(),
                moves@.len() == i,
                forall|k: int|
                    0 <= k < i ==> find_generator(group.generators_view(), (#[trigger] move_seq@[k])@, 0)
                        == Some(moves@[k] as int) && moves@[k] < group.generators_view().len(),
            decreases move_seq@.len() - i,
        {
            match group.generator_index(move_seq[i].as_slice()) {
                Some(index) => {
                    moves.push(index);
                },
                None => {
                    return Err(bytes_to_vec(move_seq[i].as_slice()));
                },
            }
            i += 1;
        }
        assert(moves_valid(group.generators_view(), moves@)) by {
            assert forall|k: int| 0 <= k < moves@.len() implies (#[trigger] moves@[k])
                < group.generators_view().len() by {
                assert(find_generator(group.generators_view(), move_seq@[k]@, 0) == Some(
                    moves@[k] as int,
                ));
            }
        }
        match Algorithm::from_moves(group, moves) {
            Some(algorithm) => Ok(algorithm),
            None => Err(Vec::new()),
        }
    }

    /// The group that the algorithm belongs to.
    pub fn group(&self) -> (group: &PermutationGroup)
        ensures
            *group == *self.group_view(),
    {
        &self.group
    }

    /// The group that the algorithm belongs to, shared.
    pub fn group_arc(&self) -> (group: Arc<PermutationGroup>)
        ensures
            group == self.group_view(),
    {
        self.group.clone()
    }

    /// The effect of the algorithm.
    pub fn permutation(&self) -> (permutation: &Permutation)
        ensures
            *permutation == self.permutation_view(),
    {
        &self.permutation
    }

    /// The moves, each by its place among the moves of the group.
    pub fn moves(&self) -> (moves: &Vec<usize>)
        ensures
            moves@ == self.moves_view(),
    {
        &self.move_seq
    }

    /// The names of the moves.
    pub fn move_names(&self) -> (names: Vec<Vec<u8>>)
        ensures
            names@.len() == self.moves_view().len(),
            forall|i: int|
                0 <= i < names@.len() ==> (#[trigger] names@[i])@
                    == self.group_view().generators_view()[self.moves_view()[i] as int].name@,
    {
        proof {
            use_type_invariant(self);
        }
        let mut names: Vec<Vec<u8>> = Vec::new();
        let mut i: usize = 0;
        while i < self.move_seq.len()
            invariant
                i <= self.move_seq@.len(),
                moves_valid(self.group.generators_view(), self.move_seq@),
                names@.len() == i,
                forall|k: int|
                    0 <= k < i ==> (#[trigger] names@[k])@
                        == self.group.generators_view()[self.move_seq@[k] as int].name@,
            decreases self.move_seq@.len() - i,
        {
            names.push(bytes_to_vec(self.group.generators()[self.move_seq[i]].name.as_slice()));
            i += 1;
        }
        names
    }

    /// Appends the moves of `other`.
    pub fn compose_into(&mut self, other: &Algorithm)
        requires
            old(self).group_view() == other.group_view(),
        ensures
            final(self).group_view() == old(self).group_view(),
            final(self).moves_view() == old(self).moves_view() + other.moves_view(),
            forall|i: int|
                #[trigger] final(self).permutation_view().apply(i) == other.permutation_view().apply(
                    old(self).permutation_view().apply(i),
                ),
    {
        let shared: &PermutationGroup = &self.group;
        proof {
            use_type_invariant(&*self);
            use_type_invariant(other);
            use_type_invariant(shared);
        }
        let ghost generators = self.group.generators_view();
        let ghost pieces = self.group.pieces_view();
        let ghost first = self.move_seq@;
        let ghost second = other.move_seq@;
        let ghost old_permutation = self.permutation;
        let ghost me = *self;
        proof {
            assert(me.wf());
            assert(other.wf());
            assert(me.effect() == effect_of(generators, first, first.len() as int));
            assert(other.effect() == effect_of(generators, second, second.len() as int));
            assert(me.permutation_view() == old_permutation);
        }
        let permutation = self.permutation.compose(&other.permutation);
        let mut moves = copy_moves(&self.move_seq);
        append_moves(&mut moves, &other.move_seq);
        proof {
            lemma_concat_valid(generators, first, second);
            assert forall|j: int|
                #[trigger] permutation.apply(j) == apply_mapping(
                    effect_of(generators, first + second, (first + second).len() as int),
                    j,
                ) by {
                lemma_effect_concat(generators, pieces, first, second, second.len() as int, j);
                assert(permutation.apply(j) == other.permutation.apply(old_permutation.apply(j)));
                assert(me.permutation_view().apply(j) == apply_mapping(me.effect(), j));
                assert(other.permutation_view().apply(old_permutation.apply(j)) == apply_mapping(
                    other.effect(),
                    old_permutation.apply(j),
                ));
            }
        }
        let group = self.group.clone();
        *self = Algorithm { group, move_seq: moves, permutation };
    }

    /// Replaces the algorithm by its power: its moves `power` times in a row,
    /// or the moves that undo it as many times if `power` is negative.
    pub fn exponentiate(&mut self, power: i128)
        ensures
            final(self).group_view() == old(self).group_view(),
            final(self).moves_view() == repeated_moves(
                if power >= 0 {
                    old(self).moves_view()
                } else {
                    inverted_moves(old(self).group_view().generators_view(), old(self).moves_view())
                },
                if power >= 0 {
                    power as nat
                } else {
                    (-power) as nat
                },
            ),
            forall|i: int|
                #[trigger] final(self).permutation_view().apply(i) == powered(
                    old(self).permutation_view().mapping_view(),
                    power as int,
                    i,
                ),
    {
        let shared: &PermutationGroup = &self.group;
        proof {
            use_type_invariant(&*self);
            use_type_invariant(shared);
            use_type_invariant(&self.permutation);
        }
        let ghost generators = self.group.generators_view();
        let ghost pieces = self.group.pieces_view();
        let ghost original = self.move_seq@;
        let ghost start = self.permutation.mapping_view();
        let ghost me = *self;
        proof {
            assert(me.wf());
            assert(me.effect() == effect_of(generators, original, original.len() as int));
            assert forall|k: int|
                #[trigger] apply_mapping(start, k) == apply_mapping(
                    effect_of(generators, original, original.len() as int),
                    k,
                ) by {
                assert(me.permutation_view().apply(k) == apply_mapping(me.effect(), k));
            }
        }
        let mut base = copy_moves(&self.move_seq);
        if power < 0 {
            self.group.invert_generator_moves(&mut base);
        }
        let ghost unit = base@;
        let times: u128 = magnitude(power);
        let mut permutation = self.permutation.clone();
        permutation.exponentiate(power);
        let mut moves: Vec<usize> = Vec::new();
        let mut round: u128 = 0;
        while round < times
            invariant
                round <= times,
                base@ == unit,
                moves@ == repeated_moves(unit, round as nat),
            decreases times - round,
        {
            append_moves(&mut moves, &base);
            round += 1;
        }
        proof {
            let count = times as nat;
            let effect = effect_of(generators, original, original.len() as int);
            lemma_effect_step(generators, pieces, original, original.len() as int);
            lemma_repeated_valid(generators, unit, count);
            assert forall|j: int|
                #[trigger] permutation.apply(j) == apply_mapping(
                    effect_of(generators, moves@, moves@.len() as int),
                    j,
                ) by {
                lemma_effect_repeated(generators, pieces, unit, count, j);
                if power >= 0 {
                    lemma_iterate_same(start, effect, count, j);
                } else {
                    let undone = effect_of(generators, unit, unit.len() as int);
                    lemma_inverted_valid(generators, pieces, original);
                    lemma_effect_step(generators, pieces, unit, unit.len() as int);
                    lemma_inverse_mapping(effect);
                    assert forall|k: int|
                        #[trigger] apply_mapping(inverse_mapping(start), k) == apply_mapping(undone, k) by {
                        assert forall|m: int| 0 <= m < effect.len() implies apply_mapping(
                            undone,
                            #[trigger] effect[m] as int,
                        ) == m by {
                            lemma_effect_inverted(generators, pieces, original, m);
                        }
                        assert forall|m: int| m >= effect.len() implies #[trigger] apply_mapping(
                            undone,
                            m,
                        ) == m by {
                            lemma_effect_inverted(generators, pieces, original, m);
                        }
                        lemma_left_inverse(effect, undone, k);
                        lemma_inverse_same(start, effect, k);
                    }
                    lemma_iterate_same(inverse_mapping(start), undone, count, j);
                }
            }
        }
        let group = self.group.clone();
        *self = Algorithm { group, move_seq: moves, permutation };
    }
}

impl Clone for Algorithm {
    fn clone(&self) -> (copy: Self)
        ensures
            copy.group_view() == self.group_view(),
            copy.moves_view() == self.moves_view(),
            copy.permutation_view().mapping_view() == self.permutation_view().mapping_view(),
    {
        proof {
            use_type_invariant(self);
        }
        let move_seq = copy_moves(&self.move_seq);
        let permutation = self.permutation.clone();
        assert(self.wf());
        assert(self.effect() == effect_of(self.group.generators_view(), move_seq@, move_seq@.len() as int));
        assert forall|i: int|
            #[trigger] permutation.apply(i) == apply_mapping(
                effect_of(self.group.generators_view(), move_seq@, move_seq@.len() as int),
                i,
            ) by {
            assert(permutation.apply(i) == self.permutation_view().apply(i));
        }
        Algorithm { group: self.group.clone(), move_seq, permutation }
    }
}

} // verus!

verus! {

/// Whether `x` stands in one of the cycles.
pub open spec fn in_cycles(cycles: Seq<Vec<usize>>, x: usize) -> bool {
    exists|a: int, j: int| 0 <= a < cycles.len() && 0 <= j < cycles[a]@.len() && #[trigger] cycles[a]@[j] == x
}

/// Whether `cycle` is a cycle of the mapping that starts with its least
/// number: every entry is sent to the next, the last to the first.
pub open spec fn is_cycle_of(mapping: Seq<usize>, cycle: Seq<usize>) -> bool {
    &&& cycle.len() >= 2
    &&& forall|j: int| 0 <= j < cycle.len() ==> (#[trigger] cycle[j]) < mapping.len()
    &&& forall|j: int|
        0 <= j < cycle.len() - 1 ==> mapping[(#[trigger] cycle[j]) as int] == cycle[j + 1]
    &&& mapping[cycle.last() as int] == cycle[0]
    &&& forall|j: int| 1 <= j < cycle.len() ==> cycle[0] < #[trigger] cycle[j]
    &&& cycle.no_duplicates()
}

/// Whether `cycles` are the cycles of the mapping: each is a cycle of at least
/// two numbers, every number that the mapping moves stands in exactly one of
/// them, at one place, and they are ordered by their least numbers.
pub open spec fn is_cycle_decomposition(mapping: Seq<usize>, cycles: Seq<Vec<usize>>) -> bool {
    &&& forall|a: int| 0 <= a < cycles.len() ==> is_cycle_of(mapping, (#[trigger] cycles[a])@)
    &&& forall|a: int, b: int|
        0 <= a < b < cycles.len() ==> (#[trigger] cycles[a])@[0] < (#[trigger] cycles[b])@[0]
    &&& forall|a: int, j: int, b: int, k: int|
        0 <= a < cycles.len() && 0 <= j < cycles[a]@.len() && 0 <= b < cycles.len() && 0 <= k
            < cycles[b]@.len() && a != b ==> #[trigger] cycles[a]@[j] != #[trigger] cycles[b]@[k]
    &&& forall|x: usize| x < mapping.len() && mapping[x as int] != x ==> #[trigger] in_cycles(cycles, x)
}

/// A mapping of `0..len` onto itself that moves nothing.
pub open spec fn identity_mapping(len: nat) -> Seq<usize> {
    Seq::new(len, |i: int| i as usize)
}

/// The mapping after one more cycle was written into it: every entry of the
/// cycle is sent to the next, the last to the first.
pub open spec fn with_cycle(mapping: Seq<usize>, cycle: Seq<usize>, upto: int) -> Seq<usize>
    decreases upto,
{
    if upto <= 0 {
        mapping
    } else {
        let before = with_cycle(mapping, cycle, upto - 1);
        let to = if upto == cycle.len() {
            cycle[0]
        } else {
            cycle[upto]
        };
        before.update(cycle[upto - 1] as int, to)
    }
}

/// The mapping after the first `upto` cycles were written into it.
pub open spec fn with_cycles(mapping: Seq<usize>, cycles: Seq<Seq<usize>>, upto: int) -> Seq<usize>
    decreases upto,
{
    if upto <= 0 {
        mapping
    } else {
        with_cycle(
            with_cycles(mapping, cycles, upto - 1),
            cycles[upto - 1],
            cycles[upto - 1].len() as int,
        )
    }
}

/// The least number that is larger than every entry of the first `upto`
/// cycles.
pub open spec fn cycles_bound(cycles: Seq<Seq<usize>>, upto: int) -> nat
    decreases upto,
{
    if upto <= 0 {
        0
    } else {
        let before = cycles_bound(cycles, upto - 1);
        let here = cycle_bound(cycles[upto - 1], cycles[upto - 1].len() as int);
        if before >= here {
            before
        } else {
            here
        }
    }
}

/// The least number that is larger than each of the first `upto` entries.
pub open spec fn cycle_bound(cycle: Seq<usize>, upto: int) -> nat
    decreases upto,
{
    if upto <= 0 {
        0
    } else {
        let before = cycle_bound(cycle, upto - 1);
        if before > cycle[upto - 1] {
            before
        } else {
            (cycle[upto - 1] + 1) as nat
        }
    }
}

/// The mapping that a list of cycles stands for.
pub open spec fn cycles_mapping(cycles: Seq<Seq<usize>>) -> Seq<usize> {
    with_cycles(identity_mapping(cycles_bound(cycles, cycles.len() as int)), cycles, cycles.len() as int)
}

/// The entries of the first `upto` cycles in one list.
pub open spec fn flattened(cycles: Seq<Seq<usize>>, upto: int) -> Seq<usize>
    decreases upto,
{
    if upto <= 0 {
        Seq::empty()
    } else {
        flattened(cycles, upto - 1) + cycles[upto - 1]
    }
}

/// The permutation that a list of cycles stands for, if they stand for one:
/// no number may stand in the cycles twice, and none may be the largest number
/// there is.
pub open spec fn permutation_of_cycles(cycles: Seq<Seq<usize>>) -> Option<Seq<usize>> {
    if cycles_bound(cycles, cycles.len() as int) <= usize::MAX && flattened(
        cycles,
        cycles.len() as int,
    ).no_duplicates() && is_bijection(cycles_mapping(cycles)) {
        Some(cycles_mapping(cycles))
    } else {
        None
    }
}

/// Whether no number stands twice in a list of numbers below `bound`.
fn all_distinct(list: &Vec<usize>, bound: usize) -> (distinct: bool)
    requires
        forall|i: int| 0 <= i < list@.len() ==> (#[trigger] list@[i]) < bound,
    ensures
        distinct == list@.no_duplicates(),
{
    let mut seen: Vec<bool> = Vec::new();
    let mut k: usize = 0;
    while k < bound
        invariant
            k <= bound,
            seen@.len() == k,
            forall|j: int| 0 <= j < k ==> !(#[trigger] seen@[j]),
        decreases bound - k,
    {
        seen.push(false);
        k += 1;
    }
    let mut i: usize = 0;
    while i < list.len()
        invariant
            i <= list@.len(),
            seen@.len() == bound,
            forall|j: int| 0 <= j < list@.len() ==> (#[trigger] list@[j]) < bound,
            forall|a: int, b: int| 0 <= a < i && 0 <= b < i && a != b ==> list@[a] != list@[b],
            forall|v: int|
                0 <= v < bound ==> (#[trigger] seen@[v] <==> exists|a: int| 0 <= a < i && list@[a] == v),
        decreases list@.len() - i,
    {
        let x = list[i];
        if seen[x] {
            let ghost a = choose|a: int| 0 <= a < i && list@[a] == x;
            assert(list@[a] == list@[i as int]);
            return false;
        }
        let ghost before = seen@;
        seen[x] = true;
        proof {
            assert forall|v: int| 0 <= v < bound implies (#[trigger] seen@[v] <==> exists|a: int|
                0 <= a < i + 1 && list@[a] == v) by {
                if v == x {
                    assert(list@[i as int] == v);
                } else {
                    if before[v] {
                        let a = choose|a: int| 0 <= a < i && list@[a] == v;
                        assert(0 <= a < i + 1 && list@[a] == v);
                    }
                    if exists|a: int| 0 <= a < i + 1 && list@[a] == v {
                        let a = choose|a: int| 0 <= a < i + 1 && list@[a] == v;
                        assert(a < i);
                    }
                }
            }
            assert forall|a: int, b: int| 0 <= a < i + 1 && 0 <= b < i + 1 && a != b implies list@[a]
                != list@[b] by {
                if a == i && list@[b] == x {
                    assert(before[x as int]);
                }
                if b == i && list@[a] == x {
                    assert(before[x as int]);
                }
            }
        }
        i += 1;
    }
    true
}

/// A list of cycles as a list of sequences.
pub open spec fn cycle_seqs(cycles: Seq<Vec<usize>>) -> Seq<Seq<usize>> {
    Seq::new(cycles.len(), |a: int| cycles[a]@)
}

proof fn lemma_cycle_bound(cycle: Seq<usize>, upto: int, j: int)
    requires
        0 <= j < upto <= cycle.len(),
    ensures
        cycle[j] < cycle_bound(cycle, upto),
    decreases upto,
{
    if j < upto - 1 {
        lemma_cycle_bound(cycle, upto - 1, j);
    }
}

proof fn lemma_cycles_bound(cycles: Seq<Seq<usize>>, upto: int, a: int, j: int)
    requires
        0 <= a < upto <= cycles.len(),
        0 <= j < cycles[a].len(),
    ensures
        cycles[a][j] < cycles_bound(cycles, upto),
    decreases upto,
{
    if a < upto - 1 {
        lemma_cycles_bound(cycles, upto - 1, a, j);
    } else {
        lemma_cycle_bound(cycles[a], cycles[a].len() as int, j);
    }
}

impl Permutation {
    /// The cycles of the permutation: each of at least two numbers and
    /// starting with its least, in the order of their least numbers.
    pub fn cycles(&self) -> (cycles: Vec<Vec<usize>>)
        ensures
            is_cycle_decomposition(self.mapping_view(), cycles@),
    {
        proof {
            use_type_invariant(self);
        }
        let n = self.mapping.len();
        let ghost mapping = self.mapping@;
        let mut visited: Vec<bool> = Vec::new();
        let mut k: usize = 0;
        while k < n
            invariant
                k <= n,
                visited@.len() == k,
                forall|j: int| 0 <= j < k ==> !(#[trigger] visited@[j]),
            decreases n - k,
        {
            visited.push(false);
            k += 1;
        }
        let mut cycles: Vec<Vec<usize>> = Vec::new();
        let mut i: usize = 0;
        while i < n
            invariant
                i <= n,
                n == mapping.len(),
                mapping == self.mapping@,
                is_bijection(mapping),
                visited@.len() == n,
                forall|x: usize| x < n ==> (#[trigger] visited@[x as int] <==> in_cycles(cycles@, x)),
                forall|a: int| 0 <= a < cycles@.len() ==> is_cycle_of(mapping, (#[trigger] cycles@[a])@),
                forall|a: int| 0 <= a < cycles@.len() ==> (#[trigger] cycles@[a])@[0] < i,
                forall|a: int, b: int|
                    0 <= a < b < cycles@.len() ==> (#[trigger] cycles@[a])@[0] < (#[trigger] cycles@[b])@[0],
                forall|a: int, j: int, b: int, k: int|
                    0 <= a < cycles@.len() && 0 <= j < cycles@[a]@.len() && 0 <= b < cycles@.len() && 0
                        <= k < cycles@[b]@.len() && a != b ==> #[trigger] cycles@[a]@[j]
                        != #[trigger] cycles@[b]@[k],
                forall|x: usize| x < i && mapping[x as int] != x ==> #[trigger] in_cycles(cycles@, x),
            decreases n - i,
        {
            if !visited[i] && self.mapping[i] != i {
                let mut cycle: Vec<usize> = Vec::new();
                cycle.push(i);
                let mut cur = self.mapping[i];
                assert(mapping[i as int] < n);
                proof {
                    lemma_distinct_bounded(cycle@, n as nat);
                }
                while cur != i
                    invariant
                        i < n,
                        n == mapping.len(),
                        mapping == self.mapping@,
                        is_bijection(mapping),
                        visited@.len() == n,
                        !visited@[i as int],
                        mapping[i as int] != i,
                        forall|x: usize| x < n ==> (#[trigger] visited@[x as int] <==> in_cycles(cycles@, x)),
                        forall|a: int|
                            0 <= a < cycles@.len() ==> is_cycle_of(mapping, (#[trigger] cycles@[a])@),
                        forall|x: usize|
                            x < i && mapping[x as int] != x ==> #[trigger] in_cycles(cycles@, x),
                        1 <= cycle@.len() <= n,
                        cycle@[0] == i,
                        cur < n,
                        cur == mapping[cycle@.last() as int],
                        cycle@.no_duplicates(),
                        forall|j: int| 0 <= j < cycle@.len() ==> (#[trigger] cycle@[j]) < n,
                        forall|j: int| 0 <= j < cycle@.len() ==> !visited@[(#[trigger] cycle@[j]) as int],
                        forall|j: int|
                            0 <= j < cycle@.len() - 1 ==> mapping[(#[trigger] cycle@[j]) as int]
                                == cycle@[j + 1],
                        forall|j: int| 1 <= j < cycle@.len() ==> i < #[trigger] cycle@[j],
                    decreases n - cycle@.len(),
                {
                    proof {
                        let last = cycle@.last();
                        // `cur` is not in the walk yet
                        assert forall|j: int| 0 <= j < cycle@.len() implies cycle@[j] != cur by {
                            if cycle@[j] == cur {
                                assert(j >= 1);
                                assert(mapping[cycle@[j - 1] as int] == cycle@[j]);
                                assert(cycle@[j - 1] != last);
                            }
                        }
                        // `cur` stands in no cycle that was found before
                        if visited@[cur as int] {
                            assert(in_cycles(cycles@, cur));
                            let (a, j) = choose|a: int, j: int|
                                0 <= a < cycles@.len() && 0 <= j < cycles@[a]@.len()
                                    && #[trigger] cycles@[a]@[j] == cur;
                            let found = cycles@[a]@;
                            assert(is_cycle_of(mapping, found));
                            let before = if j == 0 {
                                found.last()
                            } else {
                                found[j - 1]
                            };
                            assert(mapping[before as int] == cur);
                            assert(before == last);
                            if j == 0 {
                                assert(cycles@[a]@[found.len() - 1] == last);
                            } else {
                                assert(cycles@[a]@[j - 1] == last);
                            }
                            assert(in_cycles(cycles@, last));
                            assert(visited@[last as int]);
                        }
                        // `cur` is above `i`: what lies below is in a cycle or is not moved
                        if cur < i {
                            if mapping[cur as int] != cur {
                                assert(in_cycles(cycles@, cur));
                            } else {
                                assert(mapping[cur as int] == mapping[last as int]);
                            }
                        }
                    }
                    let ghost before = cycle@;
                    cycle.push(cur);
                    proof {
                        assert(cycle@.no_duplicates()) by {
                            assert forall|a: int, b: int|
                                0 <= a < cycle@.len() && 0 <= b < cycle@.len() && a != b implies cycle@[a]
                                != cycle@[b] by {
                                if a < before.len() {
                                    assert(cycle@[a] == before[a]);
                                }
                                if b < before.len() {
                                    assert(cycle@[b] == before[b]);
                                }
                            }
                        }
                        lemma_distinct_bounded(cycle@, n as nat);
                        assert forall|j: int| 0 <= j < cycle@.len() - 1 implies mapping[(
                        #[trigger] cycle@[j]) as int] == cycle@[j + 1] by {
                            if j < before.len() - 1 {
                                assert(cycle@[j] == before[j]);
                                assert(cycle@[j + 1] == before[j + 1]);
                            }
                        }
                    }
                    cur = self.mapping[cur];
                    assert(mapping[cycle@.last() as int] < n);
                }
                // mark the cycle
                let ghost visited_before = visited@;
                let ghost cycles_before = cycles@;
                let mut m: usize = 0;
                while m < cycle.len()
                    invariant
                        m <= cycle@.len(),
                        visited@.len() == n,
                        forall|j: int| 0 <= j < cycle@.len() ==> (#[trigger] cycle@[j]) < n,
                                visited_before.len() == n,
                        forall|x: int|
                            0 <= x < n ==> (#[trigger] visited@[x] <==> (visited_before[x] || exists|j: int|
                                0 <= j < m && cycle@[j] == x)),
                    decreases cycle@.len() - m,
                {
                    let ghost marked = visited@;
                    visited[cycle[m]] = true;
                    proof {
                        assert forall|x: int| 0 <= x < n implies (#[trigger] visited@[x] <==> (
                        visited_before[x] || exists|j: int| 0 <= j < m + 1 && cycle@[j] == x)) by {
                            if x == cycle@[m as int] {
                                assert(cycle@[m as int] == x);
                            } else {
                                if marked[x] && !visited_before[x] {
                                    let j = choose|j: int| 0 <= j < m && cycle@[j] == x;
                                    assert(0 <= j < m + 1 && cycle@[j] == x);
                                }
                                if exists|j: int| 0 <= j < m + 1 && cycle@[j] == x {
                                    let j = choose|j: int| 0 <= j < m + 1 && cycle@[j] == x;
                                    assert(j < m);
                                }
                            }
                        }
                    }
                    m += 1;
                }
                let ghost found = cycle@;
                cycles.push(cycle);
                proof {
                    let at = cycles_before.len() as int;
                    assert(cycles@[at]@ == found);
                    assert(is_cycle_of(mapping, found));
                    assert forall|a: int| 0 <= a < cycles@.len() implies is_cycle_of(
                        mapping,
                        (#[trigger] cycles@[a])@,
                    ) by {
                        if a < at {
                            assert(cycles@[a] == cycles_before[a]);
                        }
                    }
                    assert forall|x: usize| x < n implies (#[trigger] visited@[x as int] <==> in_cycles(
                        cycles@,
                        x,
                    )) by {
                        if visited_before[x as int] {
                            assert(in_cycles(cycles_before, x));
                            let (a, j) = choose|a: int, j: int|
                                0 <= a < cycles_before.len() && 0 <= j < cycles_before[a]@.len()
                                    && #[trigger] cycles_before[a]@[j] == x;
                            assert(cycles@[a]@[j] == x);
                        }
                        if exists|j: int| 0 <= j < found.len() && found[j] == x {
                            let j = choose|j: int| 0 <= j < found.len() && found[j] == x;
                            assert(cycles@[at]@[j] == x);
                        }
                        if in_cycles(cycles@, x) {
                            let (a, j) = choose|a: int, j: int|
                                0 <= a < cycles@.len() && 0 <= j < cycles@[a]@.len()
                                    && #[trigger] cycles@[a]@[j] == x;
                            if a < at {
                                assert(cycles_before[a]@[j] == x);
                                assert(in_cycles(cycles_before, x));
                            } else {
                                assert(found[j] == x);
                            }
                        }
                    }
                    assert forall|a: int, j: int, b: int, k: int|
                        0 <= a < cycles@.len() && 0 <= j < cycles@[a]@.len() && 0 <= b < cycles@.len()
                            && 0 <= k < cycles@[b]@.len() && a != b implies #[trigger] cycles@[a]@[j]
                        != #[trigger] cycles@[b]@[k] by {
                        if a < at && b < at {
                            assert(cycles_before[a]@[j] != cycles_before[b]@[k]);
                        } else if a == at {
                            assert(cycles_before[b]@[k] == cycles@[b]@[k]);
                            assert(in_cycles(cycles_before, cycles@[b]@[k]));
                            assert(!visited_before[found[j] as int]);
                        } else {
                            assert(cycles_before[a]@[j] == cycles@[a]@[j]);
                            assert(in_cycles(cycles_before, cycles@[a]@[j]));
                            assert(!visited_before[found[k] as int]);
                        }
                    }
                    assert forall|a: int, b: int| 0 <= a < b < cycles@.len() implies (
                    #[trigger] cycles@[a])@[0] < (#[trigger] cycles@[b])@[0] by {
                        if b < at {
                            assert(cycles_before[a]@[0] < cycles_before[b]@[0]);
                        } else {
                            assert(cycles_before[a]@[0] < i);
                        }
                    }
                    assert forall|x: usize| x < i + 1 && mapping[x as int] != x implies #[trigger] in_cycles(
                        cycles@,
                        x,
                    ) by {
                        if x == i {
                            assert(cycles@[at]@[0] == x);
                        } else {
                            assert(in_cycles(cycles_before, x));
                            let (a, j) = choose|a: int, j: int|
                                0 <= a < cycles_before.len() && 0 <= j < cycles_before[a]@.len()
                                    && #[trigger] cycles_before[a]@[j] == x;
                            assert(cycles@[a]@[j] == x);
                        }
                    }
                }
            } else {
                proof {
                    if mapping[i as int] != i {
                        assert(visited@[i as int]);
                    }
                }
            }
            i += 1;
        }
        cycles
    }

    /// The permutation that a list of cycles stands for: every entry of a
    /// cycle is sent to the next, the last to the first. There is none if
    /// that is no permutation, or if an entry is the largest number there is.
    pub fn from_cycles(cycles: Vec<Vec<usize>>) -> (permutation: Option<Permutation>)
        ensures
            match permutation {
                Some(p) => permutation_of_cycles(cycle_seqs(cycles@)) == Some(p.mapping_view()),
                None => permutation_of_cycles(cycle_seqs(cycles@)) is None,
            },
    {
        let ghost seqs = cycle_seqs(cycles@);
        let mut bound: usize = 0;
        let mut a: usize = 0;
        while a < cycles.len()
            invariant
                a <= cycles@.len(),
                seqs == cycle_seqs(cycles@),
                bound == cycles_bound(seqs, a as int),
            decreases cycles@.len() - a,
        {
            let cycle = &cycles[a];
            let mut here: usize = 0;
            let mut j: usize = 0;
            while j < cycle.len()
                invariant
                    j <= cycle@.len(),
                    a < cycles@.len(),
                    seqs == cycle_seqs(cycles@),
                    cycle@ == seqs[a as int],
                    here == cycle_bound(cycle@, j as int),
                decreases cycle@.len() - j,
            {
                if cycle[j] == usize::MAX {
                    proof {
                        lemma_cycles_bound(seqs, seqs.len() as int, a as int, j as int);
                    }
                    return None;
                }
                if here <= cycle[j] {
                    here = cycle[j] + 1;
                }
                j += 1;
            }
            if bound < here {
                bound = here;
            }
            a += 1;
        }
        let mut flat: Vec<usize> = Vec::new();
        let mut c: usize = 0;
        while c < cycles.len()
            invariant
                c <= cycles@.len(),
                seqs == cycle_seqs(cycles@),
                bound == cycles_bound(seqs, seqs.len() as int),
                flat@ == flattened(seqs, c as int),
                forall|m: int| 0 <= m < flat@.len() ==> (#[trigger] flat@[m]) < bound,
            decreases cycles@.len() - c,
        {
            let cycle = &cycles[c];
            let ghost start = flat@;
            let mut j: usize = 0;
            while j < cycle.len()
                invariant
                    j <= cycle@.len(),
                    c < cycles@.len(),
                    seqs == cycle_seqs(cycles@),
                    cycle@ == seqs[c as int],
                    bound == cycles_bound(seqs, seqs.len() as int),
                    flat@ == start + cycle@.take(j as int),
                    forall|m: int| 0 <= m < flat@.len() ==> (#[trigger] flat@[m]) < bound,
                decreases cycle@.len() - j,
            {
                proof {
                    lemma_cycles_bound(seqs, seqs.len() as int, c as int, j as int);
                }
                flat.push(cycle[j]);
                assert(flat@ =~= start + cycle@.take(j + 1));
                j += 1;
            }
            assert(cycle@.take(cycle@.len() as int) =~= cycle@);
            c += 1;
        }
        if !all_distinct(&flat, bound) {
            return None;
        }
        let mut mapping: Vec<usize> = Vec::new();
        let mut i: usize = 0;
        while i < bound
            invariant
                i <= bound,
                mapping@ == identity_mapping(bound as nat).take(i as int),
            decreases bound - i,
        {
            mapping.push(i);
            assert(mapping@ =~= identity_mapping(bound as nat).take(i + 1));
            i += 1;
        }
        assert(mapping@ =~= identity_mapping(bound as nat));
        let mut b: usize = 0;
        while b < cycles.len()
            invariant
                b <= cycles@.len(),
                seqs == cycle_seqs(cycles@),
                bound == cycles_bound(seqs, seqs.len() as int),
                mapping@.len() == bound,
                mapping@ == with_cycles(identity_mapping(bound as nat), seqs, b as int),
            decreases cycles@.len() - b,
        {
            let cycle = &cycles[b];
            let ghost start = mapping@;
            let len = cycle.len();
            let mut j: usize = 0;
            proof {
                assert forall|m: int| 0 <= m < cycle@.len() implies (#[trigger] cycle@[m]) < bound by {
                    lemma_cycles_bound(seqs, seqs.len() as int, b as int, m);
                }
            }
            while j < len
                invariant
                    j <= len,
                    len == cycle@.len(),
                    mapping@.len() == bound,
                    start.len() == bound,
                    forall|m: int| 0 <= m < cycle@.len() ==> (#[trigger] cycle@[m]) < bound,
                    mapping@ == with_cycle(start, cycle@, j as int),
                decreases len - j,
            {
                let to = if j + 1 == len {
                    cycle[0]
                } else {
                    cycle[j + 1]
                };
                mapping[cycle[j]] = to;
                j += 1;
            }
            b += 1;
        }
        Permutation::from_mapping(mapping)
    }
}

} // verus!
