//! The patterns of user-defined macros: which argument lists a branch takes,
//! and whether two branches could take the same one.

use crate::compiler::syntax::{DefineResolved, ResolvedValue};
use crate::names::{Interner, Symbol};
use crate::span::WithSpan;
use vstd::prelude::*;

verus! {

/// The kind of value that an argument slot takes.
#[derive(Clone, Copy, Debug, PartialEq, Eq, Structural, Hash)]
pub enum MacroArgTy {
    Int,
    Reg,
    Block,
    Ident,
}

/// One place of a pattern: a typed slot, or a word that must stand there.
#[derive(Clone, Copy, Debug, PartialEq, Eq)]
pub enum MacroPatternComponent {
    Argument { name: WithSpan<Symbol>, ty: WithSpan<MacroArgTy> },
    Word(Symbol),
}

/// The pattern of one branch of a macro.
#[derive(Debug)]
pub struct MacroPattern(pub Vec<WithSpan<MacroPatternComponent>>);

/// The text `123`.
pub open spec fn int_example() -> Seq<u8> {
    seq![49u8, 50u8, 51u8]
}

/// The text `a`.
pub open spec fn ident_example() -> Seq<u8> {
    seq![97u8]
}

/// The text `{ }`.
pub open spec fn block_example() -> Seq<u8> {
    seq![123u8, 32u8, 125u8]
}

/// Whether a slot of this kind takes identifiers.
pub open spec fn takes_ident(ty: MacroArgTy) -> bool {
    ty == MacroArgTy::Ident || ty == MacroArgTy::Reg
}

/// An argument that both components would take, if there is one.
pub open spec fn component_conflict(
    a: MacroPatternComponent,
    b: MacroPatternComponent,
    names: Seq<Seq<u8>>,
) -> Option<Seq<u8>> {
    match (a, b) {
        (
            MacroPatternComponent::Argument { name: _, ty: ty_a },
            MacroPatternComponent::Argument { name: _, ty: ty_b },
        ) => {
            if ty_a.value == MacroArgTy::Int && ty_b.value == MacroArgTy::Int {
                Some(int_example())
            } else if takes_ident(ty_a.value) && takes_ident(ty_b.value) {
                Some(ident_example())
            } else if ty_a.value == MacroArgTy::Block && ty_b.value == MacroArgTy::Block {
                Some(block_example())
            } else {
                None
            }
        },
        (MacroPatternComponent::Argument { name: _, ty }, MacroPatternComponent::Word(word)) => {
            if takes_ident(ty.value) {
                Some(names[word.0 as int])
            } else {
                None
            }
        },
        (MacroPatternComponent::Word(word), MacroPatternComponent::Argument { name: _, ty }) => {
            if takes_ident(ty.value) {
                Some(names[word.0 as int])
            } else {
                None
            }
        },
        (MacroPatternComponent::Word(word_a), MacroPatternComponent::Word(word_b)) => {
            if word_a == word_b {
                Some(names[word_a.0 as int])
            } else {
                None
            }
        },
    }
}

/// Whether the two patterns have the same length and conflict at each of their
/// first `upto` places.
pub open spec fn places_conflict(
    a: Seq<WithSpan<MacroPatternComponent>>,
    b: Seq<WithSpan<MacroPatternComponent>>,
    names: Seq<Seq<u8>>,
    upto: int,
) -> bool {
    &&& a.len() == b.len()
    &&& forall|i: int|
        0 <= i < upto && i < a.len() ==> (#[trigger] component_conflict(a[i].value, b[i].value, names))
            is Some
}

/// The arguments that both patterns would take at their first `upto` places,
/// each behind a space.
pub open spec fn conflict_text(
    a: Seq<WithSpan<MacroPatternComponent>>,
    b: Seq<WithSpan<MacroPatternComponent>>,
    names: Seq<Seq<u8>>,
    upto: int,
) -> Seq<u8>
    decreases upto,
{
    if upto <= 0 {
        Seq::empty()
    } else {
        conflict_text(a, b, names, upto - 1) + seq![32u8] + component_conflict(
            a[upto - 1].value,
            b[upto - 1].value,
            names,
        ).unwrap()
    }
}

/// A call of the macro that both patterns would take, if there is one: the
/// macro's name and an argument for each place.
pub open spec fn pattern_conflict(
    a: Seq<WithSpan<MacroPatternComponent>>,
    b: Seq<WithSpan<MacroPatternComponent>>,
    macro_name: Seq<u8>,
    names: Seq<Seq<u8>>,
) -> Option<Seq<u8>> {
    if places_conflict(a, b, names, a.len() as int) {
        Some(macro_name + conflict_text(a, b, names, a.len() as int))
    } else {
        None
    }
}

/// Whether a component takes a value.
pub open spec fn component_matches(component: MacroPatternComponent, value: ResolvedValue) -> bool {
    match (component, value) {
        (MacroPatternComponent::Argument { name: _, ty }, ResolvedValue::Int(_)) => ty.value
            == MacroArgTy::Int,
        (MacroPatternComponent::Argument { name: _, ty }, ResolvedValue::Ident(_)) => takes_ident(
            ty.value,
        ),
        (MacroPatternComponent::Argument { name: _, ty }, ResolvedValue::Block(_)) => ty.value
            == MacroArgTy::Block,
        (MacroPatternComponent::Word(word), ResolvedValue::Ident(ident)) => word == ident,
        (MacroPatternComponent::Word(_), _) => false,
    }
}

/// Whether a pattern takes a list of arguments.
pub open spec fn pattern_matches(
    pattern: Seq<WithSpan<MacroPatternComponent>>,
    arguments: Seq<WithSpan<ResolvedValue>>,
) -> bool {
    &&& pattern.len() == arguments.len()
    &&& forall|i: int|
        0 <= i < pattern.len() ==> component_matches((#[trigger] pattern[i]).value, arguments[i].value)
}

/// The definition that binds an argument to the slot that took it; a word
/// binds nothing.
pub open spec fn component_define(
    component: MacroPatternComponent,
    value: WithSpan<ResolvedValue>,
) -> Option<DefineResolved> {
    match component {
        MacroPatternComponent::Argument { name, ty: _ } => Some(DefineResolved { name, value }),
        MacroPatternComponent::Word(_) => None,
    }
}

/// The definitions that the first `upto` arguments give, in their order.
pub open spec fn pattern_defines(
    pattern: Seq<WithSpan<MacroPatternComponent>>,
    arguments: Seq<WithSpan<ResolvedValue>>,
    upto: int,
) -> Seq<DefineResolved>
    decreases upto,
{
    if upto <= 0 {
        Seq::empty()
    } else {
        let before = pattern_defines(pattern, arguments, upto - 1);
        match component_define(pattern[upto - 1].value, arguments[upto - 1]) {
            Some(define) => before.push(define),
            None => before,
        }
    }
}

/// Two components take a common argument in either order or in neither, and
/// it is the same argument.
pub proof fn lemma_component_conflict_symmetric(
    a: MacroPatternComponent,
    b: MacroPatternComponent,
    names: Seq<Seq<u8>>,
)
    ensures
        component_conflict(a, b, names) == component_conflict(b, a, names),
{
}

/// The conflict check is symmetric: two patterns conflict in either order or
/// in neither, with the same call as the example.
pub proof fn lemma_pattern_conflict_symmetric(
    a: Seq<WithSpan<MacroPatternComponent>>,
    b: Seq<WithSpan<MacroPatternComponent>>,
    macro_name: Seq<u8>,
    names: Seq<Seq<u8>>,
)
    ensures
        pattern_conflict(a, b, macro_name, names) == pattern_conflict(b, a, macro_name, names),
{
    assert forall|i: int| 0 <= i < a.len() && i < b.len() implies #[trigger] component_conflict(
        a[i].value,
        b[i].value,
        names,
    ) == component_conflict(b[i].value, a[i].value, names) by {
        lemma_component_conflict_symmetric(a[i].value, b[i].value, names);
    }
    if a.len() == b.len() {
        lemma_conflict_text_symmetric(a, b, names, a.len() as int);
        if places_conflict(a, b, names, a.len() as int) {
            assert forall|i: int| 0 <= i < b.len() implies (#[trigger] component_conflict(
                b[i].value,
                a[i].value,
                names,
            )) is Some by {
                assert(component_conflict(a[i].value, b[i].value, names) is Some);
            }
        }
        if places_conflict(b, a, names, b.len() as int) {
            assert forall|i: int| 0 <= i < a.len() implies (#[trigger] component_conflict(
                a[i].value,
                b[i].value,
                names,
            )) is Some by {
                assert(component_conflict(b[i].value, a[i].value, names) is Some);
            }
        }
    }
}

proof fn lemma_conflict_text_symmetric(
    a: Seq<WithSpan<MacroPatternComponent>>,
    b: Seq<WithSpan<MacroPatternComponent>>,
    names: Seq<Seq<u8>>,
    upto: int,
)
    requires
        upto <= a.len(),
        upto <= b.len(),
    ensures
        conflict_text(a, b, names, upto) == conflict_text(b, a, names, upto),
    decreases upto,
{
    if upto > 0 {
        lemma_conflict_text_symmetric(a, b, names, upto - 1);
        lemma_component_conflict_symmetric(a[upto - 1].value, b[upto - 1].value, names);
    }
}

fn takes_ident_exec(ty: MacroArgTy) -> (takes: bool)
    ensures
        takes == takes_ident(ty),
{
    match ty {
        MacroArgTy::Ident => true,
        MacroArgTy::Reg => true,
        _ => false,
    }
}

fn int_example_exec() -> (text: Vec<u8>)
    ensures
        text@ == int_example(),
{
    let mut text: Vec<u8> = Vec::new();
    text.push(49);
    text.push(50);
    text.push(51);
    assert(text@ =~= int_example());
    text
}

fn ident_example_exec() -> (text: Vec<u8>)
    ensures
        text@ == ident_example(),
{
    let mut text: Vec<u8> = Vec::new();
    text.push(97);
    assert(text@ =~= ident_example());
    text
}

fn block_example_exec() -> (text: Vec<u8>)
    ensures
        text@ == block_example(),
{
    let mut text: Vec<u8> = Vec::new();
    text.push(123);
    text.push(32);
    text.push(125);
    assert(text@ =~= block_example());
    text
}

/// Appends `more` to `text`.
pub fn append_bytes(text: &mut Vec<u8>, more: &[u8])
    ensures
        final(text)@ == old(text)@ + more@,
{
    let mut i: usize = 0;
    while i < more.len()
        invariant
            i <= more@.len(),
            text@ == old(text)@ + more@.take(i as int),
        decreases more@.len() - i,
    {
        text.push(more[i]);
        assert(more@.take(i + 1) =~= more@.take(i as int).push(more@[i as int]));
        assert(text@ =~= old(text)@ + more@.take(i + 1));
        i += 1;
    }
    assert(more@.take(more@.len() as int) =~= more@);
}

impl MacroPatternComponent {
    /// Returns `None` if the components do not conflict, otherwise an argument
    /// that both would take.
    pub fn conflicts_with(&self, other: &MacroPatternComponent, names: &Interner) -> (example: Option<
        Vec<u8>,
    >)
        requires
            *self matches MacroPatternComponent::Word(word) ==> names.knows(word),
            *other matches MacroPatternComponent::Word(word) ==> names.knows(word),
        ensures
            match example {
                Some(text) => component_conflict(*self, *other, names@) == Some(text@),
                None => component_conflict(*self, *other, names@) is None,
            },
    {
        match (self, other) {
            (
                MacroPatternComponent::Argument { name: _, ty: ty_a },
                MacroPatternComponent::Argument { name: _, ty: ty_b },
            ) => {
                let a = ty_a.value;
                let b = ty_b.value;
                match (a, b) {
                    (MacroArgTy::Int, MacroArgTy::Int) => Some(int_example_exec()),
                    (MacroArgTy::Block, MacroArgTy::Block) => Some(block_example_exec()),
                    _ => if takes_ident_exec(a) && takes_ident_exec(b) {
                        Some(ident_example_exec())
                    } else {
                        None
                    },
                }
            },
            (MacroPatternComponent::Argument { name: _, ty }, MacroPatternComponent::Word(word)) => {
                if takes_ident_exec(ty.value) {
                    Some(names.text(*word).clone())
                } else {
                    None
                }
            },
            (MacroPatternComponent::Word(word), MacroPatternComponent::Argument { name: _, ty }) => {
                if takes_ident_exec(ty.value) {
                    Some(names.text(*word).clone())
                } else {
                    None
                }
            },
            (MacroPatternComponent::Word(word_a), MacroPatternComponent::Word(word_b)) => {
                if word_a.0 == word_b.0 {
                    Some(names.text(*word_a).clone())
                } else {
                    None
                }
            },
        }
    }

    /// Whether the component takes the value.
    pub fn matches(&self, value: &ResolvedValue) -> (taken: bool)
        ensures
            taken == component_matches(*self, *value),
    {
        match self {
            MacroPatternComponent::Argument { name: _, ty } => match value {
                ResolvedValue::Int(_) => match ty.value {
                    MacroArgTy::Int => true,
                    _ => false,
                },
                ResolvedValue::Ident(_) => takes_ident_exec(ty.value),
                ResolvedValue::Block(_) => match ty.value {
                    MacroArgTy::Block => true,
                    _ => false,
                },
            },
            MacroPatternComponent::Word(word) => match value {
                ResolvedValue::Ident(ident) => word.0 == ident.0,
                _ => false,
            },
        }
    }

    /// The definition that binds `value` to this slot, for a value that the
    /// component takes. A word binds nothing.
    pub fn mk_define(&self, value: WithSpan<ResolvedValue>) -> (define: Option<
        (Symbol, DefineResolved),
    >)
        requires
            component_matches(*self, value.value),
        ensures
            match define {
                Some((name, bound)) => component_define(*self, value) == Some(bound) && name
                    == bound.name.value,
                None => component_define(*self, value) is None,
            },
    {
        match self {
            MacroPatternComponent::Argument { name, ty: _ } => Some(
                (name.value, DefineResolved { name: *name, value }),
            ),
            MacroPatternComponent::Word(_) => None,
        }
    }
}

impl MacroPattern {
    /// Whether every word of the pattern is a name of the table.
    pub open spec fn words_known(&self, names: &Interner) -> bool {
        forall|i: int|
            0 <= i < self.0@.len() ==> ((#[trigger] self.0@[i]).value matches MacroPatternComponent::Word(
                word,
            ) ==> names.knows(word))
    }

    /// Returns `None` if the patterns do not conflict, otherwise a call of the
    /// macro that both patterns would take.
    pub fn conflicts_with(&self, macro_name: &[u8], other: &MacroPattern, names: &Interner) -> (example:
        Option<Vec<u8>>)
        requires
            self.words_known(names),
            other.words_known(names),
        ensures
            match example {
                Some(text) => pattern_conflict(self.0@, other.0@, macro_name@, names@) == Some(text@),
                None => pattern_conflict(self.0@, other.0@, macro_name@, names@) is None,
            },
    {
        if self.0.len() != other.0.len() {
            return None;
        }
        let mut text: Vec<u8> = Vec::new();
        append_bytes(&mut text, macro_name);
        let mut i: usize = 0;
        while i < self.0.len()
            invariant
                self.words_known(names),
                other.words_known(names),
                self.0@.len() == other.0@.len(),
                i <= self.0@.len(),
                places_conflict(self.0@, other.0@, names@, i as int),
                text@ == macro_name@ + conflict_text(self.0@, other.0@, names@, i as int),
            decreases self.0@.len() - i,
        {
            match self.0[i].value.conflicts_with(&other.0[i].value, names) {
                Some(example) => {
                    text.push(32);
                    append_bytes(&mut text, example.as_slice());
                    assert(text@ =~= macro_name@ + conflict_text(
                        self.0@,
                        other.0@,
                        names@,
                        i as int + 1,
                    ));
                },
                None => {
                    assert(component_conflict(self.0@[i as int].value, other.0@[i as int].value, names@)
                        is None);
                    return None;
                },
            }
            i += 1;
        }
        Some(text)
    }

    /// Whether the pattern takes the arguments. If so, returns the definitions
    /// that go into the new block; if not, the arguments as they came.
    pub fn matches(&self, components: Vec<WithSpan<ResolvedValue>>) -> (outcome: Result<
        Vec<(Symbol, DefineResolved)>,
        Vec<WithSpan<ResolvedValue>>,
    >)
        ensures
            match outcome {
                Ok(defines) => {
                    &&& pattern_matches(self.0@, components@)
                    &&& defines@.len() == pattern_defines(
                        self.0@,
                        components@,
                        self.0@.len() as int,
                    ).len()
                    &&& forall|i: int|
                        0 <= i < defines@.len() ==> (#[trigger] defines@[i]).1 == pattern_defines(
                            self.0@,
                            components@,
                            self.0@.len() as int,
                        )[i] && defines@[i].0 == defines@[i].1.name.value
                },
                Err(unchanged) => !pattern_matches(self.0@, components@) && unchanged == components,
            },
    {
        if components.len() != self.0.len() {
            return Err(components);
        }
        let mut i: usize = 0;
        while i < self.0.len()
            invariant
                components@.len() == self.0@.len(),
                i <= self.0@.len(),
                forall|j: int|
                    0 <= j < i ==> component_matches((#[trigger] self.0@[j]).value, components@[j].value),
            decreases self.0@.len() - i,
        {
            if !self.0[i].value.matches(&components[i].value) {
                return Err(components);
            }
            i += 1;
        }
        let mut defines: Vec<(Symbol, DefineResolved)> = Vec::new();
        let mut k: usize = 0;
        while k < self.0.len()
            invariant
                components@.len() == self.0@.len(),
                pattern_matches(self.0@, components@),
                k <= self.0@.len(),
                defines@.len() == pattern_defines(self.0@, components@, k as int).len(),
                forall|j: int|
                    0 <= j < defines@.len() ==> (#[trigger] defines@[j]).1 == pattern_defines(
                        self.0@,
                        components@,
                        k as int,
                    )[j] && defines@[j].0 == defines@[j].1.name.value,
            decreases self.0@.len() - k,
        {
            let value = WithSpan { value: components[k].value.clone(), span: components[k].span };
            assert(value == components@[k as int]);
            assert(component_matches(self.0@[k as int].value, components@[k as int].value));
            match self.0[k].value.mk_define(value) {
                Some(define) => {
                    defines.push(define);
                },
                None => {},
            }
            k += 1;
        }
        Ok(defines)
    }
}

} // verus!
