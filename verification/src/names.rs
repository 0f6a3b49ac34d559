//! Interned names: identifiers, register names and messages are held once in a
//! table and handled by their index.

use vstd::prelude::*;

verus! {

/// The handle of an interned name. Two handles of one table are equal exactly
/// when their texts are.
#[derive(Clone, Copy, Debug, PartialEq, Eq, Structural, Hash)]
pub struct Symbol(pub usize);

/// A table of names without repetition.
#[derive(Debug)]
pub struct Interner {
    texts: Vec<Vec<u8>>,
}

/// Whether two byte strings are equal.
pub fn bytes_equal(a: &[u8], b: &[u8]) -> (same: bool)
    ensures
        same == (a@ == b@),
{
    if a.len() != b.len() {
        return false;
    }
    let mut i: usize = 0;
    while i < a.len()
        invariant
            a@.len() == b@.len(),
            i <= a@.len(),
            forall|j: int| 0 <= j < i ==> a@[j] == b@[j],
        decreases a@.len() - i,
    {
        if a[i] != b[i] {
            return false;
        }
        i += 1;
    }
    assert(a@ =~= b@);
    true
}

/// A copy of a byte string.
pub fn bytes_to_vec(a: &[u8]) -> (copy: Vec<u8>)
    ensures
        copy@ == a@,
{
    let mut copy: Vec<u8> = Vec::new();
    let mut i: usize = 0;
    while i < a.len()
        invariant
            i <= a@.len(),
            copy@ == a@.take(i as int),
        decreases a@.len() - i,
    {
        copy.push(a[i]);
        assert(a@.take(i + 1) =~= a@.take(i as int).push(a@[i as int]));
        i += 1;
    }
    assert(a@.take(a@.len() as int) =~= a@);
    copy
}

impl Interner {
    /// The texts of the table, by handle.
    pub closed spec fn view(&self) -> Seq<Seq<u8>> {
        Seq::new(self.texts@.len(), |i: int| self.texts@[i]@)
    }

    /// No text stands twice in the table.
    pub open spec fn wf(&self) -> bool {
        forall|i: int, j: int|
            0 <= i < self@.len() && 0 <= j < self@.len() && i != j ==> self@[i] != self@[j]
    }

    /// Whether `name` is a handle of this table.
    pub open spec fn knows(&self, name: Symbol) -> bool {
        name.0 < self@.len()
    }

    /// The text of a handle of this table.
    pub open spec fn text_of(&self, name: Symbol) -> Seq<u8> {
        self@[name.0 as int]
    }

    /// The handle that `intern` gives for `text`: its place in the table, or
    /// the next free place if the table does not hold it.
    pub open spec fn handle_for(names: Seq<Seq<u8>>, text: Seq<u8>) -> Symbol {
        if names.contains(text) {
            Symbol(names.index_of(text) as usize)
        } else {
            Symbol(names.len() as usize)
        }
    }

    /// The table after `intern` was called for `text`.
    pub open spec fn with_name(names: Seq<Seq<u8>>, text: Seq<u8>) -> Seq<Seq<u8>> {
        if names.contains(text) {
            names
        } else {
            names.push(text)
        }
    }

    /// The empty table.
    pub fn new() -> (names: Self)
        ensures
            names.wf(),
            names@.len() == 0,
    {
        Interner { texts: Vec::new() }
    }

    /// The handle of `text`, if the table holds it.
    pub fn lookup(&self, text: &[u8]) -> (found: Option<Symbol>)
        requires
            self.wf(),
        ensures
            match found {
                Some(name) => self.knows(name) && self.text_of(name) == text@,
                None => forall|i: int| 0 <= i < self@.len() ==> self@[i] != text@,
            },
    {
        let mut i: usize = 0;
        while i < self.texts.len()
            invariant
                i <= self.texts@.len(),
                self@.len() == self.texts@.len(),
                forall|j: int| 0 <= j < i ==> self@[j] != text@,
            decreases self.texts@.len() - i,
        {
            if bytes_equal(self.texts[i].as_slice(), text) {
                return Some(Symbol(i));
            }
            i += 1;
        }
        None
    }

    /// The handle of `text`, which enters the table if it is new. The handles
    /// given out before keep their texts.
    pub fn intern(&mut self, text: &[u8]) -> (name: Symbol)
        requires
            old(self).wf(),
        ensures
            final(self).wf(),
            final(self).knows(name),
            final(self).text_of(name) == text@,
            final(self)@ == Self::with_name(old(self)@, text@),
            name == Self::handle_for(old(self)@, text@),
            forall|known: Symbol|
                old(self).knows(known) ==> final(self).knows(known) && final(self).text_of(known)
                    == old(self).text_of(known),
    {
        match self.lookup(text) {
            Some(name) => {
                assert(self@[name.0 as int] == text@);
                assert(self@.contains(text@));
                let ghost at = self@.index_of(text@);
                assert(at == name.0) by {
                    if at != name.0 {
                        assert(self@[at] != self@[name.0 as int]);
                    }
                }
                name
            },
            None => {
                let name = Symbol(self.texts.len());
                let ghost before = self@;
                self.texts.push(bytes_to_vec(text));
                proof {
                    assert(self@ =~= before.push(text@));
                    if before.contains(text@) {
                        let i = choose|i: int| 0 <= i < before.len() && before[i] == text@;
                        assert(false);
                    }
                }
                name
            },
        }
    }

    /// The text of a handle.
    pub fn text(&self, name: Symbol) -> (text: &Vec<u8>)
        requires
            self.knows(name),
        ensures
            text@ == self.text_of(name),
    {
        &self.texts[name.0]
    }

    /// The number of names in the table.
    pub fn len(&self) -> (count: usize)
        ensures
            count == self@.len(),
    {
        self.texts.len()
    }
}

} // verus!
