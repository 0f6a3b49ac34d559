//! What the expansion knows besides the code: the declared registers, the
//! blocks, and the macros with the files that can see them.

use crate::compiler::blocks::{BlockInfoTracker, BlockInfoView};
use crate::compiler::patterns::MacroPattern;
use crate::compiler::registers::{Puzzle, RegistersDecl};
use crate::compiler::syntax::TaggedInstruction;
use crate::names::Symbol;
use crate::span::WithSpan;
use std::sync::Arc;
use vstd::prelude::*;

verus! {

/// The macros that the language brings along.
#[derive(Clone, Copy, Debug, PartialEq, Eq, Structural, Hash)]
pub enum BuiltinMacro {
    Add,
    Goto,
    SolvedGoto,
    Input,
    Halt,
    Print,
}

/// One branch of a user-defined macro: the arguments that it takes and the
/// code that a call becomes.
#[derive(Debug)]
pub struct MacroBranch {
    pub pattern: WithSpan<MacroPattern>,
    pub code: Arc<Vec<WithSpan<TaggedInstruction>>>,
}

#[derive(Debug)]
pub enum Macro {
    UserDefined { branches: Vec<WithSpan<MacroBranch>> },
    Builtin(BuiltinMacro),
}

/// A macro with the file that defines it.
#[derive(Debug)]
pub struct MacroEntry {
    pub file: usize,
    pub name: Symbol,
    pub definition: WithSpan<Macro>,
}

/// The file in which a macro that a file can call is defined.
#[derive(Clone, Copy, Debug, PartialEq, Eq, Structural, Hash)]
pub struct MacroAccess {
    pub file: usize,
    pub name: Symbol,
    pub defined_in: usize,
}

#[derive(Debug)]
pub struct ExpansionInfo {
    pub registers: Option<WithSpan<RegistersDecl>>,
    pub block_info: BlockInfoTracker,
    pub macros: Vec<MacroEntry>,
    pub available_macros: Vec<MacroAccess>,
}

/// The first entry that a call of `name` from `file` is allowed to use.
pub open spec fn find_access(available: Seq<MacroAccess>, file: usize, name: Symbol) -> Option<
    MacroAccess,
>
    decreases available.len(),
{
    if available.len() == 0 {
        None
    } else if available[0].file == file && available[0].name == name {
        Some(available[0])
    } else {
        find_access(available.drop_first(), file, name)
    }
}

/// The place of the first macro of that name that `file` defines.
pub open spec fn find_macro(macros: Seq<MacroEntry>, file: usize, name: Symbol, from: int) -> Option<
    int,
>
    decreases macros.len() - from,
{
    if from < 0 || from >= macros.len() {
        None
    } else if macros[from].file == file && macros[from].name == name {
        Some(from)
    } else {
        find_macro(macros, file, name, from + 1)
    }
}

impl ExpansionInfo {
    /// The declared puzzles; none without a declaration.
    pub open spec fn puzzles(&self) -> Seq<Puzzle> {
        match self.registers {
            Some(declaration) => declaration.value.puzzles@,
            None => Seq::empty(),
        }
    }

    /// The blocks.
    pub open spec fn blocks(&self) -> Seq<BlockInfoView> {
        self.block_info@
    }

    /// Which file defines the macro that a call of `name` from `file` means.
    pub fn macro_access(&self, file: usize, name: Symbol) -> (access: Option<MacroAccess>)
        ensures
            access == find_access(self.available_macros@, file, name),
    {
        let ghost all = self.available_macros@;
        assert(all.skip(0) =~= all);
        let mut i: usize = 0;
        while i < self.available_macros.len()
            invariant
                i <= all.len(),
                all == self.available_macros@,
                find_access(all, file, name) == find_access(all.skip(i as int), file, name),
            decreases all.len() - i,
        {
            let entry = self.available_macros[i];
            if entry.file == file && entry.name.0 == name.0 {
                assert(all.skip(i as int)[0] == entry);
                return Some(entry);
            }
            assert(all.skip(i as int).drop_first() =~= all.skip(i + 1));
            i += 1;
        }
        assert(all.skip(i as int).len() == 0);
        None
    }

    /// The macro of that name that `file` defines.
    pub fn macro_definition(&self, file: usize, name: Symbol) -> (found: Option<&MacroEntry>)
        ensures
            match found {
                Some(entry) => find_macro(self.macros@, file, name, 0) matches Some(index)
                    && 0 <= index < self.macros@.len() && self.macros@[index] == *entry,
                None => find_macro(self.macros@, file, name, 0) is None,
            },
    {
        let mut i: usize = 0;
        while i < self.macros.len()
            invariant
                i <= self.macros@.len(),
                find_macro(self.macros@, file, name, 0) == find_macro(self.macros@, file, name, i as int),
            decreases self.macros@.len() - i,
        {
            let entry = &self.macros[i];
            if entry.file == file && entry.name.0 == name.0 {
                return Some(entry);
            }
            i += 1;
        }
        None
    }
}

} // verus!
