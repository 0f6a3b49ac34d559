//! The syntax that the parser hands to the expansion.

use crate::names::Symbol;
use crate::span::{Span, WithSpan};
use std::sync::Arc;
use vstd::prelude::*;

verus! {

/// The handle of a lexical block. Block 0 is the root.
#[derive(Clone, Copy, Debug, PartialEq, Eq, Structural, Hash)]
pub struct BlockID(pub usize);

/// The definition of a label.
#[derive(Debug, PartialEq, Eq)]
pub struct Label {
    pub name: Symbol,
    pub public: bool,
    /// The block that the label stands in, once the expansion has reached it.
    pub maybe_block_id: Option<BlockID>,
    /// If set, the label can only be referred to from these blocks.
    pub available_in_blocks: Option<Arc<Vec<BlockID>>>,
}

impl Clone for Label {
    fn clone(&self) -> (copy: Self)
        ensures
            copy == *self,
    {
        Label {
            name: self.name,
            public: self.public,
            maybe_block_id: self.maybe_block_id,
            available_in_blocks: match &self.available_in_blocks {
                Some(blocks) => Some(blocks.clone()),
                None => None,
            },
        }
    }
}

/// A reference to a label from a block.
#[derive(Clone, Copy, Debug, PartialEq, Eq, Structural, Hash)]
pub struct LabelReference {
    pub name: Symbol,
    pub block_id: BlockID,
}

/// A reference to a register, possibly taken modulo a number.
#[derive(Clone, Copy, Debug, PartialEq, Eq)]
pub struct RegisterReference {
    pub reg_name: WithSpan<Symbol>,
    pub modulus: Option<u64>,
}

/// An instruction of the register machine.
#[derive(Clone, Copy, Debug, PartialEq, Eq)]
#[allow(inconsistent_fields)]
pub enum Primitive {
    Add { amt: WithSpan<u64>, register: RegisterReference },
    Goto { label: WithSpan<LabelReference> },
    SolvedGoto { label: WithSpan<LabelReference>, register: RegisterReference },
    Input { message: WithSpan<Symbol>, register: RegisterReference },
    Halt { message: WithSpan<Symbol>, register: Option<RegisterReference> },
    Print { message: WithSpan<Symbol>, register: Option<RegisterReference> },
}

/// A value that needs no lookup.
#[derive(Debug, PartialEq, Eq)]
pub enum ResolvedValue {
    Int(u64),
    Ident(Symbol),
    Block(Block),
}

/// A list of instructions in braces.
#[derive(Debug, PartialEq, Eq)]
pub struct Block {
    pub code: Arc<Vec<WithSpan<TaggedInstruction>>>,
}

/// An argument or the right-hand side of a definition.
#[derive(Debug, PartialEq, Eq)]
pub enum Value {
    Resolved(ResolvedValue),
    Constant(Symbol),
}

/// The call of a macro.
#[derive(Debug, PartialEq, Eq)]
pub struct MacroCall {
    pub name: WithSpan<Symbol>,
    pub arguments: WithSpan<Arc<Vec<WithSpan<Value>>>>,
}

#[derive(Debug, PartialEq, Eq)]
pub enum Code {
    Primitive(Primitive),
    Macro(MacroCall),
}

/// A definition whose right-hand side may still name a constant.
#[derive(Debug, PartialEq, Eq)]
pub struct DefineUnresolved {
    pub name: WithSpan<Symbol>,
    pub value: WithSpan<Value>,
}

/// A definition that is bound in a block.
#[derive(Debug, PartialEq, Eq)]
pub struct DefineResolved {
    pub name: WithSpan<Symbol>,
    pub value: WithSpan<ResolvedValue>,
}

#[derive(Debug, PartialEq, Eq)]
pub enum Instruction {
    Label(Label),
    Code(Code),
    Constant(Symbol),
    Define(DefineUnresolved),
}

/// An instruction with the block that it belongs to, once the expansion has
/// reached it.
#[derive(Debug, PartialEq, Eq)]
pub struct TaggedInstruction {
    pub instruction: Instruction,
    pub block_id: Option<BlockID>,
}

impl Clone for Block {
    fn clone(&self) -> (copy: Self)
        ensures
            copy == *self,
    {
        Block { code: self.code.clone() }
    }
}

impl Clone for ResolvedValue {
    fn clone(&self) -> (copy: Self)
        ensures
            copy == *self,
    {
        match self {
            ResolvedValue::Int(number) => ResolvedValue::Int(*number),
            ResolvedValue::Ident(ident) => ResolvedValue::Ident(*ident),
            ResolvedValue::Block(block) => ResolvedValue::Block(block.clone()),
        }
    }
}

impl Clone for Value {
    fn clone(&self) -> (copy: Self)
        ensures
            copy == *self,
    {
        match self {
            Value::Resolved(resolved) => Value::Resolved(resolved.clone()),
            Value::Constant(name) => Value::Constant(*name),
        }
    }
}

impl Clone for MacroCall {
    fn clone(&self) -> (copy: Self)
        ensures
            copy == *self,
    {
        MacroCall {
            name: self.name,
            arguments: WithSpan { value: self.arguments.value.clone(), span: self.arguments.span },
        }
    }
}

impl Clone for Code {
    fn clone(&self) -> (copy: Self)
        ensures
            copy == *self,
    {
        match self {
            Code::Primitive(primitive) => Code::Primitive(*primitive),
            Code::Macro(call) => Code::Macro(call.clone()),
        }
    }
}

impl Clone for DefineUnresolved {
    fn clone(&self) -> (copy: Self)
        ensures
            copy == *self,
    {
        DefineUnresolved {
            name: self.name,
            value: WithSpan { value: self.value.value.clone(), span: self.value.span },
        }
    }
}

impl Clone for DefineResolved {
    fn clone(&self) -> (copy: Self)
        ensures
            copy == *self,
    {
        DefineResolved {
            name: self.name,
            value: WithSpan { value: self.value.value.clone(), span: self.value.span },
        }
    }
}

impl Clone for Instruction {
    fn clone(&self) -> (copy: Self)
        ensures
            copy == *self,
    {
        match self {
            Instruction::Label(label) => Instruction::Label(label.clone()),
            Instruction::Code(code) => Instruction::Code(code.clone()),
            Instruction::Constant(name) => Instruction::Constant(*name),
            Instruction::Define(define) => Instruction::Define(define.clone()),
        }
    }
}

impl Clone for TaggedInstruction {
    fn clone(&self) -> (copy: Self)
        ensures
            copy == *self,
    {
        TaggedInstruction { instruction: self.instruction.clone(), block_id: self.block_id }
    }
}

} // verus!
