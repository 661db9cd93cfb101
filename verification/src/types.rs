//! The IR data model: value type tags, literal constants, the instruction
//! tagged union and the function container, together with the spec-level
//! mirror of an instruction used by every contract of this crate.

use vstd::prelude::*;

verus! {

/// Static type tag of an IR value.
#[derive(Clone, Copy, Debug, PartialEq, Eq, Structural)]
pub enum Types {
    Int,
    Float,
    Bool,
}

/// A literal constant; the structural key for value numbering and constant
/// folding.
#[derive(Clone, Copy, Debug, Hash, Eq, PartialEq, Structural)]
pub enum Literal {
    Int(i64),
    Bool(bool),
}

/// One three-address instruction. Operands and destinations are plain names;
/// there is no SSA versioning.
#[derive(Clone, Debug, PartialEq)]
pub enum Instruction {
    Const { dest: String, typ: Types, values: Literal },
    Add { dest: String, op1: String, op2: String },
    Mul { dest: String, op1: String, op2: String },
    Eq { dest: String, op1: String, op2: String },
    Jmp { label: String },
    Move { dest: String, src: String },
    Id { dest: String, src: String },
    Label { label: String },
    Br { cond: String, then_label: String, else_label: String },
    Ret { value: Option<String> },
    Print { value: String },
}

impl View for Types {
    type V = Types;

    open spec fn view(&self) -> Types {
        *self
    }
}

impl DeepView for Types {
    type V = Types;

    open spec fn deep_view(&self) -> Types {
        *self
    }
}

impl View for Literal {
    type V = Literal;

    open spec fn view(&self) -> Literal {
        *self
    }
}

impl DeepView for Literal {
    type V = Literal;

    open spec fn deep_view(&self) -> Literal {
        *self
    }
}

/// Spec-level mirror of `Instruction`: every name is abstracted to its
/// character sequence, so contracts pin results up to string contents.
pub enum InstrV {
    Const { dest: Seq<char>, typ: Types, values: Literal },
    Add { dest: Seq<char>, op1: Seq<char>, op2: Seq<char> },
    Mul { dest: Seq<char>, op1: Seq<char>, op2: Seq<char> },
    Eq { dest: Seq<char>, op1: Seq<char>, op2: Seq<char> },
    Jmp { label: Seq<char> },
    Move { dest: Seq<char>, src: Seq<char> },
    Id { dest: Seq<char>, src: Seq<char> },
    Label { label: Seq<char> },
    Br { cond: Seq<char>, then_label: Seq<char>, else_label: Seq<char> },
    Ret { value: Option<Seq<char>> },
    Print { value: Seq<char> },
}

impl View for Instruction {
    type V = InstrV;

    open spec fn view(&self) -> InstrV {
        match self {
            Instruction::Const { dest, typ, values } => InstrV::Const {
                dest: dest@,
                typ: *typ,
                values: *values,
            },
            Instruction::Add { dest, op1, op2 } => InstrV::Add {
                dest: dest@,
                op1: op1@,
                op2: op2@,
            },
            Instruction::Mul { dest, op1, op2 } => InstrV::Mul {
                dest: dest@,
                op1: op1@,
                op2: op2@,
            },
            Instruction::Eq { dest, op1, op2 } => InstrV::Eq {
                dest: dest@,
                op1: op1@,
                op2: op2@,
            },
            Instruction::Jmp { label } => InstrV::Jmp { label: label@ },
            Instruction::Move { dest, src } => InstrV::Move { dest: dest@, src: src@ },
            Instruction::Id { dest, src } => InstrV::Id { dest: dest@, src: src@ },
            Instruction::Label { label } => InstrV::Label { label: label@ },
            Instruction::Br { cond, then_label, else_label } => InstrV::Br {
                cond: cond@,
                then_label: then_label@,
                else_label: else_label@,
            },
            Instruction::Ret { value } => InstrV::Ret {
                value: match value {
                    Some(v) => Some(v@),
                    None => None,
                },
            },
            Instruction::Print { value } => InstrV::Print { value: value@ },
        }
    }
}

impl DeepView for Instruction {
    type V = InstrV;

    open spec fn deep_view(&self) -> InstrV {
        self.view()
    }
}

/// The destination name an instruction assigns, if it assigns one.
pub open spec fn dest_of(i: InstrV) -> Option<Seq<char>> {
    match i {
        InstrV::Const { dest, .. } => Some(dest),
        InstrV::Add { dest, .. } => Some(dest),
        InstrV::Mul { dest, .. } => Some(dest),
        InstrV::Eq { dest, .. } => Some(dest),
        InstrV::Move { dest, .. } => Some(dest),
        InstrV::Id { dest, .. } => Some(dest),
        _ => None,
    }
}

/// The names an instruction reads as operands, in field order.
pub open spec fn uses_of(i: InstrV) -> Seq<Seq<char>> {
    match i {
        InstrV::Add { op1, op2, .. } => seq![op1, op2],
        InstrV::Mul { op1, op2, .. } => seq![op1, op2],
        InstrV::Eq { op1, op2, .. } => seq![op1, op2],
        InstrV::Move { src, .. } => seq![src],
        InstrV::Id { src, .. } => seq![src],
        InstrV::Print { value } => seq![value],
        InstrV::Ret { value } => match value {
            Some(v) => seq![v],
            None => seq![],
        },
        InstrV::Br { cond, .. } => seq![cond],
        _ => seq![],
    }
}

/// Whether an instruction ends a basic block.
pub open spec fn is_terminator_spec(i: InstrV) -> bool {
    match i {
        InstrV::Br { .. } => true,
        InstrV::Jmp { .. } => true,
        InstrV::Ret { .. } => true,
        _ => false,
    }
}

/// A labelled run of instruction names; kept for callers that carry blocks
/// around in textual form.
#[derive(Clone, Debug)]
pub struct Block {
    pub label: String,
    pub instrs: Vec<String>,
}

/// A named, ordered instruction sequence: the sole unit of analysis.
#[derive(Clone, Debug)]
pub struct Function {
    pub name: String,
    pub instr: Vec<Instruction>,
}

} // verus!
