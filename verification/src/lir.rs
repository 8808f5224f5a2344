//! The low-level instructions of a prototype, as far as control and data flow read them.

use vstd::prelude::*;

use crate::ids::{InstrRef, Reg, RegRange};

verus! {

/// Operands handed over as a group.
#[derive(Debug, Clone, Copy, PartialEq, Eq, Hash, Structural)]
pub enum ValuePack {
    Fixed(RegRange),
    Open(Reg),
}

/// Where the results of a call go.
#[derive(Debug, Clone, Copy, PartialEq, Eq, Hash, Structural)]
pub enum ResultPack {
    Fixed(RegRange),
    Open(Reg),
    Ignore,
}

#[derive(Debug, Clone, Copy, PartialEq, Eq, Hash, Structural)]
pub struct MoveInstr {
    pub dst: Reg,
    pub src: Reg,
}

#[derive(Debug, Clone, Copy, PartialEq, Eq, Hash, Structural)]
pub struct LoadInstr {
    pub dst: Reg,
}

#[derive(Debug, Clone, Copy, PartialEq, Eq, Hash, Structural)]
pub struct StoreInstr {
    pub src: Reg,
}

#[derive(Debug, Clone, Copy, PartialEq, Eq, Hash, Structural)]
pub struct CallInstr {
    pub callee: Reg,
    pub args: ValuePack,
    pub results: ResultPack,
}

#[derive(Debug, Clone, Copy, PartialEq, Eq, Hash, Structural)]
pub struct ReturnInstr {
    pub values: ValuePack,
}

/// `Close` and `Tbc`: scope management from one register up.
#[derive(Debug, Clone, Copy, PartialEq, Eq, Hash, Structural)]
pub struct ScopeInstr {
    pub from: Reg,
}

#[derive(Debug, Clone, Copy, PartialEq, Eq, Hash, Structural)]
pub struct NumericForInstr {
    pub index: Reg,
    pub limit: Reg,
    pub step: Reg,
    pub binding: Reg,
    pub body_target: InstrRef,
    pub exit_target: InstrRef,
}

#[derive(Debug, Clone, Copy, PartialEq, Eq, Hash, Structural)]
pub struct GenericForCallInstr {
    pub control: Reg,
    pub results: ResultPack,
}

#[derive(Debug, Clone, Copy, PartialEq, Eq, Hash, Structural)]
pub struct GenericForLoopInstr {
    pub control_target: Reg,
    pub bindings: RegRange,
    pub body_target: InstrRef,
    pub exit_target: InstrRef,
}

#[derive(Debug, Clone, Copy, PartialEq, Eq, Hash, Structural)]
pub struct JumpInstr {
    pub target: InstrRef,
}

/// What a condition reads: a register or a constant slot.
#[derive(Debug, Clone, Copy, PartialEq, Eq, Hash, Structural)]
pub enum CondOperand {
    Reg(Reg),
    Const(usize),
    Nil,
    Bool(bool),
    Integer(i64),
}

#[derive(Debug, Clone, Copy, PartialEq, Eq, Hash, Structural)]
pub enum CompareKind {
    Eq,
    Lt,
    Le,
}

/// The question a branch asks, without its polarity.
#[derive(Debug, Clone, Copy, PartialEq, Eq, Hash, Structural)]
pub enum BranchSubject {
    Truthy(CondOperand),
    Compare(CompareKind, CondOperand, CondOperand),
}

#[derive(Debug, Clone, Copy, PartialEq, Eq, Hash, Structural)]
pub struct BranchCond {
    pub subject: BranchSubject,
    pub negated: bool,
}

#[derive(Debug, Clone, Copy, PartialEq, Eq, Hash, Structural)]
pub struct BranchInstr {
    pub cond: BranchCond,
    pub then_target: InstrRef,
    pub else_target: InstrRef,
}

#[derive(Debug, Clone, Copy, PartialEq, Eq, Hash, Structural)]
pub enum LowInstr {
    Move(MoveInstr),
    LoadNil(LoadInstr),
    LoadBool(LoadInstr),
    LoadConst(LoadInstr),
    LoadInteger(LoadInstr),
    LoadNumber(LoadInstr),
    /// An operator, a concatenation, a table or closure construction.
    Compute(LoadInstr),
    GetUpvalue(LoadInstr),
    SetUpvalue(StoreInstr),
    GetTable(LoadInstr),
    SetTable(StoreInstr),
    SetList(StoreInstr),
    Call(CallInstr),
    TailCall(CallInstr),
    Return(ReturnInstr),
    Close(ScopeInstr),
    Tbc(ScopeInstr),
    NumericForInit(NumericForInstr),
    NumericForLoop(NumericForInstr),
    GenericForPrep(JumpInstr),
    GenericForCall(GenericForCallInstr),
    GenericForLoop(GenericForLoopInstr),
    Jump(JumpInstr),
    Branch(BranchInstr),
}

impl LowInstr {
    /// The instructions after which control does not simply fall through.
    pub open spec fn ends_control(self) -> bool {
        self is Jump || self is Branch || self is Return || self is TailCall || self is NumericForInit
            || self is NumericForLoop || self is GenericForLoop
    }

    pub fn is_control_terminator(&self) -> (r: bool)
        ensures
            r == self.ends_control(),
    {
        match self {
            LowInstr::Jump(_)
            | LowInstr::Branch(_)
            | LowInstr::Return(_)
            | LowInstr::TailCall(_)
            | LowInstr::NumericForInit(_)
            | LowInstr::NumericForLoop(_)
            | LowInstr::GenericForLoop(_) => true,
            _ => false,
        }
    }
}

/// One prototype: its instructions in order.
#[derive(Debug, Clone)]
pub struct LoweredProto {
    pub instrs: Vec<LowInstr>,
}

} // verus!
