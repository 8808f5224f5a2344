//! Values that are only handed from register to register.

use vstd::prelude::*;

use crate::dataflow::{DataflowFacts, DefId, SsaValue};
use crate::error::{Fault, StructureError};
use crate::lir::{LowInstr, LoweredProto};

verus! {

/// What a definition takes over: for a move the value that it reads, otherwise itself.
pub open spec fn taken_over(proto: &LoweredProto, dataflow: &DataflowFacts, d: DefId) -> Result<SsaValue, Fault> {
    if d.0 >= dataflow.defs@.len() {
        Err(Fault::MoveMissingDef(d))
    } else {
        let def = dataflow.defs@[d.0 as int];
        let i = def.instr.0 as int;
        if def.id != d {
            Err(Fault::MoveNotDense)
        } else if i >= proto.instrs@.len() {
            Err(Fault::MoveOutsideProto(d))
        } else {
            match proto.instrs@[i] {
                LowInstr::Move(m) => if m.dst != def.reg {
                    Ok(SsaValue::Def(d))
                } else if i < dataflow.use_values@.len() && dataflow.use_values@[i].fixed.value_of(m.src) is Some {
                    Ok(dataflow.use_values@[i].fixed.value_of(m.src)->0)
                } else {
                    Err(Fault::MoveWithoutSource(d))
                },
                _ => Ok(SsaValue::Def(d)),
            }
        }
    }
}

/// The value behind at most `fuel + 1` moves.
pub open spec fn origin_of(proto: &LoweredProto, dataflow: &DataflowFacts, v: SsaValue, fuel: nat) -> Result<SsaValue, Fault>
    decreases fuel,
{
    match v {
        SsaValue::Def(d) => match taken_over(proto, dataflow, d) {
            Ok(w) => if w == v {
                Ok(v)
            } else if fuel == 0 {
                Err(Fault::MoveCycle)
            } else {
                origin_of(proto, dataflow, w, (fuel - 1) as nat)
            },
            Err(f) => Err(f),
        },
        _ => Ok(v),
    }
}

/// The value behind all moves. A chain that is longer than the list of definitions goes round
/// in a circle.
pub open spec fn canonical_origin(proto: &LoweredProto, dataflow: &DataflowFacts, v: SsaValue) -> Result<SsaValue, Fault> {
    origin_of(proto, dataflow, v, dataflow.defs@.len())
}

/// Answers from which value a chain of moves takes over.
pub struct CanonicalMoveIndex<'a> {
    pub proto: &'a LoweredProto,
    pub dataflow: &'a DataflowFacts,
}

impl<'a> CanonicalMoveIndex<'a> {
    pub fn new(proto: &'a LoweredProto, dataflow: &'a DataflowFacts) -> (r: Self)
        ensures
            r.proto == proto,
            r.dataflow == dataflow,
    {
        CanonicalMoveIndex { proto, dataflow }
    }

    fn take_over(&self, d: DefId) -> (r: Result<SsaValue, StructureError>)
        ensures
            match r {
                Ok(v) => taken_over(self.proto, self.dataflow, d) == Ok::<SsaValue, Fault>(v),
                Err(e) => taken_over(self.proto, self.dataflow, d) == Err::<SsaValue, Fault>(e.fault),
            },
    {
        if d.0 >= self.dataflow.defs.len() {
            return Err(StructureError::invalid(Fault::MoveMissingDef(d)));
        }
        let def = self.dataflow.defs[d.0];
        if def.id != d {
            return Err(StructureError::invalid(Fault::MoveNotDense));
        }
        if def.instr.0 >= self.proto.instrs.len() {
            return Err(StructureError::invalid(Fault::MoveOutsideProto(d)));
        }
        match self.proto.instrs[def.instr.0] {
            LowInstr::Move(m) => {
                if m.dst != def.reg {
                    return Ok(SsaValue::Def(d));
                }
                if def.instr.0 < self.dataflow.use_values.len() {
                    if let Some(v) = self.dataflow.use_values[def.instr.0].fixed.get(m.src) {
                        return Ok(v);
                    }
                }
                Err(StructureError::invalid(Fault::MoveWithoutSource(d)))
            },
            _ => Ok(SsaValue::Def(d)),
        }
    }

    pub fn resolve(&self, value: SsaValue) -> (r: Result<SsaValue, StructureError>)
        ensures
            match r {
                Ok(v) => canonical_origin(self.proto, self.dataflow, value) == Ok::<SsaValue, Fault>(v),
                Err(e) => canonical_origin(self.proto, self.dataflow, value) == Err::<SsaValue, Fault>(e.fault),
            },
    {
        let mut at = value;
        let mut fuel: usize = self.dataflow.defs.len();
        let mut going = true;
        while going
            invariant
                canonical_origin(self.proto, self.dataflow, value) == origin_of(self.proto, self.dataflow, at, fuel as nat),
                !going ==> origin_of(self.proto, self.dataflow, at, fuel as nat) == Ok::<SsaValue, Fault>(at),
            decreases fuel, (if going { 1nat } else { 0nat }),
        {
            match at {
                SsaValue::Def(d) => {
                    let next = match self.take_over(d) {
                        Ok(v) => v,
                        Err(e) => {
                            return Err(e);
                        },
                    };
                    if next == at {
                        going = false;
                    } else if fuel == 0 {
                        return Err(StructureError::invalid(Fault::MoveCycle));
                    } else {
                        at = next;
                        fuel = fuel - 1;
                    }
                },
                _ => {
                    going = false;
                },
            }
        }
        Ok(at)
    }
}

/// Asking again changes nothing: the origin of an origin is that origin.
pub proof fn origin_is_settled(proto: &LoweredProto, dataflow: &DataflowFacts, v: SsaValue, fuel: nat, more: nat)
    requires
        origin_of(proto, dataflow, v, fuel) is Ok,
    ensures
        origin_of(proto, dataflow, origin_of(proto, dataflow, v, fuel)->Ok_0, more) == origin_of(proto, dataflow, v, fuel),
    decreases fuel,
{
    if let SsaValue::Def(d) = v {
        let w = taken_over(proto, dataflow, d)->Ok_0;
        if w != v {
            origin_is_settled(proto, dataflow, w, (fuel - 1) as nat, more);
        }
    }
}

/// A value that is made by a move has the origin of the value that the move reads, and any
/// other value is its own origin. What comes out is made by no move, unless by one that reads
/// what it makes.
pub proof fn origins_look_through_moves(proto: &LoweredProto, dataflow: &DataflowFacts, d: DefId, fuel: nat)
    requires
        d.0 < dataflow.defs@.len(),
        dataflow.defs@[d.0 as int].id == d,
        dataflow.defs@[d.0 as int].instr.0 < proto.instrs@.len(),
        dataflow.defs@[d.0 as int].instr.0 < dataflow.use_values@.len(),
    ensures
        ({
            let def = dataflow.defs@[d.0 as int];
            let i = def.instr.0 as int;
            match proto.instrs@[i] {
                LowInstr::Move(m) => m.dst == def.reg && dataflow.use_values@[i].fixed.value_of(m.src) is Some && (
                dataflow.use_values@[i].fixed.value_of(m.src)->0) != SsaValue::Def(d) ==> origin_of(
                    proto,
                    dataflow,
                    SsaValue::Def(d),
                    fuel + 1,
                ) == origin_of(proto, dataflow, dataflow.use_values@[i].fixed.value_of(m.src)->0, fuel),
                _ => origin_of(proto, dataflow, SsaValue::Def(d), fuel) == Ok::<SsaValue, Fault>(SsaValue::Def(d)),
            }
        }),
{
}

/// The origin of a value is no definition that a move of another value into its register makes.
pub proof fn origins_are_no_moves(proto: &LoweredProto, dataflow: &DataflowFacts, v: SsaValue, fuel: nat, d: DefId)
    requires
        origin_of(proto, dataflow, v, fuel) == Ok::<SsaValue, Fault>(SsaValue::Def(d)),
    ensures
        d.0 < dataflow.defs@.len(),
        match proto.instrs@[dataflow.defs@[d.0 as int].instr.0 as int] {
            LowInstr::Move(m) => m.dst != dataflow.defs@[d.0 as int].reg || dataflow.use_values@[dataflow.defs@[d.0 as int].instr.0 as int].fixed.value_of(
                m.src,
            ) == Some(SsaValue::Def(d)),
            _ => true,
        },
    decreases fuel,
{
    if let SsaValue::Def(c) = v {
        let w = taken_over(proto, dataflow, c)->Ok_0;
        if w != v {
            origins_are_no_moves(proto, dataflow, w, (fuel - 1) as nat, d);
        }
    }
}

} // verus!
