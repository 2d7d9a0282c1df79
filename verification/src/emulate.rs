//! The decisions of p-code emulation: which step executes the current op,
//! and the machine that runs a snippet of p-code over temporaries.
//!
//! The work of a step (evaluating an operation, reading memory) is done by
//! the caller; the functions here decide what comes next.
use vstd::prelude::*;

use crate::globalcontext::VarnodeLoc;
use crate::memstate::construct_value;
use crate::opcode::OpCode;
use crate::space::SpaceType;

verus! {

/// The step that executes one p-code op.
#[derive(Debug, Clone, Copy, PartialEq, Eq, Structural)]
pub enum ExecStep {
    /// No behavior: the op does nothing.
    Nothing,
    /// Load from memory.
    Load,
    /// Store to memory.
    Store,
    /// Branch to the op's destination.
    Branch,
    /// Evaluate the branch condition; branch or fall through on it.
    CBranch,
    /// Branch to a computed destination (also a return).
    BranchInd,
    /// Call a fixed destination.
    Call,
    /// Call a computed destination.
    CallInd,
    /// Call a user-defined operation.
    CallOther,
    /// A phi-node.
    MultiEqual,
    /// An indirect effect.
    Indirect,
    /// A segment operation.
    SegmentOp,
    /// A constant-pool reference.
    CpoolRef,
    /// An allocation.
    New,
    /// A unary operation.
    Unary,
    /// A binary operation.
    Binary,
}

/// How one op is executed: the step, then whether control falls through
/// to the next op (a conditional branch decides that itself).
#[derive(Debug, Clone, Copy, PartialEq, Eq, Structural)]
pub struct OpPlan {
    /// The step to execute.
    pub step: ExecStep,
    /// Does control fall through to the next op afterwards?
    pub fallthru: bool,
}

/// Why an op cannot be emulated.
#[derive(Debug, Clone, Copy, PartialEq, Eq, Structural)]
pub enum EmulateError {
    /// A special op with no emulation step.
    BadSpecialOp,
    /// A branch in a snippet that is not relative.
    AbsoluteBranch,
    /// A relative branch out of the snippet.
    BranchOutOfBounds,
    /// A temporary read before anything was written to it.
    ReadBeforeWrite,
}

impl EmulateError {
    /// A description of the error.
    pub fn explain(&self) -> (r: &'static str)
        ensures
            *self == EmulateError::BadSpecialOp ==> r@ == "Bad special op"@,
            *self == EmulateError::AbsoluteBranch ==> r@ == "Tried to emulate absolute branch in snippet code"@,
            *self == EmulateError::BranchOutOfBounds ==> r@ == "Relative branch out of bounds in snippet code"@,
            *self == EmulateError::ReadBeforeWrite ==> r@ == "Read before write in snippet emulation"@,
    {
        match self {
            EmulateError::BadSpecialOp => "Bad special op",
            EmulateError::AbsoluteBranch => "Tried to emulate absolute branch in snippet code",
            EmulateError::BranchOutOfBounds => "Relative branch out of bounds in snippet code",
            EmulateError::ReadBeforeWrite => "Read before write in snippet emulation",
        }
    }
}

/// What an op's behavior says of it: is it special (a flow or memory op
/// emulated by its own step), and if not, does it take one input?
#[derive(Debug, Clone, Copy, PartialEq, Eq, Structural)]
pub struct BehaviorKind {
    /// Is the op special?
    pub special: bool,
    /// Does the op take one input (when not special)?
    pub unary: bool,
}

/// The plan for an op with code `opc` and behavior `behave` (none for an
/// op with no behavior, which does nothing and falls through).
pub open spec fn spec_plan(behave: Option<BehaviorKind>, opc: OpCode) -> Result<OpPlan, EmulateError> {
    match behave {
        None => Ok(OpPlan { step: ExecStep::Nothing, fallthru: true }),
        Some(b) => if b.special {
            match opc {
                OpCode::CPUI_LOAD => Ok(OpPlan { step: ExecStep::Load, fallthru: true }),
                OpCode::CPUI_STORE => Ok(OpPlan { step: ExecStep::Store, fallthru: true }),
                OpCode::CPUI_BRANCH => Ok(OpPlan { step: ExecStep::Branch, fallthru: false }),
                OpCode::CPUI_CBRANCH => Ok(OpPlan { step: ExecStep::CBranch, fallthru: false }),
                OpCode::CPUI_BRANCHIND => Ok(OpPlan { step: ExecStep::BranchInd, fallthru: false }),
                OpCode::CPUI_CALL => Ok(OpPlan { step: ExecStep::Call, fallthru: false }),
                OpCode::CPUI_CALLIND => Ok(OpPlan { step: ExecStep::CallInd, fallthru: false }),
                OpCode::CPUI_CALLOTHER => Ok(OpPlan { step: ExecStep::CallOther, fallthru: false }),
                OpCode::CPUI_RETURN => Ok(OpPlan { step: ExecStep::BranchInd, fallthru: false }),
                OpCode::CPUI_MULTIEQUAL => Ok(OpPlan { step: ExecStep::MultiEqual, fallthru: true }),
                OpCode::CPUI_INDIRECT => Ok(OpPlan { step: ExecStep::Indirect, fallthru: true }),
                OpCode::CPUI_SEGMENTOP => Ok(OpPlan { step: ExecStep::SegmentOp, fallthru: true }),
                OpCode::CPUI_CPOOLREF => Ok(OpPlan { step: ExecStep::CpoolRef, fallthru: true }),
                OpCode::CPUI_NEW => Ok(OpPlan { step: ExecStep::New, fallthru: true }),
                _ => Err(EmulateError::BadSpecialOp),
            }
        } else if b.unary {
            Ok(OpPlan { step: ExecStep::Unary, fallthru: true })
        } else {
            Ok(OpPlan { step: ExecStep::Binary, fallthru: true })
        },
    }
}

/// Does op `opc` transfer control: a branch, a call or a return?
pub open spec fn transfers_control(opc: OpCode) -> bool {
    opc == OpCode::CPUI_BRANCH || opc == OpCode::CPUI_CBRANCH || opc == OpCode::CPUI_BRANCHIND
        || opc == OpCode::CPUI_CALL || opc == OpCode::CPUI_CALLIND || opc == OpCode::CPUI_CALLOTHER
        || opc == OpCode::CPUI_RETURN
}

/// Execution moves on to the next op after every op but those that
/// transfer control: whenever an op can be planned, control falls through
/// exactly when it is not a special branch, call or return.  Memory ops
/// plan their memory step, and a special op that is neither a control
/// transfer nor one of the other special ops (a phi-node, an indirect
/// effect, a segment op, a constant-pool reference, an allocation) cannot
/// be planned.
pub proof fn lemma_plan_falls_through(behave: Option<BehaviorKind>, opc: OpCode)
    ensures
        spec_plan(behave, opc) matches Ok(p) ==> (p.fallthru <==> !(behave matches Some(b) && b.special && transfers_control(opc))),
        behave matches Some(b) && b.special ==> (spec_plan(behave, opc) is Ok <==> (transfers_control(opc)
            || opc == OpCode::CPUI_LOAD || opc == OpCode::CPUI_STORE || opc == OpCode::CPUI_MULTIEQUAL
            || opc == OpCode::CPUI_INDIRECT || opc == OpCode::CPUI_SEGMENTOP || opc == OpCode::CPUI_CPOOLREF
            || opc == OpCode::CPUI_NEW)),
        behave matches Some(b) && b.special && opc == OpCode::CPUI_LOAD ==> (spec_plan(behave, opc) matches Ok(p) && p.step == ExecStep::Load),
        behave matches Some(b) && b.special && opc == OpCode::CPUI_STORE ==> (spec_plan(behave, opc) matches Ok(p) && p.step == ExecStep::Store),
        behave is None ==> (spec_plan(behave, opc) matches Ok(p) && p.step == ExecStep::Nothing),
{
}


/// Decide how to execute the current op (see [`spec_plan`]): the caller
/// runs the step, then falls through when the plan says so; after a
/// conditional branch it branches when the condition held and falls
/// through otherwise.
pub fn plan_current_op(behave: Option<BehaviorKind>, opc: OpCode) -> (r: Result<OpPlan, EmulateError>)
    ensures
        r == spec_plan(behave, opc),
{
    match behave {
        None => Ok(OpPlan { step: ExecStep::Nothing, fallthru: true }),
        Some(b) => if b.special {
            match opc {
                OpCode::CPUI_LOAD => Ok(OpPlan { step: ExecStep::Load, fallthru: true }),
                OpCode::CPUI_STORE => Ok(OpPlan { step: ExecStep::Store, fallthru: true }),
                OpCode::CPUI_BRANCH => Ok(OpPlan { step: ExecStep::Branch, fallthru: false }),
                OpCode::CPUI_CBRANCH => Ok(OpPlan { step: ExecStep::CBranch, fallthru: false }),
                OpCode::CPUI_BRANCHIND => Ok(OpPlan { step: ExecStep::BranchInd, fallthru: false }),
                OpCode::CPUI_CALL => Ok(OpPlan { step: ExecStep::Call, fallthru: false }),
                OpCode::CPUI_CALLIND => Ok(OpPlan { step: ExecStep::CallInd, fallthru: false }),
                OpCode::CPUI_CALLOTHER => Ok(OpPlan { step: ExecStep::CallOther, fallthru: false }),
                OpCode::CPUI_RETURN => Ok(OpPlan { step: ExecStep::BranchInd, fallthru: false }),
                OpCode::CPUI_MULTIEQUAL => Ok(OpPlan { step: ExecStep::MultiEqual, fallthru: true }),
                OpCode::CPUI_INDIRECT => Ok(OpPlan { step: ExecStep::Indirect, fallthru: true }),
                OpCode::CPUI_SEGMENTOP => Ok(OpPlan { step: ExecStep::SegmentOp, fallthru: true }),
                OpCode::CPUI_CPOOLREF => Ok(OpPlan { step: ExecStep::CpoolRef, fallthru: true }),
                OpCode::CPUI_NEW => Ok(OpPlan { step: ExecStep::New, fallthru: true }),
                _ => Err(EmulateError::BadSpecialOp),
            }
        } else if b.unary {
            Ok(OpPlan { step: ExecStep::Unary, fallthru: true })
        } else {
            Ok(OpPlan { step: ExecStep::Binary, fallthru: true })
        },
    }
}

/// A raw p-code op of a snippet: its code, output and inputs.
#[derive(Debug, Clone)]
pub struct RawOp {
    /// The op code.
    pub opcode: OpCode,
    /// The output, if any.
    pub output: Option<VarnodeLoc>,
    /// The inputs.
    pub inputs: Vec<VarnodeLoc>,
}

/// Is `opc` an op that snippets may not use?
pub open spec fn snippet_forbidden(opc: OpCode) -> bool {
    opc == OpCode::CPUI_BRANCHIND || opc == OpCode::CPUI_CALL || opc == OpCode::CPUI_CALLIND
        || opc == OpCode::CPUI_CALLOTHER || opc == OpCode::CPUI_STORE || opc == OpCode::CPUI_SEGMENTOP
        || opc == OpCode::CPUI_CPOOLREF || opc == OpCode::CPUI_NEW || opc == OpCode::CPUI_MULTIEQUAL
        || opc == OpCode::CPUI_INDIRECT
}

/// Is `op` legal in a snippet: not a forbidden op, branching only
/// relatively (to a constant), writing only temporaries and reading no
/// processor space?
pub open spec fn legal_snippet_op(op: RawOp) -> bool {
    &&& !snippet_forbidden(op.opcode)
    &&& (op.opcode == OpCode::CPUI_BRANCH ==> op.inputs@.len() > 0 && op.inputs@[0].space.space_type == SpaceType::Constant)
    &&& (op.output matches Some(o) ==> o.space.space_type == SpaceType::Internal)
    &&& forall|j: int| 0 <= j < op.inputs@.len() ==> (#[trigger] op.inputs@[j]).space.space_type != SpaceType::Processor
}

fn legal_snippet_op_exec(op: &RawOp) -> (r: bool)
    requires
        op.opcode == OpCode::CPUI_BRANCH ==> op.inputs@.len() > 0,
    ensures
        r == legal_snippet_op(*op),
{
    let opc = op.opcode;
    if opc == OpCode::CPUI_BRANCHIND || opc == OpCode::CPUI_CALL || opc == OpCode::CPUI_CALLIND
        || opc == OpCode::CPUI_CALLOTHER || opc == OpCode::CPUI_STORE || opc == OpCode::CPUI_SEGMENTOP
        || opc == OpCode::CPUI_CPOOLREF || opc == OpCode::CPUI_NEW || opc == OpCode::CPUI_MULTIEQUAL
        || opc == OpCode::CPUI_INDIRECT {
        return false;
    }
    if opc == OpCode::CPUI_BRANCH {
        if op.inputs[0].space.space_type != SpaceType::Constant {
            return false;
        }
    }
    if let Some(o) = op.output {
        if o.space.space_type != SpaceType::Internal {
            return false;
        }
    }
    let mut j: usize = 0;
    while j < op.inputs.len()
        invariant
            j <= op.inputs@.len(),
            forall|k: int| 0 <= k < j ==> (#[trigger] op.inputs@[k]).space.space_type != SpaceType::Processor,
        decreases op.inputs@.len() - j,
    {
        if op.inputs[j].space.space_type == SpaceType::Processor {
            return false;
        }
        j += 1;
    }
    true
}

/// Is every op of a snippet legal (see [`legal_snippet_op`])?
pub fn check_for_legal_code(ops: &[RawOp]) -> (r: bool)
    requires
        forall|i: int| 0 <= i < ops@.len() && (forall|k: int| 0 <= k < i ==> legal_snippet_op(#[trigger] ops@[k]))
            && (#[trigger] ops@[i]).opcode == OpCode::CPUI_BRANCH ==> ops@[i].inputs@.len() > 0,
    ensures
        r == forall|i: int| 0 <= i < ops@.len() ==> legal_snippet_op(#[trigger] ops@[i]),
{
    let mut i: usize = 0;
    while i < ops.len()
        invariant
            i <= ops@.len(),
            forall|i: int| 0 <= i < ops@.len() && (forall|k: int| 0 <= k < i ==> legal_snippet_op(#[trigger] ops@[k]))
                && (#[trigger] ops@[i]).opcode == OpCode::CPUI_BRANCH ==> ops@[i].inputs@.len() > 0,
            forall|k: int| 0 <= k < i ==> legal_snippet_op(#[trigger] ops@[k]),
        decreases ops@.len() - i,
    {
        if !legal_snippet_op_exec(&ops[i]) {
            return false;
        }
        i += 1;
    }
    true
}

/// The value of the first entry for `offset` in a list of temporaries.
pub open spec fn temp_lookup(temps: Seq<(u64, u64)>, offset: u64) -> Option<u64>
    decreases temps.len(),
{
    if temps.len() == 0 {
        None
    } else if temps[0].0 == offset {
        Some(temps[0].1)
    } else {
        temp_lookup(temps.drop_first(), offset)
    }
}

/// The value a load reads from the 8 bytes `buf` fetched at its address:
/// the bytes decoded in the space's order, then cut to `sz` bytes (the
/// first `sz` bytes for a big-endian space).
pub open spec fn load_value(buf: Seq<u8>, sz: int, bigendian: bool) -> u64 {
    let full: u64 = crate::memstate::spec_construct_value(buf, 8, bigendian) as u64;
    if bigendian && sz < 8 {
        full >> ((8 - sz) * 8) as u64
    } else {
        (full & crate::space::spec_calc_mask(sz)) as u64
    }
}

/// The value a load reads from the 8 bytes `buf` fetched at its address
/// (see [`load_value`]).
pub fn get_load_image_value(buf: &[u8], sz: i32, bigendian: bool) -> (r: u64)
    requires
        buf@.len() == 8,
        bigendian ==> sz >= 1,
    ensures
        r == load_value(buf@, sz as int, bigendian),
{
    let res = construct_value(buf, 8, bigendian);
    if bigendian && sz < 8 {
        res >> (((8 - sz) * 8) as u64)
    } else {
        res & crate::space::calc_mask(sz)
    }
}

/// The machine that runs a snippet: the ops, the values of the
/// temporaries written so far, the index of the current op, and whether
/// the snippet has run off its end.
#[derive(Debug)]
pub struct SnippetMachine {
    /// The ops of the snippet.
    pub ops: Vec<RawOp>,
    /// The temporaries written, by offset.
    pub temp_values: Vec<(u64, u64)>,
    /// The index of the current op.
    pub pos: i32,
    /// Has the snippet finished?
    pub halted: bool,
}

impl SnippetMachine {
    /// The value of the temporary at `offset`, if written.
    pub open spec fn temp(&self, offset: u64) -> Option<u64> {
        temp_lookup(self.temp_values@, offset)
    }

    /// A machine for `ops`, at the first op, with no temporary written.
    pub fn new(ops: Vec<RawOp>) -> (r: SnippetMachine)
        requires
            ops@.len() < 0x8000_0000,
        ensures
            r.ops@ == ops@,
            r.temp_values@.len() == 0,
            r.pos == 0,
            !r.halted,
    {
        SnippetMachine { ops, temp_values: Vec::new(), pos: 0, halted: false }
    }

    /// Forget every temporary and go back to the first op.
    pub fn reset_memory(&mut self)
        ensures
            final(self).ops@ == old(self).ops@,
            final(self).temp_values@.len() == 0,
            final(self).pos == 0,
            !final(self).halted,
    {
        self.temp_values = Vec::new();
        self.pos = 0;
        self.halted = false;
    }

    /// Make op `i` the current op.
    pub fn set_current_op(&mut self, i: i32)
        requires
            0 <= i < old(self).ops@.len(),
        ensures
            final(self).pos == i,
            final(self).ops@ == old(self).ops@,
            final(self).temp_values@ == old(self).temp_values@,
            final(self).halted == old(self).halted,
    {
        self.pos = i;
    }

    /// Write `val` to the temporary at `offset`.
    pub fn set_varnode_value(&mut self, offset: u64, val: u64)
        ensures
            final(self).temp(offset) == Some(val),
            forall|o: u64| o != offset ==> #[trigger] final(self).temp(o) == old(self).temp(o),
            final(self).ops@ == old(self).ops@,
            final(self).pos == old(self).pos,
            final(self).halted == old(self).halted,
    {
        let mut i: usize = 0;
        proof {
            assert(self.temp_values@.subrange(0, self.temp_values@.len() as int) =~= self.temp_values@);
        }
        while i < self.temp_values.len()
            invariant
                i <= self.temp_values@.len(),
                self.temp_values@ == old(self).temp_values@,
                self.ops@ == old(self).ops@,
                self.pos == old(self).pos,
                self.halted == old(self).halted,
                forall|k: int| 0 <= k < i ==> (#[trigger] self.temp_values@[k]).0 != offset,
            decreases self.temp_values@.len() - i,
        {
            if self.temp_values[i].0 == offset {
                let ghost before = self.temp_values@;
                self.temp_values.set(i, (offset, val));
                proof {
                    assert forall|o: u64| #[trigger] temp_lookup(self.temp_values@, o) == if o == offset {
                        Some(val)
                    } else {
                        temp_lookup(before, o)
                    } by {
                        lemma_temp_update(before, i as int, val, o);
                    }
                }
                return;
            }
            i += 1;
        }
        let ghost before = self.temp_values@;
        self.temp_values.push((offset, val));
        proof {
            assert forall|o: u64| #[trigger] temp_lookup(self.temp_values@, o) == if o == offset {
                Some(val)
            } else {
                temp_lookup(before, o)
            } by {
                lemma_temp_push(before, offset, val, o);
            }
        }
    }

    /// The value of the temporary at `offset`, or 0 if never written.
    pub fn get_temp_value(&self, offset: u64) -> (r: u64)
        ensures
            r == match self.temp(offset) {
                Some(v) => v,
                None => 0,
            },
    {
        match self.find_temp(offset) {
            Some(v) => v,
            None => 0,
        }
    }

    fn find_temp(&self, offset: u64) -> (r: Option<u64>)
        ensures
            r == self.temp(offset),
    {
        let mut i: usize = 0;
        proof {
            assert(self.temp_values@.subrange(0, self.temp_values@.len() as int) =~= self.temp_values@);
        }
        while i < self.temp_values.len()
            invariant
                i <= self.temp_values@.len(),
                temp_lookup(self.temp_values@, offset) == temp_lookup(
                    self.temp_values@.subrange(i as int, self.temp_values@.len() as int), offset),
            decreases self.temp_values@.len() - i,
        {
            let ghost rest = self.temp_values@.subrange(i as int, self.temp_values@.len() as int);
            proof {
                assert(rest[0] == self.temp_values@[i as int]);
                assert(rest.drop_first() =~= self.temp_values@.subrange(i + 1, self.temp_values@.len() as int));
            }
            if self.temp_values[i].0 == offset {
                return Some(self.temp_values[i].1);
            }
            i += 1;
        }
        None
    }

    /// The value of varnode `vn` when it is a constant or a temporary:
    /// a constant's offset, or a written temporary's value (an error
    /// for a temporary never written).  Any other varnode is read from
    /// the load image by the caller (see [`get_load_image_value`]).
    pub fn get_varnode_value(&self, vn: VarnodeLoc) -> (r: Result<u64, EmulateError>)
        requires
            vn.space.space_type == SpaceType::Constant || vn.space.space_type == SpaceType::Internal,
        ensures
            vn.space.space_type == SpaceType::Constant ==> r == Ok::<u64, EmulateError>(vn.offset),
            vn.space.space_type == SpaceType::Internal ==> r == match self.temp(vn.offset) {
                Some(v) => Ok::<u64, EmulateError>(v),
                None => Err(EmulateError::ReadBeforeWrite),
            },
    {
        if vn.space.space_type == SpaceType::Constant {
            return Ok(vn.offset);
        }
        match self.find_temp(vn.offset) {
            Some(v) => Ok(v),
            None => Err(EmulateError::ReadBeforeWrite),
        }
    }

    /// Move to the next op, or halt past the last one.
    pub fn fallthru_op(&mut self)
        requires
            0 <= old(self).pos < old(self).ops@.len(),
            old(self).ops@.len() < 0x8000_0000,
        ensures
            final(self).pos == old(self).pos + 1,
            final(self).halted == (old(self).halted || final(self).pos == old(self).ops@.len()),
            final(self).ops@ == old(self).ops@,
            final(self).temp_values@ == old(self).temp_values@,
    {
        self.pos = self.pos + 1;
        if self.pos as usize == self.ops.len() {
            self.halted = true;
        }
    }

    /// Branch relatively from the current op by the offset of the
    /// destination `dest` (a constant, read as a signed 32-bit number):
    /// halting exactly past the last op, refused outside the snippet.
    pub fn execute_branch(&mut self, dest: VarnodeLoc) -> (r: Result<(), EmulateError>)
        requires
            0 <= old(self).pos <= old(self).ops@.len(),
            old(self).ops@.len() < 0x8000_0000,
        ensures
            final(self).ops@ == old(self).ops@,
            final(self).temp_values@ == old(self).temp_values@,
            dest.space.space_type != SpaceType::Constant ==> r == Err::<(), EmulateError>(EmulateError::AbsoluteBranch)
                && final(self).pos == old(self).pos && final(self).halted == old(self).halted,
            dest.space.space_type == SpaceType::Constant ==> {
                let target = vstd::wrapping::i32_specs::wrapping_add(old(self).pos, dest.offset as i32);
                if target < 0 || target > old(self).ops@.len() {
                    r == Err::<(), EmulateError>(EmulateError::BranchOutOfBounds) && final(self).pos == target
                } else {
                    &&& r is Ok
                    &&& final(self).pos == target
                    &&& final(self).halted == (old(self).halted || target == old(self).ops@.len())
                }
            },
    {
        if dest.space.space_type != SpaceType::Constant {
            return Err(EmulateError::AbsoluteBranch);
        }
        let rel: i32 = dest.offset as i32;
        self.pos = self.pos.wrapping_add(rel);
        if self.pos < 0 || (self.pos as usize) > self.ops.len() {
            return Err(EmulateError::BranchOutOfBounds);
        }
        if self.pos as usize == self.ops.len() {
            self.halted = true;
        }
        Ok(())
    }
}

proof fn lemma_temp_update(temps: Seq<(u64, u64)>, i: int, val: u64, o: u64)
    requires
        0 <= i < temps.len(),
        forall|k: int| 0 <= k < i ==> (#[trigger] temps[k]).0 != temps[i].0,
    ensures
        temp_lookup(temps.update(i, (temps[i].0, val)), o) == if o == temps[i].0 {
            Some(val)
        } else {
            temp_lookup(temps, o)
        },
    decreases i,
{
    let u = temps.update(i, (temps[i].0, val));
    if i > 0 {
        assert(u.drop_first() =~= temps.drop_first().update(i - 1, (temps[i].0, val)));
        assert(temps.drop_first()[i - 1] == temps[i]);
        assert forall|k: int| 0 <= k < i - 1 implies (#[trigger] temps.drop_first()[k]).0 != temps.drop_first()[i - 1].0 by {
            assert(temps.drop_first()[k] == temps[k + 1]);
        }
        lemma_temp_update(temps.drop_first(), i - 1, val, o);
        assert(u[0] == temps[0]);
    } else {
        assert(u.drop_first() =~= temps.drop_first());
    }
}

proof fn lemma_temp_push(temps: Seq<(u64, u64)>, offset: u64, val: u64, o: u64)
    requires
        forall|k: int| 0 <= k < temps.len() ==> (#[trigger] temps[k]).0 != offset,
    ensures
        temp_lookup(temps.push((offset, val)), o) == if o == offset {
            Some(val)
        } else {
            temp_lookup(temps, o)
        },
    decreases temps.len(),
{
    let u = temps.push((offset, val));
    if temps.len() == 0 {
        assert(u.drop_first() =~= Seq::<(u64, u64)>::empty());
        assert(temp_lookup(u.drop_first(), o) is None);
    } else {
        assert(u.drop_first() =~= temps.drop_first().push((offset, val)));
        assert forall|k: int| 0 <= k < temps.drop_first().len() implies (#[trigger] temps.drop_first()[k]).0 != offset by {
            assert(temps.drop_first()[k] == temps[k + 1]);
        }
        lemma_temp_push(temps.drop_first(), offset, val, o);
    }
}

} // verus!
