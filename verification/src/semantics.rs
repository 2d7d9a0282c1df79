//! P-code construct templates: constants, varnodes, handles, operations and
//! whole construct templates, as decoded from a compiled language or built
//! by the snippet compiler.
use vstd::prelude::*;

use crate::context::{FixedHandle, WalkerView};
use crate::opcode::OpCode;
use crate::space::{AddrSpace, SpaceType};

verus! {

/// The op code used internally to mark a build of a subtable operand.
pub open spec fn spec_build_op() -> OpCode {
    OpCode::CPUI_MULTIEQUAL
}

/// The op code used internally to mark a delay slot.
pub open spec fn spec_delay_slot_op() -> OpCode {
    OpCode::CPUI_INDIRECT
}

/// The op code used internally to mark a label placement.
pub open spec fn spec_label_build_op() -> OpCode {
    OpCode::CPUI_PTRADD
}

/// The op code marking a build of a subtable operand (a remapped
/// `MULTIEQUAL`).
pub fn build_op() -> (r: OpCode)
    ensures
        r == spec_build_op(),
{
    OpCode::CPUI_MULTIEQUAL
}

/// The op code marking a delay slot (a remapped `INDIRECT`).
pub fn delay_slot_op() -> (r: OpCode)
    ensures
        r == spec_delay_slot_op(),
{
    OpCode::CPUI_INDIRECT
}

/// The op code marking a cross build (a remapped `PTRSUB`).
pub fn cross_build_op() -> (r: OpCode)
    ensures
        r == OpCode::CPUI_PTRSUB,
{
    OpCode::CPUI_PTRSUB
}

/// The op code marking a macro build (a remapped `CAST`).
pub fn macro_build_op() -> (r: OpCode)
    ensures
        r == OpCode::CPUI_CAST,
{
    OpCode::CPUI_CAST
}

/// The op code marking a label placement (a remapped `PTRADD`).
pub fn label_build_op() -> (r: OpCode)
    ensures
        r == spec_label_build_op(),
{
    OpCode::CPUI_PTRADD
}

/// The kind of a constant template.
#[derive(Debug, Clone, Copy, PartialEq, Eq, Structural)]
pub enum ConstType {
    /// An actual constant.
    Real,
    /// A reference into the fixed-handle array.
    Handle,
    /// The start address of the instruction.
    JStart,
    /// The address of the next instruction.
    JNext,
    /// The address of the instruction after the next.
    JNext2,
    /// The current address space.
    JCurspace,
    /// The address size of the current space.
    JCurspaceSize,
    /// A specific address space.
    Spaceid,
    /// A relative jump offset (a label).
    JRelative,
    /// The flow reference address.
    JFlowref,
    /// The size of the flow reference address.
    JFlowrefSize,
    /// The flow destination address.
    JFlowdest,
    /// The size of the flow destination address.
    JFlowdestSize,
}

/// Which part of a handle a constant refers to.
#[derive(Debug, Clone, Copy, PartialEq, Eq, Structural)]
pub enum VField {
    /// The space of the handle.
    VSpace,
    /// The offset of the handle.
    VOffset,
    /// The size of the handle.
    VSize,
    /// The offset of the handle, plus a truncation amount.
    VOffsetPlus,
}

/// The position of a constant kind in the kind order.
pub open spec fn const_type_rank(t: ConstType) -> int {
    match t {
        ConstType::Real => 0,
        ConstType::Handle => 1,
        ConstType::JStart => 2,
        ConstType::JNext => 3,
        ConstType::JNext2 => 4,
        ConstType::JCurspace => 5,
        ConstType::JCurspaceSize => 6,
        ConstType::Spaceid => 7,
        ConstType::JRelative => 8,
        ConstType::JFlowref => 9,
        ConstType::JFlowrefSize => 10,
        ConstType::JFlowdest => 11,
        ConstType::JFlowdestSize => 12,
    }
}

/// The position of a handle field in the field order.
pub open spec fn vfield_rank(v: VField) -> int {
    match v {
        VField::VSpace => 0,
        VField::VOffset => 1,
        VField::VSize => 2,
        VField::VOffsetPlus => 3,
    }
}

fn const_type_rank_exec(t: ConstType) -> (r: u8)
    ensures
        r as int == const_type_rank(t),
{
    match t {
        ConstType::Real => 0,
        ConstType::Handle => 1,
        ConstType::JStart => 2,
        ConstType::JNext => 3,
        ConstType::JNext2 => 4,
        ConstType::JCurspace => 5,
        ConstType::JCurspaceSize => 6,
        ConstType::Spaceid => 7,
        ConstType::JRelative => 8,
        ConstType::JFlowref => 9,
        ConstType::JFlowrefSize => 10,
        ConstType::JFlowdest => 11,
        ConstType::JFlowdestSize => 12,
    }
}

fn vfield_rank_exec(v: VField) -> (r: u8)
    ensures
        r as int == vfield_rank(v),
{
    match v {
        VField::VSpace => 0,
        VField::VOffset => 1,
        VField::VSize => 2,
        VField::VOffsetPlus => 3,
    }
}

/// Do two optional spaces name the same space (both absent counts)?
pub open spec fn same_space(a: Option<AddrSpace>, b: Option<AddrSpace>) -> bool {
    match (a, b) {
        (Some(x), Some(y)) => x.index == y.index,
        (None, None) => true,
        _ => false,
    }
}

fn same_space_exec(a: Option<AddrSpace>, b: Option<AddrSpace>) -> (r: bool)
    ensures
        r == same_space(a, b),
{
    match (a, b) {
        (Some(x), Some(y)) => x.index == y.index,
        (None, None) => true,
        _ => false,
    }
}

/// A constant value template, resolved when an instruction is decoded.
#[derive(Debug, Clone, Copy)]
pub struct ConstTpl {
    /// The kind of the constant.
    pub type_: ConstType,
    /// The space, for a space constant.
    pub value_spaceid: Option<AddrSpace>,
    /// The handle index, for a handle constant.
    pub value_handle_index: i32,
    /// The value of a real or relative constant, or a truncation amount.
    pub value_real: u64,
    /// The handle field, for a handle constant.
    pub select: VField,
}

impl ConstTpl {
    /// The kind of the constant.
    pub open spec fn spec_type(&self) -> ConstType {
        self.type_
    }

    /// The space of a space constant.
    pub open spec fn spec_space(&self) -> Option<AddrSpace> {
        self.value_spaceid
    }

    /// The handle index of a handle constant.
    pub open spec fn spec_handle(&self) -> i32 {
        self.value_handle_index
    }

    /// The numeric value.
    pub open spec fn spec_real(&self) -> u64 {
        self.value_real
    }

    /// The handle field selected.
    pub open spec fn spec_select(&self) -> VField {
        self.select
    }

    /// Equality as templates: the kinds agree and the data that kind uses
    /// agrees.
    pub open spec fn same_as(&self, op2: &ConstTpl) -> bool {
        &&& self.spec_type() == op2.spec_type()
        &&& match self.spec_type() {
            ConstType::Real => self.spec_real() == op2.spec_real(),
            ConstType::Handle => self.spec_handle() == op2.spec_handle() && self.spec_select()
                == op2.spec_select(),
            ConstType::Spaceid => same_space(self.spec_space(), op2.spec_space()),
            _ => true,
        }
    }

    /// The order on templates: by kind, then by the data the kind uses.
    pub open spec fn spec_less_than(&self, op2: &ConstTpl) -> bool {
        if self.spec_type() != op2.spec_type() {
            const_type_rank(self.spec_type()) < const_type_rank(op2.spec_type())
        } else {
            match self.spec_type() {
                ConstType::Real => self.spec_real() < op2.spec_real(),
                ConstType::Handle => {
                    if self.spec_handle() != op2.spec_handle() {
                        self.spec_handle() < op2.spec_handle()
                    } else {
                        vfield_rank(self.spec_select()) < vfield_rank(op2.spec_select())
                    }
                },
                ConstType::Spaceid => match (self.spec_space(), op2.spec_space()) {
                    (None, Some(_)) => true,
                    (Some(x), Some(y)) => x.index < y.index,
                    _ => false,
                },
                _ => false,
            }
        }
    }

    /// A real constant 0.
    pub fn new() -> (r: ConstTpl)
        ensures
            r.spec_type() == ConstType::Real,
            r.spec_real() == 0,
            r.spec_space() is None,
            r.spec_handle() == 0,
            r.spec_select() == VField::VSpace,
    {
        ConstTpl {
            type_: ConstType::Real,
            value_spaceid: None,
            value_handle_index: 0,
            value_real: 0,
            select: VField::VSpace,
        }
    }

    /// A constant of the given kind and no data (for the placeholder kinds).
    pub fn new_type(tp: ConstType) -> (r: ConstTpl)
        ensures
            r.spec_type() == tp,
            r.spec_real() == 0,
            r.spec_space() is None,
            r.spec_handle() == 0,
            r.spec_select() == VField::VSpace,
    {
        ConstTpl {
            type_: tp,
            value_spaceid: None,
            value_handle_index: 0,
            value_real: 0,
            select: VField::VSpace,
        }
    }

    /// A constant of the given kind with the given value.
    pub fn new_real(tp: ConstType, val: u64) -> (r: ConstTpl)
        ensures
            r.spec_type() == tp,
            r.spec_real() == val,
            r.spec_space() is None,
            r.spec_handle() == 0,
            r.spec_select() == VField::VSpace,
    {
        ConstTpl {
            type_: tp,
            value_spaceid: None,
            value_handle_index: 0,
            value_real: val,
            select: VField::VSpace,
        }
    }

    /// A reference to field `vf` of handle `ht`.
    pub fn new_handle(ht: i32, vf: VField) -> (r: ConstTpl)
        ensures
            r.spec_type() == ConstType::Handle,
            r.spec_handle() == ht,
            r.spec_select() == vf,
            r.spec_real() == 0,
            r.spec_space() is None,
    {
        ConstTpl {
            type_: ConstType::Handle,
            value_spaceid: None,
            value_handle_index: ht,
            value_real: 0,
            select: vf,
        }
    }

    /// A reference to field `vf` of handle `ht`, with a truncation amount.
    pub fn new_handle_plus(ht: i32, vf: VField, plus: u64) -> (r: ConstTpl)
        ensures
            r.spec_type() == ConstType::Handle,
            r.spec_handle() == ht,
            r.spec_select() == vf,
            r.spec_real() == plus,
            r.spec_space() is None,
    {
        ConstTpl {
            type_: ConstType::Handle,
            value_spaceid: None,
            value_handle_index: ht,
            value_real: plus,
            select: vf,
        }
    }

    /// A constant naming an address space.
    pub fn new_space(sid: AddrSpace) -> (r: ConstTpl)
        ensures
            r.spec_type() == ConstType::Spaceid,
            r.spec_space() == Some(sid),
            r.spec_real() == 0,
            r.spec_handle() == 0,
            r.spec_select() == VField::VSpace,
    {
        ConstTpl {
            type_: ConstType::Spaceid,
            value_spaceid: Some(sid),
            value_handle_index: 0,
            value_real: 0,
            select: VField::VSpace,
        }
    }

    /// Does this constant name the constant space?
    pub fn is_const_space(&self) -> (r: bool)
        requires
            self.spec_type() == ConstType::Spaceid ==> self.spec_space() is Some,
        ensures
            r == (self.spec_type() == ConstType::Spaceid && self.spec_space()->0.space_type
                == SpaceType::Constant),
    {
        if self.type_ == ConstType::Spaceid {
            return self.get_space().get_type() == SpaceType::Constant;
        }
        false
    }

    /// Does this constant name the internal (unique) space?
    pub fn is_unique_space(&self) -> (r: bool)
        requires
            self.spec_type() == ConstType::Spaceid ==> self.spec_space() is Some,
        ensures
            r == (self.spec_type() == ConstType::Spaceid && self.spec_space()->0.space_type
                == SpaceType::Internal),
    {
        if self.type_ == ConstType::Spaceid {
            return self.get_space().get_type() == SpaceType::Internal;
        }
        false
    }

    /// The numeric value.
    pub fn get_real(&self) -> (r: u64)
        ensures
            r == self.spec_real(),
    {
        self.value_real
    }

    /// The space of a space constant.
    pub fn get_space(&self) -> (r: AddrSpace)
        requires
            self.spec_space() is Some,
        ensures
            r == self.spec_space()->0,
    {
        self.value_spaceid.unwrap()
    }

    /// The handle index.
    pub fn get_handle_index(&self) -> (r: i32)
        ensures
            r == self.spec_handle(),
    {
        self.value_handle_index
    }

    /// The kind.
    pub fn get_type(&self) -> (r: ConstType)
        ensures
            r == self.spec_type(),
    {
        self.type_
    }

    /// The handle field selected.
    pub fn get_select(&self) -> (r: VField)
        ensures
            r == self.spec_select(),
    {
        self.select
    }

    /// Is this the real constant 0?
    pub fn is_zero(&self) -> (r: bool)
        ensures
            r == (self.spec_type() == ConstType::Real && self.spec_real() == 0),
    {
        self.type_ == ConstType::Real && self.value_real == 0
    }

    /// Template equality.
    pub fn equals(&self, op2: &ConstTpl) -> (r: bool)
        ensures
            r == self.same_as(op2),
    {
        if self.type_ != op2.type_ {
            return false;
        }
        match self.type_ {
            ConstType::Real => self.value_real == op2.value_real,
            ConstType::Handle => self.value_handle_index == op2.value_handle_index && self.select
                == op2.select,
            ConstType::Spaceid => same_space_exec(self.value_spaceid, op2.value_spaceid),
            _ => true,
        }
    }

    /// The template order: by kind, then by the data the kind uses (spaces
    /// by index, an absent space first).
    pub fn less_than(&self, op2: &ConstTpl) -> (r: bool)
        ensures
            r == self.spec_less_than(op2),
    {
        if self.type_ != op2.type_ {
            return const_type_rank_exec(self.type_) < const_type_rank_exec(op2.type_);
        }
        match self.type_ {
            ConstType::Real => self.value_real < op2.value_real,
            ConstType::Handle => {
                if self.value_handle_index != op2.value_handle_index {
                    return self.value_handle_index < op2.value_handle_index;
                }
                vfield_rank_exec(self.select) < vfield_rank_exec(op2.select)
            },
            ConstType::Spaceid => match (self.value_spaceid, op2.value_spaceid) {
                (None, Some(_)) => true,
                (Some(x), Some(y)) => x.index < y.index,
                _ => false,
            },
            _ => false,
        }
    }

    /// Replace a reference to an old handle with the corresponding part of
    /// the new handle in `params`.  A truncated offset keeps its truncation
    /// amount; truncating something that is neither a real constant nor a
    /// plain handle offset is an error.
    pub fn transfer(&mut self, params: &[HandleTpl]) -> (res: Result<(), FixError>)
        requires
            old(self).spec_type() == ConstType::Handle ==> 0 <= old(self).spec_handle()
                < params@.len(),
        ensures
            match transferred(*old(self), params@) {
                Some(t) => res is Ok && *final(self) == t,
                None => res == Err::<(), FixError>(FixError::BadTruncation)
                    && *final(self) == params@[old(self).spec_handle() as int].ptroffset,
            },
    {
        if self.type_ != ConstType::Handle {
            return Ok(());
        }
        let newhandle = params[self.value_handle_index as usize];
        match self.select {
            VField::VSpace => {
                *self = newhandle.space;
            },
            VField::VOffset => {
                *self = newhandle.ptroffset;
            },
            VField::VOffsetPlus => {
                let tmp = self.value_real;
                *self = newhandle.ptroffset;
                if self.type_ == ConstType::Real {
                    self.value_real = self.value_real.wrapping_add(tmp & 0xffff);
                } else if self.type_ == ConstType::Handle && self.select == VField::VOffset {
                    self.select = VField::VOffsetPlus;
                    self.value_real = tmp;
                } else {
                    return Err(FixError::BadTruncation);
                }
            },
            VField::VSize => {
                *self = newhandle.size;
            },
        }
        Ok(())
    }

    /// Renumber a handle reference through `handmap`.
    pub fn change_handle_index(&mut self, handmap: &[i32])
        requires
            old(self).spec_type() == ConstType::Handle ==> 0 <= old(self).spec_handle()
                < handmap@.len(),
        ensures
            old(self).spec_type() == ConstType::Handle ==> *final(self) == (ConstTpl {
                value_handle_index: handmap@[old(self).spec_handle() as int],
                ..*old(self)
            }),
            old(self).spec_type() != ConstType::Handle ==> *final(self) == *old(self),
    {
        if self.type_ == ConstType::Handle {
            self.value_handle_index = handmap[self.value_handle_index as usize];
        }
    }
}

/// A varnode template: space, offset and size constants.
#[derive(Debug, Clone, Copy)]
pub struct VarnodeTpl {
    /// The space constant.
    pub space: ConstTpl,
    /// The offset constant.
    pub offset: ConstTpl,
    /// The size constant.
    pub size: ConstTpl,
    /// Is this an unnamed temporary?
    pub unnamed_flag: bool,
}

impl VarnodeTpl {
    /// The space constant.
    pub open spec fn spec_space(&self) -> ConstTpl {
        self.space
    }

    /// The offset constant.
    pub open spec fn spec_offset(&self) -> ConstTpl {
        self.offset
    }

    /// The size constant.
    pub open spec fn spec_size(&self) -> ConstTpl {
        self.size
    }

    /// Is this an unnamed temporary?
    pub open spec fn spec_unnamed(&self) -> bool {
        self.unnamed_flag
    }

    /// Is the size unknown (the real constant 0)?
    pub open spec fn spec_is_zero_size(&self) -> bool {
        self.spec_size().spec_type() == ConstType::Real && self.spec_size().spec_real() == 0
    }

    /// Does this varnode live in the internal (unique) space?
    pub open spec fn spec_is_local_temp(&self) -> bool {
        &&& self.spec_space().spec_type() == ConstType::Spaceid
        &&& self.spec_space().spec_space() is Some
        &&& self.spec_space().spec_space()->0.space_type == SpaceType::Internal
    }

    /// Template equality (the unnamed flag does not take part).
    pub open spec fn same_as(&self, op2: &VarnodeTpl) -> bool {
        &&& self.spec_space().same_as(&op2.spec_space())
        &&& self.spec_offset().same_as(&op2.spec_offset())
        &&& self.spec_size().same_as(&op2.spec_size())
    }

    /// The varnode built from handle `hand`: all three parts refer to the
    /// handle, except that the size is 0 when `zerosize` is set.
    pub fn new_from_handle(hand: i32, zerosize: bool) -> (r: VarnodeTpl)
        ensures
            r.spec_space() == ConstTpl::spec_handle_const(hand, VField::VSpace),
            r.spec_offset() == ConstTpl::spec_handle_const(hand, VField::VOffset),
            zerosize ==> r.spec_size() == ConstTpl::spec_real_const(ConstType::Real, 0),
            !zerosize ==> r.spec_size() == ConstTpl::spec_handle_const(hand, VField::VSize),
            !r.spec_unnamed(),
    {
        let mut res = VarnodeTpl {
            space: ConstTpl::new_handle(hand, VField::VSpace),
            offset: ConstTpl::new_handle(hand, VField::VOffset),
            size: ConstTpl::new_handle(hand, VField::VSize),
            unnamed_flag: false,
        };
        if zerosize {
            res.size = ConstTpl::new_real(ConstType::Real, 0);
        }
        res
    }

    /// A varnode from its three parts.
    pub fn new(sp: ConstTpl, off: ConstTpl, sz: ConstTpl) -> (r: VarnodeTpl)
        ensures
            r.spec_space() == sp,
            r.spec_offset() == off,
            r.spec_size() == sz,
            !r.spec_unnamed(),
    {
        VarnodeTpl { space: sp, offset: off, size: sz, unnamed_flag: false }
    }

    /// The space constant.
    pub fn get_space(&self) -> (r: &ConstTpl)
        ensures
            *r == self.spec_space(),
    {
        &self.space
    }

    /// The offset constant.
    pub fn get_offset(&self) -> (r: &ConstTpl)
        ensures
            *r == self.spec_offset(),
    {
        &self.offset
    }

    /// The size constant.
    pub fn get_size(&self) -> (r: &ConstTpl)
        ensures
            *r == self.spec_size(),
    {
        &self.size
    }

    /// Replace handle references through `params`.  Returns the truncation
    /// amount when a truncated offset of a local temporary, or of a handle
    /// whose size is the real constant 0, was transferred; -1 otherwise.
    pub fn transfer(&mut self, params: &[HandleTpl]) -> (res: Result<i32, FixError>)
        requires
            old(self).spec_space().spec_type() == ConstType::Handle ==> 0 <= old(
                self,
            ).spec_space().spec_handle() < params@.len(),
            old(self).spec_offset().spec_type() == ConstType::Handle ==> 0 <= old(
                self,
            ).spec_offset().spec_handle() < params@.len(),
            old(self).spec_size().spec_type() == ConstType::Handle ==> 0 <= old(
                self,
            ).spec_size().spec_handle() < params@.len(),
        ensures
            res is Err <==> (transferred(old(self).space, params@) is None || transferred(old(self).offset, params@)
                is None || transferred(old(self).size, params@) is None),
            res is Err ==> res == Err::<i32, FixError>(FixError::BadTruncation),
            res is Ok ==> {
                &&& final(self).space == transferred(old(self).space, params@).unwrap()
                &&& final(self).offset == transferred(old(self).offset, params@).unwrap()
                &&& final(self).size == transferred(old(self).size, params@).unwrap()
                &&& final(self).unnamed_flag == old(self).unnamed_flag
            },
            res is Ok ==> {
                let o = old(self).spec_offset();
                let plus = o.spec_real() as i32;
                if o.spec_type() == ConstType::Handle && o.spec_select() == VField::VOffsetPlus
                    && (final(self).spec_is_local_temp() || params@[o.spec_handle() as int].spec_size().spec_type()
                    == ConstType::Real && params@[o.spec_handle() as int].spec_size().spec_real()
                    == 0) {
                    res == Ok::<i32, FixError>(plus)
                } else {
                    res == Ok::<i32, FixError>(-1i32)
                }
            },
    {
        let mut does_offset_plus = false;
        let mut handle_index: i32 = 0;
        let mut plus: i32 = 0;
        if self.offset.get_type() == ConstType::Handle && self.offset.get_select()
            == VField::VOffsetPlus {
            handle_index = self.offset.get_handle_index();
            plus = self.offset.get_real() as i32;
            does_offset_plus = true;
        }
        self.space.transfer(params)?;
        self.offset.transfer(params)?;
        self.size.transfer(params)?;
        if does_offset_plus {
            if self.is_local_temp() {
                return Ok(plus);
            }
            if params[handle_index as usize].size.is_zero() {
                return Ok(plus);
            }
        }
        Ok(-1)
    }

    /// Is the size unknown (the real constant 0)?
    pub fn is_zero_size(&self) -> (r: bool)
        ensures
            r == self.spec_is_zero_size(),
    {
        self.size.is_zero()
    }

    /// Template equality (the unnamed flag does not take part).
    pub fn equals(&self, op2: &VarnodeTpl) -> (r: bool)
        ensures
            r == self.same_as(op2),
    {
        self.space.equals(&op2.space) && self.offset.equals(&op2.offset) && self.size.equals(
            &op2.size,
        )
    }

    /// The template order: by space, then offset, then size.
    pub fn less_than(&self, op2: &VarnodeTpl) -> (r: bool)
        ensures
            r == (if !self.spec_space().same_as(&op2.spec_space()) {
                self.spec_space().spec_less_than(&op2.spec_space())
            } else if !self.spec_offset().same_as(&op2.spec_offset()) {
                self.spec_offset().spec_less_than(&op2.spec_offset())
            } else if !self.spec_size().same_as(&op2.spec_size()) {
                self.spec_size().spec_less_than(&op2.spec_size())
            } else {
                false
            }),
    {
        if !self.space.equals(&op2.space) {
            return self.space.less_than(&op2.space);
        }
        if !self.offset.equals(&op2.offset) {
            return self.offset.less_than(&op2.offset);
        }
        if !self.size.equals(&op2.size) {
            return self.size.less_than(&op2.size);
        }
        false
    }

    /// Make the offset the real constant `const_val`.
    pub fn set_offset(&mut self, const_val: u64)
        ensures
            final(self).spec_offset() == ConstTpl::spec_real_const(ConstType::Real, const_val),
            final(self).spec_space() == old(self).spec_space(),
            final(self).spec_size() == old(self).spec_size(),
            final(self).spec_unnamed() == old(self).spec_unnamed(),
    {
        self.offset = ConstTpl::new_real(ConstType::Real, const_val);
    }

    /// Make the offset the relative (label) constant `const_val`.
    pub fn set_relative(&mut self, const_val: u64)
        ensures
            final(self).spec_offset() == ConstTpl::spec_real_const(ConstType::JRelative, const_val),
            final(self).spec_space() == old(self).spec_space(),
            final(self).spec_size() == old(self).spec_size(),
            final(self).spec_unnamed() == old(self).spec_unnamed(),
    {
        self.offset = ConstTpl::new_real(ConstType::JRelative, const_val);
    }

    /// Replace the size constant.
    pub fn set_size(&mut self, sz: ConstTpl)
        ensures
            final(self).spec_size() == sz,
            final(self).spec_space() == old(self).spec_space(),
            final(self).spec_offset() == old(self).spec_offset(),
            final(self).spec_unnamed() == old(self).spec_unnamed(),
    {
        self.size = sz;
    }

    /// Is this an unnamed temporary?
    pub fn is_unnamed(&self) -> (r: bool)
        ensures
            r == self.spec_unnamed(),
    {
        self.unnamed_flag
    }

    /// Mark or unmark this as an unnamed temporary.
    pub fn set_unnamed(&mut self, val: bool)
        ensures
            final(self).spec_unnamed() == val,
            final(self).spec_space() == old(self).spec_space(),
            final(self).spec_offset() == old(self).spec_offset(),
            final(self).spec_size() == old(self).spec_size(),
    {
        self.unnamed_flag = val;
    }

    /// Does this varnode live in the internal (unique) space?
    pub fn is_local_temp(&self) -> (r: bool)
        ensures
            r == self.spec_is_local_temp(),
    {
        if self.space.get_type() != ConstType::Spaceid {
            return false;
        }
        match self.space.value_spaceid {
            Some(s) => s.space_type == SpaceType::Internal,
            None => false,
        }
    }

    /// Is the offset a relative (label) constant?
    pub fn is_relative(&self) -> (r: bool)
        ensures
            r == (self.spec_offset().spec_type() == ConstType::JRelative),
    {
        self.offset.get_type() == ConstType::JRelative
    }

    /// Renumber the handle references of all three parts.
    pub fn change_handle_index(&mut self, handmap: &[i32])
        requires
            old(self).spec_space().spec_type() == ConstType::Handle ==> 0 <= old(
                self,
            ).spec_space().spec_handle() < handmap@.len(),
            old(self).spec_offset().spec_type() == ConstType::Handle ==> 0 <= old(
                self,
            ).spec_offset().spec_handle() < handmap@.len(),
            old(self).spec_size().spec_type() == ConstType::Handle ==> 0 <= old(
                self,
            ).spec_size().spec_handle() < handmap@.len(),
        ensures
            final(self).spec_space() == old(self).spec_space().remapped(handmap@),
            final(self).spec_offset() == old(self).spec_offset().remapped(handmap@),
            final(self).spec_size() == old(self).spec_size().remapped(handmap@),
            final(self).spec_unnamed() == old(self).spec_unnamed(),
    {
        self.space.change_handle_index(handmap);
        self.offset.change_handle_index(handmap);
        self.size.change_handle_index(handmap);
    }

    /// For an offset that is a truncated handle offset: check that a
    /// truncation of this size at this byte offset fits in `sz` bytes, and
    /// if so encode the truncation (adjusted for endianness) into the
    /// offset.  Returns whether the truncation is in bounds.
    pub fn adjust_truncation(&mut self, sz: i32, isbigendian: bool) -> (r: bool)
        ensures
            old(self).spec_size().spec_type() != ConstType::Real ==> !r && *final(self) == *old(
                self,
            ),
            old(self).spec_size().spec_type() == ConstType::Real ==> {
                let numbytes = old(self).spec_size().spec_real() as i32 as int;
                let byteoffset = old(self).spec_offset().spec_real() as i32 as int;
                if numbytes + byteoffset > sz {
                    !r && *final(self) == *old(self)
                } else {
                    r && final(self).spec_space() == old(self).spec_space()
                        && final(self).spec_size() == old(self).spec_size()
                        && final(self).spec_unnamed() == old(self).spec_unnamed()
                        && final(self).spec_offset().spec_type() == ConstType::Handle
                        && final(self).spec_offset().spec_handle() == old(
                        self,
                    ).spec_offset().spec_handle() && final(self).spec_offset().spec_select()
                        == VField::VOffsetPlus && final(self).spec_offset().spec_real() == (((
                    byteoffset as i64 as u64) << 16u64) | (if isbigendian {
                        (sz - (numbytes + byteoffset)) as i64 as u64
                    } else {
                        byteoffset as i64 as u64
                    })) as u64
                }
            },
    {
        if self.size.get_type() != ConstType::Real {
            return false;
        }
        let numbytes = self.size.get_real() as i32;
        let byteoffset = self.offset.get_real() as i32;
        if numbytes as i64 + byteoffset as i64 > sz as i64 {
            return false;
        }
        let mut val = byteoffset as i64 as u64;
        val = val << 16u64;
        if isbigendian {
            val = val | ((sz as i64 - (numbytes as i64 + byteoffset as i64)) as u64);
        } else {
            val = val | (byteoffset as i64 as u64);
        }
        self.offset = ConstTpl::new_handle_plus(
            self.offset.get_handle_index(),
            VField::VOffsetPlus,
            val,
        );
        true
    }
}

impl ConstTpl {
    /// The real constant `val` of kind `tp`, as a value.
    pub open spec fn spec_real_const(tp: ConstType, val: u64) -> ConstTpl {
        ConstTpl {
            type_: tp,
            value_spaceid: None,
            value_handle_index: 0,
            value_real: val,
            select: VField::VSpace,
        }
    }

    /// The constant naming space `sid`, as a value.
    pub open spec fn spec_space_const(sid: AddrSpace) -> ConstTpl {
        ConstTpl {
            type_: ConstType::Spaceid,
            value_spaceid: Some(sid),
            value_handle_index: 0,
            value_real: 0,
            select: VField::VSpace,
        }
    }

    /// The reference to field `vf` of handle `ht`, as a value.
    pub open spec fn spec_handle_const(ht: i32, vf: VField) -> ConstTpl {
        ConstTpl {
            type_: ConstType::Handle,
            value_spaceid: None,
            value_handle_index: ht,
            value_real: 0,
            select: vf,
        }
    }

    /// If this is a handle reference, does its index lie in `0..n`?
    pub open spec fn handle_below(&self, n: int) -> bool {
        self.type_ == ConstType::Handle ==> 0 <= self.value_handle_index < n
    }

    /// This constant with its handle index renumbered through `handmap`.
    pub open spec fn remapped(&self, handmap: Seq<i32>) -> ConstTpl {
        if self.type_ == ConstType::Handle {
            ConstTpl { value_handle_index: handmap[self.value_handle_index as int], ..*self }
        } else {
            *self
        }
    }
}

/// A template for a fixed handle: what a constructor exports.
#[derive(Debug, Clone, Copy)]
pub struct HandleTpl {
    /// The space of the exported varnode.
    pub space: ConstTpl,
    /// The size of the exported varnode.
    pub size: ConstTpl,
    /// The space of the pointer, when the export is dynamic (else real 0).
    pub ptrspace: ConstTpl,
    /// The offset of the varnode, or of the pointer when dynamic.
    pub ptroffset: ConstTpl,
    /// The size of the pointer.
    pub ptrsize: ConstTpl,
    /// The space of the temporary holding a dynamic value.
    pub temp_space: ConstTpl,
    /// The offset of the temporary holding a dynamic value.
    pub temp_offset: ConstTpl,
}

impl HandleTpl {
    /// The space constant.
    pub open spec fn spec_space(&self) -> ConstTpl {
        self.space
    }

    /// The pointer offset constant.
    pub open spec fn spec_ptr_offset(&self) -> ConstTpl {
        self.ptroffset
    }

    /// The size constant.
    pub open spec fn spec_size(&self) -> ConstTpl {
        self.size
    }

    /// An empty handle template: every part the real constant 0.
    pub fn new() -> (r: HandleTpl)
        ensures
            r.space == ConstTpl::spec_real_const(ConstType::Real, 0),
            r.size == ConstTpl::spec_real_const(ConstType::Real, 0),
            r.ptrspace == ConstTpl::spec_real_const(ConstType::Real, 0),
            r.ptroffset == ConstTpl::spec_real_const(ConstType::Real, 0),
            r.ptrsize == ConstTpl::spec_real_const(ConstType::Real, 0),
            r.temp_space == ConstTpl::spec_real_const(ConstType::Real, 0),
            r.temp_offset == ConstTpl::spec_real_const(ConstType::Real, 0),
    {
        HandleTpl {
            space: ConstTpl::new(),
            size: ConstTpl::new(),
            ptrspace: ConstTpl::new(),
            ptroffset: ConstTpl::new(),
            ptrsize: ConstTpl::new(),
            temp_space: ConstTpl::new(),
            temp_offset: ConstTpl::new(),
        }
    }

    /// The handle exporting the varnode `vn` directly.
    pub fn new_from_varnode(vn: &VarnodeTpl) -> (r: HandleTpl)
        ensures
            r.space == vn.space,
            r.size == vn.size,
            r.ptrspace == ConstTpl::spec_real_const(ConstType::Real, 0),
            r.ptroffset == vn.offset,
            r.ptrsize == ConstTpl::spec_real_const(ConstType::Real, 0),
            r.temp_space == ConstTpl::spec_real_const(ConstType::Real, 0),
            r.temp_offset == ConstTpl::spec_real_const(ConstType::Real, 0),
    {
        HandleTpl {
            space: vn.space,
            size: vn.size,
            ptrspace: ConstTpl::new_real(ConstType::Real, 0),
            ptroffset: vn.offset,
            ptrsize: ConstTpl::new(),
            temp_space: ConstTpl::new(),
            temp_offset: ConstTpl::new(),
        }
    }

    /// The handle exporting the thing `vn` points to, in space `spc` with
    /// size `sz`, using the temporary at `t_space`:`t_offset`.
    pub fn new_ptr(spc: &ConstTpl, sz: &ConstTpl, vn: &VarnodeTpl, t_space: AddrSpace, t_offset: u64) -> (r: HandleTpl)
        ensures
            r.space == *spc,
            r.size == *sz,
            r.ptrspace == vn.space,
            r.ptroffset == vn.offset,
            r.ptrsize == vn.size,
            r.temp_space.type_ == ConstType::Spaceid && r.temp_space.value_spaceid == Some(t_space),
            r.temp_offset == ConstTpl::spec_real_const(ConstType::Real, t_offset),
    {
        HandleTpl {
            space: *spc,
            size: *sz,
            ptrspace: vn.space,
            ptroffset: vn.offset,
            ptrsize: vn.size,
            temp_space: ConstTpl::new_space(t_space),
            temp_offset: ConstTpl::new_real(ConstType::Real, t_offset),
        }
    }

    /// The space constant.
    pub fn get_space(&self) -> (r: &ConstTpl)
        ensures
            *r == self.space,
    {
        &self.space
    }

    /// The pointer space constant.
    pub fn get_ptr_space(&self) -> (r: &ConstTpl)
        ensures
            *r == self.ptrspace,
    {
        &self.ptrspace
    }

    /// The pointer offset constant.
    pub fn get_ptr_offset(&self) -> (r: &ConstTpl)
        ensures
            *r == self.ptroffset,
    {
        &self.ptroffset
    }

    /// The pointer size constant.
    pub fn get_ptr_size(&self) -> (r: &ConstTpl)
        ensures
            *r == self.ptrsize,
    {
        &self.ptrsize
    }

    /// The size constant.
    pub fn get_size(&self) -> (r: &ConstTpl)
        ensures
            *r == self.size,
    {
        &self.size
    }

    /// The temporary space constant.
    pub fn get_temp_space(&self) -> (r: &ConstTpl)
        ensures
            *r == self.temp_space,
    {
        &self.temp_space
    }

    /// The temporary offset constant.
    pub fn get_temp_offset(&self) -> (r: &ConstTpl)
        ensures
            *r == self.temp_offset,
    {
        &self.temp_offset
    }

    /// Replace the size constant.
    pub fn set_size(&mut self, sz: ConstTpl)
        ensures
            *final(self) == (HandleTpl { size: sz, ..*old(self) }),
    {
        self.size = sz;
    }

    /// Replace the pointer size constant.
    pub fn set_ptr_size(&mut self, sz: ConstTpl)
        ensures
            *final(self) == (HandleTpl { ptrsize: sz, ..*old(self) }),
    {
        self.ptrsize = sz;
    }

    /// Make the pointer offset the real constant `val`.
    pub fn set_ptr_offset(&mut self, val: u64)
        ensures
            *final(self) == (HandleTpl { ptroffset: ConstTpl::spec_real_const(ConstType::Real, val), ..*old(self) }),
    {
        self.ptroffset = ConstTpl::new_real(ConstType::Real, val);
    }

    /// Make the temporary offset the real constant `val`.
    pub fn set_temp_offset(&mut self, val: u64)
        ensures
            *final(self) == (HandleTpl { temp_offset: ConstTpl::spec_real_const(ConstType::Real, val), ..*old(self) }),
    {
        self.temp_offset = ConstTpl::new_real(ConstType::Real, val);
    }

    /// Do all handle references of this template index into a table of
    /// `n` entries?
    pub open spec fn handles_below(&self, n: int) -> bool {
        &&& self.space.handle_below(n)
        &&& self.size.handle_below(n)
        &&& self.ptrspace.handle_below(n)
        &&& self.ptroffset.handle_below(n)
        &&& self.ptrsize.handle_below(n)
        &&& self.temp_space.handle_below(n)
        &&& self.temp_offset.handle_below(n)
    }

    /// Renumber the handle references of every part.
    pub fn change_handle_index(&mut self, handmap: &[i32])
        requires
            old(self).handles_below(handmap@.len() as int),
        ensures
            final(self).space == old(self).space.remapped(handmap@),
            final(self).size == old(self).size.remapped(handmap@),
            final(self).ptrspace == old(self).ptrspace.remapped(handmap@),
            final(self).ptroffset == old(self).ptroffset.remapped(handmap@),
            final(self).ptrsize == old(self).ptrsize.remapped(handmap@),
            final(self).temp_space == old(self).temp_space.remapped(handmap@),
            final(self).temp_offset == old(self).temp_offset.remapped(handmap@),
    {
        self.space.change_handle_index(handmap);
        self.size.change_handle_index(handmap);
        self.ptrspace.change_handle_index(handmap);
        self.ptroffset.change_handle_index(handmap);
        self.ptrsize.change_handle_index(handmap);
        self.temp_space.change_handle_index(handmap);
        self.temp_offset.change_handle_index(handmap);
    }
}

/// A p-code operation template.
#[derive(Debug, Clone)]
pub struct OpTpl {
    /// The output varnode, if any.
    pub output: Option<VarnodeTpl>,
    /// The operation.
    pub opc: OpCode,
    /// The input varnodes.
    pub input: Vec<VarnodeTpl>,
}

/// Does a varnode template have an unknown size?
pub open spec fn vn_zero_size(vn: VarnodeTpl) -> bool {
    vn.size.type_ == ConstType::Real && vn.size.value_real == 0
}

/// An op template as a value: output, op code, inputs.
pub open spec fn op_value(out: Option<VarnodeTpl>, opc: OpCode, input: Seq<VarnodeTpl>) -> (Option<VarnodeTpl>, OpCode, Seq<VarnodeTpl>) {
    (out, opc, input)
}

impl OpTpl {
    /// The op as a value: output, op code, inputs.
    pub open spec fn view(&self) -> (Option<VarnodeTpl>, OpCode, Seq<VarnodeTpl>) {
        (self.output, self.opc, self.input@)
    }

    /// Does any input or the output have an unknown size?
    pub open spec fn spec_is_zero_size(&self) -> bool {
        ||| (self.output matches Some(o) && vn_zero_size(o))
        ||| exists|i: int| 0 <= i < self.input@.len() && vn_zero_size(#[trigger] self.input@[i])
    }

    /// A template for op `oc`, with no inputs and no output.
    pub fn new(oc: OpCode) -> (r: OpTpl)
        ensures
            r.output is None,
            r.opc == oc,
            r.input@.len() == 0,
    {
        OpTpl { output: None, opc: oc, input: Vec::new() }
    }

    /// An empty template to be filled in (a `COPY` placeholder).
    pub fn new_for_decode() -> (r: OpTpl)
        ensures
            r.output is None,
            r.opc == OpCode::CPUI_COPY,
            r.input@.len() == 0,
    {
        OpTpl::new(OpCode::CPUI_COPY)
    }

    /// A copy of this op.
    pub fn duplicate(&self) -> (r: OpTpl)
        ensures
            r@ == self@,
    {
        let mut input: Vec<VarnodeTpl> = Vec::new();
        let mut i: usize = 0;
        while i < self.input.len()
            invariant
                i <= self.input@.len(),
                input@ == self.input@.subrange(0, i as int),
            decreases self.input@.len() - i,
        {
            input.push(self.input[i]);
            i += 1;
            assert(input@ =~= self.input@.subrange(0, i as int));
        }
        assert(input@ =~= self.input@);
        OpTpl { output: self.output, opc: self.opc, input }
    }

    /// The output, if any.
    pub fn get_out(&self) -> (r: Option<&VarnodeTpl>)
        ensures
            r matches Some(v) ==> self.output == Some(*v),
            r is None <==> self.output is None,
    {
        self.output.as_ref()
    }

    /// The number of inputs.
    pub fn num_input(&self) -> (r: i32)
        requires
            self.input@.len() <= i32::MAX,
        ensures
            r == self.input@.len(),
    {
        self.input.len() as i32
    }

    /// Input number `i`.
    pub fn get_in(&self, i: i32) -> (r: &VarnodeTpl)
        requires
            0 <= i < self.input@.len(),
        ensures
            *r == self.input@[i as int],
    {
        &self.input[i as usize]
    }

    /// The op code.
    pub fn get_opcode(&self) -> (r: OpCode)
        ensures
            r == self.opc,
    {
        self.opc
    }

    /// Does any input or the output have an unknown size?
    pub fn is_zero_size(&self) -> (r: bool)
        ensures
            r == self.spec_is_zero_size(),
    {
        if let Some(output) = &self.output {
            if output.is_zero_size() {
                return true;
            }
        }
        let mut i: usize = 0;
        while i < self.input.len()
            invariant
                i <= self.input@.len(),
                forall|j: int| 0 <= j < i ==> !vn_zero_size(#[trigger] self.input@[j]),
            decreases self.input@.len() - i,
        {
            if self.input[i].is_zero_size() {
                return true;
            }
            i += 1;
        }
        false
    }

    /// Replace the op code.
    pub fn set_opcode(&mut self, o: OpCode)
        ensures
            final(self)@ == op_value(old(self).output, o, old(self).input@),
    {
        self.opc = o;
    }

    /// Set the output.
    pub fn set_output(&mut self, vt: VarnodeTpl)
        ensures
            final(self)@ == op_value(Some(vt), old(self).opc, old(self).input@),
    {
        self.output = Some(vt);
    }

    /// Remove the output.
    pub fn clear_output(&mut self)
        ensures
            final(self)@ == op_value(None, old(self).opc, old(self).input@),
    {
        self.output = None;
    }

    /// Append an input.
    pub fn add_input(&mut self, vt: VarnodeTpl)
        ensures
            final(self)@ == op_value(old(self).output, old(self).opc, old(self).input@.push(vt)),
    {
        self.input.push(vt);
    }

    /// Replace input number `slot`.
    pub fn set_input(&mut self, vt: VarnodeTpl, slot: i32)
        requires
            0 <= slot < old(self).input@.len(),
        ensures
            final(self)@ == op_value(old(self).output, old(self).opc, old(self).input@.update(slot as int, vt)),
    {
        self.input.set(slot as usize, vt);
    }

    /// Remove input number `index`, shifting the later inputs down.
    pub fn remove_input(&mut self, index: i32)
        requires
            0 <= index < old(self).input@.len(),
        ensures
            final(self)@ == op_value(old(self).output, old(self).opc, old(self).input@.remove(index as int)),
    {
        self.input.remove(index as usize);
    }

    /// Do all handle references of this op index into a table of `n`
    /// entries?
    pub open spec fn handles_below(&self, n: int) -> bool {
        &&& (self.output matches Some(o) ==> o.handles_below(n))
        &&& forall|i: int| 0 <= i < self.input@.len() ==> (#[trigger] self.input@[i]).handles_below(n)
    }

    /// Renumber the handle references of the output and every input.
    pub fn change_handle_index(&mut self, handmap: &[i32])
        requires
            old(self).handles_below(handmap@.len() as int),
        ensures
            final(self).opc == old(self).opc,
            final(self).input@.len() == old(self).input@.len(),
            old(self).output is None ==> final(self).output is None,
            old(self).output matches Some(o) ==> final(self).output == Some(o.remapped(handmap@)),
            forall|i: int| 0 <= i < old(self).input@.len() ==> #[trigger] final(self).input@[i] == old(self).input@[i].remapped(handmap@),
    {
        if let Some(o) = self.output {
            let mut o2 = o;
            o2.change_handle_index(handmap);
            self.output = Some(o2);
        }
        let mut i: usize = 0;
        let ghost orig = self.input@;
        let ghost out1 = self.output;
        while i < self.input.len()
            invariant
                i <= self.input@.len(),
                self.input@.len() == orig.len(),
                self.opc == old(self).opc,
                self.output == out1,
                old(self).output is None ==> out1 is None,
                old(self).output matches Some(o) ==> out1 == Some(o.remapped(handmap@)),
                forall|j: int| 0 <= j < orig.len() ==> (#[trigger] orig[j]).handles_below(handmap@.len() as int),
                forall|j: int| 0 <= j < i ==> #[trigger] self.input@[j] == orig[j].remapped(handmap@),
                forall|j: int| i <= j < orig.len() ==> #[trigger] self.input@[j] == orig[j],
            decreases self.input@.len() - i,
        {
            let mut vn = self.input[i];
            vn.change_handle_index(handmap);
            self.input.set(i, vn);
            i += 1;
        }
    }
}

impl VarnodeTpl {
    /// Do the handle references of this varnode index into a table of `n`
    /// entries?
    pub open spec fn handles_below(&self, n: int) -> bool {
        &&& self.space.handle_below(n)
        &&& self.offset.handle_below(n)
        &&& self.size.handle_below(n)
    }

    /// This varnode with its handle references renumbered.
    pub open spec fn remapped(&self, handmap: Seq<i32>) -> VarnodeTpl {
        VarnodeTpl {
            space: self.space.remapped(handmap),
            offset: self.offset.remapped(handmap),
            size: self.size.remapped(handmap),
            unnamed_flag: self.unnamed_flag,
        }
    }
}

/// Does a list of ops, added one by one to a template whose delay slot is
/// `d`, never add a second delay slot?
pub open spec fn accepts_ops(d: u32, ops: Seq<OpTpl>) -> bool
    decreases ops.len(),
{
    if ops.len() == 0 {
        true
    } else if ops[0].opc == spec_delay_slot_op() {
        d == 0 && accepts_ops(ops[0].input@[0].offset.value_real as u32, ops.drop_first())
    } else {
        accepts_ops(d, ops.drop_first())
    }
}

/// The delay slot after adding a list of ops to a template whose delay slot
/// is `d`.
pub open spec fn delay_after(d: u32, ops: Seq<OpTpl>) -> u32
    decreases ops.len(),
{
    if ops.len() == 0 {
        d
    } else if ops[0].opc == spec_delay_slot_op() {
        delay_after(ops[0].input@[0].offset.value_real as u32, ops.drop_first())
    } else {
        delay_after(d, ops.drop_first())
    }
}

/// The number of label placements in a list of ops.
pub open spec fn count_labels(ops: Seq<OpTpl>) -> nat
    decreases ops.len(),
{
    if ops.len() == 0 {
        0
    } else {
        (if ops[0].opc == spec_label_build_op() { 1nat } else { 0nat }) + count_labels(ops.drop_first())
    }
}

/// Does every delay-slot op in the list have an input?
pub open spec fn delay_ops_have_input(ops: Seq<OpTpl>) -> bool {
    forall|i: int| 0 <= i < ops.len() && (#[trigger] ops[i]).opc == spec_delay_slot_op() ==> ops[i].input@.len() > 0
}

/// The ops of a template with the ops at the listed positions removed, in
/// order.
pub open spec fn ops_without(ops: Seq<OpTpl>, removed: Set<int>) -> Seq<OpTpl>
    decreases ops.len(),
{
    if ops.len() == 0 {
        ops
    } else {
        let rest = ops_without(ops.drop_last(), removed);
        if removed.contains(ops.len() - 1) {
            rest
        } else {
            rest.push(ops.last())
        }
    }
}

/// The full p-code template of one constructor section.
#[derive(Debug, Clone)]
pub struct ConstructTpl {
    /// The number of bytes in the delay slot, if there is one.
    pub delayslot: u32,
    /// The number of label templates.
    pub numlabels: u32,
    /// The op templates.
    pub vec: Vec<OpTpl>,
    /// The export, if any.
    pub result: Option<HandleTpl>,
}

impl ConstructTpl {
    /// An empty template.
    pub fn new() -> (r: ConstructTpl)
        ensures
            r.delayslot == 0,
            r.numlabels == 0,
            r.vec@.len() == 0,
            r.result is None,
    {
        ConstructTpl { delayslot: 0, numlabels: 0, vec: Vec::new(), result: None }
    }

    /// The number of bytes in the delay slot.
    pub fn delay_slot(&self) -> (r: u32)
        ensures
            r == self.delayslot,
    {
        self.delayslot
    }

    /// The number of labels.
    pub fn num_labels(&self) -> (r: u32)
        ensures
            r == self.numlabels,
    {
        self.numlabels
    }

    /// The op templates.
    pub fn get_opvec(&self) -> (r: &[OpTpl])
        ensures
            r@ == self.vec@,
    {
        self.vec.as_slice()
    }

    /// The export, if any.
    pub fn get_result(&self) -> (r: Option<&HandleTpl>)
        ensures
            r matches Some(h) ==> self.result == Some(*h),
            r is None <==> self.result is None,
    {
        self.result.as_ref()
    }

    /// Append an op.  A second delay slot is refused (`false`, nothing
    /// changes); a delay slot records its size, a label placement is
    /// counted.
    pub fn add_op(&mut self, ot: OpTpl) -> (r: bool)
        requires
            ot.opc == spec_delay_slot_op() ==> ot.input@.len() > 0,
        ensures
            r == accepts_ops(old(self).delayslot, seq![ot]),
            !r ==> *final(self) == *old(self),
            r ==> final(self).vec@ == old(self).vec@.push(ot),
            r ==> final(self).delayslot == delay_after(old(self).delayslot, seq![ot]),
            r ==> final(self).numlabels as int == (old(self).numlabels + count_labels(seq![ot]))
                % 0x1_0000_0000,
            final(self).result == old(self).result,
    {
        proof {
            let one = seq![ot];
            assert(one.drop_first() =~= Seq::<OpTpl>::empty());
            assert(one[0] == ot);
            reveal_with_fuel(accepts_ops, 2);
            reveal_with_fuel(delay_after, 2);
            reveal_with_fuel(count_labels, 2);
        }
        if ot.opc == delay_slot_op() {
            if self.delayslot != 0 {
                return false;
            }
            self.delayslot = ot.input[0].offset.value_real as u32;
        } else if ot.opc == label_build_op() {
            self.numlabels = self.numlabels.wrapping_add(1);
        }
        self.vec.push(ot);
        true
    }

    /// Append a list of ops, in order, stopping at the first refused one.
    /// Returns whether all were added.
    pub fn add_op_list(&mut self, oplist: Vec<OpTpl>) -> (r: bool)
        requires
            delay_ops_have_input(oplist@),
        ensures
            r == accepts_ops(old(self).delayslot, oplist@),
            r ==> final(self).vec@ == old(self).vec@ + oplist@,
            r ==> final(self).delayslot == delay_after(old(self).delayslot, oplist@),
            r ==> final(self).numlabels as int == (old(self).numlabels + count_labels(oplist@))
                % 0x1_0000_0000,
            final(self).result == old(self).result,
    {
        let mut ops = oplist;
        let ghost done: Seq<OpTpl> = Seq::empty();
        while ops.len() > 0
            invariant
                done + ops@ == oplist@,
                delay_ops_have_input(oplist@),
                accepts_ops(old(self).delayslot, oplist@) == accepts_ops(self.delayslot, ops@),
                self.vec@ == old(self).vec@ + done,
                delay_after(old(self).delayslot, oplist@) == delay_after(self.delayslot, ops@),
                (self.numlabels + count_labels(ops@)) % 0x1_0000_0000 as int == (old(self).numlabels
                    + count_labels(oplist@)) % 0x1_0000_0000,
                self.result == old(self).result,
            decreases ops@.len(),
        {
            let ghost before = ops@;
            let ot = ops.remove(0);
            proof {
                assert(before.drop_first() =~= ops@);
                assert(before[0] == ot);
                assert(oplist@[done.len() as int] == ot);
            }
            let ghost d0 = self.delayslot;
            let ghost old_labels: int = self.numlabels as int;
            proof {
                reveal_with_fuel(accepts_ops, 2);
                reveal_with_fuel(delay_after, 2);
                assert(seq![ot].drop_first() =~= Seq::<OpTpl>::empty());
                assert(seq![ot][0] == ot);
                assert(accepts_ops(d0, before) == (if ot.opc == spec_delay_slot_op() {
                    d0 == 0 && accepts_ops(ot.input@[0].offset.value_real as u32, ops@)
                } else {
                    accepts_ops(d0, ops@)
                }));
                assert(delay_after(d0, before) == (if ot.opc == spec_delay_slot_op() {
                    delay_after(ot.input@[0].offset.value_real as u32, ops@)
                } else {
                    delay_after(d0, ops@)
                }));
            }
            if !self.add_op(ot) {
                return false;
            }
            proof {
                reveal_with_fuel(delay_after, 2);
                assert(seq![ot].drop_first() =~= Seq::<OpTpl>::empty());
                assert(seq![ot][0] == ot);
                if ot.opc == spec_delay_slot_op() {
                    assert(self.delayslot == ot.input@[0].offset.value_real as u32);
                } else {
                    assert(self.delayslot == d0);
                }
                done = done.push(ot);
                assert(done + ops@ =~= oplist@);
                assert(self.vec@ =~= old(self).vec@ + done);
                reveal_with_fuel(count_labels, 2);
                if ot.opc == spec_label_build_op() {
                    assert(count_labels(before) == 1 + count_labels(ops@));
                } else {
                    assert(count_labels(before) == count_labels(ops@));
                }
                vstd::arithmetic::div_mod::lemma_add_mod_noop_right(
                    count_labels(ops@) as int,
                    old_labels + count_labels(seq![ot]),
                    0x1_0000_0000,
                );
            }
        }
        proof {
            assert(done =~= oplist@);
        }
        true
    }

    /// Replace the export.
    pub fn set_result(&mut self, t: Option<HandleTpl>)
        ensures
            final(self).result == t,
            final(self).vec@ == old(self).vec@,
            final(self).delayslot == old(self).delayslot,
            final(self).numlabels == old(self).numlabels,
    {
        self.result = t;
    }

    /// Replace the label count.
    pub fn set_num_labels(&mut self, num: u32)
        ensures
            final(self).numlabels == num,
            final(self).vec@ == old(self).vec@,
            final(self).delayslot == old(self).delayslot,
            final(self).result == old(self).result,
    {
        self.numlabels = num;
    }

    /// Replace the op list wholesale.
    pub fn set_opvec(&mut self, opvec: Vec<OpTpl>)
        ensures
            final(self).vec@ == opvec@,
            final(self).numlabels == old(self).numlabels,
            final(self).delayslot == old(self).delayslot,
            final(self).result == old(self).result,
    {
        self.vec = opvec;
    }

    /// Is every op a build of a subtable operand?
    pub fn build_only(&self) -> (r: bool)
        ensures
            r == forall|i: int| 0 <= i < self.vec@.len() ==> (#[trigger] self.vec@[i]).opc == spec_build_op(),
    {
        let mut i: usize = 0;
        while i < self.vec.len()
            invariant
                i <= self.vec@.len(),
                forall|j: int| 0 <= j < i ==> (#[trigger] self.vec@[j]).opc == spec_build_op(),
            decreases self.vec@.len() - i,
        {
            if self.vec[i].opc != build_op() {
                return false;
            }
            i += 1;
        }
        true
    }

    /// Replace input `slot` of op `index`.
    pub fn set_input(&mut self, vn: VarnodeTpl, index: i32, slot: i32)
        requires
            0 <= index < old(self).vec@.len(),
            0 <= slot < old(self).vec@[index as int].input@.len(),
        ensures
            final(self).vec@.len() == old(self).vec@.len(),
            forall|i: int| 0 <= i < old(self).vec@.len() && i != index ==> #[trigger] final(self).vec@[i] == old(self).vec@[i],
            final(self).vec@[index as int]@ == op_value(old(self).vec@[index as int].output, old(self).vec@[index as int].opc, old(self).vec@[index as int].input@.update(slot as int, vn)),
            final(self).numlabels == old(self).numlabels,
            final(self).delayslot == old(self).delayslot,
            final(self).result == old(self).result,
    {
        let mut op = self.vec[index as usize].duplicate();
        op.set_input(vn, slot);
        self.vec.set(index as usize, op);
    }

    /// Replace the output of op `index`.
    pub fn set_output(&mut self, vn: VarnodeTpl, index: i32)
        requires
            0 <= index < old(self).vec@.len(),
        ensures
            final(self).vec@.len() == old(self).vec@.len(),
            forall|i: int| 0 <= i < old(self).vec@.len() && i != index ==> #[trigger] final(self).vec@[i] == old(self).vec@[i],
            final(self).vec@[index as int]@ == op_value(Some(vn), old(self).vec@[index as int].opc, old(self).vec@[index as int].input@),
            final(self).numlabels == old(self).numlabels,
            final(self).delayslot == old(self).delayslot,
            final(self).result == old(self).result,
    {
        let mut op = self.vec[index as usize].duplicate();
        op.set_output(vn);
        self.vec.set(index as usize, op);
    }

    /// Remove the ops at the listed positions, keeping the others in order.
    pub fn delete_ops(&mut self, indices: &[i32])
        requires
            forall|k: int| 0 <= k < indices@.len() ==> 0 <= #[trigger] indices@[k] < old(self).vec@.len(),
        ensures
            forall|i: int| 0 <= i < final(self).vec@.len() ==> (#[trigger] final(self).vec@[i])@ == ops_without(old(self).vec@, Set::new(|j: int| exists|k: int| 0 <= k < indices@.len() && indices@[k] == j))[i]@,
            final(self).vec@.len() == ops_without(old(self).vec@, Set::new(|j: int| exists|k: int| 0 <= k < indices@.len() && indices@[k] == j)).len(),
            final(self).numlabels == old(self).numlabels,
            final(self).delayslot == old(self).delayslot,
            final(self).result == old(self).result,
    {
        let ghost removed_set = Set::new(|j: int| exists|k: int| 0 <= k < indices@.len() && indices@[k] == j);
        let n = self.vec.len();
        let mut removed: Vec<bool> = Vec::new();
        let mut i: usize = 0;
        while i < n
            invariant
                i <= n,
                removed@.len() == i,
                forall|j: int| 0 <= j < i ==> !(#[trigger] removed@[j]),
            decreases n - i,
        {
            removed.push(false);
            i += 1;
        }
        let mut k: usize = 0;
        while k < indices.len()
            invariant
                k <= indices@.len(),
                removed@.len() == n,
                n == self.vec@.len(),
                forall|kk: int| 0 <= kk < indices@.len() ==> 0 <= #[trigger] indices@[kk] < n,
                forall|j: int| 0 <= j < n ==> (#[trigger] removed@[j] <==> exists|kk: int| 0 <= kk < k && indices@[kk] == j),
            decreases indices@.len() - k,
        {
            let idx = indices[k] as usize;
            removed.set(idx, true);
            k += 1;
            assert forall|j: int| 0 <= j < n implies (#[trigger] removed@[j] <==> exists|kk: int| 0 <= kk < k && indices@[kk] == j) by {
                if j == idx as int {
                    assert(indices@[k - 1] == j);
                } else {
                    if exists|kk: int| 0 <= kk < k && indices@[kk] == j {
                        let kk = choose|kk: int| 0 <= kk < k && indices@[kk] == j;
                        assert(kk < k - 1);
                    }
                }
            }
        }
        let mut kept: Vec<OpTpl> = Vec::new();
        let mut i: usize = 0;
        while i < n
            invariant
                i <= n,
                n == self.vec@.len(),
                removed@.len() == n,
                forall|j: int| 0 <= j < n ==> (#[trigger] removed@[j] <==> removed_set.contains(j)),
                kept@.len() == ops_without(self.vec@.subrange(0, i as int), removed_set).len(),
                forall|j: int| 0 <= j < kept@.len() ==> (#[trigger] kept@[j])@ == ops_without(self.vec@.subrange(0, i as int), removed_set)[j]@,
            decreases n - i,
        {
            let ghost pre = self.vec@.subrange(0, i as int);
            proof {
                let nxt = self.vec@.subrange(0, i + 1);
                assert(nxt.drop_last() =~= pre);
                assert(nxt.last() == self.vec@[i as int]);
            }
            if !removed[i] {
                let op = self.vec[i].duplicate();
                kept.push(op);
            }
            i += 1;
        }
        proof {
            assert(self.vec@.subrange(0, n as int) =~= self.vec@);
        }
        self.vec = kept;
    }
}

/// Why a template could not be instantiated.
#[derive(Debug, Clone, Copy, PartialEq, Eq, Structural)]
pub enum FixError {
    /// A constant that must name a space does not.
    NotASpace,
    /// The decoder does not know an address or handle the template needs.
    Unavailable,
    /// A truncated operand is passed where it cannot be truncated.
    BadTruncation,
}

impl FixError {
    /// A description of the error.
    pub fn explain(&self) -> (r: &'static str)
        ensures
            *self == FixError::NotASpace ==> r@ == "ConstTpl is not a spaceid as expected"@,
            *self == FixError::Unavailable ==> r@ == "Value is not available for this instruction"@,
            *self == FixError::BadTruncation ==> r@ == "Cannot truncate macro input in this way"@,
    {
        match self {
            FixError::NotASpace => "ConstTpl is not a spaceid as expected",
            FixError::Unavailable => "Value is not available for this instruction",
            FixError::BadTruncation => "Cannot truncate macro input in this way",
        }
    }
}

/// The constant `c` becomes when the handles it refers to are replaced by
/// `params`: a handle reference takes the part of its handle that it
/// selects (a truncated offset adds or keeps its truncation amount); no
/// result for a truncation of anything but a real or handle offset.
pub open spec fn transferred(c: ConstTpl, params: Seq<HandleTpl>) -> Option<ConstTpl> {
    if c.type_ != ConstType::Handle {
        Some(c)
    } else {
        let h = params[c.value_handle_index as int];
        match c.select {
            VField::VSpace => Some(h.space),
            VField::VOffset => Some(h.ptroffset),
            VField::VSize => Some(h.size),
            VField::VOffsetPlus => {
                let p = h.ptroffset;
                if p.type_ == ConstType::Real {
                    Some(ConstTpl { value_real: vstd::wrapping::u64_specs::wrapping_add(p.value_real, (c.value_real & 0xffff) as u64), ..p })
                } else if p.type_ == ConstType::Handle && p.select == VField::VOffset {
                    Some(ConstTpl { select: VField::VOffsetPlus, value_real: c.value_real, ..p })
                } else {
                    None
                }
            },
        }
    }
}

/// A space as a constant value: its index (no space is 0).
pub open spec fn space_const_value(s: Option<AddrSpace>) -> u64 {
    match s {
        Some(x) => x.index as u64,
        None => 0,
    }
}

fn space_const_value_exec(s: Option<AddrSpace>) -> (r: u64)
    ensures
        r == space_const_value(s),
{
    match s {
        Some(x) => x.index as u64,
        None => 0,
    }
}

/// The offset a handle stands for: its own offset when static, the
/// temporary's when dynamic.
pub open spec fn handle_offset(h: FixedHandle) -> u64 {
    if h.offset_space is None { h.offset_offset } else { h.temp_offset }
}

/// The space a handle's value lives in: its own space when static, the
/// temporary's when dynamic.
pub open spec fn handle_space(h: FixedHandle) -> Option<AddrSpace> {
    if h.offset_space is None { h.space } else { h.temp_space }
}

/// The value of a constant template for the instruction `w` describes, or
/// why it has none.
pub open spec fn spec_fix(c: ConstTpl, w: WalkerView) -> Result<u64, FixError> {
    match c.type_ {
        ConstType::JStart => Ok(w.addr.offset),
        ConstType::JNext => Ok(w.naddr.offset),
        ConstType::JNext2 => match w.n2addr {
            Some(a) => Ok(a.offset),
            None => Err(FixError::Unavailable),
        },
        ConstType::JFlowref => match w.ref_addr {
            Some(a) => Ok(a.offset),
            None => Err(FixError::Unavailable),
        },
        ConstType::JFlowrefSize => match w.ref_addr {
            Some(a) => Ok(a.space.addr_size as u64),
            None => Err(FixError::Unavailable),
        },
        ConstType::JFlowdest => match w.dest_addr {
            Some(a) => Ok(a.offset),
            None => Err(FixError::Unavailable),
        },
        ConstType::JFlowdestSize => match w.dest_addr {
            Some(a) => Ok(a.space.addr_size as u64),
            None => Err(FixError::Unavailable),
        },
        ConstType::JCurspaceSize => Ok(w.cur_space.addr_size as u64),
        ConstType::JCurspace => Ok(space_const_value(Some(w.cur_space))),
        ConstType::Handle => match w.handle(c.value_handle_index) {
            None => Err(FixError::Unavailable),
            Some(h) => match c.select {
                VField::VSpace => Ok(space_const_value(handle_space(h))),
                VField::VOffset => Ok(handle_offset(h)),
                VField::VSize => Ok(h.size as u64),
                VField::VOffsetPlus => if !same_space(h.space, Some(w.const_space)) {
                    // a truncation: move the offset up by the amount
                    Ok(((handle_offset(h) as int + (c.value_real & 0xffff) as int) % 0x1_0000_0000_0000_0000) as u64)
                } else {
                    // a constant: shift out the truncated bytes
                    Ok(handle_offset(h) >> ((8 * ((c.value_real >> 16u64) % 8)) as u64))
                },
            },
        },
        ConstType::JRelative | ConstType::Real => Ok(c.value_real),
        ConstType::Spaceid => Ok(space_const_value(c.value_spaceid)),
    }
}

/// The space a constant template names for the instruction `w`
/// describes, or why it names none.
pub open spec fn spec_fix_space(c: ConstTpl, w: WalkerView) -> Result<Option<AddrSpace>, FixError> {
    match c.type_ {
        ConstType::JCurspace => Ok(Some(w.cur_space)),
        ConstType::Handle => match w.handle(c.value_handle_index) {
            None => Err(FixError::Unavailable),
            Some(h) => if c.select == VField::VSpace {
                Ok(handle_space(h))
            } else {
                Err(FixError::NotASpace)
            },
        },
        ConstType::Spaceid => Ok(c.value_spaceid),
        ConstType::JFlowref => match w.ref_addr {
            Some(a) => Ok(Some(a.space)),
            None => Err(FixError::Unavailable),
        },
        _ => Err(FixError::NotASpace),
    }
}

/// The space a constant template puts in a handle being filled in: like
/// [`spec_fix_space`], but a handle's own space is copied whether or not
/// the handle is dynamic, and a flow reference names no space.
pub open spec fn spec_fillin_space(c: ConstTpl, w: WalkerView) -> Result<Option<AddrSpace>, FixError> {
    match c.type_ {
        ConstType::JCurspace => Ok(Some(w.cur_space)),
        ConstType::Handle => match w.handle(c.value_handle_index) {
            None => Err(FixError::Unavailable),
            Some(h) => if c.select == VField::VSpace {
                Ok(h.space)
            } else {
                Err(FixError::NotASpace)
            },
        },
        ConstType::Spaceid => Ok(c.value_spaceid),
        _ => Err(FixError::NotASpace),
    }
}

impl ConstTpl {
    /// The value of the template for the instruction `walker` describes.
    pub fn fix(&self, walker: &WalkerView) -> (r: Result<u64, FixError>)
        ensures
            r == spec_fix(*self, *walker),
    {
        match self.type_ {
            ConstType::JStart => Ok(walker.addr.offset),
            ConstType::JNext => Ok(walker.naddr.offset),
            ConstType::JNext2 => match walker.n2addr {
                Some(a) => Ok(a.offset),
                None => Err(FixError::Unavailable),
            },
            ConstType::JFlowref => match walker.ref_addr {
                Some(a) => Ok(a.offset),
                None => Err(FixError::Unavailable),
            },
            ConstType::JFlowrefSize => match walker.ref_addr {
                Some(a) => Ok(a.space.addr_size as u64),
                None => Err(FixError::Unavailable),
            },
            ConstType::JFlowdest => match walker.dest_addr {
                Some(a) => Ok(a.offset),
                None => Err(FixError::Unavailable),
            },
            ConstType::JFlowdestSize => match walker.dest_addr {
                Some(a) => Ok(a.space.addr_size as u64),
                None => Err(FixError::Unavailable),
            },
            ConstType::JCurspaceSize => Ok(walker.cur_space.addr_size as u64),
            ConstType::JCurspace => Ok(space_const_value_exec(Some(walker.cur_space))),
            ConstType::Handle => {
                let hand = match walker.get_fixed_handle(self.value_handle_index) {
                    Some(h) => h,
                    None => return Err(FixError::Unavailable),
                };
                let off = if hand.offset_space.is_none() { hand.offset_offset } else { hand.temp_offset };
                match self.select {
                    VField::VSpace => {
                        let sp = if hand.offset_space.is_none() { hand.space } else { hand.temp_space };
                        Ok(space_const_value_exec(sp))
                    },
                    VField::VOffset => Ok(off),
                    VField::VSize => Ok(hand.size as u64),
                    VField::VOffsetPlus => {
                        if !same_space_exec(hand.space, Some(walker.const_space)) {
                            Ok(off.wrapping_add(self.value_real & 0xffff))
                        } else {
                            let sh: u64 = 8 * ((self.value_real >> 16u64) % 8);
                            Ok(off >> sh)
                        }
                    },
                }
            },
            ConstType::JRelative | ConstType::Real => Ok(self.value_real),
            ConstType::Spaceid => Ok(space_const_value_exec(self.value_spaceid)),
        }
    }

    /// The space the template names for the instruction `walker`
    /// describes.
    pub fn fix_space(&self, walker: &WalkerView) -> (r: Result<Option<AddrSpace>, FixError>)
        ensures
            r == spec_fix_space(*self, *walker),
    {
        match self.type_ {
            ConstType::JCurspace => Ok(Some(walker.cur_space)),
            ConstType::Handle => {
                let hand = match walker.get_fixed_handle(self.value_handle_index) {
                    Some(h) => h,
                    None => return Err(FixError::Unavailable),
                };
                if self.select == VField::VSpace {
                    if hand.offset_space.is_none() {
                        Ok(hand.space)
                    } else {
                        Ok(hand.temp_space)
                    }
                } else {
                    Err(FixError::NotASpace)
                }
            },
            ConstType::Spaceid => Ok(self.value_spaceid),
            ConstType::JFlowref => match walker.ref_addr {
                Some(a) => Ok(Some(a.space)),
                None => Err(FixError::Unavailable),
            },
            _ => Err(FixError::NotASpace),
        }
    }

    /// Fill in the space of `hand` from the template.  On failure `hand`
    /// is unchanged.
    pub fn fillin_space(&self, hand: &mut FixedHandle, walker: &WalkerView) -> (r: Result<(), FixError>)
        ensures
            match spec_fillin_space(*self, *walker) {
                Ok(sp) => r is Ok && *final(hand) == (FixedHandle { space: sp, ..*old(hand) }),
                Err(e) => r == Err::<(), FixError>(e) && *final(hand) == *old(hand),
            },
    {
        match self.type_ {
            ConstType::JCurspace => {
                hand.space = Some(walker.cur_space);
                Ok(())
            },
            ConstType::Handle => {
                let other = match walker.get_fixed_handle(self.value_handle_index) {
                    Some(h) => h,
                    None => return Err(FixError::Unavailable),
                };
                if self.select == VField::VSpace {
                    hand.space = other.space;
                    Ok(())
                } else {
                    Err(FixError::NotASpace)
                }
            },
            ConstType::Spaceid => {
                hand.space = self.value_spaceid;
                Ok(())
            },
            _ => Err(FixError::NotASpace),
        }
    }

    /// Fill in the offset of `hand` (whose space is already filled in)
    /// from the template: a handle's dynamic-offset parts are copied as
    /// they are; any other value is fixed and reduced into the space.
    pub fn fillin_offset(&self, hand: &mut FixedHandle, walker: &WalkerView) -> (r: Result<(), FixError>)
        requires
            self.type_ != ConstType::Handle && spec_fix(*self, *walker) is Ok ==> (old(hand).space matches Some(sp) && sp.word_size > 0),
        ensures
            self.type_ == ConstType::Handle ==> match walker.handle(self.value_handle_index) {
                Some(o) => r is Ok && *final(hand) == (FixedHandle {
                    offset_space: o.offset_space,
                    offset_offset: o.offset_offset,
                    offset_size: o.offset_size,
                    temp_space: o.temp_space,
                    temp_offset: o.temp_offset,
                    ..*old(hand)
                }),
                None => r == Err::<(), FixError>(FixError::Unavailable) && *final(hand) == *old(hand),
            },
            self.type_ != ConstType::Handle ==> match spec_fix(*self, *walker) {
                Ok(v) => r is Ok && *final(hand) == (FixedHandle {
                    offset_space: None,
                    offset_offset: AddrSpace::spec_wrap_offset(v, AddrSpace::spec_highest(
                        old(hand).space.unwrap().addr_size, old(hand).space.unwrap().word_size)),
                    ..*old(hand)
                }),
                Err(e) => r == Err::<(), FixError>(e) && *final(hand) == (FixedHandle { offset_space: None, ..*old(hand) }),
            },
    {
        if self.type_ == ConstType::Handle {
            let other = match walker.get_fixed_handle(self.value_handle_index) {
                Some(h) => h,
                None => return Err(FixError::Unavailable),
            };
            hand.offset_space = other.offset_space;
            hand.offset_offset = other.offset_offset;
            hand.offset_size = other.offset_size;
            hand.temp_space = other.temp_space;
            hand.temp_offset = other.temp_offset;
            Ok(())
        } else {
            hand.offset_space = None;
            let fixed = match self.fix(walker) {
                Ok(v) => v,
                Err(e) => return Err(e),
            };
            let sp = hand.space.unwrap();
            hand.offset_offset = sp.wrap_offset(fixed);
            Ok(())
        }
    }
}

/// The handle that `t` resolves to for the instruction `w` describes,
/// starting from `hand`, or why it resolves to none.
pub open spec fn spec_handle_fix(t: HandleTpl, hand: FixedHandle, w: WalkerView) -> Result<FixedHandle, FixError> {
    if t.ptrspace.type_ == ConstType::Real {
        // a static export, which may still name a dynamic operand
        match (spec_fillin_space(t.space, w), spec_fix(t.size, w)) {
            (Err(e), _) => Err(e),
            (Ok(_), Err(e)) => Err(e),
            (Ok(sp), Ok(sz)) => if t.ptroffset.type_ == ConstType::Handle {
                match w.handle(t.ptroffset.value_handle_index) {
                    None => Err(FixError::Unavailable),
                    Some(o) => Ok(FixedHandle {
                        space: sp,
                        size: sz as u32,
                        offset_space: o.offset_space,
                        offset_offset: o.offset_offset,
                        offset_size: o.offset_size,
                        temp_space: o.temp_space,
                        temp_offset: o.temp_offset,
                    }),
                }
            } else {
                match spec_fix(t.ptroffset, w) {
                    Err(e) => Err(e),
                    Ok(v) => Ok(FixedHandle {
                        space: sp,
                        size: sz as u32,
                        offset_space: None,
                        offset_offset: AddrSpace::spec_wrap_offset(v, AddrSpace::spec_highest(sp.unwrap().addr_size, sp.unwrap().word_size)),
                        ..hand
                    }),
                }
            },
        }
    } else {
        // a dynamic export: the offset is held in a pointer
        match (spec_fix_space(t.space, w), spec_fix(t.size, w), spec_fix(t.ptroffset, w), spec_fix_space(t.ptrspace, w)) {
            (Err(e), _, _, _) => Err(e),
            (Ok(_), Err(e), _, _) => Err(e),
            (Ok(_), Ok(_), Err(e), _) => Err(e),
            (Ok(_), Ok(_), Ok(_), Err(e)) => Err(e),
            (Ok(sp), Ok(sz), Ok(po), Ok(ps)) => if ps.unwrap().space_type == SpaceType::Constant {
                // the pointer turned out to be a constant: a static varnode
                Ok(FixedHandle {
                    space: sp,
                    size: sz as u32,
                    offset_space: None,
                    offset_offset: AddrSpace::spec_wrap_offset(
                        ((po as int * sp.unwrap().word_size as int) % 0x1_0000_0000_0000_0000) as u64,
                        AddrSpace::spec_highest(sp.unwrap().addr_size, sp.unwrap().word_size),
                    ),
                    ..hand
                })
            } else {
                match (spec_fix(t.ptrsize, w), spec_fix_space(t.temp_space, w), spec_fix(t.temp_offset, w)) {
                    (Err(e), _, _) => Err(e),
                    (Ok(_), Err(e), _) => Err(e),
                    (Ok(_), Ok(_), Err(e)) => Err(e),
                    (Ok(psz), Ok(ts), Ok(to)) => Ok(FixedHandle {
                        space: sp,
                        size: sz as u32,
                        offset_space: ps,
                        offset_offset: po,
                        offset_size: psz as u32,
                        temp_space: ts,
                        temp_offset: to,
                    }),
                }
            },
        }
    }
}

/// Can `t` be resolved for the instruction `w` describes without reading
/// a space that is not there: every space that resolving scales by or
/// reduces into is present with a nonzero word size, and a dynamic
/// export's pointer names a space.
pub open spec fn handle_fix_defined(t: HandleTpl, w: WalkerView) -> bool {
    if t.ptrspace.type_ == ConstType::Real {
        (t.ptroffset.type_ != ConstType::Handle && spec_fillin_space(t.space, w) is Ok && spec_fix(t.size, w) is Ok
            && spec_fix(t.ptroffset, w) is Ok) ==> (spec_fillin_space(t.space, w)->Ok_0 matches Some(sp) && sp.word_size > 0)
    } else {
        (spec_fix_space(t.space, w) is Ok && spec_fix(t.size, w) is Ok && spec_fix(t.ptroffset, w) is Ok
            && spec_fix_space(t.ptrspace, w) is Ok) ==> {
            &&& spec_fix_space(t.ptrspace, w)->Ok_0 is Some
            &&& spec_fix_space(t.ptrspace, w)->Ok_0.unwrap().space_type == SpaceType::Constant
                ==> (spec_fix_space(t.space, w)->Ok_0 matches Some(sp) && sp.word_size > 0)
        }
    }
}

impl HandleTpl {
    /// Resolve the handle template into `hand` for the instruction
    /// `walker` describes.
    pub fn fix(&self, hand: &mut FixedHandle, walker: &WalkerView) -> (r: Result<(), FixError>)
        requires
            handle_fix_defined(*self, *walker),
        ensures
            match spec_handle_fix(*self, *old(hand), *walker) {
                Ok(h) => r is Ok && *final(hand) == h,
                Err(e) => r == Err::<(), FixError>(e),
            },
    {
        if self.ptrspace.type_ == ConstType::Real {
            match self.space.fillin_space(hand, walker) {
                Ok(()) => {},
                Err(e) => return Err(e),
            }
            let sz = match self.size.fix(walker) {
                Ok(v) => v,
                Err(e) => return Err(e),
            };
            hand.size = sz as u32;
            self.ptroffset.fillin_offset(hand, walker)
        } else {
            let sp = match self.space.fix_space(walker) {
                Ok(v) => v,
                Err(e) => return Err(e),
            };
            hand.space = sp;
            let sz = match self.size.fix(walker) {
                Ok(v) => v,
                Err(e) => return Err(e),
            };
            hand.size = sz as u32;
            let po = match self.ptroffset.fix(walker) {
                Ok(v) => v,
                Err(e) => return Err(e),
            };
            hand.offset_offset = po;
            let ps = match self.ptrspace.fix_space(walker) {
                Ok(v) => v,
                Err(e) => return Err(e),
            };
            hand.offset_space = ps;
            let pspace = ps.unwrap();
            if pspace.space_type == SpaceType::Constant {
                // the pointer turned out to be a constant
                hand.offset_space = None;
                let space = sp.unwrap();
                let bytes = AddrSpace::address_to_byte(po, space.word_size);
                hand.offset_offset = space.wrap_offset(bytes);
            } else {
                let psz = match self.ptrsize.fix(walker) {
                    Ok(v) => v,
                    Err(e) => return Err(e),
                };
                hand.offset_size = psz as u32;
                let ts = match self.temp_space.fix_space(walker) {
                    Ok(v) => v,
                    Err(e) => return Err(e),
                };
                hand.temp_space = ts;
                let to = match self.temp_offset.fix(walker) {
                    Ok(v) => v,
                    Err(e) => return Err(e),
                };
                hand.temp_offset = to;
            }
            Ok(())
        }
    }
}

/// The operand a build op builds: its first input's offset, as a 32-bit
/// index.
pub open spec fn build_index(op: OpTpl) -> i32 {
    op.input@[0].offset.value_real as i32
}

/// Do all build ops of `ops` have an input naming an operand below `n`?
pub open spec fn builds_below(ops: Seq<OpTpl>, n: int) -> bool {
    forall|k: int| 0 <= k < ops.len() && (#[trigger] ops[k]).opc == spec_build_op()
        ==> ops[k].input@.len() > 0 && 0 <= build_index(ops[k]) < n
}

/// Mark the operands that the build ops of `ops` build, in order: the
/// marks afterwards, and the mark found already set on an operand, if
/// any, where the scan stopped.
pub open spec fn build_scan(check: Seq<i32>, ops: Seq<OpTpl>) -> (Seq<i32>, Option<i32>)
    decreases ops.len(),
{
    if ops.len() == 0 {
        (check, None)
    } else if ops[0].opc == spec_build_op() {
        let i = build_index(ops[0]) as int;
        if check[i] != 0 {
            (check, Some(check[i]))
        } else {
            build_scan(check.update(i, 1), ops.drop_first())
        }
    } else {
        build_scan(check, ops.drop_first())
    }
}

/// The build op for operand `i`.
pub open spec fn build_op_view(i: int, cs: AddrSpace) -> (Option<VarnodeTpl>, OpCode, Seq<VarnodeTpl>) {
    op_value(None, spec_build_op(), seq![VarnodeTpl {
        space: ConstTpl::spec_space_const(cs),
        offset: ConstTpl::spec_real_const(ConstType::Real, i as u64),
        size: ConstTpl::spec_real_const(ConstType::Real, 4),
        unnamed_flag: false,
    }])
}

/// Build ops for the operands below `n` that are unmarked in `check`,
/// highest operand first.
pub open spec fn missing_builds(check: Seq<i32>, n: int, cs: AddrSpace) -> Seq<(Option<VarnodeTpl>, OpCode, Seq<VarnodeTpl>)>
    decreases n,
{
    if n <= 0 {
        seq![]
    } else if check[n - 1] == 0 {
        seq![build_op_view(n - 1, cs)] + missing_builds(check, n - 1, cs)
    } else {
        missing_builds(check, n - 1, cs)
    }
}

impl VarnodeTpl {
    /// Is the varnode's offset dynamic for the instruction `walker`
    /// describes (its offset is a handle whose resolution is dynamic)?
    pub fn is_dynamic(&self, walker: &WalkerView) -> (r: Result<bool, FixError>)
        ensures
            self.offset.type_ != ConstType::Handle ==> r == Ok::<bool, FixError>(false),
            self.offset.type_ == ConstType::Handle ==> r == match walker.handle(self.offset.value_handle_index) {
                Some(h) => Ok::<bool, FixError>(h.offset_space is Some),
                None => Err(FixError::Unavailable),
            },
    {
        if self.offset.type_ != ConstType::Handle {
            return Ok(false);
        }
        match walker.get_fixed_handle(self.offset.value_handle_index) {
            Some(h) => Ok(h.offset_space.is_some()),
            None => Err(FixError::Unavailable),
        }
    }
}

impl ConstructTpl {
    /// Make sure every operand below `check.len()` is built: mark the
    /// operand of each build op in `check`; a mark already set (a second
    /// build of an operand, or an operand that is no subtable) is
    /// returned at once.  Then a build op is put in front for each
    /// unmarked operand and 0 is returned.
    pub fn fillin_build(&mut self, check: &mut [i32], const_space: AddrSpace) -> (r: i32)
        requires
            builds_below(old(self).vec@, old(check)@.len() as int),
        ensures
            final(check)@ == build_scan(old(check)@, old(self).vec@).0,
            build_scan(old(check)@, old(self).vec@).1 matches Some(e) ==> {
                &&& r == e
                &&& final(self).vec@ == old(self).vec@
                &&& final(self).delayslot == old(self).delayslot
                &&& final(self).numlabels == old(self).numlabels
                &&& final(self).result == old(self).result
            },
            build_scan(old(check)@, old(self).vec@).1 is None ==> {
                &&& r == 0
                &&& final(self).delayslot == old(self).delayslot
                &&& final(self).numlabels == old(self).numlabels
                &&& final(self).result == old(self).result
                &&& final(self).vec@.map_values(|o: OpTpl| o@) == missing_builds(
                    build_scan(old(check)@, old(self).vec@).0, old(check)@.len() as int, const_space)
                    + old(self).vec@.map_values(|o: OpTpl| o@)
            },
    {
        let ghost ops0 = self.vec@;
        let ghost chk0 = check@;
        proof {
            assert(ops0.subrange(0, ops0.len() as int) =~= ops0);
        }
        let mut k: usize = 0;
        while k < self.vec.len()
            invariant
                ops0 == self.vec@,
                ops0 == old(self).vec@,
                chk0 == old(check)@,
                self.delayslot == old(self).delayslot,
                self.numlabels == old(self).numlabels,
                self.result == old(self).result,
                k <= ops0.len(),
                check@.len() == chk0.len(),
                builds_below(ops0, chk0.len() as int),
                build_scan(chk0, ops0) == build_scan(check@, ops0.subrange(k as int, ops0.len() as int)),
            decreases ops0.len() - k,
        {
            let ghost rest = ops0.subrange(k as int, ops0.len() as int);
            proof {
                assert(rest[0] == ops0[k as int]);
                assert(rest.drop_first() =~= ops0.subrange(k + 1, ops0.len() as int));
            }
            if self.vec[k].opc == build_op() {
                let idx: i32 = self.vec[k].input[0].offset.value_real as i32;
                proof {
                    assert(ops0[k as int].opc == spec_build_op());
                    assert(build_index(rest[0]) == idx);
                }
                let mark = check[idx as usize];
                if mark != 0 {
                    proof {
                        assert(build_scan(check@, rest) == (check@, Some(mark)));
                    }
                    return mark;
                }
                check[idx as usize] = 1;
            }
            k += 1;
        }
        proof {
            assert(ops0.subrange(ops0.len() as int, ops0.len() as int) =~= Seq::<OpTpl>::empty());
        }
        let ghost chk = check@;
        let ghost oldv = ops0.map_values(|o: OpTpl| o@);
        let mut i: usize = 0;
        while i < check.len()
            invariant
                check@ == chk,
                i <= chk.len(),
                self.delayslot == old(self).delayslot,
                self.numlabels == old(self).numlabels,
                self.result == old(self).result,
                self.vec@.map_values(|o: OpTpl| o@) == missing_builds(chk, i as int, const_space) + oldv,
            decreases chk.len() - i,
        {
            if check[i] == 0 {
                let mut op = OpTpl::new(build_op());
                let indvn = VarnodeTpl::new(
                    ConstTpl::new_space(const_space),
                    ConstTpl::new_real(ConstType::Real, i as u64),
                    ConstTpl::new_real(ConstType::Real, 4),
                );
                op.add_input(indvn);
                let ghost before = self.vec@;
                self.vec.insert(0, op);
                proof {
                    assert(self.vec@ == before.insert(0, op));
                    assert(self.vec@.map_values(|o: OpTpl| o@) =~= seq![op@] + before.map_values(|o: OpTpl| o@));
                    assert(op@ == build_op_view(i as int, const_space));
                }
            }
            i += 1;
        }
        0
    }

    /// Renumber the handle references of every op and of the export: a
    /// build op's operand index is looked up in `handmap`; other ops and
    /// the export have their handle references renumbered.
    pub fn change_handle_index(&mut self, handmap: &[i32])
        requires
            builds_below(old(self).vec@, handmap@.len() as int),
            forall|k: int| 0 <= k < old(self).vec@.len() && (#[trigger] old(self).vec@[k]).opc != spec_build_op()
                ==> old(self).vec@[k].handles_below(handmap@.len() as int),
            old(self).result matches Some(h) ==> h.handles_below(handmap@.len() as int),
        ensures
            final(self).vec@.len() == old(self).vec@.len(),
            final(self).delayslot == old(self).delayslot,
            final(self).numlabels == old(self).numlabels,
            old(self).result is None ==> final(self).result is None,
            old(self).result matches Some(h) ==> final(self).result matches Some(g) && g == (HandleTpl {
                space: h.space.remapped(handmap@),
                size: h.size.remapped(handmap@),
                ptrspace: h.ptrspace.remapped(handmap@),
                ptroffset: h.ptroffset.remapped(handmap@),
                ptrsize: h.ptrsize.remapped(handmap@),
                temp_space: h.temp_space.remapped(handmap@),
                temp_offset: h.temp_offset.remapped(handmap@),
            }),
            forall|k: int| 0 <= k < old(self).vec@.len() && (#[trigger] old(self).vec@[k]).opc == spec_build_op() ==> {
                let o = old(self).vec@[k];
                final(self).vec@[k]@ == op_value(o.output, o.opc, o.input@.update(0, VarnodeTpl {
                    offset: ConstTpl::spec_real_const(ConstType::Real, handmap@[build_index(o) as int] as i64 as u64),
                    ..o.input@[0]
                }))
            },
            forall|k: int| 0 <= k < old(self).vec@.len() && (#[trigger] old(self).vec@[k]).opc != spec_build_op() ==> {
                let o = old(self).vec@[k];
                &&& final(self).vec@[k].opc == o.opc
                &&& final(self).vec@[k].input@ == o.input@.map_values(|v: VarnodeTpl| v.remapped(handmap@))
                &&& (o.output is None ==> final(self).vec@[k].output is None)
                &&& (o.output matches Some(x) ==> final(self).vec@[k].output == Some(x.remapped(handmap@)))
            },
    {
        let ghost ops0 = self.vec@;
        let mut k: usize = 0;
        while k < self.vec.len()
            invariant
                k <= self.vec@.len(),
                self.vec@.len() == ops0.len(),
                self.delayslot == old(self).delayslot,
                self.numlabels == old(self).numlabels,
                self.result == old(self).result,
                ops0 == old(self).vec@,
                builds_below(ops0, handmap@.len() as int),
                forall|j: int| 0 <= j < ops0.len() && (#[trigger] ops0[j]).opc != spec_build_op()
                    ==> ops0[j].handles_below(handmap@.len() as int),
                forall|j: int| k <= j < ops0.len() ==> #[trigger] self.vec@[j] == ops0[j],
                forall|j: int| 0 <= j < k && (#[trigger] ops0[j]).opc == spec_build_op() ==> {
                    let o = ops0[j];
                    self.vec@[j]@ == op_value(o.output, o.opc, o.input@.update(0, VarnodeTpl {
                        offset: ConstTpl::spec_real_const(ConstType::Real, handmap@[build_index(o) as int] as i64 as u64),
                        ..o.input@[0]
                    }))
                },
                forall|j: int| 0 <= j < k && (#[trigger] ops0[j]).opc != spec_build_op() ==> {
                    let o = ops0[j];
                    &&& self.vec@[j].opc == o.opc
                    &&& self.vec@[j].input@ == o.input@.map_values(|v: VarnodeTpl| v.remapped(handmap@))
                    &&& (o.output is None ==> self.vec@[j].output is None)
                    &&& (o.output matches Some(x) ==> self.vec@[j].output == Some(x.remapped(handmap@)))
                },
            decreases ops0.len() - k,
        {
            let mut op = self.vec[k].duplicate();
            if op.opc == build_op() {
                let index: i32 = op.input[0].offset.value_real as i32;
                let newindex: i32 = handmap[index as usize];
                let mut vn = op.input[0];
                vn.set_offset(newindex as i64 as u64);
                op.set_input(vn, 0);
            } else {
                op.change_handle_index(handmap);
                proof {
                    assert(op.input@ =~= ops0[k as int].input@.map_values(|v: VarnodeTpl| v.remapped(handmap@)));
                }
            }
            self.vec.set(k, op);
            k += 1;
        }
        if let Some(h) = self.result {
            let mut h2 = h;
            h2.change_handle_index(handmap);
            self.result = Some(h2);
        }
    }
}


/// Which callback of a [`PcodeBuilder`] an op template goes to.
#[derive(Debug, Clone, Copy, PartialEq, Eq, Structural)]
pub enum BuildAction {
    /// A build of a subtable operand.
    AppendBuild,
    /// A delay slot.
    DelaySlot,
    /// A label placement.
    SetLabel,
    /// A cross build.
    CrossBuild,
    /// Any other op, emitted as it is.
    Dump,
}

/// The callback that an op with code `opc` is handed to while a template is
/// built.
pub open spec fn spec_build_action(opc: OpCode) -> BuildAction {
    if opc == spec_build_op() {
        BuildAction::AppendBuild
    } else if opc == spec_delay_slot_op() {
        BuildAction::DelaySlot
    } else if opc == spec_label_build_op() {
        BuildAction::SetLabel
    } else if opc == OpCode::CPUI_PTRSUB {
        BuildAction::CrossBuild
    } else {
        BuildAction::Dump
    }
}

/// The callback that an op with code `opc` is handed to.
pub fn build_action(opc: OpCode) -> (r: BuildAction)
    ensures
        r == spec_build_action(opc),
{
    match opc {
        OpCode::CPUI_MULTIEQUAL => BuildAction::AppendBuild,
        OpCode::CPUI_INDIRECT => BuildAction::DelaySlot,
        OpCode::CPUI_PTRADD => BuildAction::SetLabel,
        OpCode::CPUI_PTRSUB => BuildAction::CrossBuild,
        _ => BuildAction::Dump,
    }
}

/// Does every op of `ops` go to a callback that builds no other template
/// (an emitted op or a label placement)?
pub open spec fn flat_template(ops: Seq<OpTpl>) -> bool {
    forall|i: int| 0 <= i < ops.len() ==> #[trigger] spec_build_action(ops[i].opc) == BuildAction::Dump
        || spec_build_action(ops[i].opc) == BuildAction::SetLabel
}

/// Why building p-code from a template stopped.
#[derive(Debug, Clone, PartialEq, Eq)]
pub enum BuildError {
    /// The constructor has no p-code template.
    Unimplemented,
    /// A callback of the builder failed, with its message.
    Failed(String),
}

/// A generator of p-code from construct templates.  Implementors keep the
/// label base and label count (both start at the same value) and emit the
/// ops; [`PcodeBuilder::build`] walks a template and hands each op to the
/// callback for its kind.  Emitting an op or placing a label leaves the
/// label fields alone; the callbacks that build other templates (a
/// subtable operand, a delay slot, a cross build) do so through `build`,
/// which hands out labels of its own.
pub trait PcodeBuilder: Sized {
    /// The first label number of the template being built.
    spec fn label_base_of(&self) -> u32;

    /// The number of labels handed out so far.
    spec fn label_count_of(&self) -> u32;

    /// The first label number of the template being built.
    fn get_label_base(&self) -> (r: u32)
        ensures
            r == self.label_base_of(),
    ;

    /// Set the label base.
    fn set_label_base(&mut self, val: u32)
        ensures
            final(self).label_base_of() == val,
            final(self).label_count_of() == old(self).label_count_of(),
    ;

    /// The number of labels handed out so far.
    fn get_label_count(&self) -> (r: u32)
        ensures
            r == self.label_count_of(),
    ;

    /// Set the label count.
    fn set_label_count(&mut self, val: u32)
        ensures
            final(self).label_count_of() == val,
            final(self).label_base_of() == old(self).label_base_of(),
    ;

    /// Emit an ordinary op.
    fn dump(&mut self, op: &OpTpl) -> (r: Result<(), BuildError>)
        ensures
            final(self).label_base_of() == old(self).label_base_of(),
            final(self).label_count_of() == old(self).label_count_of(),
    ;

    /// Build the subtable operand that `bld` names, in section `secnum`.
    fn append_build(&mut self, bld: &OpTpl, secnum: i32) -> (r: Result<(), BuildError>)
    ;

    /// Build the instruction in the delay slot.
    fn delay_slot(&mut self, op: &OpTpl) -> (r: Result<(), BuildError>)
    ;

    /// Place a label.
    fn set_label(&mut self, op: &OpTpl) -> (r: Result<(), BuildError>)
        ensures
            final(self).label_base_of() == old(self).label_base_of(),
            final(self).label_count_of() == old(self).label_count_of(),
    ;

    /// Build a section of another instruction.
    fn append_cross_build(&mut self, bld: &OpTpl, secnum: i32) -> (r: Result<(), BuildError>)
    ;

    /// Generate p-code from `construct`, section `secnum`: no template is
    /// refused as unimplemented; otherwise the template's labels are
    /// numbered from the current label count, which grows by their number
    /// (wrapping) before the walk, each op goes to the callback that
    /// [`build_action`] names for its code, in order, and the label base is
    /// restored at the end.  The first failing callback stops the walk with
    /// its error.  Labels handed out by nested builds come on top, so only
    /// for a template that builds no other one is the final count fixed.
    fn build(&mut self, construct: Option<&ConstructTpl>, secnum: i32) -> (r: Result<(), BuildError>)
        ensures
            construct is None ==> r == Err::<(), BuildError>(BuildError::Unimplemented) && *final(self) == *old(self),
            construct matches Some(c) ==> (r is Ok ==> final(self).label_base_of() == old(self).label_base_of()),
            construct matches Some(c) ==> (r is Ok && flat_template(c.vec@) ==> final(self).label_count_of()
                == vstd::wrapping::u32_specs::wrapping_add(old(self).label_count_of(), c.numlabels)),
    {
        let tpl = match construct {
            None => return Err(BuildError::Unimplemented),
            Some(c) => c,
        };
        let oldbase = self.get_label_base();
        let count = self.get_label_count();
        self.set_label_base(count);
        self.set_label_count(count.wrapping_add(tpl.num_labels()));
        let ops = tpl.get_opvec();
        let mut i: usize = 0;
        while i < ops.len()
            invariant
                0 <= i <= ops@.len(),
                ops@ == tpl.vec@,
                construct == Some(tpl),
                flat_template(tpl.vec@) ==> self.label_count_of() == vstd::wrapping::u32_specs::wrapping_add(count, tpl.numlabels),
            decreases ops@.len() - i,
        {
            let op = &ops[i];
            match build_action(op.get_opcode()) {
                BuildAction::AppendBuild => self.append_build(op, secnum)?,
                BuildAction::DelaySlot => self.delay_slot(op)?,
                BuildAction::SetLabel => self.set_label(op)?,
                BuildAction::CrossBuild => self.append_cross_build(op, secnum)?,
                BuildAction::Dump => self.dump(op)?,
            }
            i += 1;
        }
        self.set_label_base(oldbase);
        Ok(())
    }
}

} // verus!
