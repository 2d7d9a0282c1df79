//! The encoded form of p-code templates: a stream of element and attribute
//! events, written by the templates' `encode` methods and read back by their
//! `decode` methods.
use vstd::prelude::*;

use crate::opcode::OpCode;
use crate::semantics::{ConstTpl, ConstType, ConstructTpl, HandleTpl, OpTpl, VField, VarnodeTpl};
use crate::space::AddrSpace;

verus! {

/// The elements of the template encoding.
#[derive(Debug, Clone, Copy, PartialEq, Eq, Structural)]
pub enum ElementId {
    /// A real constant.
    ConstReal,
    /// A handle reference.
    ConstHandle,
    /// The instruction start.
    ConstStart,
    /// The next instruction.
    ConstNext,
    /// The instruction after the next.
    ConstNext2,
    /// The current space.
    ConstCurspace,
    /// The current space's address size.
    ConstCurspaceSize,
    /// A specific space.
    ConstSpaceid,
    /// A relative (label) offset.
    ConstRelative,
    /// The flow reference.
    ConstFlowref,
    /// The flow reference's size.
    ConstFlowrefSize,
    /// The flow destination.
    ConstFlowdest,
    /// The flow destination's size.
    ConstFlowdestSize,
    /// A varnode template.
    VarnodeTpl,
    /// A handle template.
    HandleTpl,
    /// An op template.
    OpTpl,
    /// An absent output or result.
    Null,
    /// A construct template.
    ConstructTpl,
}

/// The attributes of the template encoding.
#[derive(Debug, Clone, Copy, PartialEq, Eq, Structural)]
pub enum AttributeId {
    /// A value.
    Val,
    /// A handle field selector.
    S,
    /// A truncation amount.
    Plus,
    /// A space.
    Space,
    /// An op code.
    Code,
    /// A section number.
    Section,
    /// A delay-slot size.
    Delay,
    /// A label count.
    Labels,
}

/// One step of an encoding: an element opens or closes, or the open element
/// gets an attribute.
#[derive(Debug, Clone, Copy, PartialEq, Eq, Structural)]
pub enum MarshalEvent {
    /// An element opens.
    Open(ElementId),
    /// An element closes.
    Close(ElementId),
    /// An unsigned integer attribute.
    Unsigned(AttributeId, u64),
    /// A signed integer attribute.
    Signed(AttributeId, i64),
    /// A space attribute.
    Space(AttributeId, AddrSpace),
    /// An op-code attribute.
    Opcode(AttributeId, OpCode),
}

/// Why decoding failed.
#[derive(Debug, Clone, Copy, PartialEq, Eq, Structural)]
pub enum DecodeError {
    /// The stream ended inside an element.
    UnexpectedEnd,
    /// An element opened where another one was expected.
    UnexpectedElement,
    /// An element did not close where it should.
    MissingClose,
    /// A required attribute is absent or of the wrong kind.
    MissingAttribute,
    /// A handle selector outside the four fields.
    BadHandleSelector,
    /// An element that is no constant where a constant was expected.
    BadConstantType,
}

impl DecodeError {
    /// A description of the error.
    pub fn explain(&self) -> (r: &'static str)
        ensures
            r@ == match self {
                DecodeError::UnexpectedEnd => "Unexpected end of stream"@,
                DecodeError::UnexpectedElement => "Unexpected element"@,
                DecodeError::MissingClose => "Expecting element close"@,
                DecodeError::MissingAttribute => "Missing attribute"@,
                DecodeError::BadHandleSelector => "Bad handle selector encoding"@,
                DecodeError::BadConstantType => "Bad constant type"@,
            },
    {
        match self {
            DecodeError::UnexpectedEnd => "Unexpected end of stream",
            DecodeError::UnexpectedElement => "Unexpected element",
            DecodeError::MissingClose => "Expecting element close",
            DecodeError::MissingAttribute => "Missing attribute",
            DecodeError::BadHandleSelector => "Bad handle selector encoding",
            DecodeError::BadConstantType => "Bad constant type",
        }
    }
}

/// The number of a handle field in the encoding.
pub open spec fn select_code(v: VField) -> i64 {
    match v {
        VField::VSpace => 0,
        VField::VOffset => 1,
        VField::VSize => 2,
        VField::VOffsetPlus => 3,
    }
}

/// The element of a constant of kind `t` that carries no data.
pub open spec fn plain_const_element(t: ConstType) -> ElementId {
    match t {
        ConstType::JStart => ElementId::ConstStart,
        ConstType::JNext => ElementId::ConstNext,
        ConstType::JNext2 => ElementId::ConstNext2,
        ConstType::JCurspace => ElementId::ConstCurspace,
        ConstType::JCurspaceSize => ElementId::ConstCurspaceSize,
        ConstType::JFlowref => ElementId::ConstFlowref,
        ConstType::JFlowrefSize => ElementId::ConstFlowrefSize,
        ConstType::JFlowdest => ElementId::ConstFlowdest,
        ConstType::JFlowdestSize => ElementId::ConstFlowdestSize,
        ConstType::Real => ElementId::ConstReal,
        ConstType::Handle => ElementId::ConstHandle,
        ConstType::Spaceid => ElementId::ConstSpaceid,
        ConstType::JRelative => ElementId::ConstRelative,
    }
}

/// The encoding of a constant: its element, with the value (real and
/// relative), the handle index, field and, for the offset-plus field, the
/// truncation amount (handle), or the space (space id).
pub open spec fn const_events(c: ConstTpl) -> Seq<MarshalEvent> {
    match c.type_ {
        ConstType::Real => seq![
            MarshalEvent::Open(ElementId::ConstReal),
            MarshalEvent::Unsigned(AttributeId::Val, c.value_real),
            MarshalEvent::Close(ElementId::ConstReal),
        ],
        ConstType::Handle => if c.select == VField::VOffsetPlus {
            seq![
                MarshalEvent::Open(ElementId::ConstHandle),
                MarshalEvent::Signed(AttributeId::Val, c.value_handle_index as i64),
                MarshalEvent::Signed(AttributeId::S, select_code(c.select)),
                MarshalEvent::Unsigned(AttributeId::Plus, c.value_real),
                MarshalEvent::Close(ElementId::ConstHandle),
            ]
        } else {
            seq![
                MarshalEvent::Open(ElementId::ConstHandle),
                MarshalEvent::Signed(AttributeId::Val, c.value_handle_index as i64),
                MarshalEvent::Signed(AttributeId::S, select_code(c.select)),
                MarshalEvent::Close(ElementId::ConstHandle),
            ]
        },
        ConstType::Spaceid => seq![
            MarshalEvent::Open(ElementId::ConstSpaceid),
            MarshalEvent::Space(AttributeId::Space, c.value_spaceid->0),
            MarshalEvent::Close(ElementId::ConstSpaceid),
        ],
        ConstType::JRelative => seq![
            MarshalEvent::Open(ElementId::ConstRelative),
            MarshalEvent::Unsigned(AttributeId::Val, c.value_real),
            MarshalEvent::Close(ElementId::ConstRelative),
        ],
        _ => seq![
            MarshalEvent::Open(plain_const_element(c.type_)),
            MarshalEvent::Close(plain_const_element(c.type_)),
        ],
    }
}

/// The constant that decoding gives back: the kind and exactly the data the
/// encoding keeps, every other field at its default.
pub open spec fn decoded_const(c: ConstTpl) -> ConstTpl {
    match c.type_ {
        ConstType::Real => ConstTpl { value_real: c.value_real, ..default_const(ConstType::Real) },
        ConstType::JRelative => ConstTpl { value_real: c.value_real, ..default_const(ConstType::JRelative) },
        ConstType::Handle => ConstTpl {
            value_handle_index: c.value_handle_index,
            select: c.select,
            value_real: if c.select == VField::VOffsetPlus { c.value_real } else { 0 },
            ..default_const(ConstType::Handle)
        },
        ConstType::Spaceid => ConstTpl { value_spaceid: c.value_spaceid, ..default_const(ConstType::Spaceid) },
        _ => default_const(c.type_),
    }
}

/// A constant of kind `t` with every field at its default.
pub open spec fn default_const(t: ConstType) -> ConstTpl {
    ConstTpl { type_: t, value_spaceid: None, value_handle_index: 0, value_real: 0, select: VField::VSpace }
}

/// Is the event an attribute?
pub open spec fn is_attribute(e: MarshalEvent) -> bool {
    match e {
        MarshalEvent::Open(_) | MarshalEvent::Close(_) => false,
        _ => true,
    }
}

/// The attribute an attribute event carries.
pub open spec fn attribute_of(e: MarshalEvent) -> AttributeId {
    match e {
        MarshalEvent::Unsigned(a, _) => a,
        MarshalEvent::Signed(a, _) => a,
        MarshalEvent::Space(a, _) => a,
        MarshalEvent::Opcode(a, _) => a,
        _ => AttributeId::Val,
    }
}

/// The position of the first attribute `a` in the run of attributes from
/// `i` on, if any.
pub open spec fn find_attribute(ev: Seq<MarshalEvent>, i: int, a: AttributeId) -> Option<int>
    decreases ev.len() - i,
{
    if i < 0 || i >= ev.len() || !is_attribute(ev[i]) {
        None
    } else if attribute_of(ev[i]) == a {
        Some(i)
    } else {
        find_attribute(ev, i + 1, a)
    }
}

/// The position just past the run of attributes from `i` on.
pub open spec fn attributes_end(ev: Seq<MarshalEvent>, i: int) -> int
    decreases ev.len() - i,
{
    if i < 0 || i >= ev.len() || !is_attribute(ev[i]) {
        i
    } else {
        attributes_end(ev, i + 1)
    }
}

/// The unsigned attribute `a` of the element whose attributes start at `i`.
pub open spec fn unsigned_attribute(ev: Seq<MarshalEvent>, i: int, a: AttributeId) -> Option<u64> {
    match find_attribute(ev, i, a) {
        Some(k) => match ev[k] {
            MarshalEvent::Unsigned(_, v) => Some(v),
            _ => None,
        },
        None => None,
    }
}

/// The signed attribute `a` of the element whose attributes start at `i`.
pub open spec fn signed_attribute(ev: Seq<MarshalEvent>, i: int, a: AttributeId) -> Option<i64> {
    match find_attribute(ev, i, a) {
        Some(k) => match ev[k] {
            MarshalEvent::Signed(_, v) => Some(v),
            _ => None,
        },
        None => None,
    }
}

/// The space attribute `a` of the element whose attributes start at `i`.
pub open spec fn space_attribute(ev: Seq<MarshalEvent>, i: int, a: AttributeId) -> Option<AddrSpace> {
    match find_attribute(ev, i, a) {
        Some(k) => match ev[k] {
            MarshalEvent::Space(_, s) => Some(s),
            _ => None,
        },
        None => None,
    }
}

/// The field with encoding number `n`.
pub open spec fn select_of_code(n: u32) -> Option<VField> {
    if n == 0 {
        Some(VField::VSpace)
    } else if n == 1 {
        Some(VField::VOffset)
    } else if n == 2 {
        Some(VField::VSize)
    } else if n == 3 {
        Some(VField::VOffsetPlus)
    } else {
        None
    }
}

/// The constant (with its data, before the element closes) that the
/// element `el`, whose attributes start at `i`, decodes to.
pub open spec fn const_body(ev: Seq<MarshalEvent>, el: ElementId, i: int) -> Result<ConstTpl, DecodeError> {
    match el {
        ElementId::ConstReal => match unsigned_attribute(ev, i, AttributeId::Val) {
            Some(v) => Ok(ConstTpl { value_real: v, ..default_const(ConstType::Real) }),
            None => Err(DecodeError::MissingAttribute),
        },
        ElementId::ConstRelative => match unsigned_attribute(ev, i, AttributeId::Val) {
            Some(v) => Ok(ConstTpl { value_real: v, ..default_const(ConstType::JRelative) }),
            None => Err(DecodeError::MissingAttribute),
        },
        ElementId::ConstHandle => match signed_attribute(ev, i, AttributeId::Val) {
            None => Err(DecodeError::MissingAttribute),
            Some(h) => match signed_attribute(ev, i, AttributeId::S) {
                None => Err(DecodeError::MissingAttribute),
                Some(s) => match select_of_code(s as u32) {
                    None => Err(DecodeError::BadHandleSelector),
                    Some(sel) => if sel == VField::VOffsetPlus {
                        match unsigned_attribute(ev, i, AttributeId::Plus) {
                            Some(p) => Ok(ConstTpl {
                                value_handle_index: h as i32,
                                select: sel,
                                value_real: p,
                                ..default_const(ConstType::Handle)
                            }),
                            None => Err(DecodeError::MissingAttribute),
                        }
                    } else {
                        Ok(ConstTpl { value_handle_index: h as i32, select: sel, ..default_const(ConstType::Handle) })
                    },
                },
            },
        },
        ElementId::ConstSpaceid => match space_attribute(ev, i, AttributeId::Space) {
            Some(s) => Ok(ConstTpl { value_spaceid: Some(s), ..default_const(ConstType::Spaceid) }),
            None => Err(DecodeError::MissingAttribute),
        },
        ElementId::ConstStart => Ok(default_const(ConstType::JStart)),
        ElementId::ConstNext => Ok(default_const(ConstType::JNext)),
        ElementId::ConstNext2 => Ok(default_const(ConstType::JNext2)),
        ElementId::ConstCurspace => Ok(default_const(ConstType::JCurspace)),
        ElementId::ConstCurspaceSize => Ok(default_const(ConstType::JCurspaceSize)),
        ElementId::ConstFlowref => Ok(default_const(ConstType::JFlowref)),
        ElementId::ConstFlowrefSize => Ok(default_const(ConstType::JFlowrefSize)),
        ElementId::ConstFlowdest => Ok(default_const(ConstType::JFlowdest)),
        ElementId::ConstFlowdestSize => Ok(default_const(ConstType::JFlowdestSize)),
        _ => Err(DecodeError::BadConstantType),
    }
}

/// The constant encoded at position `pos`, and the position after it.
pub open spec fn spec_decode_const(ev: Seq<MarshalEvent>, pos: int) -> Result<(ConstTpl, int), DecodeError> {
    if pos < 0 || pos >= ev.len() {
        Err(DecodeError::UnexpectedEnd)
    } else {
        match ev[pos] {
            MarshalEvent::Open(el) => match const_body(ev, el, pos + 1) {
                Err(e) => Err(e),
                Ok(c) => {
                    let e = attributes_end(ev, pos + 1);
                    if e >= ev.len() {
                        Err(DecodeError::UnexpectedEnd)
                    } else if ev[e] == MarshalEvent::Close(el) {
                        Ok((c, e + 1))
                    } else {
                        Err(DecodeError::MissingClose)
                    }
                },
            },
            _ => Err(DecodeError::UnexpectedElement),
        }
    }
}

/// The position of the first attribute `a` in the run of attributes from
/// `i` on.
fn find_attribute_exec(ev: &[MarshalEvent], i: usize, a: AttributeId) -> (r: Option<usize>)
    ensures
        match r {
            Some(k) => find_attribute(ev@, i as int, a) == Some(k as int) && i <= k < ev@.len(),
            None => find_attribute(ev@, i as int, a) is None,
        },
    decreases ev@.len() - i,
{
    if i >= ev.len() {
        return None;
    }
    match ev[i] {
        MarshalEvent::Open(_) | MarshalEvent::Close(_) => None,
        MarshalEvent::Unsigned(b, _) | MarshalEvent::Signed(b, _) | MarshalEvent::Space(b, _) | MarshalEvent::Opcode(b, _) => {
            if b == a {
                Some(i)
            } else {
                find_attribute_exec(ev, i + 1, a)
            }
        },
    }
}

/// The position just past the run of attributes from `i` on.
fn attributes_end_exec(ev: &[MarshalEvent], i: usize) -> (r: usize)
    ensures
        r as int == attributes_end(ev@, i as int),
    decreases ev@.len() - i,
{
    if i >= ev.len() {
        return i;
    }
    match ev[i] {
        MarshalEvent::Open(_) | MarshalEvent::Close(_) => i,
        _ => attributes_end_exec(ev, i + 1),
    }
}

fn unsigned_attribute_exec(ev: &[MarshalEvent], i: usize, a: AttributeId) -> (r: Option<u64>)
    ensures
        r == unsigned_attribute(ev@, i as int, a),
{
    match find_attribute_exec(ev, i, a) {
        Some(k) => match ev[k] {
            MarshalEvent::Unsigned(_, v) => Some(v),
            _ => None,
        },
        None => None,
    }
}

fn signed_attribute_exec(ev: &[MarshalEvent], i: usize, a: AttributeId) -> (r: Option<i64>)
    ensures
        r == signed_attribute(ev@, i as int, a),
{
    match find_attribute_exec(ev, i, a) {
        Some(k) => match ev[k] {
            MarshalEvent::Signed(_, v) => Some(v),
            _ => None,
        },
        None => None,
    }
}

fn space_attribute_exec(ev: &[MarshalEvent], i: usize, a: AttributeId) -> (r: Option<AddrSpace>)
    ensures
        r == space_attribute(ev@, i as int, a),
{
    match find_attribute_exec(ev, i, a) {
        Some(k) => match ev[k] {
            MarshalEvent::Space(_, s) => Some(s),
            _ => None,
        },
        None => None,
    }
}

impl ConstTpl {
    /// Append the encoding of the constant to `out`.
    pub fn encode(&self, out: &mut Vec<MarshalEvent>)
        requires
            self.type_ == ConstType::Spaceid ==> self.value_spaceid is Some,
        ensures
            final(out)@ == old(out)@ + const_events(*self),
    {
        let ghost start = out@;
        match self.type_ {
            ConstType::Real => {
                out.push(MarshalEvent::Open(ElementId::ConstReal));
                out.push(MarshalEvent::Unsigned(AttributeId::Val, self.value_real));
                out.push(MarshalEvent::Close(ElementId::ConstReal));
            },
            ConstType::Handle => {
                out.push(MarshalEvent::Open(ElementId::ConstHandle));
                out.push(MarshalEvent::Signed(AttributeId::Val, self.value_handle_index as i64));
                let s: i64 = match self.select {
                    VField::VSpace => 0,
                    VField::VOffset => 1,
                    VField::VSize => 2,
                    VField::VOffsetPlus => 3,
                };
                out.push(MarshalEvent::Signed(AttributeId::S, s));
                if self.select == VField::VOffsetPlus {
                    out.push(MarshalEvent::Unsigned(AttributeId::Plus, self.value_real));
                }
                out.push(MarshalEvent::Close(ElementId::ConstHandle));
            },
            ConstType::Spaceid => {
                out.push(MarshalEvent::Open(ElementId::ConstSpaceid));
                out.push(MarshalEvent::Space(AttributeId::Space, self.value_spaceid.unwrap()));
                out.push(MarshalEvent::Close(ElementId::ConstSpaceid));
            },
            ConstType::JRelative => {
                out.push(MarshalEvent::Open(ElementId::ConstRelative));
                out.push(MarshalEvent::Unsigned(AttributeId::Val, self.value_real));
                out.push(MarshalEvent::Close(ElementId::ConstRelative));
            },
            _ => {
                let el = match self.type_ {
                    ConstType::JStart => ElementId::ConstStart,
                    ConstType::JNext => ElementId::ConstNext,
                    ConstType::JNext2 => ElementId::ConstNext2,
                    ConstType::JCurspace => ElementId::ConstCurspace,
                    ConstType::JCurspaceSize => ElementId::ConstCurspaceSize,
                    ConstType::JFlowref => ElementId::ConstFlowref,
                    ConstType::JFlowrefSize => ElementId::ConstFlowrefSize,
                    ConstType::JFlowdest => ElementId::ConstFlowdest,
                    _ => ElementId::ConstFlowdestSize,
                };
                out.push(MarshalEvent::Open(el));
                out.push(MarshalEvent::Close(el));
            },
        }
        proof {
            assert(out@ =~= start + const_events(*self));
        }
    }

    /// Decode the constant encoded at position `pos` of `ev`, giving it and
    /// the position after it.
    pub fn decode(ev: &[MarshalEvent], pos: usize) -> (r: Result<(ConstTpl, usize), DecodeError>)
        ensures
            match r {
                Ok((c, n)) => spec_decode_const(ev@, pos as int) == Ok::<(ConstTpl, int), DecodeError>((c, n as int)),
                Err(e) => spec_decode_const(ev@, pos as int) == Err::<(ConstTpl, int), DecodeError>(e),
            },
    {
        if pos >= ev.len() {
            return Err(DecodeError::UnexpectedEnd);
        }
        let el = match ev[pos] {
            MarshalEvent::Open(el) => el,
            _ => {
                return Err(DecodeError::UnexpectedElement);
            },
        };
        let body = pos + 1;
        let c = match el {
            ElementId::ConstReal => match unsigned_attribute_exec(ev, body, AttributeId::Val) {
                Some(v) => ConstTpl::new_real(ConstType::Real, v),
                None => {
                    return Err(DecodeError::MissingAttribute);
                },
            },
            ElementId::ConstRelative => match unsigned_attribute_exec(ev, body, AttributeId::Val) {
                Some(v) => ConstTpl::new_real(ConstType::JRelative, v),
                None => {
                    return Err(DecodeError::MissingAttribute);
                },
            },
            ElementId::ConstHandle => {
                let h = match signed_attribute_exec(ev, body, AttributeId::Val) {
                    Some(h) => h,
                    None => {
                        return Err(DecodeError::MissingAttribute);
                    },
                };
                let s = match signed_attribute_exec(ev, body, AttributeId::S) {
                    Some(s) => s,
                    None => {
                        return Err(DecodeError::MissingAttribute);
                    },
                };
                let code = s as u32;
                let sel = if code == 0 {
                    VField::VSpace
                } else if code == 1 {
                    VField::VOffset
                } else if code == 2 {
                    VField::VSize
                } else if code == 3 {
                    VField::VOffsetPlus
                } else {
                    return Err(DecodeError::BadHandleSelector);
                };
                if code == 3 {
                    match unsigned_attribute_exec(ev, body, AttributeId::Plus) {
                        Some(p) => ConstTpl::new_handle_plus(h as i32, sel, p),
                        None => {
                            return Err(DecodeError::MissingAttribute);
                        },
                    }
                } else {
                    ConstTpl::new_handle(h as i32, sel)
                }
            },
            ElementId::ConstSpaceid => match space_attribute_exec(ev, body, AttributeId::Space) {
                Some(s) => ConstTpl::new_space(s),
                None => {
                    return Err(DecodeError::MissingAttribute);
                },
            },
            ElementId::ConstStart => ConstTpl::new_type(ConstType::JStart),
            ElementId::ConstNext => ConstTpl::new_type(ConstType::JNext),
            ElementId::ConstNext2 => ConstTpl::new_type(ConstType::JNext2),
            ElementId::ConstCurspace => ConstTpl::new_type(ConstType::JCurspace),
            ElementId::ConstCurspaceSize => ConstTpl::new_type(ConstType::JCurspaceSize),
            ElementId::ConstFlowref => ConstTpl::new_type(ConstType::JFlowref),
            ElementId::ConstFlowrefSize => ConstTpl::new_type(ConstType::JFlowrefSize),
            ElementId::ConstFlowdest => ConstTpl::new_type(ConstType::JFlowdest),
            ElementId::ConstFlowdestSize => ConstTpl::new_type(ConstType::JFlowdestSize),
            _ => {
                return Err(DecodeError::BadConstantType);
            },
        };
        let e = attributes_end_exec(ev, body);
        if e >= ev.len() {
            return Err(DecodeError::UnexpectedEnd);
        }
        if ev[e] == MarshalEvent::Close(el) {
            Ok((c, e + 1))
        } else {
            Err(DecodeError::MissingClose)
        }
    }
}

/// Decoding reads back what encoding wrote: wherever the encoding of a
/// constant stands in a stream, decoding there gives the constant (with the
/// data the encoding keeps) and the position just past its encoding.
pub proof fn lemma_const_roundtrip(c: ConstTpl, pre: Seq<MarshalEvent>, post: Seq<MarshalEvent>)
    requires
        c.type_ == ConstType::Spaceid ==> c.value_spaceid is Some,
    ensures
        spec_decode_const(pre + const_events(c) + post, pre.len() as int)
            == Ok::<(ConstTpl, int), DecodeError>((decoded_const(c), (pre.len() + const_events(c).len()) as int)),
{
    let enc = const_events(c);
    let ev = pre + enc + post;
    let p = pre.len() as int;
    assert forall|j: int| 0 <= j < enc.len() implies ev[p + j] == enc[j] by {}
    reveal_with_fuel(find_attribute, 5);
    reveal_with_fuel(attributes_end, 5);
}

/// The encodings of the constants `cs`, one after the other.
pub open spec fn consts_events(cs: Seq<ConstTpl>) -> Seq<MarshalEvent>
    decreases cs.len(),
{
    if cs.len() == 0 {
        Seq::empty()
    } else {
        const_events(cs[0]) + consts_events(cs.drop_first())
    }
}

/// Does every space constant among `cs` name a space?
pub open spec fn consts_encodable(cs: Seq<ConstTpl>) -> bool {
    forall|k: int| 0 <= k < cs.len() ==> (#[trigger] cs[k]).type_ == ConstType::Spaceid ==> cs[k].value_spaceid is Some
}

/// The `n` constants encoded one after the other from position `i` on, and
/// the position after them.
pub open spec fn decode_consts(ev: Seq<MarshalEvent>, i: int, n: nat) -> Result<(Seq<ConstTpl>, int), DecodeError>
    decreases n,
{
    if n == 0 {
        Ok((Seq::empty(), i))
    } else {
        match spec_decode_const(ev, i) {
            Err(e) => Err(e),
            Ok((c, j)) => match decode_consts(ev, j, (n - 1) as nat) {
                Err(e) => Err(e),
                Ok((rest, k)) => Ok((seq![c] + rest, k)),
            },
        }
    }
}

/// The position after the closing of `el` expected at `i`.
pub open spec fn close_at(ev: Seq<MarshalEvent>, i: int, el: ElementId) -> Result<int, DecodeError> {
    if i < 0 || i >= ev.len() {
        Err(DecodeError::UnexpectedEnd)
    } else if ev[i] == MarshalEvent::Close(el) {
        Ok(i + 1)
    } else {
        Err(DecodeError::MissingClose)
    }
}

/// The position of the children of the element `el` expected to open at
/// `i`: just past its attributes.
pub open spec fn open_at(ev: Seq<MarshalEvent>, i: int, el: ElementId) -> Result<int, DecodeError> {
    if i < 0 || i >= ev.len() {
        Err(DecodeError::UnexpectedEnd)
    } else if ev[i] == MarshalEvent::Open(el) {
        Ok(attributes_end(ev, i + 1))
    } else {
        Err(DecodeError::UnexpectedElement)
    }
}

/// An element `el` holding the `n` constants encoded from `i` on: the
/// constants, and the position after the element.
pub open spec fn decode_const_element(ev: Seq<MarshalEvent>, i: int, el: ElementId, n: nat) -> Result<(Seq<ConstTpl>, int), DecodeError> {
    match open_at(ev, i, el) {
        Err(e) => Err(e),
        Ok(b) => match decode_consts(ev, b, n) {
            Err(e) => Err(e),
            Ok((cs, j)) => match close_at(ev, j, el) {
                Err(e) => Err(e),
                Ok(k) => Ok((cs, k)),
            },
        },
    }
}

/// The encoding of a varnode template: its space, offset and size.
pub open spec fn varnode_events(v: VarnodeTpl) -> Seq<MarshalEvent> {
    seq![MarshalEvent::Open(ElementId::VarnodeTpl)] + consts_events(seq![v.space, v.offset, v.size])
        + seq![MarshalEvent::Close(ElementId::VarnodeTpl)]
}

/// The encoding of a handle template: its seven constants in order.
pub open spec fn handle_events(h: HandleTpl) -> Seq<MarshalEvent> {
    seq![MarshalEvent::Open(ElementId::HandleTpl)] + consts_events(handle_consts(h))
        + seq![MarshalEvent::Close(ElementId::HandleTpl)]
}

/// The seven constants of a handle template, in encoding order.
pub open spec fn handle_consts(h: HandleTpl) -> Seq<ConstTpl> {
    seq![h.space, h.size, h.ptrspace, h.ptroffset, h.ptrsize, h.temp_space, h.temp_offset]
}

/// Can the varnode template be encoded (its space constants name spaces)?
pub open spec fn varnode_encodable(v: VarnodeTpl) -> bool {
    consts_encodable(seq![v.space, v.offset, v.size])
}

/// Can the handle template be encoded (its space constants name spaces)?
pub open spec fn handle_encodable(h: HandleTpl) -> bool {
    consts_encodable(handle_consts(h))
}

/// The varnode template encoded at `pos`, and the position after it.
pub open spec fn spec_decode_varnode(ev: Seq<MarshalEvent>, pos: int) -> Result<(VarnodeTpl, int), DecodeError> {
    match decode_const_element(ev, pos, ElementId::VarnodeTpl, 3) {
        Err(e) => Err(e),
        Ok((cs, k)) => Ok((VarnodeTpl { space: cs[0], offset: cs[1], size: cs[2], unnamed_flag: false }, k)),
    }
}

/// The handle template encoded at `pos`, and the position after it.
pub open spec fn spec_decode_handle(ev: Seq<MarshalEvent>, pos: int) -> Result<(HandleTpl, int), DecodeError> {
    match decode_const_element(ev, pos, ElementId::HandleTpl, 7) {
        Err(e) => Err(e),
        Ok((cs, k)) => Ok((HandleTpl {
            space: cs[0],
            size: cs[1],
            ptrspace: cs[2],
            ptroffset: cs[3],
            ptrsize: cs[4],
            temp_space: cs[5],
            temp_offset: cs[6],
        }, k)),
    }
}

/// Decode `n` constants one after the other from position `i`.
fn decode_consts_exec(ev: &[MarshalEvent], i: usize, n: usize) -> (r: Result<(Vec<ConstTpl>, usize), DecodeError>)
    ensures
        match r {
            Ok((cs, k)) => decode_consts(ev@, i as int, n as nat) == Ok::<(Seq<ConstTpl>, int), DecodeError>((cs@, k as int)),
            Err(e) => decode_consts(ev@, i as int, n as nat) == Err::<(Seq<ConstTpl>, int), DecodeError>(e),
        },
    decreases n,
{
    if n == 0 {
        return Ok((Vec::new(), i));
    }
    match ConstTpl::decode(ev, i) {
        Err(e) => Err(e),
        Ok((c, j)) => match decode_consts_exec(ev, j, n - 1) {
            Err(e) => Err(e),
            Ok((rest, k)) => {
                let mut cs: Vec<ConstTpl> = Vec::new();
                cs.push(c);
                let mut m: usize = 0;
                while m < rest.len()
                    invariant
                        m <= rest@.len(),
                        cs@ == seq![c] + rest@.subrange(0, m as int),
                    decreases rest@.len() - m,
                {
                    cs.push(rest[m]);
                    m += 1;
                    proof {
                        assert(cs@ =~= seq![c] + rest@.subrange(0, m as int));
                    }
                }
                proof {
                    assert(rest@.subrange(0, rest@.len() as int) =~= rest@);
                }
                Ok((cs, k))
            },
        },
    }
}

/// The position of the children of the element `el` expected to open at
/// `i`.
fn open_at_exec(ev: &[MarshalEvent], i: usize, el: ElementId) -> (r: Result<usize, DecodeError>)
    ensures
        match r {
            Ok(b) => open_at(ev@, i as int, el) == Ok::<int, DecodeError>(b as int),
            Err(e) => open_at(ev@, i as int, el) == Err::<int, DecodeError>(e),
        },
{
    if i >= ev.len() {
        return Err(DecodeError::UnexpectedEnd);
    }
    if ev[i] == MarshalEvent::Open(el) {
        Ok(attributes_end_exec(ev, i + 1))
    } else {
        Err(DecodeError::UnexpectedElement)
    }
}

/// The position after the closing of `el` expected at `i`.
fn close_at_exec(ev: &[MarshalEvent], i: usize, el: ElementId) -> (r: Result<usize, DecodeError>)
    ensures
        match r {
            Ok(k) => close_at(ev@, i as int, el) == Ok::<int, DecodeError>(k as int),
            Err(e) => close_at(ev@, i as int, el) == Err::<int, DecodeError>(e),
        },
{
    if i >= ev.len() {
        return Err(DecodeError::UnexpectedEnd);
    }
    if ev[i] == MarshalEvent::Close(el) {
        Ok(i + 1)
    } else {
        Err(DecodeError::MissingClose)
    }
}

/// Decode the element `el` holding `n` constants at position `i`.
fn decode_const_element_exec(ev: &[MarshalEvent], i: usize, el: ElementId, n: usize) -> (r: Result<(Vec<ConstTpl>, usize), DecodeError>)
    ensures
        match r {
            Ok((cs, k)) => decode_const_element(ev@, i as int, el, n as nat) == Ok::<(Seq<ConstTpl>, int), DecodeError>((cs@, k as int)),
            Err(e) => decode_const_element(ev@, i as int, el, n as nat) == Err::<(Seq<ConstTpl>, int), DecodeError>(e),
        },
{
    let b = match open_at_exec(ev, i, el) {
        Ok(b) => b,
        Err(e) => {
            return Err(e);
        },
    };
    let (cs, j) = match decode_consts_exec(ev, b, n) {
        Ok(x) => x,
        Err(e) => {
            return Err(e);
        },
    };
    match close_at_exec(ev, j, el) {
        Ok(k) => Ok((cs, k)),
        Err(e) => Err(e),
    }
}

/// The number of constants a successful decoding gives.
proof fn lemma_decode_consts_len(ev: Seq<MarshalEvent>, i: int, n: nat)
    ensures
        decode_consts(ev, i, n) matches Ok((cs, _)) ==> cs.len() == n,
    decreases n,
{
    if n > 0 {
        match spec_decode_const(ev, i) {
            Ok((c, j)) => lemma_decode_consts_len(ev, j, (n - 1) as nat),
            Err(_) => {},
        }
    }
}

impl VarnodeTpl {
    /// Append the encoding of the varnode template to `out`.
    pub fn encode(&self, out: &mut Vec<MarshalEvent>)
        requires
            varnode_encodable(*self),
        ensures
            final(out)@ == old(out)@ + varnode_events(*self),
    {
        let ghost start = out@;
        proof {
            assert(seq![self.space, self.offset, self.size][0] == self.space);
            assert(seq![self.space, self.offset, self.size][1] == self.offset);
            assert(seq![self.space, self.offset, self.size][2] == self.size);
        }
        out.push(MarshalEvent::Open(ElementId::VarnodeTpl));
        self.space.encode(out);
        self.offset.encode(out);
        self.size.encode(out);
        out.push(MarshalEvent::Close(ElementId::VarnodeTpl));
        proof {
            let cs = seq![self.space, self.offset, self.size];
            assert(cs.drop_first().drop_first().drop_first() =~= Seq::<ConstTpl>::empty());
            assert(cs.drop_first().drop_first() =~= seq![self.size]);
            assert(cs.drop_first() =~= seq![self.offset, self.size]);
            reveal_with_fuel(consts_events, 4);
            assert(out@ =~= start + varnode_events(*self));
        }
    }

    /// Decode the varnode template encoded at position `pos` of `ev`,
    /// giving it and the position after it.
    pub fn decode(ev: &[MarshalEvent], pos: usize) -> (r: Result<(VarnodeTpl, usize), DecodeError>)
        ensures
            match r {
                Ok((v, n)) => spec_decode_varnode(ev@, pos as int) == Ok::<(VarnodeTpl, int), DecodeError>((v, n as int)),
                Err(e) => spec_decode_varnode(ev@, pos as int) == Err::<(VarnodeTpl, int), DecodeError>(e),
            },
    {
        match decode_const_element_exec(ev, pos, ElementId::VarnodeTpl, 3) {
            Err(e) => Err(e),
            Ok((cs, k)) => {
                proof {
                    lemma_decode_consts_len(ev@, open_at(ev@, pos as int, ElementId::VarnodeTpl)->Ok_0, 3);
                }
                Ok((VarnodeTpl::new(cs[0], cs[1], cs[2]), k))
            },
        }
    }
}

/// Decoding reads back a run of encoded constants.
pub proof fn lemma_consts_roundtrip(cs: Seq<ConstTpl>, pre: Seq<MarshalEvent>, post: Seq<MarshalEvent>)
    requires
        consts_encodable(cs),
    ensures
        decode_consts(pre + consts_events(cs) + post, pre.len() as int, cs.len())
            == Ok::<(Seq<ConstTpl>, int), DecodeError>((cs.map_values(|c: ConstTpl| decoded_const(c)), (pre.len() + consts_events(cs).len()) as int)),
    decreases cs.len(),
{
    let ev = pre + consts_events(cs) + post;
    if cs.len() == 0 {
        assert(cs.map_values(|c: ConstTpl| decoded_const(c)) =~= Seq::<ConstTpl>::empty());
    } else {
        let e0 = const_events(cs[0]);
        let rest = consts_events(cs.drop_first());
        assert(cs[0].type_ == ConstType::Spaceid ==> cs[0].value_spaceid is Some);
        assert(ev =~= pre + e0 + (rest + post));
        lemma_const_roundtrip(cs[0], pre, rest + post);
        assert forall|k: int| 0 <= k < cs.drop_first().len() implies (#[trigger] cs.drop_first()[k]).type_ == ConstType::Spaceid
            ==> cs.drop_first()[k].value_spaceid is Some by {
            assert(cs.drop_first()[k] == cs[k + 1]);
        }
        assert(ev =~= (pre + e0) + rest + post);
        lemma_consts_roundtrip(cs.drop_first(), pre + e0, post);
        assert(seq![decoded_const(cs[0])] + cs.drop_first().map_values(|c: ConstTpl| decoded_const(c))
            =~= cs.map_values(|c: ConstTpl| decoded_const(c)));
    }
}

/// A varnode template as decoding gives it back: each constant with the
/// data its encoding keeps, and not marked unnamed.
pub open spec fn decoded_varnode(v: VarnodeTpl) -> VarnodeTpl {
    VarnodeTpl {
        space: decoded_const(v.space),
        offset: decoded_const(v.offset),
        size: decoded_const(v.size),
        unnamed_flag: false,
    }
}

/// Decoding reads back an encoded varnode template.
pub proof fn lemma_varnode_roundtrip(v: VarnodeTpl, pre: Seq<MarshalEvent>, post: Seq<MarshalEvent>)
    requires
        varnode_encodable(v),
    ensures
        spec_decode_varnode(pre + varnode_events(v) + post, pre.len() as int)
            == Ok::<(VarnodeTpl, int), DecodeError>((decoded_varnode(v), (pre.len() + varnode_events(v).len()) as int)),
{
    let cs = seq![v.space, v.offset, v.size];
    let body = consts_events(cs);
    let open = seq![MarshalEvent::Open(ElementId::VarnodeTpl)];
    let close = seq![MarshalEvent::Close(ElementId::VarnodeTpl)];
    let ev = pre + varnode_events(v) + post;
    assert(ev =~= (pre + open) + body + (close + post));
    lemma_consts_roundtrip(cs, pre + open, close + post);
    assert(body.len() > 0) by {
        reveal_with_fuel(consts_events, 2);
        assert(const_events(v.space).len() > 0);
    }
    assert(ev[pre.len() as int] == MarshalEvent::Open(ElementId::VarnodeTpl));
    assert(body[0] == ev[pre.len() + 1int]);
    assert(body[0] == const_events(v.space)[0]) by {
        reveal_with_fuel(consts_events, 2);
    }
    assert(attributes_end(ev, pre.len() + 1int) == pre.len() + 1);
    assert(ev[pre.len() + 1int + body.len()] == MarshalEvent::Close(ElementId::VarnodeTpl));
    let dcs = cs.map_values(|c: ConstTpl| decoded_const(c));
    assert(dcs[0] == decoded_const(v.space));
    assert(dcs[1] == decoded_const(v.offset));
    assert(dcs[2] == decoded_const(v.size));
}

/// A handle template as decoding gives it back: each constant with the data
/// its encoding keeps.
pub open spec fn decoded_handle(h: HandleTpl) -> HandleTpl {
    HandleTpl {
        space: decoded_const(h.space),
        size: decoded_const(h.size),
        ptrspace: decoded_const(h.ptrspace),
        ptroffset: decoded_const(h.ptroffset),
        ptrsize: decoded_const(h.ptrsize),
        temp_space: decoded_const(h.temp_space),
        temp_offset: decoded_const(h.temp_offset),
    }
}

/// Decoding reads back an encoded handle template.
pub proof fn lemma_handle_roundtrip(h: HandleTpl, pre: Seq<MarshalEvent>, post: Seq<MarshalEvent>)
    requires
        handle_encodable(h),
    ensures
        spec_decode_handle(pre + handle_events(h) + post, pre.len() as int)
            == Ok::<(HandleTpl, int), DecodeError>((decoded_handle(h), (pre.len() + handle_events(h).len()) as int)),
{
    let cs = handle_consts(h);
    let body = consts_events(cs);
    let open = seq![MarshalEvent::Open(ElementId::HandleTpl)];
    let close = seq![MarshalEvent::Close(ElementId::HandleTpl)];
    let ev = pre + handle_events(h) + post;
    assert(ev =~= (pre + open) + body + (close + post));
    lemma_consts_roundtrip(cs, pre + open, close + post);
    assert(body.len() > 0 && body[0] == const_events(h.space)[0]) by {
        reveal_with_fuel(consts_events, 2);
        assert(const_events(h.space).len() > 0);
    }
    assert(ev[pre.len() as int] == MarshalEvent::Open(ElementId::HandleTpl));
    assert(body[0] == ev[pre.len() + 1int]);
    assert(attributes_end(ev, pre.len() + 1int) == pre.len() + 1);
    assert(ev[pre.len() + 1int + body.len()] == MarshalEvent::Close(ElementId::HandleTpl));
    let dcs = cs.map_values(|c: ConstTpl| decoded_const(c));
    assert(dcs[0] == decoded_const(h.space));
    assert(dcs[1] == decoded_const(h.size));
    assert(dcs[2] == decoded_const(h.ptrspace));
    assert(dcs[3] == decoded_const(h.ptroffset));
    assert(dcs[4] == decoded_const(h.ptrsize));
    assert(dcs[5] == decoded_const(h.temp_space));
    assert(dcs[6] == decoded_const(h.temp_offset));
}

/// Encoding one more constant appends its encoding.
proof fn lemma_consts_events_push(cs: Seq<ConstTpl>, c: ConstTpl)
    ensures
        consts_events(cs.push(c)) == consts_events(cs) + const_events(c),
    decreases cs.len(),
{
    if cs.len() == 0 {
        assert(cs.push(c).drop_first() =~= Seq::<ConstTpl>::empty());
        assert(cs.push(c)[0] == c);
        assert(consts_events(cs.push(c).drop_first()) == Seq::<MarshalEvent>::empty());
        assert(consts_events(cs) == Seq::<MarshalEvent>::empty());
        assert(consts_events(cs.push(c)) =~= consts_events(cs) + const_events(c));
    } else {
        assert(cs.push(c).drop_first() =~= cs.drop_first().push(c));
        lemma_consts_events_push(cs.drop_first(), c);
        assert(consts_events(cs.push(c)) =~= consts_events(cs) + const_events(c));
    }
}

/// Append the encodings of the constants `cs` to `out`.
fn encode_consts(cs: &[ConstTpl], out: &mut Vec<MarshalEvent>)
    requires
        consts_encodable(cs@),
    ensures
        final(out)@ == old(out)@ + consts_events(cs@),
{
    let ghost start = out@;
    let mut k: usize = 0;
    while k < cs.len()
        invariant
            k <= cs@.len(),
            consts_encodable(cs@),
            out@ == start + consts_events(cs@.take(k as int)),
        decreases cs@.len() - k,
    {
        assert(cs@[k as int].type_ == ConstType::Spaceid ==> cs@[k as int].value_spaceid is Some);
        cs[k].encode(out);
        proof {
            lemma_consts_events_push(cs@.take(k as int), cs@[k as int]);
            assert(cs@.take(k + 1) =~= cs@.take(k as int).push(cs@[k as int]));
        }
        k += 1;
    }
    proof {
        assert(cs@.take(cs@.len() as int) =~= cs@);
    }
}

impl HandleTpl {
    /// Append the encoding of the handle template to `out`.
    pub fn encode(&self, out: &mut Vec<MarshalEvent>)
        requires
            handle_encodable(*self),
        ensures
            final(out)@ == old(out)@ + handle_events(*self),
    {
        let ghost start = out@;
        let cs = [self.space, self.size, self.ptrspace, self.ptroffset, self.ptrsize, self.temp_space, self.temp_offset];
        proof {
            assert(cs@ =~= handle_consts(*self));
        }
        out.push(MarshalEvent::Open(ElementId::HandleTpl));
        encode_consts(&cs, out);
        out.push(MarshalEvent::Close(ElementId::HandleTpl));
        proof {
            assert(out@ =~= start + handle_events(*self));
        }
    }

    /// Decode the handle template encoded at position `pos` of `ev`, giving
    /// it and the position after it.
    pub fn decode(ev: &[MarshalEvent], pos: usize) -> (r: Result<(HandleTpl, usize), DecodeError>)
        ensures
            match r {
                Ok((h, n)) => spec_decode_handle(ev@, pos as int) == Ok::<(HandleTpl, int), DecodeError>((h, n as int)),
                Err(e) => spec_decode_handle(ev@, pos as int) == Err::<(HandleTpl, int), DecodeError>(e),
            },
    {
        match decode_const_element_exec(ev, pos, ElementId::HandleTpl, 7) {
            Err(e) => Err(e),
            Ok((cs, k)) => {
                proof {
                    lemma_decode_consts_len(ev@, open_at(ev@, pos as int, ElementId::HandleTpl)->Ok_0, 7);
                }
                Ok((HandleTpl {
                    space: cs[0],
                    size: cs[1],
                    ptrspace: cs[2],
                    ptroffset: cs[3],
                    ptrsize: cs[4],
                    temp_space: cs[5],
                    temp_offset: cs[6],
                }, k))
            },
        }
    }
}

/// The encodings of the varnode templates `vs`, one after the other.
pub open spec fn varnodes_events(vs: Seq<VarnodeTpl>) -> Seq<MarshalEvent>
    decreases vs.len(),
{
    if vs.len() == 0 {
        Seq::empty()
    } else {
        varnodes_events(vs.drop_last()) + varnode_events(vs.last())
    }
}

/// The encoding of an absent output or result.
pub open spec fn null_events() -> Seq<MarshalEvent> {
    seq![MarshalEvent::Open(ElementId::Null), MarshalEvent::Close(ElementId::Null)]
}

/// The encoding of an op template: its op code, its output (or a null
/// element), and its inputs in order.
pub open spec fn op_events(op: (Option<VarnodeTpl>, OpCode, Seq<VarnodeTpl>)) -> Seq<MarshalEvent> {
    seq![MarshalEvent::Open(ElementId::OpTpl), MarshalEvent::Opcode(AttributeId::Code, op.1)]
        + match op.0 {
        Some(v) => varnode_events(v),
        None => null_events(),
    } + varnodes_events(op.2) + seq![MarshalEvent::Close(ElementId::OpTpl)]
}

/// Can the op template be encoded (the space constants of its varnodes
/// name spaces)?
pub open spec fn op_encodable(op: (Option<VarnodeTpl>, OpCode, Seq<VarnodeTpl>)) -> bool {
    &&& op.0 matches Some(v) ==> varnode_encodable(v)
    &&& forall|k: int| 0 <= k < op.2.len() ==> varnode_encodable(#[trigger] op.2[k])
}

/// Is the event the opening of an element?
pub open spec fn is_open(e: MarshalEvent) -> bool {
    e matches MarshalEvent::Open(_)
}

/// The varnode templates encoded one after the other from `i` on, for as
/// long as an element opens there, and the position after them.
pub open spec fn decode_varnode_list(ev: Seq<MarshalEvent>, i: int) -> Result<(Seq<VarnodeTpl>, int), DecodeError>
    decreases ev.len() - i,
{
    if i < 0 || i >= ev.len() || !is_open(ev[i]) {
        Ok((Seq::empty(), i))
    } else {
        match spec_decode_varnode(ev, i) {
            Err(e) => Err(e),
            Ok((v, j)) => if j <= i {
                Err(DecodeError::UnexpectedEnd)
            } else {
                match decode_varnode_list(ev, j) {
                    Err(e) => Err(e),
                    Ok((vs, k)) => Ok((seq![v] + vs, k)),
                }
            },
        }
    }
}

/// An optional varnode (a varnode template or a null element) encoded at
/// `i`, and the position after it.
pub open spec fn decode_optional_varnode(ev: Seq<MarshalEvent>, i: int) -> Result<(Option<VarnodeTpl>, int), DecodeError> {
    if 0 <= i < ev.len() && ev[i] == MarshalEvent::Open(ElementId::Null) {
        match close_at(ev, i + 1, ElementId::Null) {
            Err(e) => Err(e),
            Ok(k) => Ok((None, k)),
        }
    } else {
        match spec_decode_varnode(ev, i) {
            Err(e) => Err(e),
            Ok((v, k)) => Ok((Some(v), k)),
        }
    }
}

/// The op code attribute `a` of the element whose attributes start at `i`.
pub open spec fn opcode_attribute(ev: Seq<MarshalEvent>, i: int, a: AttributeId) -> Option<OpCode> {
    match find_attribute(ev, i, a) {
        Some(k) => match ev[k] {
            MarshalEvent::Opcode(_, c) => Some(c),
            _ => None,
        },
        None => None,
    }
}

/// The op template (as a value) encoded at `pos`, and the position after
/// it.
#[verifier::opaque]
pub open spec fn spec_decode_op(ev: Seq<MarshalEvent>, pos: int) -> Result<((Option<VarnodeTpl>, OpCode, Seq<VarnodeTpl>), int), DecodeError> {
    match open_at(ev, pos, ElementId::OpTpl) {
        Err(e) => Err(e),
        Ok(b) => match opcode_attribute(ev, pos + 1, AttributeId::Code) {
            None => Err(DecodeError::MissingAttribute),
            Some(opc) => match decode_optional_varnode(ev, b) {
                Err(e) => Err(e),
                Ok((out, j)) => match decode_varnode_list(ev, j) {
                    Err(e) => Err(e),
                    Ok((ins, k)) => match close_at(ev, k, ElementId::OpTpl) {
                        Err(e) => Err(e),
                        Ok(n) => Ok(((out, opc, ins), n)),
                    },
                },
            },
        },
    }
}

fn opcode_attribute_exec(ev: &[MarshalEvent], i: usize, a: AttributeId) -> (r: Option<OpCode>)
    ensures
        r == opcode_attribute(ev@, i as int, a),
{
    match find_attribute_exec(ev, i, a) {
        Some(k) => match ev[k] {
            MarshalEvent::Opcode(_, c) => Some(c),
            _ => None,
        },
        None => None,
    }
}

/// A successful varnode decoding moves past at least one event.
proof fn lemma_decode_varnode_advances(ev: Seq<MarshalEvent>, i: int)
    ensures
        spec_decode_varnode(ev, i) matches Ok((_, j)) ==> j > i,
{
    match spec_decode_varnode(ev, i) {
        Ok((_, j)) => {
            let b = open_at(ev, i, ElementId::VarnodeTpl)->Ok_0;
            lemma_attributes_end_after(ev, i + 1);
            lemma_decode_consts_after(ev, b, 3);
        },
        Err(_) => {},
    }
}

/// The end of a run of attributes is at or after its start.
proof fn lemma_attributes_end_after(ev: Seq<MarshalEvent>, i: int)
    ensures
        attributes_end(ev, i) >= i,
    decreases ev.len() - i,
{
    if 0 <= i < ev.len() && is_attribute(ev[i]) {
        lemma_attributes_end_after(ev, i + 1);
    }
}

/// Decoding constants never moves backwards.
proof fn lemma_decode_consts_after(ev: Seq<MarshalEvent>, i: int, n: nat)
    ensures
        decode_consts(ev, i, n) matches Ok((_, j)) ==> j >= i,
    decreases n,
{
    if n > 0 {
        match spec_decode_const(ev, i) {
            Ok((c, j)) => {
                lemma_attributes_end_after(ev, i + 1);
                lemma_decode_consts_after(ev, j, (n - 1) as nat);
            },
            Err(_) => {},
        }
    }
}

/// Decode the varnode templates that follow one another from `i` on.
fn decode_varnode_list_exec(ev: &[MarshalEvent], i: usize) -> (r: Result<(Vec<VarnodeTpl>, usize), DecodeError>)
    ensures
        match r {
            Ok((vs, k)) => decode_varnode_list(ev@, i as int) == Ok::<(Seq<VarnodeTpl>, int), DecodeError>((vs@, k as int)),
            Err(e) => decode_varnode_list(ev@, i as int) == Err::<(Seq<VarnodeTpl>, int), DecodeError>(e),
        },
{
    let mut vs: Vec<VarnodeTpl> = Vec::new();
    if i >= ev.len() {
        return Ok((vs, i));
    }
    let mut j = i;
    while j < ev.len() && is_open_exec(&ev[j])
        invariant
            i <= j <= ev@.len(),
            decode_varnode_list(ev@, i as int) == match decode_varnode_list(ev@, j as int) {
                Ok((rest, k)) => Ok::<(Seq<VarnodeTpl>, int), DecodeError>((vs@ + rest, k)),
                Err(e) => Err(e),
            },
        decreases ev@.len() - j,
    {
        match VarnodeTpl::decode(ev, j) {
            Err(e) => {
                return Err(e);
            },
            Ok((v, k)) => {
                proof {
                    lemma_decode_varnode_advances(ev@, j as int);
                    match decode_varnode_list(ev@, k as int) {
                        Ok((rest, n)) => {
                            assert(vs@.push(v) + rest =~= vs@ + (seq![v] + rest));
                        },
                        Err(_) => {},
                    }
                }
                vs.push(v);
                j = k;
            },
        }
    }
    proof {
        assert(vs@ + Seq::<VarnodeTpl>::empty() =~= vs@);
    }
    Ok((vs, j))
}

/// Does an element open at this event?
fn is_open_exec(e: &MarshalEvent) -> (r: bool)
    ensures
        r == is_open(*e),
{
    match e {
        MarshalEvent::Open(_) => true,
        _ => false,
    }
}

/// Encode the varnode templates `vs` one after the other.
fn encode_varnodes(vs: &[VarnodeTpl], out: &mut Vec<MarshalEvent>)
    requires
        forall|k: int| 0 <= k < vs@.len() ==> varnode_encodable(#[trigger] vs@[k]),
    ensures
        final(out)@ == old(out)@ + varnodes_events(vs@),
{
    let ghost start = out@;
    let mut k: usize = 0;
    while k < vs.len()
        invariant
            k <= vs@.len(),
            forall|m: int| 0 <= m < vs@.len() ==> varnode_encodable(#[trigger] vs@[m]),
            out@ == start + varnodes_events(vs@.take(k as int)),
        decreases vs@.len() - k,
    {
        assert(varnode_encodable(vs@[k as int]));
        vs[k].encode(out);
        proof {
            assert(vs@.take(k + 1).drop_last() =~= vs@.take(k as int));
            assert(out@ =~= start + varnodes_events(vs@.take(k + 1)));
        }
        k += 1;
    }
    proof {
        assert(vs@.take(vs@.len() as int) =~= vs@);
    }
}

impl OpTpl {
    /// Append the encoding of the op template to `out`.
    pub fn encode(&self, out: &mut Vec<MarshalEvent>)
        requires
            op_encodable(self@),
        ensures
            final(out)@ == old(out)@ + op_events(self@),
    {
        let ghost start = out@;
        out.push(MarshalEvent::Open(ElementId::OpTpl));
        out.push(MarshalEvent::Opcode(AttributeId::Code, self.opc));
        match &self.output {
            None => {
                out.push(MarshalEvent::Open(ElementId::Null));
                out.push(MarshalEvent::Close(ElementId::Null));
            },
            Some(v) => {
                v.encode(out);
            },
        }
        proof {
            assert forall|k: int| 0 <= k < self.input@.len() implies varnode_encodable(#[trigger] self.input@[k]) by {
                assert(self@.2[k] == self.input@[k]);
            }
        }
        encode_varnodes(self.input.as_slice(), out);
        out.push(MarshalEvent::Close(ElementId::OpTpl));
        proof {
            assert(out@ =~= start + op_events(self@));
        }
    }

    /// Decode the op template encoded at position `pos` of `ev`, giving it
    /// and the position after it.
    pub fn decode(ev: &[MarshalEvent], pos: usize) -> (r: Result<(OpTpl, usize), DecodeError>)
        ensures
            match r {
                Ok((op, n)) => spec_decode_op(ev@, pos as int) == Ok::<((Option<VarnodeTpl>, OpCode, Seq<VarnodeTpl>), int), DecodeError>((op@, n as int)),
                Err(e) => spec_decode_op(ev@, pos as int) == Err::<((Option<VarnodeTpl>, OpCode, Seq<VarnodeTpl>), int), DecodeError>(e),
            },
    {
        proof {
            reveal(spec_decode_op);
        }
        let b = match open_at_exec(ev, pos, ElementId::OpTpl) {
            Ok(b) => b,
            Err(e) => {
                return Err(e);
            },
        };
        let n = ev.len();
        assert(pos < n);
        let opc = match opcode_attribute_exec(ev, pos + 1, AttributeId::Code) {
            Some(c) => c,
            None => {
                return Err(DecodeError::MissingAttribute);
            },
        };
        let (out, j) = if b < ev.len() && ev[b] == MarshalEvent::Open(ElementId::Null) {
            match close_at_exec(ev, b + 1, ElementId::Null) {
                Ok(k) => (None, k),
                Err(e) => {
                    return Err(e);
                },
            }
        } else {
            match VarnodeTpl::decode(ev, b) {
                Ok((v, k)) => (Some(v), k),
                Err(e) => {
                    return Err(e);
                },
            }
        };
        let (ins, k) = match decode_varnode_list_exec(ev, j) {
            Ok(x) => x,
            Err(e) => {
                return Err(e);
            },
        };
        match close_at_exec(ev, k, ElementId::OpTpl) {
            Ok(n) => Ok((OpTpl { output: out, opc, input: ins }, n)),
            Err(e) => Err(e),
        }
    }
}

/// Encoding a varnode in front of others puts its encoding first.
proof fn lemma_varnodes_events_cons(v: VarnodeTpl, vs: Seq<VarnodeTpl>)
    ensures
        varnodes_events(seq![v] + vs) == varnode_events(v) + varnodes_events(vs),
    decreases vs.len(),
{
    if vs.len() == 0 {
        assert(seq![v] + vs =~= seq![v]);
        assert(seq![v].drop_last() =~= Seq::<VarnodeTpl>::empty());
        assert(seq![v].last() == v);
        assert(varnodes_events(Seq::<VarnodeTpl>::empty()) == Seq::<MarshalEvent>::empty());
        assert(varnodes_events(seq![v]) =~= varnode_events(v));
        assert(varnodes_events(vs) =~= Seq::<MarshalEvent>::empty());
        assert(varnode_events(v) + varnodes_events(vs) =~= varnode_events(v));
    } else {
        assert((seq![v] + vs).drop_last() =~= seq![v] + vs.drop_last());
        assert((seq![v] + vs).last() == vs.last());
        lemma_varnodes_events_cons(v, vs.drop_last());
        assert(varnodes_events(seq![v] + vs) =~= varnode_events(v) + varnodes_events(vs));
    }
}

/// Decoding reads back a run of encoded varnode templates, stopping where
/// no element opens.
pub proof fn lemma_varnode_list_roundtrip(vs: Seq<VarnodeTpl>, pre: Seq<MarshalEvent>, post: Seq<MarshalEvent>)
    requires
        forall|k: int| 0 <= k < vs.len() ==> varnode_encodable(#[trigger] vs[k]),
        post.len() == 0 || !is_open(post[0]),
    ensures
        decode_varnode_list(pre + varnodes_events(vs) + post, pre.len() as int)
            == Ok::<(Seq<VarnodeTpl>, int), DecodeError>((vs.map_values(|v: VarnodeTpl| decoded_varnode(v)), (pre.len() + varnodes_events(vs).len()) as int)),
    decreases vs.len(),
{
    let ev = pre + varnodes_events(vs) + post;
    let p = pre.len() as int;
    if vs.len() == 0 {
        assert(varnodes_events(vs) =~= Seq::<MarshalEvent>::empty());
        assert(vs.map_values(|v: VarnodeTpl| decoded_varnode(v)) =~= Seq::<VarnodeTpl>::empty());
        if p < ev.len() {
            assert(ev[p] == post[0]);
        }
    } else {
        let v = vs[0];
        let rest = vs.drop_first();
        assert(vs =~= seq![v] + rest);
        lemma_varnodes_events_cons(v, rest);
        let ve = varnode_events(v);
        let re = varnodes_events(rest);
        assert(ev =~= pre + ve + (re + post));
        assert(varnode_encodable(vs[0]));
        lemma_varnode_roundtrip(v, pre, re + post);
        assert(ev[p] == ve[0]);
        assert(forall|k: int| 0 <= k < rest.len() ==> rest[k] == vs[k + 1]);
        assert(ev =~= (pre + ve) + re + post);
        lemma_varnode_list_roundtrip(rest, pre + ve, post);
        assert(seq![decoded_varnode(v)] + rest.map_values(|v: VarnodeTpl| decoded_varnode(v))
            =~= vs.map_values(|v: VarnodeTpl| decoded_varnode(v)));
    }
}

/// An op template (as a value) as decoding gives it back: its varnodes as
/// decoded.
pub open spec fn decoded_op(op: (Option<VarnodeTpl>, OpCode, Seq<VarnodeTpl>)) -> (Option<VarnodeTpl>, OpCode, Seq<VarnodeTpl>) {
    (
        match op.0 {
            Some(v) => Some(decoded_varnode(v)),
            None => None,
        },
        op.1,
        op.2.map_values(|v: VarnodeTpl| decoded_varnode(v)),
    )
}

/// A single attribute followed by a non-attribute: the run ends after it,
/// and it is the one found for its own name.
proof fn lemma_single_attribute(ev: Seq<MarshalEvent>, i: int)
    requires
        0 <= i,
        i + 1 < ev.len(),
        is_attribute(ev[i]),
        !is_attribute(ev[i + 1]),
    ensures
        attributes_end(ev, i) == i + 1,
        find_attribute(ev, i, attribute_of(ev[i])) == Some(i),
{
    reveal_with_fuel(attributes_end, 2);
}

/// Decoding reads back an encoded op template.
#[verifier::rlimit(30)]
pub proof fn lemma_op_roundtrip(op: (Option<VarnodeTpl>, OpCode, Seq<VarnodeTpl>), pre: Seq<MarshalEvent>, post: Seq<MarshalEvent>)
    requires
        op_encodable(op),
    ensures
        spec_decode_op(pre + op_events(op) + post, pre.len() as int)
            == Ok::<((Option<VarnodeTpl>, OpCode, Seq<VarnodeTpl>), int), DecodeError>((decoded_op(op), (pre.len() + op_events(op).len()) as int)),
{
    reveal(spec_decode_op);
    let head = seq![MarshalEvent::Open(ElementId::OpTpl), MarshalEvent::Opcode(AttributeId::Code, op.1)];
    let oute = match op.0 {
        Some(v) => varnode_events(v),
        None => null_events(),
    };
    let inse = varnodes_events(op.2);
    let tail = seq![MarshalEvent::Close(ElementId::OpTpl)];
    let ev = pre + op_events(op) + post;
    let p = pre.len() as int;
    assert(op_events(op) =~= head + oute + inse + tail);
    assert(ev =~= (pre + head) + oute + (inse + tail + post));
    assert(ev[p] == MarshalEvent::Open(ElementId::OpTpl));
    assert(ev[p + 1] == MarshalEvent::Opcode(AttributeId::Code, op.1));
    assert(oute.len() > 0 && is_open(oute[0]));
    assert(ev[p + 2] == oute[0]);
    lemma_single_attribute(ev, p + 1);
    assert(opcode_attribute(ev, p + 1, AttributeId::Code) == Some(op.1));
    match op.0 {
        Some(v) => {
            lemma_varnode_roundtrip(v, pre + head, inse + tail + post);
            assert(ev[p + 2] != MarshalEvent::Open(ElementId::Null));
        },
        None => {
            assert(ev[p + 3] == MarshalEvent::Close(ElementId::Null));
        },
    }
    assert(ev =~= (pre + head + oute) + inse + (tail + post));
    lemma_varnode_list_roundtrip(op.2, pre + head + oute, tail + post);
    assert(ev[p + 2 + oute.len() + inse.len()] == MarshalEvent::Close(ElementId::OpTpl));
}

/// The encodings of the op templates `ops`, one after the other.
pub open spec fn ops_events(ops: Seq<(Option<VarnodeTpl>, OpCode, Seq<VarnodeTpl>)>) -> Seq<MarshalEvent>
    decreases ops.len(),
{
    if ops.len() == 0 {
        Seq::empty()
    } else {
        ops_events(ops.drop_last()) + op_events(ops.last())
    }
}

/// The attributes of a construct template: the section number when it is
/// not negative, the delay-slot size and the label count when not zero.
pub open spec fn construct_attributes(delayslot: u32, numlabels: u32, sectionid: i32) -> Seq<MarshalEvent> {
    (if sectionid >= 0 { seq![MarshalEvent::Signed(AttributeId::Section, sectionid as i64)] } else { Seq::empty() })
        + (if delayslot != 0 { seq![MarshalEvent::Signed(AttributeId::Delay, delayslot as i64)] } else { Seq::empty() })
        + (if numlabels != 0 { seq![MarshalEvent::Signed(AttributeId::Labels, numlabels as i64)] } else { Seq::empty() })
}

/// The encoding of a construct template of section `sectionid`: its
/// attributes, its export (or a null element) and its ops in order.
pub open spec fn construct_events(
    delayslot: u32,
    numlabels: u32,
    ops: Seq<(Option<VarnodeTpl>, OpCode, Seq<VarnodeTpl>)>,
    result: Option<HandleTpl>,
    sectionid: i32,
) -> Seq<MarshalEvent> {
    seq![MarshalEvent::Open(ElementId::ConstructTpl)] + construct_attributes(delayslot, numlabels, sectionid)
        + match result {
        Some(h) => handle_events(h),
        None => null_events(),
    } + ops_events(ops) + seq![MarshalEvent::Close(ElementId::ConstructTpl)]
}

/// The op templates encoded one after the other from `i` on, for as long as
/// an element opens there, and the position after them.
pub open spec fn decode_op_list(ev: Seq<MarshalEvent>, i: int) -> Result<(Seq<(Option<VarnodeTpl>, OpCode, Seq<VarnodeTpl>)>, int), DecodeError>
    decreases ev.len() - i,
{
    if i < 0 || i >= ev.len() || !is_open(ev[i]) {
        Ok((Seq::empty(), i))
    } else {
        match spec_decode_op(ev, i) {
            Err(e) => Err(e),
            Ok((op, j)) => if j <= i || j > ev.len() {
                Err(DecodeError::UnexpectedEnd)
            } else {
                match decode_op_list(ev, j) {
                    Err(e) => Err(e),
                    Ok((ops, k)) => Ok((seq![op] + ops, k)),
                }
            },
        }
    }
}

/// An optional handle (a handle template or a null element) encoded at `i`,
/// and the position after it.
pub open spec fn decode_optional_handle(ev: Seq<MarshalEvent>, i: int) -> Result<(Option<HandleTpl>, int), DecodeError> {
    if 0 <= i < ev.len() && ev[i] == MarshalEvent::Open(ElementId::Null) {
        match close_at(ev, i + 1, ElementId::Null) {
            Err(e) => Err(e),
            Ok(k) => Ok((None, k)),
        }
    } else {
        match spec_decode_handle(ev, i) {
            Err(e) => Err(e),
            Ok((h, k)) => Ok((Some(h), k)),
        }
    }
}

/// The construct template encoded at `pos` (delay-slot size, label count,
/// ops, export), its section number (-1 when absent), and the position after
/// it.
pub open spec fn spec_decode_construct(ev: Seq<MarshalEvent>, pos: int) -> Result<((u32, u32, Seq<(Option<VarnodeTpl>, OpCode, Seq<VarnodeTpl>)>, Option<HandleTpl>), i32, int), DecodeError> {
    match open_at(ev, pos, ElementId::ConstructTpl) {
        Err(e) => Err(e),
        Ok(b) => {
            let delay: u32 = match signed_attribute(ev, pos + 1, AttributeId::Delay) {
                Some(v) => v as u32,
                None => 0,
            };
            let labels: u32 = match signed_attribute(ev, pos + 1, AttributeId::Labels) {
                Some(v) => v as u32,
                None => 0,
            };
            let section: i32 = match signed_attribute(ev, pos + 1, AttributeId::Section) {
                Some(v) => v as i32,
                None => -1i32,
            };
            match decode_optional_handle(ev, b) {
                Err(e) => Err(e),
                Ok((result, j)) => match decode_op_list(ev, j) {
                    Err(e) => Err(e),
                    Ok((ops, k)) => match close_at(ev, k, ElementId::ConstructTpl) {
                        Err(e) => Err(e),
                        Ok(n) => Ok(((delay, labels, ops, result), section, n)),
                    },
                },
            }
        },
    }
}

/// A successful op decoding moves past at least one event.
proof fn lemma_decode_op_advances(ev: Seq<MarshalEvent>, i: int)
    ensures
        spec_decode_op(ev, i) matches Ok((_, j)) ==> i < j <= ev.len(),
{
    reveal(spec_decode_op);
    match spec_decode_op(ev, i) {
        Ok((_, n)) => {
            lemma_attributes_end_after(ev, i + 1);
            let b = open_at(ev, i, ElementId::OpTpl)->Ok_0;
            lemma_decode_varnode_advances(ev, b);
            let j = decode_optional_varnode(ev, b)->Ok_0.1;
            lemma_decode_varnode_list_after(ev, j);
        },
        Err(_) => {},
    }
}

/// Decoding a run of varnodes never moves backwards.
proof fn lemma_decode_varnode_list_after(ev: Seq<MarshalEvent>, i: int)
    ensures
        decode_varnode_list(ev, i) matches Ok((_, k)) ==> k >= i,
    decreases ev.len() - i,
{
    if 0 <= i < ev.len() && is_open(ev[i]) {
        match spec_decode_varnode(ev, i) {
            Ok((v, j)) => {
                if j > i {
                    lemma_decode_varnode_list_after(ev, j);
                }
            },
            Err(_) => {},
        }
    }
}

/// Decode the op templates that follow one another from `i` on.
fn decode_op_list_exec(ev: &[MarshalEvent], i: usize) -> (r: Result<(Vec<OpTpl>, usize), DecodeError>)
    ensures
        match r {
            Ok((ops, k)) => decode_op_list(ev@, i as int) == Ok::<(Seq<(Option<VarnodeTpl>, OpCode, Seq<VarnodeTpl>)>, int), DecodeError>((ops@.map_values(|o: OpTpl| o@), k as int)),
            Err(e) => decode_op_list(ev@, i as int) == Err::<(Seq<(Option<VarnodeTpl>, OpCode, Seq<VarnodeTpl>)>, int), DecodeError>(e),
        },
{
    let mut ops: Vec<OpTpl> = Vec::new();
    if i >= ev.len() {
        proof {
            assert(ops@.map_values(|o: OpTpl| o@) =~= Seq::<(Option<VarnodeTpl>, OpCode, Seq<VarnodeTpl>)>::empty());
        }
        return Ok((ops, i));
    }
    let mut j = i;
    while j < ev.len() && is_open_exec(&ev[j])
        invariant
            i <= j <= ev@.len(),
            decode_op_list(ev@, i as int) == match decode_op_list(ev@, j as int) {
                Ok((rest, k)) => Ok::<(Seq<(Option<VarnodeTpl>, OpCode, Seq<VarnodeTpl>)>, int), DecodeError>((ops@.map_values(|o: OpTpl| o@) + rest, k)),
                Err(e) => Err(e),
            },
        decreases ev@.len() - j,
    {
        match OpTpl::decode(ev, j) {
            Err(e) => {
                return Err(e);
            },
            Ok((op, k)) => {
                proof {
                    lemma_decode_op_advances(ev@, j as int);
                    assert(ops@.push(op).map_values(|o: OpTpl| o@) =~= ops@.map_values(|o: OpTpl| o@).push(op@));
                    match decode_op_list(ev@, k as int) {
                        Ok((rest, n)) => {
                            assert(ops@.map_values(|o: OpTpl| o@).push(op@) + rest =~= ops@.map_values(|o: OpTpl| o@) + (seq![op@] + rest));
                        },
                        Err(_) => {},
                    }
                }
                ops.push(op);
                j = k;
            },
        }
    }
    proof {
        assert(ops@.map_values(|o: OpTpl| o@) + Seq::<(Option<VarnodeTpl>, OpCode, Seq<VarnodeTpl>)>::empty() =~= ops@.map_values(|o: OpTpl| o@));
    }
    Ok((ops, j))
}

/// Encode the op templates `ops` one after the other.
fn encode_ops(ops: &[OpTpl], out: &mut Vec<MarshalEvent>)
    requires
        forall|k: int| 0 <= k < ops@.len() ==> op_encodable(#[trigger] ops@[k]@),
    ensures
        final(out)@ == old(out)@ + ops_events(ops@.map_values(|o: OpTpl| o@)),
{
    let ghost start = out@;
    let ghost view = ops@.map_values(|o: OpTpl| o@);
    let mut k: usize = 0;
    while k < ops.len()
        invariant
            k <= ops@.len(),
            view == ops@.map_values(|o: OpTpl| o@),
            forall|m: int| 0 <= m < ops@.len() ==> op_encodable(#[trigger] ops@[m]@),
            out@ == start + ops_events(view.take(k as int)),
        decreases ops@.len() - k,
    {
        assert(op_encodable(ops@[k as int]@));
        ops[k].encode(out);
        proof {
            assert(view.take(k + 1).drop_last() =~= view.take(k as int));
            assert(view.take(k + 1).last() == ops@[k as int]@);
            assert(out@ =~= start + ops_events(view.take(k + 1)));
        }
        k += 1;
    }
    proof {
        assert(view.take(ops@.len() as int) =~= view);
    }
}

/// Can the construct template be encoded (the space constants of its ops
/// and export name spaces)?
pub open spec fn construct_encodable(ct: ConstructTpl) -> bool {
    &&& forall|k: int| 0 <= k < ct.vec@.len() ==> op_encodable(#[trigger] ct.vec@[k]@)
    &&& ct.result matches Some(h) ==> handle_encodable(h)
}

impl ConstructTpl {
    /// Append the encoding of the construct template, as section
    /// `sectionid` (a negative number for the main section), to `out`.
    pub fn encode(&self, out: &mut Vec<MarshalEvent>, sectionid: i32)
        requires
            construct_encodable(*self),
        ensures
            final(out)@ == old(out)@ + construct_events(self.delayslot, self.numlabels,
                self.vec@.map_values(|o: OpTpl| o@), self.result, sectionid),
    {
        let ghost start = out@;
        out.push(MarshalEvent::Open(ElementId::ConstructTpl));
        if sectionid >= 0 {
            out.push(MarshalEvent::Signed(AttributeId::Section, sectionid as i64));
        }
        if self.delayslot != 0 {
            out.push(MarshalEvent::Signed(AttributeId::Delay, self.delayslot as i64));
        }
        if self.numlabels != 0 {
            out.push(MarshalEvent::Signed(AttributeId::Labels, self.numlabels as i64));
        }
        match &self.result {
            Some(h) => {
                h.encode(out);
            },
            None => {
                out.push(MarshalEvent::Open(ElementId::Null));
                out.push(MarshalEvent::Close(ElementId::Null));
            },
        }
        encode_ops(self.vec.as_slice(), out);
        out.push(MarshalEvent::Close(ElementId::ConstructTpl));
        proof {
            assert(out@ =~= start + construct_events(self.delayslot, self.numlabels,
                self.vec@.map_values(|o: OpTpl| o@), self.result, sectionid));
        }
    }

    /// Decode the construct template encoded at position `pos` of `ev`,
    /// giving it, its section number (-1 for the main section) and the
    /// position after it.
    pub fn decode(ev: &[MarshalEvent], pos: usize) -> (r: Result<(ConstructTpl, i32, usize), DecodeError>)
        ensures
            match r {
                Ok((ct, sec, n)) => spec_decode_construct(ev@, pos as int) == Ok::<((u32, u32, Seq<(Option<VarnodeTpl>, OpCode, Seq<VarnodeTpl>)>, Option<HandleTpl>), i32, int), DecodeError>(((ct.delayslot, ct.numlabels, ct.vec@.map_values(|o: OpTpl| o@), ct.result), sec, n as int)),
                Err(e) => spec_decode_construct(ev@, pos as int) == Err::<((u32, u32, Seq<(Option<VarnodeTpl>, OpCode, Seq<VarnodeTpl>)>, Option<HandleTpl>), i32, int), DecodeError>(e),
            },
    {
        let b = match open_at_exec(ev, pos, ElementId::ConstructTpl) {
            Ok(b) => b,
            Err(e) => {
                return Err(e);
            },
        };
        let n = ev.len();
        assert(pos < n);
        let delay: u32 = match signed_attribute_exec(ev, pos + 1, AttributeId::Delay) {
            Some(v) => v as u32,
            None => 0,
        };
        let labels: u32 = match signed_attribute_exec(ev, pos + 1, AttributeId::Labels) {
            Some(v) => v as u32,
            None => 0,
        };
        let section: i32 = match signed_attribute_exec(ev, pos + 1, AttributeId::Section) {
            Some(v) => v as i32,
            None => -1,
        };
        let (result, j) = if b < ev.len() && ev[b] == MarshalEvent::Open(ElementId::Null) {
            match close_at_exec(ev, b + 1, ElementId::Null) {
                Ok(k) => (None, k),
                Err(e) => {
                    return Err(e);
                },
            }
        } else {
            match HandleTpl::decode(ev, b) {
                Ok((h, k)) => (Some(h), k),
                Err(e) => {
                    return Err(e);
                },
            }
        };
        let (ops, k) = match decode_op_list_exec(ev, j) {
            Ok(x) => x,
            Err(e) => {
                return Err(e);
            },
        };
        match close_at_exec(ev, k, ElementId::ConstructTpl) {
            Ok(m) => Ok((ConstructTpl { delayslot: delay, numlabels: labels, vec: ops, result }, section, m)),
            Err(e) => Err(e),
        }
    }
}

/// Encoding an op in front of others puts its encoding first.
proof fn lemma_ops_events_cons(op: (Option<VarnodeTpl>, OpCode, Seq<VarnodeTpl>), ops: Seq<(Option<VarnodeTpl>, OpCode, Seq<VarnodeTpl>)>)
    ensures
        ops_events(seq![op] + ops) == op_events(op) + ops_events(ops),
    decreases ops.len(),
{
    if ops.len() == 0 {
        assert(seq![op] + ops =~= seq![op]);
        assert(seq![op].drop_last() =~= Seq::<(Option<VarnodeTpl>, OpCode, Seq<VarnodeTpl>)>::empty());
        assert(seq![op].last() == op);
        assert(ops_events(Seq::<(Option<VarnodeTpl>, OpCode, Seq<VarnodeTpl>)>::empty()) == Seq::<MarshalEvent>::empty());
        assert(ops_events(seq![op]) =~= op_events(op));
        assert(op_events(op) + ops_events(ops) =~= op_events(op));
    } else {
        assert((seq![op] + ops).drop_last() =~= seq![op] + ops.drop_last());
        assert((seq![op] + ops).last() == ops.last());
        lemma_ops_events_cons(op, ops.drop_last());
        assert(ops_events(seq![op] + ops) =~= op_events(op) + ops_events(ops));
    }
}

/// Decoding reads back a run of encoded op templates, stopping where no
/// element opens.
#[verifier::rlimit(40)]
pub proof fn lemma_op_list_roundtrip(ops: Seq<(Option<VarnodeTpl>, OpCode, Seq<VarnodeTpl>)>, pre: Seq<MarshalEvent>, post: Seq<MarshalEvent>)
    requires
        forall|k: int| 0 <= k < ops.len() ==> op_encodable(#[trigger] ops[k]),
        post.len() == 0 || !is_open(post[0]),
    ensures
        decode_op_list(pre + ops_events(ops) + post, pre.len() as int)
            == Ok::<(Seq<(Option<VarnodeTpl>, OpCode, Seq<VarnodeTpl>)>, int), DecodeError>((ops.map_values(|o: (Option<VarnodeTpl>, OpCode, Seq<VarnodeTpl>)| decoded_op(o)), (pre.len() + ops_events(ops).len()) as int)),
    decreases ops.len(),
{
    let ev = pre + ops_events(ops) + post;
    let p = pre.len() as int;
    if ops.len() == 0 {
        assert(ops_events(ops) =~= Seq::<MarshalEvent>::empty());
        assert(ops.map_values(|o: (Option<VarnodeTpl>, OpCode, Seq<VarnodeTpl>)| decoded_op(o)) =~= Seq::<(Option<VarnodeTpl>, OpCode, Seq<VarnodeTpl>)>::empty());
        if p < ev.len() {
            assert(ev[p] == post[0]);
        }
    } else {
        let op = ops[0];
        let rest = ops.drop_first();
        assert(ops =~= seq![op] + rest);
        lemma_ops_events_cons(op, rest);
        let oe = op_events(op);
        let re = ops_events(rest);
        assert(ev =~= pre + oe + (re + post));
        assert(op_encodable(ops[0]));
        lemma_op_roundtrip(op, pre, re + post);
        assert(ev[p] == oe[0]);
        assert(forall|k: int| 0 <= k < rest.len() ==> rest[k] == ops[k + 1]);
        assert(ev =~= (pre + oe) + re + post);
        lemma_op_list_roundtrip(rest, pre + oe, post);
        assert(seq![decoded_op(op)] + rest.map_values(|o: (Option<VarnodeTpl>, OpCode, Seq<VarnodeTpl>)| decoded_op(o))
            =~= ops.map_values(|o: (Option<VarnodeTpl>, OpCode, Seq<VarnodeTpl>)| decoded_op(o)));
    }
}

/// Decoding reads back an encoded construct template: its delay-slot size,
/// label count, ops and export as decoded, and its section number (any
/// negative number comes back as -1).
#[verifier::rlimit(40)]
pub proof fn lemma_construct_roundtrip(
    delayslot: u32,
    numlabels: u32,
    ops: Seq<(Option<VarnodeTpl>, OpCode, Seq<VarnodeTpl>)>,
    result: Option<HandleTpl>,
    sectionid: i32,
    pre: Seq<MarshalEvent>,
    post: Seq<MarshalEvent>,
)
    requires
        forall|k: int| 0 <= k < ops.len() ==> op_encodable(#[trigger] ops[k]),
        result matches Some(h) ==> handle_encodable(h),
    ensures
        spec_decode_construct(pre + construct_events(delayslot, numlabels, ops, result, sectionid) + post, pre.len() as int)
            == Ok::<((u32, u32, Seq<(Option<VarnodeTpl>, OpCode, Seq<VarnodeTpl>)>, Option<HandleTpl>), i32, int), DecodeError>((
                (delayslot, numlabels,
                    ops.map_values(|o: (Option<VarnodeTpl>, OpCode, Seq<VarnodeTpl>)| decoded_op(o)),
                    match result {
                        Some(h) => Some(decoded_handle(h)),
                        None => None,
                    }),
                if sectionid >= 0 { sectionid } else { -1i32 },
                (pre.len() + construct_events(delayslot, numlabels, ops, result, sectionid).len()) as int,
            )),
{
    let attrs = construct_attributes(delayslot, numlabels, sectionid);
    let head = seq![MarshalEvent::Open(ElementId::ConstructTpl)] + attrs;
    let rese = match result {
        Some(h) => handle_events(h),
        None => null_events(),
    };
    let opse = ops_events(ops);
    let tail = seq![MarshalEvent::Close(ElementId::ConstructTpl)];
    let ev = pre + construct_events(delayslot, numlabels, ops, result, sectionid) + post;
    let p = pre.len() as int;
    let b = p + 1 + attrs.len();
    assert(construct_events(delayslot, numlabels, ops, result, sectionid) =~= head + rese + opse + tail);
    assert(ev =~= (pre + head) + rese + (opse + tail + post));
    assert(ev[p] == MarshalEvent::Open(ElementId::ConstructTpl));
    assert(rese.len() > 0 && is_open(rese[0]));
    assert(ev[b] == rese[0]);
    assert(forall|k: int| 0 <= k < attrs.len() ==> ev[p + 1 + k] == attrs[k]);
    lemma_construct_attributes(ev, p + 1, attrs, delayslot, numlabels, sectionid);
    match result {
        Some(h) => {
            lemma_handle_roundtrip(h, pre + head, opse + tail + post);
            assert(ev[b] != MarshalEvent::Open(ElementId::Null));
        },
        None => {
            assert(ev[b + 1] == MarshalEvent::Close(ElementId::Null));
        },
    }
    assert(ev =~= (pre + head + rese) + opse + (tail + post));
    lemma_op_list_roundtrip(ops, pre + head + rese, tail + post);
    assert(ev[b + rese.len() + opse.len()] == MarshalEvent::Close(ElementId::ConstructTpl));
}

/// Reading the attributes of an encoded construct template gives back the
/// values written.
proof fn lemma_construct_attributes(ev: Seq<MarshalEvent>, i: int, attrs: Seq<MarshalEvent>, delayslot: u32, numlabels: u32, sectionid: i32)
    requires
        attrs == construct_attributes(delayslot, numlabels, sectionid),
        0 <= i,
        i + attrs.len() < ev.len(),
        forall|k: int| 0 <= k < attrs.len() ==> ev[i + k] == attrs[k],
        !is_attribute(ev[i + attrs.len()]),
    ensures
        attributes_end(ev, i) == i + attrs.len(),
        signed_attribute(ev, i, AttributeId::Delay) == if delayslot != 0 { Some(delayslot as i64) } else { None::<i64> },
        signed_attribute(ev, i, AttributeId::Labels) == if numlabels != 0 { Some(numlabels as i64) } else { None::<i64> },
        signed_attribute(ev, i, AttributeId::Section) == if sectionid >= 0 { Some(sectionid as i64) } else { None::<i64> },
{
    reveal_with_fuel(attributes_end, 4);
    reveal_with_fuel(find_attribute, 4);
    let sec = MarshalEvent::Signed(AttributeId::Section, sectionid as i64);
    let del = MarshalEvent::Signed(AttributeId::Delay, delayslot as i64);
    let lab = MarshalEvent::Signed(AttributeId::Labels, numlabels as i64);
    if sectionid >= 0 {
        if delayslot != 0 {
            if numlabels != 0 {
                assert(attrs =~= seq![sec, del, lab]);
            } else {
                assert(attrs =~= seq![sec, del]);
            }
        } else {
            if numlabels != 0 {
                assert(attrs =~= seq![sec, lab]);
            } else {
                assert(attrs =~= seq![sec]);
            }
        }
    } else {
        if delayslot != 0 {
            if numlabels != 0 {
                assert(attrs =~= seq![del, lab]);
            } else {
                assert(attrs =~= seq![del]);
            }
        } else {
            if numlabels != 0 {
                assert(attrs =~= seq![lab]);
            } else {
                assert(attrs =~= Seq::<MarshalEvent>::empty());
            }
        }
    }
    if attrs.len() > 0 {
        assert(ev[i] == attrs[0]);
    }
    if attrs.len() > 1 {
        assert(ev[i + 1] == attrs[1]);
    }
    if attrs.len() > 2 {
        assert(ev[i + 2] == attrs[2]);
    }
}

/// A handle reference with field `sel` (and truncation amount `plus`).
pub open spec fn handle_ref(h: i32, sel: VField, plus: u64) -> ConstTpl {
    ConstTpl { type_: ConstType::Handle, value_spaceid: None, value_handle_index: h, value_real: plus, select: sel }
}

/// The field of a handle reference is written as the number the format
/// fixes for it, and read back from that number: 0 is the space, 1 the
/// offset, 2 the size and 3 the offset with a truncation amount; any other
/// number is refused.
pub proof fn lemma_handle_selector_numbering(h: i32, plus: u64, n: i64)
    ensures
        const_events(handle_ref(h, VField::VSpace, 0)) == seq![
            MarshalEvent::Open(ElementId::ConstHandle),
            MarshalEvent::Signed(AttributeId::Val, h as i64),
            MarshalEvent::Signed(AttributeId::S, 0i64),
            MarshalEvent::Close(ElementId::ConstHandle),
        ],
        const_events(handle_ref(h, VField::VOffset, 0)) == seq![
            MarshalEvent::Open(ElementId::ConstHandle),
            MarshalEvent::Signed(AttributeId::Val, h as i64),
            MarshalEvent::Signed(AttributeId::S, 1i64),
            MarshalEvent::Close(ElementId::ConstHandle),
        ],
        const_events(handle_ref(h, VField::VSize, 0)) == seq![
            MarshalEvent::Open(ElementId::ConstHandle),
            MarshalEvent::Signed(AttributeId::Val, h as i64),
            MarshalEvent::Signed(AttributeId::S, 2i64),
            MarshalEvent::Close(ElementId::ConstHandle),
        ],
        const_events(handle_ref(h, VField::VOffsetPlus, plus)) == seq![
            MarshalEvent::Open(ElementId::ConstHandle),
            MarshalEvent::Signed(AttributeId::Val, h as i64),
            MarshalEvent::Signed(AttributeId::S, 3i64),
            MarshalEvent::Unsigned(AttributeId::Plus, plus),
            MarshalEvent::Close(ElementId::ConstHandle),
        ],
        spec_decode_const(seq![
            MarshalEvent::Open(ElementId::ConstHandle),
            MarshalEvent::Signed(AttributeId::Val, h as i64),
            MarshalEvent::Signed(AttributeId::S, 0i64),
            MarshalEvent::Close(ElementId::ConstHandle),
        ], 0) == Ok::<(ConstTpl, int), DecodeError>((handle_ref(h, VField::VSpace, 0), 4)),
        spec_decode_const(seq![
            MarshalEvent::Open(ElementId::ConstHandle),
            MarshalEvent::Signed(AttributeId::Val, h as i64),
            MarshalEvent::Signed(AttributeId::S, 1i64),
            MarshalEvent::Close(ElementId::ConstHandle),
        ], 0) == Ok::<(ConstTpl, int), DecodeError>((handle_ref(h, VField::VOffset, 0), 4)),
        spec_decode_const(seq![
            MarshalEvent::Open(ElementId::ConstHandle),
            MarshalEvent::Signed(AttributeId::Val, h as i64),
            MarshalEvent::Signed(AttributeId::S, 2i64),
            MarshalEvent::Close(ElementId::ConstHandle),
        ], 0) == Ok::<(ConstTpl, int), DecodeError>((handle_ref(h, VField::VSize, 0), 4)),
        spec_decode_const(seq![
            MarshalEvent::Open(ElementId::ConstHandle),
            MarshalEvent::Signed(AttributeId::Val, h as i64),
            MarshalEvent::Signed(AttributeId::S, 3i64),
            MarshalEvent::Unsigned(AttributeId::Plus, plus),
            MarshalEvent::Close(ElementId::ConstHandle),
        ], 0) == Ok::<(ConstTpl, int), DecodeError>((handle_ref(h, VField::VOffsetPlus, plus), 5)),
        0 <= n <= 0xffff_ffff && n > 3 ==> spec_decode_const(seq![
            MarshalEvent::Open(ElementId::ConstHandle),
            MarshalEvent::Signed(AttributeId::Val, h as i64),
            MarshalEvent::Signed(AttributeId::S, n),
            MarshalEvent::Close(ElementId::ConstHandle),
        ], 0) == Err::<(ConstTpl, int), DecodeError>(DecodeError::BadHandleSelector),
{
    reveal_with_fuel(find_attribute, 4);
    reveal_with_fuel(attributes_end, 5);
    assert((h as i64) as i32 == h);
    assert(0i64 as u32 == 0u32);
    assert(1i64 as u32 == 1u32);
    assert(2i64 as u32 == 2u32);
    assert(3i64 as u32 == 3u32);
    if 0 <= n <= 0xffff_ffff && n > 3 {
        assert(n as u32 == n);
    }
}

} // verus!
