//! The encoded form of the context database: a stream of element and
//! attribute events holding the context at each split point (variable by
//! variable) and the tracked registers, written by
//! [`ContextInternal::encode`] and read back by [`ContextInternal::decode`]
//! and [`ContextInternal::decode_from_spec`].
use vstd::prelude::*;

use crate::globalcontext::{
    addr_lt, in_region, var_lookup, ContextAddr, ContextInternal, ContextPoint, ContextVariable, TrackedContext, VarnodeLoc,
};
use crate::space::AddrSpace;
use crate::trackdb::{next_after, TrackedPoint};

verus! {

/// The elements of the context encoding.
#[derive(Debug, Clone, Copy, PartialEq, Eq, Structural)]
pub enum CtxElement {
    /// The whole database.
    ContextPoints,
    /// The context at one split point (or, without an address, the default).
    ContextPointset,
    /// The tracked registers at one split point.
    TrackedPointset,
    /// One variable value, or one tracked register.
    Value,
    /// The context description of a processor specification.
    ContextData,
    /// Context values over a range.
    ContextSet,
    /// Tracked registers over a range.
    TrackedSet,
}

/// The attributes of the context encoding.
#[derive(Debug, Clone, Copy, PartialEq, Eq, Structural)]
pub enum CtxAttribute {
    /// A space.
    Space,
    /// An offset.
    Offset,
    /// A size in bytes.
    Size,
    /// A value.
    Val,
    /// A variable name.
    Name,
    /// The first offset of a range.
    First,
    /// The last offset of a range.
    Last,
}

/// One step of the context encoding: an element opens or closes, or the
/// open element gets an attribute.
#[derive(Debug, Clone, PartialEq, Eq)]
pub enum CtxEvent {
    /// An element opens.
    Open(CtxElement),
    /// An element closes.
    Close(CtxElement),
    /// An unsigned integer attribute.
    Unsigned(CtxAttribute, u64),
    /// A space attribute.
    Space(CtxAttribute, AddrSpace),
    /// A text attribute.
    Text(CtxAttribute, Vec<u8>),
}

/// Why the context encoding could not be read.
#[derive(Debug, Clone, Copy, PartialEq, Eq, Structural)]
pub enum CtxDecodeError {
    /// The stream ended inside an element.
    UnexpectedEnd,
    /// An element opened where another one was expected.
    UnexpectedElement,
    /// An element did not close where it should.
    MissingClose,
    /// A required attribute is absent or of the wrong kind.
    MissingAttribute,
    /// A child of the database element is of no known kind.
    BadPointsTag,
    /// A child of a specification's context element is of no known kind.
    BadDataTag,
    /// A range names no space.
    NoRangeSpace,
    /// A range that is empty or runs past its space.
    IllegalRange,
    /// A value is given for a variable that is not registered.
    NoSuchVariable,
}

impl CtxDecodeError {
    /// A description of the error.
    pub fn explain(&self) -> (r: &'static str)
        ensures
            r@ == match self {
                CtxDecodeError::UnexpectedEnd => "Unexpected end of stream"@,
                CtxDecodeError::UnexpectedElement => "Unexpected element"@,
                CtxDecodeError::MissingClose => "Expecting element close"@,
                CtxDecodeError::MissingAttribute => "Missing attribute"@,
                CtxDecodeError::BadPointsTag => "Bad <context_points> tag"@,
                CtxDecodeError::BadDataTag => "Bad <context_data> tag"@,
                CtxDecodeError::NoRangeSpace => "No address space indicated in range tag"@,
                CtxDecodeError::IllegalRange => "Illegal range tag"@,
                CtxDecodeError::NoSuchVariable => "Non-existent context variable"@,
            },
    {
        match self {
            CtxDecodeError::UnexpectedEnd => "Unexpected end of stream",
            CtxDecodeError::UnexpectedElement => "Unexpected element",
            CtxDecodeError::MissingClose => "Expecting element close",
            CtxDecodeError::MissingAttribute => "Missing attribute",
            CtxDecodeError::BadPointsTag => "Bad <context_points> tag",
            CtxDecodeError::BadDataTag => "Bad <context_data> tag",
            CtxDecodeError::NoRangeSpace => "No address space indicated in range tag",
            CtxDecodeError::IllegalRange => "Illegal range tag",
            CtxDecodeError::NoSuchVariable => "Non-existent context variable",
        }
    }
}

/// Is `e` an attribute event?
pub open spec fn is_attr(e: CtxEvent) -> bool {
    match e {
        CtxEvent::Open(_) | CtxEvent::Close(_) => false,
        _ => true,
    }
}

/// The attribute an attribute event carries.
pub open spec fn attr_of(e: CtxEvent) -> CtxAttribute {
    match e {
        CtxEvent::Unsigned(a, _) => a,
        CtxEvent::Space(a, _) => a,
        CtxEvent::Text(a, _) => a,
        _ => CtxAttribute::Val,
    }
}

/// The position of the first attribute `a` in the run of attributes from
/// `i` on, if any.
pub open spec fn find_attr(ev: Seq<CtxEvent>, i: int, a: CtxAttribute) -> Option<int>
    decreases ev.len() - i,
{
    if i < 0 || i >= ev.len() || !is_attr(ev[i]) {
        None
    } else if attr_of(ev[i]) == a {
        Some(i)
    } else {
        find_attr(ev, i + 1, a)
    }
}

/// The position just past the run of attributes from `i` on.
pub open spec fn attrs_end(ev: Seq<CtxEvent>, i: int) -> int
    decreases ev.len() - i,
{
    if i < 0 || i >= ev.len() || !is_attr(ev[i]) {
        i
    } else {
        attrs_end(ev, i + 1)
    }
}

/// The unsigned attribute `a` of the element whose attributes start at `i`.
pub open spec fn unsigned_attr(ev: Seq<CtxEvent>, i: int, a: CtxAttribute) -> Option<u64> {
    match find_attr(ev, i, a) {
        Some(k) => match ev[k] {
            CtxEvent::Unsigned(_, v) => Some(v),
            _ => None,
        },
        None => None,
    }
}

/// The space attribute `a` of the element whose attributes start at `i`.
pub open spec fn space_attr(ev: Seq<CtxEvent>, i: int, a: CtxAttribute) -> Option<AddrSpace> {
    match find_attr(ev, i, a) {
        Some(k) => match ev[k] {
            CtxEvent::Space(_, s) => Some(s),
            _ => None,
        },
        None => None,
    }
}

/// The text attribute `a` of the element whose attributes start at `i`.
pub open spec fn text_attr(ev: Seq<CtxEvent>, i: int, a: CtxAttribute) -> Option<Seq<u8>> {
    match find_attr(ev, i, a) {
        Some(k) => match ev[k] {
            CtxEvent::Text(_, t) => Some(t@),
            _ => None,
        },
        None => None,
    }
}

/// Does element `el` open at `i`?
pub open spec fn opens_at(ev: Seq<CtxEvent>, i: int, el: CtxElement) -> bool {
    0 <= i < ev.len() && ev[i] == CtxEvent::Open(el)
}

/// Does element `el` close at `i`?
pub open spec fn closes_at(ev: Seq<CtxEvent>, i: int, el: CtxElement) -> bool {
    0 <= i < ev.len() && ev[i] == CtxEvent::Close(el)
}

fn find_attr_exec(ev: &[CtxEvent], i: usize, a: CtxAttribute) -> (r: Option<usize>)
    ensures
        match r {
            Some(k) => find_attr(ev@, i as int, a) == Some(k as int) && i <= k < ev@.len(),
            None => find_attr(ev@, i as int, a) is None,
        },
    decreases ev@.len() - i,
{
    if i >= ev.len() {
        return None;
    }
    match &ev[i] {
        CtxEvent::Open(_) | CtxEvent::Close(_) => None,
        CtxEvent::Unsigned(b, _) | CtxEvent::Space(b, _) | CtxEvent::Text(b, _) => {
            if *b == a {
                Some(i)
            } else {
                find_attr_exec(ev, i + 1, a)
            }
        },
    }
}

fn attrs_end_exec(ev: &[CtxEvent], i: usize) -> (r: usize)
    ensures
        r as int == attrs_end(ev@, i as int),
    decreases ev@.len() - i,
{
    if i >= ev.len() {
        return i;
    }
    match &ev[i] {
        CtxEvent::Open(_) | CtxEvent::Close(_) => i,
        _ => attrs_end_exec(ev, i + 1),
    }
}

fn unsigned_attr_exec(ev: &[CtxEvent], i: usize, a: CtxAttribute) -> (r: Option<u64>)
    ensures
        r == unsigned_attr(ev@, i as int, a),
{
    match find_attr_exec(ev, i, a) {
        Some(k) => match &ev[k] {
            CtxEvent::Unsigned(_, v) => Some(*v),
            _ => None,
        },
        None => None,
    }
}

fn space_attr_exec(ev: &[CtxEvent], i: usize, a: CtxAttribute) -> (r: Option<AddrSpace>)
    ensures
        r == space_attr(ev@, i as int, a),
{
    match find_attr_exec(ev, i, a) {
        Some(k) => match &ev[k] {
            CtxEvent::Space(_, s) => Some(*s),
            _ => None,
        },
        None => None,
    }
}

/// A copy of a byte string.
fn copy_bytes(s: &[u8]) -> (r: Vec<u8>)
    ensures
        r@ == s@,
{
    let mut r: Vec<u8> = Vec::new();
    let mut i: usize = 0;
    while i < s.len()
        invariant
            i <= s@.len(),
            r@ == s@.subrange(0, i as int),
        decreases s@.len() - i,
    {
        r.push(s[i]);
        i += 1;
        proof {
            assert(r@ =~= s@.subrange(0, i as int));
        }
    }
    proof {
        assert(s@.subrange(0, s@.len() as int) =~= s@);
    }
    r
}

fn text_attr_exec(ev: &[CtxEvent], i: usize, a: CtxAttribute) -> (r: Option<Vec<u8>>)
    ensures
        match r {
            Some(t) => text_attr(ev@, i as int, a) == Some(t@),
            None => text_attr(ev@, i as int, a) is None,
        },
{
    match find_attr_exec(ev, i, a) {
        Some(k) => match &ev[k] {
            CtxEvent::Text(_, t) => Some(copy_bytes(t.as_slice())),
            _ => None,
        },
        None => None,
    }
}

fn opens_at_exec(ev: &[CtxEvent], i: usize, el: CtxElement) -> (r: bool)
    ensures
        r == opens_at(ev@, i as int, el),
{
    if i >= ev.len() {
        return false;
    }
    match &ev[i] {
        CtxEvent::Open(e) => *e == el,
        _ => false,
    }
}

fn closes_at_exec(ev: &[CtxEvent], i: usize, el: CtxElement) -> (r: bool)
    ensures
        r == closes_at(ev@, i as int, el),
{
    if i >= ev.len() {
        return false;
    }
    match &ev[i] {
        CtxEvent::Close(e) => *e == el,
        _ => false,
    }
}

// ---------------------------------------------------------------------------
// Tracked registers
// ---------------------------------------------------------------------------

/// The encoding of one tracked register: a `set` element with its storage
/// and its value.
pub open spec fn tracked_events(t: TrackedContext) -> Seq<CtxEvent> {
    seq![
        CtxEvent::Open(CtxElement::Value),
        CtxEvent::Space(CtxAttribute::Space, t.loc.space),
        CtxEvent::Unsigned(CtxAttribute::Offset, t.loc.offset),
        CtxEvent::Unsigned(CtxAttribute::Size, t.loc.size as u64),
        CtxEvent::Unsigned(CtxAttribute::Val, t.val),
        CtxEvent::Close(CtxElement::Value),
    ]
}

/// The encodings of a list of tracked registers, one after another.
pub open spec fn tracked_list_events(ts: Seq<TrackedContext>) -> Seq<CtxEvent>
    decreases ts.len(),
{
    if ts.len() == 0 {
        Seq::empty()
    } else {
        tracked_events(ts[0]) + tracked_list_events(ts.drop_first())
    }
}

/// Reading one tracked register at `pos`: a `set` element with a space,
/// offset, size (which must fit 32 bits) and value; the register and the
/// position after the element.
pub open spec fn spec_decode_tracked(ev: Seq<CtxEvent>, pos: int) -> Result<(TrackedContext, int), CtxDecodeError> {
    if pos >= ev.len() {
        Err(CtxDecodeError::UnexpectedEnd)
    } else if !opens_at(ev, pos, CtxElement::Value) {
        Err(CtxDecodeError::UnexpectedElement)
    } else {
        let a = pos + 1;
        match (space_attr(ev, a, CtxAttribute::Space), unsigned_attr(ev, a, CtxAttribute::Offset), unsigned_attr(
            ev,
            a,
            CtxAttribute::Size,
        ), unsigned_attr(ev, a, CtxAttribute::Val)) {
            (Some(s), Some(o), Some(z), Some(v)) => if z > u32::MAX {
                Err(CtxDecodeError::MissingAttribute)
            } else if !closes_at(ev, attrs_end(ev, a), CtxElement::Value) {
                Err(CtxDecodeError::MissingClose)
            } else {
                Ok((TrackedContext { loc: VarnodeLoc { space: s, offset: o, size: z as u32 }, val: v }, attrs_end(ev, a) + 1))
            },
            _ => Err(CtxDecodeError::MissingAttribute),
        }
    }
}

impl TrackedContext {
    /// Append the encoding of the register and its value to `out`.
    pub fn encode(&self, out: &mut Vec<CtxEvent>)
        ensures
            final(out)@ == old(out)@ + tracked_events(*self),
    {
        out.push(CtxEvent::Open(CtxElement::Value));
        out.push(CtxEvent::Space(CtxAttribute::Space, self.loc.space));
        out.push(CtxEvent::Unsigned(CtxAttribute::Offset, self.loc.offset));
        out.push(CtxEvent::Unsigned(CtxAttribute::Size, self.loc.size as u64));
        out.push(CtxEvent::Unsigned(CtxAttribute::Val, self.val));
        out.push(CtxEvent::Close(CtxElement::Value));
        proof {
            assert(out@ =~= old(out)@ + tracked_events(*self));
        }
    }

    /// Read a tracked register from the `set` element at `pos`, with the
    /// position after it (see [`spec_decode_tracked`]).
    pub fn decode(ev: &[CtxEvent], pos: usize) -> (r: Result<(TrackedContext, usize), CtxDecodeError>)
        ensures
            match r {
                Ok((t, p)) => spec_decode_tracked(ev@, pos as int) == Ok::<(TrackedContext, int), CtxDecodeError>((t, p as int)),
                Err(e) => spec_decode_tracked(ev@, pos as int) == Err::<(TrackedContext, int), CtxDecodeError>(e),
            },
    {
        if pos >= ev.len() {
            return Err(CtxDecodeError::UnexpectedEnd);
        }
        if !opens_at_exec(ev, pos, CtxElement::Value) {
            return Err(CtxDecodeError::UnexpectedElement);
        }
        let a = pos + 1;
        let s = space_attr_exec(ev, a, CtxAttribute::Space);
        let o = unsigned_attr_exec(ev, a, CtxAttribute::Offset);
        let z = unsigned_attr_exec(ev, a, CtxAttribute::Size);
        let v = unsigned_attr_exec(ev, a, CtxAttribute::Val);
        match (s, o, z, v) {
            (Some(s), Some(o), Some(z), Some(v)) => {
                if z > u32::MAX as u64 {
                    return Err(CtxDecodeError::MissingAttribute);
                }
                let end = attrs_end_exec(ev, a);
                if !closes_at_exec(ev, end, CtxElement::Value) {
                    return Err(CtxDecodeError::MissingClose);
                }
                Ok((TrackedContext { loc: VarnodeLoc { space: s, offset: o, size: z as u32 }, val: v }, end + 1))
            },
            _ => Err(CtxDecodeError::MissingAttribute),
        }
    }
}


/// Reading the registers of a list of `set` elements from `i` on, up to the
/// first event that opens no element: the registers and the position after
/// the last of them.
pub open spec fn spec_decode_tracked_list(ev: Seq<CtxEvent>, i: int) -> Result<(Seq<TrackedContext>, int), CtxDecodeError>
    decreases ev.len() - i,
{
    if 0 <= i < ev.len() && ev[i] is Open {
        match spec_decode_tracked(ev, i) {
            Ok((t, j)) => if j <= i {
                Err(CtxDecodeError::UnexpectedEnd)
            } else {
                match spec_decode_tracked_list(ev, j) {
                    Ok((ts, k)) => Ok((seq![t] + ts, k)),
                    Err(e) => Err(e),
                }
            },
            Err(e) => Err(e),
        }
    } else {
        Ok((Seq::empty(), i))
    }
}

/// A register read from the stream lies after where it started.
proof fn lemma_decode_tracked_advances(ev: Seq<CtxEvent>, pos: int)
    ensures
        spec_decode_tracked(ev, pos) matches Ok((t, j)) ==> j > pos,
{
    if pos < ev.len() && opens_at(ev, pos, CtxElement::Value) {
        lemma_attrs_end_after(ev, pos + 1);
    }
}

proof fn lemma_attrs_end_after(ev: Seq<CtxEvent>, i: int)
    ensures
        attrs_end(ev, i) >= i,
    decreases ev.len() - i,
{
    if !(i < 0 || i >= ev.len() || !is_attr(ev[i])) {
        lemma_attrs_end_after(ev, i + 1);
    }
}

/// Read the tracked registers of a list of `set` elements from `i` on (see
/// [`spec_decode_tracked_list`]).
pub fn decode_tracked(ev: &[CtxEvent], i: usize) -> (r: Result<(Vec<TrackedContext>, usize), CtxDecodeError>)
    ensures
        match r {
            Ok((ts, k)) => spec_decode_tracked_list(ev@, i as int) == Ok::<(Seq<TrackedContext>, int), CtxDecodeError>((ts@, k as int)),
            Err(e) => spec_decode_tracked_list(ev@, i as int) == Err::<(Seq<TrackedContext>, int), CtxDecodeError>(e),
        },
{
    let mut out: Vec<TrackedContext> = Vec::new();
    let mut j: usize = i;
    while j < ev.len() && is_open_exec(&ev[j])
        invariant
            i <= j,
            forall|ts: Seq<TrackedContext>, k: int| spec_decode_tracked_list(ev@, j as int) == Ok::<(Seq<TrackedContext>, int), CtxDecodeError>((ts, k))
                ==> spec_decode_tracked_list(ev@, i as int) == Ok::<(Seq<TrackedContext>, int), CtxDecodeError>((out@ + ts, k)),
            forall|e: CtxDecodeError| spec_decode_tracked_list(ev@, j as int) == Err::<(Seq<TrackedContext>, int), CtxDecodeError>(e)
                ==> spec_decode_tracked_list(ev@, i as int) == Err::<(Seq<TrackedContext>, int), CtxDecodeError>(e),
        decreases ev@.len() - j,
    {
        proof {
            lemma_decode_tracked_advances(ev@, j as int);
        }
        let (t, nj) = match TrackedContext::decode(ev, j) {
            Ok(x) => x,
            Err(e) => return Err(e),
        };
        proof {
            assert forall|ts: Seq<TrackedContext>, k: int| spec_decode_tracked_list(ev@, nj as int) == Ok::<(Seq<TrackedContext>, int), CtxDecodeError>((ts, k))
                implies spec_decode_tracked_list(ev@, i as int) == Ok::<(Seq<TrackedContext>, int), CtxDecodeError>((out@.push(t) + ts, k)) by {
                assert(out@.push(t) + ts =~= out@ + (seq![t] + ts));
            }
        }
        out.push(t);
        j = nj;
    }
    proof {
        assert(out@ + Seq::<TrackedContext>::empty() =~= out@);
    }
    Ok((out, j))
}

fn is_open_exec(e: &CtxEvent) -> (r: bool)
    ensures
        r == (*e is Open),
{
    match e {
        CtxEvent::Open(_) => true,
        _ => false,
    }
}

/// Reading back the encoding of a tracked register gives the register, and
/// the position after its encoding.
pub proof fn lemma_tracked_roundtrip(t: TrackedContext, pre: Seq<CtxEvent>, post: Seq<CtxEvent>)
    ensures
        spec_decode_tracked(pre + tracked_events(t) + post, pre.len() as int)
            == Ok::<(TrackedContext, int), CtxDecodeError>((t, pre.len() + 6int)),
{
    let ev = pre + tracked_events(t) + post;
    let p = pre.len() as int;
    assert(ev[p] == CtxEvent::Open(CtxElement::Value));
    assert(ev[p + 1] == CtxEvent::Space(CtxAttribute::Space, t.loc.space));
    assert(ev[p + 2] == CtxEvent::Unsigned(CtxAttribute::Offset, t.loc.offset));
    assert(ev[p + 3] == CtxEvent::Unsigned(CtxAttribute::Size, t.loc.size as u64));
    assert(ev[p + 4] == CtxEvent::Unsigned(CtxAttribute::Val, t.val));
    assert(ev[p + 5] == CtxEvent::Close(CtxElement::Value));
    assert(find_attr(ev, p + 1, CtxAttribute::Space) == Some(p + 1));
    assert(find_attr(ev, p + 4, CtxAttribute::Offset) == find_attr(ev, p + 5, CtxAttribute::Offset));
    assert(find_attr(ev, p + 1, CtxAttribute::Offset) == Some(p + 2)) by {
        assert(find_attr(ev, p + 2, CtxAttribute::Offset) == Some(p + 2));
    }
    assert(find_attr(ev, p + 1, CtxAttribute::Size) == Some(p + 3)) by {
        assert(find_attr(ev, p + 3, CtxAttribute::Size) == Some(p + 3));
        assert(find_attr(ev, p + 2, CtxAttribute::Size) == Some(p + 3));
    }
    assert(find_attr(ev, p + 1, CtxAttribute::Val) == Some(p + 4)) by {
        assert(find_attr(ev, p + 4, CtxAttribute::Val) == Some(p + 4));
        assert(find_attr(ev, p + 3, CtxAttribute::Val) == Some(p + 4));
        assert(find_attr(ev, p + 2, CtxAttribute::Val) == Some(p + 4));
    }
    assert(attrs_end(ev, p + 1) == p + 5) by {
        assert(attrs_end(ev, p + 5) == p + 5);
        assert(attrs_end(ev, p + 4) == p + 5);
        assert(attrs_end(ev, p + 3) == p + 5);
        assert(attrs_end(ev, p + 2) == p + 5);
    }
}

/// Reading back the encodings of a list of tracked registers, when no
/// element opens right after them, gives the list.
pub proof fn lemma_tracked_list_roundtrip(ts: Seq<TrackedContext>, pre: Seq<CtxEvent>, post: Seq<CtxEvent>)
    requires
        post.len() == 0 || !(post[0] is Open),
    ensures
        spec_decode_tracked_list(pre + tracked_list_events(ts) + post, pre.len() as int)
            == Ok::<(Seq<TrackedContext>, int), CtxDecodeError>((ts, pre.len() + tracked_list_events(ts).len() as int)),
    decreases ts.len(),
{
    let ev = pre + tracked_list_events(ts) + post;
    let p = pre.len() as int;
    if ts.len() == 0 {
        assert(ts =~= Seq::<TrackedContext>::empty());
        assert(tracked_list_events(ts) =~= Seq::<CtxEvent>::empty());
        assert(ev =~= pre + post);
        if p < ev.len() {
            assert(ev[p] == post[0]);
        }
    } else {
        let rest = ts.drop_first();
        let mid = tracked_list_events(rest) + post;
        assert(ev =~= pre + tracked_events(ts[0]) + mid);
        lemma_tracked_roundtrip(ts[0], pre, mid);
        assert(ev[p] == CtxEvent::Open(CtxElement::Value));
        let pre2 = pre + tracked_events(ts[0]);
        assert(ev =~= pre2 + tracked_list_events(rest) + post);
        lemma_tracked_list_roundtrip(rest, pre2, post);
        assert(seq![ts[0]] + rest =~= ts);
        assert(tracked_list_events(ts) == tracked_events(ts[0]) + tracked_list_events(rest));
    }
}

/// Append the encodings of the tracked registers `ts` to `out`.
fn encode_tracked_list(ts: &[TrackedContext], out: &mut Vec<CtxEvent>)
    ensures
        final(out)@ == old(out)@ + tracked_list_events(ts@),
{
    let mut i: usize = 0;
    proof {
        assert(ts@.subrange(0, 0) =~= Seq::<TrackedContext>::empty());
        assert(out@ =~= old(out)@ + tracked_list_events(ts@.subrange(0, 0)));
    }
    while i < ts.len()
        invariant
            i <= ts@.len(),
            out@ == old(out)@ + tracked_list_events(ts@.subrange(0, i as int)),
        decreases ts@.len() - i,
    {
        ts[i].encode(out);
        proof {
            lemma_tracked_list_events_push(ts@.subrange(0, i as int), ts@[i as int]);
            assert(ts@.subrange(0, i as int).push(ts@[i as int]) =~= ts@.subrange(0, i + 1));
        }
        i += 1;
    }
    proof {
        assert(ts@.subrange(0, ts@.len() as int) =~= ts@);
    }
}

proof fn lemma_tracked_list_events_push(ts: Seq<TrackedContext>, t: TrackedContext)
    ensures
        tracked_list_events(ts.push(t)) == tracked_list_events(ts) + tracked_events(t),
    decreases ts.len(),
{
    if ts.len() == 0 {
        assert(ts.push(t).drop_first() =~= Seq::<TrackedContext>::empty());
        assert(ts.push(t)[0] == t);
        assert(tracked_list_events(Seq::<TrackedContext>::empty()) =~= Seq::<CtxEvent>::empty());
        assert(tracked_list_events(ts) =~= Seq::<CtxEvent>::empty());
        assert(tracked_list_events(ts.push(t)) =~= tracked_events(t));
    } else {
        assert(ts.push(t).drop_first() =~= ts.drop_first().push(t));
        lemma_tracked_list_events_push(ts.drop_first(), t);
        assert(tracked_list_events(ts.push(t)) =~= tracked_list_events(ts) + tracked_events(t));
    }
}

/// The encoding of the tracked registers `ts` holding from `a` on: nothing
/// for no registers, else a `tracked_pointset` element with the address.
pub open spec fn tracked_point_events(a: ContextAddr, ts: Seq<TrackedContext>) -> Seq<CtxEvent> {
    if ts.len() == 0 {
        Seq::empty()
    } else {
        seq![
            CtxEvent::Open(CtxElement::TrackedPointset),
            CtxEvent::Space(CtxAttribute::Space, a.space),
            CtxEvent::Unsigned(CtxAttribute::Offset, a.offset),
        ] + tracked_list_events(ts) + seq![CtxEvent::Close(CtxElement::TrackedPointset)]
    }
}

/// Append the encoding of the tracked registers `ts` holding from `a` on
/// (see [`tracked_point_events`]).
pub fn encode_tracked(a: ContextAddr, ts: &[TrackedContext], out: &mut Vec<CtxEvent>)
    ensures
        final(out)@ == old(out)@ + tracked_point_events(a, ts@),
{
    if ts.len() == 0 {
        proof {
            assert(out@ =~= old(out)@ + tracked_point_events(a, ts@));
        }
        return;
    }
    out.push(CtxEvent::Open(CtxElement::TrackedPointset));
    out.push(CtxEvent::Space(CtxAttribute::Space, a.space));
    out.push(CtxEvent::Unsigned(CtxAttribute::Offset, a.offset));
    let ghost mid = out@;
    encode_tracked_list(ts, out);
    out.push(CtxEvent::Close(CtxElement::TrackedPointset));
    proof {
        assert(out@ =~= old(out)@ + tracked_point_events(a, ts@));
    }
}


// ---------------------------------------------------------------------------
// The whole database
// ---------------------------------------------------------------------------

/// Do two events say the same thing (texts by their bytes)?
pub open spec fn event_agrees(e: CtxEvent, f: CtxEvent) -> bool {
    match (e, f) {
        (CtxEvent::Text(a, t), CtxEvent::Text(b, u)) => a == b && t@ == u@,
        _ => e == f,
    }
}

/// Do two event streams say the same thing, event by event?
pub open spec fn same_events(a: Seq<CtxEvent>, b: Seq<CtxEvent>) -> bool {
    &&& a.len() == b.len()
    &&& forall|i: int| 0 <= i < a.len() ==> event_agrees(#[trigger] a[i], b[i])
}

proof fn lemma_same_events_append(a: Seq<CtxEvent>, b: Seq<CtxEvent>, c: Seq<CtxEvent>, d: Seq<CtxEvent>)
    requires
        same_events(a, b),
        same_events(c, d),
    ensures
        same_events(a + c, b + d),
{
    assert forall|i: int| 0 <= i < (a + c).len() implies event_agrees(#[trigger] (a + c)[i], (b + d)[i]) by {
        if i < a.len() {
            assert((a + c)[i] == a[i] && (b + d)[i] == b[i]);
        } else {
            assert((a + c)[i] == c[i - a.len()] && (b + d)[i] == d[i - a.len()]);
        }
    }
}

proof fn lemma_same_events_refl(a: Seq<CtxEvent>)
    ensures
        same_events(a, a),
{
}

/// The encoding of variable `v`'s value in the blob `blob`: a `set`
/// element with its name and value.
pub open spec fn var_events(v: ContextVariable, blob: Seq<u32>) -> Seq<CtxEvent> {
    seq![
        CtxEvent::Open(CtxElement::Value),
        CtxEvent::Text(CtxAttribute::Name, v.name),
        CtxEvent::Unsigned(CtxAttribute::Val, v.range.value_in(blob) as u64),
        CtxEvent::Close(CtxElement::Value),
    ]
}

/// The values of the variables `vars` in `blob`, one after another.
pub open spec fn vars_events(vars: Seq<ContextVariable>, blob: Seq<u32>) -> Seq<CtxEvent>
    decreases vars.len(),
{
    if vars.len() == 0 {
        Seq::empty()
    } else {
        vars_events(vars.drop_last(), blob) + var_events(vars.last(), blob)
    }
}

/// The encoding of the context at a split point: a `context_pointset`
/// element with the point's address and the value of every variable.
pub open spec fn context_point_events(vars: Seq<ContextVariable>, p: ContextPoint) -> Seq<CtxEvent> {
    seq![
        CtxEvent::Open(CtxElement::ContextPointset),
        CtxEvent::Space(CtxAttribute::Space, p.addr.space),
        CtxEvent::Unsigned(CtxAttribute::Offset, p.addr.offset),
    ] + vars_events(vars, p.blob.array@) + seq![CtxEvent::Close(CtxElement::ContextPointset)]
}

/// The encodings of the context at split points, one after another.
pub open spec fn context_points_events(vars: Seq<ContextVariable>, pts: Seq<ContextPoint>) -> Seq<CtxEvent>
    decreases pts.len(),
{
    if pts.len() == 0 {
        Seq::empty()
    } else {
        context_points_events(vars, pts.drop_last()) + context_point_events(vars, pts.last())
    }
}

/// The encodings of the tracked registers at split points, one after
/// another (points without registers write nothing).
pub open spec fn tracked_points_events(pts: Seq<TrackedPoint>) -> Seq<CtxEvent>
    decreases pts.len(),
{
    if pts.len() == 0 {
        Seq::empty()
    } else {
        tracked_points_events(pts.drop_last()) + tracked_point_events(pts.last().addr, pts.last().set@)
    }
}

/// The encoding of the database: nothing when it has no split points at
/// all, else a `context_points` element with the context at each split
/// point, in address order, then the tracked registers at each of theirs.
pub open spec fn db_events(db: ContextInternal) -> Seq<CtxEvent> {
    if db.points@.len() == 0 && db.trackbase.points@.len() == 0 {
        Seq::empty()
    } else {
        seq![CtxEvent::Open(CtxElement::ContextPoints)] + context_points_events(db.variables@, db.points@)
            + tracked_points_events(db.trackbase.points@) + seq![CtxEvent::Close(CtxElement::ContextPoints)]
    }
}

/// Append the values of the variables `vars` in `blob`.
fn encode_vars(vars: &[ContextVariable], blob: &[u32], out: &mut Vec<CtxEvent>)
    requires
        forall|i: int| 0 <= i < vars@.len() ==> (#[trigger] vars@[i]).range.wf() && vars@[i].range.spec_word() < blob@.len(),
    ensures
        same_events(final(out)@, old(out)@ + vars_events(vars@, blob@)),
        final(out)@.len() >= old(out)@.len(),
        final(out)@.subrange(0, old(out)@.len() as int) == old(out)@,
{
    let mut i: usize = 0;
    proof {
        assert(vars@.subrange(0, 0) =~= Seq::<ContextVariable>::empty());
        assert(old(out)@ + vars_events(vars@.subrange(0, 0), blob@) =~= old(out)@);
    }
    while i < vars.len()
        invariant
            i <= vars@.len(),
            forall|j: int| 0 <= j < vars@.len() ==> (#[trigger] vars@[j]).range.wf() && vars@[j].range.spec_word() < blob@.len(),
            same_events(out@, old(out)@ + vars_events(vars@.subrange(0, i as int), blob@)),
            out@.len() >= old(out)@.len(),
            out@.subrange(0, old(out)@.len() as int) == old(out)@,
        decreases vars@.len() - i,
    {
        let v = &vars[i];
        let val = v.range.get_value(blob);
        let ghost before = out@;
        out.push(CtxEvent::Open(CtxElement::Value));
        out.push(CtxEvent::Text(CtxAttribute::Name, copy_bytes(v.name.as_slice())));
        out.push(CtxEvent::Unsigned(CtxAttribute::Val, val as u64));
        out.push(CtxEvent::Close(CtxElement::Value));
        proof {
            let sub = vars@.subrange(0, i as int);
            let sub1 = vars@.subrange(0, i + 1);
            assert(sub1.drop_last() =~= sub);
            assert(sub1.last() == vars@[i as int]);
            let added = out@.subrange(before.len() as int, out@.len() as int);
            assert(out@ =~= before + added);
            assert(same_events(added, var_events(vars@[i as int], blob@))) by {
                assert(added[1] == out@[before.len() + 1int]);
            }
            assert(out@.subrange(0, old(out)@.len() as int) =~= before.subrange(0, old(out)@.len() as int));
            lemma_same_events_append(before, old(out)@ + vars_events(sub, blob@), added, var_events(vars@[i as int], blob@));
            assert(old(out)@ + vars_events(sub, blob@) + var_events(vars@[i as int], blob@) =~= old(out)@ + vars_events(sub1, blob@));
        }
        i += 1;
    }
    proof {
        assert(vars@.subrange(0, vars@.len() as int) =~= vars@);
    }
}

impl ContextInternal {
    /// The encoding of the database (see [`db_events`]); context values are
    /// written variable by variable, in the order the variables were
    /// registered.
    pub fn encode(&self) -> (r: Vec<CtxEvent>)
        requires
            self.wf(),
        ensures
            same_events(r@, db_events(*self)),
    {
        let mut out: Vec<CtxEvent> = Vec::new();
        if self.points.len() == 0 && self.trackbase.points.len() == 0 {
            return out;
        }
        out.push(CtxEvent::Open(CtxElement::ContextPoints));
        let ghost head = out@;
        let mut i: usize = 0;
        proof {
            assert(self.points@.subrange(0, 0) =~= Seq::<ContextPoint>::empty());
            assert(head + context_points_events(self.variables@, self.points@.subrange(0, 0)) =~= head);
        }
        while i < self.points.len()
            invariant
                self.wf(),
                i <= self.points@.len(),
                same_events(out@, head + context_points_events(self.variables@, self.points@.subrange(0, i as int))),
            decreases self.points@.len() - i,
        {
            let p = &self.points[i];
            let ghost before = out@;
            out.push(CtxEvent::Open(CtxElement::ContextPointset));
            out.push(CtxEvent::Space(CtxAttribute::Space, p.addr.space));
            out.push(CtxEvent::Unsigned(CtxAttribute::Offset, p.addr.offset));
            let ghost mid = out@;
            proof {
                assert(p.blob.array@.len() == self.size);
            }
            encode_vars(self.variables.as_slice(), p.blob.array.as_slice(), &mut out);
            let ghost mid2 = out@;
            out.push(CtxEvent::Close(CtxElement::ContextPointset));
            proof {
                let sub = self.points@.subrange(0, i as int);
                let sub1 = self.points@.subrange(0, i + 1);
                assert(sub1.drop_last() =~= sub);
                assert(sub1.last() == self.points@[i as int]);
                let added = out@.subrange(before.len() as int, out@.len() as int);
                assert(out@ =~= before + added);
                let body = mid2.subrange(mid.len() as int, mid2.len() as int);
                assert(mid2 =~= mid + body);
                assert(same_events(mid + body, mid + vars_events(self.variables@, p.blob.array@)));
                assert(same_events(body, vars_events(self.variables@, p.blob.array@))) by {
                    assert forall|k: int| 0 <= k < body.len() implies event_agrees(#[trigger] body[k], vars_events(self.variables@, p.blob.array@)[k]) by {
                        assert((mid + body)[mid.len() + k] == body[k]);
                        assert((mid + vars_events(self.variables@, p.blob.array@))[mid.len() + k] == vars_events(self.variables@, p.blob.array@)[k]);
                    }
                }
                let front = seq![
                    CtxEvent::Open(CtxElement::ContextPointset),
                    CtxEvent::Space(CtxAttribute::Space, p.addr.space),
                    CtxEvent::Unsigned(CtxAttribute::Offset, p.addr.offset),
                ];
                assert(added =~= front + body + seq![CtxEvent::Close(CtxElement::ContextPointset)]);
                lemma_same_events_refl(front);
                lemma_same_events_append(front, front, body, vars_events(self.variables@, p.blob.array@));
                lemma_same_events_refl(seq![CtxEvent::Close(CtxElement::ContextPointset)]);
                lemma_same_events_append(front + body, front + vars_events(self.variables@, p.blob.array@),
                    seq![CtxEvent::Close(CtxElement::ContextPointset)], seq![CtxEvent::Close(CtxElement::ContextPointset)]);
                lemma_same_events_append(before, head + context_points_events(self.variables@, sub), added,
                    context_point_events(self.variables@, self.points@[i as int]));
                assert(head + context_points_events(self.variables@, sub) + context_point_events(self.variables@, self.points@[i as int])
                    =~= head + context_points_events(self.variables@, sub1));
            }
            i += 1;
        }
        proof {
            assert(self.points@.subrange(0, self.points@.len() as int) =~= self.points@);
        }
        let ghost head2 = out@;
        let ghost spec2 = head + context_points_events(self.variables@, self.points@);
        let tps = &self.trackbase.points;
        let mut j: usize = 0;
        proof {
            assert(tps@.subrange(0, 0) =~= Seq::<TrackedPoint>::empty());
            assert(spec2 + tracked_points_events(tps@.subrange(0, 0)) =~= spec2);
        }
        while j < tps.len()
            invariant
                j <= tps@.len(),
                same_events(out@, spec2 + tracked_points_events(tps@.subrange(0, j as int))),
            decreases tps@.len() - j,
        {
            let ghost before = out@;
            encode_tracked(tps[j].addr, tps[j].set.as_slice(), &mut out);
            proof {
                let sub = tps@.subrange(0, j as int);
                let sub1 = tps@.subrange(0, j + 1);
                assert(sub1.drop_last() =~= sub);
                assert(sub1.last() == tps@[j as int]);
                let added = tracked_point_events(tps@[j as int].addr, tps@[j as int].set@);
                lemma_same_events_refl(added);
                lemma_same_events_append(before, spec2 + tracked_points_events(sub), added, added);
                assert(spec2 + tracked_points_events(sub) + added =~= spec2 + tracked_points_events(sub1));
            }
            j += 1;
        }
        proof {
            assert(tps@.subrange(0, tps@.len() as int) =~= tps@);
        }
        let ghost before = out@;
        out.push(CtxEvent::Close(CtxElement::ContextPoints));
        proof {
            let tail = seq![CtxEvent::Close(CtxElement::ContextPoints)];
            assert(out@ =~= before + tail);
            lemma_same_events_refl(tail);
            lemma_same_events_append(before, spec2 + tracked_points_events(tps@), tail, tail);
            assert(spec2 + tracked_points_events(tps@) + tail =~= db_events(*self));
        }
        out
    }
}


// ---------------------------------------------------------------------------
// Reading the database back
// ---------------------------------------------------------------------------

/// One change that an encoding of context asks of the database.
pub enum ContextChange {
    /// Zero the default blob, then set variable `name` in it to the value.
    Default(Seq<u8>, u32),
    /// Set variable `name` to the value over the addresses from the first
    /// address up to the second (from the first on, without a second).
    Region(Seq<u8>, ContextAddr, Option<ContextAddr>, u32),
    /// Make the address a split point of the tracked registers, with the
    /// registers there.
    TrackedAt(ContextAddr, Seq<TrackedContext>),
    /// Set the tracked registers over the addresses from the first address
    /// up to the second (from the first on, without a second).
    TrackedRange(ContextAddr, Option<ContextAddr>, Seq<TrackedContext>),
}

/// The zero blob of `n` words.
pub open spec fn zero_blob(n: int) -> Seq<u32> {
    Seq::new(n as nat, |i: int| 0u32)
}

/// Does `b` differ from `a` exactly as `c` asks?
pub open spec fn changed_by(a: ContextInternal, c: ContextChange, b: ContextInternal) -> bool {
    &&& b.wf()
    &&& b.size == a.size
    &&& b.variables@ == a.variables@
    &&& match c {
        ContextChange::Default(nm, val) => match a.variable(nm) {
            Some(v) => {
                &&& b.default_value.array@ == v.blob_with(zero_blob(a.size as int), val)
                &&& b.points@ == a.points@
                &&& b.trackbase == a.trackbase
            },
            None => false,
        },
        ContextChange::Region(nm, a1, a2, val) => match a.variable(nm) {
            Some(v) => {
                &&& b.default_value.array@ == a.default_value.array@
                &&& b.trackbase == a.trackbase
                &&& forall|x: ContextAddr| #[trigger] b.context_at(x) == if in_region(x, a1, a2) {
                    v.blob_with(a.context_at(x), val)
                } else {
                    a.context_at(x)
                }
            },
            None => false,
        },
        ContextChange::TrackedAt(p, ts) => {
            &&& b.default_value == a.default_value
            &&& b.points@ == a.points@
            &&& forall|x: ContextAddr| #[trigger] b.tracked_at(x) == if in_region(x, p, next_after(a.trackbase.points@, p)) {
                ts
            } else {
                a.tracked_at(x)
            }
        },
        ContextChange::TrackedRange(a1, a2, ts) => {
            &&& b.default_value == a.default_value
            &&& b.points@ == a.points@
            &&& forall|x: ContextAddr| #[trigger] b.tracked_at(x) == if in_region(x, a1, a2) {
                ts
            } else {
                a.tracked_at(x)
            }
        },
    }
}

/// Does `b` come from `a` by the changes `cs`, one after another?
pub open spec fn changed_by_all(a: ContextInternal, cs: Seq<ContextChange>, b: ContextInternal) -> bool
    decreases cs.len(),
{
    if cs.len() == 0 {
        b == a
    } else {
        exists|m: ContextInternal| #[trigger] changed_by(a, cs[0], m) && changed_by_all(m, cs.drop_first(), b)
    }
}

/// One more change after a run of changes.
proof fn lemma_changed_by_all_push(a: ContextInternal, cs: Seq<ContextChange>, m: ContextInternal, c: ContextChange, b: ContextInternal)
    requires
        changed_by_all(a, cs, m),
        changed_by(m, c, b),
    ensures
        changed_by_all(a, cs.push(c), b),
    decreases cs.len(),
{
    if cs.len() == 0 {
        assert(cs.push(c).drop_first() =~= Seq::<ContextChange>::empty());
        assert(cs.push(c)[0] == c);
        assert(changed_by_all(b, Seq::<ContextChange>::empty(), b));
    } else {
        let m1 = choose|m1: ContextInternal| #[trigger] changed_by(a, cs[0], m1) && changed_by_all(m1, cs.drop_first(), m);
        lemma_changed_by_all_push(m1, cs.drop_first(), m, c, b);
        assert(cs.push(c).drop_first() =~= cs.drop_first().push(c));
        assert(cs.push(c)[0] == cs[0]);
    }
}

/// Reading the variable values of a run of `set` elements from `i` on, up
/// to the first event that opens no `set`: each needs a value (cut to 32
/// bits) and the name of a variable of `vars`, and must close.
pub open spec fn spec_values(ev: Seq<CtxEvent>, i: int, vars: Seq<ContextVariable>) -> Result<(Seq<(Seq<u8>, u32)>, int), CtxDecodeError>
    decreases ev.len() - i,
{
    if opens_at(ev, i, CtxElement::Value) {
        let a = i + 1;
        match unsigned_attr(ev, a, CtxAttribute::Val) {
            None => Err(CtxDecodeError::MissingAttribute),
            Some(v) => match text_attr(ev, a, CtxAttribute::Name) {
                None => Err(CtxDecodeError::MissingAttribute),
                Some(nm) => if var_lookup(vars, nm) is None {
                    Err(CtxDecodeError::NoSuchVariable)
                } else if !closes_at(ev, attrs_end(ev, a), CtxElement::Value) {
                    Err(CtxDecodeError::MissingClose)
                } else if attrs_end(ev, a) + 1 <= i {
                    Err(CtxDecodeError::UnexpectedEnd)
                } else {
                    match spec_values(ev, attrs_end(ev, a) + 1, vars) {
                        Ok((rest, k)) => Ok((seq![(nm, v as u32)] + rest, k)),
                        Err(e) => Err(e),
                    }
                }
            },
        }
    } else {
        Ok((Seq::empty(), i))
    }
}

/// The changes that set the values `vals` in the default blob.
pub open spec fn default_changes(vals: Seq<(Seq<u8>, u32)>) -> Seq<ContextChange> {
    vals.map_values(|nv: (Seq<u8>, u32)| ContextChange::Default(nv.0, nv.1))
}

/// The changes that set the values `vals` over the addresses from `a1` up
/// to `a2`.
pub open spec fn region_changes(vals: Seq<(Seq<u8>, u32)>, a1: ContextAddr, a2: Option<ContextAddr>) -> Seq<ContextChange> {
    vals.map_values(|nv: (Seq<u8>, u32)| ContextChange::Region(nv.0, a1, a2, nv.1))
}

/// The address given by the space and offset attributes of the element
/// whose attributes start at `a`.
pub open spec fn point_addr(ev: Seq<CtxEvent>, a: int) -> Option<ContextAddr> {
    match (space_attr(ev, a, CtxAttribute::Space), unsigned_attr(ev, a, CtxAttribute::Offset)) {
        (Some(s), Some(o)) => Some(ContextAddr { space: s, offset: o }),
        _ => None,
    }
}

/// Reading one child of the database element at `i`: the changes it asks
/// for and the position after it.  A `context_pointset` without attributes
/// sets default values; with an address, values from the address on; a
/// `tracked_pointset` sets tracked registers at its address.
pub open spec fn spec_points_child(ev: Seq<CtxEvent>, i: int, vars: Seq<ContextVariable>) -> Result<(Seq<ContextChange>, int), CtxDecodeError> {
    let a = i + 1;
    let e = attrs_end(ev, a);
    if opens_at(ev, i, CtxElement::ContextPointset) {
        if e == a {
            match spec_values(ev, e, vars) {
                Ok((vals, j)) => if closes_at(ev, j, CtxElement::ContextPointset) {
                    Ok((default_changes(vals), j + 1))
                } else {
                    Err(CtxDecodeError::MissingClose)
                },
                Err(err) => Err(err),
            }
        } else {
            match point_addr(ev, a) {
                None => Err(CtxDecodeError::MissingAttribute),
                Some(p) => match spec_values(ev, e, vars) {
                    Ok((vals, j)) => if closes_at(ev, j, CtxElement::ContextPointset) {
                        Ok((region_changes(vals, p, None), j + 1))
                    } else {
                        Err(CtxDecodeError::MissingClose)
                    },
                    Err(err) => Err(err),
                },
            }
        }
    } else if opens_at(ev, i, CtxElement::TrackedPointset) {
        match point_addr(ev, a) {
            None => Err(CtxDecodeError::MissingAttribute),
            Some(p) => match spec_decode_tracked_list(ev, e) {
                Ok((ts, j)) => if closes_at(ev, j, CtxElement::TrackedPointset) {
                    Ok((seq![ContextChange::TrackedAt(p, ts)], j + 1))
                } else {
                    Err(CtxDecodeError::MissingClose)
                },
                Err(err) => Err(err),
            },
        }
    } else {
        Err(CtxDecodeError::BadPointsTag)
    }
}

/// Reading the children of the database element from `i` on, up to its
/// close: the changes they ask for, in order, and the position after the
/// close.
pub open spec fn spec_points_children(ev: Seq<CtxEvent>, i: int, vars: Seq<ContextVariable>) -> Result<(Seq<ContextChange>, int), CtxDecodeError>
    decreases ev.len() - i,
{
    if i < 0 || i >= ev.len() {
        Err(CtxDecodeError::UnexpectedEnd)
    } else {
        match ev[i] {
            CtxEvent::Close(el) => if el == CtxElement::ContextPoints {
                Ok((Seq::empty(), i + 1))
            } else {
                Err(CtxDecodeError::MissingClose)
            },
            CtxEvent::Open(_) => match spec_points_child(ev, i, vars) {
                Ok((cs, j)) => if j <= i {
                    Err(CtxDecodeError::UnexpectedEnd)
                } else {
                    match spec_points_children(ev, j, vars) {
                        Ok((rest, k)) => Ok((cs + rest, k)),
                        Err(e) => Err(e),
                    }
                },
                Err(e) => Err(e),
            },
            _ => Err(CtxDecodeError::UnexpectedElement),
        }
    }
}

/// Reading a database element at `pos`: the changes it asks for and the
/// position after it.
pub open spec fn spec_decode_points(ev: Seq<CtxEvent>, pos: int, vars: Seq<ContextVariable>) -> Result<(Seq<ContextChange>, int), CtxDecodeError> {
    if pos < 0 || pos >= ev.len() {
        Err(CtxDecodeError::UnexpectedEnd)
    } else if !opens_at(ev, pos, CtxElement::ContextPoints) {
        Err(CtxDecodeError::UnexpectedElement)
    } else {
        spec_points_children(ev, attrs_end(ev, pos + 1), vars)
    }
}


/// Two runs of changes, one after the other.
proof fn lemma_changed_by_all_concat(a: ContextInternal, s1: Seq<ContextChange>, m: ContextInternal, s2: Seq<ContextChange>, b: ContextInternal)
    requires
        changed_by_all(a, s1, m),
        changed_by_all(m, s2, b),
    ensures
        changed_by_all(a, s1 + s2, b),
    decreases s1.len(),
{
    if s1.len() == 0 {
        assert(s1 + s2 =~= s2);
    } else {
        let m1 = choose|m1: ContextInternal| #[trigger] changed_by(a, s1[0], m1) && changed_by_all(m1, s1.drop_first(), m);
        lemma_changed_by_all_concat(m1, s1.drop_first(), m, s2, b);
        assert((s1 + s2).drop_first() =~= s1.drop_first() + s2);
        assert((s1 + s2)[0] == s1[0]);
    }
}

proof fn lemma_values_after(ev: Seq<CtxEvent>, i: int, vars: Seq<ContextVariable>)
    ensures
        spec_values(ev, i, vars) matches Ok((vals, k)) ==> k >= i,
    decreases ev.len() - i,
{
    if opens_at(ev, i, CtxElement::Value) {
        lemma_attrs_end_after(ev, i + 1);
        if attrs_end(ev, i + 1) + 1 > i && closes_at(ev, attrs_end(ev, i + 1), CtxElement::Value) {
            lemma_values_after(ev, attrs_end(ev, i + 1) + 1, vars);
        }
    }
}

proof fn lemma_tracked_list_after(ev: Seq<CtxEvent>, i: int)
    ensures
        spec_decode_tracked_list(ev, i) matches Ok((ts, k)) ==> k >= i,
    decreases ev.len() - i,
{
    if 0 <= i < ev.len() && ev[i] is Open {
        if let Ok((t, j)) = spec_decode_tracked(ev, i) {
            if j > i {
                lemma_tracked_list_after(ev, j);
            }
        }
    }
}

/// The changes that set the values `vals` at `target`: the default blob
/// without one, else the addresses from its first up to its second.
pub open spec fn value_changes(vals: Seq<(Seq<u8>, u32)>, target: Option<(ContextAddr, Option<ContextAddr>)>) -> Seq<ContextChange> {
    match target {
        None => default_changes(vals),
        Some((a1, a2)) => region_changes(vals, a1, a2),
    }
}

fn point_addr_exec(ev: &[CtxEvent], a: usize) -> (r: Option<ContextAddr>)
    ensures
        r == point_addr(ev@, a as int),
{
    match (space_attr_exec(ev, a, CtxAttribute::Space), unsigned_attr_exec(ev, a, CtxAttribute::Offset)) {
        (Some(s), Some(o)) => Some(ContextAddr { space: s, offset: o }),
        _ => None,
    }
}

impl ContextInternal {
    /// Apply one variable value: zero the default blob and set it there, or
    /// set it over a range.
    fn apply_value(&mut self, nm: &[u8], val: u32, target: Option<(ContextAddr, Option<ContextAddr>)>) -> (r: Result<(), CtxDecodeError>)
        requires
            old(self).wf(),
        ensures
            match old(self).variable(nm@) {
                Some(v) => r is Ok && changed_by(*old(self), value_changes(seq![(nm@, val)], target)[0], *final(self)),
                None => r == Err::<(), CtxDecodeError>(CtxDecodeError::NoSuchVariable) && *final(self) == *old(self),
            },
    {
        if self.get_variable(nm).is_err() {
            return Err(CtxDecodeError::NoSuchVariable);
        }
        match target {
            None => {
                self.zero_default();
                let _ = self.set_variable_default(nm, val);
            },
            Some((a1, a2)) => {
                let _ = self.set_variable_region(nm, a1, a2, val);
            },
        }
        Ok(())
    }

    /// Read and apply the variable values of the run of `set` elements from
    /// `i` on (see [`spec_values`]), returning the position after them.
    fn decode_values(&mut self, ev: &[CtxEvent], i: usize, target: Option<(ContextAddr, Option<ContextAddr>)>) -> (r: Result<usize, CtxDecodeError>)
        requires
            old(self).wf(),
        ensures
            final(self).wf(),
            final(self).variables@ == old(self).variables@,
            final(self).size == old(self).size,
            match spec_values(ev@, i as int, old(self).variables@) {
                Ok((vals, k)) => (r matches Ok(kk) && kk == k) && changed_by_all(*old(self), value_changes(vals, target), *final(self)),
                Err(e) => r == Err::<usize, CtxDecodeError>(e),
            },
    {
        let ghost vars = self.variables@;
        let ghost start = *self;
        let ghost mut done: Seq<(Seq<u8>, u32)> = Seq::empty();
        let mut j: usize = i;
        proof {
            assert(done =~= Seq::<(Seq<u8>, u32)>::empty());
            assert(value_changes(done, target) =~= Seq::<ContextChange>::empty());
        }
        let n = ev.len();
        while opens_at_exec(ev, j, CtxElement::Value)
            invariant
                n == ev@.len(),
                i <= j,
                self.wf(),
                self.variables@ == vars,
                self.size == start.size,
                start == *old(self),
                vars == old(self).variables@,
                changed_by_all(start, value_changes(done, target), *self),
                forall|rest: Seq<(Seq<u8>, u32)>, k: int| spec_values(ev@, j as int, vars) == Ok::<(Seq<(Seq<u8>, u32)>, int), CtxDecodeError>((rest, k))
                    ==> spec_values(ev@, i as int, vars) == Ok::<(Seq<(Seq<u8>, u32)>, int), CtxDecodeError>((done + rest, k)),
                forall|e: CtxDecodeError| spec_values(ev@, j as int, vars) == Err::<(Seq<(Seq<u8>, u32)>, int), CtxDecodeError>(e)
                    ==> spec_values(ev@, i as int, vars) == Err::<(Seq<(Seq<u8>, u32)>, int), CtxDecodeError>(e),
            decreases ev@.len() - j,
        {
            let ghost cur = spec_values(ev@, j as int, vars);
            assert(j < n);
            let a = j + 1;
            let v = match unsigned_attr_exec(ev, a, CtxAttribute::Val) {
                Some(v) => v,
                None => return Err(CtxDecodeError::MissingAttribute),
            };
            let nm = match text_attr_exec(ev, a, CtxAttribute::Name) {
                Some(nm) => nm,
                None => return Err(CtxDecodeError::MissingAttribute),
            };
            if self.get_variable(nm.as_slice()).is_err() {
                return Err(CtxDecodeError::NoSuchVariable);
            }
            let end = attrs_end_exec(ev, a);
            if !closes_at_exec(ev, end, CtxElement::Value) {
                return Err(CtxDecodeError::MissingClose);
            }
            proof {
                lemma_attrs_end_after(ev@, a as int);
            }
            let ghost before = *self;
            let val = #[verifier::truncate] (v as u32);
            let _ = self.apply_value(nm.as_slice(), val, target);
            proof {
                let nv = (nm@, val);
                assert(value_changes(seq![nv], target)[0] == value_changes(done.push(nv), target).last());
                assert(value_changes(done.push(nv), target) =~= value_changes(done, target).push(value_changes(seq![nv], target)[0]));
                lemma_changed_by_all_push(start, value_changes(done, target), before, value_changes(seq![nv], target)[0], *self);
                assert forall|rest: Seq<(Seq<u8>, u32)>, k: int| spec_values(ev@, end + 1, vars) == Ok::<(Seq<(Seq<u8>, u32)>, int), CtxDecodeError>((rest, k))
                    implies spec_values(ev@, i as int, vars) == Ok::<(Seq<(Seq<u8>, u32)>, int), CtxDecodeError>((done.push(nv) + rest, k)) by {
                    assert(done.push(nv) + rest =~= done + (seq![nv] + rest));
                }
                done = done.push(nv);
            }
            j = end + 1;
        }
        proof {
            assert(spec_values(ev@, j as int, vars) == Ok::<(Seq<(Seq<u8>, u32)>, int), CtxDecodeError>((Seq::empty(), j as int)));
            assert(spec_values(ev@, i as int, vars) == Ok::<(Seq<(Seq<u8>, u32)>, int), CtxDecodeError>((done + Seq::empty(), j as int)));
            assert(done + Seq::<(Seq<u8>, u32)>::empty() =~= done);
        }
        Ok(j)
    }
}


proof fn lemma_attrs_end_bound(ev: Seq<CtxEvent>, i: int)
    requires
        0 <= i <= ev.len(),
    ensures
        i <= attrs_end(ev, i) <= ev.len(),
    decreases ev.len() - i,
{
    if i < ev.len() && is_attr(ev[i]) {
        lemma_attrs_end_bound(ev, i + 1);
    }
}

impl ContextInternal {
    /// Read a database element at `pos` (see [`spec_decode_points`]) and
    /// make the changes it asks for, in order; returns the position after
    /// the element.  Values are only given for registered variables; on an
    /// error, the changes of the children before the faulty one have been
    /// made.
    pub fn decode(&mut self, ev: &[CtxEvent], pos: usize) -> (r: Result<usize, CtxDecodeError>)
        requires
            old(self).wf(),
        ensures
            final(self).wf(),
            final(self).variables@ == old(self).variables@,
            final(self).size == old(self).size,
            match spec_decode_points(ev@, pos as int, old(self).variables@) {
                Ok((cs, k)) => (r matches Ok(kk) && kk == k) && changed_by_all(*old(self), cs, *final(self)),
                Err(e) => r == Err::<usize, CtxDecodeError>(e),
            },
    {
        let n = ev.len();
        if pos >= n {
            return Err(CtxDecodeError::UnexpectedEnd);
        }
        if !opens_at_exec(ev, pos, CtxElement::ContextPoints) {
            return Err(CtxDecodeError::UnexpectedElement);
        }
        let mut j = attrs_end_exec(ev, pos + 1);
        let ghost vars = self.variables@;
        let ghost start = *self;
        let ghost mut done: Seq<ContextChange> = Seq::empty();
        proof {
            lemma_attrs_end_bound(ev@, pos + 1);
            assert forall|cs: Seq<ContextChange>, k: int| spec_points_children(ev@, j as int, vars)
                == Ok::<(Seq<ContextChange>, int), CtxDecodeError>((cs, k)) implies spec_decode_points(ev@, pos as int, vars)
                == Ok::<(Seq<ContextChange>, int), CtxDecodeError>((done + cs, k)) by {
                assert(done + cs =~= cs);
            }
        }
        loop
            invariant
                n == ev@.len(),
                j <= n,
                self.wf(),
                self.variables@ == vars,
                self.size == start.size,
                start == *old(self),
                vars == old(self).variables@,
                changed_by_all(start, done, *self),
                forall|cs: Seq<ContextChange>, k: int| spec_points_children(ev@, j as int, vars)
                    == Ok::<(Seq<ContextChange>, int), CtxDecodeError>((cs, k)) ==> spec_decode_points(ev@, pos as int, vars)
                    == Ok::<(Seq<ContextChange>, int), CtxDecodeError>((done + cs, k)),
                forall|e: CtxDecodeError| spec_points_children(ev@, j as int, vars) == Err::<(Seq<ContextChange>, int), CtxDecodeError>(e)
                    ==> spec_decode_points(ev@, pos as int, vars) == Err::<(Seq<ContextChange>, int), CtxDecodeError>(e),
            decreases n - j,
        {
            let ghost cur = spec_points_children(ev@, j as int, vars);
            if j >= n {
                return Err(CtxDecodeError::UnexpectedEnd);
            }
            match &ev[j] {
                CtxEvent::Close(el) => {
                    if *el == CtxElement::ContextPoints {
                        proof {
                            assert(spec_points_children(ev@, j as int, vars) == Ok::<(Seq<ContextChange>, int), CtxDecodeError>(
                                (Seq::empty(), j + 1)));
                            assert(done + Seq::<ContextChange>::empty() =~= done);
                            assert(spec_decode_points(ev@, pos as int, vars) == Ok::<(Seq<ContextChange>, int), CtxDecodeError>((done, j + 1)));
                        }
                        return Ok(j + 1);
                    } else {
                        return Err(CtxDecodeError::MissingClose);
                    }
                },
                CtxEvent::Open(_) => {},
                _ => {
                    return Err(CtxDecodeError::UnexpectedElement);
                },
            }
            let ghost child_spec = spec_points_child(ev@, j as int, vars);
            let a = j + 1;
            let e = attrs_end_exec(ev, a);
            proof {
                lemma_attrs_end_bound(ev@, a as int);
            }
            let ghost before = *self;
            let ghost mut child: Seq<ContextChange> = Seq::empty();
            let k: usize;
            if opens_at_exec(ev, j, CtxElement::ContextPointset) {
                let target = if e == a {
                    None
                } else {
                    match point_addr_exec(ev, a) {
                        Some(p) => Some((p, None)),
                        None => return Err(CtxDecodeError::MissingAttribute),
                    }
                };
                let kk = match self.decode_values(ev, e, target) {
                    Ok(x) => x,
                    Err(er) => return Err(er),
                };
                if !closes_at_exec(ev, kk, CtxElement::ContextPointset) {
                    return Err(CtxDecodeError::MissingClose);
                }
                proof {
                    lemma_values_after(ev@, e as int, vars);
                    child = match spec_values(ev@, e as int, vars) {
                        Ok((v, _)) => value_changes(v, target),
                        Err(_) => Seq::empty(),
                    };
                }
                k = kk + 1;
            } else if opens_at_exec(ev, j, CtxElement::TrackedPointset) {
                let p = match point_addr_exec(ev, a) {
                    Some(p) => p,
                    None => return Err(CtxDecodeError::MissingAttribute),
                };
                let (ts, kk) = match decode_tracked(ev, e) {
                    Ok(x) => x,
                    Err(er) => return Err(er),
                };
                if !closes_at_exec(ev, kk, CtxElement::TrackedPointset) {
                    return Err(CtxDecodeError::MissingClose);
                }
                proof {
                    lemma_tracked_list_after(ev@, e as int);
                }
                let ghost tsv = ts@;
                self.trackbase.put_set_at(p, ts);
                proof {
                    let c = ContextChange::TrackedAt(p, tsv);
                    child = seq![c];
                    assert(changed_by(before, c, *self));
                    assert(changed_by_all(before, Seq::<ContextChange>::empty(), before));
                    lemma_changed_by_all_push(before, Seq::<ContextChange>::empty(), before, c, *self);
                    assert(Seq::<ContextChange>::empty().push(c) =~= child);
                }
                k = kk + 1;
            } else {
                return Err(CtxDecodeError::BadPointsTag);
            }
            proof {
                assert(child_spec == Ok::<(Seq<ContextChange>, int), CtxDecodeError>((child, k as int)));
                assert(k > j);
                lemma_changed_by_all_concat(start, done, before, child, *self);
                assert forall|cs: Seq<ContextChange>, kx: int| spec_points_children(ev@, k as int, vars)
                    == Ok::<(Seq<ContextChange>, int), CtxDecodeError>((cs, kx)) implies spec_decode_points(ev@, pos as int, vars)
                    == Ok::<(Seq<ContextChange>, int), CtxDecodeError>((done + child + cs, kx)) by {
                    assert(done + child + cs =~= done + (child + cs));
                }
                done = done + child;
            }
            j = k;
        }
    }
}


/// The first address of the space after `s`, in address order (none
/// after the last space index).
pub open spec fn next_space_start(s: AddrSpace) -> Option<ContextAddr> {
    if s.index < i32::MAX {
        Some(ContextAddr { space: AddrSpace { index: (s.index + 1) as i32, ..s }, offset: 0 })
    } else {
        None
    }
}

/// The range given by the attributes from `a` on: a space (required), a
/// first offset (0 if absent) and a last offset (the space's highest if
/// absent), both within the space and in order.  The range runs from the
/// first offset up to just past the last, which past the highest offset is
/// the start of the next space.
pub open spec fn spec_range(ev: Seq<CtxEvent>, a: int) -> Result<(ContextAddr, Option<ContextAddr>), CtxDecodeError> {
    match space_attr(ev, a, CtxAttribute::Space) {
        None => Err(CtxDecodeError::NoRangeSpace),
        Some(s) => {
            let hi = AddrSpace::spec_highest(s.addr_size, s.word_size);
            let first = match unsigned_attr(ev, a, CtxAttribute::First) {
                Some(f) => f,
                None => 0u64,
            };
            let last = match unsigned_attr(ev, a, CtxAttribute::Last) {
                Some(l) => l,
                None => hi,
            };
            if first > hi || last > hi || last < first {
                Err(CtxDecodeError::IllegalRange)
            } else if last == hi {
                Ok((ContextAddr { space: s, offset: first }, next_space_start(s)))
            } else {
                Ok((ContextAddr { space: s, offset: first }, Some(ContextAddr { space: s, offset: (last + 1) as u64 })))
            }
        },
    }
}

/// Reading one child of a specification's context element at `i`: a range
/// and then, for a `context_set`, values over the range, for a
/// `tracked_set`, the tracked registers over it.
pub open spec fn spec_data_child(ev: Seq<CtxEvent>, i: int, vars: Seq<ContextVariable>) -> Result<(Seq<ContextChange>, int), CtxDecodeError> {
    let a = i + 1;
    let e = attrs_end(ev, a);
    match spec_range(ev, a) {
        Err(err) => Err(err),
        Ok((a1, a2)) => if opens_at(ev, i, CtxElement::ContextSet) {
            match spec_values(ev, e, vars) {
                Ok((vals, j)) => if closes_at(ev, j, CtxElement::ContextSet) {
                    Ok((region_changes(vals, a1, a2), j + 1))
                } else {
                    Err(CtxDecodeError::MissingClose)
                },
                Err(err) => Err(err),
            }
        } else if opens_at(ev, i, CtxElement::TrackedSet) {
            match spec_decode_tracked_list(ev, e) {
                Ok((ts, j)) => if closes_at(ev, j, CtxElement::TrackedSet) {
                    Ok((seq![ContextChange::TrackedRange(a1, a2, ts)], j + 1))
                } else {
                    Err(CtxDecodeError::MissingClose)
                },
                Err(err) => Err(err),
            }
        } else {
            Err(CtxDecodeError::BadDataTag)
        },
    }
}

/// Reading the children of a specification's context element from `i` on,
/// up to its close: the changes they ask for, in order, and the position
/// after the close.
pub open spec fn spec_data_children(ev: Seq<CtxEvent>, i: int, vars: Seq<ContextVariable>) -> Result<(Seq<ContextChange>, int), CtxDecodeError>
    decreases ev.len() - i,
{
    if i < 0 || i >= ev.len() {
        Err(CtxDecodeError::UnexpectedEnd)
    } else {
        match ev[i] {
            CtxEvent::Close(el) => if el == CtxElement::ContextData {
                Ok((Seq::empty(), i + 1))
            } else {
                Err(CtxDecodeError::MissingClose)
            },
            CtxEvent::Open(_) => match spec_data_child(ev, i, vars) {
                Ok((cs, j)) => if j <= i {
                    Err(CtxDecodeError::UnexpectedEnd)
                } else {
                    match spec_data_children(ev, j, vars) {
                        Ok((rest, k)) => Ok((cs + rest, k)),
                        Err(e) => Err(e),
                    }
                },
                Err(e) => Err(e),
            },
            _ => Err(CtxDecodeError::UnexpectedElement),
        }
    }
}

/// Reading a specification's context element at `pos`: the changes it
/// asks for and the position after it.
pub open spec fn spec_decode_data(ev: Seq<CtxEvent>, pos: int, vars: Seq<ContextVariable>) -> Result<(Seq<ContextChange>, int), CtxDecodeError> {
    if pos < 0 || pos >= ev.len() {
        Err(CtxDecodeError::UnexpectedEnd)
    } else if !opens_at(ev, pos, CtxElement::ContextData) {
        Err(CtxDecodeError::UnexpectedElement)
    } else {
        spec_data_children(ev, attrs_end(ev, pos + 1), vars)
    }
}

/// The highest offset of space `s`.
fn highest_of(s: AddrSpace) -> (r: u64)
    ensures
        r == AddrSpace::spec_highest(s.addr_size, s.word_size),
{
    if s.word_size == 0 {
        proof {
            assert(AddrSpace::spec_highest(s.addr_size, 0) == u64::MAX) by (nonlinear_arith);
        }
        u64::MAX
    } else {
        s.get_highest()
    }
}

fn range_exec(ev: &[CtxEvent], a: usize) -> (r: Result<(ContextAddr, Option<ContextAddr>), CtxDecodeError>)
    ensures
        r == spec_range(ev@, a as int),
        r matches Ok((a1, a2)) ==> (a2 matches Some(b) ==> addr_lt(a1, b)),
{
    let s = match space_attr_exec(ev, a, CtxAttribute::Space) {
        Some(s) => s,
        None => return Err(CtxDecodeError::NoRangeSpace),
    };
    let hi = highest_of(s);
    let first = match unsigned_attr_exec(ev, a, CtxAttribute::First) {
        Some(f) => f,
        None => 0u64,
    };
    let last = match unsigned_attr_exec(ev, a, CtxAttribute::Last) {
        Some(l) => l,
        None => hi,
    };
    if first > hi || last > hi || last < first {
        return Err(CtxDecodeError::IllegalRange);
    }
    let a1 = ContextAddr { space: s, offset: first };
    if last == hi {
        if s.index < i32::MAX {
            Ok((a1, Some(ContextAddr { space: AddrSpace { index: s.index + 1, ..s }, offset: 0 })))
        } else {
            Ok((a1, None))
        }
    } else {
        Ok((a1, Some(ContextAddr { space: s, offset: last + 1 })))
    }
}

impl ContextInternal {
    /// Set the tracked registers over the addresses from `a1` up to `a2`
    /// (from `a1` on, without `a2`) to `ts`.
    fn apply_tracked_range(&mut self, a1: ContextAddr, a2: Option<ContextAddr>, ts: Vec<TrackedContext>)
        requires
            old(self).wf(),
            a2 matches Some(b) ==> addr_lt(a1, b),
        ensures
            changed_by(*old(self), ContextChange::TrackedRange(a1, a2, ts@), *final(self)),
    {
        match a2 {
            Some(b) => {
                let r = self.create_set(a1, b);
                *r = ts;
            },
            None => {
                let r = self.trackbase.create_set_from(a1);
                *r = ts;
            },
        }
    }

    /// Read a processor specification's context element at `pos` (see
    /// [`spec_decode_data`]) and make the changes it asks for, in order;
    /// returns the position after the element.  On an error, the changes of
    /// the children before the faulty one have been made.
    pub fn decode_from_spec(&mut self, ev: &[CtxEvent], pos: usize) -> (r: Result<usize, CtxDecodeError>)
        requires
            old(self).wf(),
        ensures
            final(self).wf(),
            final(self).variables@ == old(self).variables@,
            final(self).size == old(self).size,
            match spec_decode_data(ev@, pos as int, old(self).variables@) {
                Ok((cs, k)) => (r matches Ok(kk) && kk == k) && changed_by_all(*old(self), cs, *final(self)),
                Err(e) => r == Err::<usize, CtxDecodeError>(e),
            },
    {
        let n = ev.len();
        if pos >= n {
            return Err(CtxDecodeError::UnexpectedEnd);
        }
        if !opens_at_exec(ev, pos, CtxElement::ContextData) {
            return Err(CtxDecodeError::UnexpectedElement);
        }
        let mut j = attrs_end_exec(ev, pos + 1);
        let ghost vars = self.variables@;
        let ghost start = *self;
        let ghost mut done: Seq<ContextChange> = Seq::empty();
        proof {
            lemma_attrs_end_bound(ev@, pos + 1);
            assert forall|cs: Seq<ContextChange>, k: int| spec_data_children(ev@, j as int, vars)
                == Ok::<(Seq<ContextChange>, int), CtxDecodeError>((cs, k)) implies spec_decode_data(ev@, pos as int, vars)
                == Ok::<(Seq<ContextChange>, int), CtxDecodeError>((done + cs, k)) by {
                assert(done + cs =~= cs);
            }
        }
        loop
            invariant
                n == ev@.len(),
                j <= n,
                self.wf(),
                self.variables@ == vars,
                self.size == start.size,
                start == *old(self),
                vars == old(self).variables@,
                changed_by_all(start, done, *self),
                forall|cs: Seq<ContextChange>, k: int| spec_data_children(ev@, j as int, vars)
                    == Ok::<(Seq<ContextChange>, int), CtxDecodeError>((cs, k)) ==> spec_decode_data(ev@, pos as int, vars)
                    == Ok::<(Seq<ContextChange>, int), CtxDecodeError>((done + cs, k)),
                forall|e: CtxDecodeError| spec_data_children(ev@, j as int, vars) == Err::<(Seq<ContextChange>, int), CtxDecodeError>(e)
                    ==> spec_decode_data(ev@, pos as int, vars) == Err::<(Seq<ContextChange>, int), CtxDecodeError>(e),
            decreases n - j,
        {
            let ghost cur = spec_data_children(ev@, j as int, vars);
            if j >= n {
                return Err(CtxDecodeError::UnexpectedEnd);
            }
            match &ev[j] {
                CtxEvent::Close(el) => {
                    if *el == CtxElement::ContextData {
                        proof {
                            assert(spec_data_children(ev@, j as int, vars) == Ok::<(Seq<ContextChange>, int), CtxDecodeError>(
                                (Seq::empty(), j + 1)));
                            assert(done + Seq::<ContextChange>::empty() =~= done);
                            assert(spec_decode_data(ev@, pos as int, vars) == Ok::<(Seq<ContextChange>, int), CtxDecodeError>((done, j + 1)));
                        }
                        return Ok(j + 1);
                    } else {
                        return Err(CtxDecodeError::MissingClose);
                    }
                },
                CtxEvent::Open(_) => {},
                _ => {
                    return Err(CtxDecodeError::UnexpectedElement);
                },
            }
            let ghost child_spec = spec_data_child(ev@, j as int, vars);
            let a = j + 1;
            let (a1, a2) = match range_exec(ev, a) {
                Ok(x) => x,
                Err(er) => return Err(er),
            };
            let e = attrs_end_exec(ev, a);
            proof {
                lemma_attrs_end_bound(ev@, a as int);
            }
            let ghost before = *self;
            let ghost mut child: Seq<ContextChange> = Seq::empty();
            let k: usize;
            if opens_at_exec(ev, j, CtxElement::ContextSet) {
                let target = Some((a1, a2));
                let kk = match self.decode_values(ev, e, target) {
                    Ok(x) => x,
                    Err(er) => return Err(er),
                };
                if !closes_at_exec(ev, kk, CtxElement::ContextSet) {
                    return Err(CtxDecodeError::MissingClose);
                }
                proof {
                    lemma_values_after(ev@, e as int, vars);
                    child = match spec_values(ev@, e as int, vars) {
                        Ok((v, _)) => value_changes(v, target),
                        Err(_) => Seq::empty(),
                    };
                }
                k = kk + 1;
            } else if opens_at_exec(ev, j, CtxElement::TrackedSet) {
                let (ts, kk) = match decode_tracked(ev, e) {
                    Ok(x) => x,
                    Err(er) => return Err(er),
                };
                if !closes_at_exec(ev, kk, CtxElement::TrackedSet) {
                    return Err(CtxDecodeError::MissingClose);
                }
                proof {
                    lemma_tracked_list_after(ev@, e as int);
                }
                let ghost tsv = ts@;
                self.apply_tracked_range(a1, a2, ts);
                proof {
                    let c = ContextChange::TrackedRange(a1, a2, tsv);
                    child = seq![c];
                    assert(changed_by_all(before, Seq::<ContextChange>::empty(), before));
                    lemma_changed_by_all_push(before, Seq::<ContextChange>::empty(), before, c, *self);
                    assert(Seq::<ContextChange>::empty().push(c) =~= child);
                }
                k = kk + 1;
            } else {
                return Err(CtxDecodeError::BadDataTag);
            }
            proof {
                assert(child_spec == Ok::<(Seq<ContextChange>, int), CtxDecodeError>((child, k as int)));
                lemma_changed_by_all_concat(start, done, before, child, *self);
                assert forall|cs: Seq<ContextChange>, kx: int| spec_data_children(ev@, k as int, vars)
                    == Ok::<(Seq<ContextChange>, int), CtxDecodeError>((cs, kx)) implies spec_decode_data(ev@, pos as int, vars)
                    == Ok::<(Seq<ContextChange>, int), CtxDecodeError>((done + child + cs, kx)) by {
                    assert(done + child + cs =~= done + (child + cs));
                }
                done = done + child;
            }
            j = k;
        }
    }
}

} // verus!
