//! The p-code expression and statement builder behind the snippet compiler:
//! expression trees, the ops each construct produces, and the propagation of
//! varnode sizes through a finished template.
use vstd::prelude::*;

use crate::opcode::OpCode;
use vstd::string::StringSliceAdditionalSpecFns;
use crate::pcodeparse::{local_ok, scope_has, scope_ok, ScopeEntry, SnippetLocal, SnippetSymbol};
use crate::semantics::{
    delay_ops_have_input, label_build_op, op_value, spec_delay_slot_op, spec_label_build_op, vn_zero_size,
    ConstTpl, ConstType, ConstructTpl, OpTpl, VField, VarnodeTpl,
};
use crate::space::{AddrSpace, SpaceType};

verus! {

/// A source file and line, for error reporting.
#[derive(Debug, Clone)]
pub struct Location {
    /// The file name.
    pub filename: Vec<u8>,
    /// The line number.
    pub lineno: i32,
}

/// The decimal digits of `n`, most significant first.
pub open spec fn decimal_digits(n: nat) -> Seq<u8>
    decreases n,
{
    if n < 10 {
        seq![(48 + n) as u8]
    } else {
        decimal_digits(n / 10).push((48 + n % 10) as u8)
    }
}

/// The decimal text of `v`, with a leading `-` when negative.
pub open spec fn decimal_text(v: int) -> Seq<u8> {
    if v < 0 {
        seq![45u8] + decimal_digits((-v) as nat)
    } else {
        decimal_digits(v as nat)
    }
}

/// Append the decimal digits of `n` to `out`.
fn push_digits(n: u64, out: &mut Vec<u8>)
    ensures
        final(out)@ == old(out)@ + decimal_digits(n as nat),
    decreases n,
{
    if n >= 10 {
        push_digits(n / 10, out);
    }
    out.push((48 + n % 10) as u8);
    proof {
        if n >= 10 {
            assert(decimal_digits(n as nat) == decimal_digits((n / 10) as nat).push((48 + n % 10) as u8));
        }
    }
}

impl Location {
    /// A location in file `fname` at line `line`.
    pub fn new(fname: &[u8], line: i32) -> (r: Location)
        ensures
            r.filename@ == fname@,
            r.lineno == line,
    {
        Location { filename: vstd::slice::slice_to_vec(fname), lineno: line }
    }

    /// The file name.
    pub fn get_filename(&self) -> (r: &[u8])
        ensures
            r@ == self.filename@,
    {
        self.filename.as_slice()
    }

    /// The line number.
    pub fn get_lineno(&self) -> (r: i32)
        ensures
            r == self.lineno,
    {
        self.lineno
    }

    /// The text `file:line`, the file name read as UTF-8 with every
    /// ill-formed part replaced (see [`lossy_utf8`]).
    pub fn format(&self) -> (r: Vec<u8>)
        ensures
            r@ == lossy_utf8(self.filename@) + seq![58u8] + decimal_text(self.lineno as int),
    {
        let name = from_utf8_lossy_bytes(self.filename.as_slice());
        format_name_line(name.as_slice(), self.lineno)
    }
}

/// The text `name:line`: the name's bytes, a colon and the line in
/// decimal.
pub fn format_name_line(name: &[u8], line: i32) -> (r: Vec<u8>)
    ensures
        r@ == name@ + seq![58u8] + decimal_text(line as int),
{
    let mut out = vstd::slice::slice_to_vec(name);
    out.push(58u8);
    let ghost prefix = out@;
    if line < 0 {
        out.push(45u8);
        let mag: u64 = (0i64 - line as i64) as u64;
        push_digits(mag, &mut out);
        proof {
            assert(out@ =~= prefix + (seq![45u8] + decimal_digits((-(line as int)) as nat)));
        }
    } else {
        push_digits(line as u64, &mut out);
    }
    out
}

/// The bytes of the text that std's `String::from_utf8_lossy` makes of
/// `bytes`.
pub uninterp spec fn lossy_utf8(bytes: Seq<u8>) -> Seq<u8>;

/// Calls `String::from_utf8_lossy` and hands back the bytes of the text.
/// The contract claims that the result is [`lossy_utf8`] of the input, and,
/// as std documents, that well-formed UTF-8 comes back unchanged; how an
/// ill-formed part is replaced is left to the name.
#[verifier::external_body]
fn from_utf8_lossy_bytes(bytes: &[u8]) -> (r: Vec<u8>)
    ensures
        r@ == lossy_utf8(bytes@),
        vstd::utf8::valid_utf8(bytes@) ==> r@ == bytes@,
{
    String::from_utf8_lossy(bytes).into_owned().into_bytes()
}

/// The `*[space]:size` qualifier of a load or store.
#[derive(Debug, Clone, Copy)]
pub struct StarQuality {
    /// The space constant.
    pub id: ConstTpl,
    /// The explicit size, 0 when none was given.
    pub size: u32,
}

/// A branch label within a snippet.
#[derive(Debug, Clone)]
pub struct LabelSymbol {
    /// The label's name.
    pub name: Vec<u8>,
    /// The label's number within the snippet.
    pub index: u32,
    /// Has the label been placed (not just referenced)?
    pub isplaced: bool,
    /// The number of references to the label.
    pub refcount: u32,
}

impl LabelSymbol {
    /// A fresh, unplaced, unreferenced label.
    pub fn new(nm: &[u8], i: u32) -> (r: LabelSymbol)
        ensures
            r.name@ == nm@,
            r.index == i,
            !r.isplaced,
            r.refcount == 0,
    {
        LabelSymbol { name: vstd::slice::slice_to_vec(nm), index: i, isplaced: false, refcount: 0 }
    }

    /// The label's name.
    pub fn get_name(&self) -> (r: &[u8])
        ensures
            r@ == self.name@,
    {
        self.name.as_slice()
    }

    /// The label's number.
    pub fn get_index(&self) -> (r: u32)
        ensures
            r == self.index,
    {
        self.index
    }

    /// Count one more reference (wrapping, as a 32-bit counter).
    pub fn increment_ref_count(&mut self)
        ensures
            final(self).refcount == (old(self).refcount + 1) % 0x1_0000_0000,
            final(self).name == old(self).name,
            final(self).index == old(self).index,
            final(self).isplaced == old(self).isplaced,
    {
        self.refcount = self.refcount.wrapping_add(1);
    }

    /// The number of references.
    pub fn get_ref_count(&self) -> (r: u32)
        ensures
            r == self.refcount,
    {
        self.refcount
    }

    /// Mark the label placed.
    pub fn set_placed(&mut self)
        ensures
            final(self).isplaced,
            final(self).name == old(self).name,
            final(self).index == old(self).index,
            final(self).refcount == old(self).refcount,
    {
        self.isplaced = true;
    }

    /// Has the label been placed?
    pub fn is_placed(&self) -> (r: bool)
        ensures
            r == self.isplaced,
    {
        self.isplaced
    }
}

/// A named global or temporary varnode: space, offset and size.
#[derive(Debug, Clone)]
pub struct VarnodeSymbol {
    /// The symbol's name.
    pub name: Vec<u8>,
    /// The space holding the varnode.
    pub space: AddrSpace,
    /// The offset of the varnode.
    pub offset: u64,
    /// The size of the varnode in bytes.
    pub size: i32,
}

/// A user-defined p-code operation.
#[derive(Debug, Clone)]
pub struct UserOpSymbol {
    /// The operation's name.
    pub name: Vec<u8>,
    /// The operation's index.
    pub index: u32,
}

/// What the builder hands to the symbol scope: a new varnode symbol or a new
/// label.
#[derive(Debug, Clone)]
pub enum PcodeCompileSymbol {
    /// A temporary varnode symbol.
    Sleigh(VarnodeSymbol),
    /// A snippet-local branch label.
    Label(LabelSymbol),
}

impl PcodeCompileSymbol {
    /// The symbol's name.
    pub open spec fn spec_name(&self) -> Seq<u8> {
        match self {
            PcodeCompileSymbol::Sleigh(s) => s.name@,
            PcodeCompileSymbol::Label(l) => l.name@,
        }
    }

    /// The symbol's name.
    pub fn get_name(&self) -> (r: &[u8])
        ensures
            r@ == self.spec_name(),
    {
        match self {
            PcodeCompileSymbol::Sleigh(s) => s.name.as_slice(),
            PcodeCompileSymbol::Label(l) => l.name.as_slice(),
        }
    }
}

/// Why building an expression or statement failed.
#[derive(Debug, Clone, Copy, PartialEq, Eq, Structural)]
pub enum CompileError {
    /// The expression has no output varnode.
    NoOutput,
    /// A temporary was given two different sizes.
    LocaltempSizeMismatch,
    /// A bit range lies outside its varnode.
    BitRangeOutOfBounds,
    /// A truncated varnode of unknown size cannot be built.
    CannotConstructBitRange,
}

impl CompileError {
    /// A description of the error.
    pub fn explain(&self) -> (r: &'static str)
        ensures
            r@ == match self {
                CompileError::NoOutput => "Expression has no output"@,
                CompileError::LocaltempSizeMismatch => "Localtemp size mismatch"@,
                CompileError::BitRangeOutOfBounds => "Requested bit range out of bounds"@,
                CompileError::CannotConstructBitRange => "Could not construct requested bit range"@,
            },
    {
        match self {
            CompileError::NoOutput => "Expression has no output",
            CompileError::LocaltempSizeMismatch => "Localtemp size mismatch",
            CompileError::BitRangeOutOfBounds => "Requested bit range out of bounds",
            CompileError::CannotConstructBitRange => "Could not construct requested bit range",
        }
    }
}

/// An expression: the ops that compute it and the varnode holding its value.
#[derive(Debug)]
pub struct ExprTree {
    /// The ops, in order.
    pub ops: Vec<OpTpl>,
    /// The output varnode, if any.
    pub outvn: Option<VarnodeTpl>,
}

/// The ops of a list of expressions, concatenated in order.
pub open spec fn params_ops(ps: Seq<ExprTree>) -> Seq<OpTpl>
    decreases ps.len(),
{
    if ps.len() == 0 {
        Seq::empty()
    } else {
        params_ops(ps.drop_last()) + ps.last().ops@
    }
}

/// The outputs of a list of expressions, in order.
pub open spec fn params_outs(ps: Seq<ExprTree>) -> Seq<VarnodeTpl> {
    ps.map_values(|e: ExprTree| e.outvn->0)
}

/// The ops of an expression whose output `out` has been forced into
/// `newout`: the last op retargeted when `out` is unnamed, else a `COPY`
/// appended.
pub open spec fn retarget_ops(ops: Seq<OpTpl>, out: VarnodeTpl, newout: VarnodeTpl) -> Seq<OpView> {
    if out.unnamed_flag {
        ops_view(ops).update(ops.len() - 1, op_value(Some(newout), ops.last().opc, ops.last().input@))
    } else {
        ops_view(ops).push(op_value(Some(newout), OpCode::CPUI_COPY, seq![out]))
    }
}

impl ExprTree {
    /// Is the expression usable: it has an output, and an unnamed output is
    /// produced by its last op?
    pub open spec fn wf(&self) -> bool {
        &&& self.outvn is Some
        &&& self.outvn->0.unnamed_flag ==> self.ops@.len() > 0
        &&& ops_ok(self.ops@)
    }

    /// The expression that is just the varnode `vn`.
    pub fn new(vn: VarnodeTpl) -> (r: ExprTree)
        ensures
            r.ops@.len() == 0,
            r.outvn == Some(vn),
    {
        ExprTree { ops: Vec::new(), outvn: Some(vn) }
    }

    /// The expression of the single op `op`; its output is the op's output.
    pub fn new_from_op(op: OpTpl) -> (r: ExprTree)
        ensures
            r.ops@ == seq![op],
            r.outvn == op.output,
    {
        let outvn = op.output;
        let mut ops: Vec<OpTpl> = Vec::new();
        ops.push(op);
        ExprTree { ops, outvn }
    }

    /// Force the expression's value into `newout`.  An unnamed output is
    /// simply retargeted by its op; a named one is copied by an extra
    /// `COPY`.  An expression without output is refused.
    pub fn set_output(&mut self, newout: VarnodeTpl) -> (r: Result<(), CompileError>)
        requires
            old(self).outvn matches Some(v) && v.unnamed_flag ==> old(self).ops@.len() > 0,
        ensures
            old(self).outvn is None ==> r == Err::<(), CompileError>(CompileError::NoOutput)
                && final(self).ops@ == old(self).ops@ && final(self).outvn is None,
            old(self).outvn is Some ==> r is Ok && final(self).outvn == Some(newout),
            old(self).outvn matches Some(v) && v.unnamed_flag ==> {
                &&& final(self).ops@.len() == old(self).ops@.len()
                &&& final(self).ops@.drop_last() == old(self).ops@.drop_last()
                &&& final(self).ops@.last()@ == op_value(
                    Some(newout),
                    old(self).ops@.last().opc,
                    old(self).ops@.last().input@,
                )
            },
            old(self).outvn matches Some(v) && !v.unnamed_flag ==> {
                &&& final(self).ops@.drop_last() == old(self).ops@
                &&& final(self).ops@.len() == old(self).ops@.len() + 1
                &&& final(self).ops@.last()@ == op_value(Some(newout), OpCode::CPUI_COPY, seq![old(self).outvn->0])
            },
            all_fillin_ok(old(self).ops@) ==> all_fillin_ok(final(self).ops@),
            delay_ops_have_input(old(self).ops@) ==> delay_ops_have_input(final(self).ops@),
            old(self).outvn is Some ==> ops_view(final(self).ops@) == retarget_ops(
                old(self).ops@,
                old(self).outvn->0,
                newout,
            ),
    {
        match self.outvn {
            None => Err(CompileError::NoOutput),
            Some(outvn) => {
                if outvn.is_unnamed() {
                    let ghost before = self.ops@;
                    let mut op = self.ops.pop().unwrap();
                    op.clear_output();
                    op.set_output(newout);
                    self.ops.push(op);
                    proof {
                        if all_fillin_ok(before) {
                            assert forall|i: int| 0 <= i < self.ops@.len() implies fillin_ok(#[trigger] self.ops@[i]@) by {
                                assert(fillin_ok(before[i]@));
                            }
                        }
                        if delay_ops_have_input(before) {
                            assert forall|i: int| 0 <= i < self.ops@.len() && (#[trigger] self.ops@[i]).opc == spec_delay_slot_op()
                                implies self.ops@[i].input@.len() > 0 by {
                                assert(before[i].opc == self.ops@[i].opc);
                            }
                        }
                    }
                } else {
                    let mut op = OpTpl::new(OpCode::CPUI_COPY);
                    op.add_input(outvn);
                    op.set_output(newout);
                    self.ops.push(op);
                    proof {
                        assert(op.input@ =~= seq![outvn]);
                        assert forall|i: int| 0 <= i < self.ops@.len() && all_fillin_ok(self.ops@.drop_last())
                            implies fillin_ok(#[trigger] self.ops@[i]@) by {
                            if i < self.ops@.len() - 1 {
                                assert(self.ops@.drop_last()[i] == self.ops@[i]);
                            }
                        }
                        assert forall|i: int| 0 <= i < self.ops@.len() && delay_ops_have_input(self.ops@.drop_last())
                            && (#[trigger] self.ops@[i]).opc == spec_delay_slot_op() implies self.ops@[i].input@.len() > 0 by {
                            if i < self.ops@.len() - 1 {
                                assert(self.ops@.drop_last()[i] == self.ops@[i]);
                            }
                        }
                    }
                }
                self.outvn = Some(newout);
                proof {
                    assert(ops_view(self.ops@) =~= retarget_ops(old(self).ops@, outvn, newout));
                }
                Ok(())
            },
        }
    }

    /// The output varnode, if any.
    pub fn get_out(&self) -> (r: Option<&VarnodeTpl>)
        ensures
            r matches Some(v) ==> self.outvn == Some(*v),
            r is None <==> self.outvn is None,
    {
        self.outvn.as_ref()
    }

    /// The size of the output varnode.
    pub fn get_size(&self) -> (r: &ConstTpl)
        requires
            self.outvn is Some,
        ensures
            *r == self.outvn->0.size,
    {
        match &self.outvn {
            Some(v) => &v.size,
            None => {
                proof {
                    assert(false);
                }
                &self.outvn.as_ref().unwrap().size
            },
        }
    }

    /// The ops of all parameter expressions, in order, followed by `op` with
    /// each parameter's output appended as an input.
    pub fn append_params(op: OpTpl, params: Vec<ExprTree>) -> (r: Vec<OpTpl>)
        requires
            forall|i: int| 0 <= i < params@.len() ==> (#[trigger] params@[i]).outvn is Some,
        ensures
            r@.len() > 0,
            r@.drop_last() == params_ops(params@),
            r@.last()@ == op_value(op.output, op.opc, op.input@ + params_outs(params@)),
    {
        let mut op = op;
        let ghost op0 = op;
        let mut params = params;
        let ghost all = params@;
        let mut res: Vec<OpTpl> = Vec::new();
        let ghost mut k: int = 0;
        while params.len() > 0
            invariant
                0 <= k <= all.len(),
                params@ == all.subrange(k, all.len() as int),
                res@ == params_ops(all.subrange(0, k)),
                op@ == op_value(op0.output, op0.opc, op0.input@ + params_outs(all.subrange(0, k))),
                forall|i: int| 0 <= i < all.len() ==> (#[trigger] all[i]).outvn is Some,
            decreases params@.len(),
        {
            let mut p = params.remove(0);
            proof {
                assert(p == all[k]);
                let pre = all.subrange(0, k);
                let nxt = all.subrange(0, k + 1);
                assert(nxt.drop_last() =~= pre);
                assert(nxt.last() == p);
                assert(params_outs(nxt) =~= params_outs(pre).push(p.outvn->0));
            }
            let ghost pops = p.ops@;
            res.append(&mut p.ops);
            let v = p.outvn.unwrap();
            op.add_input(v);
            proof {
                k = k + 1;
                assert(params@ =~= all.subrange(k, all.len() as int));
                assert(res@ =~= params_ops(all.subrange(0, k)));
                assert(op0.input@ + params_outs(all.subrange(0, k)) =~= (op0.input@
                    + params_outs(all.subrange(0, k - 1))).push(v));
            }
        }
        proof {
            assert(all.subrange(0, k) =~= all);
        }
        res.push(op);
        proof {
            assert(res@.drop_last() =~= params_ops(all));
        }
        res
    }

    /// The expression's ops (its output is dropped).
    pub fn to_vector(expr: ExprTree) -> (r: Vec<OpTpl>)
        ensures
            r@ == expr.ops@,
    {
        expr.ops
    }
}


/// An op template as a value: output, op code, inputs.
pub type OpView = (Option<VarnodeTpl>, OpCode, Seq<VarnodeTpl>);

/// A list of op templates as values.
pub open spec fn ops_view(ops: Seq<OpTpl>) -> Seq<OpView> {
    ops.map_values(|o: OpTpl| o@)
}

/// The varnode `vn` with its size replaced.
pub open spec fn with_size(vn: VarnodeTpl, size: ConstTpl) -> VarnodeTpl {
    VarnodeTpl { size: size, ..vn }
}

/// Is `size` a known size (anything but the real constant 0)?
pub open spec fn known_size(size: ConstTpl) -> bool {
    !(size.type_ == ConstType::Real && size.value_real == 0)
}

/// Is `vn` the temporary at offset `off`?
pub open spec fn temp_matches(vn: VarnodeTpl, off: ConstTpl) -> bool {
    vn.spec_is_local_temp() && vn.offset.same_as(&off)
}

/// Would giving the temporary at `off` the size `size` contradict the real
/// size `vn` already has?
pub open spec fn size_clash(vn: VarnodeTpl, off: ConstTpl, size: ConstTpl) -> bool {
    &&& temp_matches(vn, off)
    &&& size.type_ == ConstType::Real
    &&& vn.size.type_ == ConstType::Real
    &&& vn.size.value_real != 0
    &&& vn.size.value_real != size.value_real
}

/// `vn` after the temporary at `off` has been given size `size`.
pub open spec fn resized(vn: VarnodeTpl, off: ConstTpl, size: ConstTpl) -> VarnodeTpl {
    if temp_matches(vn, off) {
        with_size(vn, size)
    } else {
        vn
    }
}

/// Does some varnode of `op` clash with the size given to the temporary at
/// `off`?
pub open spec fn op_clashes(op: OpView, off: ConstTpl, size: ConstTpl) -> bool {
    ||| (op.0 matches Some(o) && size_clash(o, off, size))
    ||| exists|i: int| 0 <= i < op.2.len() && size_clash(#[trigger] op.2[i], off, size)
}

/// `op` after the temporary at `off` has been given size `size`.
pub open spec fn op_resized(op: OpView, off: ConstTpl, size: ConstTpl) -> OpView {
    (
        match op.0 {
            Some(o) => Some(resized(o, off, size)),
            None => None,
        },
        op.1,
        op.2.map_values(|v: VarnodeTpl| resized(v, off, size)),
    )
}

/// Does some op of the list clash?
pub open spec fn any_clash(ops: Seq<OpView>, off: ConstTpl, size: ConstTpl) -> bool {
    exists|i: int| 0 <= i < ops.len() && op_clashes(#[trigger] ops[i], off, size)
}

/// Every op of the list after the temporary at `off` has been given size
/// `size`.
pub open spec fn all_resized(ops: Seq<OpView>, off: ConstTpl, size: ConstTpl) -> Seq<OpView> {
    ops.map_values(|o: OpView| op_resized(o, off, size))
}

/// Do two ops have the same op code, the same presence of an output and
/// the same number of inputs?
pub open spec fn same_shape(a: OpView, b: OpView) -> bool {
    &&& a.1 == b.1
    &&& (a.0 is Some <==> b.0 is Some)
    &&& a.2.len() == b.2.len()
}

/// Do two op lists agree in shape, op by op?
pub open spec fn ops_same_shape(a: Seq<OpView>, b: Seq<OpView>) -> bool {
    &&& a.len() == b.len()
    &&& forall|i: int| 0 <= i < a.len() ==> same_shape(#[trigger] a[i], b[i])
}

/// Is `new` the varnode `old`, or `old` given a known size?
pub open spec fn vn_evolves(old: VarnodeTpl, new: VarnodeTpl) -> bool {
    new == old || (new == with_size(old, new.size) && known_size(new.size))
}

/// Is `new` the op `old` with some varnodes given known sizes?
pub open spec fn op_evolves(old: OpView, new: OpView) -> bool {
    &&& same_shape(old, new)
    &&& (old.0 matches Some(o) ==> vn_evolves(o, new.0->0))
    &&& forall|i: int| 0 <= i < old.2.len() ==> vn_evolves(#[trigger] old.2[i], new.2[i])
}

/// Is `new` the op list `old` with some varnodes given known sizes?
pub open spec fn ops_evolve(old: Seq<OpView>, new: Seq<OpView>) -> bool {
    &&& old.len() == new.len()
    &&& forall|i: int| 0 <= i < old.len() ==> op_evolves(#[trigger] old[i], new[i])
}

/// Every list evolves into itself.
proof fn lemma_evolve_refl(a: Seq<OpView>)
    ensures
        ops_evolve(a, a),
{
}

/// Evolving is transitive.
proof fn lemma_evolve_trans(a: Seq<OpView>, b: Seq<OpView>, c: Seq<OpView>)
    requires
        ops_evolve(a, b),
        ops_evolve(b, c),
    ensures
        ops_evolve(a, c),
{
    assert forall|i: int| 0 <= i < a.len() implies op_evolves(#[trigger] a[i], c[i]) by {
        assert(op_evolves(a[i], b[i]));
        assert(op_evolves(b[i], c[i]));
        assert forall|t: int| 0 <= t < a[i].2.len() implies vn_evolves(#[trigger] a[i].2[t], c[i].2[t]) by {
            assert(vn_evolves(a[i].2[t], b[i].2[t]));
            assert(vn_evolves(b[i].2[t], c[i].2[t]));
        }
    }
}

/// Resizing a temporary to a known size is an evolution.
proof fn lemma_resized_evolves(ops: Seq<OpView>, off: ConstTpl, size: ConstTpl)
    requires
        known_size(size),
    ensures
        ops_evolve(ops, all_resized(ops, off, size)),
{
    let r = all_resized(ops, off, size);
    assert forall|i: int| 0 <= i < ops.len() implies op_evolves(#[trigger] ops[i], r[i]) by {
        lemma_resized_shape(ops[i], off, size);
        assert forall|t: int| 0 <= t < ops[i].2.len() implies vn_evolves(#[trigger] ops[i].2[t], r[i].2[t]) by {
            assert(r[i].2[t] == resized(ops[i].2[t], off, size));
        }
    }
}

/// Giving one zero-size slot a known size is an evolution.
proof fn lemma_slot_size_evolves(ops: Seq<OpView>, k: int, j: int, size: ConstTpl)
    requires
        0 <= k < ops.len(),
        slot_valid(ops[k], j),
        known_size(size),
    ensures
        ops_evolve(ops, ops.update(k, with_slot_size(ops[k], j, size))),
{
    let r = ops.update(k, with_slot_size(ops[k], j, size));
    assert forall|i: int| 0 <= i < ops.len() implies op_evolves(#[trigger] ops[i], r[i]) by {
        if i == k {
            assert forall|t: int| 0 <= t < ops[i].2.len() implies vn_evolves(#[trigger] ops[i].2[t], r[i].2[t]) by {
            }
        }
    }
}

/// A known size stays known as the ops evolve.
proof fn lemma_nonzero_stays(a: OpView, b: OpView)
    requires
        op_evolves(a, b),
        !(a.0 matches Some(o) && vn_zero_size(o)),
        forall|t: int| 0 <= t < a.2.len() ==> !vn_zero_size(#[trigger] a.2[t]),
    ensures
        !(b.0 matches Some(o) && vn_zero_size(o)),
        forall|t: int| 0 <= t < b.2.len() ==> !vn_zero_size(#[trigger] b.2[t]),
{
    assert forall|t: int| 0 <= t < b.2.len() implies !vn_zero_size(#[trigger] b.2[t]) by {
        assert(vn_evolves(a.2[t], b.2[t]));
        assert(!vn_zero_size(a.2[t]));
    }
}

/// Is slot `j` of `op` present: -1 for the output, else an input index?
pub open spec fn slot_valid(op: OpView, j: int) -> bool {
    if j == -1 {
        op.0 is Some
    } else {
        0 <= j < op.2.len()
    }
}

/// The varnode in slot `j` of `op`.
pub open spec fn slot_vn(op: OpView, j: int) -> VarnodeTpl {
    if j == -1 {
        op.0->0
    } else {
        op.2[j]
    }
}

/// `op` with the varnode in slot `j` given size `size`.
pub open spec fn with_slot_size(op: OpView, j: int, size: ConstTpl) -> OpView {
    if j == -1 {
        (Some(with_size(op.0->0, size)), op.1, op.2)
    } else {
        (op.0, op.1, op.2.update(j, with_size(op.2[j], size)))
    }
}

/// Forcing size `size` onto slot `j` of op `k`: nothing happens when the
/// slot already has a size; otherwise the slot gets the size and, when it
/// is a temporary, so does every other use of that temporary, which fails
/// on a use that has a different real size.  The result says whether it
/// succeeded and, when it did, the new ops.
pub open spec fn forced_at(ops: Seq<OpView>, k: int, j: int, size: ConstTpl) -> (bool, Seq<OpView>) {
    let t = slot_vn(ops[k], j);
    if !vn_zero_size(t) {
        (true, ops)
    } else if !t.spec_is_local_temp() {
        (true, ops.update(k, with_slot_size(ops[k], j, size)))
    } else {
        (!any_clash(ops, t.offset, size), all_resized(ops, t.offset, size))
    }
}

/// The size of the first varnode of the list that has one.
pub open spec fn first_sized(vs: Seq<VarnodeTpl>) -> Option<ConstTpl>
    decreases vs.len(),
{
    if vs.len() == 0 {
        None
    } else if !vn_zero_size(vs[0]) {
        Some(vs[0].size)
    } else {
        first_sized(vs.drop_first())
    }
}

/// Where a zero-size slot of `op` takes its size from: the output (unless
/// only inputs count) if it has a size, else the first input that has one.
pub open spec fn match_source(op: OpView, inputonly: bool) -> Option<ConstTpl> {
    if !inputonly && op.0 is Some && !vn_zero_size(op.0->0) {
        Some(op.0->0.size)
    } else {
        first_sized(op.2)
    }
}

/// Filling slot `j` of op `k` from the other varnodes of the op.
pub open spec fn matched(ops: Seq<OpView>, k: int, j: int, inputonly: bool) -> (bool, Seq<OpView>) {
    match match_source(ops[k], inputonly) {
        Some(sz) => forced_at(ops, k, j, sz),
        None => (true, ops),
    }
}


/// Is `vn` the temporary at offset `off`?
fn temp_matches_exec(vn: &VarnodeTpl, off: &ConstTpl) -> (r: bool)
    ensures
        r == temp_matches(*vn, *off),
{
    vn.is_local_temp() && vn.offset.equals(off)
}

/// Does `vn` clash with the size given to the temporary at `off`?
fn size_clash_exec(vn: &VarnodeTpl, off: &ConstTpl, size: &ConstTpl) -> (r: bool)
    ensures
        r == size_clash(*vn, *off, *size),
{
    temp_matches_exec(vn, off) && size.type_ == ConstType::Real && vn.size.type_ == ConstType::Real
        && vn.size.value_real != 0 && vn.size.value_real != size.value_real
}

/// Resizing a temporary keeps the shape of every op.
proof fn lemma_resized_shape(op: OpView, off: ConstTpl, size: ConstTpl)
    ensures
        same_shape(op, op_resized(op, off, size)),
{
}

/// A list whose first `i` ops were resized and whose others are unchanged
/// has the shape of the list it started from.
proof fn lemma_prefix_resized_shape(orig: Seq<OpView>, ops: Seq<OpTpl>, i: int, off: ConstTpl, size: ConstTpl)
    requires
        ops.len() == orig.len(),
        0 <= i <= ops.len(),
        forall|j: int| 0 <= j < i ==> (#[trigger] ops[j])@ == op_resized(orig[j], off, size),
        forall|j: int| i <= j < ops.len() ==> (#[trigger] ops[j])@ == orig[j],
    ensures
        ops_same_shape(orig, ops_view(ops)),
{
    assert forall|j: int| 0 <= j < orig.len() implies same_shape(#[trigger] orig[j], ops_view(ops)[j]) by {
        lemma_resized_shape(orig[j], off, size);
        if j < i {
            assert(ops_view(ops)[j] == ops[j]@);
        } else {
            assert(ops_view(ops)[j] == ops[j]@);
        }
    }
}

/// Give every use in `ops` of the temporary at `vt_offset` the size `size`.
/// Fails when a use already has a different real size.
pub fn force_size_propagate(vt_offset: &ConstTpl, size: &ConstTpl, ops: &mut Vec<OpTpl>) -> (r:
    Result<(), CompileError>)
    ensures
        ops_same_shape(ops_view(old(ops)@), ops_view(final(ops)@)),
        r is Ok <==> !any_clash(ops_view(old(ops)@), *vt_offset, *size),
        r is Err ==> r == Err::<(), CompileError>(CompileError::LocaltempSizeMismatch),
        r is Ok ==> ops_view(final(ops)@) == all_resized(ops_view(old(ops)@), *vt_offset, *size),
        r is Ok && known_size(*size) ==> ops_evolve(ops_view(old(ops)@), ops_view(final(ops)@)),
{
    let ghost orig = ops_view(ops@);
    let ghost off = *vt_offset;
    let ghost sz = *size;
    let mut i: usize = 0;
    while i < ops.len()
        invariant
            orig == ops_view(old(ops)@),
            off == *vt_offset,
            sz == *size,
            ops@.len() == orig.len(),
            i <= ops@.len(),
            forall|j: int| 0 <= j < i ==> (#[trigger] ops@[j])@ == op_resized(orig[j], off, sz),
            forall|j: int| 0 <= j < i ==> !op_clashes(#[trigger] orig[j], off, sz),
            forall|j: int| i <= j < ops@.len() ==> (#[trigger] ops@[j])@ == orig[j],
        decreases ops@.len() - i,
    {
        let mut op = ops[i].duplicate();
        let ghost o0 = op@;
        assert(o0 == orig[i as int]);
        match op.output {
            Some(vn) => {
                if size_clash_exec(&vn, vt_offset, size) {
                    proof {
                        assert(o0.0 == Some(vn));
                        assert(op_clashes(o0, off, sz));
                        lemma_prefix_resized_shape(orig, ops@, i as int, off, sz);
                    }
                    return Err(CompileError::LocaltempSizeMismatch);
                }
                if temp_matches_exec(&vn, vt_offset) {
                    let mut v2 = vn;
                    v2.set_size(*size);
                    op.output = Some(v2);
                }
            },
            None => {},
        }
        let mut j: usize = 0;
        while j < op.input.len()
            invariant
                orig == ops_view(old(ops)@),
                off == *vt_offset,
                sz == *size,
                o0 == orig[i as int],
                ops@.len() == orig.len(),
                i < ops@.len(),
                forall|t: int| 0 <= t < i ==> (#[trigger] ops@[t])@ == op_resized(orig[t], off, sz),
                forall|t: int| i <= t < ops@.len() ==> (#[trigger] ops@[t])@ == orig[t],
                op.opc == o0.1,
                op.input@.len() == o0.2.len(),
                j <= op.input@.len(),
                op.output == op_resized(o0, off, sz).0,
                !(o0.0 matches Some(o) && size_clash(o, off, sz)),
                forall|t: int| 0 <= t < j ==> (#[trigger] op.input@[t]) == resized(o0.2[t], off, sz),
                forall|t: int| 0 <= t < j ==> !size_clash(#[trigger] o0.2[t], off, sz),
                forall|t: int| j <= t < op.input@.len() ==> (#[trigger] op.input@[t]) == o0.2[t],
            decreases op.input@.len() - j,
        {
            let vn = op.input[j];
            if size_clash_exec(&vn, vt_offset, size) {
                proof {
                    assert(size_clash(o0.2[j as int], off, sz));
                    assert(op_clashes(o0, off, sz));
                    lemma_prefix_resized_shape(orig, ops@, i as int, off, sz);
                }
                return Err(CompileError::LocaltempSizeMismatch);
            }
            if temp_matches_exec(&vn, vt_offset) {
                let mut v2 = vn;
                v2.set_size(*size);
                op.input.set(j, v2);
            }
            j += 1;
        }
        proof {
            assert(op.input@ =~= o0.2.map_values(|v: VarnodeTpl| resized(v, off, sz)));
            assert(op@ == op_resized(o0, off, sz));
            assert(!op_clashes(o0, off, sz));
        }
        ops.set(i, op);
        i += 1;
    }
    proof {
        assert(!any_clash(orig, off, sz));
        assert(ops_view(ops@) =~= all_resized(orig, off, sz));
        if known_size(sz) {
            lemma_resized_evolves(orig, off, sz);
        }
    }
    Ok(())
}


/// A varnode position within an op: its output or one of its inputs.
#[derive(Debug, Clone, Copy)]
enum Slot {
    /// The output.
    Out,
    /// The input with this index.
    In(usize),
}

/// The slot as a number: -1 for the output, else the input index.
spec fn slot_index(s: Slot) -> int {
    match s {
        Slot::Out => -1,
        Slot::In(j) => j as int,
    }
}

/// Giving the temporary of slot `j` its size, when that slot has none and is
/// a temporary, is the same as resizing the temporary everywhere.
proof fn lemma_forced_local(orig: Seq<OpView>, k: int, j: int, size: ConstTpl)
    requires
        0 <= k < orig.len(),
        slot_valid(orig[k], j),
        vn_zero_size(slot_vn(orig[k], j)),
        slot_vn(orig[k], j).spec_is_local_temp(),
    ensures
        ({
            let t = slot_vn(orig[k], j);
            let ops1 = orig.update(k, with_slot_size(orig[k], j, size));
            &&& any_clash(ops1, t.offset, size) == any_clash(orig, t.offset, size)
            &&& all_resized(ops1, t.offset, size) == all_resized(orig, t.offset, size)
        }),
{
    let t = slot_vn(orig[k], j);
    let off = t.offset;
    let ops1 = orig.update(k, with_slot_size(orig[k], j, size));
    assert(off.same_as(&off));
    assert(temp_matches(t, off));
    let nt = with_size(t, size);
    assert(temp_matches(nt, off));
    assert(!size_clash(nt, off, size));
    assert(!size_clash(t, off, size));
    assert(resized(nt, off, size) == resized(t, off, size));
    let a = ops1[k];
    let b = orig[k];
    if j == -1 {
        assert(op_resized(a, off, size).2 =~= op_resized(b, off, size).2);
        assert(op_resized(a, off, size) == op_resized(b, off, size));
        assert(op_clashes(a, off, size) == op_clashes(b, off, size));
    } else {
        assert forall|i: int| 0 <= i < a.2.len() implies size_clash(#[trigger] a.2[i], off, size)
            == size_clash(b.2[i], off, size) by {
            if i == j {
            } else {
            }
        }
        assert(op_resized(a, off, size).2 =~= op_resized(b, off, size).2);
        assert(op_resized(a, off, size) == op_resized(b, off, size));
        assert(op_clashes(a, off, size) == op_clashes(b, off, size)) by {
            assert(a.0 == b.0);
            if exists|i: int| 0 <= i < a.2.len() && size_clash(#[trigger] a.2[i], off, size) {
                let i = choose|i: int| 0 <= i < a.2.len() && size_clash(#[trigger] a.2[i], off, size);
                assert(size_clash(b.2[i], off, size));
            }
            if exists|i: int| 0 <= i < b.2.len() && size_clash(#[trigger] b.2[i], off, size) {
                let i = choose|i: int| 0 <= i < b.2.len() && size_clash(#[trigger] b.2[i], off, size);
                assert(size_clash(a.2[i], off, size));
            }
        }
    }
    assert(all_resized(ops1, off, size) =~= all_resized(orig, off, size)) by {
        assert forall|i: int| 0 <= i < orig.len() implies all_resized(ops1, off, size)[i]
            == all_resized(orig, off, size)[i] by {
            if i != k {
                assert(ops1[i] == orig[i]);
            }
        }
    }
    assert(any_clash(ops1, off, size) == any_clash(orig, off, size)) by {
        if any_clash(ops1, off, size) {
            let i = choose|i: int| 0 <= i < ops1.len() && op_clashes(#[trigger] ops1[i], off, size);
            if i != k {
                assert(ops1[i] == orig[i]);
            }
            assert(op_clashes(orig[i], off, size));
        }
        if any_clash(orig, off, size) {
            let i = choose|i: int| 0 <= i < orig.len() && op_clashes(#[trigger] orig[i], off, size);
            if i != k {
                assert(ops1[i] == orig[i]);
            }
            assert(op_clashes(ops1[i], off, size));
        }
    }
}

/// Force size `size` onto `slot` of op `k` (see [`forced_at`]).
fn force_size_at(ops: &mut Vec<OpTpl>, k: usize, slot: Slot, size: &ConstTpl) -> (r: Result<
    (),
    CompileError,
>)
    requires
        k < old(ops)@.len(),
        slot_valid(old(ops)@[k as int]@, slot_index(slot)),
    ensures
        ops_same_shape(ops_view(old(ops)@), ops_view(final(ops)@)),
        (r is Ok) == forced_at(ops_view(old(ops)@), k as int, slot_index(slot), *size).0,
        r is Ok ==> ops_view(final(ops)@) == forced_at(
            ops_view(old(ops)@),
            k as int,
            slot_index(slot),
            *size,
        ).1,
        r is Err ==> r == Err::<(), CompileError>(CompileError::LocaltempSizeMismatch),
        r is Ok && known_size(*size) ==> ops_evolve(ops_view(old(ops)@), ops_view(final(ops)@)),
{
    let ghost orig = ops_view(ops@);
    let ghost j = slot_index(slot);
    let mut op = ops[k].duplicate();
    assert(op@ == orig[k as int]);
    let vt = match slot {
        Slot::Out => op.output.unwrap(),
        Slot::In(i) => op.input[i],
    };
    assert(vt == slot_vn(orig[k as int], j));
    if !vt.is_zero_size() {
        proof {
            lemma_evolve_refl(orig);
        }
        return Ok(());
    }
    let mut v2 = vt;
    v2.set_size(*size);
    match slot {
        Slot::Out => {
            op.output = Some(v2);
        },
        Slot::In(i) => {
            op.input.set(i, v2);
        },
    }
    proof {
        assert(op@.2 =~= with_slot_size(orig[k as int], j, *size).2);
        assert(op@ == with_slot_size(orig[k as int], j, *size));
    }
    ops.set(k, op);
    proof {
        assert(ops_view(ops@) =~= orig.update(k as int, with_slot_size(orig[k as int], j, *size)));
        assert(ops_same_shape(orig, ops_view(ops@))) by {
            assert forall|i: int| 0 <= i < orig.len() implies same_shape(#[trigger] orig[i], ops_view(ops@)[i]) by {
                if i != k {
                    assert(ops_view(ops@)[i] == orig[i]);
                }
            }
        }
    }
    if !vt.is_local_temp() {
        proof {
            if known_size(*size) {
                lemma_slot_size_evolves(orig, k as int, j, *size);
            }
        }
        return Ok(());
    }
    let offset = vt.offset;
    let ghost mid = ops_view(ops@);
    let res = force_size_propagate(&offset, size, ops);
    proof {
        lemma_forced_local(orig, k as int, j, *size);
        if known_size(*size) {
            lemma_resized_evolves(orig, offset, *size);
        }
        assert(ops_same_shape(orig, ops_view(ops@))) by {
            assert forall|i: int| 0 <= i < orig.len() implies same_shape(#[trigger] orig[i], ops_view(ops@)[i]) by {
                assert(same_shape(orig[i], mid[i]));
                assert(same_shape(mid[i], ops_view(ops@)[i]));
            }
        }
    }
    res
}


/// Give `vt` the size `size` if it has none yet; when `vt` is a temporary,
/// give every use of it in `ops` that size too (failing on a use with a
/// different real size).
pub fn force_size(vt: &mut VarnodeTpl, size: &ConstTpl, ops: &mut Vec<OpTpl>) -> (r: Result<
    (),
    CompileError,
>)
    ensures
        ops_same_shape(ops_view(old(ops)@), ops_view(final(ops)@)),
        !vn_zero_size(*old(vt)) ==> r is Ok && *final(vt) == *old(vt) && final(ops)@ == old(ops)@,
        vn_zero_size(*old(vt)) ==> *final(vt) == with_size(*old(vt), *size),
        vn_zero_size(*old(vt)) && !old(vt).spec_is_local_temp() ==> r is Ok && final(ops)@ == old(
            ops,
        )@,
        vn_zero_size(*old(vt)) && old(vt).spec_is_local_temp() ==> {
            &&& (r is Ok <==> !any_clash(ops_view(old(ops)@), old(vt).offset, *size))
            &&& (r is Ok ==> ops_view(final(ops)@) == all_resized(
                ops_view(old(ops)@),
                old(vt).offset,
                *size,
            ))
        },
        r is Err ==> r == Err::<(), CompileError>(CompileError::LocaltempSizeMismatch),
{
    if !vt.is_zero_size() {
        proof {
            assert(ops_same_shape(ops_view(ops@), ops_view(ops@)));
        }
        return Ok(());
    }
    vt.set_size(*size);
    if !vt.is_local_temp() {
        proof {
            assert(ops_same_shape(ops_view(ops@), ops_view(ops@)));
        }
        return Ok(());
    }
    let offset = vt.offset;
    force_size_propagate(&offset, size, ops)
}

/// The first known size among `vs`, if any.
proof fn lemma_first_sized_skip(vs: Seq<VarnodeTpl>, i: int)
    requires
        0 <= i < vs.len(),
        vn_zero_size(vs[i]),
    ensures
        first_sized(vs.subrange(i, vs.len() as int)) == first_sized(vs.subrange(i + 1, vs.len() as int)),
{
    let s = vs.subrange(i, vs.len() as int);
    assert(s.drop_first() =~= vs.subrange(i + 1, vs.len() as int));
}

/// Where a zero-size slot of `op` takes its size from (see
/// [`match_source`]).
fn match_source_exec(op: &OpTpl, inputonly: bool) -> (r: Option<ConstTpl>)
    ensures
        r == match_source(op@, inputonly),
        r matches Some(sz) ==> known_size(sz),
{
    if !inputonly {
        if let Some(out) = op.output {
            if !out.is_zero_size() {
                return Some(out.size);
            }
        }
    }
    let mut i: usize = 0;
    assert(op.input@.subrange(0, op.input@.len() as int) =~= op.input@);
    while i < op.input.len()
        invariant
            i <= op.input@.len(),
            match_source(op@, inputonly) == first_sized(op.input@),
            first_sized(op.input@) == first_sized(op.input@.subrange(i as int, op.input@.len() as int)),
        decreases op.input@.len() - i,
    {
        if !op.input[i].is_zero_size() {
            proof {
                let s = op.input@.subrange(i as int, op.input@.len() as int);
                assert(s[0] == op.input@[i as int]);
            }
            return Some(op.input[i].size);
        }
        proof {
            lemma_first_sized_skip(op.input@, i as int);
        }
        i += 1;
    }
    proof {
        assert(op.input@.subrange(i as int, op.input@.len() as int) =~= Seq::<VarnodeTpl>::empty());
    }
    None
}

/// Fill `slot` of op `k` from the other varnodes of the op (see
/// [`matched`]).
fn match_size_slot(slot: Slot, k: usize, inputonly: bool, ops: &mut Vec<OpTpl>) -> (r: Result<
    (),
    CompileError,
>)
    requires
        k < old(ops)@.len(),
        slot_valid(old(ops)@[k as int]@, slot_index(slot)),
    ensures
        ops_same_shape(ops_view(old(ops)@), ops_view(final(ops)@)),
        (r is Ok) == matched(ops_view(old(ops)@), k as int, slot_index(slot), inputonly).0,
        r is Ok ==> ops_view(final(ops)@) == matched(
            ops_view(old(ops)@),
            k as int,
            slot_index(slot),
            inputonly,
        ).1,
        r is Err ==> r == Err::<(), CompileError>(CompileError::LocaltempSizeMismatch),
        r is Ok ==> ops_evolve(ops_view(old(ops)@), ops_view(final(ops)@)),
{
    let src = match_source_exec(&ops[k], inputonly);
    assert(ops_view(ops@)[k as int] == ops@[k as int]@);
    match src {
        Some(size) => force_size_at(ops, k, slot, &size),
        None => {
            proof {
                assert(ops_same_shape(ops_view(ops@), ops_view(ops@)));
                lemma_evolve_refl(ops_view(ops@));
            }
            Ok(())
        },
    }
}

/// Fill slot `j` (-1 for the output) of op `op_index` from the other
/// varnodes of the op: the output (unless `inputonly`) or else the first
/// input that has a size lends its size; nothing happens when none has one.
pub fn match_size(j: i32, op_index: usize, inputonly: bool, ops: &mut Vec<OpTpl>) -> (r: Result<
    (),
    CompileError,
>)
    requires
        op_index < old(ops)@.len(),
        j >= -1,
        slot_valid(old(ops)@[op_index as int]@, j as int),
    ensures
        ops_same_shape(ops_view(old(ops)@), ops_view(final(ops)@)),
        (r is Ok) == matched(ops_view(old(ops)@), op_index as int, j as int, inputonly).0,
        r is Ok ==> ops_view(final(ops)@) == matched(
            ops_view(old(ops)@),
            op_index as int,
            j as int,
            inputonly,
        ).1,
        r is Err ==> r == Err::<(), CompileError>(CompileError::LocaltempSizeMismatch),
        r is Ok ==> ops_evolve(ops_view(old(ops)@), ops_view(final(ops)@)),
{
    let slot = if j == -1 {
        Slot::Out
    } else {
        Slot::In(j as usize)
    };
    match_size_slot(slot, op_index, inputonly, ops)
}


/// Ops whose inputs and output all have the same size.
pub open spec fn same_size_class(opc: OpCode) -> bool {
    opc == OpCode::CPUI_COPY
        || opc == OpCode::CPUI_INT_ADD
        || opc == OpCode::CPUI_INT_SUB
        || opc == OpCode::CPUI_INT_2COMP
        || opc == OpCode::CPUI_INT_NEGATE
        || opc == OpCode::CPUI_INT_XOR
        || opc == OpCode::CPUI_INT_AND
        || opc == OpCode::CPUI_INT_OR
        || opc == OpCode::CPUI_INT_MULT
        || opc == OpCode::CPUI_INT_DIV
        || opc == OpCode::CPUI_INT_SDIV
        || opc == OpCode::CPUI_INT_REM
        || opc == OpCode::CPUI_INT_SREM
        || opc == OpCode::CPUI_FLOAT_ADD
        || opc == OpCode::CPUI_FLOAT_DIV
        || opc == OpCode::CPUI_FLOAT_MULT
        || opc == OpCode::CPUI_FLOAT_SUB
        || opc == OpCode::CPUI_FLOAT_NEG
        || opc == OpCode::CPUI_FLOAT_ABS
        || opc == OpCode::CPUI_FLOAT_SQRT
        || opc == OpCode::CPUI_FLOAT_CEIL
        || opc == OpCode::CPUI_FLOAT_FLOOR
        || opc == OpCode::CPUI_FLOAT_ROUND
}

/// Ops with a boolean (one byte) output.
pub open spec fn bool_out_class(opc: OpCode) -> bool {
    opc == OpCode::CPUI_INT_EQUAL
        || opc == OpCode::CPUI_INT_NOTEQUAL
        || opc == OpCode::CPUI_INT_SLESS
        || opc == OpCode::CPUI_INT_SLESSEQUAL
        || opc == OpCode::CPUI_INT_LESS
        || opc == OpCode::CPUI_INT_LESSEQUAL
        || opc == OpCode::CPUI_INT_CARRY
        || opc == OpCode::CPUI_INT_SCARRY
        || opc == OpCode::CPUI_INT_SBORROW
        || opc == OpCode::CPUI_FLOAT_EQUAL
        || opc == OpCode::CPUI_FLOAT_NOTEQUAL
        || opc == OpCode::CPUI_FLOAT_LESS
        || opc == OpCode::CPUI_FLOAT_LESSEQUAL
        || opc == OpCode::CPUI_FLOAT_NAN
        || opc == OpCode::CPUI_BOOL_NEGATE
        || opc == OpCode::CPUI_BOOL_XOR
        || opc == OpCode::CPUI_BOOL_AND
        || opc == OpCode::CPUI_BOOL_OR
}

/// The shifts and `SUBPIECE`: the second input is an amount.
pub open spec fn shift_class(opc: OpCode) -> bool {
    opc == OpCode::CPUI_INT_LEFT
        || opc == OpCode::CPUI_INT_RIGHT
        || opc == OpCode::CPUI_INT_SRIGHT
        || opc == OpCode::CPUI_SUBPIECE
}

fn same_size_class_exec(opc: OpCode) -> (r: bool)
    ensures
        r == same_size_class(opc),
{
    match opc {
        OpCode::CPUI_COPY
        | OpCode::CPUI_INT_ADD
        | OpCode::CPUI_INT_SUB
        | OpCode::CPUI_INT_2COMP
        | OpCode::CPUI_INT_NEGATE
        | OpCode::CPUI_INT_XOR
        | OpCode::CPUI_INT_AND
        | OpCode::CPUI_INT_OR
        | OpCode::CPUI_INT_MULT
        | OpCode::CPUI_INT_DIV
        | OpCode::CPUI_INT_SDIV
        | OpCode::CPUI_INT_REM
        | OpCode::CPUI_INT_SREM
        | OpCode::CPUI_FLOAT_ADD
        | OpCode::CPUI_FLOAT_DIV
        | OpCode::CPUI_FLOAT_MULT
        | OpCode::CPUI_FLOAT_SUB
        | OpCode::CPUI_FLOAT_NEG
        | OpCode::CPUI_FLOAT_ABS
        | OpCode::CPUI_FLOAT_SQRT
        | OpCode::CPUI_FLOAT_CEIL
        | OpCode::CPUI_FLOAT_FLOOR
        | OpCode::CPUI_FLOAT_ROUND => true,
        _ => false,
    }
}

fn bool_out_class_exec(opc: OpCode) -> (r: bool)
    ensures
        r == bool_out_class(opc),
{
    match opc {
        OpCode::CPUI_INT_EQUAL
        | OpCode::CPUI_INT_NOTEQUAL
        | OpCode::CPUI_INT_SLESS
        | OpCode::CPUI_INT_SLESSEQUAL
        | OpCode::CPUI_INT_LESS
        | OpCode::CPUI_INT_LESSEQUAL
        | OpCode::CPUI_INT_CARRY
        | OpCode::CPUI_INT_SCARRY
        | OpCode::CPUI_INT_SBORROW
        | OpCode::CPUI_FLOAT_EQUAL
        | OpCode::CPUI_FLOAT_NOTEQUAL
        | OpCode::CPUI_FLOAT_LESS
        | OpCode::CPUI_FLOAT_LESSEQUAL
        | OpCode::CPUI_FLOAT_NAN
        | OpCode::CPUI_BOOL_NEGATE
        | OpCode::CPUI_BOOL_XOR
        | OpCode::CPUI_BOOL_AND
        | OpCode::CPUI_BOOL_OR => true,
        _ => false,
    }
}

fn shift_class_exec(opc: OpCode) -> (r: bool)
    ensures
        r == shift_class(opc),
{
    match opc {
        OpCode::CPUI_INT_LEFT
        | OpCode::CPUI_INT_RIGHT
        | OpCode::CPUI_INT_SRIGHT
        | OpCode::CPUI_SUBPIECE => true,
        _ => false,
    }
}

/// Does `op` have the varnodes that size filling reads for its kind: an
/// output for the boolean, shift (but `SUBPIECE`) and `CPOOLREF` ops, two
/// inputs for the shifts and `SUBPIECE`, one for `CPOOLREF`?
pub open spec fn fillin_ok(op: OpView) -> bool {
    &&& (bool_out_class(op.1) ==> op.0 is Some)
    &&& (shift_class(op.1) ==> op.2.len() >= 2 && (op.1 != OpCode::CPUI_SUBPIECE ==> op.0 is Some))
    &&& (op.1 == OpCode::CPUI_CPOOLREF ==> op.0 is Some && op.2.len() >= 1)
}

/// Is every op of the list ready for size filling?
pub open spec fn all_fillin_ok(ops: Seq<OpTpl>) -> bool {
    forall|i: int| 0 <= i < ops.len() ==> fillin_ok(#[trigger] ops[i]@)
}

/// Filling, in order, each zero-size input `i..n` of op `k` from the other
/// varnodes of the op; stops at the first failure.
pub open spec fn fill_inputs(st: (bool, Seq<OpView>), k: int, i: int, n: int, inputonly: bool) -> (
    bool,
    Seq<OpView>,
)
    decreases n - i,
{
    if !st.0 || i >= n {
        st
    } else {
        let nxt = if vn_zero_size(st.1[k].2[i]) {
            matched(st.1, k, i, inputonly)
        } else {
            (true, st.1)
        };
        fill_inputs(nxt, k, i + 1, n, inputonly)
    }
}

/// Giving, in order, each zero-size input `i..n` of op `k` an eight-byte
/// size; stops at the first failure.
pub open spec fn fill_inputs_8(st: (bool, Seq<OpView>), k: int, i: int, n: int) -> (
    bool,
    Seq<OpView>,
)
    decreases n - i,
{
    if !st.0 || i >= n {
        st
    } else {
        let nxt = if vn_zero_size(st.1[k].2[i]) {
            forced_at(st.1, k, i, ConstTpl::spec_real_const(ConstType::Real, 8))
        } else {
            (true, st.1)
        };
        fill_inputs_8(nxt, k, i + 1, n)
    }
}

/// Filling in the zero-size varnodes of op `k`, by the kind of op:
/// - same-size ops: the output, then each input, from the op's other
///   varnodes;
/// - boolean ops: the output gets one byte, each input is filled from the
///   other inputs;
/// - shifts: output and first input lend each other their size, then the
///   amount gets four bytes (for `SUBPIECE` only the amount);
/// - `CPOOLREF`: output and first input lend each other their size, the
///   other inputs get eight bytes;
/// - other ops are left alone.
/// The result says whether it succeeded and, when it did, the new ops.
pub open spec fn filled(ops: Seq<OpView>, k: int) -> (bool, Seq<OpView>) {
    let op = ops[k];
    if same_size_class(op.1) {
        filled_same(ops, k)
    } else if bool_out_class(op.1) {
        filled_bool(ops, k)
    } else if shift_class(op.1) {
        filled_shift(ops, k)
    } else if op.1 == OpCode::CPUI_CPOOLREF {
        filled_cpool(ops, k)
    } else {
        (true, ops)
    }
}

/// Filling a same-size op: the output, then each input, from the op's
/// other varnodes.
pub open spec fn filled_same(ops: Seq<OpView>, k: int) -> (bool, Seq<OpView>) {
    let op = ops[k];
    let s1 = if op.0 is Some && vn_zero_size(op.0->0) {
        matched(ops, k, -1, false)
    } else {
        (true, ops)
    };
    fill_inputs(s1, k, 0, op.2.len() as int, false)
}

/// Filling a boolean op: the output gets one byte, each input is filled
/// from the other inputs.
pub open spec fn filled_bool(ops: Seq<OpView>, k: int) -> (bool, Seq<OpView>) {
    let op = ops[k];
    let s1 = if vn_zero_size(op.0->0) {
        forced_at(ops, k, -1, ConstTpl::spec_real_const(ConstType::Real, 1))
    } else {
        (true, ops)
    };
    fill_inputs(s1, k, 0, op.2.len() as int, true)
}

/// Filling a shift: output and first input lend each other their size
/// (not for `SUBPIECE`), then the amount gets four bytes.
pub open spec fn filled_shift(ops: Seq<OpView>, k: int) -> (bool, Seq<OpView>) {
    let op = ops[k];
    let s1 = if op.1 != OpCode::CPUI_SUBPIECE {
        if vn_zero_size(op.0->0) {
            if !vn_zero_size(op.2[0]) {
                forced_at(ops, k, -1, op.2[0].size)
            } else {
                (true, ops)
            }
        } else if vn_zero_size(op.2[0]) {
            forced_at(ops, k, 0, op.0->0.size)
        } else {
            (true, ops)
        }
    } else {
        (true, ops)
    };
    if !s1.0 {
        s1
    } else if vn_zero_size(s1.1[k].2[1]) {
        forced_at(s1.1, k, 1, ConstTpl::spec_real_const(ConstType::Real, 4))
    } else {
        s1
    }
}

/// Filling a `CPOOLREF`: output and first input lend each other their
/// size, the other inputs get eight bytes.
pub open spec fn filled_cpool(ops: Seq<OpView>, k: int) -> (bool, Seq<OpView>) {
    let op = ops[k];
    let s1 = if vn_zero_size(op.0->0) && !vn_zero_size(op.2[0]) {
        forced_at(ops, k, -1, op.2[0].size)
    } else {
        (true, ops)
    };
    let s2 = if !s1.0 {
        s1
    } else {
        let o2 = s1.1[k];
        if vn_zero_size(o2.2[0]) && !vn_zero_size(o2.0->0) {
            forced_at(s1.1, k, 0, o2.0->0.size)
        } else {
            s1
        }
    };
    fill_inputs_8(s2, k, 1, op.2.len() as int)
}

/// Every list agrees in shape with itself.
proof fn lemma_shape_refl(a: Seq<OpView>)
    ensures
        ops_same_shape(a, a),
{
}

/// Agreeing in shape is transitive.
proof fn lemma_shape_trans(a: Seq<OpView>, b: Seq<OpView>, c: Seq<OpView>)
    requires
        ops_same_shape(a, b),
        ops_same_shape(b, c),
    ensures
        ops_same_shape(a, c),
{
    assert forall|i: int| 0 <= i < a.len() implies same_shape(#[trigger] a[i], c[i]) by {
        assert(same_shape(a[i], b[i]));
        assert(same_shape(b[i], c[i]));
    }
}


/// Fill, in order, each zero-size input of op `k` from the other varnodes
/// of the op (see [`fill_inputs`]).
fn fill_inputs_exec(k: usize, inputonly: bool, ops: &mut Vec<OpTpl>) -> (r: Result<(), CompileError>)
    requires
        k < old(ops)@.len(),
    ensures
        ops_same_shape(ops_view(old(ops)@), ops_view(final(ops)@)),
        (r is Ok) == fill_inputs(
            (true, ops_view(old(ops)@)),
            k as int,
            0,
            old(ops)@[k as int].input@.len() as int,
            inputonly,
        ).0,
        r is Ok ==> ops_view(final(ops)@) == fill_inputs(
            (true, ops_view(old(ops)@)),
            k as int,
            0,
            old(ops)@[k as int].input@.len() as int,
            inputonly,
        ).1,
        r is Err ==> r == Err::<(), CompileError>(CompileError::LocaltempSizeMismatch),
        r is Ok ==> ops_evolve(ops_view(old(ops)@), ops_view(final(ops)@)),
{
    let ghost orig = ops_view(ops@);
    let n = ops[k].input.len();
    let mut i: usize = 0;
    proof {
        lemma_evolve_refl(orig);
    }
    while i < n
        invariant
            orig == ops_view(old(ops)@),
            n == old(ops)@[k as int].input@.len(),
            k < ops@.len(),
            ops@[k as int].input@.len() == n,
            i <= n,
            ops_same_shape(orig, ops_view(ops@)),
            ops_evolve(orig, ops_view(ops@)),
            fill_inputs((true, orig), k as int, 0, n as int, inputonly) == fill_inputs(
                (true, ops_view(ops@)),
                k as int,
                i as int,
                n as int,
                inputonly,
            ),
        decreases n - i,
    {
        let ghost cur = ops_view(ops@);
        assert(cur[k as int] == ops@[k as int]@);
        if ops[k].input[i].is_zero_size() {
            let res = match_size_slot(Slot::In(i), k, inputonly, ops);
            proof {
                lemma_shape_trans(orig, cur, ops_view(ops@));
                assert(ops_view(ops@)[k as int] == ops@[k as int]@);
            }
            match res {
                Err(e) => {
                    proof {
                        reveal_with_fuel(fill_inputs, 2);
                    }
                    return Err(e);
                },
                Ok(()) => {
                    proof {
                        lemma_evolve_trans(orig, cur, ops_view(ops@));
                    }
                },
            }
        }
        i += 1;
    }
    Ok(())
}

/// Give, in order, each zero-size input of op `k` from the second on an
/// eight-byte size (see [`fill_inputs_8`]).
fn fill_inputs_8_exec(k: usize, ops: &mut Vec<OpTpl>) -> (r: Result<(), CompileError>)
    requires
        k < old(ops)@.len(),
    ensures
        ops_same_shape(ops_view(old(ops)@), ops_view(final(ops)@)),
        (r is Ok) == fill_inputs_8(
            (true, ops_view(old(ops)@)),
            k as int,
            1,
            old(ops)@[k as int].input@.len() as int,
        ).0,
        r is Ok ==> ops_view(final(ops)@) == fill_inputs_8(
            (true, ops_view(old(ops)@)),
            k as int,
            1,
            old(ops)@[k as int].input@.len() as int,
        ).1,
        r is Err ==> r == Err::<(), CompileError>(CompileError::LocaltempSizeMismatch),
        r is Ok ==> ops_evolve(ops_view(old(ops)@), ops_view(final(ops)@)),
{
    let ghost orig = ops_view(ops@);
    let n = ops[k].input.len();
    let eight = ConstTpl::new_real(ConstType::Real, 8);
    proof {
        lemma_evolve_refl(orig);
    }
    if n == 0 {
        return Ok(());
    }
    let mut i: usize = 1;
    while i < n
        invariant
            orig == ops_view(old(ops)@),
            n == old(ops)@[k as int].input@.len(),
            eight == ConstTpl::spec_real_const(ConstType::Real, 8),
            k < ops@.len(),
            ops@[k as int].input@.len() == n,
            1 <= i <= n,
            ops_same_shape(orig, ops_view(ops@)),
            ops_evolve(orig, ops_view(ops@)),
            fill_inputs_8((true, orig), k as int, 1, n as int) == fill_inputs_8(
                (true, ops_view(ops@)),
                k as int,
                i as int,
                n as int,
            ),
        decreases n - i,
    {
        let ghost cur = ops_view(ops@);
        assert(cur[k as int] == ops@[k as int]@);
        if ops[k].input[i].is_zero_size() {
            let res = force_size_at(ops, k, Slot::In(i), &eight);
            proof {
                lemma_shape_trans(orig, cur, ops_view(ops@));
                assert(ops_view(ops@)[k as int] == ops@[k as int]@);
            }
            match res {
                Err(e) => {
                    proof {
                        reveal_with_fuel(fill_inputs_8, 2);
                    }
                    return Err(e);
                },
                Ok(()) => {
                    proof {
                        lemma_evolve_trans(orig, cur, ops_view(ops@));
                    }
                },
            }
        }
        i += 1;
    }
    Ok(())
}


/// What a size-filling step promises: the shape is kept, it succeeds
/// exactly when the specification does and then yields its ops, which
/// evolve from the old ones.
pub open spec fn fill_step(old_ops: Seq<OpTpl>, new_ops: Seq<OpTpl>, r: Result<(), CompileError>, spec: (bool, Seq<OpView>)) -> bool {
    &&& ops_same_shape(ops_view(old_ops), ops_view(new_ops))
    &&& (r is Ok) == spec.0
    &&& (r is Ok ==> ops_view(new_ops) == spec.1)
    &&& (r is Ok ==> ops_evolve(ops_view(old_ops), ops_view(new_ops)))
    &&& (r is Err ==> r == Err::<(), CompileError>(CompileError::LocaltempSizeMismatch))
}

/// Fill a same-size op (see [`filled_same`]).
fn fillin_same(k: usize, ops: &mut Vec<OpTpl>) -> (r: Result<(), CompileError>)
    requires
        k < old(ops)@.len(),
    ensures
        fill_step(old(ops)@, final(ops)@, r, filled_same(ops_view(old(ops)@), k as int)),
{
    let ghost orig = ops_view(ops@);
    assert(orig[k as int] == ops@[k as int]@);
    let out_zero = match ops[k].output {
        Some(o) => o.is_zero_size(),
        None => false,
    };
    if out_zero {
        let res = match_size_slot(Slot::Out, k, false, ops);
        if res.is_err() {
            return res;
        }
    } else {
        proof {
            lemma_shape_refl(orig);
            lemma_evolve_refl(orig);
        }
    }
    let ghost mid = ops_view(ops@);
    assert(ops_view(ops@)[k as int] == ops@[k as int]@);
    let res = fill_inputs_exec(k, false, ops);
    proof {
        lemma_shape_trans(orig, mid, ops_view(ops@));
        if res is Ok {
            lemma_evolve_trans(orig, mid, ops_view(ops@));
        }
    }
    res
}

/// Fill a boolean op (see [`filled_bool`]).
fn fillin_bool(k: usize, ops: &mut Vec<OpTpl>) -> (r: Result<(), CompileError>)
    requires
        k < old(ops)@.len(),
        old(ops)@[k as int].output is Some,
    ensures
        fill_step(old(ops)@, final(ops)@, r, filled_bool(ops_view(old(ops)@), k as int)),
{
    let ghost orig = ops_view(ops@);
    assert(orig[k as int] == ops@[k as int]@);
    let out = ops[k].output.unwrap();
    if out.is_zero_size() {
        let one = ConstTpl::new_real(ConstType::Real, 1);
        let res = force_size_at(ops, k, Slot::Out, &one);
        if res.is_err() {
            return res;
        }
    } else {
        proof {
            lemma_shape_refl(orig);
            lemma_evolve_refl(orig);
        }
    }
    let ghost mid = ops_view(ops@);
    assert(ops_view(ops@)[k as int] == ops@[k as int]@);
    let res = fill_inputs_exec(k, true, ops);
    proof {
        lemma_shape_trans(orig, mid, ops_view(ops@));
        if res is Ok {
            lemma_evolve_trans(orig, mid, ops_view(ops@));
        }
    }
    res
}

/// Fill a shift or `SUBPIECE` (see [`filled_shift`]).
fn fillin_shift(k: usize, ops: &mut Vec<OpTpl>) -> (r: Result<(), CompileError>)
    requires
        k < old(ops)@.len(),
        old(ops)@[k as int].input@.len() >= 2,
        old(ops)@[k as int].opc != OpCode::CPUI_SUBPIECE ==> old(ops)@[k as int].output is Some,
    ensures
        fill_step(old(ops)@, final(ops)@, r, filled_shift(ops_view(old(ops)@), k as int)),
{
    let ghost orig = ops_view(ops@);
    assert(orig[k as int] == ops@[k as int]@);
    let opc = ops[k].opc;
    if opc != OpCode::CPUI_SUBPIECE {
        let out = ops[k].output.unwrap();
        let in0 = ops[k].input[0];
        if out.is_zero_size() {
            if !in0.is_zero_size() {
                let size = in0.size;
                let res = force_size_at(ops, k, Slot::Out, &size);
                if res.is_err() {
                    return res;
                }
            } else {
                proof {
                    lemma_shape_refl(orig);
                    lemma_evolve_refl(orig);
                }
            }
        } else if in0.is_zero_size() {
            let size = out.size;
            let res = force_size_at(ops, k, Slot::In(0), &size);
            if res.is_err() {
                return res;
            }
        } else {
            proof {
                lemma_shape_refl(orig);
                lemma_evolve_refl(orig);
            }
        }
    } else {
        proof {
            lemma_shape_refl(orig);
            lemma_evolve_refl(orig);
        }
    }
    let ghost mid = ops_view(ops@);
    assert(mid[k as int] == ops@[k as int]@);
    if ops[k].input[1].is_zero_size() {
        let four = ConstTpl::new_real(ConstType::Real, 4);
        let res = force_size_at(ops, k, Slot::In(1), &four);
        proof {
            lemma_shape_trans(orig, mid, ops_view(ops@));
            if res is Ok {
                lemma_evolve_trans(orig, mid, ops_view(ops@));
            }
        }
        res
    } else {
        Ok(())
    }
}

/// Fill a `CPOOLREF` (see [`filled_cpool`]).
fn fillin_cpool(k: usize, ops: &mut Vec<OpTpl>) -> (r: Result<(), CompileError>)
    requires
        k < old(ops)@.len(),
        old(ops)@[k as int].input@.len() >= 1,
        old(ops)@[k as int].output is Some,
    ensures
        fill_step(old(ops)@, final(ops)@, r, filled_cpool(ops_view(old(ops)@), k as int)),
{
    let ghost orig = ops_view(ops@);
    assert(orig[k as int] == ops@[k as int]@);
    let out = ops[k].output.unwrap();
    let in0 = ops[k].input[0];
    if out.is_zero_size() && !in0.is_zero_size() {
        let size = in0.size;
        let res = force_size_at(ops, k, Slot::Out, &size);
        if res.is_err() {
            return res;
        }
    } else {
        proof {
            lemma_shape_refl(orig);
            lemma_evolve_refl(orig);
        }
    }
    let ghost mid = ops_view(ops@);
    assert(mid[k as int] == ops@[k as int]@);
    let out2 = ops[k].output.unwrap();
    let in02 = ops[k].input[0];
    if in02.is_zero_size() && !out2.is_zero_size() {
        let size = out2.size;
        let res = force_size_at(ops, k, Slot::In(0), &size);
        if res.is_err() {
            proof {
                lemma_shape_trans(orig, mid, ops_view(ops@));
            }
            return res;
        }
        proof {
            lemma_evolve_trans(orig, mid, ops_view(ops@));
        }
    } else {
        proof {
            lemma_shape_refl(mid);
        }
    }
    proof {
        lemma_shape_trans(orig, mid, ops_view(ops@));
    }
    let ghost mid2 = ops_view(ops@);
    assert(mid2[k as int] == ops@[k as int]@);
    let res = fill_inputs_8_exec(k, ops);
    proof {
        lemma_shape_trans(orig, mid2, ops_view(ops@));
        if res is Ok {
            lemma_evolve_trans(orig, mid2, ops_view(ops@));
        }
    }
    res
}

/// Fill in the zero-size varnodes of op `op_index` from what the op's kind
/// says of their sizes (see [`filled`]).  This assumes the operands of a
/// constructor are built before any other p-code of it.
pub fn fillin_zero(op_index: usize, ops: &mut Vec<OpTpl>) -> (r: Result<(), CompileError>)
    requires
        op_index < old(ops)@.len(),
        fillin_ok(old(ops)@[op_index as int]@),
    ensures
        ops_same_shape(ops_view(old(ops)@), ops_view(final(ops)@)),
        (r is Ok) == filled(ops_view(old(ops)@), op_index as int).0,
        r is Ok ==> ops_view(final(ops)@) == filled(ops_view(old(ops)@), op_index as int).1,
        r is Ok ==> ops_evolve(ops_view(old(ops)@), ops_view(final(ops)@)),
        r is Err ==> r == Err::<(), CompileError>(CompileError::LocaltempSizeMismatch),
{
    let k = op_index;
    let ghost orig = ops_view(ops@);
    assert(orig[k as int] == ops@[k as int]@);
    let opc = ops[k].opc;
    if same_size_class_exec(opc) {
        fillin_same(k, ops)
    } else if bool_out_class_exec(opc) {
        fillin_bool(k, ops)
    } else if shift_class_exec(opc) {
        fillin_shift(k, ops)
    } else if opc == OpCode::CPUI_CPOOLREF {
        fillin_cpool(k, ops)
    } else {
        proof {
            lemma_shape_refl(orig);
            lemma_evolve_refl(orig);
        }
        Ok(())
    }
}


/// Does every varnode of the op have a known size?
pub open spec fn op_sized(op: OpTpl) -> bool {
    !op.spec_is_zero_size()
}

/// Ops of the same shape are equally ready for size filling.
proof fn lemma_shape_fillin_ok(a: Seq<OpView>, b: Seq<OpView>, i: int)
    requires
        ops_same_shape(a, b),
        0 <= i < a.len(),
        fillin_ok(a[i]),
    ensures
        fillin_ok(b[i]),
{
    assert(same_shape(a[i], b[i]));
}

/// A list of the same shape as one ready for size filling is ready too.
proof fn lemma_shape_all_fillin_ok(a: Seq<OpTpl>, b: Seq<OpTpl>)
    requires
        ops_same_shape(ops_view(a), ops_view(b)),
        all_fillin_ok(a),
    ensures
        all_fillin_ok(b),
{
    assert forall|j: int| 0 <= j < b.len() implies fillin_ok(#[trigger] b[j]@) by {
        assert(fillin_ok(a[j]@));
        assert(ops_view(a)[j] == a[j]@);
        lemma_shape_fillin_ok(ops_view(a), ops_view(b), j);
        assert(ops_view(b)[j] == b[j]@);
    }
}

/// An op whose varnodes all have sizes keeps them as the ops evolve.
proof fn lemma_sized_stays(a: Seq<OpTpl>, b: Seq<OpTpl>, j: int)
    requires
        ops_evolve(ops_view(a), ops_view(b)),
        0 <= j < a.len(),
        op_sized(a[j]),
    ensures
        op_sized(b[j]),
{
    assert(ops_view(a)[j] == a[j]@);
    assert(ops_view(b)[j] == b[j]@);
    assert(op_evolves(ops_view(a)[j], ops_view(b)[j]));
    assert forall|t: int| 0 <= t < a[j].input@.len() implies !vn_zero_size(#[trigger] a[j].input@[t]) by {
    }
    lemma_nonzero_stays(a[j]@, b[j]@);
    assert forall|t: int| 0 <= t < b[j].input@.len() implies !vn_zero_size(#[trigger] b[j].input@[t]) by {
        assert(b[j]@.2[t] == b[j].input@[t]);
    }
}

/// Does the op have a varnode of unknown size?
pub open spec fn view_zero(op: OpView) -> bool {
    ||| (op.0 matches Some(o) && vn_zero_size(o))
    ||| exists|i: int| 0 <= i < op.2.len() && vn_zero_size(#[trigger] op.2[i])
}

/// The first pass of size propagation over the ops from `i` on (of `n`):
/// each op with a varnode of unknown size is filled (see [`filled`]) and
/// kept in the list `zv` if it still has one.  Nothing when a fill fails.
pub open spec fn first_pass(v: Seq<OpView>, i: int, n: int, zv: Seq<usize>) -> Option<(Seq<OpView>, Seq<usize>)>
    decreases n - i,
{
    if i >= n || i < 0 {
        Some((v, zv))
    } else if !view_zero(v[i]) {
        first_pass(v, i + 1, n, zv)
    } else {
        let f = filled(v, i);
        if !f.0 {
            None
        } else {
            first_pass(f.1, i + 1, n, if view_zero(f.1[i]) { zv.push(i as usize) } else { zv })
        }
    }
}

/// A later pass over the ops listed in `zv` from position `t` on: each is
/// filled again and kept in `zv2` if it still has a varnode of unknown
/// size.  Nothing when a fill fails.
pub open spec fn repass(v: Seq<OpView>, zv: Seq<usize>, t: int, zv2: Seq<usize>) -> Option<(Seq<OpView>, Seq<usize>)>
    decreases zv.len() - t,
{
    if t >= zv.len() || t < 0 {
        Some((v, zv2))
    } else {
        let k = zv[t] as int;
        let f = filled(v, k);
        if !f.0 {
            None
        } else {
            repass(f.1, zv, t + 1, if view_zero(f.1[k]) { zv2.push(k as usize) } else { zv2 })
        }
    }
}

/// Later passes until one leaves as many ops with unknown sizes as before:
/// the ops then, and whether none was left before that pass.
pub open spec fn passes(v: Seq<OpView>, zv: Seq<usize>) -> Option<(Seq<OpView>, bool)>
    decreases zv.len(),
{
    match repass(v, zv, 0, Seq::empty()) {
        None => None,
        Some((v2, zv2)) => if zv2.len() >= zv.len() {
            Some((v2, zv.len() == 0))
        } else {
            passes(v2, zv2)
        },
    }
}

/// Size propagation over the ops `v`: a first pass over all of them, then
/// passes over those left with unknown sizes while the number left drops.
/// The ops after, and whether none was left; nothing when a temporary
/// would get two different sizes.
pub open spec fn spec_propagate(v: Seq<OpView>) -> Option<(Seq<OpView>, bool)> {
    match first_pass(v, 0, v.len() as int, Seq::empty()) {
        None => None,
        Some((v1, zv)) => passes(v1, zv),
    }
}

/// Fill in the sizes of the zero-size varnodes of a template, op by op,
/// repeating over the ops that still have one until a pass makes no
/// progress.  Returns whether every varnode got a size; fails when a
/// temporary would get two different sizes.
pub fn propagate_size(ct: &mut ConstructTpl) -> (r: Result<bool, CompileError>)
    requires
        all_fillin_ok(old(ct).vec@),
    ensures
        ops_same_shape(ops_view(old(ct).vec@), ops_view(final(ct).vec@)),
        all_fillin_ok(final(ct).vec@),
        r is Ok ==> ops_evolve(ops_view(old(ct).vec@), ops_view(final(ct).vec@)),
        r == Ok::<bool, CompileError>(true) ==> forall|i: int| 0 <= i < final(ct).vec@.len() ==> op_sized(#[trigger] final(ct).vec@[i]),
        (forall|i: int| 0 <= i < old(ct).vec@.len() ==> op_sized(#[trigger] old(ct).vec@[i])) ==> r == Ok::<bool, CompileError>(true) && final(ct).vec@ == old(ct).vec@,
        r is Err ==> r == Err::<bool, CompileError>(CompileError::LocaltempSizeMismatch),
        final(ct).delayslot == old(ct).delayslot,
        final(ct).numlabels == old(ct).numlabels,
        final(ct).result == old(ct).result,
        match spec_propagate(ops_view(old(ct).vec@)) {
            None => r == Err::<bool, CompileError>(CompileError::LocaltempSizeMismatch),
            Some((v, done)) => r == Ok::<bool, CompileError>(done) && ops_view(final(ct).vec@) == v,
        },
{
    let ghost orig_ops = ct.vec@;
    let ghost orig = ops_view(ct.vec@);
    let ghost all_sized = forall|i: int| 0 <= i < orig_ops.len() ==> op_sized(#[trigger] orig_ops[i]);
    let n = ct.vec.len();
    let mut zerovec: Vec<usize> = Vec::new();
    let mut i: usize = 0;
    proof {
        lemma_shape_refl(orig);
        lemma_evolve_refl(orig);
    }
    while i < n
        invariant
            n == orig.len(),
            orig == ops_view(orig_ops),
            orig_ops == old(ct).vec@,
            all_fillin_ok(orig_ops),
            ct.delayslot == old(ct).delayslot,
            ct.numlabels == old(ct).numlabels,
            ct.result == old(ct).result,
            i <= n,
            zerovec@.len() <= i,
            ops_same_shape(orig, ops_view(ct.vec@)),
            ops_evolve(orig, ops_view(ct.vec@)),
            forall|t: int| 0 <= t < zerovec@.len() ==> #[trigger] zerovec@[t] < n,
            forall|j: int| 0 <= j < i && !zerovec@.contains(j as usize) ==> op_sized(#[trigger] ct.vec@[j]),
            all_sized ==> ct.vec@ == orig_ops && zerovec@.len() == 0,
            all_sized == forall|t: int| 0 <= t < orig_ops.len() ==> op_sized(#[trigger] orig_ops[t]),
            first_pass(orig, 0, n as int, Seq::empty()) == first_pass(ops_view(ct.vec@), i as int, n as int, zerovec@),
        decreases n - i,
    {
        proof {
            assert(ops_view(ct.vec@)[i as int] == ct.vec@[i as int]@);
        }
        if ct.vec[i].is_zero_size() {
            let ghost cur = ct.vec@;
            proof {
                lemma_shape_fillin_ok(orig, ops_view(ct.vec@), i as int);
                assert(ops_view(ct.vec@)[i as int] == ct.vec@[i as int]@);
                if all_sized {
                    assert(op_sized(orig_ops[i as int]));
                }
            }
            let res = fillin_zero(i, &mut ct.vec);
            proof {
                lemma_shape_trans(orig, ops_view(cur), ops_view(ct.vec@));
            }
            match res {
                Err(e) => {
                    proof {
                        lemma_shape_all_fillin_ok(orig_ops, ct.vec@);
                    }
                    return Err(e);
                },
                Ok(()) => {},
            }
            proof {
                lemma_evolve_trans(orig, ops_view(cur), ops_view(ct.vec@));
                assert forall|j: int| 0 <= j < i && !zerovec@.contains(j as usize) implies op_sized(#[trigger] ct.vec@[j]) by {
                    lemma_sized_stays(cur, ct.vec@, j);
                }
            }
            let ghost zv_old = zerovec@;
            proof {
                assert(ops_view(ct.vec@)[i as int] == ct.vec@[i as int]@);
            }
            if ct.vec[i].is_zero_size() {
                zerovec.push(i);
            }
            proof {
                assert forall|j: int| 0 <= j < i + 1 && !zerovec@.contains(j as usize) implies op_sized(#[trigger] ct.vec@[j]) by {
                    if j < i {
                        assert(!zv_old.contains(j as usize)) by {
                            if zv_old.contains(j as usize) {
                                let q = choose|q: int| 0 <= q < zv_old.len() && #[trigger] zv_old[q] == j as usize;
                                assert(zerovec@[q] == j as usize);
                            }
                        }
                    } else {
                        if !op_sized(ct.vec@[j]) {
                            assert(zerovec@[zerovec@.len() - 1] == i);
                        }
                    }
                }
            }
        }
        i += 1;
    }
    let mut lastsize: usize = zerovec.len();
    loop
        invariant_except_break
            spec_propagate(orig) == passes(ops_view(ct.vec@), zerovec@),
        invariant
            n == orig.len(),
            orig == ops_view(orig_ops),
            orig_ops == old(ct).vec@,
            all_fillin_ok(orig_ops),
            ct.delayslot == old(ct).delayslot,
            ct.numlabels == old(ct).numlabels,
            ct.result == old(ct).result,
            ops_same_shape(orig, ops_view(ct.vec@)),
            ops_evolve(orig, ops_view(ct.vec@)),
            forall|t: int| 0 <= t < zerovec@.len() ==> #[trigger] zerovec@[t] < n,
            forall|j: int| 0 <= j < n && !zerovec@.contains(j as usize) ==> op_sized(#[trigger] ct.vec@[j]),
            all_sized ==> ct.vec@ == orig_ops && zerovec@.len() == 0,
            all_sized == forall|t: int| 0 <= t < orig_ops.len() ==> op_sized(#[trigger] orig_ops[t]),
        ensures
            zerovec@.len() >= lastsize,
            zerovec@.len() <= lastsize,
            spec_propagate(orig) == Some::<(Seq<OpView>, bool)>((ops_view(ct.vec@), lastsize == 0)),
        decreases zerovec@.len(),
    {
        lastsize = zerovec.len();
        let mut zerovec2: Vec<usize> = Vec::new();
        let mut t: usize = 0;
        let ghost sv = ops_view(ct.vec@);
        let ghost zv0 = zerovec@;
        while t < zerovec.len()
            invariant
                n == orig.len(),
                orig == ops_view(orig_ops),
                orig_ops == old(ct).vec@,
                all_fillin_ok(orig_ops),
                ct.delayslot == old(ct).delayslot,
                ct.numlabels == old(ct).numlabels,
                ct.result == old(ct).result,
                lastsize == zerovec@.len(),
                t <= zerovec@.len(),
                zerovec2@.len() <= t,
                ops_same_shape(orig, ops_view(ct.vec@)),
                ops_evolve(orig, ops_view(ct.vec@)),
                forall|q: int| 0 <= q < zerovec@.len() ==> #[trigger] zerovec@[q] < n,
                forall|q: int| 0 <= q < zerovec2@.len() ==> #[trigger] zerovec2@[q] < n,
                forall|j: int|
                    0 <= j < n && (!zerovec@.contains(j as usize) || zerovec@.subrange(0, t as int).contains(j as usize))
                        && !zerovec2@.contains(j as usize) ==> op_sized(#[trigger] ct.vec@[j]),
                all_sized ==> ct.vec@ == orig_ops && zerovec@.len() == 0,
                all_sized == forall|q: int| 0 <= q < orig_ops.len() ==> op_sized(#[trigger] orig_ops[q]),
                zerovec@ == zv0,
                spec_propagate(orig) == passes(sv, zv0),
                repass(sv, zv0, 0, Seq::empty()) == repass(ops_view(ct.vec@), zv0, t as int, zerovec2@),
            decreases zerovec@.len() - t,
        {
            let idx = zerovec[t];
            let ghost cur = ct.vec@;
            proof {
                lemma_shape_fillin_ok(orig, ops_view(ct.vec@), idx as int);
                assert(ops_view(ct.vec@)[idx as int] == ct.vec@[idx as int]@);
            }
            let res = fillin_zero(idx, &mut ct.vec);
            proof {
                lemma_shape_trans(orig, ops_view(cur), ops_view(ct.vec@));
            }
            match res {
                Err(e) => {
                    proof {
                        lemma_shape_all_fillin_ok(orig_ops, ct.vec@);
                    }
                    return Err(e);
                },
                Ok(()) => {},
            }
            proof {
                lemma_evolve_trans(orig, ops_view(cur), ops_view(ct.vec@));
            }
            proof {
                assert(ops_view(ct.vec@)[idx as int] == ct.vec@[idx as int]@);
            }
            let still = ct.vec[idx].is_zero_size();
            let ghost zv2_old = zerovec2@;
            if still {
                zerovec2.push(idx);
            }
            proof {
                assert(zerovec@.subrange(0, t + 1) =~= zerovec@.subrange(0, t as int).push(idx));
                assert forall|j: int|
                    0 <= j < n && (!zerovec@.contains(j as usize) || zerovec@.subrange(0, t + 1).contains(j as usize))
                        && !zerovec2@.contains(j as usize) implies op_sized(#[trigger] ct.vec@[j]) by {
                    if j == idx as int {
                        assert(zerovec2@ == zv2_old.push(idx) || !still);
                        if still {
                            assert(zerovec2@[zerovec2@.len() - 1] == idx);
                        }
                    } else {
                        assert(zerovec@.subrange(0, t + 1).contains(j as usize) ==> zerovec@.subrange(0, t as int).contains(j as usize)) by {
                            if zerovec@.subrange(0, t + 1).contains(j as usize) {
                                let q = choose|q: int| 0 <= q < t + 1 && #[trigger] zerovec@.subrange(0, t + 1)[q] == j as usize;
                                assert(q < t);
                                assert(zerovec@.subrange(0, t as int)[q] == j as usize);
                            }
                        }
                        assert(!zv2_old.contains(j as usize)) by {
                            if zv2_old.contains(j as usize) {
                                let q = choose|q: int| 0 <= q < zv2_old.len() && #[trigger] zv2_old[q] == j as usize;
                                assert(zerovec2@[q] == j as usize);
                            }
                        }
                        lemma_sized_stays(cur, ct.vec@, j);
                    }
                }
            }
            t += 1;
        }
        proof {
            assert(zerovec@.subrange(0, zerovec@.len() as int) =~= zerovec@);
        }
        zerovec = zerovec2;
        if zerovec.len() >= lastsize {
            break;
        }
    }
    proof {
        if lastsize == 0 {
            assert forall|j: int| 0 <= j < ct.vec@.len() implies op_sized(#[trigger] ct.vec@[j]) by {
                assert(!zerovec@.contains(j as usize));
            }
        }
        assert(all_fillin_ok(ct.vec@)) by {
            assert forall|j: int| 0 <= j < ct.vec@.len() implies fillin_ok(#[trigger] ct.vec@[j]@) by {
                assert(fillin_ok(orig_ops[j]@));
                assert(orig[j] == orig_ops[j]@);
                lemma_shape_fillin_ok(orig, ops_view(ct.vec@), j);
                assert(ops_view(ct.vec@)[j] == ct.vec@[j]@);
            }
        }
    }
    Ok(lastsize == 0)
}


/// Append the bytes of `s` to `v`.
pub fn append_bytes(v: &mut Vec<u8>, s: &[u8])
    ensures
        final(v)@ == old(v)@ + s@,
{
    let mut i: usize = 0;
    while i < s.len()
        invariant
            i <= s@.len(),
            v@ == old(v)@ + s@.subrange(0, i as int),
        decreases s@.len() - i,
    {
        v.push(s[i]);
        i += 1;
        assert(v@ =~= old(v)@ + s@.subrange(0, i as int));
    }
    assert(s@.subrange(0, s@.len() as int) =~= s@);
}

/// The bytes `a`, then `b`, then `c`.
pub fn concat3(a: &[u8], b: &[u8], c: &[u8]) -> (r: Vec<u8>)
    ensures
        r@ == a@ + b@ + c@,
{
    let mut v: Vec<u8> = Vec::new();
    append_bytes(&mut v, a);
    append_bytes(&mut v, b);
    append_bytes(&mut v, c);
    assert(v@ =~= a@ + b@ + c@);
    v
}

/// A fresh unnamed temporary of unknown size: `off` in the unique space.
pub open spec fn temp_vn(uniq: AddrSpace, off: u32) -> VarnodeTpl {
    VarnodeTpl {
        space: ConstTpl::spec_space_const(uniq),
        offset: ConstTpl::spec_real_const(ConstType::Real, off as u64),
        size: ConstTpl::spec_real_const(ConstType::Real, 0),
        unnamed_flag: false,
    }.with_unnamed()
}

impl VarnodeTpl {
    /// This varnode marked as an unnamed temporary.
    pub open spec fn with_unnamed(self) -> VarnodeTpl {
        VarnodeTpl { unnamed_flag: true, ..self }
    }
}

/// The constant `val` of size `size`.
pub open spec fn const_vn(cs: AddrSpace, val: u64, size: u64) -> VarnodeTpl {
    VarnodeTpl {
        space: ConstTpl::spec_space_const(cs),
        offset: ConstTpl::spec_real_const(ConstType::Real, val),
        size: ConstTpl::spec_real_const(ConstType::Real, size),
        unnamed_flag: false,
    }
}

/// The next temporary offset after `b`: 16 bytes on, wrapping.
pub open spec fn next_temp(b: u32) -> u32 {
    ((b + 16) % 0x1_0000_0000) as u32
}

/// The builder's state: the spaces it builds in, the local label count,
/// the next temporary offset, the snippet's local scope and the first
/// error reported.
#[derive(Debug)]
pub struct PcodeCompile {
    /// The default (code) space.
    pub defaultspace: AddrSpace,
    /// The constant space.
    pub constantspace: AddrSpace,
    /// The unique (temporary) space.
    pub uniqspace: AddrSpace,
    /// The number of labels defined so far.
    pub local_labelcount: u32,
    /// Must new temporaries be introduced by `local`?
    pub enforce_local_key: bool,
    /// The offset of the next temporary.
    pub tempbase: u32,
    /// The local scope.
    pub tree: Vec<ScopeEntry>,
    /// The number of errors reported.
    pub errorcount: i32,
    /// The first error reported.
    pub firsterror: Vec<u8>,
}

impl PcodeCompile {
    /// Are the builder's spaces usable (nonzero word sizes), also those its
    /// scope names?
    pub open spec fn wf(&self) -> bool {
        &&& self.defaultspace.word_size > 0
        &&& self.constantspace.word_size > 0
        &&& self.uniqspace.word_size > 0
        &&& scope_ok(self.tree@)
    }

    /// Do the two states have the same spaces, scope and label count?
    pub open spec fn same_scope(&self, old: PcodeCompile) -> bool {
        &&& self.defaultspace == old.defaultspace
        &&& self.constantspace == old.constantspace
        &&& self.uniqspace == old.uniqspace
        &&& self.local_labelcount == old.local_labelcount
        &&& self.enforce_local_key == old.enforce_local_key
        &&& self.tree@ == old.tree@
    }

    /// Do the two states agree but for the temporary offset?
    pub open spec fn same_but_temp(&self, old: PcodeCompile) -> bool {
        &&& self.defaultspace == old.defaultspace
        &&& self.constantspace == old.constantspace
        &&& self.uniqspace == old.uniqspace
        &&& self.local_labelcount == old.local_labelcount
        &&& self.enforce_local_key == old.enforce_local_key
        &&& self.tree@ == old.tree@
        &&& self.errorcount == old.errorcount
        &&& self.firsterror@ == old.firsterror@
    }

    /// Does this state differ from `old` only in having reported `msg`?
    pub open spec fn reported(&self, old: PcodeCompile, msg: Seq<u8>) -> bool {
        &&& self.defaultspace == old.defaultspace
        &&& self.constantspace == old.constantspace
        &&& self.uniqspace == old.uniqspace
        &&& self.local_labelcount == old.local_labelcount
        &&& self.enforce_local_key == old.enforce_local_key
        &&& self.tempbase == old.tempbase
        &&& self.tree@ == old.tree@
        &&& self.errorcount == (if old.errorcount < i32::MAX { old.errorcount + 1 } else { old.errorcount as int })
        &&& self.firsterror@ == (if old.errorcount == 0 { msg } else { old.firsterror@ })
    }

    /// A builder over the given spaces, with an empty scope and no errors.
    pub fn new(defaultspace: AddrSpace, constantspace: AddrSpace, uniqspace: AddrSpace) -> (r: PcodeCompile)
        ensures
            r.defaultspace == defaultspace,
            r.constantspace == constantspace,
            r.uniqspace == uniqspace,
            r.local_labelcount == 0,
            !r.enforce_local_key,
            r.tempbase == 0,
            r.tree@.len() == 0,
            r.errorcount == 0,
            r.firsterror@.len() == 0,
    {
        PcodeCompile {
            defaultspace,
            constantspace,
            uniqspace,
            local_labelcount: 0,
            enforce_local_key: false,
            tempbase: 0,
            tree: Vec::new(),
            errorcount: 0,
            firsterror: Vec::new(),
        }
    }

    /// The default space.
    pub fn get_default_space(&self) -> (r: AddrSpace)
        ensures
            r == self.defaultspace,
    {
        self.defaultspace
    }

    /// Replace the default space.
    pub fn set_default_space(&mut self, spc: AddrSpace)
        ensures
            *final(self) == (PcodeCompile { defaultspace: spc, ..*old(self) }),
    {
        self.defaultspace = spc;
    }

    /// The constant space.
    pub fn get_constant_space(&self) -> (r: AddrSpace)
        ensures
            r == self.constantspace,
    {
        self.constantspace
    }

    /// Replace the constant space.
    pub fn set_constant_space(&mut self, spc: AddrSpace)
        ensures
            *final(self) == (PcodeCompile { constantspace: spc, ..*old(self) }),
    {
        self.constantspace = spc;
    }

    /// The unique space.
    pub fn get_unique_space(&self) -> (r: AddrSpace)
        ensures
            r == self.uniqspace,
    {
        self.uniqspace
    }

    /// Replace the unique space.
    pub fn set_unique_space(&mut self, spc: AddrSpace)
        ensures
            *final(self) == (PcodeCompile { uniqspace: spc, ..*old(self) }),
    {
        self.uniqspace = spc;
    }

    /// Must new temporaries be introduced by `local`?
    pub fn is_enforce_local_key(&self) -> (r: bool)
        ensures
            r == self.enforce_local_key,
    {
        self.enforce_local_key
    }

    /// Require, or stop requiring, `local` for new temporaries.
    pub fn set_enforce_local_key(&mut self, val: bool)
        ensures
            *final(self) == (PcodeCompile { enforce_local_key: val, ..*old(self) }),
    {
        self.enforce_local_key = val;
    }

    /// The number of labels defined so far.
    pub fn local_label_count(&self) -> (r: u32)
        ensures
            r == self.local_labelcount,
    {
        self.local_labelcount
    }

    /// Replace the label count.
    pub fn set_local_label_count(&mut self, val: u32)
        ensures
            *final(self) == (PcodeCompile { local_labelcount: val, ..*old(self) }),
    {
        self.local_labelcount = val;
    }

    /// Restart label numbering.
    pub fn reset_label_count(&mut self)
        ensures
            *final(self) == (PcodeCompile { local_labelcount: 0, ..*old(self) }),
    {
        self.local_labelcount = 0;
    }

    /// Hand out the next temporary offset; offsets advance by 16.
    pub fn allocate_temp(&mut self) -> (r: u32)
        ensures
            r == old(self).tempbase,
            *final(self) == (PcodeCompile { tempbase: next_temp(old(self).tempbase), ..*old(self) }),
    {
        let res = self.tempbase;
        self.tempbase = self.tempbase.wrapping_add(16);
        res
    }

    /// Record an error: the first one's message is kept, all are counted.
    pub fn report_error(&mut self, _loc: Option<&Location>, msg: &[u8])
        ensures
            final(self).reported(*old(self), msg@),
    {
        if self.errorcount == 0 {
            self.firsterror = vstd::slice::slice_to_vec(msg);
        }
        if self.errorcount < i32::MAX {
            self.errorcount = self.errorcount + 1;
        }
    }

    /// Warnings are not kept.
    pub fn report_warning(&mut self, _loc: Option<&Location>, _msg: &[u8])
        ensures
            *final(self) == *old(self),
    {
    }

    /// Snippet symbols have no source location.
    pub fn get_location(&self, _symbol_name: &[u8]) -> (r: Option<Location>)
        ensures
            r is None,
    {
        None
    }

    /// The position of the first scope entry named `name`, if any.
    pub fn find_local(&self, name: &[u8]) -> (r: Option<usize>)
        ensures
            r is None <==> !scope_has(self.tree@, name@),
            r matches Some(i) ==> i < self.tree@.len() && self.tree@[i as int].name@ == name@,
            r matches Some(i) ==> forall|j: int| 0 <= j < i ==> (#[trigger] self.tree@[j]).name@ != name@,
    {
        let mut i: usize = 0;
        while i < self.tree.len()
            invariant
                i <= self.tree@.len(),
                forall|j: int| 0 <= j < i ==> (#[trigger] self.tree@[j]).name@ != name@,
            decreases self.tree@.len() - i,
        {
            if bytes_eq(self.tree[i].name.as_slice(), name) {
                return Some(i);
            }
            i += 1;
        }
        None
    }

    /// Add an entry to the local scope; a name already there is reported as
    /// a duplicate and the entry is dropped.
    pub fn add_local(&mut self, name: &[u8], local: SnippetLocal)
        ensures
            scope_has(old(self).tree@, name@) ==> final(self).reported(
                *old(self),
                "Duplicate symbol name: ".spec_bytes() + name@,
            ),
            !scope_has(old(self).tree@, name@) ==> {
                &&& final(self).tree@.len() == old(self).tree@.len() + 1
                &&& final(self).tree@.drop_last() == old(self).tree@
                &&& final(self).tree@.last().name@ == name@
                &&& final(self).tree@.last().local == local
                &&& (PcodeCompile { tree: old(self).tree, ..*final(self) }) == *old(self)
            },
            old(self).wf() && local_ok(local) ==> final(self).wf(),
            final(self).errorcount >= old(self).errorcount,
    {
        if self.find_local(name).is_some() {
            let prefix = "Duplicate symbol name: ";
            let msg = concat3(prefix.as_bytes(), name, &[]);
            self.report_error(None, msg.as_slice());
            return;
        }
        self.tree.push(ScopeEntry { name: vstd::slice::slice_to_vec(name), local });
    }
}

/// Are two byte strings equal?
pub fn bytes_eq(a: &[u8], b: &[u8]) -> (r: bool)
    ensures
        r == (a@ == b@),
{
    if a.len() != b.len() {
        return false;
    }
    let mut i: usize = 0;
    while i < a.len()
        invariant
            a@.len() == b@.len(),
            i <= a@.len(),
            forall|j: int| 0 <= j < i ==> a@[j] == b@[j],
        decreases a@.len() - i,
    {
        if a[i] != b[i] {
            return false;
        }
        i += 1;
    }
    assert(a@ =~= b@);
    true
}


/// Was the label `lab` placed already: by the scope's entry of that name
/// when it is a label, else by `lab` itself?
pub open spec fn label_was_placed(tree: Seq<ScopeEntry>, lab: LabelSymbol) -> bool {
    if scope_has(tree, lab.name@) {
        let i = choose|i: int| 0 <= i < tree.len() && (#[trigger] tree[i]).name@ == lab.name@ && forall|j: int| 0 <= j < i ==> tree[j].name@ != lab.name@;
        match tree[i].local {
            SnippetLocal::Label(l) => l.isplaced,
            _ => lab.isplaced,
        }
    } else {
        lab.isplaced
    }
}

/// The size a statement `name = rhs` gives its new temporary: the explicit
/// size if any, else the right side's size when it is a known real size,
/// else none.
pub open spec fn new_output_size(rhs_size: ConstTpl, size: u32) -> ConstTpl {
    if size != 0 {
        ConstTpl::spec_real_const(ConstType::Real, size as u64)
    } else if rhs_size.type_ == ConstType::Real && rhs_size.value_real != 0 {
        rhs_size
    } else {
        ConstTpl::spec_real_const(ConstType::Real, 0)
    }
}

impl PcodeCompile {
    /// Add a new varnode symbol or label to the local scope.
    pub fn add_symbol(&mut self, sym: PcodeCompileSymbol)
        ensures
            scope_has(old(self).tree@, sym.spec_name()) ==> final(self).reported(
                *old(self),
                "Duplicate symbol name: ".spec_bytes() + sym.spec_name(),
            ),
            !scope_has(old(self).tree@, sym.spec_name()) ==> {
                &&& final(self).tree@.drop_last() == old(self).tree@
                &&& final(self).tree@.len() == old(self).tree@.len() + 1
                &&& final(self).tree@.last().name@ == sym.spec_name()
                &&& final(self).tree@.last().local == match sym {
                    PcodeCompileSymbol::Sleigh(v) => SnippetLocal::Symbol(SnippetSymbol::Varnode(v)),
                    PcodeCompileSymbol::Label(l) => SnippetLocal::Label(l),
                }
                &&& (PcodeCompile { tree: old(self).tree, ..*final(self) }) == *old(self)
            },
            old(self).wf() && (sym matches PcodeCompileSymbol::Sleigh(v) ==> v.space.word_size > 0) ==> final(self).wf(),
            final(self).errorcount >= old(self).errorcount,
    {
        let name = vstd::slice::slice_to_vec(sym.get_name());
        let local = match sym {
            PcodeCompileSymbol::Sleigh(v) => SnippetLocal::Symbol(SnippetSymbol::Varnode(v)),
            PcodeCompileSymbol::Label(l) => SnippetLocal::Label(l),
        };
        self.add_local(name.as_slice(), local);
    }

    /// A fresh unnamed temporary of unknown size.
    pub fn build_temporary(&mut self) -> (r: VarnodeTpl)
        ensures
            r == temp_vn(old(self).uniqspace, old(self).tempbase),
            *final(self) == (PcodeCompile { tempbase: next_temp(old(self).tempbase), ..*old(self) }),
    {
        let temp = self.allocate_temp();
        let mut res = VarnodeTpl::new(
            ConstTpl::new_space(self.uniqspace),
            ConstTpl::new_real(ConstType::Real, temp as u64),
            ConstTpl::new_real(ConstType::Real, 0),
        );
        res.set_unnamed(true);
        res
    }

    /// Define a new label, numbered by the label count, and add it to the
    /// local scope.
    pub fn define_label(&mut self, name: &[u8]) -> (r: LabelSymbol)
        ensures
            r.name@ == name@,
            r.index == old(self).local_labelcount,
            !r.isplaced,
            r.refcount == 0,
            final(self).local_labelcount == (old(self).local_labelcount + 1) % 0x1_0000_0000,
            final(self).tempbase == old(self).tempbase,
            final(self).defaultspace == old(self).defaultspace,
            final(self).constantspace == old(self).constantspace,
            final(self).uniqspace == old(self).uniqspace,
            !scope_has(old(self).tree@, name@) ==> {
                &&& final(self).tree@.drop_last() == old(self).tree@
                &&& final(self).tree@.len() == old(self).tree@.len() + 1
                &&& final(self).tree@.last().name@ == name@
                &&& final(self).tree@.last().local matches SnippetLocal::Label(l) && l.name@ == name@
                    && l.index == old(self).local_labelcount && !l.isplaced && l.refcount == 0
                &&& final(self).errorcount == old(self).errorcount
                &&& final(self).firsterror@ == old(self).firsterror@
            },
            scope_has(old(self).tree@, name@) ==> final(self).tree@ == old(self).tree@,
            old(self).wf() ==> final(self).wf(),
            final(self).errorcount >= old(self).errorcount,
    {
        let count = self.local_labelcount;
        let labsym = LabelSymbol::new(name, count);
        self.local_labelcount = count.wrapping_add(1);
        self.add_symbol(PcodeCompileSymbol::Label(LabelSymbol::new(name, count)));
        labsym
    }

    /// The op placing label `lab`: a label-build op whose one input is the
    /// label's number.  Placing a label twice is reported; the scope's label
    /// is marked placed.
    pub fn place_label(&mut self, lab: &LabelSymbol) -> (r: Vec<OpTpl>)
        ensures
            r@.len() == 1,
            r@[0]@ == op_value(
                None,
                spec_label_build_op(),
                seq![const_vn(old(self).constantspace, lab.index as u64, 4)],
            ),
            label_was_placed(old(self).tree@, *lab) ==> final(self).errorcount == (if old(self).errorcount
                < i32::MAX {
                old(self).errorcount + 1
            } else {
                old(self).errorcount as int
            }),
            !label_was_placed(old(self).tree@, *lab) ==> final(self).errorcount == old(self).errorcount
                && final(self).firsterror@ == old(self).firsterror@,
            final(self).tree@.len() == old(self).tree@.len(),
            forall|i: int| 0 <= i < old(self).tree@.len() ==> (#[trigger] final(self).tree@[i]).name@ == old(self).tree@[i].name@,
            final(self).tempbase == old(self).tempbase,
            final(self).local_labelcount == old(self).local_labelcount,
            final(self).defaultspace == old(self).defaultspace,
            final(self).constantspace == old(self).constantspace,
            final(self).uniqspace == old(self).uniqspace,
            old(self).wf() ==> final(self).wf(),
            final(self).errorcount >= old(self).errorcount,
            ops_ok(r@),
    {
        let pos = self.find_local(lab.name.as_slice());
        let ghost tree0 = self.tree@;
        let mut placed = lab.isplaced;
        match pos {
            Some(i) => {
                proof {
                    assert(scope_has(tree0, lab.name@));
                    assert(0 <= i < tree0.len() && tree0[i as int].name@ == lab.name@ && forall|j: int| 0 <= j < i ==> tree0[j].name@ != lab.name@);
                    let c = choose|c: int| 0 <= c < tree0.len() && (#[trigger] tree0[c]).name@ == lab.name@ && forall|j: int| 0 <= j < c ==> tree0[j].name@ != lab.name@;
                    assert(c == i as int) by {
                        if c < i as int {
                        } else if c > i as int {
                            assert(tree0[i as int].name@ != lab.name@);
                        }
                    }
                }
                match &self.tree[i].local {
                    SnippetLocal::Label(l) => {
                        placed = l.isplaced;
                    },
                    _ => {},
                }
            },
            None => {},
        }
        if placed {
            let msg = concat3("Label '".as_bytes(), lab.name.as_slice(), "' is placed more than once".as_bytes());
            self.report_error(None, msg.as_slice());
        }
        match pos {
            Some(i) => {
                let is_label = match &self.tree[i].local {
                    SnippetLocal::Label(_) => true,
                    _ => false,
                };
                if is_label {
                    let name = vstd::slice::slice_to_vec(self.tree[i].name.as_slice());
                    let (index, refcount) = match &self.tree[i].local {
                        SnippetLocal::Label(l) => (l.index, l.refcount),
                        _ => (0, 0),
                    };
                    let lname = vstd::slice::slice_to_vec(lab.name.as_slice());
                    let newlab = LabelSymbol { name: lname, index, isplaced: true, refcount };
                    self.tree.set(i, ScopeEntry { name, local: SnippetLocal::Label(newlab) });
                }
            },
            None => {},
        }
        let mut op = OpTpl::new(label_build_op());
        let idvn = VarnodeTpl::new(
            ConstTpl::new_space(self.constantspace),
            ConstTpl::new_real(ConstType::Real, lab.index as u64),
            ConstTpl::new_real(ConstType::Real, 4),
        );
        op.add_input(idvn);
        proof {
            assert(op.input@ =~= seq![idvn]);
        }
        let mut res: Vec<OpTpl> = Vec::new();
        proof {
            lemma_ok_push(res@, op);
        }
        res.push(op);
        res
    }

    /// Define a temporary symbol `varname` of size `size` (no p-code).
    pub fn new_local_definition(&mut self, varname: &[u8], size: u32)
        ensures
            final(self).tempbase == next_temp(old(self).tempbase),
            final(self).local_labelcount == old(self).local_labelcount,
            final(self).defaultspace == old(self).defaultspace,
            final(self).constantspace == old(self).constantspace,
            final(self).uniqspace == old(self).uniqspace,
            !scope_has(old(self).tree@, varname@) ==> {
                &&& final(self).tree@.drop_last() == old(self).tree@
                &&& final(self).tree@.len() == old(self).tree@.len() + 1
                &&& final(self).tree@.last().name@ == varname@
                &&& final(self).tree@.last().local matches SnippetLocal::Symbol(SnippetSymbol::Varnode(v))
                    && v.name@ == varname@ && v.space == old(self).uniqspace
                    && v.offset == old(self).tempbase as u64 && v.size == size as i32
            },
            scope_has(old(self).tree@, varname@) ==> final(self).tree@ == old(self).tree@,
            old(self).wf() ==> final(self).wf(),
            final(self).errorcount >= old(self).errorcount,
    {
        let temp = self.allocate_temp();
        let sym = VarnodeSymbol {
            name: vstd::slice::slice_to_vec(varname),
            space: self.uniqspace,
            offset: temp as u64,
            size: size as i32,
        };
        self.add_symbol(PcodeCompileSymbol::Sleigh(sym));
    }

    /// The statement `varname = rhs`: the right side's value goes into a
    /// fresh temporary (of size `size`, or the right side's known size),
    /// which is defined as symbol `varname`.  Without `local`, and when
    /// `local` is required, this is reported.
    pub fn new_output(&mut self, uses_local_key: bool, rhs: ExprTree, varname: &[u8], size: u32) -> (r:
        Result<Vec<OpTpl>, CompileError>)
        requires
            rhs.wf(),
        ensures
            r matches Ok(v) && ops_view(v@) == retarget_ops(
                rhs.ops@,
                rhs.outvn->0,
                VarnodeTpl {
                    size: new_output_size(rhs.outvn->0.size, size),
                    ..temp_vn(old(self).uniqspace, old(self).tempbase)
                },
            ) && ops_ok(v@),
            final(self).tempbase == next_temp(old(self).tempbase),
            final(self).local_labelcount == old(self).local_labelcount,
            final(self).defaultspace == old(self).defaultspace,
            final(self).constantspace == old(self).constantspace,
            final(self).uniqspace == old(self).uniqspace,
            !scope_has(old(self).tree@, varname@) ==> {
                &&& final(self).tree@.drop_last() == old(self).tree@
                &&& final(self).tree@.len() == old(self).tree@.len() + 1
                &&& final(self).tree@.last().name@ == varname@
                &&& final(self).tree@.last().local matches SnippetLocal::Symbol(SnippetSymbol::Varnode(v))
                    && v.name@ == varname@ && v.space == old(self).uniqspace
                    && v.offset == old(self).tempbase as u64
            },
            scope_has(old(self).tree@, varname@) ==> final(self).tree@ == old(self).tree@,
            !scope_has(old(self).tree@, varname@) && (uses_local_key || !old(self).enforce_local_key)
                ==> final(self).errorcount == old(self).errorcount && final(self).firsterror@ == old(
                self,
            ).firsterror@,
            old(self).wf() ==> final(self).wf(),
            final(self).errorcount >= old(self).errorcount,
    {
        let mut rhs = rhs;
        let mut tmpvn = self.build_temporary();
        if size != 0 {
            tmpvn.set_size(ConstTpl::new_real(ConstType::Real, size as u64));
        } else {
            let rs = *rhs.get_size();
            if rs.type_ == ConstType::Real && rs.value_real != 0 {
                tmpvn.set_size(rs);
            }
        }
        let sym_space = self.uniqspace;
        let sym_offset = tmpvn.offset.value_real;
        let sym_size = tmpvn.size.value_real as i32;
        let _ = rhs.set_output(tmpvn);
        let sym = VarnodeSymbol {
            name: vstd::slice::slice_to_vec(varname),
            space: sym_space,
            offset: sym_offset,
            size: sym_size,
        };
        self.add_symbol(PcodeCompileSymbol::Sleigh(sym));
        if !uses_local_key && self.enforce_local_key {
            let msg = concat3(
                "Must use 'local' keyword to define symbol '".as_bytes(),
                varname,
                "'".as_bytes(),
            );
            self.report_error(None, msg.as_slice());
        }
        Ok(ExprTree::to_vector(rhs))
    }
}


/// The values of joined op lists are the joined values.
proof fn lemma_ops_view_concat(a: Seq<OpTpl>, b: Seq<OpTpl>)
    ensures
        ops_view(a + b) == ops_view(a) + ops_view(b),
{
    assert(ops_view(a + b) =~= ops_view(a) + ops_view(b));
}

/// The values of a list with one more op.
proof fn lemma_ops_view_push(a: Seq<OpTpl>, x: OpTpl)
    ensures
        ops_view(a.push(x)) == ops_view(a).push(x@),
{
    assert(ops_view(a.push(x)) =~= ops_view(a).push(x@));
}

/// Appending an op ready for size filling keeps a list ready.
proof fn lemma_fillin_push(ops: Seq<OpTpl>, op: OpTpl)
    requires
        all_fillin_ok(ops),
        fillin_ok(op@),
    ensures
        all_fillin_ok(ops.push(op)),
{
    assert forall|i: int| 0 <= i < ops.push(op).len() implies fillin_ok(#[trigger] ops.push(op)[i]@) by {
        if i < ops.len() {
            assert(ops.push(op)[i] == ops[i]);
        }
    }
}

/// Joining two lists ready for size filling gives one.
proof fn lemma_fillin_concat(a: Seq<OpTpl>, b: Seq<OpTpl>)
    requires
        all_fillin_ok(a),
        all_fillin_ok(b),
    ensures
        all_fillin_ok(a + b),
{
    assert forall|i: int| 0 <= i < (a + b).len() implies fillin_ok(#[trigger] (a + b)[i]@) by {
        if i < a.len() {
            assert((a + b)[i] == a[i]);
        } else {
            assert((a + b)[i] == b[i - a.len()]);
        }
    }
}

/// Is a list of ops ready for size filling, with every delay-slot op
/// holding its size input?
pub open spec fn ops_ok(ops: Seq<OpTpl>) -> bool {
    all_fillin_ok(ops) && delay_ops_have_input(ops)
}

/// Appending a ready op keeps a list ready.
proof fn lemma_ok_push(ops: Seq<OpTpl>, op: OpTpl)
    requires
        ops_ok(ops),
        fillin_ok(op@),
        op.opc == spec_delay_slot_op() ==> op.input@.len() > 0,
    ensures
        ops_ok(ops.push(op)),
{
    lemma_fillin_push(ops, op);
    assert forall|i: int| 0 <= i < ops.push(op).len() && (#[trigger] ops.push(op)[i]).opc == spec_delay_slot_op()
        implies ops.push(op)[i].input@.len() > 0 by {
        if i < ops.len() {
            assert(ops.push(op)[i] == ops[i]);
        }
    }
}

/// Joining ready lists gives a ready list.
pub proof fn lemma_ops_ok_concat(a: Seq<OpTpl>, b: Seq<OpTpl>)
    requires
        ops_ok(a),
        ops_ok(b),
    ensures
        ops_ok(a + b),
{
    lemma_ok_concat(a, b);
}

/// Joining ready lists gives a ready list.
proof fn lemma_ok_concat(a: Seq<OpTpl>, b: Seq<OpTpl>)
    requires
        ops_ok(a),
        ops_ok(b),
    ensures
        ops_ok(a + b),
{
    lemma_fillin_concat(a, b);
    assert forall|i: int| 0 <= i < (a + b).len() && (#[trigger] (a + b)[i]).opc == spec_delay_slot_op()
        implies (a + b)[i].input@.len() > 0 by {
        if i < a.len() {
            assert((a + b)[i] == a[i]);
        } else {
            assert((a + b)[i] == b[i - a.len()]);
        }
    }
}

/// A list of the same shape as a ready list is ready.
proof fn lemma_ok_shape(a: Seq<OpTpl>, b: Seq<OpTpl>)
    requires
        ops_same_shape(ops_view(a), ops_view(b)),
        ops_ok(a),
    ensures
        ops_ok(b),
{
    lemma_shape_all_fillin_ok(a, b);
    assert forall|j: int| 0 <= j < b.len() && (#[trigger] b[j]).opc == spec_delay_slot_op() implies b[j].input@.len() > 0 by {
        assert(ops_view(a)[j] == a[j]@);
        assert(ops_view(b)[j] == b[j]@);
        assert(same_shape(ops_view(a)[j], ops_view(b)[j]));
    }
}

/// Are all the expressions usable?
pub open spec fn params_wf(ps: Seq<ExprTree>) -> bool {
    forall|i: int| 0 <= i < ps.len() ==> (#[trigger] ps[i]).wf()
}

/// The ops of usable expressions are ready.
proof fn lemma_params_ok(ps: Seq<ExprTree>)
    requires
        params_wf(ps),
    ensures
        ops_ok(params_ops(ps)),
    decreases ps.len(),
{
    if ps.len() > 0 {
        assert(params_wf(ps.drop_last())) by {
            assert forall|i: int| 0 <= i < ps.drop_last().len() implies (#[trigger] ps.drop_last()[i]).wf() by {
                assert(ps.drop_last()[i] == ps[i]);
            }
        }
        lemma_params_ok(ps.drop_last());
        assert(ps[ps.len() - 1].wf());
        lemma_ok_concat(params_ops(ps.drop_last()), ps.last().ops@);
    }
}

/// An op with an output, the given code and inputs, as a value.
pub open spec fn op_out(out: VarnodeTpl, opc: OpCode, ins: Seq<VarnodeTpl>) -> OpView {
    op_value(Some(out), opc, ins)
}

/// The constant naming the space `id` that a load or store reads: an
/// eight-byte constant-space varnode.
pub open spec fn space_ref_vn(cs: AddrSpace, id: ConstTpl) -> VarnodeTpl {
    VarnodeTpl {
        space: ConstTpl::spec_space_const(cs),
        offset: id,
        size: ConstTpl::spec_real_const(ConstType::Real, 8),
        unnamed_flag: false,
    }
}

impl PcodeCompile {
    /// Does this state differ from `old` only by one more temporary?
    pub open spec fn one_temp_later(&self, old: PcodeCompile) -> bool {
        *self == (PcodeCompile { tempbase: next_temp(old.tempbase), ..old })
    }

    /// The unary expression `opc(vn)` into a fresh temporary.
    pub fn create_op(&mut self, opc: OpCode, vn: ExprTree) -> (r: ExprTree)
        requires
            vn.outvn is Some,
        ensures
            final(self).one_temp_later(*old(self)),
            r.outvn == Some(temp_vn(old(self).uniqspace, old(self).tempbase)),
            r.ops@.drop_last() == vn.ops@,
            r.ops@.len() == vn.ops@.len() + 1,
            r.ops@.last()@ == op_out(temp_vn(old(self).uniqspace, old(self).tempbase), opc, seq![vn.outvn->0]),
            vn.wf() && !shift_class(opc) ==> r.wf(),
    {
        let mut vn = vn;
        let outvn = self.build_temporary();
        let mut op = OpTpl::new(opc);
        op.add_input(vn.outvn.unwrap());
        op.set_output(outvn);
        proof {
            assert(op.input@ =~= seq![vn.outvn->0]);
            if vn.wf() && !shift_class(opc) {
                lemma_ok_push(vn.ops@, op);
            }
        }
        vn.ops.push(op);
        vn.outvn = Some(outvn);
        vn
    }

    /// The binary expression `opc(vn1, vn2)` into a fresh temporary.
    pub fn create_op2(&mut self, opc: OpCode, vn1: ExprTree, vn2: ExprTree) -> (r: ExprTree)
        requires
            vn1.outvn is Some,
            vn2.outvn is Some,
        ensures
            final(self).one_temp_later(*old(self)),
            r.outvn == Some(temp_vn(old(self).uniqspace, old(self).tempbase)),
            r.ops@.drop_last() == vn1.ops@ + vn2.ops@,
            r.ops@.len() == vn1.ops@.len() + vn2.ops@.len() + 1,
            r.ops@.last()@ == op_out(
                temp_vn(old(self).uniqspace, old(self).tempbase),
                opc,
                seq![vn1.outvn->0, vn2.outvn->0],
            ),
            vn1.wf() && vn2.wf() ==> r.wf(),
    {
        let mut vn1 = vn1;
        let mut vn2 = vn2;
        let outvn = self.build_temporary();
        let ghost ops1 = vn1.ops@;
        let ghost ops2 = vn2.ops@;
        let ghost w12 = vn1.wf() && vn2.wf();
        vn1.ops.append(&mut vn2.ops);
        let mut op = OpTpl::new(opc);
        op.add_input(vn1.outvn.unwrap());
        op.add_input(vn2.outvn.unwrap());
        op.set_output(outvn);
        proof {
            assert(op.input@ =~= seq![vn1.outvn->0, vn2.outvn->0]);
            if w12 {
                lemma_ok_concat(ops1, ops2);
                lemma_ok_push(vn1.ops@, op);
            }
        }
        vn1.ops.push(op);
        vn1.outvn = Some(outvn);
        vn1
    }

    /// The binary expression `opc(vn1, vn2)` into `outvn`.
    pub fn create_op_out(&mut self, outvn: VarnodeTpl, opc: OpCode, vn1: ExprTree, vn2: ExprTree) -> (r:
        ExprTree)
        requires
            vn1.outvn is Some,
            vn2.outvn is Some,
        ensures
            *final(self) == *old(self),
            r.outvn == Some(outvn),
            r.ops@.drop_last() == vn1.ops@ + vn2.ops@,
            r.ops@.len() == vn1.ops@.len() + vn2.ops@.len() + 1,
            r.ops@.last()@ == op_out(outvn, opc, seq![vn1.outvn->0, vn2.outvn->0]),
            vn1.wf() && vn2.wf() ==> r.wf(),
    {
        let mut vn1 = vn1;
        let mut vn2 = vn2;
        let ghost ops1 = vn1.ops@;
        let ghost ops2 = vn2.ops@;
        let ghost w12 = vn1.wf() && vn2.wf();
        vn1.ops.append(&mut vn2.ops);
        let mut op = OpTpl::new(opc);
        op.add_input(vn1.outvn.unwrap());
        op.add_input(vn2.outvn.unwrap());
        op.set_output(outvn);
        proof {
            assert(op.input@ =~= seq![vn1.outvn->0, vn2.outvn->0]);
            if w12 {
                lemma_ok_concat(ops1, ops2);
                lemma_ok_push(vn1.ops@, op);
            }
        }
        vn1.ops.push(op);
        vn1.outvn = Some(outvn);
        vn1
    }

    /// The unary expression `opc(vn)` into `outvn`.
    pub fn create_op_out_unary(&mut self, outvn: VarnodeTpl, opc: OpCode, vn: ExprTree) -> (r: ExprTree)
        requires
            vn.outvn is Some,
        ensures
            *final(self) == *old(self),
            r.outvn == Some(outvn),
            r.ops@.drop_last() == vn.ops@,
            r.ops@.len() == vn.ops@.len() + 1,
            r.ops@.last()@ == op_out(outvn, opc, seq![vn.outvn->0]),
            vn.wf() && !shift_class(opc) ==> r.wf(),
    {
        let mut vn = vn;
        let mut op = OpTpl::new(opc);
        op.add_input(vn.outvn.unwrap());
        op.set_output(outvn);
        proof {
            assert(op.input@ =~= seq![vn.outvn->0]);
            if vn.wf() && !shift_class(opc) {
                lemma_ok_push(vn.ops@, op);
            }
        }
        vn.ops.push(op);
        vn.outvn = Some(outvn);
        vn
    }

    /// The statement `opc(vn)`, an op without output.
    pub fn create_op_no_out(&mut self, opc: OpCode, vn: ExprTree) -> (r: Vec<OpTpl>)
        requires
            vn.outvn is Some,
        ensures
            *final(self) == *old(self),
            r@.drop_last() == vn.ops@,
            r@.len() == vn.ops@.len() + 1,
            r@.last()@ == op_value(None, opc, seq![vn.outvn->0]),
            vn.wf() && !bool_out_class(opc) && !shift_class(opc) && opc != OpCode::CPUI_CPOOLREF ==> ops_ok(r@),
    {
        let mut vn = vn;
        let mut op = OpTpl::new(opc);
        op.add_input(vn.outvn.unwrap());
        proof {
            assert(op.input@ =~= seq![vn.outvn->0]);
            if vn.wf() && !bool_out_class(opc) && !shift_class(opc) && opc != OpCode::CPUI_CPOOLREF {
                lemma_ok_push(vn.ops@, op);
            }
        }
        let mut res = vn.ops;
        res.push(op);
        res
    }

    /// The statement `opc(vn1, vn2)`, an op without output.
    pub fn create_op_no_out2(&mut self, opc: OpCode, vn1: ExprTree, vn2: ExprTree) -> (r: Vec<OpTpl>)
        requires
            vn1.outvn is Some,
            vn2.outvn is Some,
        ensures
            *final(self) == *old(self),
            r@.drop_last() == vn1.ops@ + vn2.ops@,
            r@.len() == vn1.ops@.len() + vn2.ops@.len() + 1,
            r@.last()@ == op_value(None, opc, seq![vn1.outvn->0, vn2.outvn->0]),
            vn1.wf() && vn2.wf() && !bool_out_class(opc) && (shift_class(opc) ==> opc == OpCode::CPUI_SUBPIECE)
                && opc != OpCode::CPUI_CPOOLREF ==> ops_ok(r@),
    {
        let mut vn1 = vn1;
        let mut vn2 = vn2;
        let mut res = vn1.ops;
        let ghost ops1 = res@;
        let ghost ops2 = vn2.ops@;
        let ghost w12 = vn1.wf() && vn2.wf();
        res.append(&mut vn2.ops);
        let mut op = OpTpl::new(opc);
        op.add_input(vn1.outvn.unwrap());
        op.add_input(vn2.outvn.unwrap());
        proof {
            assert(op.input@ =~= seq![vn1.outvn->0, vn2.outvn->0]);
            if w12 && !bool_out_class(opc) && (shift_class(opc) ==> opc == OpCode::CPUI_SUBPIECE)
                && opc != OpCode::CPUI_CPOOLREF {
                lemma_ok_concat(ops1, ops2);
                lemma_ok_push(res@, op);
            }
        }
        res.push(op);
        res
    }

    /// The statement `opc(val)` on a four-byte constant.
    pub fn create_op_const(&mut self, opc: OpCode, val: u64) -> (r: Vec<OpTpl>)
        ensures
            *final(self) == *old(self),
            r@.len() == 1,
            r@[0]@ == op_value(None, opc, seq![const_vn(old(self).constantspace, val, 4)]),
    {
        let vn = VarnodeTpl::new(
            ConstTpl::new_space(self.constantspace),
            ConstTpl::new_real(ConstType::Real, val),
            ConstTpl::new_real(ConstType::Real, 4),
        );
        let mut op = OpTpl::new(opc);
        op.add_input(vn);
        proof {
            assert(op.input@ =~= seq![vn]);
        }
        let mut res: Vec<OpTpl> = Vec::new();
        res.push(op);
        res
    }

    /// Combine the output of `res` with a constant by `opc`, into a fresh
    /// temporary that becomes the new output.
    pub fn append_op(&mut self, opc: OpCode, res: &mut ExprTree, constval: u64, constsz: i32)
        requires
            old(res).outvn is Some,
        ensures
            final(self).one_temp_later(*old(self)),
            final(res).outvn == Some(temp_vn(old(self).uniqspace, old(self).tempbase)),
            final(res).ops@.drop_last() == old(res).ops@,
            final(res).ops@.len() == old(res).ops@.len() + 1,
            final(res).ops@.last()@ == op_out(
                temp_vn(old(self).uniqspace, old(self).tempbase),
                opc,
                seq![old(res).outvn->0, const_vn(old(self).constantspace, constval, (constsz as i64) as u64)],
            ),
            old(res).wf() ==> final(res).wf(),
    {
        let mut op = OpTpl::new(opc);
        let constvn = VarnodeTpl::new(
            ConstTpl::new_space(self.constantspace),
            ConstTpl::new_real(ConstType::Real, constval),
            ConstTpl::new_real(ConstType::Real, (constsz as i64) as u64),
        );
        let outvn = self.build_temporary();
        op.add_input(res.outvn.unwrap());
        op.add_input(constvn);
        op.set_output(outvn);
        proof {
            assert(op.input@ =~= seq![old(res).outvn->0, constvn]);
            if old(res).wf() {
                lemma_ok_push(res.ops@, op);
            }
        }
        res.ops.push(op);
        res.outvn = Some(outvn);
    }
}


impl PcodeCompile {
    /// The load `*[qual] ptr` into a fresh temporary; an explicit size in
    /// `qual` is forced onto the temporary.
    pub fn create_load(&mut self, qual: StarQuality, ptr: ExprTree) -> (r: Result<ExprTree, CompileError>)
        requires
            ptr.outvn is Some,
        ensures
            final(self).one_temp_later(*old(self)),
            ({
                let t = temp_vn(old(self).uniqspace, old(self).tempbase);
                let base = ops_view(ptr.ops@).push(
                    op_out(t, OpCode::CPUI_LOAD, seq![space_ref_vn(old(self).constantspace, qual.id), ptr.outvn->0]),
                );
                let k = ptr.ops@.len() as int;
                let sz = ConstTpl::spec_real_const(ConstType::Real, qual.size as u64);
                &&& (qual.size == 0 ==> (r matches Ok(e) && ops_view(e.ops@) == base))
                &&& (qual.size > 0 ==> (r is Ok) == forced_at(base, k, -1, sz).0)
                &&& (qual.size > 0 ==> (r matches Ok(e) ==> ops_view(e.ops@) == forced_at(base, k, -1, sz).1))
                &&& (r matches Ok(e) ==> (e.ops@.len() == k + 1 && e.outvn == e.ops@.last().output))
                &&& (r matches Ok(e) ==> (ptr.wf() ==> e.wf()))
                &&& (r is Err ==> r == Err::<ExprTree, CompileError>(CompileError::LocaltempSizeMismatch))
            }),
    {
        let mut ptr = ptr;
        let outvn = self.build_temporary();
        let mut op = OpTpl::new(OpCode::CPUI_LOAD);
        let spcvn = VarnodeTpl::new(ConstTpl::new_space(self.constantspace), qual.id, ConstTpl::new_real(ConstType::Real, 8));
        op.add_input(spcvn);
        op.add_input(ptr.outvn.unwrap());
        op.set_output(outvn);
        let ghost wf0 = ptr.wf();
        let ghost ops0 = ptr.ops@;
        proof {
            assert(op.input@ =~= seq![spcvn, ptr.outvn->0]);
            if wf0 {
                lemma_ok_push(ops0, op);
            }
        }
        ptr.ops.push(op);
        proof {
            assert(ops_view(ptr.ops@) =~= ops_view(ops0).push(op@));
        }
        let last = ptr.ops.len() - 1;
        if qual.size > 0 {
            let sz = ConstTpl::new_real(ConstType::Real, qual.size as u64);
            let ghost before = ptr.ops@;
            assert(ops_view(before)[last as int] == before[last as int]@);
            let res = force_size_at(&mut ptr.ops, last, Slot::Out, &sz);
            match res {
                Err(e) => {
                    return Err(e);
                },
                Ok(()) => {},
            }
            proof {
                if wf0 {
                    lemma_ok_shape(before, ptr.ops@);
                }
            }
        }
        proof {
            assert(ops_view(ptr.ops@)[last as int] == ptr.ops@[last as int]@);
        }
        ptr.outvn = ptr.ops[last].output;
        Ok(ptr)
    }

    /// The store `*[qual] ptr = val`; the size in `qual` is forced onto the
    /// stored value.
    pub fn create_store(&mut self, qual: StarQuality, ptr: ExprTree, val: ExprTree) -> (r: Result<
        Vec<OpTpl>,
        CompileError,
    >)
        requires
            ptr.outvn is Some,
            val.outvn is Some,
        ensures
            *final(self) == *old(self),
            ({
                let base = ops_view(ptr.ops@ + val.ops@).push(
                    op_value(
                        None,
                        OpCode::CPUI_STORE,
                        seq![space_ref_vn(old(self).constantspace, qual.id), ptr.outvn->0, val.outvn->0],
                    ),
                );
                let k = (ptr.ops@.len() + val.ops@.len()) as int;
                let sz = ConstTpl::spec_real_const(ConstType::Real, qual.size as u64);
                &&& (r is Ok) == forced_at(base, k, 2, sz).0
                &&& (r matches Ok(v) ==> ops_view(v@) == forced_at(base, k, 2, sz).1)
                &&& (r matches Ok(v) ==> (ptr.wf() && val.wf() ==> ops_ok(v@)))
                &&& (r is Err ==> r == Err::<Vec<OpTpl>, CompileError>(CompileError::LocaltempSizeMismatch))
            }),
    {
        let mut ptr = ptr;
        let mut val = val;
        let ghost w = ptr.wf() && val.wf();
        let ghost ops1 = ptr.ops@;
        let ghost ops2 = val.ops@;
        let mut res = ptr.ops;
        res.append(&mut val.ops);
        let mut op = OpTpl::new(OpCode::CPUI_STORE);
        let spcvn = VarnodeTpl::new(ConstTpl::new_space(self.constantspace), qual.id, ConstTpl::new_real(ConstType::Real, 8));
        op.add_input(spcvn);
        op.add_input(ptr.outvn.unwrap());
        op.add_input(val.outvn.unwrap());
        proof {
            assert(op.input@ =~= seq![spcvn, ptr.outvn->0, val.outvn->0]);
            if w {
                lemma_ok_concat(ops1, ops2);
                lemma_ok_push(res@, op);
            }
        }
        let ghost mid = res@;
        res.push(op);
        proof {
            assert(ops_view(res@) =~= ops_view(ops1 + ops2).push(op@));
        }
        let last = res.len() - 1;
        let sz = ConstTpl::new_real(ConstType::Real, qual.size as u64);
        let ghost before = res@;
        assert(ops_view(before)[last as int] == before[last as int]@);
        let r = force_size_at(&mut res, last, Slot::In(2), &sz);
        match r {
            Err(e) => Err(e),
            Ok(()) => {
                proof {
                    if w {
                        lemma_ok_shape(before, res@);
                    }
                }
                Ok(res)
            },
        }
    }

    /// A call of user operation `sym` on `param`, without output.
    pub fn create_user_op_no_out(&mut self, sym: &UserOpSymbol, param: Vec<ExprTree>) -> (r: Vec<OpTpl>)
        requires
            forall|i: int| 0 <= i < param@.len() ==> (#[trigger] param@[i]).outvn is Some,
        ensures
            *final(self) == *old(self),
            r@.len() > 0,
            r@.drop_last() == params_ops(param@),
            r@.last()@ == op_value(
                None,
                OpCode::CPUI_CALLOTHER,
                seq![const_vn(old(self).constantspace, sym.index as u64, 4)] + params_outs(param@),
            ),
            params_wf(param@) ==> ops_ok(r@),
    {
        let mut op = OpTpl::new(OpCode::CPUI_CALLOTHER);
        let vn = VarnodeTpl::new(
            ConstTpl::new_space(self.constantspace),
            ConstTpl::new_real(ConstType::Real, sym.index as u64),
            ConstTpl::new_real(ConstType::Real, 4),
        );
        op.add_input(vn);
        proof {
            assert(op.input@ =~= seq![vn]);
        }
        let ghost ps = param@;
        let r = ExprTree::append_params(op, param);
        proof {
            if params_wf(ps) {
                lemma_params_ok(ps);
                assert(r@ =~= r@.drop_last().push(r@.last()));
                lemma_ok_push(r@.drop_last(), r@.last());
            }
        }
        r
    }

    /// A call of user operation `sym` on `param`, into a fresh temporary.
    pub fn create_user_op(&mut self, sym: &UserOpSymbol, param: Vec<ExprTree>) -> (r: ExprTree)
        requires
            forall|i: int| 0 <= i < param@.len() ==> (#[trigger] param@[i]).outvn is Some,
        ensures
            final(self).one_temp_later(*old(self)),
            r.outvn == Some(temp_vn(old(self).uniqspace, old(self).tempbase)),
            r.ops@.len() > 0,
            r.ops@.drop_last() == params_ops(param@),
            r.ops@.last()@ == op_out(
                temp_vn(old(self).uniqspace, old(self).tempbase),
                OpCode::CPUI_CALLOTHER,
                seq![const_vn(old(self).constantspace, sym.index as u64, 4)] + params_outs(param@),
            ),
            params_wf(param@) ==> r.wf(),
    {
        let outvn = self.build_temporary();
        let mut ops = self.create_user_op_no_out(sym, param);
        let mut last = ops.pop().unwrap();
        last.set_output(outvn);
        let ghost front = ops@;
        ops.push(last);
        proof {
            assert(ops@.drop_last() =~= front);
            if params_wf(param@) {
                assert forall|i: int| 0 <= i < ops@.len() implies fillin_ok(#[trigger] ops@[i]@) by {
                    if i < front.len() {
                        assert(ops@[i] == front[i]);
                    }
                }
            }
        }
        ExprTree { ops, outvn: Some(outvn) }
    }

    /// The op `opc` on the outputs of `param`, into a fresh temporary.
    pub fn create_variadic(&mut self, opc: OpCode, param: Vec<ExprTree>) -> (r: ExprTree)
        requires
            forall|i: int| 0 <= i < param@.len() ==> (#[trigger] param@[i]).outvn is Some,
        ensures
            final(self).one_temp_later(*old(self)),
            r.outvn == Some(temp_vn(old(self).uniqspace, old(self).tempbase)),
            r.ops@.len() > 0,
            r.ops@.drop_last() == params_ops(param@),
            r.ops@.last()@ == op_out(temp_vn(old(self).uniqspace, old(self).tempbase), opc, params_outs(param@)),
            params_wf(param@) && (shift_class(opc) ==> param@.len() >= 2) && (opc == OpCode::CPUI_CPOOLREF
                ==> param@.len() >= 1) && (opc == spec_delay_slot_op() ==> param@.len() >= 1) ==> r.wf(),
    {
        let outvn = self.build_temporary();
        let op = OpTpl::new(opc);
        let ghost ps = param@;
        let mut ops = ExprTree::append_params(op, param);
        proof {
            assert(Seq::<VarnodeTpl>::empty() + params_outs(ps) =~= params_outs(ps));
        }
        let mut last = ops.pop().unwrap();
        last.set_output(outvn);
        let ghost front = ops@;
        ops.push(last);
        proof {
            assert(ops@.drop_last() =~= front);
            if params_wf(ps) && (shift_class(opc) ==> ps.len() >= 2) && (opc == OpCode::CPUI_CPOOLREF ==> ps.len() >= 1)
                && (opc == spec_delay_slot_op() ==> ps.len() >= 1) {
                lemma_params_ok(ps);
                assert(params_outs(ps).len() == ps.len());
                lemma_ok_push(front, last);
            }
        }
        ExprTree { ops, outvn: Some(outvn) }
    }
}


/// The handle constant `ht.vf` plus `plus`, as a value.
pub open spec fn handle_plus_const(ht: i32, vf: VField, plus: u64) -> ConstTpl {
    ConstTpl { type_: ConstType::Handle, value_spaceid: None, value_handle_index: ht, value_real: plus, select: vf }
}

/// The varnode holding bits `bitoffset..bitoffset+numbits` of `base`, when
/// plain template arithmetic can name it: only for byte-aligned ranges of a
/// base with a real or handle offset.  `None` when it cannot (or the base
/// size is known to be 0); an error when the range lies outside a known
/// size, or when a real offset comes with an unknown size.  A real offset
/// moves by the byte offset, counted from the end on a big-endian space.
pub open spec fn truncated_varnode(base: VarnodeTpl, bitoffset: u32, numbits: u32, big_endian: bool) -> Result<
    Option<VarnodeTpl>,
    CompileError,
> {
    let byteoffset = bitoffset / 8;
    let numbytes = numbits / 8;
    let real_size = base.size.type_ == ConstType::Real;
    let fullsz = base.size.value_real;
    if real_size && fullsz == 0 {
        Ok(None)
    } else if real_size && (byteoffset.wrapping_add(numbytes)) as u64 > fullsz {
        Err(CompileError::BitRangeOutOfBounds)
    } else if bitoffset % 8 != 0 || numbits % 8 != 0 {
        Ok(None)
    } else if base.offset.type_ != ConstType::Real && base.offset.type_ != ConstType::Handle {
        Ok(None)
    } else if base.offset.type_ == ConstType::Handle {
        Ok(Some(VarnodeTpl {
            space: base.space,
            offset: handle_plus_const(base.offset.value_handle_index, VField::VOffsetPlus, byteoffset as u64),
            size: ConstTpl::spec_real_const(ConstType::Real, numbytes as u64),
            unnamed_flag: false,
        }))
    } else if !real_size {
        Err(CompileError::CannotConstructBitRange)
    } else {
        let plus: u64 = if big_endian {
            fullsz.wrapping_sub(byteoffset.wrapping_add(numbytes) as u64)
        } else {
            byteoffset as u64
        };
        Ok(Some(VarnodeTpl {
            space: base.space,
            offset: ConstTpl::spec_real_const(ConstType::Real, base.offset.value_real.wrapping_add(plus)),
            size: ConstTpl::spec_real_const(ConstType::Real, numbytes as u64),
            unnamed_flag: false,
        }))
    }
}

impl PcodeCompile {
    /// The varnode holding bits `bitoffset..bitoffset+numbits` of `basevn`,
    /// if plain template arithmetic can name it (see [`truncated_varnode`];
    /// the default space gives the endianness).
    pub fn build_truncated_varnode(&self, basevn: &VarnodeTpl, bitoffset: u32, numbits: u32) -> (r: Result<
        Option<VarnodeTpl>,
        CompileError,
    >)
        ensures
            r == truncated_varnode(*basevn, bitoffset, numbits, self.defaultspace.big_endian),
    {
        let byteoffset = bitoffset / 8;
        let numbytes = numbits / 8;
        let mut fullsz: u64 = 0;
        if basevn.size.type_ == ConstType::Real {
            fullsz = basevn.size.value_real;
            if fullsz == 0 {
                return Ok(None);
            }
            if byteoffset.wrapping_add(numbytes) as u64 > fullsz {
                return Err(CompileError::BitRangeOutOfBounds);
            }
        }
        if bitoffset % 8 != 0 {
            return Ok(None);
        }
        if numbits % 8 != 0 {
            return Ok(None);
        }
        let offset_type = basevn.offset.type_;
        if offset_type != ConstType::Real && offset_type != ConstType::Handle {
            return Ok(None);
        }
        let specialoff = if offset_type == ConstType::Handle {
            ConstTpl::new_handle_plus(basevn.offset.value_handle_index, VField::VOffsetPlus, byteoffset as u64)
        } else {
            if basevn.size.type_ != ConstType::Real {
                return Err(CompileError::CannotConstructBitRange);
            }
            let plus: u64 = if self.defaultspace.big_endian {
                fullsz.wrapping_sub(byteoffset.wrapping_add(numbytes) as u64)
            } else {
                byteoffset as u64
            };
            ConstTpl::new_real(ConstType::Real, basevn.offset.value_real.wrapping_add(plus))
        };
        let res = VarnodeTpl::new(basevn.space, specialoff, ConstTpl::new_real(ConstType::Real, numbytes as u64));
        Ok(Some(res))
    }

    /// The constant varnode holding the offset of `var`: its address for a
    /// real offset in a named space (bytes converted to the space's words),
    /// else its offset template.  With `size` 0 the size is the space's
    /// address size, when `var` names a space.
    pub fn address_of(&self, var: VarnodeTpl, size: u32) -> (r: VarnodeTpl)
        requires
            var.space.type_ == ConstType::Spaceid ==> var.space.value_spaceid is Some
                && var.space.value_spaceid->0.word_size > 0,
        ensures
            ({
                let named = var.space.type_ == ConstType::Spaceid;
                let sz: u32 = if size == 0 && named { var.space.value_spaceid->0.addr_size } else { size };
                let off = if var.offset.type_ == ConstType::Real && named {
                    ConstTpl::spec_real_const(
                        ConstType::Real,
                        (var.offset.value_real / (var.space.value_spaceid->0.word_size as u64)) as u64,
                    )
                } else {
                    var.offset
                };
                r == VarnodeTpl {
                    space: ConstTpl::spec_space_const(self.constantspace),
                    offset: off,
                    size: ConstTpl::spec_real_const(ConstType::Real, sz as u64),
                    unnamed_flag: false,
                }
            }),
    {
        let mut size = size;
        if size == 0 {
            if var.space.type_ == ConstType::Spaceid {
                let spc = var.space.get_space();
                size = spc.get_addr_size();
            }
        }
        if var.offset.type_ == ConstType::Real && var.space.type_ == ConstType::Spaceid {
            let spc = var.space.get_space();
            let off = AddrSpace::byte_to_address(var.offset.value_real, spc.get_word_size());
            VarnodeTpl::new(
                ConstTpl::new_space(self.constantspace),
                ConstTpl::new_real(ConstType::Real, off),
                ConstTpl::new_real(ConstType::Real, size as u64),
            )
        } else {
            VarnodeTpl::new(
                ConstTpl::new_space(self.constantspace),
                var.offset,
                ConstTpl::new_real(ConstType::Real, size as u64),
            )
        }
    }
}


/// Forcing `size` onto `vt`, a varnode outside the ops `ops` (see
/// [`force_size`]): whether it succeeded, the new varnode, the new ops.
pub open spec fn forced_ext(vt: VarnodeTpl, size: ConstTpl, ops: Seq<OpView>) -> (bool, VarnodeTpl, Seq<OpView>) {
    if !vn_zero_size(vt) {
        (true, vt, ops)
    } else if !vt.spec_is_local_temp() {
        (true, with_size(vt, size), ops)
    } else {
        (!any_clash(ops, vt.offset, size), with_size(vt, size), all_resized(ops, vt.offset, size))
    }
}

/// The mask clearing bits `bitoffset..bitoffset+numbits` of a 64-bit value
/// (shift counts are taken modulo 64, as `wrapping_shl` takes them).
pub open spec fn clear_mask(bitoffset: u32, numbits: u32) -> u64 {
    !((2u64.wrapping_shl(numbits.wrapping_sub(1))).wrapping_sub(1).wrapping_shl(bitoffset))
}

/// The first check of a bit-range assignment to `vn`: 0 when it is fine,
/// 1 for an empty range, 2 for a range outside the varnode's known size,
/// 3 for a range covering the whole varnode.
pub open spec fn assign_check(vn: VarnodeTpl, bitoffset: u32, numbits: u32) -> u8 {
    let symbits = (vn.size.value_real as u32).wrapping_mul(8);
    if vn.size.type_ == ConstType::Real && (bitoffset >= symbits || bitoffset.wrapping_add(numbits) > symbits) {
        2
    } else if vn.size.type_ == ConstType::Real && bitoffset == 0 && numbits == symbits {
        3
    } else if numbits == 0 {
        1
    } else {
        0
    }
}

/// Does the right side of a bit-range assignment need zero extension: yes
/// unless `vn`'s known size is at most the range's byte size?
pub open spec fn assign_zext_needed(vn: VarnodeTpl, numbits: u32) -> bool {
    let symsize = vn.size.value_real as u32;
    if vn.size.type_ == ConstType::Real && symsize > 0 {
        symsize > numbits.wrapping_add(7) / 8
    } else {
        true
    }
}

/// The ops of a bit-range assignment `vn[bitoffset, numbits] = rhs` when no
/// truncated varnode names the range: clear the bits of `vn` into a
/// temporary, zero-extend and shift the right side as needed, and or the
/// two into `vn`.  `rhs_out` and `rhs_ops` are the right side after its
/// size was forced, `tb` the first temporary offset.
pub open spec fn bitrange_assign_ops(
    vn: VarnodeTpl,
    bitoffset: u32,
    numbits: u32,
    rhs_out: VarnodeTpl,
    rhs_ops: Seq<OpView>,
    uniq: AddrSpace,
    cs: AddrSpace,
    tb: u32,
) -> Seq<OpView> {
    let and_op = op_out(temp_vn(uniq, tb), OpCode::CPUI_INT_AND, seq![vn, const_vn(cs, clear_mask(bitoffset, numbits), 0)]);
    let tb1 = next_temp(tb);
    let zext = assign_zext_needed(vn, numbits);
    let out2 = if zext { temp_vn(uniq, tb1) } else { rhs_out };
    let zops = if zext { seq![op_out(temp_vn(uniq, tb1), OpCode::CPUI_INT_ZEXT, seq![rhs_out])] } else { Seq::empty() };
    let tb2 = if zext { next_temp(tb1) } else { tb1 };
    let out3 = if bitoffset != 0 { temp_vn(uniq, tb2) } else { out2 };
    let sops = if bitoffset != 0 {
        seq![op_out(temp_vn(uniq, tb2), OpCode::CPUI_INT_LEFT, seq![out2, const_vn(cs, bitoffset as u64, 4)])]
    } else {
        Seq::empty()
    };
    seq![and_op] + rhs_ops + zops + sops + seq![op_out(vn, OpCode::CPUI_INT_OR, seq![temp_vn(uniq, tb), out3])]
}

/// How many temporaries [`bitrange_assign_ops`] takes.
pub open spec fn bitrange_assign_temps(vn: VarnodeTpl, bitoffset: u32, numbits: u32) -> u32 {
    let tb0: u32 = 1;
    let z: u32 = if assign_zext_needed(vn, numbits) { 1 } else { 0 };
    let s: u32 = if bitoffset != 0 { 1 } else { 0 };
    (tb0 + z + s) as u32
}

/// The offset `n` temporaries after `b`.
pub open spec fn temps_after(b: u32, n: nat) -> u32
    decreases n,
{
    if n == 0 {
        b
    } else {
        next_temp(temps_after(b, (n - 1) as nat))
    }
}

/// The message of a bit-range assignment problem.
pub open spec fn assign_msg(code: u8) -> Seq<u8> {
    if code == 1 {
        "Size of bitrange is zero".spec_bytes()
    } else if code == 2 {
        "Assigned bitrange is bad".spec_bytes()
    } else if code == 3 {
        "Assigning to bitrange is superfluous".spec_bytes()
    } else {
        "Assigned bitrange extends past first 64 bits".spec_bytes()
    }
}

fn assign_msg_exec(code: u8) -> (r: &'static [u8])
    ensures
        r@ == assign_msg(code),
{
    if code == 1 {
        "Size of bitrange is zero".as_bytes()
    } else if code == 2 {
        "Assigned bitrange is bad".as_bytes()
    } else if code == 3 {
        "Assigning to bitrange is superfluous".as_bytes()
    } else {
        "Assigned bitrange extends past first 64 bits".as_bytes()
    }
}

impl PcodeCompile {
    /// The statement `vn[bitoffset, numbits] = rhs`: the right side is sized
    /// to the range's bytes and copied into a truncated varnode when one
    /// names the range, else masked in with and/shift/or ops.  A bad range is
    /// reported and the right side's ops are kept as they are.
    pub fn assign_bit_range(&mut self, vn: VarnodeTpl, bitoffset: u32, numbits: u32, rhs: ExprTree) -> (r:
        Result<Vec<OpTpl>, CompileError>)
        requires
            rhs.wf(),
        ensures
            assign_check(vn, bitoffset, numbits) != 0 ==> {
                &&& r matches Ok(v) && v@ == rhs.ops@
                &&& final(self).reported(*old(self), assign_msg(assign_check(vn, bitoffset, numbits)))
            },
            assign_check(vn, bitoffset, numbits) == 0 ==> ({
                let small = ConstTpl::spec_real_const(ConstType::Real, (numbits.wrapping_add(7) / 8) as u64);
                let f = forced_ext(rhs.outvn->0, small, ops_view(rhs.ops@));
                let tr = truncated_varnode(vn, bitoffset, numbits, old(self).defaultspace.big_endian);
                if !f.0 {
                    r == Err::<Vec<OpTpl>, CompileError>(CompileError::LocaltempSizeMismatch)
                } else {
                    match tr {
                        Err(e) => r == Err::<Vec<OpTpl>, CompileError>(e),
                        Ok(Some(fv)) => {
                            &&& (r matches Ok(v) && ops_view(v@) == f.2.push(op_out(fv, OpCode::CPUI_COPY, seq![f.1])))
                            &&& *final(self) == *old(self)
                        },
                        Ok(None) => {
                            &&& (r matches Ok(v) && ops_view(v@) == bitrange_assign_ops(
                                vn,
                                bitoffset,
                                numbits,
                                f.1,
                                f.2,
                                old(self).uniqspace,
                                old(self).constantspace,
                                old(self).tempbase,
                            ))
                            &&& final(self).tempbase == temps_after(
                                old(self).tempbase,
                                bitrange_assign_temps(vn, bitoffset, numbits) as nat,
                            )
                            &&& (bitoffset.wrapping_add(numbits) > 64 ==> final(self).errorcount == (if old(
                                self,
                            ).errorcount < i32::MAX {
                                old(self).errorcount + 1
                            } else {
                                old(self).errorcount as int
                            }))
                            &&& (bitoffset.wrapping_add(numbits) <= 64 ==> final(self).errorcount == old(self).errorcount)
                        },
                    }
                }
            }),
            r matches Ok(v) ==> ops_ok(v@),
            final(self).same_scope(*old(self)),
            final(self).errorcount >= old(self).errorcount,
    {
        let mut rhs = rhs;
        let code: u8 = if vn.size.type_ == ConstType::Real && (bitoffset >= (vn.size.value_real as u32).wrapping_mul(8)
            || bitoffset.wrapping_add(numbits) > (vn.size.value_real as u32).wrapping_mul(8)) {
            2
        } else if vn.size.type_ == ConstType::Real && bitoffset == 0 && numbits == (vn.size.value_real as u32).wrapping_mul(8) {
            3
        } else if numbits == 0 {
            1
        } else {
            0
        };
        let smallsize = numbits.wrapping_add(7) / 8;
        let shiftneeded = bitoffset != 0;
        let zextneeded = if vn.size.type_ == ConstType::Real && (vn.size.value_real as u32) > 0 {
            (vn.size.value_real as u32) > smallsize
        } else {
            true
        };
        let mask: u64 = !((2u64.wrapping_shl(numbits.wrapping_sub(1))).wrapping_sub(1).wrapping_shl(bitoffset));
        if code != 0 {
            self.report_error(None, assign_msg_exec(code));
            return Ok(rhs.ops);
        }
        let small = ConstTpl::new_real(ConstType::Real, smallsize as u64);
        let mut out = rhs.outvn.unwrap();
        let ghost ops0 = rhs.ops@;
        let fres = force_size(&mut out, &small, &mut rhs.ops);
        if fres.is_err() {
            return Err(CompileError::LocaltempSizeMismatch);
        }
        rhs.outvn = Some(out);
        proof {
            lemma_ok_shape(ops0, rhs.ops@);
            assert(rhs.ops@.len() == ops0.len());
            if out.unnamed_flag {
                assert(old(self).tempbase == self.tempbase);
            }
        }
        let finalout = self.build_truncated_varnode(&vn, bitoffset, numbits);
        let res = match finalout {
            Err(e) => {
                return Err(e);
            },
            Ok(Some(fv)) => {
                let e = self.create_op_out_unary(fv, OpCode::CPUI_COPY, rhs);
                proof {
                    assert(ops_view(e.ops@) =~= ops_view(rhs.ops@).push(e.ops@.last()@));
                }
                e
            },
            Ok(None) => {
                let past = bitoffset.wrapping_add(numbits) > 64;
                let e = self.bitrange_or(vn, bitoffset, numbits, rhs);
                if past {
                    self.report_error(None, assign_msg_exec(4));
                }
                e
            },
        };
        Ok(res.ops)
    }
}


impl PcodeCompile {
    /// The and/shift/or ops of a bit-range assignment whose range no
    /// truncated varnode names (see [`bitrange_assign_ops`]).
    fn bitrange_or(&mut self, vn: VarnodeTpl, bitoffset: u32, numbits: u32, rhs: ExprTree) -> (e: ExprTree)
        requires
            rhs.outvn is Some,
        ensures
            ops_view(e.ops@) == bitrange_assign_ops(
                vn,
                bitoffset,
                numbits,
                rhs.outvn->0,
                ops_view(rhs.ops@),
                old(self).uniqspace,
                old(self).constantspace,
                old(self).tempbase,
            ),
            final(self).tempbase == temps_after(old(self).tempbase, bitrange_assign_temps(vn, bitoffset, numbits) as nat),
            *final(self) == (PcodeCompile { tempbase: final(self).tempbase, ..*old(self) }),
            rhs.wf() ==> e.wf(),
    {
        let shiftneeded = bitoffset != 0;
        let smallsize = numbits.wrapping_add(7) / 8;
        let zextneeded = if vn.size.type_ == ConstType::Real && (vn.size.value_real as u32) > 0 {
            (vn.size.value_real as u32) > smallsize
        } else {
            true
        };
        let mask: u64 = !((2u64.wrapping_shl(numbits.wrapping_sub(1))).wrapping_sub(1).wrapping_shl(bitoffset));
        let mut lhs = ExprTree::new(vn);
        let ghost tb0 = self.tempbase;
        self.append_op(OpCode::CPUI_INT_AND, &mut lhs, mask, 0);
        let ghost rops = ops_view(rhs.ops@);
        let ghost rout = rhs.outvn->0;
        let ghost tb1 = self.tempbase;
        let ghost r0 = rhs.ops@;
        let mut rhs2 = rhs;
        if zextneeded {
        rhs2 = self.create_op(OpCode::CPUI_INT_ZEXT, rhs2);
        proof {
            lemma_ops_view_push(r0, rhs2.ops@.last());
            assert(rhs2.ops@ =~= r0.push(rhs2.ops@.last()));
        }
        }
        let ghost zops: Seq<OpView> = if zextneeded {
        seq![op_out(temp_vn(self.uniqspace, tb1), OpCode::CPUI_INT_ZEXT, seq![rout])]
        } else {
        Seq::empty()
        };
        assert(ops_view(rhs2.ops@) == rops + zops);
        let ghost tb2 = self.tempbase;
        let ghost out2 = rhs2.outvn->0;
        let ghost r1 = rhs2.ops@;
        if shiftneeded {
        self.append_op(OpCode::CPUI_INT_LEFT, &mut rhs2, bitoffset as u64, 4);
        proof {
            lemma_ops_view_push(r1, rhs2.ops@.last());
            assert(rhs2.ops@ =~= r1.push(rhs2.ops@.last()));
        }
        }
        let ghost sops: Seq<OpView> = if shiftneeded {
        seq![op_out(temp_vn(self.uniqspace, tb2), OpCode::CPUI_INT_LEFT, seq![out2, const_vn(self.constantspace, bitoffset as u64, 4)])]
        } else {
        Seq::empty()
        };
        assert(ops_view(rhs2.ops@) == rops + zops + sops);
        let ghost l0 = lhs.ops@;
        let ghost r2 = rhs2.ops@;
        let ghost out3 = rhs2.outvn->0;
        let e = self.create_op_out(vn, OpCode::CPUI_INT_OR, lhs, rhs2);
        proof {
        assert(l0 =~= seq![l0[0]]);
        assert(ops_view(l0) =~= seq![op_out(temp_vn(old(self).uniqspace, tb0), OpCode::CPUI_INT_AND, seq![vn, const_vn(old(self).constantspace, clear_mask(bitoffset, numbits), 0)])]);
        lemma_ops_view_concat(l0, r2);
        assert(e.ops@ =~= (l0 + r2).push(e.ops@.last()));
        lemma_ops_view_push(l0 + r2, e.ops@.last());
        assert(ops_view(e.ops@) =~= bitrange_assign_ops(
            vn,
            bitoffset,
            numbits,
            rout,
            rops,
            old(self).uniqspace,
            old(self).constantspace,
            tb0,
        ));
        }
        proof {
            reveal_with_fuel(temps_after, 4);
        }
        e
    }
}


/// The decisions of a bit-range read `vn[bitoffset, numbits]` that no
/// truncated varnode names: the problem code (0 none, 1 empty range,
/// 5 range outside the varnode, 6 range that is the whole varnode, 7 masked
/// range wider than 64 bits), the right shift, whether a truncation is
/// needed and by how many bytes, and whether a mask is needed.
pub open spec fn bitrange_plan(vn: VarnodeTpl, bitoffset: u32, numbits: u32) -> (u8, u32, bool, u32, bool) {
    let finalsize = numbits.wrapping_add(7) / 8;
    let is_real = vn.size.type_ == ConstType::Real;
    let insize = vn.size.value_real as u32;
    let sized = is_real && insize > 0;
    let insize8 = insize.wrapping_mul(8);
    let truncneeded = if sized { finalsize < insize } else { true };
    let bad = sized && (bitoffset >= insize8 || bitoffset.wrapping_add(numbits) > insize8);
    let maskneeded = numbits % 8 != 0 && !(sized && bitoffset.wrapping_add(numbits) == insize8);
    let aligned = truncneeded && bitoffset % 8 == 0;
    let truncshift: u32 = if aligned { bitoffset / 8 } else { 0 };
    let shift: u32 = if aligned { 0 } else { bitoffset };
    let code: u8 = if maskneeded && finalsize > 8 {
        7
    } else if shift == 0 && !truncneeded && !maskneeded {
        6
    } else if bad {
        5
    } else if numbits == 0 {
        1
    } else {
        0
    };
    (code, shift, truncneeded, truncshift, maskneeded)
}

/// The message of a bit-range read problem; `name` is the symbol read.
pub open spec fn bitrange_msg(code: u8, name: Seq<u8>) -> Seq<u8> {
    if code == 1 {
        "Size of bitrange is zero".spec_bytes()
    } else if code == 5 {
        "Bitrange is bad".spec_bytes()
    } else if code == 6 {
        "Superfluous bitrange".spec_bytes()
    } else {
        "Illegal masked bitrange producing varnode larger than 64 bits: ".spec_bytes() + name
    }
}

fn bitrange_msg_exec(code: u8, name: &[u8]) -> (r: Vec<u8>)
    ensures
        r@ == bitrange_msg(code, name@),
{
    let empty: [u8; 0] = [];
    if code == 1 {
        concat3("Size of bitrange is zero".as_bytes(), &empty, &empty)
    } else if code == 5 {
        concat3("Bitrange is bad".as_bytes(), &empty, &empty)
    } else if code == 6 {
        concat3("Superfluous bitrange".as_bytes(), &empty, &empty)
    } else {
        concat3("Illegal masked bitrange producing varnode larger than 64 bits: ".as_bytes(), name, &empty)
    }
}

/// The ops of a bit-range read of `vn` by the plan `(_, shift, trunc,
/// truncshift, mask)`: a right shift, a truncation and a mask as needed,
/// each into a fresh temporary from offset `tb` on.  The result is the ops,
/// the final output and the number of temporaries taken.
pub open spec fn bitrange_read_ops(
    vn: VarnodeTpl,
    numbits: u32,
    plan: (u8, u32, bool, u32, bool),
    uniq: AddrSpace,
    cs: AddrSpace,
    tb: u32,
) -> (Seq<OpView>, VarnodeTpl, nat) {
    let finalsize = numbits.wrapping_add(7) / 8;
    let mask = (2u64.wrapping_shl(numbits.wrapping_sub(1))).wrapping_sub(1);
    let n1: nat = if plan.1 != 0 { 1 } else { 0 };
    let out1 = if plan.1 != 0 { temp_vn(uniq, tb) } else { vn };
    let ops1: Seq<OpView> = if plan.1 != 0 {
        seq![op_out(temp_vn(uniq, tb), OpCode::CPUI_INT_RIGHT, seq![vn, const_vn(cs, plan.1 as u64, 4)])]
    } else {
        Seq::empty()
    };
    let t2 = temps_after(tb, n1);
    let n2: nat = if plan.2 { n1 + 1 } else { n1 };
    let out2 = if plan.2 { temp_vn(uniq, t2) } else { out1 };
    let ops2: Seq<OpView> = if plan.2 {
        ops1.push(op_out(temp_vn(uniq, t2), OpCode::CPUI_SUBPIECE, seq![out1, const_vn(cs, plan.3 as u64, 4)]))
    } else {
        ops1
    };
    let t3 = temps_after(tb, n2);
    let n3: nat = if plan.4 { n2 + 1 } else { n2 };
    let out3 = if plan.4 { temp_vn(uniq, t3) } else { out2 };
    let ops3: Seq<OpView> = if plan.4 {
        ops2.push(op_out(temp_vn(uniq, t3), OpCode::CPUI_INT_AND, seq![out2, const_vn(cs, mask, ((finalsize as i32) as i64) as u64)]))
    } else {
        ops2
    };
    (ops3, out3, n3)
}

impl PcodeCompile {
    /// The expression reading bits `bitoffset..bitoffset+numbits` of `vn`
    /// (the symbol `sym_name`), shifted down and truncated to the fewest
    /// whole bytes.  An operand of unknown size read from bit 0 in whole
    /// bytes simply gets that size; a range a truncated varnode names is
    /// read directly; otherwise shift, truncation and mask ops are built
    /// (see [`bitrange_plan`]).  A bad range is reported and `vn` itself is
    /// the expression.
    pub fn create_bit_range(&mut self, vn: VarnodeTpl, sym_name: &[u8], bitoffset: u32, numbits: u32) -> (r: Result<
        ExprTree,
        CompileError,
    >)
        ensures
            ({
                let finalsize = numbits.wrapping_add(7) / 8;
                let fast = numbits != 0 && bitoffset == 0 && numbits % 8 == 0 && vn.space.type_ == ConstType::Handle
                    && vn_zero_size(vn);
                let tr = truncated_varnode(vn, bitoffset, numbits, old(self).defaultspace.big_endian);
                let plan = bitrange_plan(vn, bitoffset, numbits);
                let rd = bitrange_read_ops(vn, numbits, plan, old(self).uniqspace, old(self).constantspace, old(self).tempbase);
                let fx = forced_ext(rd.1, ConstTpl::spec_real_const(ConstType::Real, finalsize as u64), rd.0);
                if fast {
                    &&& r matches Ok(e) && e.ops@.len() == 0 && e.outvn == Some(
                        with_size(vn, ConstTpl::spec_real_const(ConstType::Real, finalsize as u64)),
                    )
                    &&& *final(self) == *old(self)
                } else if numbits != 0 && tr is Err {
                    r == Err::<ExprTree, CompileError>(tr->Err_0)
                } else if numbits != 0 && tr is Ok && tr->Ok_0 is Some {
                    &&& r matches Ok(e) && e.ops@.len() == 0 && e.outvn == tr->Ok_0
                    &&& *final(self) == *old(self)
                } else if plan.0 != 0 {
                    &&& r matches Ok(e) && e.ops@.len() == 0 && e.outvn == Some(vn)
                    &&& final(self).reported(*old(self), bitrange_msg(plan.0, sym_name@))
                } else {
                    &&& (r is Ok) == fx.0
                    &&& (r matches Ok(e) ==> ops_view(e.ops@) == fx.2 && e.outvn == Some(fx.1))
                    &&& (r is Err ==> r == Err::<ExprTree, CompileError>(CompileError::LocaltempSizeMismatch))
                    &&& final(self).tempbase == temps_after(old(self).tempbase, rd.2)
                    &&& *final(self) == (PcodeCompile { tempbase: final(self).tempbase, ..*old(self) })
                }
            }),
            !vn.unnamed_flag ==> (r matches Ok(e) ==> e.wf()),
            final(self).same_scope(*old(self)),
            final(self).errorcount >= old(self).errorcount,
    {
        let finalsize = numbits.wrapping_add(7) / 8;
        if numbits != 0 && bitoffset == 0 && numbits % 8 == 0 && vn.space.type_ == ConstType::Handle && vn.is_zero_size() {
            let mut v2 = vn;
            v2.set_size(ConstTpl::new_real(ConstType::Real, finalsize as u64));
            return Ok(ExprTree::new(v2));
        }
        if numbits != 0 {
            let truncvn = self.build_truncated_varnode(&vn, bitoffset, numbits);
            match truncvn {
                Err(e) => {
                    return Err(e);
                },
                Ok(Some(t)) => {
                    return Ok(ExprTree::new(t));
                },
                Ok(None) => {},
            }
        }
        self.bitrange_read(vn, sym_name, bitoffset, numbits)
    }
}


impl PcodeCompile {
    /// The general case of [`PcodeCompile::create_bit_range`]: shift,
    /// truncation and mask ops by [`bitrange_plan`], or the reported problem.
    #[verifier::rlimit(60)]
    fn bitrange_read(&mut self, vn: VarnodeTpl, sym_name: &[u8], bitoffset: u32, numbits: u32) -> (r: Result<
        ExprTree,
        CompileError,
    >)
        ensures
            ({
                let finalsize = numbits.wrapping_add(7) / 8;
                let plan = bitrange_plan(vn, bitoffset, numbits);
                let rd = bitrange_read_ops(vn, numbits, plan, old(self).uniqspace, old(self).constantspace, old(self).tempbase);
                let fx = forced_ext(rd.1, ConstTpl::spec_real_const(ConstType::Real, finalsize as u64), rd.0);
                if plan.0 != 0 {
                    &&& r matches Ok(e) && e.ops@.len() == 0 && e.outvn == Some(vn)
                    &&& final(self).reported(*old(self), bitrange_msg(plan.0, sym_name@))
                } else {
                    &&& (r is Ok) == fx.0
                    &&& (r matches Ok(e) ==> ops_view(e.ops@) == fx.2 && e.outvn == Some(fx.1))
                    &&& (r is Err ==> r == Err::<ExprTree, CompileError>(CompileError::LocaltempSizeMismatch))
                    &&& final(self).tempbase == temps_after(old(self).tempbase, rd.2)
                    &&& *final(self) == (PcodeCompile { tempbase: final(self).tempbase, ..*old(self) })
                }
            }),
            !vn.unnamed_flag ==> (r matches Ok(e) ==> e.wf()),
            final(self).same_scope(*old(self)),
            final(self).errorcount >= old(self).errorcount,
    {
        let finalsize = numbits.wrapping_add(7) / 8;
        let is_real = vn.size.type_ == ConstType::Real;
        let insize = vn.size.value_real as u32;
        let sized = is_real && insize > 0;
        let insize8 = insize.wrapping_mul(8);
        let truncneeded = if sized {
            finalsize < insize
        } else {
            true
        };
        let bad = sized && (bitoffset >= insize8 || bitoffset.wrapping_add(numbits) > insize8);
        let maskneeded = numbits % 8 != 0 && !(sized && bitoffset.wrapping_add(numbits) == insize8);
        let aligned = truncneeded && bitoffset % 8 == 0;
        let truncshift: u32 = if aligned {
            bitoffset / 8
        } else {
            0
        };
        let shift: u32 = if aligned {
            0
        } else {
            bitoffset
        };
        let code: u8 = if maskneeded && finalsize > 8 {
            7
        } else if shift == 0 && !truncneeded && !maskneeded {
            6
        } else if bad {
            5
        } else if numbits == 0 {
            1
        } else {
            0
        };
        let mask: u64 = (2u64.wrapping_shl(numbits.wrapping_sub(1))).wrapping_sub(1);
        let mut res = ExprTree::new(vn);
        if code != 0 {
            let msg = bitrange_msg_exec(code, sym_name);
            self.report_error(None, msg.as_slice());
            return Ok(res);
        }
        let ghost tb = self.tempbase;
        let ghost plan = bitrange_plan(vn, bitoffset, numbits);
        assert(plan == (code, shift, truncneeded, truncshift, maskneeded));
        let ghost rd = bitrange_read_ops(vn, numbits, plan, self.uniqspace, self.constantspace, tb);
        if shift != 0 {
            self.append_op(OpCode::CPUI_INT_RIGHT, &mut res, shift as u64, 4);
        }
        proof {
            reveal_with_fuel(temps_after, 2);
            assert(ops_view(res.ops@) =~= (if shift != 0 { seq![res.ops@[0]@] } else { Seq::empty() }));
        }
        let ghost r1 = res.ops@;
        if truncneeded {
            self.append_op(OpCode::CPUI_SUBPIECE, &mut res, truncshift as u64, 4);
            proof {
                lemma_ops_view_push(r1, res.ops@.last());
                assert(res.ops@ =~= r1.push(res.ops@.last()));
            }
        }
        let ghost r2 = res.ops@;
        if maskneeded {
            self.append_op(OpCode::CPUI_INT_AND, &mut res, mask, finalsize as i32);
            proof {
                lemma_ops_view_push(r2, res.ops@.last());
                assert(res.ops@ =~= r2.push(res.ops@.last()));
            }
        }
        proof {
            reveal_with_fuel(temps_after, 4);
            assert(ops_view(res.ops@) == rd.0);
            assert(res.outvn == Some(rd.1));
            assert(self.tempbase == temps_after(tb, rd.2));
        }
        let sz = ConstTpl::new_real(ConstType::Real, finalsize as u64);
        let mut out = res.outvn.unwrap();
        let ghost ops0 = res.ops@;
        let fres = force_size(&mut out, &sz, &mut res.ops);
        if fres.is_err() {
            return Err(CompileError::LocaltempSizeMismatch);
        }
        res.outvn = Some(out);
        proof {
            lemma_ok_shape(ops0, res.ops@);
        }
        Ok(res)
    }
}

/// The ops whose output and inputs all have one size: copies, integer and
/// floating-point arithmetic, and the bitwise operations.
pub open spec fn equal_size_op(opc: OpCode) -> bool {
    ||| opc == OpCode::CPUI_COPY
    ||| opc == OpCode::CPUI_INT_ADD
    ||| opc == OpCode::CPUI_INT_SUB
    ||| opc == OpCode::CPUI_INT_2COMP
    ||| opc == OpCode::CPUI_INT_NEGATE
    ||| opc == OpCode::CPUI_INT_XOR
    ||| opc == OpCode::CPUI_INT_AND
    ||| opc == OpCode::CPUI_INT_OR
    ||| opc == OpCode::CPUI_INT_MULT
    ||| opc == OpCode::CPUI_INT_DIV
    ||| opc == OpCode::CPUI_INT_SDIV
    ||| opc == OpCode::CPUI_INT_REM
    ||| opc == OpCode::CPUI_INT_SREM
    ||| opc == OpCode::CPUI_FLOAT_ADD
    ||| opc == OpCode::CPUI_FLOAT_DIV
    ||| opc == OpCode::CPUI_FLOAT_MULT
    ||| opc == OpCode::CPUI_FLOAT_SUB
    ||| opc == OpCode::CPUI_FLOAT_NEG
    ||| opc == OpCode::CPUI_FLOAT_ABS
    ||| opc == OpCode::CPUI_FLOAT_SQRT
    ||| opc == OpCode::CPUI_FLOAT_CEIL
    ||| opc == OpCode::CPUI_FLOAT_FLOOR
    ||| opc == OpCode::CPUI_FLOAT_ROUND
}

/// `vn` with size `sz` if it has none yet.
pub open spec fn sized_or(vn: VarnodeTpl, sz: ConstTpl) -> VarnodeTpl {
    if vn_zero_size(vn) { with_size(vn, sz) } else { vn }
}

/// Op `k` of `ops` with its first `i` inputs given size `sz` where they
/// have none.
spec fn inputs_sized_upto(ops: Seq<OpView>, k: int, i: int, sz: ConstTpl) -> Seq<OpView> {
    let op = ops[k];
    ops.update(k, (op.0, op.1, Seq::new(op.2.len(), |t: int| if t < i { sized_or(op.2[t], sz) } else { op.2[t] })))
}

/// Where the zero-size inputs of op `k` take their size from is `sz`: the
/// output when it has that size (and not only inputs count), else the
/// first input that has a size.
spec fn source_is(ops: Seq<OpView>, k: int, sz: ConstTpl, inputonly: bool) -> bool {
    if inputonly {
        first_sized(ops[k].2) == Some(sz)
    } else {
        ops[k].0 matches Some(o) && !vn_zero_size(o) && o.size == sz
    }
}

/// Giving zero-size varnodes of a list the size its first sized varnode
/// has keeps that the first size found.
proof fn lemma_first_sized_kept(v: Seq<VarnodeTpl>, w: Seq<VarnodeTpl>, sz: ConstTpl)
    requires
        first_sized(v) == Some(sz),
        w.len() == v.len(),
        forall|t: int| 0 <= t < v.len() ==> #[trigger] w[t] == v[t] || (vn_zero_size(v[t]) && w[t].size == sz),
    ensures
        first_sized(w) == Some(sz),
    decreases v.len(),
{
    lemma_first_sized_known(v);
    if vn_zero_size(v[0]) && w[0] == v[0] {
        assert forall|t: int| 0 <= t < v.drop_first().len() implies #[trigger] w.drop_first()[t] == v.drop_first()[t]
            || (vn_zero_size(v.drop_first()[t]) && w.drop_first()[t].size == sz) by {
            assert(w[t + 1] == v[t + 1] || (vn_zero_size(v[t + 1]) && w[t + 1].size == sz));
        }
        lemma_first_sized_kept(v.drop_first(), w.drop_first(), sz);
    }
}

/// Filling the inputs `i..` of an op whose size source is `sz`, and none
/// of whose inputs is a temporary, gives each zero-size one that size.
proof fn lemma_fill_inputs_from_source(ops: Seq<OpView>, k: int, i: int, sz: ConstTpl, inputonly: bool)
    requires
        0 <= k < ops.len(),
        0 <= i <= ops[k].2.len(),
        source_is(ops, k, sz, inputonly),
        forall|t: int| 0 <= t < ops[k].2.len() ==> !(#[trigger] ops[k].2[t]).spec_is_local_temp(),
    ensures
        fill_inputs((true, inputs_sized_upto(ops, k, i, sz)), k, i, ops[k].2.len() as int, inputonly)
            == (true, inputs_sized_upto(ops, k, ops[k].2.len() as int, sz)),
    decreases ops[k].2.len() - i,
{
    let n = ops[k].2.len() as int;
    let cur = inputs_sized_upto(ops, k, i, sz);
    if i < n {
        let nxt = inputs_sized_upto(ops, k, i + 1, sz);
        assert(cur[k].2[i] == ops[k].2[i]);
        if inputonly {
            assert forall|t: int| 0 <= t < ops[k].2.len() implies #[trigger] cur[k].2[t] == ops[k].2[t]
                || (vn_zero_size(ops[k].2[t]) && cur[k].2[t].size == sz) by {
            }
            lemma_first_sized_kept(ops[k].2, cur[k].2, sz);
        }
        assert(match_source(cur[k], inputonly) == Some(sz));
        if vn_zero_size(ops[k].2[i]) {
            assert(slot_vn(cur[k], i) == ops[k].2[i]);
            assert(cur[k].2.update(i, with_size(cur[k].2[i], sz)) =~= nxt[k].2);
            assert(cur.update(k, with_slot_size(cur[k], i, sz)) =~= nxt);
            assert(matched(cur, k, i, inputonly) == (true, nxt));
        } else {
            assert(cur[k].2 =~= nxt[k].2);
            assert(cur =~= nxt);
        }
        lemma_fill_inputs_from_source(ops, k, i + 1, sz, inputonly);
    }
}

/// Filling the inputs `i..` of an op none of whose inputs has a size, when
/// only inputs count, changes nothing.
proof fn lemma_fill_inputs_no_source(ops: Seq<OpView>, k: int, i: int)
    requires
        0 <= k < ops.len(),
        0 <= i <= ops[k].2.len(),
        first_sized(ops[k].2) is None,
    ensures
        fill_inputs((true, ops), k, i, ops[k].2.len() as int, true) == (true, ops),
    decreases ops[k].2.len() - i,
{
    if i < ops[k].2.len() {
        lemma_fill_inputs_no_source(ops, k, i + 1);
    }
}

/// Size filling gives every zero-size varnode of an op whose varnodes all
/// have one size (a copy, an arithmetic or a bitwise op) the size that the
/// op's output has, or else that of its first input that has one, when
/// none of them is a temporary; the other varnodes and ops stay as they
/// are, and filling succeeds.
pub proof fn lemma_equal_size_ops_filled(ops: Seq<OpView>, k: int)
    requires
        0 <= k < ops.len(),
        equal_size_op(ops[k].1),
        ops[k].0 matches Some(o) && !o.spec_is_local_temp(),
        forall|t: int| 0 <= t < ops[k].2.len() ==> !(#[trigger] ops[k].2[t]).spec_is_local_temp(),
        match_source(ops[k], false) is Some,
    ensures
        ({
            let sz = match_source(ops[k], false)->0;
            let op = ops[k];
            &&& known_size(sz)
            &&& filled(ops, k).0
            &&& filled(ops, k).1 == ops.update(k, (
                Some(sized_or(op.0->0, sz)),
                op.1,
                op.2.map_values(|v: VarnodeTpl| sized_or(v, sz)),
            ))
        }),
{
    let sz = match_source(ops[k], false)->0;
    let op = ops[k];
    let o = op.0->0;
    if !vn_zero_size(o) {
        assert(sz == o.size);
    } else {
        lemma_first_sized_known(op.2);
    }
    assert(same_size_class(op.1));
    let base = ops.update(k, (Some(sized_or(o, sz)), op.1, op.2));
    let s1 = if vn_zero_size(o) { matched(ops, k, -1, false) } else { (true, ops) };
    if vn_zero_size(o) {
        assert(slot_vn(ops[k], -1) == o);
        assert(ops.update(k, with_slot_size(ops[k], -1, sz)) =~= base);
        assert(s1 == (true, base));
    } else {
        assert(base =~= ops);
    }
    assert(inputs_sized_upto(base, k, 0, sz)[k].2 =~= op.2);
    assert(inputs_sized_upto(base, k, 0, sz) =~= base);
    lemma_fill_inputs_from_source(base, k, 0, sz, false);
    let fin = inputs_sized_upto(base, k, op.2.len() as int, sz);
    assert(fin[k].2 =~= op.2.map_values(|v: VarnodeTpl| sized_or(v, sz)));
    assert(fin =~= ops.update(k, (Some(sized_or(o, sz)), op.1, op.2.map_values(|v: VarnodeTpl| sized_or(v, sz)))));
}

/// The ops whose output is a boolean: the comparisons, the carry and
/// borrow tests, the NaN test and the boolean operations.
pub open spec fn boolean_result_op(opc: OpCode) -> bool {
    ||| opc == OpCode::CPUI_INT_EQUAL
    ||| opc == OpCode::CPUI_INT_NOTEQUAL
    ||| opc == OpCode::CPUI_INT_SLESS
    ||| opc == OpCode::CPUI_INT_SLESSEQUAL
    ||| opc == OpCode::CPUI_INT_LESS
    ||| opc == OpCode::CPUI_INT_LESSEQUAL
    ||| opc == OpCode::CPUI_INT_CARRY
    ||| opc == OpCode::CPUI_INT_SCARRY
    ||| opc == OpCode::CPUI_INT_SBORROW
    ||| opc == OpCode::CPUI_FLOAT_EQUAL
    ||| opc == OpCode::CPUI_FLOAT_NOTEQUAL
    ||| opc == OpCode::CPUI_FLOAT_LESS
    ||| opc == OpCode::CPUI_FLOAT_LESSEQUAL
    ||| opc == OpCode::CPUI_FLOAT_NAN
    ||| opc == OpCode::CPUI_BOOL_NEGATE
    ||| opc == OpCode::CPUI_BOOL_XOR
    ||| opc == OpCode::CPUI_BOOL_AND
    ||| opc == OpCode::CPUI_BOOL_OR
}

/// Size filling gives a boolean-result op without a size on its output a
/// one-byte output, and every zero-size input the size of the op's first
/// input that has one (inputs stay as they are when none has), when none
/// of its varnodes is a temporary; the other ops stay as they are, and
/// filling succeeds.
pub proof fn lemma_boolean_ops_filled(ops: Seq<OpView>, k: int)
    requires
        0 <= k < ops.len(),
        boolean_result_op(ops[k].1),
        ops[k].0 matches Some(o) && !o.spec_is_local_temp(),
        forall|t: int| 0 <= t < ops[k].2.len() ==> !(#[trigger] ops[k].2[t]).spec_is_local_temp(),
    ensures
        ({
            let op = ops[k];
            let one = ConstTpl { type_: ConstType::Real, value_spaceid: None, value_handle_index: 0, value_real: 1, select: VField::VSpace };
            &&& filled(ops, k).0
            &&& filled(ops, k).1 == ops.update(k, (
                Some(sized_or(op.0->0, one)),
                op.1,
                match first_sized(op.2) {
                    Some(sz) => op.2.map_values(|v: VarnodeTpl| sized_or(v, sz)),
                    None => op.2,
                },
            ))
        }),
{
    let op = ops[k];
    let o = op.0->0;
    let one = ConstTpl::spec_real_const(ConstType::Real, 1);
    assert(!same_size_class(op.1));
    assert(bool_out_class(op.1));
    let base = ops.update(k, (Some(sized_or(o, one)), op.1, op.2));
    if vn_zero_size(o) {
        assert(slot_vn(ops[k], -1) == o);
        assert(ops.update(k, with_slot_size(ops[k], -1, one)) =~= base);
    } else {
        assert(base =~= ops);
    }
    assert(base[k].2 == op.2);
    match first_sized(op.2) {
        Some(sz) => {
            assert(inputs_sized_upto(base, k, 0, sz)[k].2 =~= op.2);
            assert(inputs_sized_upto(base, k, 0, sz) =~= base);
            lemma_fill_inputs_from_source(base, k, 0, sz, true);
            let fin = inputs_sized_upto(base, k, op.2.len() as int, sz);
            assert(fin[k].2 =~= op.2.map_values(|v: VarnodeTpl| sized_or(v, sz)));
            assert(fin =~= ops.update(k, (Some(sized_or(o, one)), op.1, op.2.map_values(|v: VarnodeTpl| sized_or(v, sz)))));
        },
        None => {
            lemma_fill_inputs_no_source(base, k, 0);
        },
    }
}

/// Size filling of a shift (`INT_LEFT`, `INT_RIGHT`, `INT_SRIGHT`) or of
/// `SUBPIECE`, none of whose varnodes is a temporary: for a shift, a
/// zero-size output takes the size of the shifted input and a zero-size
/// shifted input that of the output; in both, a zero-size amount (the
/// second input) gets four bytes.  Nothing else changes, and filling
/// succeeds.
pub proof fn lemma_shift_ops_filled(ops: Seq<OpView>, k: int)
    requires
        0 <= k < ops.len(),
        ops[k].1 == OpCode::CPUI_INT_LEFT || ops[k].1 == OpCode::CPUI_INT_RIGHT
            || ops[k].1 == OpCode::CPUI_INT_SRIGHT || ops[k].1 == OpCode::CPUI_SUBPIECE,
        ops[k].0 matches Some(o) && !o.spec_is_local_temp(),
        ops[k].2.len() >= 2,
        forall|t: int| 0 <= t < ops[k].2.len() ==> !(#[trigger] ops[k].2[t]).spec_is_local_temp(),
    ensures
        ({
            let op = ops[k];
            let out = op.0->0;
            let a = op.2[0];
            let shift = op.1 != OpCode::CPUI_SUBPIECE;
            let four = ConstTpl { type_: ConstType::Real, value_spaceid: None, value_handle_index: 0, value_real: 4, select: VField::VSpace };
            let out2 = if shift && vn_zero_size(out) && !vn_zero_size(a) { with_size(out, a.size) } else { out };
            let a2 = if shift && !vn_zero_size(out) && vn_zero_size(a) { with_size(a, out.size) } else { a };
            &&& filled(ops, k).0
            &&& filled(ops, k).1 == ops.update(k, (Some(out2), op.1, op.2.update(0, a2).update(1, sized_or(op.2[1], four))))
        }),
{
    let op = ops[k];
    let out = op.0->0;
    let a = op.2[0];
    let shift = op.1 != OpCode::CPUI_SUBPIECE;
    let four = ConstTpl::spec_real_const(ConstType::Real, 4);
    let out2 = if shift && vn_zero_size(out) && !vn_zero_size(a) { with_size(out, a.size) } else { out };
    let a2 = if shift && !vn_zero_size(out) && vn_zero_size(a) { with_size(a, out.size) } else { a };
    assert(!same_size_class(op.1));
    assert(!bool_out_class(op.1));
    assert(shift_class(op.1));
    let mid = ops.update(k, (Some(out2), op.1, op.2.update(0, a2)));
    let s1 = if shift {
        if vn_zero_size(out) {
            if !vn_zero_size(a) { forced_at(ops, k, -1, a.size) } else { (true, ops) }
        } else if vn_zero_size(a) {
            forced_at(ops, k, 0, out.size)
        } else {
            (true, ops)
        }
    } else {
        (true, ops)
    };
    assert(slot_vn(ops[k], -1) == out);
    assert(slot_vn(ops[k], 0) == a);
    if shift && vn_zero_size(out) && !vn_zero_size(a) {
        assert(op.2.update(0, a2) =~= op.2);
        assert(ops.update(k, with_slot_size(ops[k], -1, a.size)) =~= mid);
    } else if shift && !vn_zero_size(out) && vn_zero_size(a) {
        assert(ops.update(k, with_slot_size(ops[k], 0, out.size)) =~= mid);
    } else {
        assert(op.2.update(0, a2) =~= op.2);
        assert(mid =~= ops);
    }
    assert(s1 == (true, mid));
    assert(mid[k].2[1] == op.2[1]);
    let fin = ops.update(k, (Some(out2), op.1, op.2.update(0, a2).update(1, sized_or(op.2[1], four))));
    if vn_zero_size(op.2[1]) {
        assert(slot_vn(mid[k], 1) == op.2[1]);
        assert(mid.update(k, with_slot_size(mid[k], 1, four)) =~= fin);
    } else {
        assert(op.2.update(0, a2).update(1, sized_or(op.2[1], four)) =~= op.2.update(0, a2));
        assert(mid =~= fin);
    }
}

/// The size `first_sized` finds is a known one.
proof fn lemma_first_sized_known(vs: Seq<VarnodeTpl>)
    requires
        first_sized(vs) is Some,
    ensures
        known_size(first_sized(vs)->0),
    decreases vs.len(),
{
    if vs.len() > 0 && vn_zero_size(vs[0]) {
        lemma_first_sized_known(vs.drop_first());
    }
}

} // verus!
