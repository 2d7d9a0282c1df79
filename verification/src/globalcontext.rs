//! Context variables packed into a blob of 32-bit words.
//!
//! A [`ContextBitRange`] describes one variable: a contiguous run of bits
//! inside a single word of the blob.  Bits are numbered from 0 as the most
//! significant bit of the first word.
use vstd::prelude::*;

use crate::trackdb::TrackedDatabase;

use crate::space::AddrSpace;
use vstd::string::StringSliceAdditionalSpecFns;

verus! {

/// The number of bits in one context word.
pub const CONTEXT_WORD_BITS: i32 = 32;

/// Description of a context variable within a context blob: a contiguous
/// range of bits inside one word.
#[derive(Debug, Clone, Copy)]
pub struct ContextBitRange {
    /// Index of the word containing this value.
    word: i32,
    /// Starting bit within the word (0 is the most significant bit).
    startbit: i32,
    /// Ending bit within the word.
    endbit: i32,
    /// Right-shift amount that brings the value to the low bits.
    shift: i32,
    /// Mask applied after shifting.
    mask: u32,
}

/// Is `[sbit, ebit]` a bit range that fits in one context word?
pub open spec fn valid_bit_range(sbit: int, ebit: int) -> bool {
    &&& 0 <= sbit <= ebit
    &&& sbit / 32 == ebit / 32
    &&& ebit / 32 < 0x7fff_ffff
}

impl ContextBitRange {
    /// The word index.
    pub closed spec fn spec_word(&self) -> int {
        self.word as int
    }

    /// The shift amount.
    pub closed spec fn spec_shift(&self) -> int {
        self.shift as int
    }

    /// The mask.
    pub closed spec fn spec_mask(&self) -> u32 {
        self.mask
    }

    /// Well-formedness: the fields describe bits `startbit..=endbit` of word
    /// `word`.
    pub closed spec fn wf(&self) -> bool {
        &&& self.word >= 0
        &&& 0 <= self.startbit <= self.endbit < 32
        &&& self.shift == 31 - self.endbit
        &&& self.mask == u32::MAX >> ((self.startbit + self.shift) as u32)
    }

    /// The value of this variable in a blob.
    pub open spec fn value_in(&self, vec: Seq<u32>) -> u32 {
        ((vec[self.spec_word()] >> (self.spec_shift() as u32)) & self.spec_mask()) as u32
    }

    /// The blob after setting this variable to `val`.
    pub open spec fn blob_with(&self, vec: Seq<u32>, val: u32) -> Seq<u32> {
        vec.update(
            self.spec_word(),
            ((vec[self.spec_word()] & !self.word_bits()) | (((val & self.spec_mask()) as u32) << (
            self.spec_shift() as u32))) as u32,
        )
    }

    /// The bits of the word this variable occupies.
    pub open spec fn word_bits(&self) -> u32 {
        (self.spec_mask() << (self.spec_shift() as u32)) as u32
    }

    /// Build the description of bits `sbit..=ebit` of the blob.  The range
    /// must lie within one word.
    pub fn new(sbit: i32, ebit: i32) -> (r: ContextBitRange)
        requires
            valid_bit_range(sbit as int, ebit as int),
        ensures
            r.wf(),
            r.spec_word() == sbit / 32,
            r.spec_shift() == 31 - ebit % 32,
            r.spec_mask() == u32::MAX >> ((31 - (ebit - sbit)) as u32),
    {
        let word = sbit / CONTEXT_WORD_BITS;
        let startbit = sbit - word * CONTEXT_WORD_BITS;
        let endbit = ebit - word * CONTEXT_WORD_BITS;
        let shift = CONTEXT_WORD_BITS - endbit - 1;
        let mask = (!0u32) >> ((startbit + shift) as u32);
        assert(!0u32 == u32::MAX) by (bit_vector);
        ContextBitRange { word, startbit, endbit, shift, mask }
    }

    /// The shift amount for this value.
    pub fn get_shift(&self) -> (r: i32)
        ensures
            r == self.spec_shift(),
    {
        self.shift
    }

    /// The mask for this value.
    pub fn get_mask(&self) -> (r: u32)
        ensures
            r == self.spec_mask(),
    {
        self.mask
    }

    /// The word index for this value.
    pub fn get_word(&self) -> (r: i32)
        ensures
            r == self.spec_word(),
    {
        self.word
    }

    /// Set this value within a context blob.  Only the bits of this
    /// variable change; an oversized value is masked.
    pub fn set_value(&self, vec: &mut [u32], val: u32)
        requires
            self.wf(),
            self.spec_word() < old(vec)@.len(),
        ensures
            final(vec)@ == self.blob_with(old(vec)@, val),
    {
        let word = self.word as usize;
        let mut newval = vec[word];
        let sh = self.shift as u32;
        newval &= !(self.mask << sh);
        newval |= (val & self.mask) << sh;
        vec[word] = newval;
    }

    /// Retrieve this value from a context blob.
    pub fn get_value(&self, vec: &[u32]) -> (r: u32)
        requires
            self.wf(),
            self.spec_word() < vec@.len(),
        ensures
            r == self.value_in(vec@),
    {
        (vec[self.word as usize] >> (self.shift as u32)) & self.mask
    }
}

impl ContextBitRange {
    /// The number of bits of the variable.
    pub closed spec fn spec_width(&self) -> int {
        self.endbit - self.startbit + 1
    }
}

/// The mask of a bit range is a run of `width` low one bits (a nonzero
/// value one below a power of two), its shift lies within the word, and the
/// mask shifted into place still fits the word.
pub proof fn lemma_mask_shape(r: ContextBitRange)
    requires
        r.wf(),
    ensures
        1 <= r.spec_width() <= 32,
        r.spec_mask() == u32::MAX >> ((32 - r.spec_width()) as u32),
        r.spec_mask() != 0,
        r.spec_mask() & ((r.spec_mask() + 1) as u32) == 0,
        0 <= r.spec_shift() <= 31,
        r.spec_shift() + r.spec_width() <= 32,
        (r.spec_mask() as u64) << (r.spec_shift() as u64) <= u32::MAX,
{
    let s: u32 = (r.startbit + r.shift) as u32;
    let sh: u32 = r.shift as u32;
    let m: u32 = r.mask;
    assert(m == u32::MAX >> s);
    assert(s <= 31 && sh <= s);
    assert(m != 0 && m & ((m + 1) as u32) == 0 && (m as u64) << (sh as u64) <= u32::MAX) by (bit_vector)
        requires
            m == u32::MAX >> s,
            s <= 31,
            sh <= s,
    ;
}

/// Reading a variable back after setting it gives the value written, cut
/// to the variable's width.
pub proof fn lemma_get_after_set(r: ContextBitRange, vec: Seq<u32>, val: u32)
    requires
        r.wf(),
        r.spec_word() < vec.len(),
    ensures
        r.value_in(r.blob_with(vec, val)) == val & r.spec_mask(),
{
    let w = vec[r.word as int];
    let s = r.shift as u32;
    let k = (r.startbit + r.shift) as u32;
    let m = r.mask;
    assert(r.blob_with(vec, val)[r.word as int] == ((w & !((m << s) as u32)) | (((val & m) as u32)
        << s)) as u32);
    assert(s <= k && k < 32 && m == u32::MAX >> k ==> ((((w & !((m << s) as u32)) | (((val & m)
        as u32) << s)) as u32) >> s) & m == val & m) by (bit_vector);
}

/// Setting a variable leaves every variable that occupies other bits
/// unchanged.
pub proof fn lemma_set_preserves_disjoint(r: ContextBitRange, q: ContextBitRange, vec: Seq<u32>, val: u32)
    requires
        r.wf(),
        q.wf(),
        r.spec_word() < vec.len(),
        q.spec_word() < vec.len(),
        r.spec_word() != q.spec_word() || r.word_bits() & q.word_bits() == 0,
    ensures
        q.value_in(r.blob_with(vec, val)) == q.value_in(vec),
{
    if r.word == q.word {
        let w = vec[r.word as int];
        let s = r.shift as u32;
        let k = (r.startbit + r.shift) as u32;
        let m = r.mask;
        let s2 = q.shift as u32;
        let k2 = (q.startbit + q.shift) as u32;
        let m2 = q.mask;
        assert(s <= k && k < 32 && m == u32::MAX >> k && s2 <= k2 && k2 < 32 && m2 == u32::MAX
            >> k2 && ((m << s) as u32) & ((m2 << s2) as u32) == 0 ==> ((((w & !((m << s) as u32))
            | (((val & m) as u32) << s)) as u32) >> s2) & m2 == (w >> s2) & m2) by (bit_vector);
    }
}

/// A context blob: the words holding the values of the context variables
/// across some range of addresses, and a mask of the bits explicitly set
/// at the point where the range starts.
#[derive(Debug)]
pub struct FreeArray {
    /// The words holding the context values.
    pub array: Vec<u32>,
    /// The bits explicitly set at this point.
    pub mask: Vec<u32>,
}

impl FreeArray {
    /// An empty blob.
    pub fn new() -> (r: FreeArray)
        ensures
            r.array@.len() == 0,
            r.mask@.len() == 0,
    {
        FreeArray { array: Vec::new(), mask: Vec::new() }
    }

    /// Resize the blob to `sz` words, keeping the old words (and marks)
    /// that fit and padding with zeroes.
    pub fn reset(&mut self, sz: i32)
        requires
            sz >= 0,
            old(self).mask@.len() == old(self).array@.len(),
        ensures
            final(self).array@.len() == sz,
            final(self).mask@.len() == sz,
            forall|i: int| 0 <= i < sz ==> #[trigger] final(self).array@[i] == if i < old(self).array@.len() {
                old(self).array@[i]
            } else {
                0
            },
            forall|i: int| 0 <= i < sz ==> #[trigger] final(self).mask@[i] == if i < old(self).mask@.len() {
                old(self).mask@[i]
            } else {
                0
            },
    {
        let n = sz as usize;
        let mut newarray: Vec<u32> = Vec::new();
        let mut newmask: Vec<u32> = Vec::new();
        let mut i: usize = 0;
        while i < n
            invariant
                i <= n,
                n == sz,
                self.mask@.len() == self.array@.len(),
                newarray@.len() == i,
                newmask@.len() == i,
                forall|j: int| 0 <= j < i ==> #[trigger] newarray@[j] == if j < self.array@.len() {
                    self.array@[j]
                } else {
                    0
                },
                forall|j: int| 0 <= j < i ==> #[trigger] newmask@[j] == if j < self.mask@.len() {
                    self.mask@[j]
                } else {
                    0
                },
            decreases n - i,
        {
            if i < self.array.len() {
                newarray.push(self.array[i]);
                newmask.push(self.mask[i]);
            } else {
                newarray.push(0);
                newmask.push(0);
            }
            i += 1;
        }
        self.array = newarray;
        self.mask = newmask;
    }

    /// A copy of the blob's words with no bit marked as explicitly set (a
    /// new split point starts with the values of the range it splits).
    pub fn copy_unmarked(&self) -> (r: FreeArray)
        ensures
            r.array@ == self.array@,
            r.mask@.len() == self.mask@.len(),
            forall|i: int| 0 <= i < r.mask@.len() ==> #[trigger] r.mask@[i] == 0,
    {
        let mut array: Vec<u32> = Vec::new();
        let mut i: usize = 0;
        while i < self.array.len()
            invariant
                i <= self.array@.len(),
                array@ == self.array@.subrange(0, i as int),
            decreases self.array@.len() - i,
        {
            array.push(self.array[i]);
            i += 1;
        }
        let mut mask: Vec<u32> = Vec::new();
        let mut j: usize = 0;
        while j < self.mask.len()
            invariant
                j <= self.mask@.len(),
                mask@.len() == j,
                forall|k: int| 0 <= k < j ==> #[trigger] mask@[k] == 0,
            decreases self.mask@.len() - j,
        {
            mask.push(0);
            j += 1;
        }
        proof {
            assert(array@ =~= self.array@);
        }
        FreeArray { array, mask }
    }
}

/// An address at which context may change: a space and an offset.
/// Addresses are ordered by space index, then offset.
#[derive(Debug, Clone, Copy)]
pub struct ContextAddr {
    /// The space.
    pub space: AddrSpace,
    /// The offset within the space.
    pub offset: u64,
}

/// Is `a` strictly before `b`?
pub open spec fn addr_lt(a: ContextAddr, b: ContextAddr) -> bool {
    a.space.index < b.space.index || (a.space.index == b.space.index && a.offset < b.offset)
}

/// Are `a` and `b` the same address (same space index and offset)?
pub open spec fn addr_same(a: ContextAddr, b: ContextAddr) -> bool {
    a.space.index == b.space.index && a.offset == b.offset
}

/// Is `a` strictly before `b`?
pub fn addr_lt_exec(a: ContextAddr, b: ContextAddr) -> (r: bool)
    ensures
        r == addr_lt(a, b),
{
    a.space.index < b.space.index || (a.space.index == b.space.index && a.offset < b.offset)
}

/// A split point of the context database: from `addr` up to the next
/// split point the context is `blob`.
#[derive(Debug)]
pub struct ContextPoint {
    /// Where the blob starts to hold.
    pub addr: ContextAddr,
    /// The context from this point on.
    pub blob: FreeArray,
}

/// Are the split points in strictly increasing address order?
pub open spec fn sorted_points(pts: Seq<ContextPoint>) -> bool {
    forall|i: int, j: int| 0 <= i < j < pts.len() ==> addr_lt(#[trigger] pts[i].addr, #[trigger] pts[j].addr)
}

/// The index of the last split point at or before `a` (-1 if none).
pub open spec fn last_le(pts: Seq<ContextPoint>, a: ContextAddr) -> int
    decreases pts.len(),
{
    if pts.len() == 0 {
        -1
    } else if !addr_lt(a, pts.last().addr) {
        pts.len() - 1
    } else {
        last_le(pts.drop_last(), a)
    }
}

/// The context blob in force at `a`: that of the last split point at or
/// before it, or the default `d`.
pub open spec fn value_at(pts: Seq<ContextPoint>, d: Seq<u32>, a: ContextAddr) -> Seq<u32> {
    let i = last_le(pts, a);
    if i < 0 {
        d
    } else {
        pts[i].blob.array@
    }
}

/// The split points of `pts` are at the same addresses as those of `q`.
pub open spec fn same_addrs(pts: Seq<ContextPoint>, q: Seq<ContextPoint>) -> bool {
    &&& pts.len() == q.len()
    &&& forall|i: int| 0 <= i < pts.len() ==> (#[trigger] pts[i]).addr == q[i].addr
}

/// In sorted points, the last point at or before `a` is the one whose
/// successor (if any) lies after `a`.
pub proof fn lemma_last_le_char(pts: Seq<ContextPoint>, a: ContextAddr, i: int)
    requires
        sorted_points(pts),
        -1 <= i < pts.len(),
        i >= 0 ==> !addr_lt(a, pts[i].addr),
        i + 1 < pts.len() ==> addr_lt(a, pts[i + 1].addr),
    ensures
        last_le(pts, a) == i,
    decreases pts.len(),
{
    if pts.len() == 0 {
    } else if i == pts.len() - 1 {
    } else {
        let p = pts.drop_last();
        assert(addr_lt(pts[i + 1].addr, pts.last().addr) || i + 1 == pts.len() - 1);
        assert(addr_lt(a, pts.last().addr));
        assert(sorted_points(p)) by {
            assert forall|x: int, y: int| 0 <= x < y < p.len() implies addr_lt(#[trigger] p[x].addr, #[trigger] p[y].addr) by {
                assert(p[x] == pts[x] && p[y] == pts[y]);
            }
        }
        if i >= 0 {
            assert(p[i] == pts[i]);
        }
        if i + 1 < p.len() {
            assert(p[i + 1] == pts[i + 1]);
        }
        lemma_last_le_char(p, a, i);
    }
}

/// The last point at or before `a` is in range, at or before `a`, and its
/// successor lies after `a`.
pub proof fn lemma_last_le_props(pts: Seq<ContextPoint>, a: ContextAddr)
    requires
        sorted_points(pts),
    ensures
        -1 <= last_le(pts, a) < pts.len(),
        last_le(pts, a) >= 0 ==> !addr_lt(a, pts[last_le(pts, a)].addr),
        last_le(pts, a) + 1 < pts.len() ==> addr_lt(a, pts[last_le(pts, a) + 1].addr),
    decreases pts.len(),
{
    if pts.len() > 0 && addr_lt(a, pts.last().addr) {
        let p = pts.drop_last();
        assert(sorted_points(p)) by {
            assert forall|x: int, y: int| 0 <= x < y < p.len() implies addr_lt(#[trigger] p[x].addr, #[trigger] p[y].addr) by {
                assert(p[x] == pts[x] && p[y] == pts[y]);
            }
        }
        lemma_last_le_props(p, a);
        let k = last_le(p, a);
        if k >= 0 {
            assert(p[k] == pts[k]);
        }
        if k + 1 < p.len() {
            assert(p[k + 1] == pts[k + 1]);
        }
    }
}

/// The last point at or before `a` depends only on where the points are.
pub proof fn lemma_last_le_same_addrs(pts: Seq<ContextPoint>, q: Seq<ContextPoint>, a: ContextAddr)
    requires
        same_addrs(pts, q),
    ensures
        last_le(pts, a) == last_le(q, a),
    decreases pts.len(),
{
    if pts.len() > 0 {
        assert(pts.last().addr == q.last().addr);
        let p1 = pts.drop_last();
        let q1 = q.drop_last();
        assert(same_addrs(p1, q1)) by {
            assert forall|i: int| 0 <= i < p1.len() implies (#[trigger] p1[i]).addr == q1[i].addr by {
                assert(p1[i] == pts[i] && q1[i] == q[i]);
            }
        }
        lemma_last_le_same_addrs(p1, q1, a);
    }
}

/// A named context variable.
#[derive(Debug)]
pub struct ContextVariable {
    /// The name of the variable.
    pub name: Vec<u8>,
    /// Where the variable lies in the blob.
    pub range: ContextBitRange,
}

/// The bit range of the first variable named `nm`, if any.
pub open spec fn var_lookup(vars: Seq<ContextVariable>, nm: Seq<u8>) -> Option<ContextBitRange>
    decreases vars.len(),
{
    if vars.len() == 0 {
        None
    } else if vars[0].name@ == nm {
        Some(vars[0].range)
    } else {
        var_lookup(vars.drop_first(), nm)
    }
}

/// Why a context operation failed.
#[derive(Debug, Clone, Copy, PartialEq, Eq, Structural)]
pub enum ContextError {
    /// No context variable has the name asked for.
    NoSuchVariable,
    /// Variables can only be registered before any context is set.
    AlreadyInitialized,
    /// A variable's bits must lie in one word.
    NotInOneWord,
}

impl ContextError {
    /// A description of the error.
    pub fn explain(&self) -> (r: &'static str)
        ensures
            *self == ContextError::NoSuchVariable ==> r@ == "Non-existent context variable"@,
            *self == ContextError::AlreadyInitialized ==> r@ == "Cannot register new context variables after database is initialized"@,
            *self == ContextError::NotInOneWord ==> r@ == "Context variable does not fit in one word"@,
    {
        match self {
            ContextError::NoSuchVariable => "Non-existent context variable",
            ContextError::AlreadyInitialized => "Cannot register new context variables after database is initialized",
            ContextError::NotInOneWord => "Context variable does not fit in one word",
        }
    }

    /// The message for the error met on variable `nm`: the description,
    /// followed by the name when the variable does not exist.
    pub fn message(&self, nm: &[u8]) -> (r: Vec<u8>)
        ensures
            *self == ContextError::NoSuchVariable ==> r@ == "Non-existent context variable: ".spec_bytes() + nm@,
            *self == ContextError::AlreadyInitialized ==> r@ == "Cannot register new context variables after database is initialized".spec_bytes(),
            *self == ContextError::NotInOneWord ==> r@ == "Context variable does not fit in one word".spec_bytes(),
    {
        let empty: [u8; 0] = [];
        match self {
            ContextError::NoSuchVariable => crate::pcodecompile::concat3("Non-existent context variable: ".as_bytes(), nm, &empty),
            ContextError::AlreadyInitialized => crate::pcodecompile::concat3(
                "Cannot register new context variables after database is initialized".as_bytes(), &empty, &empty),
            ContextError::NotInOneWord => crate::pcodecompile::concat3(
                "Context variable does not fit in one word".as_bytes(), &empty, &empty),
        }
    }
}

/// The blob `b` with the bits `mask` of word `num` replaced by `value`.
pub open spec fn painted(b: Seq<u32>, num: int, mask: u32, value: u32) -> Seq<u32> {
    b.update(num, ((b[num] & !mask) | value) as u32)
}

/// Is `x` in the range from `a1` up to (not including) `a2`, or from `a1`
/// on when there is no `a2`?
pub open spec fn in_region(x: ContextAddr, a1: ContextAddr, a2: Option<ContextAddr>) -> bool {
    &&& !addr_lt(x, a1)
    &&& (a2 matches Some(b) ==> addr_lt(x, b))
}

/// The in-memory context database: named variables packed into blobs of
/// `size` words, a default blob, and the split points where the context
/// changes, in address order.
#[derive(Debug)]
pub struct ContextInternal {
    /// The number of words in a blob.
    pub size: i32,
    /// The registered variables.
    pub variables: Vec<ContextVariable>,
    /// The context wherever no split point applies.
    pub default_value: FreeArray,
    /// The split points, in increasing address order.
    pub points: Vec<ContextPoint>,
    /// The tracked registers.
    pub trackbase: TrackedDatabase,
}

impl ContextInternal {
    /// Are all blobs `size` words long, the points sorted, and every
    /// variable inside the blob?
    pub open spec fn wf(&self) -> bool {
        &&& self.size >= 0
        &&& self.default_value.array@.len() == self.size
        &&& self.default_value.mask@.len() == self.size
        &&& sorted_points(self.points@)
        &&& self.trackbase.wf()
        &&& forall|i: int| 0 <= i < self.points@.len() ==> (#[trigger] self.points@[i]).blob.array@.len()
            == self.size && self.points@[i].blob.mask@.len() == self.size
        &&& forall|i: int| 0 <= i < self.variables@.len() ==> (#[trigger] self.variables@[i]).range.wf()
            && self.variables@[i].range.spec_word() < self.size
    }

    /// The context in force at `a`.
    pub open spec fn context_at(&self, a: ContextAddr) -> Seq<u32> {
        value_at(self.points@, self.default_value.array@, a)
    }

    /// The bit range of variable `nm`, if registered.
    pub open spec fn variable(&self, nm: Seq<u8>) -> Option<ContextBitRange> {
        var_lookup(self.variables@, nm)
    }

    /// An empty database: no variables, blobs of no words, no split points.
    pub fn new() -> (r: ContextInternal)
        ensures
            r.wf(),
            r.size == 0,
            r.variables@.len() == 0,
            r.points@.len() == 0,
            r.default_value.array@.len() == 0,
            r.default_value.mask@.len() == 0,
            r.trackbase.default_set@.len() == 0,
            r.trackbase.points@.len() == 0,
            forall|x: ContextAddr| #[trigger] r.trackbase.set_at(x).len() == 0,
    {
        ContextInternal {
            size: 0,
            variables: Vec::new(),
            default_value: FreeArray::new(),
            points: Vec::new(),
            trackbase: TrackedDatabase::new(),
        }
    }

    /// The number of words in a blob.
    pub fn get_context_size(&self) -> (r: i32)
        ensures
            r == self.size,
    {
        self.size
    }

    fn find_variable(&self, nm: &[u8]) -> (r: Option<usize>)
        ensures
            r matches Some(i) ==> i < self.variables@.len() && self.variables@[i as int].name@ == nm@
                && self.variable(nm@) == Some(self.variables@[i as int].range)
                && forall|j: int| 0 <= j < i ==> (#[trigger] self.variables@[j]).name@ != nm@,
            r is None ==> self.variable(nm@) is None && forall|j: int| 0 <= j < self.variables@.len()
                ==> (#[trigger] self.variables@[j]).name@ != nm@,
    {
        proof {
            assert(self.variables@.subrange(0, self.variables@.len() as int) =~= self.variables@);
        }
        let mut i: usize = 0;
        while i < self.variables.len()
            invariant
                i <= self.variables@.len(),
                var_lookup(self.variables@, nm@) == var_lookup(self.variables@.subrange(i as int, self.variables@.len() as int), nm@),
                forall|j: int| 0 <= j < i ==> (#[trigger] self.variables@[j]).name@ != nm@,
            decreases self.variables@.len() - i,
        {
            let ghost rest = self.variables@.subrange(i as int, self.variables@.len() as int);
            proof {
                assert(rest[0] == self.variables@[i as int]);
                assert(rest.drop_first() =~= self.variables@.subrange(i + 1, self.variables@.len() as int));
            }
            if crate::pcodecompile::bytes_eq(self.variables[i].name.as_slice(), nm) {
                return Some(i);
            }
            i += 1;
        }
        proof {
            assert(self.variables@.subrange(self.variables@.len() as int, self.variables@.len() as int)
                =~= Seq::<ContextVariable>::empty());
        }
        None
    }

    /// The bit range of variable `nm`.
    pub fn get_variable(&self, nm: &[u8]) -> (r: Result<ContextBitRange, ContextError>)
        ensures
            match self.variable(nm@) {
                Some(v) => r == Ok::<ContextBitRange, ContextError>(v),
                None => r == Err::<ContextBitRange, ContextError>(ContextError::NoSuchVariable),
            },
    {
        match self.find_variable(nm) {
            Some(i) => Ok(self.variables[i].range),
            None => Err(ContextError::NoSuchVariable),
        }
    }
}

/// Looking a name up after replacing the first variable of that name.
pub proof fn lemma_lookup_update(vars: Seq<ContextVariable>, i: int, v: ContextVariable, nm2: Seq<u8>)
    requires
        0 <= i < vars.len(),
        vars[i].name@ == v.name@,
        forall|j: int| 0 <= j < i ==> (#[trigger] vars[j]).name@ != v.name@,
    ensures
        var_lookup(vars.update(i, v), v.name@) == Some(v.range),
        nm2 != v.name@ ==> var_lookup(vars.update(i, v), nm2) == var_lookup(vars, nm2),
    decreases i,
{
    let u = vars.update(i, v);
    if i > 0 {
        assert(u.drop_first() =~= vars.drop_first().update(i - 1, v));
        assert forall|j: int| 0 <= j < i - 1 implies (#[trigger] vars.drop_first()[j]).name@ != v.name@ by {
            assert(vars.drop_first()[j] == vars[j + 1]);
        }
        lemma_lookup_update(vars.drop_first(), i - 1, v, nm2);
        assert(u[0] == vars[0]);
    } else {
        assert(u[0] == v);
        assert(u.drop_first() =~= vars.drop_first());
    }
}

/// Looking a name up after appending a variable of a new name.
pub proof fn lemma_lookup_push(vars: Seq<ContextVariable>, v: ContextVariable, nm2: Seq<u8>)
    requires
        forall|j: int| 0 <= j < vars.len() ==> (#[trigger] vars[j]).name@ != v.name@,
    ensures
        var_lookup(vars.push(v), v.name@) == Some(v.range),
        nm2 != v.name@ ==> var_lookup(vars.push(v), nm2) == var_lookup(vars, nm2),
    decreases vars.len(),
{
    let u = vars.push(v);
    if vars.len() == 0 {
        assert(u[0] == v);
        assert(u.drop_first() =~= Seq::<ContextVariable>::empty());
        assert(var_lookup(u.drop_first(), nm2) is None);
        assert(var_lookup(vars, nm2) is None);
    } else {
        assert(u[0] == vars[0]);
        assert(u.drop_first() =~= vars.drop_first().push(v));
        assert forall|j: int| 0 <= j < vars.drop_first().len() implies (#[trigger] vars.drop_first()[j]).name@ != v.name@ by {
            assert(vars.drop_first()[j] == vars[j + 1]);
        }
        lemma_lookup_push(vars.drop_first(), v, nm2);
    }
}

impl ContextInternal {
    /// Register variable `nm` as bits `sbit..=ebit` of the blob, growing
    /// the blob (with zero words) as needed; a variable of the same name
    /// is replaced.  Refused once any context has been set, or when the
    /// bits span two words.
    pub fn register_variable(&mut self, nm: &[u8], sbit: i32, ebit: i32) -> (r: Result<(), ContextError>)
        requires
            old(self).wf(),
            0 <= sbit <= ebit,
            ebit - sbit <= 31,
        ensures
            final(self).wf(),
            r is Err ==> {
                &&& final(self).size == old(self).size
                &&& final(self).variables@ == old(self).variables@
                &&& final(self).default_value.array@ == old(self).default_value.array@
                &&& final(self).points@ == old(self).points@
            },
            old(self).points@.len() > 0 ==> r == Err::<(), ContextError>(ContextError::AlreadyInitialized),
            old(self).points@.len() == 0 && sbit / 32 != ebit / 32 ==> r == Err::<(), ContextError>(ContextError::NotInOneWord),
            old(self).points@.len() == 0 && sbit / 32 == ebit / 32 ==> {
                &&& r is Ok
                &&& final(self).size == if old(self).size > sbit / 32 + 1 { old(self).size as int } else { sbit / 32 + 1 }
                &&& final(self).variable(nm@) matches Some(v)
                &&& v.wf()
                &&& v.spec_word() == sbit / 32
                &&& v.spec_shift() == 31 - ebit % 32
                &&& v.spec_mask() == u32::MAX >> ((31 - (ebit - sbit)) as u32)
                &&& forall|nm2: Seq<u8>| nm2 != nm@ ==> #[trigger] final(self).variable(nm2) == old(self).variable(nm2)
                &&& final(self).points@.len() == 0
                &&& forall|i: int| 0 <= i < final(self).size ==> #[trigger] final(self).default_value.array@[i] == if i < old(self).size {
                    old(self).default_value.array@[i]
                } else {
                    0
                }
            },
    {
        if self.points.len() > 0 {
            return Err(ContextError::AlreadyInitialized);
        }
        let sz = sbit / 32 + 1;
        if ebit / 32 + 1 != sz {
            return Err(ContextError::NotInOneWord);
        }
        let bitrange = ContextBitRange::new(sbit, ebit);
        if sz > self.size {
            self.size = sz;
            self.default_value.reset(sz);
        }
        let v = ContextVariable { name: vstd::slice::slice_to_vec(nm), range: bitrange };
        let ghost vars0 = self.variables@;
        match self.find_variable(nm) {
            Some(i) => {
                proof {
                    assert forall|nm2: Seq<u8>| nm2 != nm@ implies var_lookup(vars0.update(i as int, v), nm2) == var_lookup(vars0, nm2) by {
                        lemma_lookup_update(vars0, i as int, v, nm2);
                    }
                    lemma_lookup_update(vars0, i as int, v, nm@);
                }
                self.variables.set(i, v);
            },
            None => {
                proof {
                    assert forall|nm2: Seq<u8>| nm2 != nm@ implies var_lookup(vars0.push(v), nm2) == var_lookup(vars0, nm2) by {
                        lemma_lookup_push(vars0, v, nm2);
                    }
                    lemma_lookup_push(vars0, v, nm@);
                }
                self.variables.push(v);
            },
        }
        Ok(())
    }

    /// Zero every word of the default blob.
    pub(crate) fn zero_default(&mut self)
        requires
            old(self).wf(),
        ensures
            final(self).wf(),
            final(self).size == old(self).size,
            final(self).variables@ == old(self).variables@,
            final(self).points@ == old(self).points@,
            final(self).trackbase == old(self).trackbase,
            final(self).default_value.array@ == Seq::new(old(self).size as nat, |i: int| 0u32),
    {
        let n = self.default_value.array.len();
        let mut i: usize = 0;
        while i < n
            invariant
                n == self.default_value.array@.len(),
                n == old(self).size,
                i <= n,
                self.size == old(self).size,
                self.variables@ == old(self).variables@,
                self.points@ == old(self).points@,
                self.trackbase == old(self).trackbase,
                self.default_value.mask@ == old(self).default_value.mask@,
                forall|j: int| 0 <= j < i ==> #[trigger] self.default_value.array@[j] == 0u32,
            decreases n - i,
        {
            self.default_value.array.set(i, 0);
            i += 1;
        }
        proof {
            assert(self.default_value.array@ =~= Seq::new(old(self).size as nat, |i: int| 0u32));
        }
    }

    /// The default blob.
    pub fn get_default_value(&self) -> (r: &[u32])
        ensures
            r@ == self.default_value.array@,
    {
        self.default_value.array.as_slice()
    }

    /// Set the default value of variable `nm`: the value wherever no
    /// split point sets it.
    pub fn set_variable_default(&mut self, nm: &[u8], val: u32) -> (r: Result<(), ContextError>)
        requires
            old(self).wf(),
        ensures
            final(self).wf(),
            final(self).size == old(self).size,
            final(self).trackbase == old(self).trackbase,
            final(self).variables@ == old(self).variables@,
            final(self).points@ == old(self).points@,
            match old(self).variable(nm@) {
                Some(v) => r is Ok && final(self).default_value.array@ == v.blob_with(old(self).default_value.array@, val),
                None => r == Err::<(), ContextError>(ContextError::NoSuchVariable)
                    && final(self).default_value.array@ == old(self).default_value.array@,
            },
    {
        let i = match self.find_variable(nm) {
            Some(i) => i,
            None => return Err(ContextError::NoSuchVariable),
        };
        let var = self.variables[i].range;
        let ghost d0 = self.default_value.array@;
        let mut arr: Vec<u32> = Vec::new();
        std::mem::swap(&mut arr, &mut self.default_value.array);
        var.set_value(arr.as_mut_slice(), val);
        self.default_value.array = arr;
        Ok(())
    }

    /// The default value of variable `nm`.
    pub fn get_default_value_by_name(&self, nm: &[u8]) -> (r: Result<u32, ContextError>)
        requires
            self.wf(),
        ensures
            match self.variable(nm@) {
                Some(v) => r == Ok::<u32, ContextError>(v.value_in(self.default_value.array@)),
                None => r == Err::<u32, ContextError>(ContextError::NoSuchVariable),
            },
    {
        let i = match self.find_variable(nm) {
            Some(i) => i,
            None => return Err(ContextError::NoSuchVariable),
        };
        Ok(self.variables[i].range.get_value(self.default_value.array.as_slice()))
    }

    /// The index of the last split point at or before `a`, if any.
    fn last_point_at_or_before(&self, a: ContextAddr) -> (r: Option<usize>)
        requires
            self.wf(),
        ensures
            r matches Some(i) ==> i < self.points@.len() && last_le(self.points@, a) == i,
            r is None ==> last_le(self.points@, a) == -1,
    {
        proof {
            lemma_last_le_props(self.points@, a);
        }
        let mut i: usize = self.points.len();
        while i > 0
            invariant
                i <= self.points@.len(),
                self.wf(),
                forall|j: int| i <= j < self.points@.len() ==> addr_lt(a, (#[trigger] self.points@[j]).addr),
            decreases i,
        {
            if !addr_lt_exec(a, self.points[i - 1].addr) {
                proof {
                    lemma_last_le_char(self.points@, a, i - 1);
                }
                return Some(i - 1);
            }
            i -= 1;
        }
        proof {
            lemma_last_le_char(self.points@, a, -1);
        }
        None
    }

    /// The context blob in force at `a`.
    pub fn get_context(&self, a: ContextAddr) -> (r: &[u32])
        requires
            self.wf(),
        ensures
            r@ == self.context_at(a),
    {
        match self.last_point_at_or_before(a) {
            Some(i) => self.points[i].blob.array.as_slice(),
            None => self.default_value.array.as_slice(),
        }
    }

    /// The value of variable `nm` at `a`.
    pub fn get_variable_value(&self, nm: &[u8], a: ContextAddr) -> (r: Result<u32, ContextError>)
        requires
            self.wf(),
        ensures
            match self.variable(nm@) {
                Some(v) => r == Ok::<u32, ContextError>(v.value_in(self.context_at(a))),
                None => r == Err::<u32, ContextError>(ContextError::NoSuchVariable),
            },
    {
        let i = match self.find_variable(nm) {
            Some(i) => i,
            None => return Err(ContextError::NoSuchVariable),
        };
        let ctx = self.get_context(a);
        proof {
            let li = last_le(self.points@, a);
            lemma_last_le_props(self.points@, a);
            if li >= 0 {
                assert(self.points@[li].blob.array@.len() == self.size);
            }
        }
        Ok(self.variables[i].range.get_value(ctx))
    }
}

/// Inserting a split point at `a` that carries the context in force at
/// `a` changes the context nowhere.
pub proof fn lemma_insert_keeps_context(pts: Seq<ContextPoint>, d: Seq<u32>, k: int, np: ContextPoint, x: ContextAddr)
    requires
        sorted_points(pts),
        0 <= k <= pts.len(),
        forall|j: int| 0 <= j < k ==> addr_lt((#[trigger] pts[j]).addr, np.addr),
        k < pts.len() ==> addr_lt(np.addr, pts[k].addr),
        np.blob.array@ == value_at(pts, d, np.addr),
    ensures
        sorted_points(pts.insert(k, np)),
        value_at(pts.insert(k, np), d, x) == value_at(pts, d, x),
{
    let q = pts.insert(k, np);
    assert forall|i: int, j: int| 0 <= i < j < q.len() implies addr_lt(#[trigger] q[i].addr, #[trigger] q[j].addr) by {
        if j < k {
            assert(q[i] == pts[i] && q[j] == pts[j]);
        } else if j == k {
            assert(q[i] == pts[i]);
        } else if i < k {
            assert(q[i] == pts[i] && q[j] == pts[j - 1]);
            assert(addr_lt(np.addr, pts[k].addr));
            if k < j - 1 {
                assert(addr_lt(pts[k].addr, pts[j - 1].addr));
            }
        } else if i == k {
            assert(q[j] == pts[j - 1]);
            if k < j - 1 {
                assert(addr_lt(pts[k].addr, pts[j - 1].addr));
            }
        } else {
            assert(q[i] == pts[i - 1] && q[j] == pts[j - 1]);
        }
    }
    lemma_last_le_props(pts, x);
    lemma_last_le_props(pts, np.addr);
    let j = last_le(pts, x);
    if addr_lt(x, np.addr) {
        // before the new point: nothing moves
        if j >= 0 {
            assert(j < k) by {
                if j >= k {
                    if j > k {
                        assert(addr_lt(pts[k].addr, pts[j].addr));
                    }
                }
            }
            assert(q[j] == pts[j]);
        }
        if j + 1 < k {
            assert(q[j + 1] == pts[j + 1]);
        }
        lemma_last_le_char(q, x, j);
    } else if k == pts.len() || addr_lt(x, pts[k].addr) {
        // covered by the new point, which carries the old context
        if k > 0 {
            assert(!addr_lt(x, pts[k - 1].addr));
        }
        lemma_last_le_char(pts, x, k - 1);
        lemma_last_le_char(pts, np.addr, k - 1);
        if k + 1 < q.len() {
            assert(q[k + 1] == pts[k]);
        }
        lemma_last_le_char(q, x, k);
    } else {
        // past the new point: indices shift by one
        assert(j >= k) by {
            if j < k {
                if j + 1 < k {
                    assert(addr_lt(pts[j + 1].addr, pts[k].addr));
                }
            }
        }
        assert(q[j + 1] == pts[j]);
        if j + 2 < q.len() {
            assert(q[j + 2] == pts[j + 1]);
        }
        lemma_last_le_char(q, x, j + 1);
    }
}

impl ContextInternal {
    /// Make sure there is a split point at `a`, returning its index.  A
    /// new point carries the context in force at `a`, with no bit marked
    /// as set, so the context changes nowhere.
    fn split(&mut self, a: ContextAddr) -> (r: usize)
        requires
            old(self).wf(),
        ensures
            final(self).trackbase == old(self).trackbase,
            final(self).wf(),
            final(self).size == old(self).size,
            final(self).variables@ == old(self).variables@,
            final(self).default_value.array@ == old(self).default_value.array@,
            final(self).default_value.mask@ == old(self).default_value.mask@,
            r < final(self).points@.len(),
            addr_same(final(self).points@[r as int].addr, a),
            forall|x: ContextAddr| #[trigger] final(self).context_at(x) == old(self).context_at(x),
            final(self).points@ == old(self).points@ || {
                &&& r <= old(self).points@.len()
                &&& final(self).points@ == old(self).points@.insert(r as int, final(self).points@[r as int])
                &&& forall|w: int| 0 <= w < final(self).size ==> #[trigger] final(self).points@[r as int].blob.mask@[w] == 0
            },
    {
        let mut k: usize = 0;
        while k < self.points.len() && addr_lt_exec(self.points[k].addr, a)
            invariant
                k <= self.points@.len(),
                forall|j: int| 0 <= j < k ==> addr_lt((#[trigger] self.points@[j]).addr, a),
            decreases self.points@.len() - k,
        {
            k += 1;
        }
        if k < self.points.len() && self.points[k].addr.space.index == a.space.index && self.points[k].addr.offset == a.offset {
            proof {
                assert(self.points@ == old(self).points@);
            }
            return k;
        }
        let ghost pts = self.points@;
        let np_blob = if k == 0 {
            self.default_value.copy_unmarked()
        } else {
            self.points[k - 1].blob.copy_unmarked()
        };
        let np = ContextPoint { addr: a, blob: np_blob };
        proof {
            lemma_last_le_props(pts, a);
            if k > 0 {
                assert(!addr_lt(a, pts[k - 1].addr));
            }
            lemma_last_le_char(pts, a, k - 1);
            assert(np.blob.array@ == value_at(pts, self.default_value.array@, a));
            assert forall|x: ContextAddr| value_at(pts.insert(k as int, np), self.default_value.array@, x)
                == value_at(pts, self.default_value.array@, x) by {
                lemma_insert_keeps_context(pts, self.default_value.array@, k as int, np, x);
            }
            lemma_insert_keeps_context(pts, self.default_value.array@, k as int, np, a);
        }
        self.points.insert(k, np);
        proof {
            assert(self.points@ == pts.insert(k as int, np));
            assert(self.points@[k as int] == np);
            assert forall|i: int| 0 <= i < self.points@.len() implies (#[trigger] self.points@[i]).blob.array@.len()
                == self.size && self.points@[i].blob.mask@.len() == self.size by {
                if i < k {
                    assert(self.points@[i] == pts[i]);
                } else if i > k {
                    assert(self.points@[i] == pts[i - 1]);
                }
            }
            assert forall|x: ContextAddr| #[trigger] self.context_at(x) == old(self).context_at(x) by {
                lemma_insert_keeps_context(pts, self.default_value.array@, k as int, np, x);
            }
        }
        k
    }
}

/// The first split point at or after index `from` whose mask marks any
/// of the bits `mask` of word `num` as set (the length if none).
pub open spec fn first_marked(pts: Seq<ContextPoint>, from: int, num: int, mask: u32) -> int
    decreases pts.len() - from,
{
    if from >= pts.len() || from < 0 {
        pts.len() as int
    } else if pts[from].blob.mask@[num] & mask != 0 {
        from
    } else {
        first_marked(pts, from + 1, num, mask)
    }
}

proof fn lemma_first_marked(pts: Seq<ContextPoint>, from: int, num: int, mask: u32)
    requires
        0 <= from <= pts.len(),
    ensures
        from <= first_marked(pts, from, num, mask) <= pts.len(),
        forall|j: int| from <= j < first_marked(pts, from, num, mask) ==> (#[trigger] pts[j]).blob.mask@[num] & mask == 0,
        first_marked(pts, from, num, mask) < pts.len() ==> pts[first_marked(pts, from, num, mask)].blob.mask@[num] & mask != 0,
    decreases pts.len() - from,
{
    if from < pts.len() && pts[from].blob.mask@[num] & mask == 0 {
        lemma_first_marked(pts, from + 1, num, mask);
    }
}

/// The blob `b` painted: bits `mask` of word `num` set to `value`, and
/// marked as set when `mark` holds.
fn paint_blob(b: &FreeArray, num: usize, mask: u32, value: u32, mark: bool) -> (r: FreeArray)
    requires
        num < b.array@.len(),
        num < b.mask@.len(),
    ensures
        r.array@ == painted(b.array@, num as int, mask, value),
        mark ==> r.mask@ == b.mask@.update(num as int, b.mask@[num as int] | mask),
        !mark ==> r.mask@ == b.mask@,
{
    let mut array: Vec<u32> = Vec::new();
    let mut i: usize = 0;
    while i < b.array.len()
        invariant
            i <= b.array@.len(),
            num < b.array@.len(),
            array@ == painted(b.array@, num as int, mask, value).subrange(0, i as int),
        decreases b.array@.len() - i,
    {
        if i == num {
            array.push((b.array[i] & !mask) | value);
        } else {
            array.push(b.array[i]);
        }
        proof {
            assert(array@ =~= painted(b.array@, num as int, mask, value).subrange(0, i + 1));
        }
        i += 1;
    }
    let mut m: Vec<u32> = Vec::new();
    let mut j: usize = 0;
    while j < b.mask.len()
        invariant
            j <= b.mask@.len(),
            num < b.mask@.len(),
            mark ==> m@ == b.mask@.update(num as int, b.mask@[num as int] | mask).subrange(0, j as int),
            !mark ==> m@ == b.mask@.subrange(0, j as int),
        decreases b.mask@.len() - j,
    {
        if j == num && mark {
            m.push(b.mask[j] | mask);
        } else {
            m.push(b.mask[j]);
        }
        proof {
            assert(mark ==> m@ =~= b.mask@.update(num as int, b.mask@[num as int] | mask).subrange(0, j + 1));
            assert(!mark ==> m@ =~= b.mask@.subrange(0, j + 1));
        }
        j += 1;
    }
    proof {
        assert(array@ =~= painted(b.array@, num as int, mask, value));
        assert(mark ==> m@ =~= b.mask@.update(num as int, b.mask@[num as int] | mask));
        assert(!mark ==> m@ =~= b.mask@);
    }
    FreeArray { array, mask: m }
}

impl ContextInternal {
    /// Does point `k` lie before `a2` (any point does, without `a2`)?
    fn point_before(&self, k: usize, a2: Option<ContextAddr>) -> (r: bool)
        requires
            k < self.points@.len(),
        ensures
            r == (a2 matches Some(b) ==> addr_lt(self.points@[k as int].addr, b)),
    {
        match a2 {
            Some(b) => addr_lt_exec(self.points[k].addr, b),
            None => true,
        }
    }

    /// Paint point `k`: bits `mask` of word `num` set to `value`, marked
    /// as set when `mark` holds.
    fn paint_point(&mut self, k: usize, num: i32, mask: u32, value: u32, mark: bool)
        requires
            old(self).wf(),
            0 <= num < old(self).size,
            k < old(self).points@.len(),
        ensures
            final(self).wf(),
            final(self).size == old(self).size,
            final(self).variables@ == old(self).variables@,
            final(self).trackbase == old(self).trackbase,
            final(self).default_value.array@ == old(self).default_value.array@,
            final(self).default_value.mask@ == old(self).default_value.mask@,
            final(self).points@.len() == old(self).points@.len(),
            forall|j: int| 0 <= j < old(self).points@.len() && j != k ==> #[trigger] final(self).points@[j] == old(self).points@[j],
            final(self).points@[k as int].addr == old(self).points@[k as int].addr,
            final(self).points@[k as int].blob.array@ == painted(old(self).points@[k as int].blob.array@, num as int, mask, value),
            mark ==> final(self).points@[k as int].blob.mask@ == old(self).points@[k as int].blob.mask@.update(
                num as int, old(self).points@[k as int].blob.mask@[num as int] | mask),
            !mark ==> final(self).points@[k as int].blob.mask@ == old(self).points@[k as int].blob.mask@,
    {
        let addr = self.points[k].addr;
        let blob = paint_blob(&self.points[k].blob, num as usize, mask, value, mark);
        self.points.set(k, ContextPoint { addr, blob });
        proof {
            assert forall|i: int, j: int| 0 <= i < j < self.points@.len() implies addr_lt(
                #[trigger] self.points@[i].addr, #[trigger] self.points@[j].addr) by {
                assert(self.points@[i].addr == old(self).points@[i].addr);
                assert(self.points@[j].addr == old(self).points@[j].addr);
            }
            assert forall|i: int| 0 <= i < self.points@.len() implies (#[trigger] self.points@[i]).blob.array@.len()
                == self.size && self.points@[i].blob.mask@.len() == self.size by {
                if i != k {
                    assert(self.points@[i] == old(self).points@[i]);
                }
            }
        }
    }

    /// Paint bits `mask` of word `num` with `value` over the addresses
    /// from `a1` up to `a2` (or on, without `a2`), marking them as set at
    /// every split point in the range.
    fn paint_region(&mut self, a1: ContextAddr, a2: Option<ContextAddr>, num: i32, mask: u32, value: u32)
        requires
            old(self).wf(),
            0 <= num < old(self).size,
        ensures
            final(self).trackbase == old(self).trackbase,
            final(self).wf(),
            final(self).size == old(self).size,
            final(self).variables@ == old(self).variables@,
            final(self).default_value.array@ == old(self).default_value.array@,
            forall|x: ContextAddr| #[trigger] final(self).context_at(x) == if in_region(x, a1, a2) {
                painted(old(self).context_at(x), num as int, mask, value)
            } else {
                old(self).context_at(x)
            },
    {
        let r1 = self.split(a1);
        let ghost p0 = self.points@;
        let ghost d0 = self.default_value.array@;
        assert(forall|x: ContextAddr| value_at(p0, d0, x) == #[trigger] old(self).context_at(x)) by {
            assert forall|x: ContextAddr| value_at(p0, d0, x) == #[trigger] old(self).context_at(x) by {
                assert(self.context_at(x) == old(self).context_at(x));
            }
        }
        let ghost mut g1: int = r1 as int;
        let ghost mut g2: int = 0;
        if let Some(b) = a2 {
            let r2 = self.split(b);
            proof {
                g2 = r2 as int;
                if self.points@ != p0 {
                    let e = self.points@[r2 as int];
                    assert(self.points@ == p0.insert(r2 as int, e));
                    p0.insert_ensures(r2 as int, e);
                    if r1 >= r2 {
                        g1 = r1 + 1;
                        assert(self.points@[g1] == p0[r1 as int]);
                    } else {
                        assert(self.points@[g1] == p0[r1 as int]);
                    }
                }
                assert forall|x: ContextAddr| value_at(self.points@, self.default_value.array@, x)
                    == #[trigger] old(self).context_at(x) by {
                    assert(self.context_at(x) == value_at(p0, d0, x));
                }
            }
        }
        let ghost p1 = self.points@;
        let ghost c1 = self.default_value.array@;
        assert(forall|x: ContextAddr| #[trigger] value_at(p1, c1, x) == old(self).context_at(x));
        assert(addr_same(p1[g1].addr, a1));
        assert(a2 matches Some(b) ==> 0 <= g2 < p1.len() && addr_same(p1[g2].addr, b));
        proof {
            if g1 + 1 < p1.len() {
                assert(addr_lt(p1[g1].addr, p1[g1 + 1].addr));
            }
            lemma_last_le_char(p1, a1, g1);
        }
        let i1 = match self.last_point_at_or_before(a1) {
            Some(i) => i,
            None => 0,
        };
        assert(i1 == g1);
        let mut k: usize = i1;
        while k < self.points.len() && self.point_before(k, a2)
            invariant
                self.wf(),
                0 <= num < self.size,
                i1 <= k <= p1.len(),
                i1 == g1,
                self.size == old(self).size,
                self.trackbase == old(self).trackbase,
                self.variables@ == old(self).variables@,
                self.default_value.array@ == c1,
                same_addrs(self.points@, p1),
                forall|j: int| 0 <= j < p1.len() && (j < i1 || j >= k) ==> #[trigger] self.points@[j] == p1[j],
                forall|j: int| i1 <= j < k ==> (#[trigger] self.points@[j]).blob.array@ == painted(p1[j].blob.array@, num as int, mask, value),
                forall|j: int| i1 <= j < k ==> (a2 matches Some(b) ==> addr_lt((#[trigger] p1[j]).addr, b)),
            decreases p1.len() - k,
        {
            self.paint_point(k, num, mask, value, true);
            k += 1;
        }
        let kend = k;
        proof {
            assert forall|x: ContextAddr| #[trigger] self.context_at(x) == if in_region(x, a1, a2) {
                painted(value_at(p1, c1, x), num as int, mask, value)
            } else {
                value_at(p1, c1, x)
            } by {
                lemma_last_le_same_addrs(self.points@, p1, x);
                lemma_last_le_props(p1, x);
                let j = last_le(p1, x);
                if !addr_lt(x, a1) {
                    if j < i1 {
                        if j + 1 < i1 {
                            assert(addr_lt(p1[j + 1].addr, p1[i1 as int].addr));
                        }
                    }
                    assert(j >= i1);
                } else {
                    if j >= i1 {
                        if j > i1 {
                            assert(addr_lt(p1[i1 as int].addr, p1[j].addr));
                        }
                    }
                    assert(j < i1);
                }
                match a2 {
                    Some(b) => {
                        if kend < p1.len() {
                            assert(!addr_lt(p1[kend as int].addr, b));
                        }
                        if !addr_lt(x, a1) && addr_lt(x, b) {
                            // inside: the last point at or before x is before b
                            if j >= kend {
                                if j > kend {
                                    assert(addr_lt(p1[kend as int].addr, p1[j].addr));
                                }
                                assert(false);
                            }
                        } else if !addr_lt(x, a1) {
                            // at or past b: the point at b (or a later one) governs
                            if j < kend && j >= i1 {
                                assert(addr_lt(p1[j].addr, b));
                                assert(g2 > j) by {
                                    if g2 <= j {
                                        if g2 < j {
                                            assert(addr_lt(p1[g2].addr, p1[j].addr));
                                        }
                                    }
                                }
                                if j + 1 < g2 {
                                    assert(addr_lt(p1[j + 1].addr, p1[g2].addr));
                                }
                                assert(false);
                            }
                        }
                    },
                    None => {
                        assert(kend == p1.len());
                    },
                }
            }
        }
    }
}

/// Is `x` at or after `a` and before the split point `kend` (if any)?
pub open spec fn in_change_region(pts: Seq<ContextPoint>, x: ContextAddr, a: ContextAddr, kend: int) -> bool {
    &&& !addr_lt(x, a)
    &&& (0 <= kend < pts.len() ==> addr_lt(x, pts[kend].addr))
}

/// Setting a variable is painting its bits with its shifted value.
pub proof fn lemma_blob_with_is_painted(v: ContextBitRange, b: Seq<u32>, val: u32)
    ensures
        v.blob_with(b, val) == painted(b, v.spec_word(), v.word_bits(), (((val & v.spec_mask()) as u32) << (v.spec_shift() as u32)) as u32),
{
}

impl ContextInternal {
    /// Paint bits `mask` of word `num` with `value` from `a` on, up to the
    /// next split point that marks any of those bits as set; the point at
    /// `a` is marked.
    fn paint_to_change_point(&mut self, a: ContextAddr, num: i32, mask: u32, value: u32)
        requires
            old(self).wf(),
            0 <= num < old(self).size,
        ensures
            final(self).wf(),
            final(self).size == old(self).size,
            final(self).variables@ == old(self).variables@,
            final(self).default_value.array@ == old(self).default_value.array@,
            0 <= last_le(final(self).points@, a) < final(self).points@.len(),
            addr_same(final(self).points@[last_le(final(self).points@, a)].addr, a),
            forall|x: ContextAddr| #[trigger] final(self).context_at(x) == if in_change_region(final(self).points@, x, a,
                first_marked(final(self).points@, last_le(final(self).points@, a) + 1, num as int, mask)) {
                painted(old(self).context_at(x), num as int, mask, value)
            } else {
                old(self).context_at(x)
            },
    {
        let i = self.split(a);
        let ghost p1 = self.points@;
        let ghost c1 = self.default_value.array@;
        assert(forall|x: ContextAddr| #[trigger] value_at(p1, c1, x) == old(self).context_at(x)) by {
            assert forall|x: ContextAddr| #[trigger] value_at(p1, c1, x) == old(self).context_at(x) by {
                assert(self.context_at(x) == old(self).context_at(x));
            }
        }
        proof {
            if i + 1 < p1.len() {
                assert(addr_lt(p1[i as int].addr, p1[i + 1].addr));
            }
            lemma_last_le_char(p1, a, i as int);
        }
        self.paint_point(i, num, mask, value, true);
        assert(i < self.points.len());
        let mut k: usize = i + 1;
        while k < self.points.len() && (self.points[k].blob.mask[num as usize] & mask) == 0
            invariant
                self.wf(),
                0 <= num < self.size,
                i < k <= p1.len(),
                self.size == old(self).size,
                self.variables@ == old(self).variables@,
                self.default_value.array@ == c1,
                same_addrs(self.points@, p1),
                forall|j: int| 0 <= j < p1.len() && j != i && (j < i || j >= k) ==> #[trigger] self.points@[j] == p1[j],
                forall|j: int| i <= j < k ==> (#[trigger] self.points@[j]).blob.array@ == painted(p1[j].blob.array@, num as int, mask, value),
                forall|j: int| i < j < k ==> (#[trigger] self.points@[j]).blob.mask@ == p1[j].blob.mask@,
                forall|j: int| i < j < k ==> (#[trigger] self.points@[j]).blob.mask@[num as int] & mask == 0,
            decreases p1.len() - k,
        {
            self.paint_point(k, num, mask, value, false);
            k += 1;
        }
        let kend = k;
        proof {
            lemma_last_le_same_addrs(self.points@, p1, a);
            lemma_first_marked(self.points@, i + 1, num as int, mask);
            let fm = first_marked(self.points@, i + 1, num as int, mask);
            if kend < p1.len() {
                assert(self.points@[kend as int] == p1[kend as int]);
            }
            assert(fm == kend) by {
                if fm < kend {
                    assert(self.points@[fm].blob.mask@[num as int] & mask == 0);
                }
                if fm > kend {
                    assert(self.points@[kend as int].blob.mask@[num as int] & mask == 0);
                }
            }
            assert forall|x: ContextAddr| #[trigger] self.context_at(x) == if in_change_region(self.points@, x, a, kend as int) {
                painted(value_at(p1, c1, x), num as int, mask, value)
            } else {
                value_at(p1, c1, x)
            } by {
                lemma_last_le_same_addrs(self.points@, p1, x);
                lemma_last_le_props(p1, x);
                let j = last_le(p1, x);
                if !addr_lt(x, a) {
                    if j < i {
                        if j + 1 < i {
                            assert(addr_lt(p1[j + 1].addr, p1[i as int].addr));
                        }
                    }
                    assert(j >= i);
                    if kend < p1.len() {
                        assert(self.points@[kend as int].addr == p1[kend as int].addr);
                        if addr_lt(x, p1[kend as int].addr) {
                            if j >= kend {
                                if j > kend {
                                    assert(addr_lt(p1[kend as int].addr, p1[j].addr));
                                }
                                assert(false);
                            }
                        } else {
                            if j < kend {
                                if j + 1 < kend {
                                    assert(addr_lt(p1[j + 1].addr, p1[kend as int].addr));
                                }
                                assert(false);
                            }
                        }
                    }
                } else {
                    if j >= i {
                        if j > i {
                            assert(addr_lt(p1[i as int].addr, p1[j].addr));
                        }
                    }
                    assert(j < i);
                }
            }
        }
    }

    /// Set bits `mask` of word `num` to `value` from `a` up to the next
    /// point where any of those bits was explicitly set.
    pub fn set_context_change_point(&mut self, a: ContextAddr, num: i32, mask: u32, value: u32)
        requires
            old(self).wf(),
            0 <= num < old(self).size,
        ensures
            final(self).wf(),
            final(self).size == old(self).size,
            final(self).variables@ == old(self).variables@,
            final(self).default_value.array@ == old(self).default_value.array@,
            addr_same(final(self).points@[last_le(final(self).points@, a)].addr, a),
            forall|x: ContextAddr| #[trigger] final(self).context_at(x) == if in_change_region(final(self).points@, x, a,
                first_marked(final(self).points@, last_le(final(self).points@, a) + 1, num as int, mask)) {
                painted(old(self).context_at(x), num as int, mask, value)
            } else {
                old(self).context_at(x)
            },
    {
        self.paint_to_change_point(a, num, mask, value);
    }

    /// Set bits `mask` of word `num` to `value` over the addresses from
    /// `a1` up to `a2` (from `a1` on, without `a2`).
    pub fn set_context_region(&mut self, a1: ContextAddr, a2: Option<ContextAddr>, num: i32, mask: u32, value: u32)
        requires
            old(self).wf(),
            0 <= num < old(self).size,
        ensures
            final(self).wf(),
            final(self).size == old(self).size,
            final(self).variables@ == old(self).variables@,
            final(self).default_value.array@ == old(self).default_value.array@,
            forall|x: ContextAddr| #[trigger] final(self).context_at(x) == if in_region(x, a1, a2) {
                painted(old(self).context_at(x), num as int, mask, value)
            } else {
                old(self).context_at(x)
            },
    {
        self.paint_region(a1, a2, num, mask, value);
    }

    /// Set variable `nm` to `val` from `a` up to the next point where it
    /// was explicitly set.  There, it reads back as `val` cut to its
    /// width; elsewhere, and for variables in other bits, nothing changes.
    pub fn set_variable(&mut self, nm: &[u8], a: ContextAddr, val: u32) -> (r: Result<(), ContextError>)
        requires
            old(self).wf(),
        ensures
            final(self).wf(),
            final(self).size == old(self).size,
            final(self).variables@ == old(self).variables@,
            final(self).default_value.array@ == old(self).default_value.array@,
            match old(self).variable(nm@) {
                Some(v) => {
                    &&& r is Ok
                    &&& v.value_in(final(self).context_at(a)) == val & v.spec_mask()
                    &&& forall|x: ContextAddr| #[trigger] final(self).context_at(x) == if in_change_region(final(self).points@, x, a,
                        first_marked(final(self).points@, last_le(final(self).points@, a) + 1, v.spec_word(), v.word_bits())) {
                        v.blob_with(old(self).context_at(x), val)
                    } else {
                        old(self).context_at(x)
                    }
                    &&& forall|x: ContextAddr| addr_lt(x, a) ==> #[trigger] final(self).context_at(x) == old(self).context_at(x)
                    &&& forall|w: ContextBitRange, x: ContextAddr| w.wf() && w.spec_word() < old(self).size
                        && (v.spec_word() != w.spec_word() || v.word_bits() & w.word_bits() == 0)
                        ==> #[trigger] w.value_in(final(self).context_at(x)) == w.value_in(old(self).context_at(x))
                },
                None => r == Err::<(), ContextError>(ContextError::NoSuchVariable) && *final(self) == *old(self),
            },
    {
        let i = match self.find_variable(nm) {
            Some(i) => i,
            None => return Err(ContextError::NoSuchVariable),
        };
        let v = self.variables[i].range;
        let num = v.get_word();
        let sh = v.get_shift();
        let m = v.get_mask();
        let bits: u32 = m << (sh as u32);
        let value: u32 = (val & m) << (sh as u32);
        let ghost before = *old(self);
        self.paint_to_change_point(a, num, bits, value);
        proof {
            assert forall|x: ContextAddr| #[trigger] self.context_at(x) == if in_change_region(self.points@, x, a,
                first_marked(self.points@, last_le(self.points@, a) + 1, v.spec_word(), v.word_bits())) {
                v.blob_with(old(self).context_at(x), val)
            } else {
                old(self).context_at(x)
            } by {
                lemma_blob_with_is_painted(v, old(self).context_at(x), val);
            }
            lemma_blob_with_is_painted(v, old(self).context_at(a), val);
            let li = last_le(old(self).points@, a);
            lemma_last_le_props(old(self).points@, a);
            if li >= 0 {
                assert(old(self).points@[li].blob.array@.len() == old(self).size);
            }
            lemma_get_after_set(v, old(self).context_at(a), val);
            assert forall|w: ContextBitRange, x: ContextAddr| w.wf() && w.spec_word() < old(self).size
                && (v.spec_word() != w.spec_word() || v.word_bits() & w.word_bits() == 0)
                implies #[trigger] w.value_in(self.context_at(x)) == w.value_in(old(self).context_at(x)) by {
                let lx = last_le(old(self).points@, x);
                lemma_last_le_props(old(self).points@, x);
                if lx >= 0 {
                    assert(old(self).points@[lx].blob.array@.len() == old(self).size);
                }
                lemma_set_preserves_disjoint(v, w, old(self).context_at(x), val);
            }
            assert(in_change_region(self.points@, a, a, first_marked(self.points@, last_le(self.points@, a) + 1, v.spec_word(), v.word_bits()))) by {
                let fm = first_marked(self.points@, last_le(self.points@, a) + 1, v.spec_word(), v.word_bits());
                lemma_first_marked(self.points@, last_le(self.points@, a) + 1, v.spec_word(), v.word_bits());
                if 0 <= fm < self.points@.len() {
                    assert(addr_lt(self.points@[last_le(self.points@, a)].addr, self.points@[fm].addr));
                }
            }
        }
        Ok(())
    }

    /// Set variable `nm` to `val` over the addresses from `a1` up to `a2`
    /// (from `a1` on, without `a2`).  There it reads back as `val` cut to
    /// its width; elsewhere, and for variables in other bits, nothing
    /// changes.
    pub fn set_variable_region(&mut self, nm: &[u8], a1: ContextAddr, a2: Option<ContextAddr>, val: u32) -> (r: Result<(), ContextError>)
        requires
            old(self).wf(),
        ensures
            final(self).wf(),
            final(self).size == old(self).size,
            final(self).trackbase == old(self).trackbase,
            final(self).variables@ == old(self).variables@,
            final(self).default_value.array@ == old(self).default_value.array@,
            match old(self).variable(nm@) {
                Some(v) => {
                    &&& r is Ok
                    &&& forall|x: ContextAddr| #[trigger] final(self).context_at(x) == if in_region(x, a1, a2) {
                        v.blob_with(old(self).context_at(x), val)
                    } else {
                        old(self).context_at(x)
                    }
                },
                None => r == Err::<(), ContextError>(ContextError::NoSuchVariable) && final(self).points@ == old(self).points@,
            },
    {
        let i = match self.find_variable(nm) {
            Some(i) => i,
            None => return Err(ContextError::NoSuchVariable),
        };
        let v = self.variables[i].range;
        let num = v.get_word();
        let sh = v.get_shift();
        let m = v.get_mask();
        let bits: u32 = m << (sh as u32);
        let value: u32 = (val & m) << (sh as u32);
        self.paint_region(a1, a2, num, bits, value);
        proof {
            assert forall|x: ContextAddr| #[trigger] self.context_at(x) == if in_region(x, a1, a2) {
                v.blob_with(old(self).context_at(x), val)
            } else {
                old(self).context_at(x)
            } by {
                lemma_blob_with_is_painted(v, old(self).context_at(x), val);
            }
        }
        Ok(())
    }
}

impl ContextInternal {
    /// The first offset (in `a`'s space) over which the blob in force at
    /// `a` holds: that of the split point at or before `a`, or 0.
    pub open spec fn bounds_first(&self, a: ContextAddr) -> u64 {
        let i = last_le(self.points@, a);
        if i >= 0 && self.points@[i].addr.space.index == a.space.index {
            self.points@[i].addr.offset
        } else {
            0
        }
    }

    /// The last offset (in `a`'s space) over which the blob in force at
    /// `a` holds: just before the next split point, or the top of the
    /// space.
    pub open spec fn bounds_last(&self, a: ContextAddr) -> u64 {
        let i = last_le(self.points@, a);
        if i + 1 < self.points@.len() && self.points@[i + 1].addr.space.index == a.space.index {
            (self.points@[i + 1].addr.offset - 1) as u64
        } else {
            AddrSpace::spec_highest(a.space.addr_size, a.space.word_size)
        }
    }

    /// The context blob in force at `a`, and the offsets of the first and
    /// last addresses (in `a`'s space) over which it is in force: from the
    /// split point at or before `a` (or 0) up to just before the next split
    /// point (or the top of the space).
    pub fn get_context_bounds(&self, a: ContextAddr) -> (r: (&[u32], u64, u64))
        requires
            self.wf(),
            a.space.word_size > 0,
        ensures
            r.0@ == self.context_at(a),
            r.1 == self.bounds_first(a),
            r.2 == self.bounds_last(a),
    {
        proof {
            lemma_last_le_props(self.points@, a);
        }
        let found = self.last_point_at_or_before(a);
        let next: usize = match found {
            Some(i) => {
                assert(i < self.points.len());
                i + 1
            },
            None => 0,
        };
        let first: u64 = match found {
            Some(i) => if self.points[i].addr.space.index == a.space.index {
                self.points[i].addr.offset
            } else {
                0
            },
            None => 0,
        };
        let last: u64 = if next < self.points.len() && self.points[next].addr.space.index == a.space.index {
            proof {
                assert(addr_lt(a, self.points@[next as int].addr));
            }
            self.points[next].addr.offset - 1
        } else {
            a.space.get_highest()
        };
        (self.get_context(a), first, last)
    }
}

/// A storage location: a space, an offset and a size in bytes.
#[derive(Debug, Clone, Copy, PartialEq, Eq, Structural)]
pub struct VarnodeLoc {
    /// The space.
    pub space: AddrSpace,
    /// The offset of the first byte.
    pub offset: u64,
    /// The number of bytes.
    pub size: u32,
}

/// A tracked register and the value it holds.
#[derive(Debug, Clone, Copy, PartialEq, Eq, Structural)]
pub struct TrackedContext {
    /// Where the register is stored.
    pub loc: VarnodeLoc,
    /// The value of the register.
    pub val: u64,
}

/// The offset of the last byte of a location (modulo 2^64).
pub open spec fn end_offset(loc: VarnodeLoc) -> u64 {
    ((loc.offset as int + loc.size as int - 1) % 0x1_0000_0000_0000_0000) as u64
}

/// Does tracked register `t` contain the location `mem`?
pub open spec fn contains_loc(t: TrackedContext, mem: VarnodeLoc) -> bool {
    &&& t.loc.space.index == mem.space.index
    &&& t.loc.offset <= mem.offset
    &&& end_offset(t.loc) >= end_offset(mem)
}

/// The part of tracked register `t` that `mem` occupies: `t`'s value
/// shifted to `mem`'s bytes (by the space's byte order) and cut to `mem`'s
/// size.
pub open spec fn trimmed_value(t: TrackedContext, mem: VarnodeLoc) -> u64 {
    let shifted: u64 = if t.loc.space.big_endian {
        if end_offset(mem) != end_offset(t.loc) {
            t.val >> ((8 * (end_offset(t.loc) - mem.offset)) as u64)
        } else {
            t.val
        }
    } else if mem.offset != t.loc.offset {
        t.val >> ((8 * (mem.offset - t.loc.offset)) as u64)
    } else {
        t.val
    };
    (shifted & crate::space::spec_calc_mask(mem.size as i32 as int)) as u64
}

/// Can `mem` be cut out of tracked register `t`: is the shift that moves
/// `mem`'s bytes down less than a full 64-bit word?
pub open spec fn trim_defined(t: TrackedContext, mem: VarnodeLoc) -> bool {
    if t.loc.space.big_endian {
        end_offset(mem) != end_offset(t.loc) ==> mem.offset <= end_offset(t.loc) < mem.offset + 8
    } else {
        mem.offset != t.loc.offset ==> mem.offset < t.loc.offset + 8
    }
}

/// Can the first tracked register of `tset` containing `mem` (if any)
/// have `mem` cut out of it?
pub open spec fn tracked_defined(tset: Seq<TrackedContext>, mem: VarnodeLoc) -> bool
    decreases tset.len(),
{
    if tset.len() == 0 {
        true
    } else if contains_loc(tset[0], mem) {
        trim_defined(tset[0], mem)
    } else {
        tracked_defined(tset.drop_first(), mem)
    }
}

/// The value of location `mem` according to the tracked registers `tset`:
/// the trimmed value of the first register containing it, or 0.
pub open spec fn tracked_value(tset: Seq<TrackedContext>, mem: VarnodeLoc) -> u64
    decreases tset.len(),
{
    if tset.len() == 0 {
        0
    } else if contains_loc(tset[0], mem) {
        trimmed_value(tset[0], mem)
    } else {
        tracked_value(tset.drop_first(), mem)
    }
}

/// The value of location `mem` according to the tracked registers `tset`
/// (see [`tracked_value`]).
pub fn get_tracked_value_in(tset: &[TrackedContext], mem: VarnodeLoc) -> (r: u64)
    requires
        tracked_defined(tset@, mem),
    ensures
        r == tracked_value(tset@, mem),
{
    let endoff = mem.offset.wrapping_add(mem.size as u64).wrapping_sub(1);
    proof {
        assert(endoff == end_offset(mem)) by (nonlinear_arith)
            requires
                endoff == (((mem.offset as int + mem.size as int) % 0x1_0000_0000_0000_0000) - 1 + 0x1_0000_0000_0000_0000) % 0x1_0000_0000_0000_0000
                    || endoff == ((mem.offset as int + mem.size as int) % 0x1_0000_0000_0000_0000) - 1;
    }
    let mut i: usize = 0;
    proof {
        assert(tset@.subrange(0, tset@.len() as int) =~= tset@);
    }
    while i < tset.len()
        invariant
            i <= tset@.len(),
            endoff == end_offset(mem),
            tracked_value(tset@, mem) == tracked_value(tset@.subrange(i as int, tset@.len() as int), mem),
            tracked_defined(tset@.subrange(i as int, tset@.len() as int), mem),
        decreases tset@.len() - i,
    {
        let ghost rest = tset@.subrange(i as int, tset@.len() as int);
        proof {
            assert(rest[0] == tset@[i as int]);
            assert(rest.drop_first() =~= tset@.subrange(i + 1, tset@.len() as int));
        }
        let t = tset[i];
        let tendoff = t.loc.offset.wrapping_add(t.loc.size as u64).wrapping_sub(1);
        if t.loc.space.index == mem.space.index && t.loc.offset <= mem.offset && tendoff >= endoff {
            let mut res = t.val;
            if t.loc.space.big_endian {
                if endoff != tendoff {
                    res = res >> (8 * (tendoff - mem.offset));
                }
            } else if mem.offset != t.loc.offset {
                res = res >> (8 * (mem.offset - t.loc.offset));
            }
            res = res & crate::space::calc_mask(mem.size as i32);
            return res;
        }
        i += 1;
    }
    proof {
        assert(tset@.subrange(tset@.len() as int, tset@.len() as int) =~= Seq::<TrackedContext>::empty());
    }
    0
}

impl ContextInternal {
    /// The tracked registers in force at `a`.
    pub open spec fn tracked_at(&self, a: ContextAddr) -> Seq<TrackedContext> {
        self.trackbase.set_at(a)
    }

    /// The default set of tracked registers, to be changed in place.
    pub fn get_tracked_default(&mut self) -> (r: &mut Vec<TrackedContext>)
        ensures
            r@ == old(self).trackbase.default_set@,
            final(self).trackbase.default_set@ == final(r)@,
            final(self).trackbase.points@ == old(self).trackbase.points@,
            old(self).wf() ==> final(self).wf(),
            final(self).size == old(self).size,
            final(self).variables@ == old(self).variables@,
            final(self).default_value == old(self).default_value,
            final(self).points@ == old(self).points@,
    {
        self.trackbase.get_tracked_default()
    }

    /// The tracked registers in force at `a`.
    pub fn get_tracked_set(&self, a: ContextAddr) -> (r: &Vec<TrackedContext>)
        requires
            self.wf(),
        ensures
            r@ == self.tracked_at(a),
    {
        self.trackbase.get_tracked_set(a)
    }

    /// Clear the tracked registers over the range from `a1` up to (not
    /// including) `a2` and hand out the empty set that now holds there, to
    /// be filled in place; outside the range the tracked registers do not
    /// change, nor does the context anywhere.
    pub fn create_set(&mut self, a1: ContextAddr, a2: ContextAddr) -> (r: &mut Vec<TrackedContext>)
        requires
            old(self).wf(),
            addr_lt(a1, a2),
        ensures
            r@.len() == 0,
            final(self).wf(),
            forall|x: ContextAddr| in_region(x, a1, Some(a2)) ==> #[trigger] final(self).tracked_at(x) == final(r)@,
            forall|x: ContextAddr| !in_region(x, a1, Some(a2)) ==> #[trigger] final(self).tracked_at(x) == old(self).tracked_at(x),
            final(self).size == old(self).size,
            final(self).variables@ == old(self).variables@,
            final(self).default_value == old(self).default_value,
            final(self).points@ == old(self).points@,
    {
        self.trackbase.create_set(a1, a2)
    }

    /// The value of location `mem` at code address `point`, according to
    /// the tracked registers in force there (see [`tracked_value`]).
    pub fn get_tracked_value(&self, mem: VarnodeLoc, point: ContextAddr) -> (r: u64)
        requires
            self.wf(),
            tracked_defined(self.tracked_at(point), mem),
        ensures
            r == tracked_value(self.tracked_at(point), mem),
    {
        get_tracked_value_in(self.get_tracked_set(point).as_slice(), mem)
    }
}

/// A cache of the range of addresses over which the last context blob
/// fetched is valid, in front of a context database; it can also filter
/// or drop writes to the context.
#[derive(Debug)]
pub struct ContextCache {
    /// Are writes passed on to the database?
    pub allowset: bool,
    /// The bits of each word that writes may change (all bits for words
    /// past the end).
    pub write_masks: Vec<u32>,
    /// The space of the cached range, if the cache is valid.
    pub curspace: Option<AddrSpace>,
    /// The first offset of the cached range.
    pub first: u64,
    /// The last offset of the cached range.
    pub last: u64,
}

/// The bits of word `num` that writes may change.
pub open spec fn write_mask_of(masks: Seq<u32>, num: int) -> u32 {
    if 0 <= num < masks.len() {
        masks[num]
    } else {
        u32::MAX
    }
}

impl ContextCache {
    /// Does the cached range cover `a`?
    pub open spec fn covers(&self, a: ContextAddr) -> bool {
        &&& self.curspace matches Some(s)
        &&& s.index == a.space.index
        &&& self.first <= a.offset <= self.last
    }

    /// An empty cache that passes every write on.
    pub fn new() -> (r: ContextCache)
        ensures
            r.allowset,
            r.write_masks@.len() == 0,
            r.curspace is None,
    {
        ContextCache { allowset: true, write_masks: Vec::new(), curspace: None, first: 0, last: 0 }
    }

    /// Pass writes on to the database, or drop them.
    pub fn allow_set(&mut self, val: bool)
        ensures
            final(self).allowset == val,
            final(self).write_masks@ == old(self).write_masks@,
            final(self).curspace == old(self).curspace,
            final(self).first == old(self).first,
            final(self).last == old(self).last,
    {
        self.allowset = val;
    }

    /// Set the bits of word `word` that writes may change, returning the
    /// bits that could be changed before.
    pub fn set_write_mask(&mut self, word: usize, mask: u32) -> (r: u32)
        requires
            word < usize::MAX,
        ensures
            r == write_mask_of(old(self).write_masks@, word as int),
            write_mask_of(final(self).write_masks@, word as int) == mask,
            forall|w: int| w != word ==> #[trigger] write_mask_of(final(self).write_masks@, w) == write_mask_of(old(self).write_masks@, w),
            final(self).allowset == old(self).allowset,
            final(self).curspace == old(self).curspace,
            final(self).first == old(self).first,
            final(self).last == old(self).last,
    {
        while self.write_masks.len() <= word
            invariant
                word < usize::MAX,
                forall|w: int| #[trigger] write_mask_of(self.write_masks@, w) == write_mask_of(old(self).write_masks@, w),
                self.allowset == old(self).allowset,
                self.curspace == old(self).curspace,
                self.first == old(self).first,
                self.last == old(self).last,
            decreases word + 1 - self.write_masks@.len(),
        {
            let ghost before = self.write_masks@;
            self.write_masks.push(u32::MAX);
            proof {
                assert forall|w: int| #[trigger] write_mask_of(self.write_masks@, w) == write_mask_of(before, w) by {
                    if 0 <= w < before.len() {
                        assert(self.write_masks@[w] == before[w]);
                    }
                }
            }
        }
        let prev = self.write_masks[word];
        let ghost before = self.write_masks@;
        assert(write_mask_of(before, word as int) == write_mask_of(old(self).write_masks@, word as int));
        self.write_masks.set(word, mask);
        proof {
            assert forall|w: int| w != word implies #[trigger] write_mask_of(self.write_masks@, w) == write_mask_of(old(self).write_masks@, w) by {
                assert(write_mask_of(before, w) == write_mask_of(old(self).write_masks@, w));
                if 0 <= w < before.len() {
                    assert(self.write_masks@[w] == before[w]);
                }
            }
        }
        prev
    }

    fn write_mask(&self, num: i32) -> (r: u32)
        ensures
            r == write_mask_of(self.write_masks@, num as int),
    {
        if num >= 0 && (num as usize) < self.write_masks.len() {
            self.write_masks[num as usize]
        } else {
            u32::MAX
        }
    }

    fn covers_exec(&self, a: ContextAddr) -> (r: bool)
        ensures
            r == self.covers(a),
    {
        match self.curspace {
            Some(s) => s.index == a.space.index && self.first <= a.offset && self.last >= a.offset,
            None => false,
        }
    }

    /// Copy the context blob in force at `a` into the front of `buf`; when
    /// the cached range does not cover `a`, the range around `a` is cached.
    pub fn get_context(&mut self, database: &ContextInternal, a: ContextAddr, buf: &mut [u32])
        requires
            database.wf(),
            a.space.word_size > 0,
            old(buf)@.len() >= database.size,
        ensures
            final(buf)@.len() == old(buf)@.len(),
            final(buf)@.subrange(0, database.size as int) == database.context_at(a),
            final(buf)@.subrange(database.size as int, final(buf)@.len() as int) == old(buf)@.subrange(database.size as int, old(buf)@.len() as int),
            final(self).allowset == old(self).allowset,
            final(self).write_masks@ == old(self).write_masks@,
            !old(self).covers(a) ==> final(self).curspace == Some(a.space) && final(self).first == database.bounds_first(a)
                && final(self).last == database.bounds_last(a),
            old(self).covers(a) ==> final(self).curspace == old(self).curspace && final(self).first == old(self).first
                && final(self).last == old(self).last,
    {
        let n = database.get_context_size() as usize;
        let ctx: &[u32];
        if !self.covers_exec(a) {
            let (c, first, last) = database.get_context_bounds(a);
            self.curspace = Some(a.space);
            self.first = first;
            self.last = last;
            ctx = c;
        } else {
            ctx = database.get_context(a);
        }
        proof {
            let i = last_le(database.points@, a);
            lemma_last_le_props(database.points@, a);
            if i >= 0 {
                assert(database.points@[i].blob.array@.len() == database.size);
            }
        }
        let mut j: usize = 0;
        while j < n
            invariant
                n == database.size,
                ctx@ == database.context_at(a),
                ctx@.len() == n,
                j <= n,
                buf@.len() == old(buf)@.len(),
                n <= buf@.len(),
                forall|k: int| 0 <= k < j ==> #[trigger] buf@[k] == ctx@[k],
                forall|k: int| j <= k < buf@.len() ==> #[trigger] buf@[k] == old(buf)@[k],
            decreases n - j,
        {
            buf[j] = ctx[j];
            j += 1;
        }
        proof {
            assert(buf@.subrange(0, n as int) =~= database.context_at(a));
            assert(buf@.subrange(n as int, buf@.len() as int) =~= old(buf)@.subrange(n as int, old(buf)@.len() as int));
        }
    }

    /// Set bits `mask` of word `num` (less those writes may not change) to
    /// `value` from `a` up to the next point where they were explicitly
    /// set.  Dropped when writes are not allowed or no bit is left; the
    /// cache is dropped when it covers `a`.
    pub fn set_context(&mut self, database: &mut ContextInternal, a: ContextAddr, num: i32, mask: u32, value: u32)
        requires
            old(database).wf(),
            0 <= num < old(database).size,
        ensures
            final(database).wf(),
            final(database).size == old(database).size,
            final(database).variables@ == old(database).variables@,
            final(self).allowset == old(self).allowset,
            final(self).write_masks@ == old(self).write_masks@,
            ({
                let m = mask & write_mask_of(old(self).write_masks@, num as int);
                if !old(self).allowset || m == 0 {
                    &&& final(database).points@ == old(database).points@
                    &&& final(database).default_value.array@ == old(database).default_value.array@
                } else {
                    forall|x: ContextAddr| #[trigger] final(database).context_at(x) == if in_change_region(final(database).points@, x, a,
                        first_marked(final(database).points@, last_le(final(database).points@, a) + 1, num as int, m)) {
                        painted(old(database).context_at(x), num as int, m, value & m)
                    } else {
                        old(database).context_at(x)
                    }
                }
            }),
            old(self).covers(a) && old(self).allowset && mask & write_mask_of(old(self).write_masks@, num as int) != 0
                ==> final(self).curspace is None,
    {
        if !self.allowset {
            return;
        }
        let m = mask & self.write_mask(num);
        if m == 0 {
            return;
        }
        database.set_context_change_point(a, num, m, value & m);
        if self.covers_exec(a) {
            self.curspace = None;
        }
    }

    /// Set bits `mask` of word `num` (less those writes may not change) to
    /// `value` over the addresses from `a1` up to `a2` (or on).  Dropped
    /// when writes are not allowed or no bit is left; the cache is dropped
    /// when it covers `a1`, or (by offset alone) `a2`, or starts within the
    /// range's offsets.
    pub fn set_context_region(&mut self, database: &mut ContextInternal, a1: ContextAddr, a2: Option<ContextAddr>, num: i32, mask: u32, value: u32)
        requires
            old(database).wf(),
            0 <= num < old(database).size,
        ensures
            final(database).wf(),
            final(database).size == old(database).size,
            final(database).variables@ == old(database).variables@,
            final(self).allowset == old(self).allowset,
            final(self).write_masks@ == old(self).write_masks@,
            ({
                let m = mask & write_mask_of(old(self).write_masks@, num as int);
                if !old(self).allowset || m == 0 {
                    &&& final(database).points@ == old(database).points@
                    &&& final(database).default_value.array@ == old(database).default_value.array@
                } else {
                    forall|x: ContextAddr| #[trigger] final(database).context_at(x) == if in_region(x, a1, a2) {
                        painted(old(database).context_at(x), num as int, m, value & m)
                    } else {
                        old(database).context_at(x)
                    }
                }
            }),
            ({
                let off2: u64 = match a2 { Some(b) => b.offset, None => 0 };
                old(self).allowset && mask & write_mask_of(old(self).write_masks@, num as int) != 0 && (old(self).covers(a1)
                    || (old(self).first <= off2 <= old(self).last)
                    || (a1.offset <= old(self).first <= off2)) ==> final(self).curspace is None
            }),
    {
        if !self.allowset {
            return;
        }
        let m = mask & self.write_mask(num);
        if m == 0 {
            return;
        }
        database.set_context_region(a1, a2, num, m, value & m);
        let off2: u64 = match a2 {
            Some(b) => b.offset,
            None => 0,
        };
        if self.covers_exec(a1) {
            self.curspace = None;
        }
        if self.first <= off2 && self.last >= off2 {
            self.curspace = None;
        }
        if self.first >= a1.offset && self.first <= off2 {
            self.curspace = None;
        }
    }
}

} // verus!
