//! Memory state for p-code emulation: byte encodings of values, and memory
//! banks that hold the contents of one address space.
use vstd::prelude::*;
use vstd::arithmetic::div_mod::*;
use vstd::arithmetic::mul::*;

use crate::space::{AddrSpace, SpaceType};
use crate::globalcontext::VarnodeLoc;

verus! {

/// `256` to the power `n`.
pub open spec fn pow256(n: nat) -> nat
    decreases n,
{
    if n == 0 {
        1
    } else {
        256 * pow256((n - 1) as nat)
    }
}

/// The value of a byte sequence read most significant byte first.
pub open spec fn be_value(s: Seq<u8>) -> nat
    decreases s.len(),
{
    if s.len() == 0 {
        0
    } else {
        be_value(s.drop_last()) * 256 + s.last() as nat
    }
}

/// The value of a byte sequence read least significant byte first.
pub open spec fn le_value(s: Seq<u8>) -> nat
    decreases s.len(),
{
    if s.len() == 0 {
        0
    } else {
        s[0] as nat + 256 * le_value(s.drop_first())
    }
}

/// Byte number `k` (0 = least significant) of `val`.
pub open spec fn byte_of(val: u64, k: nat) -> u8 {
    ((val as nat / pow256(k)) % 256) as u8
}

/// The `size` bytes of `val`, least significant first.
pub open spec fn le_bytes(val: u64, size: nat) -> Seq<u8> {
    Seq::new(size, |j: int| byte_of(val, j as nat))
}

/// The `size` bytes of `val`, most significant first.
pub open spec fn be_bytes(val: u64, size: nat) -> Seq<u8> {
    Seq::new(size, |j: int| byte_of(val, (size - 1 - j) as nat))
}

/// The bytes of `ptr` that survive decoding `size` bytes into a 64-bit
/// value: all of them up to 8; beyond that the earliest bytes are shifted
/// out (big-endian) or the latest ones are (little-endian).
pub open spec fn decoded_window(ptr: Seq<u8>, size: int, bigendian: bool) -> Seq<u8> {
    if size <= 0 {
        Seq::empty()
    } else if bigendian {
        ptr.subrange(if size > 8 { size - 8 } else { 0 }, size)
    } else {
        ptr.subrange(0, if size > 8 { 8 } else { size })
    }
}

/// The value decoded from the first `size` bytes of `ptr`.
pub open spec fn spec_construct_value(ptr: Seq<u8>, size: int, bigendian: bool) -> nat {
    if bigendian {
        be_value(decoded_window(ptr, size, bigendian))
    } else {
        le_value(decoded_window(ptr, size, bigendian))
    }
}

/// The bytes written when encoding `val` in `size` bytes.
pub open spec fn spec_deconstruct_value(val: u64, size: nat, bigendian: bool) -> Seq<u8> {
    if bigendian {
        be_bytes(val, size)
    } else {
        le_bytes(val, size)
    }
}

proof fn lemma_pow256_facts()
    ensures
        pow256(8) == 0x1_0000_0000_0000_0000,
        pow256(7) == 0x100_0000_0000_0000,
{
    reveal_with_fuel(pow256, 9);
}

proof fn lemma_pow256_pos(n: nat)
    ensures
        pow256(n) >= 1,
    decreases n,
{
    if n > 0 {
        lemma_pow256_pos((n - 1) as nat);
    }
}

proof fn lemma_pow256_mono(a: nat, b: nat)
    requires
        a <= b,
    ensures
        pow256(a) <= pow256(b),
    decreases b,
{
    if a < b {
        lemma_pow256_mono(a, (b - 1) as nat);
        lemma_pow256_pos((b - 1) as nat);
    }
}

proof fn lemma_be_bound(s: Seq<u8>)
    ensures
        be_value(s) < pow256(s.len()),
    decreases s.len(),
{
    if s.len() > 0 {
        lemma_be_bound(s.drop_last());
        let p = pow256((s.len() - 1) as nat);
        let x = be_value(s.drop_last());
        assert(x * 256 + s.last() < p * 256) by (nonlinear_arith)
            requires
                x < p,
                s.last() < 256,
        ;
    }
}

proof fn lemma_le_bound(s: Seq<u8>)
    ensures
        le_value(s) < pow256(s.len()),
    decreases s.len(),
{
    if s.len() > 0 {
        lemma_le_bound(s.drop_first());
        let p = pow256((s.len() - 1) as nat);
        let x = le_value(s.drop_first());
        assert(s[0] + 256 * x < 256 * p) by (nonlinear_arith)
            requires
                x < p,
                s[0] < 256,
        ;
    }
}

/// Splitting a big-endian value at its first byte.
proof fn lemma_be_first(s: Seq<u8>)
    requires
        s.len() >= 1,
    ensures
        be_value(s) == s[0] * pow256((s.len() - 1) as nat) + be_value(s.drop_first()),
    decreases s.len(),
{
    reveal_with_fuel(pow256, 2);
    if s.len() == 1 {
        assert(s.drop_last().len() == 0);
        assert(s.drop_first().len() == 0);
        assert(be_value(s.drop_last()) == 0);
        assert(be_value(s.drop_first()) == 0);
    } else {
        let sd = s.drop_last();
        lemma_be_first(sd);
        let t = s.drop_first();
        assert(sd.drop_first() =~= t.drop_last());
        assert(t.last() == s.last());
        let p = pow256((s.len() - 2) as nat);
        assert(pow256((s.len() - 1) as nat) == 256 * p);
        let a = s[0] as int;
        let b = be_value(t.drop_last()) as int;
        assert(be_value(sd) == a * p + b);
        assert(be_value(t) == b * 256 + t.last());
        assert(be_value(s) == be_value(sd) * 256 + s.last());
        assert((a * p + b) * 256 + s.last() == a * (256 * p) + (b * 256 + s.last())) by (nonlinear_arith);
    }
}

/// Splitting a little-endian value at its last byte.
proof fn lemma_le_last(s: Seq<u8>)
    requires
        s.len() >= 1,
    ensures
        le_value(s) == le_value(s.drop_last()) + s.last() * pow256((s.len() - 1) as nat),
    decreases s.len(),
{
    reveal_with_fuel(pow256, 2);
    if s.len() == 1 {
        assert(s.drop_last().len() == 0);
        assert(s.drop_first().len() == 0);
        assert(le_value(s.drop_last()) == 0);
        assert(le_value(s.drop_first()) == 0);
    } else {
        let t = s.drop_first();
        lemma_le_last(t);
        let sd = s.drop_last();
        assert(t.drop_last() =~= sd.drop_first());
        assert(t.last() == s.last());
        assert(sd[0] == s[0]);
        let p = pow256((s.len() - 2) as nat);
        assert(pow256((s.len() - 1) as nat) == 256 * p);
        let a = s.last() as int;
        let b = le_value(sd.drop_first()) as int;
        assert(le_value(t) == b + a * p);
        assert(le_value(sd) == s[0] + 256 * b);
        assert(le_value(s) == s[0] + 256 * le_value(t));
        assert(s[0] + 256 * (b + a * p) == (s[0] + 256 * b) + a * (256 * p)) by (nonlinear_arith);
    }
}

proof fn lemma_mod_high(a: int, c: int)
    requires
        0 <= a,
        0 <= c < 0x1_0000_0000_0000_0000,
    ensures
        (a * 0x1_0000_0000_0000_0000 + c) % 0x1_0000_0000_0000_0000 == c,
{
    lemma_mod_multiples_vanish(a, c, 0x1_0000_0000_0000_0000);
    lemma_small_mod(c as nat, 0x1_0000_0000_0000_0000);
}

/// Decode bytes to a value.  The first `size` bytes of `ptr` are read in
/// the given byte order; when more than 8 bytes are given, only the least
/// significant 8 survive.
pub fn construct_value(ptr: &[u8], size: i32, bigendian: bool) -> (r: u64)
    requires
        size <= ptr@.len(),
    ensures
        r as nat == spec_construct_value(ptr@, size as int, bigendian),
{
    let mut res: u64 = 0;
    if bigendian && size > 0 {
        let mut i: i32 = 0;
        while i < size
            invariant
                0 <= i <= size,
                size <= ptr@.len(),
                res as nat == be_value(ptr@.subrange(if i > 8 { i - 8 } else { 0 }, i as int)),
            decreases size - i,
        {
            let b = ptr[i as usize];
            proof {
                let lo: int = if i > 8 { i - 8 } else { 0 };
                let w = ptr@.subrange(lo, i as int);
                let lo2: int = if i + 1 > 8 { i + 1 - 8 } else { 0 };
                let w2 = ptr@.subrange(lo2, i + 1);
                lemma_be_bound(w);
                lemma_pow256_facts();
                if i < 8 {
                    assert(w2.drop_last() =~= w);
                    lemma_pow256_mono(w.len(), 7);
                    assert(res * 256 < 0x1_0000_0000_0000_0000 - 255) by (nonlinear_arith)
                        requires
                            res < 0x100_0000_0000_0000,
                    ;
                    assert((res as nat * 256) % 0x1_0000_0000_0000_0000 == res as nat * 256) by {
                        lemma_small_mod(res as nat * 256, 0x1_0000_0000_0000_0000);
                    }
                } else {
                    lemma_be_first(w);
                    let wd = w.drop_first();
                    lemma_be_bound(wd);
                    assert(w2.drop_last() =~= wd);
                    assert((res as int) * 256 == (w[0] as int) * 0x1_0000_0000_0000_0000 + (be_value(
                        wd) as int) * 256) by (nonlinear_arith)
                        requires
                            res as int == (w[0] as int) * 0x100_0000_0000_0000 + be_value(wd) as int,
                    ;
                    assert((be_value(wd) as int) * 256 < 0x1_0000_0000_0000_0000 - 255) by (
                    nonlinear_arith)
                        requires
                            be_value(wd) < 0x100_0000_0000_0000,
                    ;
                    lemma_mod_high(w[0] as int, (be_value(wd) as int) * 256);
                }
            }
            res = res.wrapping_mul(256);
            res = res + b as u64;
            i += 1;
        }
        assert(res as nat == spec_construct_value(ptr@, size as int, bigendian));
    } else if !bigendian && size > 0 {
        let mut i: i32 = size - 1;
        while i >= 0
            invariant
                i < size,
                size <= ptr@.len(),
                i >= -1,
                res as nat == le_value(
                    ptr@.subrange(i + 1, if size > i + 9 { i + 9 } else { size as int }),
                ),
            decreases i + 1,
        {
            let b = ptr[i as usize];
            proof {
                let hi: int = if size > i + 9 { i + 9 } else { size as int };
                let w = ptr@.subrange(i + 1, hi);
                let hi2: int = if size > i + 8 { i + 8 } else { size as int };
                let w2 = ptr@.subrange(i as int, hi2);
                lemma_le_bound(w);
                lemma_pow256_facts();
                if hi - (i + 1) < 8 {
                    assert(w2.drop_first() =~= w);
                    lemma_pow256_mono(w.len(), 7);
                    assert(res * 256 < 0x1_0000_0000_0000_0000 - 255) by (nonlinear_arith)
                        requires
                            res < 0x100_0000_0000_0000,
                    ;
                    assert((res as nat * 256) % 0x1_0000_0000_0000_0000 == res as nat * 256) by {
                        lemma_small_mod(res as nat * 256, 0x1_0000_0000_0000_0000);
                    }
                } else {
                    lemma_le_last(w);
                    let wd = w.drop_last();
                    lemma_le_bound(wd);
                    assert(w2.drop_first() =~= wd);
                    assert((res as int) * 256 == (w.last() as int) * 0x1_0000_0000_0000_0000 + (
                    le_value(wd) as int) * 256) by (nonlinear_arith)
                        requires
                            res as int == le_value(wd) as int + (w.last() as int)
                                * 0x100_0000_0000_0000,
                    ;
                    assert((le_value(wd) as int) * 256 < 0x1_0000_0000_0000_0000 - 255) by (
                    nonlinear_arith)
                        requires
                            le_value(wd) < 0x100_0000_0000_0000,
                    ;
                    lemma_mod_high(w.last() as int, (le_value(wd) as int) * 256);
                }
            }
            res = res.wrapping_mul(256);
            res = res + b as u64;
            i -= 1;
        }
        assert(res as nat == spec_construct_value(ptr@, size as int, bigendian));
    }
    proof {
        if size <= 0 {
            assert(decoded_window(ptr@, size as int, bigendian) =~= Seq::<u8>::empty());
            assert(ptr@.subrange(0, 0) =~= Seq::<u8>::empty());
        }
    }
    res
}

proof fn lemma_shift_byte(x: u64)
    ensures
        x >> 8 == x / 256,
        x & 0xff == x % 256,
{
    assert(x >> 8 == x / 256) by (bit_vector);
    assert(x & 0xff == x % 256) by (bit_vector);
}

proof fn lemma_div_pow_step(val: u64, k: nat)
    ensures
        (val as nat / pow256(k)) / 256 == val as nat / pow256(k + 1),
{
    lemma_pow256_pos(k);
    lemma_div_denominator(val as int, pow256(k) as int, 256);
    assert(pow256(k + 1) == pow256(k) * 256);
}

/// Encode a value to bytes: the low `size` bytes of `val` are written to
/// the start of `ptr` in the given byte order (zero bytes beyond the 8 a
/// value has).
pub fn deconstruct_value(ptr: &mut [u8], val: u64, size: i32, bigendian: bool)
    requires
        size <= old(ptr)@.len(),
    ensures
        final(ptr)@.len() == old(ptr)@.len(),
        size >= 0 ==> final(ptr)@.subrange(0, size as int) == spec_deconstruct_value(
            val,
            size as nat,
            bigendian,
        ),
        forall|j: int| size <= j < old(ptr)@.len() && 0 <= j ==> final(ptr)@[j] == old(ptr)@[j],
{
    let mut v = val;
    let ghost orig = ptr@;
    if size <= 0 {
        return ;
    }
    proof {
        reveal_with_fuel(pow256, 1);
        assert(val as nat / 1 == val as nat);
    }
    if bigendian {
        let mut i: i32 = size - 1;
        while i >= 0
            invariant
                i < size,
                i >= -1,
                size <= orig.len(),
                ptr@.len() == orig.len(),
                v as nat == val as nat / pow256((size - 1 - i) as nat),
                forall|j: int| i < j < size ==> ptr@[j] == byte_of(val, (size - 1 - j) as nat),
                forall|j: int| 0 <= j <= i ==> ptr@[j] == orig[j],
                forall|j: int| size <= j < orig.len() && 0 <= j ==> ptr@[j] == orig[j],
            decreases i + 1,
        {
            proof {
                lemma_shift_byte(v);
                lemma_div_pow_step(val, (size - 1 - i) as nat);
            }
            ptr[i as usize] = (v & 0xff) as u8;
            v = v >> 8;
            i -= 1;
        }
        assert(ptr@.subrange(0, size as int) =~= be_bytes(val, size as nat));
    } else {
        let mut i: i32 = 0;
        while i < size
            invariant
                0 <= i <= size,
                size <= orig.len(),
                ptr@.len() == orig.len(),
                v as nat == val as nat / pow256(i as nat),
                forall|j: int| 0 <= j < i ==> ptr@[j] == byte_of(val, j as nat),
                forall|j: int| i <= j < orig.len() ==> ptr@[j] == orig[j],
            decreases size - i,
        {
            proof {
                lemma_shift_byte(v);
                lemma_div_pow_step(val, i as nat);
            }
            ptr[i as usize] = (v & 0xff) as u8;
            v = v >> 8;
            i += 1;
        }
        assert(ptr@.subrange(0, size as int) =~= le_bytes(val, size as nat));
    }
}

#[verifier::spinoff_prover]
#[verifier::rlimit(30)]
proof fn lemma_le_bytes_value(val: u64, n: nat)
    ensures
        le_value(le_bytes(val, n)) == val as nat % pow256(n),
    decreases n,
{
    if n == 0 {
        assert(le_bytes(val, 0).len() == 0);
    } else {
        let s = le_bytes(val, n);
        let v2: u64 = (val / 256) as u64;
        lemma_le_bytes_value(v2, (n - 1) as nat);
        assert forall|j: int| 0 <= j < n - 1 implies #[trigger] s.drop_first()[j] == le_bytes(
            v2,
            (n - 1) as nat,
        )[j] by {
            lemma_pow256_pos(j as nat);
            lemma_div_denominator(val as int, 256, pow256(j as nat) as int);
            assert(pow256((j + 1) as nat) == 256 * pow256(j as nat));
        }
        assert(s.drop_first() =~= le_bytes(v2, (n - 1) as nat));
        lemma_pow256_pos((n - 1) as nat);
        lemma_mod_breakdown(val as int, 256, pow256((n - 1) as nat) as int);
        assert(pow256(n) == 256 * pow256((n - 1) as nat));
    }
}

#[verifier::spinoff_prover]
#[verifier::rlimit(30)]
proof fn lemma_be_bytes_value(val: u64, n: nat)
    ensures
        be_value(be_bytes(val, n)) == val as nat % pow256(n),
    decreases n,
{
    if n == 0 {
        assert(be_bytes(val, 0).len() == 0);
    } else {
        let s = be_bytes(val, n);
        let v2: u64 = (val / 256) as u64;
        lemma_be_bytes_value(v2, (n - 1) as nat);
        assert forall|j: int| 0 <= j < n - 1 implies #[trigger] s.drop_last()[j] == be_bytes(
            v2,
            (n - 1) as nat,
        )[j] by {
            let k = (n - 2 - j) as nat;
            lemma_pow256_pos(k);
            lemma_div_denominator(val as int, 256, pow256(k) as int);
            assert(pow256(k + 1) == 256 * pow256(k));
        }
        assert(s.drop_last() =~= be_bytes(v2, (n - 1) as nat));
        lemma_pow256_pos((n - 1) as nat);
        lemma_mod_breakdown(val as int, 256, pow256((n - 1) as nat) as int);
        assert(pow256(n) == 256 * pow256((n - 1) as nat));
        assert(s.last() == byte_of(val, 0));
        let a = be_value(be_bytes(v2, (n - 1) as nat)) as int;
        let b = (val as int) % 256;
        assert(a * 256 + b == 256 * a + b);
    }
}

/// Encoding a value in `size` bytes (at most 8) and decoding those bytes
/// again, in the same byte order, gives the value cut to `size` bytes.
pub proof fn lemma_construct_deconstruct(val: u64, size: int, bigendian: bool)
    requires
        0 <= size <= 8,
    ensures
        spec_construct_value(spec_deconstruct_value(val, size as nat, bigendian), size, bigendian)
            == val as nat % pow256(size as nat),
{
    let s = spec_deconstruct_value(val, size as nat, bigendian);
    if size > 0 {
        assert(decoded_window(s, size, bigendian) =~= s);
    } else {
        assert(s.len() == 0);
        assert(decoded_window(s, size, bigendian) =~= s);
    }
    if bigendian {
        lemma_be_bytes_value(val, size as nat);
    } else {
        lemma_le_bytes_value(val, size as nat);
    }
}

/// Can a value of `size` bytes at byte `skip` of a word of `ws` bytes be
/// read or written through at most two words: at least one byte, at most
/// eight, and spilling over no more than one word?
pub open spec fn access_fits(skip: int, size: int, ws: int) -> bool {
    &&& ws == 1 || ws == 2 || ws == 4 || ws == 8
    &&& 0 <= skip < ws
    &&& 1 <= size <= 8
    &&& size - (ws - skip) <= ws
    &&& size - (ws - skip) < 8
}

/// The value of `size` bytes starting at byte `skip` of word `w1`,
/// continuing into word `w2` when they spill over, with words of `ws`
/// bytes in the given byte order; a whole word is returned as it is.
pub open spec fn value_from_words(w1: u64, w2: u64, skip: int, size: int, ws: int, bigendian: bool) -> u64 {
    let size1 = ws - skip;
    if size > size1 {
        let size2 = size - size1;
        let gap = ws - size2;
        let res: u64 = if bigendian {
            ((w1 << (8 * size2) as u64) | (w2 >> (8 * gap) as u64)) as u64
        } else {
            ((w1 >> (8 * skip) as u64) | (w2 << (8 * size1) as u64)) as u64
        };
        (res & crate::space::spec_calc_mask(size)) as u64
    } else if size == ws {
        w1
    } else {
        let gap = size1 - size;
        let res: u64 = if bigendian {
            w1 >> (8 * gap) as u64
        } else {
            w1 >> (8 * skip) as u64
        };
        (res & crate::space::spec_calc_mask(size)) as u64
    }
}

/// The words `w1` (and `w2`, when the value spills over) after writing
/// the `size` bytes of `val` at byte `skip` of `w1`: the bytes outside
/// the value keep their old contents.
pub open spec fn words_after_set(w1: u64, w2: u64, skip: int, size: int, ws: int, bigendian: bool, val: u64) -> (u64, u64) {
    let size1 = ws - skip;
    if size > size1 {
        let size2 = size - size1;
        let gap = ws - size2;
        if bigendian {
            (((w1 & (u64::MAX << (8 * size1) as u64)) | (val >> (8 * size2) as u64)) as u64,
             ((w2 & (u64::MAX >> (8 * size2) as u64)) | (val << (8 * gap) as u64)) as u64)
        } else {
            (((w1 & (u64::MAX >> (8 * size1) as u64)) | (val << (8 * skip) as u64)) as u64,
             ((w2 & (u64::MAX << (8 * size2) as u64)) | (val >> (8 * size1) as u64)) as u64)
        }
    } else if size == ws {
        (val, w2)
    } else {
        let gap = size1 - size;
        let m = crate::space::spec_calc_mask(size);
        if bigendian {
            (((w1 & !((m << (8 * gap) as u64) as u64)) | (val << (8 * gap) as u64)) as u64, w2)
        } else {
            (((w1 & !((m << (8 * skip) as u64) as u64)) | (val << (8 * skip) as u64)) as u64, w2)
        }
    }
}

/// Does the value spill over into the second word?
pub open spec fn spills(skip: int, size: int, ws: int) -> bool {
    size > ws - skip
}

/// Read `size` bytes at byte `skip` of `w1` (and on into `w2`).
pub fn get_value_from_words(w1: u64, w2: u64, skip: i32, size: i32, ws: i32, bigendian: bool) -> (r: u64)
    requires
        access_fits(skip as int, size as int, ws as int),
    ensures
        r == value_from_words(w1, w2, skip as int, size as int, ws as int, bigendian),
{
    let size1 = ws - skip;
    if size > size1 {
        let size2 = size - size1;
        let gap = ws - size2;
        let res: u64 = if bigendian {
            (w1 << ((8 * size2) as u64)) | (w2 >> ((8 * gap) as u64))
        } else {
            (w1 >> ((8 * skip) as u64)) | (w2 << ((8 * size1) as u64))
        };
        res & crate::space::calc_mask(size)
    } else if size == ws {
        w1
    } else {
        let gap = size1 - size;
        let res: u64 = if bigendian {
            w1 >> ((8 * gap) as u64)
        } else {
            w1 >> ((8 * skip) as u64)
        };
        res & crate::space::calc_mask(size)
    }
}

/// The words after writing `size` bytes of `val` at byte `skip` of `w1`
/// (see [`words_after_set`]).
pub fn set_value_in_words(w1: u64, w2: u64, skip: i32, size: i32, ws: i32, bigendian: bool, val: u64) -> (r: (u64, u64))
    requires
        access_fits(skip as int, size as int, ws as int),
    ensures
        r == words_after_set(w1, w2, skip as int, size as int, ws as int, bigendian, val),
{
    let size1 = ws - skip;
    if size > size1 {
        let size2 = size - size1;
        let gap = ws - size2;
        if bigendian {
            ((w1 & (u64::MAX << ((8 * size1) as u64))) | (val >> ((8 * size2) as u64)),
             (w2 & (u64::MAX >> ((8 * size2) as u64))) | (val << ((8 * gap) as u64)))
        } else {
            ((w1 & (u64::MAX >> ((8 * size1) as u64))) | (val << ((8 * skip) as u64)),
             (w2 & (u64::MAX << ((8 * size2) as u64))) | (val >> ((8 * size1) as u64)))
        }
    } else if size == ws {
        (val, w2)
    } else {
        let gap = size1 - size;
        let m = crate::space::calc_mask(size);
        if bigendian {
            ((w1 & !(m << ((8 * gap) as u64))) | (val << ((8 * gap) as u64)), w2)
        } else {
            ((w1 & !(m << ((8 * skip) as u64))) | (val << ((8 * skip) as u64)), w2)
        }
    }
}

/// With 8-byte words, reading a value back after writing it gives the
/// value cut to its size.
pub proof fn lemma_value_after_set(w1: u64, w2: u64, skip: int, size: int, bigendian: bool, val: u64)
    requires
        access_fits(skip, size, 8),
    ensures
        ({
            let (n1, n2) = words_after_set(w1, w2, skip, size, 8, bigendian, val);
            value_from_words(n1, n2, skip, size, 8, bigendian) == (val & crate::space::spec_calc_mask(size)) as u64
        }),
{
    let m = crate::space::spec_calc_mask(size);
    let size1 = 8 - skip;
    if size > size1 {
        let s1: u64 = (8 * size1) as u64;
        let s2: u64 = (8 * (size - size1)) as u64;
        let sg: u64 = (8 * (8 - (size - size1))) as u64;
        let sk: u64 = (8 * skip) as u64;
        let st: u64 = (64 - 8 * size) as u64;
        if size == 8 {
            assert(u64::MAX >> 0u64 == u64::MAX) by (bit_vector);
        }
        assert(m == u64::MAX >> st);
        if bigendian {
            assert((((((w1 & (u64::MAX << s1)) | (val >> s2)) << s2) | (((w2 & (u64::MAX >> s2)) | (val << sg)) >> sg))
                & (u64::MAX >> st)) == val & (u64::MAX >> st)) by (bit_vector)
                requires
                    8 <= s1 <= 56,
                    8 <= s2 <= 56,
                    s1 + s2 + st == 64,
                    s2 + sg == 64;
        } else {
            assert((((((w1 & (u64::MAX >> s1)) | (val << sk)) >> sk) | (((w2 & (u64::MAX << s2)) | (val >> s1)) << s1))
                & (u64::MAX >> st)) == val & (u64::MAX >> st)) by (bit_vector)
                requires
                    8 <= s1 <= 56,
                    8 <= s2 <= 56,
                    s1 + s2 + st == 64,
                    sk + s1 == 64;
        }
    } else if size == 8 {
        assert(m == u64::MAX);
        assert(val & u64::MAX == val) by (bit_vector);
    } else {
        let sh: u64 = if bigendian { (8 * (size1 - size)) as u64 } else { (8 * skip) as u64 };
        let sz: u64 = (8 * size) as u64;
        let st: u64 = (64 - 8 * size) as u64;
        assert(m == u64::MAX >> st);
        assert((((w1 & !((m << sh) as u64)) | (val << sh)) >> sh) & m == val & m) by (bit_vector)
            requires
                sh + sz <= 64,
                8 <= sz < 64,
                sz + st == 64,
                m == u64::MAX >> st;
    }
}

/// A page of a memory bank: its (page-aligned) address and its bytes.
#[derive(Debug)]
pub struct MemPage {
    /// The address of the first byte of the page.
    pub addr: u64,
    /// The bytes of the page.
    pub bytes: Vec<u8>,
}

/// The bytes of the first page at `pa`, if any.
pub open spec fn page_lookup(pages: Seq<MemPage>, pa: u64) -> Option<Seq<u8>>
    decreases pages.len(),
{
    if pages.len() == 0 {
        None
    } else if pages[0].addr == pa {
        Some(pages[0].bytes@)
    } else {
        page_lookup(pages.drop_first(), pa)
    }
}

proof fn lemma_page_lookup_update(pages: Seq<MemPage>, i: int, p: MemPage, pa: u64)
    requires
        0 <= i < pages.len(),
        p.addr == pages[i].addr,
        forall|k: int| 0 <= k < i ==> (#[trigger] pages[k]).addr != pages[i].addr,
    ensures
        page_lookup(pages.update(i, p), pa) == if pa == p.addr { Some(p.bytes@) } else { page_lookup(pages, pa) },
    decreases i,
{
    let u = pages.update(i, p);
    if i > 0 {
        assert(u.drop_first() =~= pages.drop_first().update(i - 1, p));
        assert(pages.drop_first()[i - 1] == pages[i]);
        assert forall|k: int| 0 <= k < i - 1 implies (#[trigger] pages.drop_first()[k]).addr != pages.drop_first()[i - 1].addr by {
            assert(pages.drop_first()[k] == pages[k + 1]);
        }
        lemma_page_lookup_update(pages.drop_first(), i - 1, p, pa);
        assert(u[0] == pages[0]);
    } else {
        assert(u.drop_first() =~= pages.drop_first());
    }
}

proof fn lemma_page_lookup_push(pages: Seq<MemPage>, p: MemPage, pa: u64)
    requires
        forall|k: int| 0 <= k < pages.len() ==> (#[trigger] pages[k]).addr != p.addr,
    ensures
        page_lookup(pages.push(p), pa) == if pa == p.addr { Some(p.bytes@) } else { page_lookup(pages, pa) },
    decreases pages.len(),
{
    let u = pages.push(p);
    if pages.len() == 0 {
        assert(u.drop_first() =~= Seq::<MemPage>::empty());
        assert(page_lookup(u.drop_first(), pa) is None);
    } else {
        assert(u.drop_first() =~= pages.drop_first().push(p));
        assert forall|k: int| 0 <= k < pages.drop_first().len() implies (#[trigger] pages.drop_first()[k]).addr != p.addr by {
            assert(pages.drop_first()[k] == pages[k + 1]);
        }
        lemma_page_lookup_push(pages.drop_first(), p, pa);
    }
}

/// Decoding bytes that are all zero gives zero.
proof fn lemma_zero_value(s: Seq<u8>)
    requires
        forall|i: int| 0 <= i < s.len() ==> s[i] == 0,
    ensures
        be_value(s) == 0,
        le_value(s) == 0,
    decreases s.len(),
{
    if s.len() > 0 {
        lemma_zero_value(s.drop_last());
        lemma_zero_value(s.drop_first());
    }
}

/// Why a memory access failed.
#[derive(Debug, Clone, Copy, PartialEq, Eq, Structural)]
pub enum MemoryError {
    /// A value was written to a space with no bank.
    SetUnmapped,
    /// A value was read from a space with no bank.
    GetUnmapped,
    /// Bytes were read from a space with no bank.
    GetChunkUnmapped,
    /// Bytes were written to a space with no bank.
    SetChunkUnmapped,
    /// A word was written to a hash bank with no slot left for it.
    HashFull,
}

impl MemoryError {
    /// A description of the error.
    pub fn explain(&self) -> (r: &'static str)
        ensures
            *self == MemoryError::SetUnmapped ==> r@ == "Setting value for unmapped memory space"@,
            *self == MemoryError::GetUnmapped ==> r@ == "Getting value from unmapped memory space"@,
            *self == MemoryError::GetChunkUnmapped ==> r@ == "Getting chunk from unmapped memory space"@,
            *self == MemoryError::SetChunkUnmapped ==> r@ == "Setting chunk of unmapped memory space"@,
            *self == MemoryError::HashFull ==> r@ == "Memory state hash_table is full"@,
    {
        match self {
            MemoryError::SetUnmapped => "Setting value for unmapped memory space",
            MemoryError::GetUnmapped => "Getting value from unmapped memory space",
            MemoryError::GetChunkUnmapped => "Getting chunk from unmapped memory space",
            MemoryError::SetChunkUnmapped => "Setting chunk of unmapped memory space",
            MemoryError::HashFull => "Memory state hash_table is full",
        }
    }
}

/// A memory bank for one space holding the pages written to so far; every
/// byte never written reads as zero.  Words of `wordsize` bytes and pages
/// of `pagesize` bytes are aligned.
#[derive(Debug)]
pub struct MemoryPageOverlay {
    /// The space the bank holds.
    pub space: AddrSpace,
    /// The number of bytes in a word.
    pub wordsize: i32,
    /// The number of bytes in a page.
    pub pagesize: i32,
    /// The pages written to, each once.
    pub pages: Vec<MemPage>,
}

impl MemoryPageOverlay {
    /// Are the sizes sound (word size 1, 2, 4 or 8; a page of whole words)
    /// and every page a full page?
    pub open spec fn wf(&self) -> bool {
        &&& self.wordsize == 1 || self.wordsize == 2 || self.wordsize == 4 || self.wordsize == 8
        &&& self.wordsize <= self.pagesize <= 0x4000_0000
        &&& self.pagesize % self.wordsize == 0
        &&& 0x1_0000_0000_0000_0000int % (self.pagesize as int) == 0
        &&& forall|i: int| 0 <= i < self.pages@.len() ==> (#[trigger] self.pages@[i]).bytes@.len() == self.pagesize
    }

    /// The address of the page holding `a`.
    pub open spec fn page_of(&self, a: u64) -> u64 {
        (a - a % (self.pagesize as u64)) as u64
    }

    /// The byte at `a`.
    pub open spec fn byte_at(&self, a: u64) -> u8 {
        match page_lookup(self.pages@, self.page_of(a)) {
            Some(b) => b[(a % (self.pagesize as u64)) as int],
            None => 0,
        }
    }

    /// The bytes of the word at (aligned) address `a`.
    pub open spec fn word_bytes(&self, a: u64) -> Seq<u8> {
        Seq::new(self.wordsize as nat, |i: int| self.byte_at((a + i) as u64))
    }

    /// The word at (aligned) address `a`, decoded in the space's byte
    /// order.
    pub open spec fn word(&self, a: u64) -> u64 {
        spec_construct_value(self.word_bytes(a), self.wordsize as int, self.space.big_endian) as u64
    }

    /// The address of the word after the word at `ind` (modulo 2^64).
    pub open spec fn next_word(&self, ind: u64) -> u64 {
        ((ind + self.wordsize) % 0x1_0000_0000_0000_0000) as u64
    }

    /// The value of `size` bytes at `offset`, read through the words
    /// holding them.
    pub open spec fn read_value(&self, offset: u64, size: int) -> u64 {
        let skip = offset % (self.wordsize as u64);
        let ind = (offset - skip) as u64;
        value_from_words(self.word(ind), self.word(self.next_word(ind)), skip as int, size, self.wordsize as int, self.space.big_endian)
    }

    /// An empty bank for `spc`: every byte reads as zero.
    pub fn new(spc: AddrSpace, ws: i32, ps: i32) -> (r: MemoryPageOverlay)
        requires
            ws == 1 || ws == 2 || ws == 4 || ws == 8,
            ws <= ps <= 0x4000_0000,
            ps % ws == 0,
            0x1_0000_0000_0000_0000int % (ps as int) == 0,
        ensures
            r.wf(),
            r.space == spc,
            r.wordsize == ws,
            r.pagesize == ps,
            forall|a: u64| #[trigger] r.byte_at(a) == 0,
    {
        MemoryPageOverlay { space: spc, wordsize: ws, pagesize: ps, pages: Vec::new() }
    }

    /// The number of bytes in a word.
    pub fn get_word_size(&self) -> (r: i32)
        ensures
            r == self.wordsize,
    {
        self.wordsize
    }

    /// The number of bytes in a page.
    pub fn get_page_size(&self) -> (r: i32)
        ensures
            r == self.pagesize,
    {
        self.pagesize
    }

    /// The space the bank holds.
    pub fn get_space(&self) -> (r: AddrSpace)
        ensures
            r == self.space,
    {
        self.space
    }

    /// The index of the first page at `pa`, if any.
    fn find_page(&self, pa: u64) -> (r: Option<usize>)
        ensures
            r matches Some(i) ==> i < self.pages@.len() && self.pages@[i as int].addr == pa
                && page_lookup(self.pages@, pa) == Some(self.pages@[i as int].bytes@)
                && forall|k: int| 0 <= k < i ==> (#[trigger] self.pages@[k]).addr != pa,
            r is None ==> page_lookup(self.pages@, pa) is None
                && forall|k: int| 0 <= k < self.pages@.len() ==> (#[trigger] self.pages@[k]).addr != pa,
    {
        proof {
            assert(self.pages@.subrange(0, self.pages@.len() as int) =~= self.pages@);
        }
        let mut i: usize = 0;
        while i < self.pages.len()
            invariant
                i <= self.pages@.len(),
                page_lookup(self.pages@, pa) == page_lookup(self.pages@.subrange(i as int, self.pages@.len() as int), pa),
                forall|k: int| 0 <= k < i ==> (#[trigger] self.pages@[k]).addr != pa,
            decreases self.pages@.len() - i,
        {
            let ghost rest = self.pages@.subrange(i as int, self.pages@.len() as int);
            proof {
                assert(rest[0] == self.pages@[i as int]);
                assert(rest.drop_first() =~= self.pages@.subrange(i + 1, self.pages@.len() as int));
            }
            if self.pages[i].addr == pa {
                return Some(i);
            }
            i += 1;
        }
        proof {
            assert(self.pages@.subrange(self.pages@.len() as int, self.pages@.len() as int) =~= Seq::<MemPage>::empty());
        }
        None
    }

    /// The word at aligned address `a`.
    pub fn find(&self, a: u64) -> (r: u64)
        requires
            self.wf(),
            a % (self.wordsize as u64) == 0,
        ensures
            r == self.word(a),
    {
        let ps = self.pagesize as u64;
        let ws = self.wordsize as u64;
        let off = a % ps;
        proof {
            lemma_mod_below(a, ps);
        }
        let pa = a - off;
        proof {
            lemma_aligned_in_page(a, ws as int, ps as int);
            assert forall|i: int| 0 <= i < ws implies #[trigger] self.page_of((a + i) as u64) == pa
                && ((a + i) as u64) % ps == off + i by {
                lemma_word_byte_in_page(a, ws as int, ps as int, i);
            }
        }
        match self.find_page(pa) {
            None => {
                proof {
                    assert forall|i: int| 0 <= i < self.word_bytes(a).len() implies self.word_bytes(a)[i] == 0 by {
                    }
                    lemma_zero_value(decoded_window(self.word_bytes(a), ws as int, self.space.big_endian));
                }
                0
            },
            Some(i) => {
                let bytes = vstd::slice::slice_subrange(self.pages[i].bytes.as_slice(), off as usize, (off + ws) as usize);
                proof {
                    assert(bytes@ =~= self.word_bytes(a));
                }
                construct_value(bytes, self.wordsize, self.space.big_endian)
            },
        }
    }
}

impl MemoryPageOverlay {
    /// `count` zero bytes.
    fn zero_bytes(count: usize) -> (r: Vec<u8>)
        ensures
            r@.len() == count,
            forall|i: int| 0 <= i < count ==> #[trigger] r@[i] == 0,
    {
        let mut v: Vec<u8> = Vec::new();
        let mut i: usize = 0;
        while i < count
            invariant
                i <= count,
                v@.len() == i,
                forall|k: int| 0 <= k < i ==> #[trigger] v@[k] == 0,
            decreases count - i,
        {
            v.push(0);
            i += 1;
        }
        v
    }

    /// Write `val` as the word at aligned address `a`: its bytes become
    /// the encoding of `val` in the space's byte order, creating the page
    /// (zero-filled) when it was never written.
    pub fn insert(&mut self, a: u64, val: u64)
        requires
            old(self).wf(),
            a % (old(self).wordsize as u64) == 0,
        ensures
            final(self).wf(),
            final(self).space == old(self).space,
            final(self).wordsize == old(self).wordsize,
            final(self).pagesize == old(self).pagesize,
            forall|x: u64| #[trigger] final(self).byte_at(x) == if a <= x < a + old(self).wordsize {
                spec_deconstruct_value(val, old(self).wordsize as nat, old(self).space.big_endian)[x - a]
            } else {
                old(self).byte_at(x)
            },
    {
        let ps = self.pagesize as u64;
        let ws = self.wordsize as u64;
        let off = a % ps;
        proof {
            lemma_mod_below(a, ps);
            lemma_aligned_in_page(a, ws as int, ps as int);
        }
        let pa = a - off;
        let ghost old_pages = self.pages@;
        let idx: usize = match self.find_page(pa) {
            Some(i) => i,
            None => {
                let zeros = Self::zero_bytes(ps as usize);
                self.pages.push(MemPage { addr: pa, bytes: zeros });
                proof {
                    lemma_page_lookup_push(old_pages, self.pages@.last(), pa);
                    assert forall|q: u64| #[trigger] page_lookup(self.pages@, q) == if q == pa {
                        Some(zeros@)
                    } else {
                        page_lookup(old_pages, q)
                    } by {
                        lemma_page_lookup_push(old_pages, MemPage { addr: pa, bytes: zeros }, q);
                    }
                }
                self.pages.len() - 1
            },
        };
        let ghost mid_pages = self.pages@;
        let mut enc: Vec<u8> = Self::zero_bytes(ws as usize);
        deconstruct_value(enc.as_mut_slice(), val, self.wordsize, self.space.big_endian);
        proof {
            assert(enc@.subrange(0, ws as int) =~= enc@);
        }
        let mut nb: Vec<u8> = Vec::new();
        let mut j: usize = 0;
        while j < ps as usize
            invariant
                j <= ps,
                ps == self.pagesize,
                idx < self.pages@.len(),
                self.pages@ == mid_pages,
                self.pages@[idx as int].bytes@.len() == ps,
                enc@ == spec_deconstruct_value(val, ws as nat, self.space.big_endian),
                enc@.len() == ws,
                off + ws <= ps,
                nb@.len() == j,
                forall|k: int| 0 <= k < j ==> #[trigger] nb@[k] == if off <= k < off + ws {
                    enc@[k - off]
                } else {
                    self.pages@[idx as int].bytes@[k]
                },
            decreases ps - j,
        {
            if off as usize <= j && j < (off + ws) as usize {
                nb.push(enc[j - off as usize]);
            } else {
                nb.push(self.pages[idx].bytes[j]);
            }
            j += 1;
        }
        let ghost before = self.pages@;
        let ghost page_bytes = before[idx as int].bytes@;
        let newpage = MemPage { addr: pa, bytes: nb };
        self.pages.set(idx, newpage);
        proof {
            assert(page_lookup(before, pa) == Some(page_bytes));
            assert forall|k: int| 0 <= k < idx implies (#[trigger] before[k]).addr != before[idx as int].addr by {
            }
            assert forall|q: u64| #[trigger] page_lookup(self.pages@, q) == if q == pa {
                Some(nb@)
            } else {
                page_lookup(before, q)
            } by {
                lemma_page_lookup_update(before, idx as int, newpage, q);
            }
            assert forall|x: u64| #[trigger] self.byte_at(x) == if a <= x < a + ws {
                spec_deconstruct_value(val, ws as nat, self.space.big_endian)[x - a]
            } else {
                old(self).byte_at(x)
            } by {
                let px = (x - x % ps) as u64;
                lemma_mod_below(x, ps);
                if a <= x < a + ws {
                    lemma_word_byte_in_page(a, ws as int, ps as int, x - a);
                    assert(x == (a + (x - a)) as u64);
                } else if px == pa {
                    // same page, outside the word: the old byte (or zero)
                    assert(x % ps < off || x % ps >= off + ws);
                }
            }
            assert forall|i: int| 0 <= i < self.pages@.len() implies (#[trigger] self.pages@[i]).bytes@.len() == self.pagesize by {
                if i != idx {
                    assert(self.pages@[i] == before[i]);
                }
            }
        }
    }
}

/// The word at aligned `b` after a write of the word at aligned `a`: the
/// value written, cut to the word's bytes, at `a`; unchanged elsewhere.
pub proof fn lemma_word_after_insert(old_bank: MemoryPageOverlay, new_bank: MemoryPageOverlay, a: u64, val: u64, b: u64)
    requires
        old_bank.wf(),
        new_bank.wordsize == old_bank.wordsize,
        new_bank.pagesize == old_bank.pagesize,
        new_bank.space == old_bank.space,
        a % (old_bank.wordsize as u64) == 0,
        b % (old_bank.wordsize as u64) == 0,
        forall|x: u64| #[trigger] new_bank.byte_at(x) == if a <= x < a + old_bank.wordsize {
            spec_deconstruct_value(val, old_bank.wordsize as nat, old_bank.space.big_endian)[x - a]
        } else {
            old_bank.byte_at(x)
        },
    ensures
        new_bank.word(b) == if b == a {
            (val as nat % pow256(old_bank.wordsize as nat)) as u64
        } else {
            old_bank.word(b)
        },
{
    let ws = old_bank.wordsize as int;
    let be = old_bank.space.big_endian;
    lemma_aligned_in_page(a, ws, old_bank.pagesize as int);
    lemma_aligned_in_page(b, ws, old_bank.pagesize as int);
    if b == a {
        let enc = spec_deconstruct_value(val, ws as nat, be);
        assert(new_bank.word_bytes(a) =~= enc) by {
            assert forall|i: int| 0 <= i < ws implies #[trigger] new_bank.word_bytes(a)[i] == enc[i] by {
                assert(((a + i) as u64) - a == i);
            }
        }
        lemma_construct_deconstruct(val, ws, be);
    } else {
        assert(new_bank.word_bytes(b) =~= old_bank.word_bytes(b)) by {
            assert forall|i: int| 0 <= i < ws implies #[trigger] new_bank.word_bytes(b)[i] == old_bank.word_bytes(b)[i] by {
                let x = (b + i) as u64;
                assert(x == b + i);
                assert(!(a <= x < a + ws)) by {
                    if a <= x < a + ws {
                        lemma_aligned_distance(a, b, ws);
                    }
                }
            }
        }
    }
}

/// Rounding down to a multiple of `ws` gives a multiple of `ws`.
proof fn lemma_align_down(x: u64, ws: u64)
    requires
        ws > 0,
    ensures
        x % ws <= x,
        ((x - x % ws) as u64) % ws == 0,
{
    lemma_mod_below(x, ws);
    lemma_fundamental_div_mod(x as int, ws as int);
    let q = x as int / ws as int;
    assert((x - x % ws) as int == q * ws) by (nonlinear_arith)
        requires
            x as int == ws as int * q + (x % ws) as int;
    lemma_mod_multiples_basic(q, ws as int);
}

/// Two different multiples of `ws` are at least `ws` apart.
proof fn lemma_aligned_distance(a: u64, b: u64, ws: int)
    requires
        0 < ws <= 8,
        a % (ws as u64) == 0,
        b % (ws as u64) == 0,
        a != b,
    ensures
        b >= a + ws || a >= b + ws,
{
    assert(a as int % ws == (a % (ws as u64)) as int);
    assert(b as int % ws == (b % (ws as u64)) as int);
    lemma_fundamental_div_mod(a as int, ws);
    lemma_fundamental_div_mod(b as int, ws);
    let qa = a as int / ws;
    let qb = b as int / ws;
    assert(b >= a + ws || a >= b + ws) by (nonlinear_arith)
        requires
            a == ws * qa,
            b == ws * qb,
            a != b,
            ws > 0;
}

/// The address after an aligned word is aligned too.
proof fn lemma_next_word_aligned(ind: u64, ws: int)
    requires
        ws == 1 || ws == 2 || ws == 4 || ws == 8,
        ind % (ws as u64) == 0,
    ensures
        (((ind + ws) % 0x1_0000_0000_0000_0000) as u64) % (ws as u64) == 0,
        (((ind + ws) % 0x1_0000_0000_0000_0000) as u64) != ind,
{
    lemma_fundamental_div_mod(ind as int, ws);
    let q = ind as int / ws;
    if ind + ws < 0x1_0000_0000_0000_0000 {
        assert((ind + ws) % 0x1_0000_0000_0000_0000 == ind + ws);
        assert(ind + ws == ws * (q + 1)) by (nonlinear_arith)
            requires
                ind == ws * q;
        lemma_mod_multiples_basic(q + 1, ws);
        assert((ws * (q + 1)) % ws == 0) by {
            vstd::arithmetic::mul::lemma_mul_is_commutative(ws, q + 1);
        }
    } else {
        assert((ind + ws) % 0x1_0000_0000_0000_0000 == ind + ws - 0x1_0000_0000_0000_0000);
        lemma_aligned_in_page(ind, ws, 8);
        assert(ind + ws == 0x1_0000_0000_0000_0000);
    }
}

impl MemoryPageOverlay {
    /// The value of `size` bytes at `offset`, read through the aligned
    /// words holding them in the space's byte order (a whole aligned word
    /// is returned as it is).
    pub fn get_value(&self, offset: u64, size: i32) -> (r: u64)
        requires
            self.wf(),
            access_fits((offset % (self.wordsize as u64)) as int, size as int, self.wordsize as int),
        ensures
            r == self.read_value(offset, size as int),
    {
        let ws = self.wordsize as u64;
        let skip = offset % ws;
        proof {
            lemma_mod_below(offset, ws);
            lemma_align_down(offset, ws);
        }
        let ind = offset - skip;
        let w1 = self.find(ind);
        let spill = size > self.wordsize - skip as i32;
        let w2 = if spill {
            proof {
                lemma_next_word_aligned(ind, ws as int);
            }
            self.find(ind.wrapping_add(ws))
        } else {
            0
        };
        get_value_from_words(w1, w2, skip as i32, size, self.wordsize, self.space.big_endian)
    }

    /// Is this bank `before` with the `size` bytes of `val` written at
    /// `offset` through the aligned words holding them?  The word at the
    /// aligned address (and the next word, when the value spills over)
    /// take the value's bytes, every other word is kept; with 8-byte words
    /// the bytes read back give `val` cut to `size` bytes.
    pub open spec fn value_written(&self, before: MemoryPageOverlay, offset: u64, size: int, val: u64) -> bool {
        &&& self.wf()
        &&& self.space == before.space
        &&& self.wordsize == before.wordsize
        &&& self.pagesize == before.pagesize
        &&& ({
            let ws = before.wordsize;
            let skip = offset % (ws as u64);
            let ind = (offset - skip) as u64;
            let ind2 = before.next_word(ind);
            let sp = spills(skip as int, size, ws as int);
            let nw = words_after_set(before.word(ind), before.word(ind2), skip as int, size, ws as int,
                before.space.big_endian, val);
            forall|b: u64| b % (ws as u64) == 0 ==> #[trigger] self.word(b) == if b == ind {
                (nw.0 as nat % pow256(ws as nat)) as u64
            } else if sp && b == ind2 {
                (nw.1 as nat % pow256(ws as nat)) as u64
            } else {
                before.word(b)
            }
        })
        &&& before.wordsize == 8 ==> self.read_value(offset, size) == (val & crate::space::spec_calc_mask(size)) as u64
    }

    /// Write the `size` bytes of `val` at `offset` through the aligned
    /// words holding them: the word (and, when the value spills over, the
    /// next word) is read, the value's bytes replaced, and written back.
    /// With 8-byte words, reading the bytes back gives `val` cut to `size`
    /// bytes.
    pub fn set_value(&mut self, offset: u64, size: i32, val: u64)
        requires
            old(self).wf(),
            access_fits((offset % (old(self).wordsize as u64)) as int, size as int, old(self).wordsize as int),
        ensures
            final(self).value_written(*old(self), offset, size as int, val),
    {
        let ws = self.wordsize as u64;
        let skip = offset % ws;
        proof {
            lemma_mod_below(offset, ws);
            lemma_align_down(offset, ws);
        }
        let ind = offset - skip;
        let ghost ind2 = self.next_word(ind);
        proof {
            lemma_next_word_aligned(ind, ws as int);
        }
        let ghost ow1 = self.word(ind);
        let ghost ow2 = self.word(ind2);
        let ghost before = *self;
        let spill = size > self.wordsize - skip as i32;
        let w1 = self.find(ind);
        let w2 = if spill { self.find(ind.wrapping_add(ws)) } else { 0 };
        let (n1, n2) = set_value_in_words(w1, w2, skip as i32, size, self.wordsize, self.space.big_endian, val);
        proof {
            assert((n1, n2) == words_after_set(ow1, w2, skip as int, size as int, ws as int, self.space.big_endian, val));
        }
        self.insert(ind, n1);
        let ghost mid = *self;
        proof {
            assert forall|b: u64| b % ws == 0 implies #[trigger] mid.word(b) == if b == ind {
                (n1 as nat % pow256(ws as nat)) as u64
            } else {
                before.word(b)
            } by {
                lemma_word_after_insert(before, mid, ind, n1, b);
            }
        }
        if spill {
            self.insert(ind.wrapping_add(ws), n2);
            proof {
                assert forall|b: u64| b % ws == 0 implies #[trigger] self.word(b) == if b == ind2 {
                    (n2 as nat % pow256(ws as nat)) as u64
                } else {
                    mid.word(b)
                } by {
                    lemma_word_after_insert(mid, *self, ind2, n2, b);
                }
            }
        }
        proof {
            if ws == 8 {
                lemma_pow256_facts();
                lemma_value_after_set(ow1, ow2, skip as int, size as int, self.space.big_endian, val);
                assert(n1 as nat % pow256(8) == n1);
                assert(n2 as nat % pow256(8) == n2);
            }
        }
    }
}

/// The distance from `offset` up to `x`, modulo 2^64.
pub open spec fn dist(x: u64, offset: u64) -> int {
    (x as int - offset as int + 0x1_0000_0000_0000_0000) % 0x1_0000_0000_0000_0000
}

impl MemoryPageOverlay {
    /// Write the bytes `val` into the page at `pa` from byte `skip` on,
    /// creating the page (zero-filled) when it was never written.
    pub fn set_page(&mut self, pa: u64, val: &[u8], skip: i32)
        requires
            old(self).wf(),
            pa % (old(self).pagesize as u64) == 0,
            0 <= skip,
            skip + val@.len() <= old(self).pagesize,
        ensures
            final(self).wf(),
            final(self).space == old(self).space,
            final(self).wordsize == old(self).wordsize,
            final(self).pagesize == old(self).pagesize,
            forall|x: u64| #[trigger] final(self).byte_at(x) == if pa + skip <= x < pa + skip + val@.len() {
                val@[x - pa - skip]
            } else {
                old(self).byte_at(x)
            },
    {
        let ps = self.pagesize as u64;
        proof {
            lemma_fundamental_div_mod(0x1_0000_0000_0000_0000, ps as int);
            lemma_multiple_below(pa as int, ps as int, 0x1_0000_0000_0000_0000);
        }
        let ghost old_pages = self.pages@;
        let idx: usize = match self.find_page(pa) {
            Some(i) => i,
            None => {
                let zeros = Self::zero_bytes(ps as usize);
                self.pages.push(MemPage { addr: pa, bytes: zeros });
                proof {
                    assert forall|q: u64| #[trigger] page_lookup(self.pages@, q) == if q == pa {
                        Some(zeros@)
                    } else {
                        page_lookup(old_pages, q)
                    } by {
                        lemma_page_lookup_push(old_pages, MemPage { addr: pa, bytes: zeros }, q);
                    }
                }
                self.pages.len() - 1
            },
        };
        let ghost mid_pages = self.pages@;
        let skip = skip as usize;
        let n = val.len();
        let mut nb: Vec<u8> = Vec::new();
        let mut j: usize = 0;
        while j < ps as usize
            invariant
                j <= ps,
                ps == self.pagesize,
                idx < self.pages@.len(),
                self.pages@ == mid_pages,
                self.pages@[idx as int].bytes@.len() == ps,
                skip + n <= ps,
                n == val@.len(),
                nb@.len() == j,
                forall|k: int| 0 <= k < j ==> #[trigger] nb@[k] == if skip <= k < skip + n {
                    val@[k - skip]
                } else {
                    self.pages@[idx as int].bytes@[k]
                },
            decreases ps - j,
        {
            if skip <= j && j < skip + n {
                nb.push(val[j - skip]);
            } else {
                nb.push(self.pages[idx].bytes[j]);
            }
            j += 1;
        }
        let ghost before = self.pages@;
        let newpage = MemPage { addr: pa, bytes: nb };
        self.pages.set(idx, newpage);
        proof {
            assert forall|q: u64| #[trigger] page_lookup(self.pages@, q) == if q == pa {
                Some(nb@)
            } else {
                page_lookup(before, q)
            } by {
                lemma_page_lookup_update(before, idx as int, newpage, q);
            }
            assert forall|x: u64| #[trigger] self.byte_at(x) == if pa + skip <= x < pa + skip + n {
                val@[x - pa - skip]
            } else {
                old(self).byte_at(x)
            } by {
                lemma_mod_below(x, ps);
                let px = (x - x % ps) as u64;
                if pa <= x < pa + ps {
                    lemma_fundamental_div_mod(pa as int, ps as int);
                    assert(pa as int % ps as int == 0);
                    assert(x as int == (pa as int / ps as int) * ps as int + (x - pa)) by (nonlinear_arith)
                        requires
                            pa as int == ps as int * (pa as int / ps as int) + 0,
                            pa <= x;
                    lemma_fundamental_div_mod_converse(x as int, ps as int, pa as int / ps as int, x - pa);
                } else {
                    assert(px != pa) by {
                        lemma_fundamental_div_mod(x as int, ps as int);
                        lemma_fundamental_div_mod(pa as int, ps as int);
                        if px == pa {
                            assert(x < pa + ps);
                        }
                    }
                }
            }
            assert forall|i: int| 0 <= i < self.pages@.len() implies (#[trigger] self.pages@[i]).bytes@.len() == self.pagesize by {
                if i != idx {
                    assert(self.pages@[i] == before[i]);
                }
            }
        }
    }
}

impl MemoryPageOverlay {
    /// Read `res.len()` bytes of the page at `pa`, from byte `skip` on;
    /// a page never written reads as zeros.
    pub fn get_page(&self, pa: u64, res: &mut [u8], skip: i32)
        requires
            self.wf(),
            pa % (self.pagesize as u64) == 0,
            0 <= skip,
            skip + old(res)@.len() <= self.pagesize,
        ensures
            final(res)@.len() == old(res)@.len(),
            forall|i: int| 0 <= i < old(res)@.len() ==> #[trigger] final(res)@[i] == self.byte_at((pa + skip + i) as u64),
    {
        let ps = self.pagesize as u64;
        let skip = skip as usize;
        let n = res.len();
        let found = self.find_page(pa);
        let mut j: usize = 0;
        while j < n
            invariant
                self.wf(),
                ps == self.pagesize,
                pa % ps == 0,
                skip + n <= ps,
                n == res@.len(),
                found matches Some(i) ==> i < self.pages@.len() && self.pages@[i as int].addr == pa
                    && page_lookup(self.pages@, pa) == Some(self.pages@[i as int].bytes@),
                found is None ==> page_lookup(self.pages@, pa) is None,
                j <= n,
                forall|i: int| 0 <= i < j ==> #[trigger] res@[i] == self.byte_at((pa + skip + i) as u64),
            decreases n - j,
        {
            proof {
                lemma_in_page(pa, ps, (skip + j) as int);
            }
            let b: u8 = match found {
                Some(i) => self.pages[i].bytes[skip + j],
                None => 0,
            };
            res[j] = b;
            j += 1;
        }
    }
}

/// A byte `j` into the page at the aligned `pa` has its page at `pa` and
/// its position `j` in it.
proof fn lemma_in_page(pa: u64, ps: u64, j: int)
    requires
        0 < ps <= 0x4000_0000,
        0x1_0000_0000_0000_0000int % (ps as int) == 0,
        pa % ps == 0,
        0 <= j < ps,
    ensures
        pa + ps <= 0x1_0000_0000_0000_0000,
        ((pa + j) as u64) % ps == j,
        ((pa + j) as u64 - ((pa + j) as u64) % ps) == pa,
{
    lemma_multiple_below(pa as int, ps as int, 0x1_0000_0000_0000_0000);
    lemma_fundamental_div_mod(pa as int, ps as int);
    let q = pa as int / ps as int;
    assert(pa + j == q * ps + j) by (nonlinear_arith)
        requires
            pa as int == ps as int * q + 0;
    lemma_fundamental_div_mod_converse(pa + j, ps as int, q, j);
}

/// The address `i` bytes past `offset`, wrapping at the top of the space.
pub open spec fn chunk_pos(offset: u64, i: int) -> u64 {
    ((offset + i) % 0x1_0000_0000_0000_0000int) as u64
}

/// A number below twice 2^64 reduces modulo 2^64 by at most one
/// subtraction.
proof fn lemma_mod_once(a: int)
    requires
        0 <= a < 2 * 0x1_0000_0000_0000_0000int,
    ensures
        a % 0x1_0000_0000_0000_0000int == if a < 0x1_0000_0000_0000_0000int { a } else { a - 0x1_0000_0000_0000_0000int },
{
    if a < 0x1_0000_0000_0000_0000int {
        lemma_fundamental_div_mod_converse(a, 0x1_0000_0000_0000_0000int, 0, a);
    } else {
        lemma_fundamental_div_mod_converse(a, 0x1_0000_0000_0000_0000int, 1, a - 0x1_0000_0000_0000_0000int);
    }
}

/// The window of `cs` bytes starting at `off`, the address `count` bytes
/// past `offset`, is exactly the set of addresses at a distance from
/// `count` to `count + cs` past `offset`.
proof fn lemma_dist_window(x: u64, offset: u64, count: int, off: u64, cs: int)
    requires
        0 <= count,
        0 <= cs,
        count + cs < 0x1_0000_0000_0000_0000int,
        off == chunk_pos(offset, count),
        off + cs <= 0x1_0000_0000_0000_0000int,
    ensures
        (off <= x < off + cs) <==> (count <= dist(x, offset) < count + cs),
        off <= x < off + cs ==> dist(x, offset) == count + (x - off),
{
    lemma_mod_once(offset + count);
    lemma_mod_once(x - offset + 0x1_0000_0000_0000_0000int);
}

impl MemoryPageOverlay {
    /// Read `res.len()` bytes starting at `offset`, page by page; the range
    /// wraps at the top of the space.
    pub fn get_chunk(&self, offset: u64, res: &mut [u8])
        requires
            self.wf(),
            old(res)@.len() <= i32::MAX,
        ensures
            final(res)@.len() == old(res)@.len(),
            forall|i: int| 0 <= i < old(res)@.len() ==> #[trigger] final(res)@[i] == self.byte_at(chunk_pos(offset, i)),
    {
        let ps = self.pagesize as u64;
        let size = res.len();
        let mut count: usize = 0;
        let mut off = offset;
        proof {
            lemma_mod_once(offset as int);
        }
        while count < size
            invariant
                self.wf(),
                ps == self.pagesize,
                size == res@.len(),
                size <= i32::MAX,
                count <= size,
                off == chunk_pos(offset, count as int),
                forall|i: int| 0 <= i < count ==> #[trigger] res@[i] == self.byte_at(chunk_pos(offset, i)),
            decreases size - count,
        {
            let skip = off % ps;
            proof {
                lemma_mod_below(off, ps);
            }
            let offalign = off - skip;
            let mut cursize = ps - skip;
            if ((size - count) as u64) < cursize {
                cursize = (size - count) as u64;
            }
            proof {
                lemma_mod_below(off, ps);
                lemma_fundamental_div_mod(off as int, ps as int);
                lemma_mod_mod(off as int, ps as int, 1);
                assert(offalign % ps == 0) by {
                    lemma_fundamental_div_mod_converse(offalign as int, ps as int, off as int / ps as int, 0);
                }
                lemma_in_page(offalign, ps, 0);
            }
            let mut buf = Self::zero_bytes(cursize as usize);
            self.get_page(offalign, buf.as_mut_slice(), skip as i32);
            let mut k: usize = 0;
            while k < cursize as usize
                invariant
                    self.wf(),
                    size == res@.len(),
                    count + cursize <= size,
                    size <= i32::MAX,
                    buf@.len() == cursize,
                    off + cursize <= 0x1_0000_0000_0000_0000int,
                    off == chunk_pos(offset, count as int),
                    forall|i: int| 0 <= i < cursize ==> #[trigger] buf@[i] == self.byte_at((off + i) as u64),
                    k <= cursize,
                    forall|i: int| 0 <= i < count + k ==> #[trigger] res@[i] == self.byte_at(chunk_pos(offset, i)),
                decreases cursize - k,
            {
                proof {
                    lemma_mod_once(offset + count + k);
                    lemma_mod_once(offset + count);
                }
                res[count + k] = buf[k];
                k += 1;
            }
            proof {
                lemma_mod_once(offset + count + cursize);
                lemma_mod_once(offset + count);
                lemma_mod_once(off + cursize);
            }
            count += cursize as usize;
            off = off.wrapping_add(cursize);
        }
    }

    /// Is this bank `before` with the bytes `val` written from `offset` on
    /// (wrapping at the top of the space), every other byte kept?
    pub open spec fn chunk_written(&self, before: MemoryPageOverlay, offset: u64, val: Seq<u8>) -> bool {
        &&& self.wf()
        &&& self.space == before.space
        &&& self.wordsize == before.wordsize
        &&& self.pagesize == before.pagesize
        &&& forall|x: u64| #[trigger] self.byte_at(x) == if dist(x, offset) < val.len() {
            val[dist(x, offset)]
        } else {
            before.byte_at(x)
        }
    }

    /// Write the bytes `val` starting at `offset`, page by page; the range
    /// wraps at the top of the space.
    pub fn set_chunk(&mut self, offset: u64, val: &[u8])
        requires
            old(self).wf(),
            val@.len() <= i32::MAX,
        ensures
            final(self).chunk_written(*old(self), offset, val@),
    {
        let ps = self.pagesize as u64;
        let size = val.len();
        let mut count: usize = 0;
        let mut off = offset;
        proof {
            lemma_mod_once(offset as int);
        }
        while count < size
            invariant
                self.wf(),
                ps == self.pagesize,
                self.space == old(self).space,
                self.wordsize == old(self).wordsize,
                self.pagesize == old(self).pagesize,
                size == val@.len(),
                size <= i32::MAX,
                count <= size,
                off == chunk_pos(offset, count as int),
                forall|x: u64| #[trigger] self.byte_at(x) == if dist(x, offset) < count {
                    val@[dist(x, offset)]
                } else {
                    old(self).byte_at(x)
                },
            decreases size - count,
        {
            let skip = off % ps;
            proof {
                lemma_mod_below(off, ps);
            }
            let offalign = off - skip;
            let mut cursize = ps - skip;
            if ((size - count) as u64) < cursize {
                cursize = (size - count) as u64;
            }
            proof {
                lemma_mod_below(off, ps);
                lemma_fundamental_div_mod(off as int, ps as int);
                assert(offalign % ps == 0) by {
                    lemma_fundamental_div_mod_converse(offalign as int, ps as int, off as int / ps as int, 0);
                }
                lemma_in_page(offalign, ps, 0);
            }
            let piece = vstd::slice::slice_subrange(val, count, count + cursize as usize);
            let ghost before = *self;
            self.set_page(offalign, piece, skip as i32);
            proof {
                assert forall|x: u64| #[trigger] self.byte_at(x) == if dist(x, offset) < count + cursize {
                    val@[dist(x, offset)]
                } else {
                    old(self).byte_at(x)
                } by {
                    lemma_dist_window(x, offset, count as int, off, cursize as int);
                    assert(before.byte_at(x) == if dist(x, offset) < count {
                        val@[dist(x, offset)]
                    } else {
                        old(self).byte_at(x)
                    });
                }
                lemma_mod_once(offset + count + cursize);
                lemma_mod_once(offset + count);
                lemma_mod_once(off + cursize);
            }
            count += cursize as usize;
            off = off.wrapping_add(cursize);
        }
    }
}

/// An address aligned to the word size (which divides the page size)
/// has its whole word in its page.
proof fn lemma_aligned_in_page(a: u64, ws: int, ps: int)
    requires
        ws == 1 || ws == 2 || ws == 4 || ws == 8,
        ws <= ps <= 0x4000_0000,
        ps % ws == 0,
        a % (ws as u64) == 0,
    ensures
        a % (ps as u64) + ws <= ps,
        a as int + ws <= 0x1_0000_0000_0000_0000,
{
    let k = ps / ws;
    lemma_fundamental_div_mod(ps, ws);
    assert(ps == ws * k);
    let r = a as int % ps;
    lemma_mod_mod(a as int, ws, k);
    assert(r % ws == 0);
    lemma_multiple_below(r, ws, ps);
    lemma_fundamental_div_mod(0x1_0000_0000_0000_0000, ws);
    lemma_multiple_below(a as int, ws, 0x1_0000_0000_0000_0000);
}

/// Byte `i` of an aligned word lies in the word's page, at the word's
/// offset plus `i`.
proof fn lemma_word_byte_in_page(a: u64, ws: int, ps: int, i: int)
    requires
        ws == 1 || ws == 2 || ws == 4 || ws == 8,
        ws <= ps <= 0x4000_0000,
        ps % ws == 0,
        a % (ws as u64) == 0,
        0 <= i < ws,
    ensures
        a + i < 0x1_0000_0000_0000_0000,
        ((a + i) as u64) % (ps as u64) == a % (ps as u64) + i,
        ((a + i) as u64 - ((a + i) as u64) % (ps as u64)) == a - a % (ps as u64),
{
    lemma_aligned_in_page(a, ws, ps);
    let r = a as int % ps;
    let q = a as int / ps;
    lemma_fundamental_div_mod(a as int, ps);
    assert((a + i) as u64 == a + i);
    assert(a + i == q * ps + (r + i)) by (nonlinear_arith)
        requires
            a == ps * q + r;
    lemma_fundamental_div_mod_converse(a + i, ps, q, r + i);
}

/// A remainder is no larger than the number divided.
proof fn lemma_mod_below(a: u64, ps: u64)
    requires
        ps > 0,
    ensures
        a % ps <= a,
{
    lemma_fundamental_div_mod(a as int, ps as int);
    assert(a as int / ps as int >= 0) by {
        vstd::arithmetic::div_mod::lemma_div_pos_is_pos(a as int, ps as int);
    }
    assert(ps as int * (a as int / ps as int) >= 0) by (nonlinear_arith)
        requires
            ps > 0,
            a as int / ps as int >= 0;
}

/// A multiple of `ws` below a multiple `n` of `ws` leaves room for `ws`
/// more.
proof fn lemma_multiple_below(r: int, ws: int, n: int)
    requires
        ws > 0,
        0 <= r < n,
        r % ws == 0,
        n % ws == 0,
    ensures
        r + ws <= n,
{
    lemma_fundamental_div_mod(r, ws);
    lemma_fundamental_div_mod(n, ws);
    let q1 = r / ws;
    let q2 = n / ws;
    assert(r + ws <= n) by (nonlinear_arith)
        requires
            r == ws * q1,
            n == ws * q2,
            r < n,
            ws > 0;
}

/// Reading a chunk back after writing it gives the bytes written: when
/// `after` is `before` with `val` written from `offset` on, the byte `i`
/// places past `offset` reads as `val[i]`.
pub proof fn lemma_chunk_read_after_write(before: MemoryPageOverlay, after: MemoryPageOverlay, offset: u64, val: Seq<u8>, i: int)
    requires
        after.chunk_written(before, offset, val),
        0 <= i < val.len(),
        val.len() <= i32::MAX,
    ensures
        after.byte_at(chunk_pos(offset, i)) == val[i],
{
    lemma_mod_once(offset + i);
    lemma_mod_once(chunk_pos(offset, i) - offset + 0x1_0000_0000_0000_0000int);
    assert(dist(chunk_pos(offset, i), offset) == i);
}

/// Writing a chunk leaves every byte outside it as it was: a byte whose
/// distance past `offset` is at least the chunk's length keeps its value.
pub proof fn lemma_chunk_write_keeps_rest(before: MemoryPageOverlay, after: MemoryPageOverlay, offset: u64, val: Seq<u8>, x: u64)
    requires
        after.chunk_written(before, offset, val),
        dist(x, offset) >= val.len(),
    ensures
        after.byte_at(x) == before.byte_at(x),
{
}

/// The complete state of a p-code machine: one bank per address space,
/// found by the space's index.
#[derive(Debug)]
pub struct MemoryState {
    /// The banks, indexed by space index; `None` where no bank is mapped.
    pub memspace: Vec<Option<MemoryPageOverlay>>,
}

impl MemoryState {
    /// Is every mapped bank sound and stored under its own space's index?
    pub open spec fn wf(&self) -> bool {
        forall|i: int| 0 <= i < self.memspace@.len() ==> match #[trigger] self.memspace@[i] {
            Some(b) => b.wf() && b.space.index == i,
            None => true,
        }
    }

    /// The bank mapped for the space with index `idx`, if any.
    pub open spec fn bank(&self, idx: int) -> Option<MemoryPageOverlay> {
        if 0 <= idx < self.memspace@.len() {
            self.memspace@[idx]
        } else {
            None
        }
    }

    /// A state with no bank mapped.
    pub fn new() -> (r: MemoryState)
        ensures
            r.wf(),
            forall|i: int| #[trigger] r.bank(i) is None,
    {
        MemoryState { memspace: Vec::new() }
    }

    /// Map `bank` for its space, replacing any bank mapped there before.
    pub fn set_memory_bank(&mut self, bank: MemoryPageOverlay)
        requires
            old(self).wf(),
            bank.wf(),
            bank.space.index >= 0,
        ensures
            final(self).wf(),
            forall|i: int| #[trigger] final(self).bank(i) == if i == bank.space.index {
                Some(bank)
            } else {
                old(self).bank(i)
            },
    {
        let index = bank.space.index as usize;
        while index >= self.memspace.len()
            invariant
                self.wf(),
                forall|i: int| #[trigger] self.bank(i) == old(self).bank(i),
            decreases index + 1 - self.memspace@.len(),
        {
            let ghost prev = *self;
            self.memspace.push(None);
            proof {
                assert forall|i: int| #[trigger] self.bank(i) == old(self).bank(i) by {
                    assert(self.bank(i) == prev.bank(i));
                }
            }
        }
        let ghost prev = *self;
        self.memspace.set(index, Some(bank));
        proof {
            assert forall|i: int| #[trigger] self.bank(i) == if i == bank.space.index {
                Some(bank)
            } else {
                old(self).bank(i)
            } by {
                assert(i != index ==> self.bank(i) == prev.bank(i));
            }
        }
    }

    /// The bank mapped for `spc`, if any.
    pub fn get_memory_bank(&self, spc: &AddrSpace) -> (r: Option<&MemoryPageOverlay>)
        ensures
            r == match self.bank(spc.index as int) {
                Some(b) => Some(&b),
                None => None::<&MemoryPageOverlay>,
            },
    {
        if spc.index < 0 || spc.index as usize >= self.memspace.len() {
            return None;
        }
        match &self.memspace[spc.index as usize] {
            Some(b) => Some(b),
            None => None,
        }
    }

    /// The index of `spc`'s bank in the table, when one is mapped.
    fn bank_index(&self, spc: &AddrSpace) -> (r: Option<usize>)
        ensures
            r matches Some(i) ==> i == spc.index && i < self.memspace@.len() && self.memspace@[i as int] is Some,
            r is None <==> self.bank(spc.index as int) is None,
    {
        if spc.index < 0 || spc.index as usize >= self.memspace.len() {
            return None;
        }
        let i = spc.index as usize;
        if self.memspace[i].is_some() {
            Some(i)
        } else {
            None
        }
    }

    /// Write the `size` bytes of `cval` at `off` in `spc`'s bank; an error
    /// when no bank is mapped for `spc`.
    pub fn set_value(&mut self, spc: &AddrSpace, off: u64, size: i32, cval: u64) -> (r: Result<(), MemoryError>)
        requires
            old(self).wf(),
            old(self).bank(spc.index as int) matches Some(b) ==> access_fits((off % (b.wordsize as u64)) as int, size as int, b.wordsize as int),
        ensures
            final(self).wf(),
            r is Err <==> old(self).bank(spc.index as int) is None,
            r matches Err(e) ==> e == MemoryError::SetUnmapped && *final(self) == *old(self),
            r is Ok ==> (final(self).bank(spc.index as int) matches Some(nb) && old(self).bank(spc.index as int) matches Some(ob)
                && nb.value_written(ob, off, size as int, cval)),
            forall|i: int| i != spc.index ==> #[trigger] final(self).bank(i) == old(self).bank(i),
    {
        match self.bank_index(spc) {
            None => Err(MemoryError::SetUnmapped),
            Some(i) => {
                let ghost prev = *self;
                match &mut self.memspace[i] {
                    Some(b) => {
                        b.set_value(off, size, cval);
                    },
                    None => {},
                }
                proof {
                    assert forall|k: int| 0 <= k < self.memspace@.len() implies match #[trigger] self.memspace@[k] {
                        Some(b) => b.wf() && b.space.index == k,
                        None => true,
                    } by {
                        if k != i {
                            assert(self.memspace@[k] == prev.memspace@[k]);
                        }
                    }
                }
                Ok(())
            },
        }
    }

    /// The value of the `size` bytes at `off` in `spc`: in the constant
    /// space the offset itself, elsewhere read from `spc`'s bank; an error
    /// when no bank is mapped for `spc`.
    pub fn get_value(&self, spc: &AddrSpace, off: u64, size: i32) -> (r: Result<u64, MemoryError>)
        requires
            self.wf(),
            spc.space_type != SpaceType::Constant ==> (self.bank(spc.index as int) matches Some(b) ==> access_fits((off % (b.wordsize as u64)) as int, size as int, b.wordsize as int)),
        ensures
            r == if spc.space_type == SpaceType::Constant {
                Ok(off)
            } else {
                match self.bank(spc.index as int) {
                    Some(b) => Ok(b.read_value(off, size as int)),
                    None => Err(MemoryError::GetUnmapped),
                }
            },
    {
        if spc.space_type == SpaceType::Constant {
            return Ok(off);
        }
        match self.get_memory_bank(spc) {
            None => Err(MemoryError::GetUnmapped),
            Some(b) => Ok(b.get_value(off, size)),
        }
    }

    /// Write the value `cval` into the storage `vn`.
    pub fn set_value_data(&mut self, vn: &VarnodeLoc, cval: u64) -> (r: Result<(), MemoryError>)
        requires
            old(self).wf(),
            vn.size <= i32::MAX,
            old(self).bank(vn.space.index as int) matches Some(b) ==> access_fits((vn.offset % (b.wordsize as u64)) as int, vn.size as int, b.wordsize as int),
        ensures
            final(self).wf(),
            r is Err <==> old(self).bank(vn.space.index as int) is None,
            r matches Err(e) ==> e == MemoryError::SetUnmapped && *final(self) == *old(self),
            r is Ok ==> (final(self).bank(vn.space.index as int) matches Some(nb) && old(self).bank(vn.space.index as int) matches Some(ob)
                && nb.value_written(ob, vn.offset, vn.size as int, cval)),
            forall|i: int| i != vn.space.index ==> #[trigger] final(self).bank(i) == old(self).bank(i),
    {
        self.set_value(&vn.space, vn.offset, vn.size as i32, cval)
    }

    /// The value held in the storage `vn`.
    pub fn get_value_data(&self, vn: &VarnodeLoc) -> (r: Result<u64, MemoryError>)
        requires
            self.wf(),
            vn.size <= i32::MAX,
            vn.space.space_type != SpaceType::Constant ==> (self.bank(vn.space.index as int) matches Some(b) ==> access_fits((vn.offset % (b.wordsize as u64)) as int, vn.size as int, b.wordsize as int)),
        ensures
            r == if vn.space.space_type == SpaceType::Constant {
                Ok(vn.offset)
            } else {
                match self.bank(vn.space.index as int) {
                    Some(b) => Ok(b.read_value(vn.offset, vn.size as int)),
                    None => Err(MemoryError::GetUnmapped),
                }
            },
    {
        self.get_value(&vn.space, vn.offset, vn.size as i32)
    }

    /// Read `res.len()` bytes from `off` on in `spc`'s bank; an error when
    /// no bank is mapped for `spc`, leaving `res` as it was.
    pub fn get_chunk(&self, res: &mut [u8], spc: &AddrSpace, off: u64) -> (r: Result<(), MemoryError>)
        requires
            self.wf(),
            old(res)@.len() <= i32::MAX,
        ensures
            final(res)@.len() == old(res)@.len(),
            r is Err <==> self.bank(spc.index as int) is None,
            r matches Err(e) ==> e == MemoryError::GetChunkUnmapped && final(res)@ == old(res)@,
            self.bank(spc.index as int) matches Some(b) ==> forall|i: int| 0 <= i < old(res)@.len() ==> #[trigger] final(res)@[i] == b.byte_at(chunk_pos(off, i)),
    {
        match self.get_memory_bank(spc) {
            None => Err(MemoryError::GetChunkUnmapped),
            Some(b) => {
                b.get_chunk(off, res);
                Ok(())
            },
        }
    }

    /// Write the bytes `val` from `off` on in `spc`'s bank; an error when no
    /// bank is mapped for `spc`.
    pub fn set_chunk(&mut self, val: &[u8], spc: &AddrSpace, off: u64) -> (r: Result<(), MemoryError>)
        requires
            old(self).wf(),
            val@.len() <= i32::MAX,
        ensures
            final(self).wf(),
            r is Err <==> old(self).bank(spc.index as int) is None,
            r matches Err(e) ==> e == MemoryError::SetChunkUnmapped && *final(self) == *old(self),
            r is Ok ==> (final(self).bank(spc.index as int) matches Some(nb) && old(self).bank(spc.index as int) matches Some(ob)
                && nb.chunk_written(ob, off, val@)),
            forall|i: int| i != spc.index ==> #[trigger] final(self).bank(i) == old(self).bank(i),
    {
        match self.bank_index(spc) {
            None => Err(MemoryError::SetChunkUnmapped),
            Some(i) => {
                let ghost prev = *self;
                match &mut self.memspace[i] {
                    Some(b) => {
                        b.set_chunk(off, val);
                    },
                    None => {},
                }
                proof {
                    assert forall|k: int| 0 <= k < self.memspace@.len() implies match #[trigger] self.memspace@[k] {
                        Some(b) => b.wf() && b.space.index == k,
                        None => true,
                    } by {
                        if k != i {
                            assert(self.memspace@[k] == prev.memspace@[k]);
                        }
                    }
                }
                Ok(())
            },
        }
    }
}

/// The address that marks an empty slot of a hash bank.
pub open spec fn empty_slot_addr() -> u64 {
    0xBADBEEF
}

/// Following the probe sequence of `a` through the slots `addrs` from
/// `slot`, at step `k` of at most `addrs.len()`, each step 1023 slots on
/// (wrapping): `(0, s)` when slot `s` holds `a`, `(1, s)` when slot `s` is
/// empty first, `(2, 0)` when the steps run out.
pub open spec fn hash_probe(addrs: Seq<u64>, a: u64, slot: int, k: int) -> (int, int)
    decreases addrs.len() - k,
{
    if k < 0 || k >= addrs.len() || slot < 0 || slot >= addrs.len() {
        (2, 0)
    } else if addrs[slot] == a {
        (0, slot)
    } else if addrs[slot] == empty_slot_addr() {
        (1, slot)
    } else {
        hash_probe(addrs, a, (slot + 1023) % (addrs.len() as int), k + 1)
    }
}

/// The slot where probing for `a` starts: its address without the low
/// `shift` bits, modulo the table size.
pub open spec fn hash_home(addrs: Seq<u64>, a: u64, shift: int) -> int {
    ((a >> (shift as u64)) % (addrs.len() as u64)) as int
}

/// The word held for `a` in the table: that of the slot probing finds
/// holding `a`, or zero.
pub open spec fn hash_word(addrs: Seq<u64>, vals: Seq<u64>, a: u64, shift: int) -> u64 {
    let p = hash_probe(addrs, a, hash_home(addrs, a, shift), 0);
    if p.0 == 0 {
        vals[p.1]
    } else {
        0
    }
}

/// The table after storing `val` for `a`: in the slot holding `a`, or in
/// the first empty slot probing reaches (which takes `a`); `None` when
/// probing finds neither.
pub open spec fn hash_store(addrs: Seq<u64>, vals: Seq<u64>, a: u64, shift: int, val: u64) -> Option<(Seq<u64>, Seq<u64>)> {
    let p = hash_probe(addrs, a, hash_home(addrs, a, shift), 0);
    if p.0 == 2 {
        None
    } else if p.0 == 0 {
        Some((addrs, vals.update(p.1, val)))
    } else {
        Some((addrs.update(p.1, a), vals.update(p.1, val)))
    }
}

/// Does probing for the address of every occupied slot find that slot?
pub open spec fn hash_consistent(addrs: Seq<u64>, shift: int) -> bool {
    forall|t: int| 0 <= t < addrs.len() && addrs[t] != empty_slot_addr() ==> #[trigger] hash_probe(addrs, addrs[t],
        hash_home(addrs, addrs[t], shift), 0) == (0int, t)
}

/// A memory bank for one space holding written words in a hash table of
/// fixed size (open addressing, probing 1023 slots on); a word never
/// written reads as zero.
#[derive(Debug)]
pub struct MemoryHashOverlay {
    /// The space the bank holds.
    pub space: AddrSpace,
    /// The number of bytes in a word.
    pub wordsize: i32,
    /// The number of bytes in a page.
    pub pagesize: i32,
    /// How many low address bits are dropped when hashing.
    pub alignshift: i32,
    /// How many slots a probe moves on after a collision.
    pub collideskip: u64,
    /// The address held in each slot.
    pub address: Vec<u64>,
    /// The word held in each slot.
    pub value: Vec<u64>,
}

/// The number of bits below a power of two (the number of bits of
/// `ws - 1`).
pub open spec fn align_bits(ws: int) -> int {
    if ws == 1 {
        0
    } else if ws == 2 {
        1
    } else if ws == 4 {
        2
    } else {
        3
    }
}

/// Where probing stops, the slot is in range and holds `a` (found) or the
/// empty mark.
proof fn lemma_probe_stop(b: Seq<u64>, a: u64, slot: int, k: int)
    ensures
        0 <= hash_probe(b, a, slot, k).0 <= 2,
        hash_probe(b, a, slot, k).0 != 2 ==> 0 <= hash_probe(b, a, slot, k).1 < b.len(),
        hash_probe(b, a, slot, k).0 == 0 ==> b[hash_probe(b, a, slot, k).1] == a,
        hash_probe(b, a, slot, k).0 == 1 ==> b[hash_probe(b, a, slot, k).1] == empty_slot_addr(),
    decreases b.len() - k,
{
    if 0 <= k < b.len() && 0 <= slot < b.len() && b[slot] != a && b[slot] != empty_slot_addr() {
        lemma_probe_stop(b, a, (slot + 1023) % (b.len() as int), k + 1);
    }
}

impl MemoryHashOverlay {
    /// Are the sizes sound and the two tables of the same, nonzero, size?
    pub open spec fn wf(&self) -> bool {
        &&& self.wordsize == 1 || self.wordsize == 2 || self.wordsize == 4 || self.wordsize == 8
        &&& self.alignshift == align_bits(self.wordsize as int)
        &&& self.collideskip == 1023
        &&& self.address@.len() == self.value@.len()
        &&& 0 < self.address@.len() <= i32::MAX
        &&& hash_consistent(self.address@, self.alignshift as int)
    }

    /// The word at (aligned) address `a`.
    pub open spec fn word(&self, a: u64) -> u64 {
        hash_word(self.address@, self.value@, a, self.alignshift as int)
    }

    /// The value of `size` bytes at `offset`, read through the words
    /// holding them.
    pub open spec fn read_value(&self, offset: u64, size: int) -> u64 {
        let ws = self.wordsize as u64;
        let skip = offset % ws;
        let ind = (offset - skip) as u64;
        value_from_words(self.word(ind), self.word(((ind + ws) % 0x1_0000_0000_0000_0000int) as u64), skip as int,
            size, self.wordsize as int, self.space.big_endian)
    }

    /// Do the two banks agree but for their tables?
    pub open spec fn same_shape(&self, other: MemoryHashOverlay) -> bool {
        &&& self.space == other.space
        &&& self.wordsize == other.wordsize
        &&& self.pagesize == other.pagesize
        &&& self.alignshift == other.alignshift
        &&& self.collideskip == other.collideskip
    }

    /// A bank for `spc` with `hashsize` empty slots: every word reads as
    /// zero.
    pub fn new(spc: AddrSpace, ws: i32, ps: i32, hashsize: i32) -> (r: MemoryHashOverlay)
        requires
            ws == 1 || ws == 2 || ws == 4 || ws == 8,
            hashsize > 0,
        ensures
            r.wf(),
            r.space == spc,
            r.wordsize == ws,
            r.pagesize == ps,
            r.address@ == Seq::new(hashsize as nat, |i: int| empty_slot_addr()),
            r.value@ == Seq::new(hashsize as nat, |i: int| 0u64),
    {
        let mut address: Vec<u64> = Vec::new();
        let mut value: Vec<u64> = Vec::new();
        let mut i: i32 = 0;
        while i < hashsize
            invariant
                0 <= i <= hashsize,
                address@ == Seq::new(i as nat, |k: int| empty_slot_addr()),
                value@ == Seq::new(i as nat, |k: int| 0u64),
            decreases hashsize - i,
        {
            address.push(0xBADBEEF);
            value.push(0);
            i += 1;
            proof {
                assert(address@ =~= Seq::new(i as nat, |k: int| empty_slot_addr()));
                assert(value@ =~= Seq::new(i as nat, |k: int| 0u64));
            }
        }
        let alignshift: i32 = if ws == 1 {
            0
        } else if ws == 2 {
            1
        } else if ws == 4 {
            2
        } else {
            3
        };
        MemoryHashOverlay { space: spc, wordsize: ws, pagesize: ps, alignshift, collideskip: 1023, address, value }
    }

    /// Probe for `a` (see [`hash_probe`]).
    fn probe_exec(&self, a: u64) -> (r: (u8, usize))
        requires
            self.wf(),
        ensures
            r.0 as int == hash_probe(self.address@, a, hash_home(self.address@, a, self.alignshift as int), 0).0,
            r.1 as int == hash_probe(self.address@, a, hash_home(self.address@, a, self.alignshift as int), 0).1,
            r.0 != 2 ==> r.1 < self.address@.len(),
    {
        let size = self.address.len();
        let mut offset: u64 = (a >> (self.alignshift as u64)) % (size as u64);
        let mut i: usize = 0;
        let ghost p = hash_probe(self.address@, a, hash_home(self.address@, a, self.alignshift as int), 0);
        proof {
            lemma_probe_stop(self.address@, a, hash_home(self.address@, a, self.alignshift as int), 0);
        }
        while i < size
            invariant
                self.wf(),
                size == self.address@.len(),
                i <= size,
                offset < size,
                p == hash_probe(self.address@, a, hash_home(self.address@, a, self.alignshift as int), 0),
                p == hash_probe(self.address@, a, offset as int, i as int),
            decreases size - i,
        {
            if self.address[offset as usize] == a {
                return (0, offset as usize);
            } else if self.address[offset as usize] == 0xBADBEEF {
                return (1, offset as usize);
            }
            offset = (offset + self.collideskip) % (size as u64);
            i += 1;
        }
        (2, 0)
    }

    /// The word at the aligned address `a`.
    pub fn find(&self, a: u64) -> (r: u64)
        requires
            self.wf(),
        ensures
            r == self.word(a),
    {
        let (kind, slot) = self.probe_exec(a);
        if kind == 0 {
            self.value[slot]
        } else {
            0
        }
    }

    /// Store the word `val` for the aligned address `a`: in the slot
    /// holding `a`, or the first empty slot probing reaches; an error,
    /// changing nothing, when probing finds neither.
    pub fn insert(&mut self, a: u64, val: u64) -> (r: Result<(), MemoryError>)
        requires
            old(self).wf(),
        ensures
            final(self).wf(),
            final(self).same_shape(*old(self)),
            match hash_store(old(self).address@, old(self).value@, a, old(self).alignshift as int, val) {
                Some((na, nv)) => r is Ok && final(self).address@ == na && final(self).value@ == nv,
                None => r == Err::<(), MemoryError>(MemoryError::HashFull) && *final(self) == *old(self),
            },
    {
        proof {
            lemma_probe_stop(self.address@, a, hash_home(self.address@, a, self.alignshift as int), 0);
        }
        let (kind, slot) = self.probe_exec(a);
        if kind == 2 {
            return Err(MemoryError::HashFull);
        }
        let ghost before = self.address@;
        if kind == 1 {
            self.address.set(slot, a);
            proof {
                lemma_store_keeps_consistent(before, a, self.alignshift as int, slot as int);
            }
        }
        self.value.set(slot, val);
        Ok(())
    }

    /// The value of `size` bytes at `offset`, read through the aligned
    /// words holding them.
    pub fn get_value(&self, offset: u64, size: i32) -> (r: u64)
        requires
            self.wf(),
            access_fits((offset % (self.wordsize as u64)) as int, size as int, self.wordsize as int),
        ensures
            r == self.read_value(offset, size as int),
    {
        let ws = self.wordsize as u64;
        let skip = offset % ws;
        proof {
            lemma_mod_below(offset, ws);
        }
        let ind = offset - skip;
        let w1 = self.find(ind);
        let spill = size > self.wordsize - skip as i32;
        let w2 = if spill {
            proof {
                lemma_mod_once(ind + ws);
            }
            self.find(ind.wrapping_add(ws))
        } else {
            0
        };
        get_value_from_words(w1, w2, skip as i32, size, self.wordsize, self.space.big_endian)
    }

    /// Write the `size` bytes of `val` at `offset` through the aligned
    /// words holding them: the word (and, when the value spills over, the
    /// next word) is read, the value's bytes replaced, and stored back; an
    /// error when a word finds no slot (a first word may have been stored).
    pub fn set_value(&mut self, offset: u64, size: i32, val: u64) -> (r: Result<(), MemoryError>)
        requires
            old(self).wf(),
            access_fits((offset % (old(self).wordsize as u64)) as int, size as int, old(self).wordsize as int),
        ensures
            final(self).wf(),
            final(self).same_shape(*old(self)),
            ({
                let ws = old(self).wordsize as u64;
                let sh = old(self).alignshift as int;
                let skip = offset % ws;
                let ind = (offset - skip) as u64;
                let ind2 = ((ind + ws) % 0x1_0000_0000_0000_0000int) as u64;
                let nw = words_after_set(old(self).word(ind), old(self).word(ind2), skip as int, size as int, ws as int,
                    old(self).space.big_endian, val);
                match hash_store(old(self).address@, old(self).value@, ind, sh, nw.0) {
                    None => r == Err::<(), MemoryError>(MemoryError::HashFull) && *final(self) == *old(self),
                    Some((a1, v1)) => if !spills(skip as int, size as int, ws as int) {
                        r is Ok && final(self).address@ == a1 && final(self).value@ == v1
                    } else {
                        match hash_store(a1, v1, ind2, sh, nw.1) {
                            None => r == Err::<(), MemoryError>(MemoryError::HashFull) && final(self).address@ == a1
                                && final(self).value@ == v1,
                            Some((a2, v2)) => r is Ok && final(self).address@ == a2 && final(self).value@ == v2,
                        }
                    },
                }
            }),
    {
        let ws = self.wordsize as u64;
        let skip = offset % ws;
        proof {
            lemma_mod_below(offset, ws);
        }
        let ind = offset - skip;
        let spill = size > self.wordsize - skip as i32;
        let ghost ind2 = ((ind + ws) % 0x1_0000_0000_0000_0000int) as u64;
        let ghost start = *self;
        if spill {
            proof {
                lemma_mod_once(ind + ws);
            }
            let next = ind.wrapping_add(ws);
            let w1 = self.find(ind);
            let w2 = self.find(next);
            let (n1, n2) = set_value_in_words(w1, w2, skip as i32, size, self.wordsize, self.space.big_endian, val);
            match self.insert(ind, n1) {
                Err(e) => {
                    return Err(e);
                },
                Ok(()) => {},
            }
            self.insert(next, n2)
        } else {
            let w1 = self.find(ind);
            let (n1, _n2) = set_value_in_words(w1, 0, skip as i32, size, self.wordsize, self.space.big_endian, val);
            proof {
                assert(words_after_set(w1, 0, skip as int, size as int, ws as int, start.space.big_endian, val).0
                    == words_after_set(w1, start.word(ind2), skip as int, size as int, ws as int, start.space.big_endian, val).0);
            }
            self.insert(ind, n1)
        }
    }
}

/// Reading a word back after storing it gives the word stored: storing
/// `val` for `a` (an address other than the empty mark), the table then
/// holds `val` for `a`.
pub proof fn lemma_hash_read_after_write(addrs: Seq<u64>, vals: Seq<u64>, a: u64, shift: int, val: u64)
    requires
        addrs.len() == vals.len(),
        0 < addrs.len(),
        hash_store(addrs, vals, a, shift, val) is Some,
        a != empty_slot_addr(),
    ensures
        ({
            let (na, nv) = hash_store(addrs, vals, a, shift, val)->0;
            hash_word(na, nv, a, shift) == val
        }),
{
    let h = hash_home(addrs, a, shift);
    let p = hash_probe(addrs, a, h, 0);
    lemma_probe_stop(addrs, a, h, 0);
    let (na, nv) = hash_store(addrs, vals, a, shift, val)->0;
    assert(na.len() == addrs.len());
    assert(hash_home(na, a, shift) == h);
    lemma_probe_after_store(addrs, na, a, h, 0, p.1);
}

/// Probing again after the slot found for `a` took `a` finds `a` there.
proof fn lemma_probe_after_store(b: Seq<u64>, c: Seq<u64>, a: u64, slot: int, k: int, s: int)
    requires
        hash_probe(b, a, slot, k).0 != 2,
        hash_probe(b, a, slot, k).1 == s,
        0 <= s < b.len(),
        c == if hash_probe(b, a, slot, k).0 == 0 { b } else { b.update(s, a) },
        a != empty_slot_addr(),
    ensures
        hash_probe(c, a, slot, k) == (0int, s),
    decreases b.len() - k,
{
    lemma_probe_stop(b, a, slot, k);
    if 0 <= k < b.len() && 0 <= slot < b.len() {
        if b[slot] == a || b[slot] == empty_slot_addr() {
        } else {
            let next = (slot + 1023) % (b.len() as int);
            lemma_probe_stop(b, a, next, k + 1);
            assert(slot != s);
            assert(c[slot] == b[slot]);
            lemma_probe_after_store(b, c, a, next, k + 1, s);
        }
    }
}

/// Taking an empty slot that is off the probe path by which `b` was
/// found leaves `b` found in the same slot.
proof fn lemma_probe_found_stable(b0: Seq<u64>, b1: Seq<u64>, x: u64, slot: int, k: int, t: int, e: int, a: u64)
    requires
        hash_probe(b0, x, slot, k) == (0int, t),
        0 <= e < b0.len(),
        b0[e] == empty_slot_addr(),
        b1 == b0.update(e, a),
        x != empty_slot_addr(),
    ensures
        hash_probe(b1, x, slot, k) == (0int, t),
    decreases b0.len() - k,
{
    if 0 <= k < b0.len() && 0 <= slot < b0.len() {
        assert(slot != e);
        assert(b1[slot] == b0[slot]);
        if b0[slot] != x && b0[slot] != empty_slot_addr() {
            lemma_probe_found_stable(b0, b1, x, (slot + 1023) % (b0.len() as int), k + 1, t, e, a);
        }
    }
}

/// Storing an address in the empty slot its probing reached keeps every
/// occupied slot found by probing.
proof fn lemma_store_keeps_consistent(b0: Seq<u64>, a: u64, shift: int, e: int)
    requires
        hash_consistent(b0, shift),
        hash_probe(b0, a, hash_home(b0, a, shift), 0) == (1int, e),
        0 <= e < b0.len(),
    ensures
        hash_consistent(b0.update(e, a), shift),
{
    let b1 = b0.update(e, a);
    lemma_probe_stop(b0, a, hash_home(b0, a, shift), 0);
    assert(b0[e] == empty_slot_addr());
    assert(a != empty_slot_addr()) by {
        if a == empty_slot_addr() {
            lemma_probe_first_match(b0, a, hash_home(b0, a, shift), 0);
        }
    }
    assert forall|t: int| 0 <= t < b1.len() && b1[t] != empty_slot_addr() implies #[trigger] hash_probe(b1, b1[t],
        hash_home(b1, b1[t], shift), 0) == (0int, t) by {
        if t == e {
            lemma_probe_after_store(b0, b1, a, hash_home(b0, a, shift), 0, e);
        } else {
            assert(b1[t] == b0[t]);
            assert(hash_probe(b0, b0[t], hash_home(b0, b0[t], shift), 0) == (0int, t));
            lemma_probe_found_stable(b0, b1, b0[t], hash_home(b0, b0[t], shift), 0, t, e, a);
        }
    }
}

/// Probing for the empty mark stops at the first slot holding it, as a
/// find.
proof fn lemma_probe_first_match(b: Seq<u64>, a: u64, slot: int, k: int)
    requires
        a == empty_slot_addr(),
    ensures
        hash_probe(b, a, slot, k).0 != 1,
    decreases b.len() - k,
{
    if 0 <= k < b.len() && 0 <= slot < b.len() && b[slot] != a {
        lemma_probe_first_match(b, a, (slot + 1023) % (b.len() as int), k + 1);
    }
}

/// Storing a word for `a` leaves the word of every other address (other
/// than the empty mark) as it was, in a table whose occupied slots are all
/// found by probing.
pub proof fn lemma_hash_store_keeps_others(addrs: Seq<u64>, vals: Seq<u64>, a: u64, b: u64, shift: int, val: u64)
    requires
        addrs.len() == vals.len(),
        0 < addrs.len(),
        hash_consistent(addrs, shift),
        hash_store(addrs, vals, a, shift, val) is Some,
        a != b,
        b != empty_slot_addr(),
    ensures
        ({
            let (na, nv) = hash_store(addrs, vals, a, shift, val)->0;
            hash_word(na, nv, b, shift) == hash_word(addrs, vals, b, shift)
        }),
{
    let ha = hash_home(addrs, a, shift);
    let hb = hash_home(addrs, b, shift);
    let p = hash_probe(addrs, a, ha, 0);
    let q = hash_probe(addrs, b, hb, 0);
    lemma_probe_stop(addrs, a, ha, 0);
    lemma_probe_stop(addrs, b, hb, 0);
    let (na, nv) = hash_store(addrs, vals, a, shift, val)->0;
    assert(hash_home(na, b, shift) == hb);
    let r = hash_probe(na, b, hb, 0);
    lemma_probe_stop(na, b, hb, 0);
    if p.0 == 0 {
        assert(na == addrs);
        if q.0 == 0 {
            assert(q.1 != p.1);
        }
    } else {
        let e = p.1;
        assert(addrs[e] == empty_slot_addr());
        if q.0 == 0 {
            lemma_probe_found_stable(addrs, na, b, hb, 0, q.1, e, a);
            assert(q.1 != e);
        } else if q.0 == 2 {
            lemma_probe_exhausted_stable(addrs, na, b, hb, 0, e, a);
        } else {
            assert(b != empty_slot_addr()) by {
                if b == empty_slot_addr() {
                    lemma_probe_first_match(addrs, b, hb, 0);
                }
            }
            if r.0 == 0 {
                let t = r.1;
                assert(na[t] == b);
                assert(t != e);
                assert(addrs[t] == b);
                assert(hash_probe(addrs, addrs[t], hash_home(addrs, addrs[t], shift), 0) == (0int, t));
            }
        }
    }
}

/// A probe that runs out never met an empty slot, so taking an empty slot
/// leaves it running out.
proof fn lemma_probe_exhausted_stable(b0: Seq<u64>, b1: Seq<u64>, x: u64, slot: int, k: int, e: int, a: u64)
    requires
        hash_probe(b0, x, slot, k).0 == 2,
        0 <= e < b0.len(),
        b0[e] == empty_slot_addr(),
        b1 == b0.update(e, a),
    ensures
        hash_probe(b1, x, slot, k).0 == 2,
    decreases b0.len() - k,
{
    if 0 <= k < b0.len() && 0 <= slot < b0.len() {
        assert(slot != e);
        assert(b1[slot] == b0[slot]);
        lemma_probe_exhausted_stable(b0, b1, x, (slot + 1023) % (b0.len() as int), k + 1, e, a);
    }
}

} // verus!
