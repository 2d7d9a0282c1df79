//! Program images stored as XML: the chunks of bytes and the symbols of a
//! binary image, and the text encoding of a chunk's bytes.
//!
//! A chunk's content is hexadecimal text, two digits per byte, with
//! whitespace allowed between (never inside) the pairs.
use vstd::prelude::*;

use crate::space::{AddrSpace, SpaceType};
use vstd::string::StringSliceAdditionalSpecFns;

verus! {

/// Is `c` a whitespace character (space, tab, newline, vertical tab, form
/// feed, carriage return)?
pub open spec fn is_ws(c: u8) -> bool {
    c == 0x20 || c == 0x09 || c == 0x0a || c == 0x0b || c == 0x0c || c == 0x0d
}

/// The first position at or after `pos` that holds no whitespace (the
/// length if none).
pub open spec fn skip_ws_from(content: Seq<u8>, pos: int) -> int
    decreases content.len() - pos,
{
    if pos >= content.len() || pos < 0 {
        if pos < 0 { 0 } else { pos }
    } else if is_ws(content[pos]) {
        skip_ws_from(content, pos + 1)
    } else {
        pos
    }
}

/// The character read at `pos` as a signed char: the byte, read as a
/// signed 8-bit number, or -1 past the end.
pub open spec fn char_at(content: Seq<u8>, pos: int) -> i8 {
    if 0 <= pos < content.len() {
        content[pos] as i8
    } else {
        -1i8
    }
}

/// Read the next character of `content` at `*pos` as a signed char (-1 at
/// the end), moving past it.
pub fn istream_get(content: &[u8], pos: &mut usize) -> (r: i8)
    ensures
        r == char_at(content@, *old(pos) as int),
        *old(pos) < content@.len() ==> *final(pos) == *old(pos) + 1,
        *old(pos) >= content@.len() ==> *final(pos) == *old(pos),
{
    if *pos >= content.len() {
        return -1;
    }
    let b = content[*pos];
    *pos = *pos + 1;
    b as i8
}

/// Move `*pos` past whitespace.
pub fn skip_ws(content: &[u8], pos: &mut usize)
    ensures
        *final(pos) == if *old(pos) >= content@.len() { *old(pos) as int } else { skip_ws_from(content@, *old(pos) as int) },
{
    while *pos < content.len() && (content[*pos] == 0x20 || content[*pos] == 0x09 || content[*pos] == 0x0a
        || content[*pos] == 0x0b || content[*pos] == 0x0c || content[*pos] == 0x0d)
        invariant
            *old(pos) <= *pos,
            *old(pos) < content@.len() ==> skip_ws_from(content@, *old(pos) as int) == skip_ws_from(content@, *pos as int),
            *old(pos) >= content@.len() ==> *pos == *old(pos),
        decreases content@.len() - *pos,
    {
        *pos = *pos + 1;
    }
}

/// The value a digit character stands for, as the chunk reader computes
/// it: characters up to '9' count from '0', those up to 'F' as upper-case
/// hex digits, the rest as lower-case ones (no character is rejected).
pub open spec fn hex_digit(c: u8) -> int {
    if c <= 0x39 {
        c - 0x30
    } else if c <= 0x46 {
        c - 0x37
    } else {
        c - 0x57
    }
}

/// The bytes that the content of a chunk encodes from position `pos` on:
/// after whitespace, a pair of characters below 0x80 and not NUL gives one
/// byte; anything else ends the content.
pub open spec fn hex_bytes(content: Seq<u8>, pos: int) -> Seq<u8>
    decreases content.len() - pos,
{
    let p = skip_ws_from(content, pos);
    if 0 <= pos && p + 1 < content.len() && 0 < content[p] < 0x80 && 0 < content[p + 1] < 0x80 {
        proof {
            lemma_skip_ws_from(content, pos);
        }
        seq![((hex_digit(content[p]) * 16 + hex_digit(content[p + 1])) % 256) as u8] + hex_bytes(content, p + 2)
    } else {
        seq![]
    }
}

/// Skipping whitespace never moves back, nor past the end.
pub proof fn lemma_skip_ws_from(content: Seq<u8>, pos: int)
    requires
        0 <= pos,
    ensures
        pos <= skip_ws_from(content, pos),
        pos <= content.len() ==> skip_ws_from(content, pos) <= content.len(),
    decreases content.len() - pos,
{
    if pos < content.len() && is_ws(content[pos]) {
        lemma_skip_ws_from(content, pos + 1);
    }
}

/// The value of a digit character (see [`hex_digit`]).
fn hex_digit_exec(c: u8) -> (r: i32)
    ensures
        r == hex_digit(c),
{
    if c <= 0x39 {
        c as i32 - 0x30
    } else if c <= 0x46 {
        c as i32 - 0x37
    } else {
        c as i32 - 0x57
    }
}

/// Decode the content of a byte chunk (see [`hex_bytes`]).
pub fn decode_chunk_content(content: &[u8]) -> (r: Vec<u8>)
    ensures
        r@ == hex_bytes(content@, 0),
{
    let mut out: Vec<u8> = Vec::new();
    let mut pos: usize = 0;
    skip_ws(content, &mut pos);
    proof {
        lemma_skip_ws_from(content@, 0);
    }
    let mut c1 = istream_get(content, &mut pos);
    let mut c2 = istream_get(content, &mut pos);
    let ghost mut start: int = 0;
    while c1 > 0 && c2 > 0
        invariant
            0 <= start <= content@.len(),
            hex_bytes(content@, 0) == out@ + hex_bytes(content@, start),
            ({
                let p = skip_ws_from(content@, start);
                &&& c1 == char_at(content@, p)
                &&& c2 == char_at(content@, p + 1)
                &&& p <= content@.len()
                &&& (c1 > 0 && c2 > 0 ==> pos == p + 2)
            }),
        decreases content@.len() - start,
    {
        let ghost p = skip_ws_from(content@, start);
        proof {
            lemma_skip_ws_from(content@, start);
            assert(c2 == char_at(content@, p + 1));
            assert(0 <= p + 1 < content@.len());
            assert(0 <= p < content@.len());
            let x1: u8 = content@[p];
            let x2: u8 = content@[p + 1];
            assert(char_at(content@, p) == x1 as i8);
            assert(char_at(content@, p + 1) == x2 as i8);
            assert(x1 as i8 > 0 ==> 0 < x1 < 0x80) by (bit_vector);
            assert(x2 as i8 > 0 ==> 0 < x2 < 0x80) by (bit_vector);
        }
        let b1: u8 = c1 as u8;
        let b2: u8 = c2 as u8;
        proof {
            let x1: u8 = content@[p];
            let x2: u8 = content@[p + 1];
            assert(b1 == x1) by (bit_vector)
                requires
                    b1 == c1 as u8,
                    c1 == x1 as i8,
                    0 < x1 < 0x80;
            assert(b2 == x2) by (bit_vector)
                requires
                    b2 == c2 as u8,
                    c2 == x2 as i8,
                    0 < x2 < 0x80;
        }
        let val: i32 = hex_digit_exec(b1) * 16 + hex_digit_exec(b2);
        let shifted: i32 = val + 1024;
        let byte: u8 = (shifted % 256) as u8;
        proof {
            assert(shifted % 256 == val % 256) by {
                vstd::arithmetic::div_mod::lemma_mod_add_multiples_vanish(val as int, 256);
                vstd::arithmetic::div_mod::lemma_mod_add_multiples_vanish(val + 256, 256);
                vstd::arithmetic::div_mod::lemma_mod_add_multiples_vanish(val + 512, 256);
                vstd::arithmetic::div_mod::lemma_mod_add_multiples_vanish(val + 768, 256);
            }
        }
        proof {
            assert(hex_bytes(content@, start) == seq![byte] + hex_bytes(content@, p + 2));
        }
        out.push(byte);
        proof {
            start = p + 2;
            lemma_skip_ws_from(content@, start);
            assert(hex_bytes(content@, 0) == out@ + hex_bytes(content@, start));
        }
        skip_ws(content, &mut pos);
        c1 = istream_get(content, &mut pos);
        c2 = istream_get(content, &mut pos);
    }
    proof {
        let p = skip_ws_from(content@, start);
        if p + 1 < content@.len() {
            let x1: u8 = content@[p];
            let x2: u8 = content@[p + 1];
            lemma_skip_ws_from(content@, start);
            assert(char_at(content@, p) == x1 as i8);
            assert(char_at(content@, p + 1) == x2 as i8);
            assert(0 < x1 < 0x80 ==> x1 as i8 > 0) by (bit_vector);
            assert(0 < x2 < 0x80 ==> x2 as i8 > 0) by (bit_vector);
        }
        assert(hex_bytes(content@, start) =~= Seq::<u8>::empty());
        assert(out@ + Seq::<u8>::empty() =~= out@);
    }
    out
}

/// A piece of the image at an address: the bytes of a chunk, or the name
/// of a symbol.
#[derive(Debug, Clone)]
pub struct ImageEntry {
    /// The space of the address.
    pub space: AddrSpace,
    /// The offset of the address.
    pub offset: u64,
    /// The chunk's bytes or the symbol's name.
    pub data: Vec<u8>,
}

/// An entry as a value: space, offset, data.
pub open spec fn entry_view(e: ImageEntry) -> (AddrSpace, u64, Seq<u8>) {
    (e.space, e.offset, e.data@)
}

/// A list of entries as values.
pub open spec fn entries_view(es: Seq<ImageEntry>) -> Seq<(AddrSpace, u64, Seq<u8>)> {
    es.map_values(|e: ImageEntry| entry_view(e))
}

/// Does the address of `a` come before that of `b`: by space index, then
/// by offset?
pub open spec fn key_lt(a: (AddrSpace, u64, Seq<u8>), b: (AddrSpace, u64, Seq<u8>)) -> bool {
    a.0.index < b.0.index || (a.0.index == b.0.index && a.1 < b.1)
}

/// Do `a` and `b` have the same address?
pub open spec fn key_eq(a: (AddrSpace, u64, Seq<u8>), b: (AddrSpace, u64, Seq<u8>)) -> bool {
    a.0.index == b.0.index && a.1 == b.1
}

/// Are the entries in strictly increasing address order?
pub open spec fn entries_sorted(es: Seq<(AddrSpace, u64, Seq<u8>)>) -> bool {
    forall|i: int, j: int| 0 <= i < j < es.len() ==> key_lt(#[trigger] es[i], #[trigger] es[j])
}

/// The sorted list `es` with `e` put in: an entry at the same address
/// keeps its address and takes the new data; otherwise `e` goes in at its
/// place in the order.
pub open spec fn sorted_insert(es: Seq<(AddrSpace, u64, Seq<u8>)>, e: (AddrSpace, u64, Seq<u8>)) -> Seq<(AddrSpace, u64, Seq<u8>)>
    decreases es.len(),
{
    if es.len() == 0 {
        seq![e]
    } else if key_eq(es[0], e) {
        seq![(es[0].0, es[0].1, e.2)] + es.drop_first()
    } else if key_lt(e, es[0]) {
        seq![e] + es
    } else {
        seq![es[0]] + sorted_insert(es.drop_first(), e)
    }
}

/// Put `e` into the sorted list `es` (see [`sorted_insert`]).
fn insert_entry(es: &mut Vec<ImageEntry>, e: ImageEntry)
    requires
        entries_sorted(entries_view(old(es)@)),
    ensures
        entries_view(final(es)@) == sorted_insert(entries_view(old(es)@), entry_view(e)),
        entries_sorted(entries_view(final(es)@)),
{
    let ghost v = entries_view(es@);
    let mut i: usize = 0;
    while i < es.len() && (es[i].space.index < e.space.index || (es[i].space.index == e.space.index && es[i].offset < e.offset))
        invariant
            i <= es@.len(),
            v == entries_view(es@),
            entries_sorted(v),
            forall|j: int| 0 <= j < i ==> key_lt(#[trigger] v[j], entry_view(e)),
        decreases es@.len() - i,
    {
        i += 1;
    }
    proof {
        lemma_sorted_insert_at(v, entry_view(e), i as int);
    }
    if i < es.len() && es[i].space.index == e.space.index && es[i].offset == e.offset {
        let old_entry_space = es[i].space;
        let old_entry_offset = es[i].offset;
        es.set(i, ImageEntry { space: old_entry_space, offset: old_entry_offset, data: e.data });
        proof {
            assert(entries_view(es@) =~= v.update(i as int, (v[i as int].0, v[i as int].1, entry_view(e).2)));
        }
    } else {
        es.insert(i, e);
        proof {
            assert(entries_view(es@) =~= v.insert(i as int, entry_view(e)));
        }
    }
    proof {
        lemma_sorted_insert_sorted(v, entry_view(e));
    }
}

/// Inserting at the first position whose address is not below the new
/// entry's: the entry there is updated when its address is the same,
/// else the new entry goes in there.
proof fn lemma_sorted_insert_at(es: Seq<(AddrSpace, u64, Seq<u8>)>, e: (AddrSpace, u64, Seq<u8>), i: int)
    requires
        entries_sorted(es),
        0 <= i <= es.len(),
        forall|j: int| 0 <= j < i ==> key_lt(#[trigger] es[j], e),
        i < es.len() ==> !key_lt(es[i], e),
    ensures
        sorted_insert(es, e) == if i < es.len() && key_eq(es[i], e) {
            es.update(i, (es[i].0, es[i].1, e.2))
        } else {
            es.insert(i, e)
        },
    decreases i,
{
    if i == 0 {
        if es.len() > 0 && key_eq(es[0], e) {
            assert(seq![(es[0].0, es[0].1, e.2)] + es.drop_first() =~= es.update(0, (es[0].0, es[0].1, e.2)));
        } else {
            assert(seq![e] + es =~= es.insert(0, e));
        }
    } else {
        let rest = es.drop_first();
        assert forall|a: int, b: int| 0 <= a < b < rest.len() implies key_lt(#[trigger] rest[a], #[trigger] rest[b]) by {
            assert(rest[a] == es[a + 1] && rest[b] == es[b + 1]);
        }
        assert(forall|j: int| 0 <= j < i - 1 ==> rest[j] == es[j + 1]);
        assert(key_lt(es[0], e));
        lemma_sorted_insert_at(rest, e, i - 1);
        if i < es.len() && key_eq(es[i], e) {
            assert(seq![es[0]] + rest.update(i - 1, (es[i].0, es[i].1, e.2)) =~= es.update(i, (es[i].0, es[i].1, e.2)));
        } else {
            assert(seq![es[0]] + rest.insert(i - 1, e) =~= es.insert(i, e));
        }
    }
}

/// Inserting into a sorted list keeps it sorted.
proof fn lemma_sorted_insert_sorted(es: Seq<(AddrSpace, u64, Seq<u8>)>, e: (AddrSpace, u64, Seq<u8>))
    requires
        entries_sorted(es),
    ensures
        entries_sorted(sorted_insert(es, e)),
        forall|k: int| 0 <= k < sorted_insert(es, e).len() ==> (key_eq(#[trigger] sorted_insert(es, e)[k], e)
            || exists|j: int| 0 <= j < es.len() && key_eq(es[j], sorted_insert(es, e)[k])),
    decreases es.len(),
{
    let r = sorted_insert(es, e);
    if es.len() == 0 {
    } else if key_eq(es[0], e) {
        assert forall|k: int| 0 <= k < r.len() implies key_eq(#[trigger] r[k], es[k]) by {}
    } else if key_lt(e, es[0]) {
        assert forall|k: int| 1 <= k < r.len() implies r[k] == es[k - 1] by {}
    } else {
        let rest = es.drop_first();
        assert forall|a: int, b: int| 0 <= a < b < rest.len() implies key_lt(#[trigger] rest[a], #[trigger] rest[b]) by {
            assert(rest[a] == es[a + 1] && rest[b] == es[b + 1]);
        }
        lemma_sorted_insert_sorted(rest, e);
        let t = sorted_insert(rest, e);
        assert(r == seq![es[0]] + t);
        assert forall|k: int| 0 <= k < t.len() implies key_lt(es[0], #[trigger] t[k]) by {
            if key_eq(t[k], e) {
            } else {
                let j = choose|j: int| 0 <= j < rest.len() && key_eq(rest[j], t[k]);
                assert(rest[j] == es[j + 1]);
            }
        }
        assert forall|k: int| 0 <= k < r.len() implies (key_eq(#[trigger] r[k], e) || exists|j: int| 0 <= j < es.len() && key_eq(es[j], r[k])) by {
            if k == 0 {
                assert(key_eq(es[0], r[0]));
            } else {
                assert(r[k] == t[k - 1]);
                if !key_eq(t[k - 1], e) {
                    let j = choose|j: int| 0 <= j < rest.len() && key_eq(rest[j], t[k - 1]);
                    assert(rest[j] == es[j + 1]);
                    assert(key_eq(es[j + 1], r[k]));
                }
            }
        }
    }
}

/// The offset of the last byte of an entry's data: offset plus length
/// minus one, modulo 2^64.
pub open spec fn entry_last(e: (AddrSpace, u64, Seq<u8>)) -> u64 {
    ((e.1 as int + e.2.len() + 0xffff_ffff_ffff_ffff) % 0x1_0000_0000_0000_0000int) as u64
}

/// The chunks after `last` with those that end no later than the chunk
/// before them in the same space (the last one kept) dropped.
pub open spec fn prune_after(last: (AddrSpace, u64, Seq<u8>), rest: Seq<(AddrSpace, u64, Seq<u8>)>) -> Seq<(AddrSpace, u64, Seq<u8>)>
    decreases rest.len(),
{
    if rest.len() == 0 {
        Seq::empty()
    } else if last.0.index == rest[0].0.index && entry_last(last) >= entry_last(rest[0]) {
        prune_after(last, rest.drop_first())
    } else {
        seq![rest[0]] + prune_after(rest[0], rest.drop_first())
    }
}

/// The sorted chunks with every chunk that ends no later than the kept
/// chunk before it in the same space dropped.
pub open spec fn prune_chunks(es: Seq<(AddrSpace, u64, Seq<u8>)>) -> Seq<(AddrSpace, u64, Seq<u8>)> {
    if es.len() == 0 {
        es
    } else {
        seq![es[0]] + prune_after(es[0], es.drop_first())
    }
}

/// The address just past an entry's data, reduced into its space.
pub open spec fn pad_start(e: (AddrSpace, u64, Seq<u8>)) -> u64 {
    AddrSpace::spec_wrap_offset(((e.1 as int + e.2.len()) % 0x1_0000_0000_0000_0000int) as u64,
        AddrSpace::spec_highest(e.0.addr_size, e.0.word_size))
}

/// The number of zero bytes that follow chunk `i` of the pruned list: up
/// to 512, no further than the end of its space nor than the next chunk
/// in its space; none when the chunk runs to the end of its space or the
/// next chunk starts where it ends.
pub open spec fn pad_amount(es: Seq<(AddrSpace, u64, Seq<u8>)>, i: int) -> Option<int> {
    let e = es[i];
    let end = pad_start(e);
    if end < e.1 {
        None
    } else {
        let room1 = (AddrSpace::spec_highest(e.0.addr_size, e.0.word_size) as int - end + 1) % 0x1_0000_0000_0000_0000int;
        let m1 = if 512 > room1 { room1 } else { 512 };
        if i + 1 < es.len() && es[i + 1].0.index == e.0.index {
            if end >= es[i + 1].1 {
                None
            } else {
                let room2 = es[i + 1].1 - end;
                Some(if m1 > room2 { room2 } else { m1 })
            }
        } else {
            Some(m1)
        }
    }
}

/// `n` zero bytes.
pub open spec fn zeros(n: int) -> Seq<u8> {
    Seq::new(n as nat, |k: int| 0u8)
}

/// Chunk `i` of the pruned list, followed by its padding: a chunk of zeros
/// just past it, or zeros appended when its end wraps back to its own
/// start.
pub open spec fn pad_piece(es: Seq<(AddrSpace, u64, Seq<u8>)>, i: int) -> Seq<(AddrSpace, u64, Seq<u8>)> {
    match pad_amount(es, i) {
        None => seq![es[i]],
        Some(m) => if pad_start(es[i]) == es[i].1 {
            seq![(es[i].0, es[i].1, es[i].2 + zeros(m))]
        } else {
            seq![es[i], (es[i].0, pad_start(es[i]), zeros(m))]
        },
    }
}

/// The first `i` chunks of the pruned list, each followed by its padding.
pub open spec fn pad_prefix(es: Seq<(AddrSpace, u64, Seq<u8>)>, i: int) -> Seq<(AddrSpace, u64, Seq<u8>)>
    decreases i,
{
    if i <= 0 {
        Seq::empty()
    } else {
        pad_prefix(es, i - 1) + pad_piece(es, i - 1)
    }
}

/// The chunks after padding: the pruned chunks, each followed by its
/// padding.
pub open spec fn padded_chunks(es: Seq<(AddrSpace, u64, Seq<u8>)>) -> Seq<(AddrSpace, u64, Seq<u8>)> {
    let p = prune_chunks(es);
    pad_prefix(p, p.len() as int)
}

/// Do all the entries' spaces have a nonzero unit size?
pub open spec fn spaces_ok(es: Seq<(AddrSpace, u64, Seq<u8>)>) -> bool {
    forall|k: int| 0 <= k < es.len() ==> (#[trigger] es[k]).0.word_size > 0
}

/// A number within one 2^64 of the range reduces modulo 2^64 by at most
/// one step.
proof fn lemma_mod_u64(a: int)
    requires
        -0x1_0000_0000_0000_0000int <= a < 2 * 0x1_0000_0000_0000_0000int,
    ensures
        a % 0x1_0000_0000_0000_0000int == if a < 0 {
            a + 0x1_0000_0000_0000_0000int
        } else if a < 0x1_0000_0000_0000_0000int {
            a
        } else {
            a - 0x1_0000_0000_0000_0000int
        },
{
    if a < 0 {
        vstd::arithmetic::div_mod::lemma_fundamental_div_mod_converse(a, 0x1_0000_0000_0000_0000int, -1, a + 0x1_0000_0000_0000_0000int);
    } else if a < 0x1_0000_0000_0000_0000int {
        vstd::arithmetic::div_mod::lemma_fundamental_div_mod_converse(a, 0x1_0000_0000_0000_0000int, 0, a);
    } else {
        vstd::arithmetic::div_mod::lemma_fundamental_div_mod_converse(a, 0x1_0000_0000_0000_0000int, 1, a - 0x1_0000_0000_0000_0000int);
    }
}

/// The offset of the last byte of an entry (see [`entry_last`]).
fn entry_last_exec(e: &ImageEntry) -> (r: u64)
    ensures
        r == entry_last(entry_view(*e)),
{
    let len = e.data.len() as u64;
    let a = e.offset.wrapping_add(len);
    proof {
        lemma_mod_u64(e.offset as int + e.data@.len());
        vstd::arithmetic::div_mod::lemma_add_mod_noop(e.offset as int + e.data@.len(), 0xffff_ffff_ffff_ffff, 0x1_0000_0000_0000_0000int);
        vstd::arithmetic::div_mod::lemma_small_mod(0xffff_ffff_ffff_ffffnat, 0x1_0000_0000_0000_0000nat);
        lemma_mod_u64(a as int + 0xffff_ffff_ffff_ffff);
    }
    a.wrapping_sub(1)
}

/// A copy of an entry.
fn copy_entry(e: &ImageEntry) -> (r: ImageEntry)
    ensures
        entry_view(r) == entry_view(*e),
{
    ImageEntry { space: e.space, offset: e.offset, data: vstd::slice::slice_to_vec(e.data.as_slice()) }
}

/// Drop every chunk that ends no later than the kept chunk before it in
/// the same space (see [`prune_chunks`]).
fn prune_entries(es: &Vec<ImageEntry>) -> (r: Vec<ImageEntry>)
    requires
        entries_sorted(entries_view(es@)),
    ensures
        entries_view(r@) == prune_chunks(entries_view(es@)),
        entries_sorted(entries_view(r@)),
        forall|k: int| 0 <= k < r@.len() ==> exists|j: int| 0 <= j < es@.len() && #[trigger] entries_view(r@)[k] == entries_view(es@)[j],
{
    let ghost v = entries_view(es@);
    let mut out: Vec<ImageEntry> = Vec::new();
    if es.len() == 0 {
        proof {
            assert(entries_view(out@) =~= v);
        }
        return out;
    }
    out.push(copy_entry(&es[0]));
    let mut last: usize = 0;
    let mut j: usize = 1;
    proof {
        assert(v.drop_first() =~= v.subrange(1, v.len() as int));
        assert(entries_view(out@) =~= seq![v[0]]);
    }
    while j < es.len()
        invariant
            v == entries_view(es@),
            entries_sorted(v),
            1 <= j <= v.len(),
            last < j,
            out@.len() > 0,
            entries_view(out@).last() == v[last as int],
            prune_chunks(v) == entries_view(out@) + prune_after(v[last as int], v.subrange(j as int, v.len() as int)),
            entries_sorted(entries_view(out@)),
            forall|k: int| 0 <= k < out@.len() ==> exists|m: int| 0 <= m < j && #[trigger] entries_view(out@)[k] == v[m],
        decreases v.len() - j,
    {
        let ghost rest = v.subrange(j as int, v.len() as int);
        proof {
            assert(rest[0] == v[j as int]);
            assert(rest.drop_first() =~= v.subrange(j + 1, v.len() as int));
        }
        let end1 = entry_last_exec(&es[last]);
        let end2 = entry_last_exec(&es[j]);
        if es[last].space.index == es[j].space.index && end1 >= end2 {
        } else {
            let ghost before = entries_view(out@);
            out.push(copy_entry(&es[j]));
            proof {
                assert(entries_view(out@) =~= before.push(v[j as int]));
                assert(before + (seq![v[j as int]] + prune_after(v[j as int], rest.drop_first()))
                    =~= before.push(v[j as int]) + prune_after(v[j as int], rest.drop_first()));
                assert forall|a: int, b: int| 0 <= a < b < entries_view(out@).len() implies
                    key_lt(#[trigger] entries_view(out@)[a], #[trigger] entries_view(out@)[b]) by {
                    if b == before.len() {
                        let m = choose|m: int| 0 <= m < j && #[trigger] before[a] == v[m];
                        assert(entries_view(out@)[a] == before[a]);
                    } else {
                        assert(entries_view(out@)[a] == before[a]);
                        assert(entries_view(out@)[b] == before[b]);
                    }
                }
                assert forall|k: int| 0 <= k < out@.len() implies exists|m: int| 0 <= m < j + 1 && #[trigger] entries_view(out@)[k] == v[m] by {
                    if k < before.len() {
                        let m = choose|m: int| 0 <= m < j && #[trigger] before[k] == v[m];
                        assert(entries_view(out@)[k] == v[m]);
                    } else {
                        assert(entries_view(out@)[k] == v[j as int]);
                    }
                }
            }
            last = j;
        }
        j += 1;
    }
    proof {
        assert(v.subrange(j as int, v.len() as int) =~= Seq::<(AddrSpace, u64, Seq<u8>)>::empty());
        assert(entries_view(out@) + Seq::<(AddrSpace, u64, Seq<u8>)>::empty() =~= entries_view(out@));
        assert forall|k: int| 0 <= k < out@.len() implies exists|m: int| 0 <= m < es@.len() && #[trigger] entries_view(out@)[k] == entries_view(es@)[m] by {
            let m = choose|m: int| 0 <= m < j && #[trigger] entries_view(out@)[k] == v[m];
        }
    }
    out
}

/// The keys of a chunk's piece (the chunk and its padding) come no earlier
/// than the chunk's own key and before the next chunk's.
proof fn lemma_pad_piece_keys(es: Seq<(AddrSpace, u64, Seq<u8>)>, i: int)
    requires
        entries_sorted(es),
        0 <= i < es.len(),
    ensures
        entries_sorted(pad_piece(es, i)),
        pad_piece(es, i).len() > 0,
        key_eq(pad_piece(es, i)[0], es[i]),
        forall|k: int| 0 <= k < pad_piece(es, i).len() ==> !key_lt(#[trigger] pad_piece(es, i)[k], es[i]),
        i + 1 < es.len() ==> forall|k: int| 0 <= k < pad_piece(es, i).len() ==> key_lt(#[trigger] pad_piece(es, i)[k], es[i + 1]),
{
    let pc = pad_piece(es, i);
    if i + 1 < es.len() {
        assert(key_lt(es[i], es[i + 1]));
    }
}

/// The pieces of the first `i` chunks come, in order, before chunk `i`.
proof fn lemma_pad_prefix_sorted(es: Seq<(AddrSpace, u64, Seq<u8>)>, i: int)
    requires
        entries_sorted(es),
        0 <= i <= es.len(),
    ensures
        entries_sorted(pad_prefix(es, i)),
        i < es.len() ==> forall|k: int| 0 <= k < pad_prefix(es, i).len() ==> key_lt(#[trigger] pad_prefix(es, i)[k], es[i]),
    decreases i,
{
    if i > 0 {
        lemma_pad_prefix_sorted(es, i - 1);
        lemma_pad_piece_keys(es, i - 1);
        let pre = pad_prefix(es, i - 1);
        let pc = pad_piece(es, i - 1);
        let all = pad_prefix(es, i);
        assert(all == pre + pc);
        assert forall|a: int, b: int| 0 <= a < b < all.len() implies key_lt(#[trigger] all[a], #[trigger] all[b]) by {
            if b < pre.len() {
                assert(all[a] == pre[a] && all[b] == pre[b]);
            } else if a < pre.len() {
                assert(all[a] == pre[a]);
                assert(all[b] == pc[b - pre.len()]);
                assert(key_lt(pre[a], es[i - 1]));
                assert(!key_lt(pc[b - pre.len()], es[i - 1]));
            } else {
                assert(all[a] == pc[a - pre.len()] && all[b] == pc[b - pre.len()]);
            }
        }
        if i < es.len() {
            assert forall|k: int| 0 <= k < all.len() implies key_lt(#[trigger] all[k], es[i]) by {
                if k < pre.len() {
                    assert(all[k] == pre[k]);
                    assert(key_lt(pre[k], es[i - 1]));
                    assert(key_lt(es[i - 1], es[i]));
                } else {
                    assert(all[k] == pc[k - pre.len()]);
                }
            }
        }
    }
}

/// `n` zero bytes.
fn zero_vec(n: usize) -> (r: Vec<u8>)
    ensures
        r@ == zeros(n as int),
{
    let mut v: Vec<u8> = Vec::new();
    let mut k: usize = 0;
    while k < n
        invariant
            k <= n,
            v@ == zeros(k as int),
        decreases n - k,
    {
        v.push(0);
        k += 1;
        proof {
            assert(v@ =~= zeros(k as int));
        }
    }
    v
}

/// Follow each chunk by its padding (see [`pad_piece`]).
fn pad_entries(es: &Vec<ImageEntry>) -> (r: Vec<ImageEntry>)
    requires
        entries_sorted(entries_view(es@)),
        spaces_ok(entries_view(es@)),
    ensures
        entries_view(r@) == pad_prefix(entries_view(es@), es@.len() as int),
        entries_sorted(entries_view(r@)),
{
    let ghost v = entries_view(es@);
    let mut out: Vec<ImageEntry> = Vec::new();
    let mut i: usize = 0;
    proof {
        assert(entries_view(out@) =~= pad_prefix(v, 0));
    }
    while i < es.len()
        invariant
            v == entries_view(es@),
            entries_sorted(v),
            spaces_ok(v),
            i <= v.len(),
            entries_view(out@) == pad_prefix(v, i as int),
        decreases v.len() - i,
    {
        let e = &es[i];
        assert(v[i as int].0.word_size > 0);
        let len = e.data.len() as u64;
        let sum = e.offset.wrapping_add(len);
        proof {
            lemma_mod_u64(e.offset as int + e.data@.len());
        }
        let end = e.space.wrap_offset(sum);
        let ghost before = entries_view(out@);
        if end < e.offset {
            out.push(copy_entry(e));
            proof {
                assert(entries_view(out@) =~= before + pad_piece(v, i as int));
            }
        } else {
            let h = e.space.get_highest();
            let room1 = h.wrapping_sub(end).wrapping_add(1);
            proof {
                lemma_mod_u64(h as int - end as int);
                let x: int = h as int - end as int;
                let d: int = if x < 0 { x + 0x1_0000_0000_0000_0000int } else { x };
                lemma_mod_u64(d + 1);
                vstd::arithmetic::div_mod::lemma_add_mod_noop(h as int - end as int, 1, 0x1_0000_0000_0000_0000int);
                vstd::arithmetic::div_mod::lemma_small_mod(1nat, 0x1_0000_0000_0000_0000nat);
                assert(room1 as int == (h as int - end + 1) % 0x1_0000_0000_0000_0000int);
            }
            let m1: u64 = if 512 > room1 { room1 } else { 512 };
            let mut amount: Option<u64> = Some(m1);
            if i + 1 < es.len() && es[i + 1].space.index == e.space.index {
                if end >= es[i + 1].offset {
                    amount = None;
                } else {
                    let room2 = es[i + 1].offset - end;
                    amount = Some(if m1 > room2 { room2 } else { m1 });
                }
            }
            match amount {
                None => {
                    out.push(copy_entry(e));
                    proof {
                        assert(entries_view(out@) =~= before + pad_piece(v, i as int));
                    }
                },
                Some(m) => {
                    let z = zero_vec(m as usize);
                    if end == e.offset {
                        let mut data = vstd::slice::slice_to_vec(e.data.as_slice());
                        let mut k: usize = 0;
                        let ghost d0 = data@;
                        while k < z.len()
                            invariant
                                k <= z@.len(),
                                z@ == zeros(m as int),
                                data@ == d0 + zeros(k as int),
                            decreases z@.len() - k,
                        {
                            data.push(0);
                            k += 1;
                            proof {
                                assert(data@ =~= d0 + zeros(k as int));
                            }
                        }
                        out.push(ImageEntry { space: e.space, offset: e.offset, data });
                        proof {
                            assert(entries_view(out@) =~= before + pad_piece(v, i as int));
                        }
                    } else {
                        out.push(copy_entry(e));
                        out.push(ImageEntry { space: e.space, offset: end, data: z });
                        proof {
                            assert(entries_view(out@) =~= before + pad_piece(v, i as int));
                        }
                    }
                },
            }
        }
        i += 1;
    }
    proof {
        lemma_pad_prefix_sorted(v, v.len() as int);
    }
    out
}

/// An address of the image.
#[derive(Debug, Clone, Copy, PartialEq, Eq, Structural)]
pub struct ImageAddr {
    /// The space.
    pub space: AddrSpace,
    /// The offset.
    pub offset: u64,
}

/// A child element of a binary image, as read from its file.
#[derive(Debug, Clone)]
pub enum ImageElement {
    /// A named address.
    Symbol {
        /// The space of the address.
        space: AddrSpace,
        /// The offset of the address.
        offset: u64,
        /// The name.
        name: Vec<u8>,
    },
    /// A chunk of bytes, given as hexadecimal text.
    ByteChunk {
        /// The space of the chunk's address.
        space: AddrSpace,
        /// The offset of the chunk's address.
        offset: u64,
        /// Is the chunk read-only?
        readonly: bool,
        /// The hexadecimal text of the bytes.
        content: Vec<u8>,
    },
    /// An element of any other kind.
    Unknown,
}

/// Why building or reading an image failed.
#[derive(Debug, Clone, Copy, PartialEq, Eq, Structural)]
pub enum ImageError {
    /// The root element is not a binary image.
    MissingBinaryImage,
    /// The binary image names no architecture.
    MissingArch,
    /// A child element of unknown kind.
    UnknownTag,
    /// Bytes requested from the image are not in it: the first such
    /// address.
    NotMapped(ImageAddr),
}

impl ImageError {
    /// A description of the error.
    pub fn explain(&self) -> (r: &'static str)
        ensures
            r@ == match self {
                ImageError::MissingBinaryImage => "Missing binaryimage tag"@,
                ImageError::MissingArch => "Unknown attribute: arch"@,
                ImageError::UnknownTag => "Unknown LoadImageXml tag"@,
                ImageError::NotMapped(_) => "Bytes are not mapped"@,
            },
    {
        match self {
            ImageError::MissingBinaryImage => "Missing binaryimage tag",
            ImageError::MissingArch => "Unknown attribute: arch",
            ImageError::UnknownTag => "Unknown LoadImageXml tag",
            ImageError::NotMapped(_) => "Bytes are not mapped",
        }
    }
}

/// The state an image's contents are read into: its chunks, its symbols
/// and its read-only chunk addresses.
pub type ImageContents = (Seq<(AddrSpace, u64, Seq<u8>)>, Seq<(AddrSpace, u64, Seq<u8>)>, Set<(int, u64)>);

/// The contents after reading one element; `None` for an element of
/// unknown kind.
pub open spec fn apply_element(st: ImageContents, el: ImageElement) -> Option<ImageContents> {
    match el {
        ImageElement::Symbol { space, offset, name } => Some((st.0, sorted_insert(st.1, (space, offset, name@)), st.2)),
        ImageElement::ByteChunk { space, offset, readonly, content } => Some((
            sorted_insert(st.0, (space, offset, hex_bytes(content@, 0))),
            st.1,
            if readonly { st.2.insert((space.index as int, offset)) } else { st.2 },
        )),
        ImageElement::Unknown => None,
    }
}

/// The contents after reading the elements in order; `None` when one of
/// them is of unknown kind.
pub open spec fn apply_elements(st: ImageContents, els: Seq<ImageElement>) -> Option<ImageContents>
    decreases els.len(),
{
    if els.len() == 0 {
        Some(st)
    } else {
        match apply_elements(st, els.drop_last()) {
            None => None,
            Some(s) => apply_element(s, els.last()),
        }
    }
}

/// The contents read before the first element of unknown kind.
pub open spec fn contents_before_unknown(st: ImageContents, els: Seq<ImageElement>) -> ImageContents
    decreases els.len(),
{
    if els.len() == 0 {
        st
    } else {
        let s = contents_before_unknown(st, els.drop_last());
        match apply_elements(st, els.drop_last()) {
            None => s,
            Some(t) => match apply_element(t, els.last()) {
                None => t,
                Some(u) => u,
            },
        }
    }
}

/// Does the element's space (if it names one) have a nonzero unit size?
pub open spec fn element_space_ok(el: ImageElement) -> bool {
    match el {
        ImageElement::Symbol { space, .. } => space.word_size > 0,
        ImageElement::ByteChunk { space, .. } => space.word_size > 0,
        ImageElement::Unknown => true,
    }
}

/// A program image held as chunks of bytes and named addresses.
#[derive(Debug)]
pub struct LoadImageXml {
    /// The name of the image's file.
    pub filename: Vec<u8>,
    /// The architecture the image is for.
    pub archtype: Vec<u8>,
    /// The addresses of the read-only chunks.
    pub readonlyset: Vec<ImageAddr>,
    /// The chunks, in address order.
    pub chunks: Vec<ImageEntry>,
    /// The symbols, in address order.
    pub symbols: Vec<ImageEntry>,
    /// The address of the next symbol to report, if any.
    pub cursymbol: Option<ImageAddr>,
}

impl LoadImageXml {
    /// Are the chunks and symbols in strict address order, and every
    /// space they name of a nonzero unit size?
    pub open spec fn wf(&self) -> bool {
        &&& entries_sorted(entries_view(self.chunks@))
        &&& entries_sorted(entries_view(self.symbols@))
        &&& spaces_ok(entries_view(self.chunks@))
        &&& spaces_ok(entries_view(self.symbols@))
    }

    /// The read-only chunk addresses, as (space index, offset).
    pub open spec fn readonly_keys(&self) -> Set<(int, u64)> {
        Set::new(|k: (int, u64)| exists|i: int| 0 <= i < self.readonlyset@.len()
            && (#[trigger] self.readonlyset@[i]).space.index as int == k.0 && self.readonlyset@[i].offset == k.1)
    }

    /// The image's contents.
    pub open spec fn contents(&self) -> ImageContents {
        (entries_view(self.chunks@), entries_view(self.symbols@), self.readonly_keys())
    }

    /// An empty image for file `f`, whose root element is called
    /// `root_name` and carries the architecture `arch`: an error when the
    /// root is not a binary image, or names no architecture.
    pub fn new(f: &[u8], root_name: &[u8], arch: Option<&[u8]>) -> (r: Result<LoadImageXml, ImageError>)
        ensures
            root_name@ != "binaryimage".spec_bytes() ==> r == Err::<LoadImageXml, ImageError>(ImageError::MissingBinaryImage),
            root_name@ == "binaryimage".spec_bytes() && arch is None ==> r == Err::<LoadImageXml, ImageError>(ImageError::MissingArch),
            r matches Ok(img) ==> (root_name@ == "binaryimage".spec_bytes() && (arch matches Some(a) && img.archtype@ == a@)
                && img.filename@ == f@ && img.chunks@.len() == 0 && img.symbols@.len() == 0
                && img.readonlyset@.len() == 0 && img.cursymbol is None && img.wf()),
            root_name@ == "binaryimage".spec_bytes() && arch is Some ==> r is Ok,
    {
        let tag = "binaryimage";
        proof {
            reveal_strlit("binaryimage");
        }
        if !bytes_equal(root_name, tag.as_bytes()) {
            return Err(ImageError::MissingBinaryImage);
        }
        match arch {
            None => Err(ImageError::MissingArch),
            Some(a) => Ok(LoadImageXml {
                filename: vstd::slice::slice_to_vec(f),
                archtype: vstd::slice::slice_to_vec(a),
                readonlyset: Vec::new(),
                chunks: Vec::new(),
                symbols: Vec::new(),
                cursymbol: None,
            }),
        }
    }

    /// The name of the image's file.
    pub fn get_file_name(&self) -> (r: &[u8])
        ensures
            r@ == self.filename@,
    {
        self.filename.as_slice()
    }

    /// The architecture the image is for.
    pub fn get_arch_type(&self) -> (r: Vec<u8>)
        ensures
            r@ == self.archtype@,
    {
        vstd::slice::slice_to_vec(self.archtype.as_slice())
    }

    /// Is the chunk address (space index `idx`, `offset`) read-only?
    fn is_readonly(&self, idx: i32, offset: u64) -> (r: bool)
        ensures
            r == self.readonly_keys().contains((idx as int, offset)),
    {
        let mut i: usize = 0;
        while i < self.readonlyset.len()
            invariant
                i <= self.readonlyset@.len(),
                forall|j: int| 0 <= j < i ==> !((#[trigger] self.readonlyset@[j]).space.index == idx && self.readonlyset@[j].offset == offset),
            decreases self.readonlyset@.len() - i,
        {
            if self.readonlyset[i].space.index == idx && self.readonlyset[i].offset == offset {
                proof {
                    assert(self.readonly_keys().contains((idx as int, offset)));
                }
                return true;
            }
            i += 1;
        }
        false
    }

    /// Read one element into the image; an error for an element of unknown
    /// kind.
    fn read_element(&mut self, el: &ImageElement) -> (r: Result<(), ImageError>)
        requires
            old(self).wf(),
            element_space_ok(*el),
        ensures
            final(self).wf(),
            final(self).filename@ == old(self).filename@,
            final(self).archtype@ == old(self).archtype@,
            final(self).cursymbol == old(self).cursymbol,
            match apply_element(old(self).contents(), *el) {
                Some(c) => r is Ok && final(self).contents() == c,
                None => r == Err::<(), ImageError>(ImageError::UnknownTag) && final(self).contents() == old(self).contents(),
            },
    {
        match el {
            ImageElement::Symbol { space, offset, name } => {
                let ghost before = entries_view(self.symbols@);
                let nm = vstd::slice::slice_to_vec(name.as_slice());
                insert_entry(&mut self.symbols, ImageEntry { space: *space, offset: *offset, data: nm });
                proof {
                    let after = entries_view(self.symbols@);
                    assert forall|k: int| 0 <= k < after.len() implies (#[trigger] after[k]).0.word_size > 0 by {
                        lemma_sorted_insert_spaces(before, (*space, *offset, nm@), k);
                    }
                }
                Ok(())
            },
            ImageElement::ByteChunk { space, offset, readonly, content } => {
                let bytes = decode_chunk_content(content.as_slice());
                let ghost before = entries_view(self.chunks@);
                insert_entry(&mut self.chunks, ImageEntry { space: *space, offset: *offset, data: bytes });
                proof {
                    lemma_sorted_insert_sorted(before, (*space, *offset, bytes@));
                    let after = entries_view(self.chunks@);
                    assert forall|k: int| 0 <= k < after.len() implies (#[trigger] after[k]).0.word_size > 0 by {
                        lemma_sorted_insert_spaces(before, (*space, *offset, bytes@), k);
                    }
                }
                if *readonly && !self.is_readonly(space.index, *offset) {
                    let ghost keys0 = self.readonly_keys();
                    self.readonlyset.push(ImageAddr { space: *space, offset: *offset });
                    proof {
                        assert(self.readonly_keys() =~= keys0.insert((space.index as int, *offset))) by {
                            assert forall|k: (int, u64)| #[trigger] self.readonly_keys().contains(k) == keys0.insert((space.index as int, *offset)).contains(k) by {
                                let n = old(self).readonlyset@.len() as int;
                                assert(self.readonlyset@[n] == ImageAddr { space: *space, offset: *offset });
                                if k == (space.index as int, *offset) {
                                    assert(self.readonly_keys().contains(k));
                                }
                                if keys0.contains(k) {
                                    let i = choose|i: int| 0 <= i < old(self).readonlyset@.len()
                                        && (#[trigger] old(self).readonlyset@[i]).space.index as int == k.0 && old(self).readonlyset@[i].offset == k.1;
                                    assert(self.readonlyset@[i] == old(self).readonlyset@[i]);
                                }
                                if self.readonly_keys().contains(k) {
                                    let i = choose|i: int| 0 <= i < self.readonlyset@.len()
                                        && (#[trigger] self.readonlyset@[i]).space.index as int == k.0 && self.readonlyset@[i].offset == k.1;
                                    if i < old(self).readonlyset@.len() {
                                        assert(self.readonlyset@[i] == old(self).readonlyset@[i]);
                                    }
                                }
                            }
                        }
                    }
                } else if *readonly {
                    proof {
                        assert(self.readonly_keys().insert((space.index as int, *offset)) =~= self.readonly_keys());
                    }
                }
                Ok(())
            },
            ImageElement::Unknown => Err(ImageError::UnknownTag),
        }
    }
}

/// Every entry of a sorted insertion comes from the list or is the new
/// entry, with the space of one of them.
proof fn lemma_sorted_insert_spaces(es: Seq<(AddrSpace, u64, Seq<u8>)>, e: (AddrSpace, u64, Seq<u8>), k: int)
    requires
        0 <= k < sorted_insert(es, e).len(),
    ensures
        sorted_insert(es, e)[k].0 == e.0 || exists|j: int| 0 <= j < es.len() && es[j].0 == sorted_insert(es, e)[k].0,
    decreases es.len(),
{
    if es.len() == 0 {
    } else if key_eq(es[0], e) {
        if k == 0 {
            assert(es[0].0 == sorted_insert(es, e)[0].0);
        } else {
            assert(sorted_insert(es, e)[k] == es[k]);
        }
    } else if key_lt(e, es[0]) {
        if k > 0 {
            assert(sorted_insert(es, e)[k] == es[k - 1]);
        }
    } else {
        if k == 0 {
            assert(sorted_insert(es, e)[0] == es[0]);
        } else {
            lemma_sorted_insert_spaces(es.drop_first(), e, k - 1);
            if sorted_insert(es, e)[k].0 != e.0 {
                let j = choose|j: int| 0 <= j < es.drop_first().len() && es.drop_first()[j].0 == sorted_insert(es.drop_first(), e)[k - 1].0;
                assert(es[j + 1] == es.drop_first()[j]);
            }
        }
    }
}

/// Are two byte strings equal?
fn bytes_equal(a: &[u8], b: &[u8]) -> (r: bool)
    ensures
        r == (a@ == b@),
{
    if a.len() != b.len() {
        return false;
    }
    let mut i: usize = 0;
    while i < a.len()
        invariant
            a@.len() == b@.len(),
            i <= a@.len(),
            forall|j: int| 0 <= j < i ==> a@[j] == b@[j],
        decreases a@.len() - i,
    {
        if a[i] != b[i] {
            return false;
        }
        i += 1;
    }
    assert(a@ =~= b@);
    true
}

/// The ranges (space, first offset, last offset) of the read-only chunks,
/// in chunk order.
pub open spec fn readonly_ranges(es: Seq<(AddrSpace, u64, Seq<u8>)>, keys: Set<(int, u64)>) -> Seq<(AddrSpace, u64, u64)>
    decreases es.len(),
{
    if es.len() == 0 {
        Seq::empty()
    } else {
        let e = es.last();
        readonly_ranges(es.drop_last(), keys) + if keys.contains((e.0.index as int, e.1)) {
            seq![(e.0, e.1, entry_last(e))]
        } else {
            Seq::empty()
        }
    }
}

/// The position of the entry at address (space index `idx`, `offset`),
/// if any.
pub open spec fn entry_index(es: Seq<(AddrSpace, u64, Seq<u8>)>, idx: int, offset: u64) -> Option<int> {
    if exists|i: int| 0 <= i < es.len() && es[i].0.index == idx && es[i].1 == offset {
        Some(choose|i: int| 0 <= i < es.len() && es[i].0.index == idx && es[i].1 == offset)
    } else {
        None
    }
}

impl LoadImageXml {
    /// Drop every chunk that ends no later than the kept chunk before it in
    /// its space, then follow each chunk by up to 512 zero bytes (see
    /// [`padded_chunks`]).
    fn pad(&mut self)
        requires
            old(self).wf(),
        ensures
            final(self).wf(),
            entries_view(final(self).chunks@) == padded_chunks(entries_view(old(self).chunks@)),
            final(self).symbols@ == old(self).symbols@,
            final(self).readonlyset@ == old(self).readonlyset@,
            final(self).filename@ == old(self).filename@,
            final(self).archtype@ == old(self).archtype@,
            final(self).cursymbol == old(self).cursymbol,
    {
        let pruned = prune_entries(&self.chunks);
        proof {
            let v = entries_view(self.chunks@);
            let pv = entries_view(pruned@);
            assert forall|k: int| 0 <= k < pv.len() implies (#[trigger] pv[k]).0.word_size > 0 by {
                let j = choose|j: int| 0 <= j < self.chunks@.len() && #[trigger] entries_view(pruned@)[k] == entries_view(self.chunks@)[j];
                assert(v[j].0.word_size > 0);
            }
        }
        let padded = pad_entries(&pruned);
        proof {
            let pv = entries_view(pruned@);
            let nv = entries_view(padded@);
            assert forall|k: int| 0 <= k < nv.len() implies (#[trigger] nv[k]).0.word_size > 0 by {
                lemma_pad_prefix_spaces(pv, pv.len() as int, k);
            }
        }
        self.chunks = padded;
    }

    /// Read the elements of the image in order, then pad the chunks; an
    /// element of unknown kind is an error, and stops the reading there.
    pub fn open(&mut self, els: &[ImageElement]) -> (r: Result<(), ImageError>)
        requires
            old(self).wf(),
            forall|k: int| 0 <= k < els@.len() ==> element_space_ok(#[trigger] els@[k]),
        ensures
            final(self).wf(),
            final(self).filename@ == old(self).filename@,
            final(self).archtype@ == old(self).archtype@,
            final(self).cursymbol == old(self).cursymbol,
            match apply_elements(old(self).contents(), els@) {
                Some(c) => r is Ok && entries_view(final(self).chunks@) == padded_chunks(c.0)
                    && entries_view(final(self).symbols@) == c.1 && final(self).readonly_keys() == c.2,
                None => r == Err::<(), ImageError>(ImageError::UnknownTag)
                    && final(self).contents() == contents_before_unknown(old(self).contents(), els@),
            },
    {
        let ghost c0 = self.contents();
        let mut i: usize = 0;
        while i < els.len()
            invariant
                self.wf(),
                i <= els@.len(),
                forall|k: int| 0 <= k < els@.len() ==> element_space_ok(#[trigger] els@[k]),
                self.filename@ == old(self).filename@,
                self.archtype@ == old(self).archtype@,
                self.cursymbol == old(self).cursymbol,
                c0 == old(self).contents(),
                apply_elements(c0, els@.take(i as int)) == Some(self.contents()),
                contents_before_unknown(c0, els@.take(i as int)) == self.contents(),
            decreases els@.len() - i,
        {
            let ghost before = self.contents();
            proof {
                assert(els@.take(i + 1).drop_last() =~= els@.take(i as int));
                assert(els@.take(i + 1).last() == els@[i as int]);
            }
            match self.read_element(&els[i]) {
                Ok(()) => {},
                Err(e) => {
                    proof {
                        lemma_apply_elements_none(c0, els@, i as int + 1);
                        lemma_before_unknown_stops(c0, els@, i as int + 1);
                    }
                    return Err(e);
                },
            }
            i += 1;
        }
        proof {
            assert(els@.take(els@.len() as int) =~= els@);
        }
        self.pad();
        Ok(())
    }

    /// Empty the image of its architecture, chunks and symbols (the
    /// read-only addresses stay).
    pub fn clear(&mut self)
        ensures
            final(self).archtype@.len() == 0,
            final(self).chunks@.len() == 0,
            final(self).symbols@.len() == 0,
            final(self).readonlyset@ == old(self).readonlyset@,
            final(self).filename@ == old(self).filename@,
            final(self).cursymbol == old(self).cursymbol,
            final(self).wf(),
    {
        self.archtype = Vec::new();
        self.chunks = Vec::new();
        self.symbols = Vec::new();
    }

    /// Start reporting the symbols, from the first in address order.
    pub fn open_symbols(&mut self)
        ensures
            final(self).cursymbol == if old(self).symbols@.len() > 0 {
                Some(ImageAddr { space: old(self).symbols@[0].space, offset: old(self).symbols@[0].offset })
            } else {
                None::<ImageAddr>
            },
            final(self).chunks@ == old(self).chunks@,
            final(self).symbols@ == old(self).symbols@,
            final(self).readonlyset@ == old(self).readonlyset@,
            final(self).filename@ == old(self).filename@,
            final(self).archtype@ == old(self).archtype@,
    {
        if self.symbols.len() > 0 {
            self.cursymbol = Some(ImageAddr { space: self.symbols[0].space, offset: self.symbols[0].offset });
        } else {
            self.cursymbol = None;
        }
    }

    /// Stop reporting symbols.
    pub fn close_symbols(&mut self)
        ensures
            *final(self) == *old(self),
    {
    }

    /// The next symbol (its address and name), moving on to the one after
    /// it; `None` when none is left or the symbol to report has gone.
    pub fn get_next_symbol(&mut self) -> (r: Option<ImageEntry>)
        requires
            old(self).wf(),
        ensures
            final(self).chunks@ == old(self).chunks@,
            final(self).symbols@ == old(self).symbols@,
            final(self).readonlyset@ == old(self).readonlyset@,
            final(self).filename@ == old(self).filename@,
            final(self).archtype@ == old(self).archtype@,
            final(self).wf(),
            match old(self).cursymbol {
                None => r is None && final(self).cursymbol is None,
                Some(a) => match entry_index(entries_view(old(self).symbols@), a.space.index as int, a.offset) {
                    None => r is None && final(self).cursymbol == old(self).cursymbol,
                    Some(i) => r matches Some(e) && entry_view(e) == entries_view(old(self).symbols@)[i]
                        && final(self).cursymbol == if i + 1 < old(self).symbols@.len() {
                            Some(ImageAddr { space: old(self).symbols@[i + 1].space, offset: old(self).symbols@[i + 1].offset })
                        } else {
                            None::<ImageAddr>
                        },
                },
            },
    {
        let a = match self.cursymbol {
            None => {
                return None;
            },
            Some(a) => a,
        };
        let ghost v = entries_view(self.symbols@);
        let mut i: usize = 0;
        while i < self.symbols.len()
            invariant
                *self == *old(self),
                old(self).cursymbol == Some(a),
                old(self).wf(),
                v == entries_view(self.symbols@),
                i <= v.len(),
                forall|j: int| 0 <= j < i ==> !((#[trigger] v[j]).0.index == a.space.index && v[j].1 == a.offset),
            decreases v.len() - i,
        {
            if self.symbols[i].space.index == a.space.index && self.symbols[i].offset == a.offset {
                proof {
                    assert(v[i as int].0.index == a.space.index && v[i as int].1 == a.offset);
                    let c = choose|c: int| 0 <= c < v.len() && v[c].0.index == a.space.index && v[c].1 == a.offset;
                    if c != i {
                        if c < i {
                            assert(!(v[c].0.index == a.space.index && v[c].1 == a.offset));
                        } else {
                            assert(key_lt(v[i as int], v[c]));
                        }
                    }
                    assert(c == i);
                    assert(entry_index(v, a.space.index as int, a.offset) == Some(i as int));
                }
                let e = copy_entry(&self.symbols[i]);
                assert(entry_view(e) == v[i as int]);
                if i + 1 < self.symbols.len() {
                    self.cursymbol = Some(ImageAddr { space: self.symbols[i + 1].space, offset: self.symbols[i + 1].offset });
                } else {
                    self.cursymbol = None;
                }
                return Some(e);
            }
            i += 1;
        }
        None
    }

    /// The ranges (space, first offset, last offset) of the read-only
    /// chunks, in chunk order.
    pub fn get_readonly(&self) -> (r: Vec<(AddrSpace, u64, u64)>)
        ensures
            r@ == readonly_ranges(entries_view(self.chunks@), self.readonly_keys()),
    {
        let ghost v = entries_view(self.chunks@);
        let mut out: Vec<(AddrSpace, u64, u64)> = Vec::new();
        let mut i: usize = 0;
        while i < self.chunks.len()
            invariant
                v == entries_view(self.chunks@),
                i <= v.len(),
                out@ == readonly_ranges(v.take(i as int), self.readonly_keys()),
            decreases v.len() - i,
        {
            proof {
                assert(v.take(i + 1).drop_last() =~= v.take(i as int));
                assert(v.take(i + 1).last() == v[i as int]);
            }
            let c = &self.chunks[i];
            if self.is_readonly(c.space.index, c.offset) {
                let last = entry_last_exec(c);
                out.push((c.space, c.offset, last));
            }
            i += 1;
            proof {
                assert(out@ =~= readonly_ranges(v.take(i as int), self.readonly_keys()));
            }
        }
        proof {
            assert(v.take(v.len() as int) =~= v);
        }
        out
    }
}

/// Once an element of unknown kind is read, the reading has failed for
/// every longer prefix too.
proof fn lemma_apply_elements_none(st: ImageContents, els: Seq<ImageElement>, n: int)
    requires
        0 < n <= els.len(),
        apply_elements(st, els.take(n - 1)) is Some,
        apply_element(apply_elements(st, els.take(n - 1))->0, els[n - 1]) is None,
    ensures
        apply_elements(st, els) is None,
    decreases els.len() - n,
{
    assert(els.take(n).drop_last() =~= els.take(n - 1));
    assert(els.take(n).last() == els[n - 1]);
    if n < els.len() {
        assert(els.take(n + 1).drop_last() =~= els.take(n));
        lemma_apply_elements_none_grow(st, els, n);
    } else {
        assert(els.take(n) =~= els);
    }
}

/// A failed reading stays failed as more elements follow.
proof fn lemma_apply_elements_none_grow(st: ImageContents, els: Seq<ImageElement>, n: int)
    requires
        0 < n <= els.len(),
        apply_elements(st, els.take(n)) is None,
    ensures
        apply_elements(st, els) is None,
    decreases els.len() - n,
{
    if n < els.len() {
        assert(els.take(n + 1).drop_last() =~= els.take(n));
        lemma_apply_elements_none_grow(st, els, n + 1);
    } else {
        assert(els.take(n) =~= els);
    }
}

/// After a failed reading, the contents read before the unknown element
/// stay the same however many elements follow.
proof fn lemma_before_unknown_stops(st: ImageContents, els: Seq<ImageElement>, n: int)
    requires
        0 < n <= els.len(),
        apply_elements(st, els.take(n - 1)) is Some,
        apply_element(apply_elements(st, els.take(n - 1))->0, els[n - 1]) is None,
    ensures
        contents_before_unknown(st, els) == apply_elements(st, els.take(n - 1))->0,
    decreases els.len() - n,
{
    let t = els.take(n);
    assert(t.drop_last() =~= els.take(n - 1));
    assert(t.last() == els[n - 1]);
    assert(contents_before_unknown(st, t) == apply_elements(st, els.take(n - 1))->0);
    lemma_before_unknown_stays(st, els, n);
}

/// Once the reading has failed, later elements change nothing.
proof fn lemma_before_unknown_stays(st: ImageContents, els: Seq<ImageElement>, n: int)
    requires
        0 < n <= els.len(),
        apply_elements(st, els.take(n)) is None,
    ensures
        contents_before_unknown(st, els) == contents_before_unknown(st, els.take(n)),
    decreases els.len() - n,
{
    if n < els.len() {
        let t = els.take(n + 1);
        assert(t.drop_last() =~= els.take(n));
        assert(contents_before_unknown(st, t) == contents_before_unknown(st, els.take(n)));
        lemma_apply_elements_none_grow(st, t, n);
        assert(apply_elements(st, t) is None) by {
            lemma_apply_elements_none_grow(st, t, n);
        }
        lemma_before_unknown_stays(st, els, n + 1);
    } else {
        assert(els.take(n) =~= els);
    }
}

/// Every padded chunk lies in the space of a pruned chunk.
proof fn lemma_pad_prefix_spaces(es: Seq<(AddrSpace, u64, Seq<u8>)>, i: int, k: int)
    requires
        spaces_ok(es),
        0 <= i <= es.len(),
        0 <= k < pad_prefix(es, i).len(),
    ensures
        pad_prefix(es, i)[k].0.word_size > 0,
    decreases i,
{
    if i > 0 {
        let pre = pad_prefix(es, i - 1);
        if k < pre.len() {
            assert(pad_prefix(es, i)[k] == pre[k]);
            lemma_pad_prefix_spaces(es, i - 1, k);
        } else {
            assert(es[i - 1].0.word_size > 0);
        }
    }
}

/// Where the address `off` of space `sp` falls in entry `e`: its distance
/// from the entry's start, reduced into the space, when both are in the
/// same space (not the constant space) and the distance is below the
/// entry's length.
pub open spec fn overlap_at(sp: AddrSpace, off: u64, e: (AddrSpace, u64, Seq<u8>)) -> Option<int> {
    if sp.index != e.0.index || sp.space_type == SpaceType::Constant {
        None
    } else {
        let d = AddrSpace::spec_wrap_offset(((off as int - e.1 as int + 0x1_0000_0000_0000_0000int) % 0x1_0000_0000_0000_0000int) as u64,
            AddrSpace::spec_highest(sp.addr_size, sp.word_size));
        if d < e.2.len() {
            Some(d as int)
        } else {
            None
        }
    }
}

/// Reading `n` bytes from address `cur` of space `sp`, going through the
/// chunks from chunk `k` on: each chunk in turn must hold the current
/// address, gives its bytes from there (up to what is still wanted), and
/// the address moves past them; the bytes read, or the first address
/// that no chunk in turn holds.
pub open spec fn fill_walk(es: Seq<(AddrSpace, u64, Seq<u8>)>, k: int, sp: AddrSpace, cur: u64, n: int) -> Result<Seq<u8>, u64>
    decreases es.len() - k,
{
    if n <= 0 {
        Ok(Seq::empty())
    } else if k < 0 || k >= es.len() {
        Err(cur)
    } else {
        match overlap_at(sp, cur, es[k]) {
            None => Err(cur),
            Some(over) => {
                let take = if es[k].2.len() - over > n { n } else { es[k].2.len() - over };
                let next = AddrSpace::spec_wrap_offset(((cur as int + take) % 0x1_0000_0000_0000_0000int) as u64,
                    AddrSpace::spec_highest(sp.addr_size, sp.word_size));
                match fill_walk(es, k + 1, sp, next, n - take) {
                    Ok(rest) => Ok(es[k].2.subrange(over, over + take) + rest),
                    Err(a) => Err(a),
                }
            },
        }
    }
}

/// Is the entry's address at or below (space index `idx`, `off`)?
pub open spec fn key_le(e: (AddrSpace, u64, Seq<u8>), idx: int, off: u64) -> bool {
    e.0.index < idx || (e.0.index == idx && e.1 <= off)
}

/// The chunk a read from (space index `idx`, `off`) starts with: the last
/// chunk at or below that address, or the first chunk when none is.
pub open spec fn fill_start(es: Seq<(AddrSpace, u64, Seq<u8>)>, idx: int, off: u64) -> int {
    if exists|i: int| 0 <= i < es.len() && key_le(#[trigger] es[i], idx, off) {
        choose|i: int| 0 <= i < es.len() && key_le(#[trigger] es[i], idx, off) && (i + 1 == es.len() || !key_le(es[i + 1], idx, off))
    } else {
        0
    }
}

/// The chunk a read starts with (see [`fill_start`]).
fn fill_start_exec(es: &Vec<ImageEntry>, idx: i32, off: u64) -> (r: usize)
    requires
        entries_sorted(entries_view(es@)),
    ensures
        r == fill_start(entries_view(es@), idx as int, off),
{
    let ghost v = entries_view(es@);
    if es.len() == 0 || !(es[0].space.index < idx || (es[0].space.index == idx && es[0].offset <= off)) {
        proof {
            if exists|i: int| 0 <= i < v.len() && key_le(#[trigger] v[i], idx as int, off) {
                let i = choose|i: int| 0 <= i < v.len() && key_le(#[trigger] v[i], idx as int, off);
                if i > 0 {
                    assert(key_lt(v[0], v[i]));
                }
            }
        }
        return 0;
    }
    let n = es.len();
    let mut i: usize = 0;
    while i + 1 < n && (es[i + 1].space.index < idx || (es[i + 1].space.index == idx && es[i + 1].offset <= off))
        invariant
            v == entries_view(es@),
            entries_sorted(v),
            n == v.len(),
            i < v.len(),
            key_le(v[i as int], idx as int, off),
        decreases v.len() - i,
    {
        i += 1;
    }
    proof {
        assert(key_le(v[i as int], idx as int, off) && (i + 1 == v.len() || !key_le(v[i + 1], idx as int, off)));
        let c = choose|c: int| 0 <= c < v.len() && key_le(#[trigger] v[c], idx as int, off) && (c + 1 == v.len() || !key_le(v[c + 1], idx as int, off));
        if c < i {
            assert(key_lt(v[c + 1], v[i as int]) || c + 1 == i);
        } else if c > i {
            assert(key_lt(v[i + 1], v[c]) || c == i + 1);
        }
    }
    i
}

impl LoadImageXml {
    /// Fill `ptr` with the bytes at `off` in space `sp` (see [`fill_walk`]);
    /// an error naming the first address not in the image when the bytes
    /// are not all there.
    pub fn load_fill(&self, ptr: &mut [u8], sp: AddrSpace, off: u64) -> (r: Result<(), ImageError>)
        requires
            self.wf(),
            sp.word_size > 0,
            old(ptr)@.len() <= i32::MAX,
            forall|k: int| 0 <= k < self.chunks@.len() ==> (#[trigger] self.chunks@[k]).data@.len() <= i32::MAX,
        ensures
            final(ptr)@.len() == old(ptr)@.len(),
            match fill_walk(entries_view(self.chunks@), fill_start(entries_view(self.chunks@), sp.index as int, off), sp, off, old(ptr)@.len() as int) {
                Ok(bytes) => r is Ok && final(ptr)@ == bytes,
                Err(a) => r == Err::<(), ImageError>(ImageError::NotMapped(ImageAddr { space: sp, offset: a })),
            },
    {
        let ghost v = entries_view(self.chunks@);
        let ghost n0 = ptr@.len() as int;
        let k0 = fill_start_exec(&self.chunks, sp.index, off);
        let mut k = k0;
        let mut cur = off;
        let mut size: usize = ptr.len();
        let mut dest: usize = 0;
        proof {
            assert(ptr@.subrange(0, 0) =~= Seq::<u8>::empty());
        }
        while size > 0
            invariant
                v == entries_view(self.chunks@),
                forall|j: int| 0 <= j < self.chunks@.len() ==> (#[trigger] self.chunks@[j]).data@.len() <= i32::MAX,
                sp.word_size > 0,
                n0 == old(ptr)@.len(),
                k0 == fill_start(v, sp.index as int, off),
                ptr@.len() == n0,
                dest + size == n0,
                n0 <= i32::MAX,
                fill_walk(v, k0 as int, sp, off, n0) == match fill_walk(v, k as int, sp, cur, size as int) {
                    Ok(rest) => Ok::<Seq<u8>, u64>(ptr@.subrange(0, dest as int) + rest),
                    Err(a) => Err(a),
                },
            decreases size,
        {
            if k >= self.chunks.len() {
                return Err(ImageError::NotMapped(ImageAddr { space: sp, offset: cur }));
            }
            let e = &self.chunks[k];
            assert(v[k as int] == entry_view(*e));
            assert(e.data@.len() <= i32::MAX);
            let len = e.data.len() as u64;
            let mut over: Option<u64> = None;
            if sp.index == e.space.index && sp.space_type != SpaceType::Constant {
                proof {
                    lemma_mod_u64(cur as int - e.offset as int + 0x1_0000_0000_0000_0000int);
                }
                let d = sp.wrap_offset(cur.wrapping_sub(e.offset));
                if d < len {
                    over = Some(d);
                }
            }
            match over {
                None => {
                    return Err(ImageError::NotMapped(ImageAddr { space: sp, offset: cur }));
                },
                Some(o) => {
                    let avail = len - o;
                    let take: u64 = if avail > size as u64 { size as u64 } else { avail };
                    let ghost dest0 = dest;
                    let ghost old_prefix = ptr@.subrange(0, dest as int);
                    let ghost ed = self.chunks@[k as int].data@;
                    proof {
                        assert(ed.subrange(o as int, o as int) =~= Seq::<u8>::empty());
                        assert(old_prefix + Seq::<u8>::empty() =~= old_prefix);
                    }
                    let mut t: u64 = 0;
                    while t < take
                        invariant
                            k < self.chunks@.len(),
                            ed == self.chunks@[k as int].data@,
                            o + take <= ed.len(),
                            ed.len() <= i32::MAX,
                            dest0 + take <= n0,
                            ptr@.len() == n0,
                            t <= take,
                            dest == dest0 + t,
                            ptr@.subrange(0, dest as int) == old_prefix + ed.subrange(o as int, (o + t) as int),
                        decreases take - t,
                    {
                        let ghost pre = ptr@;
                        assert(o + t < ed.len());
                        let pos: u64 = o + t;
                        let b = self.chunks[k].data[pos as usize];
                        assert(b == ed[pos as int]);
                        assert(dest < ptr@.len());
                        ptr[dest] = b;
                        proof {
                            assert(ptr@.subrange(0, dest + 1) =~= pre.subrange(0, dest as int).push(ed[(o + t) as int]));
                            assert(ed.subrange(o as int, (o + t + 1) as int) =~= ed.subrange(o as int, (o + t) as int).push(ed[(o + t) as int]));
                        }
                        dest += 1;
                        t += 1;
                    }
                    let ghost before_cur = cur;
                    proof {
                        lemma_mod_u64(cur as int + take as int);
                    }
                    cur = sp.wrap_offset(cur.wrapping_add(take));
                    size -= take as usize;
                    k += 1;
                    proof {
                        let rest_old = fill_walk(v, (k - 1) as int, sp, before_cur, (size + take) as int);
                        match fill_walk(v, k as int, sp, cur, size as int) {
                            Ok(rest) => {
                                assert(ptr@.subrange(0, dest as int) + rest =~= old_prefix
                                    + (ed.subrange(o as int, (o + take) as int) + rest));
                            },
                            Err(_) => {},
                        }
                    }
                },
            }
        }
        proof {
            assert(ptr@.subrange(0, dest as int) + Seq::<u8>::empty() =~= ptr@);
        }
        Ok(())
    }
}

/// The offset `adjust` units move an address of a space with `ws`-byte
/// units: the byte count cut to 32 bits, sign-extended to 64.
pub open spec fn vma_delta(adjust: i64, ws: u32) -> u64 {
    ((((adjust as u64 as int * ws as int) % 0x1_0000_0000_0000_0000int) as u64 as i32) as i64) as u64
}

/// An entry moved by `adjust` units, its offset reduced into its space.
pub open spec fn moved_entry(e: (AddrSpace, u64, Seq<u8>), adjust: i64) -> (AddrSpace, u64, Seq<u8>) {
    (e.0, AddrSpace::spec_wrap_offset(((e.1 as int + vma_delta(adjust, e.0.word_size)) % 0x1_0000_0000_0000_0000int) as u64,
        AddrSpace::spec_highest(e.0.addr_size, e.0.word_size)), e.2)
}

/// The entries moved by `adjust` units, put in order one after the other
/// (a later entry landing on an earlier one's address replaces its data).
pub open spec fn moved_entries(es: Seq<(AddrSpace, u64, Seq<u8>)>, adjust: i64) -> Seq<(AddrSpace, u64, Seq<u8>)>
    decreases es.len(),
{
    if es.len() == 0 {
        Seq::empty()
    } else {
        sorted_insert(moved_entries(es.drop_last(), adjust), moved_entry(es.last(), adjust))
    }
}

/// Move the entries by `adjust` units (see [`moved_entries`]).
fn move_entries(es: &Vec<ImageEntry>, adjust: i64) -> (r: Vec<ImageEntry>)
    requires
        spaces_ok(entries_view(es@)),
    ensures
        entries_view(r@) == moved_entries(entries_view(es@), adjust),
        entries_sorted(entries_view(r@)),
        spaces_ok(entries_view(r@)),
{
    let ghost v = entries_view(es@);
    let mut out: Vec<ImageEntry> = Vec::new();
    let mut i: usize = 0;
    proof {
        assert(v.take(0) =~= Seq::<(AddrSpace, u64, Seq<u8>)>::empty());
        assert(entries_view(out@) =~= moved_entries(v.take(0), adjust));
    }
    while i < es.len()
        invariant
            v == entries_view(es@),
            spaces_ok(v),
            i <= v.len(),
            entries_view(out@) == moved_entries(v.take(i as int), adjust),
            entries_sorted(entries_view(out@)),
            spaces_ok(entries_view(out@)),
        decreases v.len() - i,
    {
        let e = &es[i];
        assert(v[i as int] == entry_view(*e));
        assert(e.space.word_size > 0);
        let delta: u64 = AddrSpace::address_to_byte(adjust as u64, e.space.word_size) as i32 as i64 as u64;
        proof {
            lemma_mod_u64(e.offset as int + delta as int);
        }
        let newoff = e.space.wrap_offset(e.offset.wrapping_add(delta));
        let ne = ImageEntry { space: e.space, offset: newoff, data: vstd::slice::slice_to_vec(e.data.as_slice()) };
        let ghost before = entries_view(out@);
        insert_entry(&mut out, ne);
        proof {
            assert(v.take(i + 1).drop_last() =~= v.take(i as int));
            assert(v.take(i + 1).last() == v[i as int]);
            assert(entry_view(ne) == moved_entry(v[i as int], adjust));
            let after = entries_view(out@);
            assert forall|k: int| 0 <= k < after.len() implies (#[trigger] after[k]).0.word_size > 0 by {
                lemma_sorted_insert_spaces(before, entry_view(ne), k);
            }
        }
        i += 1;
    }
    proof {
        assert(v.take(v.len() as int) =~= v);
    }
    out
}

impl LoadImageXml {
    /// Move every chunk and symbol by `adjust` units of its space (the
    /// read-only addresses stay where they were).
    pub fn adjust_vma(&mut self, adjust: i64)
        requires
            old(self).wf(),
        ensures
            final(self).wf(),
            entries_view(final(self).chunks@) == moved_entries(entries_view(old(self).chunks@), adjust),
            entries_view(final(self).symbols@) == moved_entries(entries_view(old(self).symbols@), adjust),
            final(self).readonlyset@ == old(self).readonlyset@,
            final(self).filename@ == old(self).filename@,
            final(self).archtype@ == old(self).archtype@,
            final(self).cursymbol == old(self).cursymbol,
    {
        let newchunks = move_entries(&self.chunks, adjust);
        let newsymbols = move_entries(&self.symbols, adjust);
        self.chunks = newchunks;
        self.symbols = newsymbols;
    }
}

/// The lower-case hexadecimal digit for `n` (below 16).
pub open spec fn hex_char(n: int) -> u8 {
    if n < 10 {
        (0x30 + n) as u8
    } else {
        (0x57 + n) as u8
    }
}

/// The two lower-case hexadecimal digits of a byte.
pub open spec fn byte_text(b: u8) -> Seq<u8> {
    seq![hex_char(b as int / 16), hex_char(b as int % 16)]
}

/// The text of the bytes from position `i` on: two digits per byte, a
/// line break after every twentieth byte, and a final line break.
pub open spec fn text_from(bs: Seq<u8>, i: int) -> Seq<u8>
    decreases bs.len() - i,
{
    if i < 0 || i >= bs.len() {
        seq![0x0au8]
    } else {
        byte_text(bs[i]) + (if i % 20 == 19 { seq![0x0au8] } else { Seq::empty() }) + text_from(bs, i + 1)
    }
}

/// The content text of a chunk of bytes: a line break, then the bytes'
/// text.
pub open spec fn chunk_text(bs: Seq<u8>) -> Seq<u8> {
    seq![0x0au8] + text_from(bs, 0)
}

fn hex_char_exec(n: u8) -> (r: u8)
    requires
        n < 16,
    ensures
        r == hex_char(n as int),
{
    if n < 10 {
        0x30 + n
    } else {
        0x57 + n
    }
}

/// The content text of a chunk of bytes (see [`chunk_text`]).
pub fn chunk_content_text(bytes: &[u8]) -> (r: Vec<u8>)
    ensures
        r@ == chunk_text(bytes@),
{
    let mut out: Vec<u8> = Vec::new();
    out.push(0x0a);
    let mut i: usize = 0;
    while i < bytes.len()
        invariant
            i <= bytes@.len(),
            chunk_text(bytes@) == out@ + text_from(bytes@, i as int),
        decreases bytes@.len() - i,
    {
        let b = bytes[i];
        let ghost before = out@;
        out.push(hex_char_exec(b / 16));
        out.push(hex_char_exec(b % 16));
        if i % 20 == 19 {
            out.push(0x0a);
        }
        proof {
            let sep = if i % 20 == 19 { seq![0x0au8] } else { Seq::<u8>::empty() };
            assert(out@ =~= before + byte_text(b) + sep);
            assert(text_from(bytes@, i as int) == byte_text(b) + sep + text_from(bytes@, i + 1));
            assert(before + (byte_text(b) + sep + text_from(bytes@, i + 1)) =~= out@ + text_from(bytes@, i + 1));
        }
        i += 1;
    }
    proof {
        assert(text_from(bytes@, i as int) == seq![0x0au8]);
    }
    out.push(0x0a);
    proof {
        assert(out@ =~= chunk_text(bytes@));
    }
    out
}

/// Skipping whitespace in a suffix is the same as in the whole text,
/// shifted by the prefix.
proof fn lemma_skip_ws_shift(p: Seq<u8>, s: Seq<u8>, pos: int)
    requires
        0 <= pos,
    ensures
        skip_ws_from(p + s, p.len() + pos) == p.len() + skip_ws_from(s, pos),
    decreases s.len() - pos,
{
    let t = p + s;
    if pos < s.len() {
        assert(t[p.len() + pos] == s[pos]);
        if is_ws(s[pos]) {
            lemma_skip_ws_shift(p, s, pos + 1);
        }
    }
}

/// Decoding a suffix is the same as decoding the whole text from where
/// the suffix starts.
proof fn lemma_hex_bytes_shift(p: Seq<u8>, s: Seq<u8>, pos: int)
    requires
        0 <= pos,
    ensures
        hex_bytes(p + s, p.len() + pos) == hex_bytes(s, pos),
    decreases s.len() - pos,
{
    let t = p + s;
    lemma_skip_ws_shift(p, s, pos);
    lemma_skip_ws_from(s, pos);
    let q = skip_ws_from(s, pos);
    if q + 1 < s.len() {
        assert(t[p.len() + q] == s[q]);
        assert(t[p.len() + q + 1] == s[q + 1]);
        if 0 < s[q] < 0x80 && 0 < s[q + 1] < 0x80 {
            lemma_hex_bytes_shift(p, s, q + 2);
        }
    }
}

/// A byte's two digits decode back to the byte, and decoding goes on
/// after them, past a line break.
proof fn lemma_byte_text_decodes(b: u8, sep: Seq<u8>, rest: Seq<u8>)
    requires
        sep == Seq::<u8>::empty() || sep == seq![0x0au8],
    ensures
        hex_bytes(byte_text(b) + sep + rest, 0) == seq![b] + hex_bytes(rest, 0),
{
    let t = byte_text(b) + sep + rest;
    let hi = b as int / 16;
    let lo = b as int % 16;
    assert(t[0] == hex_char(hi) && t[1] == hex_char(lo));
    assert(!is_ws(t[0]));
    assert(skip_ws_from(t, 0) == 0);
    assert(hex_digit(hex_char(hi)) == hi);
    assert(hex_digit(hex_char(lo)) == lo);
    assert((hi * 16 + lo) % 256 == b as int);
    assert(t =~= byte_text(b) + (sep + rest));
    lemma_hex_bytes_shift(byte_text(b), sep + rest, 0);
    if sep.len() == 1 {
        let u = sep + rest;
        assert(is_ws(u[0]));
        assert(skip_ws_from(u, 0) == skip_ws_from(u, 1));
        lemma_skip_ws_from(u, 1);
        assert(hex_bytes(u, 0) == hex_bytes(u, 1));
        assert(u =~= sep + rest);
        lemma_hex_bytes_shift(sep, rest, 0);
    } else {
        assert(sep + rest =~= rest);
    }
}

/// The text of the bytes from `i` on decodes to those bytes.
proof fn lemma_text_from_decodes(bs: Seq<u8>, i: int)
    requires
        0 <= i <= bs.len(),
    ensures
        hex_bytes(text_from(bs, i), 0) == bs.subrange(i, bs.len() as int),
    decreases bs.len() - i,
{
    if i == bs.len() {
        let t = text_from(bs, i);
        assert(t == seq![0x0au8]);
        assert(skip_ws_from(t, 0) == skip_ws_from(t, 1));
        assert(bs.subrange(i, bs.len() as int) =~= Seq::<u8>::empty());
    } else {
        let sep = if i % 20 == 19 { seq![0x0au8] } else { Seq::<u8>::empty() };
        lemma_byte_text_decodes(bs[i], sep, text_from(bs, i + 1));
        lemma_text_from_decodes(bs, i + 1);
        assert(seq![bs[i]] + bs.subrange(i + 1, bs.len() as int) =~= bs.subrange(i, bs.len() as int));
    }
}

/// Decoding a chunk's content text gives back its bytes.
pub proof fn lemma_chunk_text_roundtrip(bs: Seq<u8>)
    ensures
        hex_bytes(chunk_text(bs), 0) == bs,
{
    let t = chunk_text(bs);
    assert(is_ws(t[0]));
    assert(skip_ws_from(t, 0) == skip_ws_from(t, 1));
    assert(hex_bytes(t, 0) == hex_bytes(t, 1));
    lemma_hex_bytes_shift(seq![0x0au8], text_from(bs, 0), 0);
    lemma_text_from_decodes(bs, 0);
    assert(bs.subrange(0, bs.len() as int) =~= bs);
}

/// The chunks that hold bytes (empty chunks are not written out).
pub open spec fn nonempty_chunks(es: Seq<(AddrSpace, u64, Seq<u8>)>) -> Seq<(AddrSpace, u64, Seq<u8>)>
    decreases es.len(),
{
    if es.len() == 0 {
        Seq::empty()
    } else {
        nonempty_chunks(es.drop_last()) + if es.last().2.len() > 0 { seq![es.last()] } else { Seq::empty() }
    }
}

/// Do the elements write out the chunks `cs` (each with its read-only mark
/// from `ro` and its content text) and then the symbols `ss`?
pub open spec fn writes_image(els: Seq<ImageElement>, cs: Seq<(AddrSpace, u64, Seq<u8>)>, ss: Seq<(AddrSpace, u64, Seq<u8>)>, ro: Set<(int, u64)>) -> bool {
    &&& els.len() == cs.len() + ss.len()
    &&& forall|k: int| 0 <= k < cs.len() ==> (#[trigger] els[k] matches ImageElement::ByteChunk { space, offset, readonly, content }
        && space == cs[k].0 && offset == cs[k].1 && readonly == ro.contains((cs[k].0.index as int, cs[k].1))
        && content@ == chunk_text(cs[k].2))
    &&& forall|k: int| 0 <= k < ss.len() ==> (#[trigger] els[cs.len() + k] matches ImageElement::Symbol { space, offset, name }
        && space == ss[k].0 && offset == ss[k].1 && name@ == ss[k].2)
}

impl LoadImageXml {
    /// The elements that write the image out: every chunk holding bytes,
    /// in order, with its read-only mark and content text, then every
    /// symbol in order.
    pub fn encode(&self) -> (r: Vec<ImageElement>)
        ensures
            writes_image(r@, nonempty_chunks(entries_view(self.chunks@)), entries_view(self.symbols@), self.readonly_keys()),
    {
        let ghost v = entries_view(self.chunks@);
        let ghost sv = entries_view(self.symbols@);
        let ghost ro = self.readonly_keys();
        let mut out: Vec<ImageElement> = Vec::new();
        let mut i: usize = 0;
        while i < self.chunks.len()
            invariant
                v == entries_view(self.chunks@),
                ro == self.readonly_keys(),
                i <= v.len(),
                writes_image(out@, nonempty_chunks(v.take(i as int)), Seq::empty(), ro),
            decreases v.len() - i,
        {
            let c = &self.chunks[i];
            assert(v[i as int] == entry_view(*c));
            let ghost before = out@;
            let ghost cs0 = nonempty_chunks(v.take(i as int));
            proof {
                assert(v.take(i + 1).drop_last() =~= v.take(i as int));
                assert(v.take(i + 1).last() == v[i as int]);
            }
            if c.data.len() > 0 {
                let ro_mark = self.is_readonly(c.space.index, c.offset);
                let text = chunk_content_text(c.data.as_slice());
                out.push(ImageElement::ByteChunk { space: c.space, offset: c.offset, readonly: ro_mark, content: text });
                proof {
                    let cs1 = nonempty_chunks(v.take(i + 1));
                    assert(cs1 == cs0.push(v[i as int]));
                    assert forall|k: int| 0 <= k < cs1.len() implies (#[trigger] out@[k] matches ImageElement::ByteChunk { space, offset, readonly, content }
                        && space == cs1[k].0 && offset == cs1[k].1 && readonly == ro.contains((cs1[k].0.index as int, cs1[k].1))
                        && content@ == chunk_text(cs1[k].2)) by {
                        if k < cs0.len() {
                            assert(out@[k] == before[k]);
                        }
                    }
                }
            } else {
                proof {
                    assert(nonempty_chunks(v.take(i + 1)) =~= cs0);
                }
            }
            i += 1;
        }
        proof {
            assert(v.take(v.len() as int) =~= v);
        }
        let ghost cs = nonempty_chunks(v);
        let mut j: usize = 0;
        while j < self.symbols.len()
            invariant
                v == entries_view(self.chunks@),
                sv == entries_view(self.symbols@),
                ro == self.readonly_keys(),
                cs == nonempty_chunks(v),
                j <= sv.len(),
                writes_image(out@, cs, sv.take(j as int), ro),
            decreases sv.len() - j,
        {
            let sy = &self.symbols[j];
            assert(sv[j as int] == entry_view(*sy));
            let ghost before = out@;
            out.push(ImageElement::Symbol { space: sy.space, offset: sy.offset, name: vstd::slice::slice_to_vec(sy.data.as_slice()) });
            proof {
                let ss1 = sv.take(j + 1);
                assert forall|k: int| 0 <= k < cs.len() implies (#[trigger] out@[k] matches ImageElement::ByteChunk { space, offset, readonly, content }
                    && space == cs[k].0 && offset == cs[k].1 && readonly == ro.contains((cs[k].0.index as int, cs[k].1))
                    && content@ == chunk_text(cs[k].2)) by {
                    assert(out@[k] == before[k]);
                }
                assert forall|k: int| 0 <= k < ss1.len() implies (#[trigger] out@[cs.len() + k] matches ImageElement::Symbol { space, offset, name }
                    && space == ss1[k].0 && offset == ss1[k].1 && name@ == ss1[k].2) by {
                    if k < j {
                        assert(out@[cs.len() + k] == before[cs.len() + k]);
                    }
                }
            }
            j += 1;
        }
        proof {
            assert(sv.take(sv.len() as int) =~= sv);
        }
        out
    }
}

/// Inserting an entry whose address is above all others appends it.
proof fn lemma_sorted_insert_append(es: Seq<(AddrSpace, u64, Seq<u8>)>, e: (AddrSpace, u64, Seq<u8>))
    requires
        forall|k: int| 0 <= k < es.len() ==> key_lt(#[trigger] es[k], e),
    ensures
        sorted_insert(es, e) == es.push(e),
    decreases es.len(),
{
    if es.len() > 0 {
        assert(key_lt(es[0], e));
        assert(forall|k: int| 0 <= k < es.drop_first().len() ==> es.drop_first()[k] == es[k + 1]);
        lemma_sorted_insert_append(es.drop_first(), e);
        assert(seq![es[0]] + es.drop_first().push(e) =~= es.push(e));
    } else {
        assert(seq![e] =~= es.push(e));
    }
}

/// The read-only marks of `ro` that fall on the chunks `cs`.
pub open spec fn marks_on(cs: Seq<(AddrSpace, u64, Seq<u8>)>, ro: Set<(int, u64)>) -> Set<(int, u64)> {
    Set::new(|k: (int, u64)| ro.contains(k) && exists|i: int| 0 <= i < cs.len() && (#[trigger] cs[i]).0.index as int == k.0 && cs[i].1 == k.1)
}

/// Reading back what an image wrote out gives its chunks (those written),
/// its symbols, and its read-only marks on those chunks.
pub proof fn lemma_read_back_written_image(
    els: Seq<ImageElement>,
    cs: Seq<(AddrSpace, u64, Seq<u8>)>,
    ss: Seq<(AddrSpace, u64, Seq<u8>)>,
    ro: Set<(int, u64)>,
)
    requires
        writes_image(els, cs, ss, ro),
        entries_sorted(cs),
        entries_sorted(ss),
    ensures
        apply_elements((Seq::empty(), Seq::empty(), Set::empty()), els) == Some::<ImageContents>((cs, ss, marks_on(cs, ro))),
{
    let st0: ImageContents = (Seq::empty(), Seq::empty(), Set::empty());
    let n = els.len() as int;
    assert forall|m: int| 0 <= m <= n implies #[trigger] apply_elements(st0, els.take(m)) == Some::<ImageContents>(if m <= cs.len() {
        (cs.take(m), Seq::<(AddrSpace, u64, Seq<u8>)>::empty(), marks_on(cs.take(m), ro))
    } else {
        (cs, ss.take(m - cs.len()), marks_on(cs, ro))
    }) by {
        lemma_read_back_prefix(els, cs, ss, ro, m);
    }
    assert(els.take(n) =~= els);
    assert(ss.take(ss.len() as int) =~= ss);
    assert(cs.take(cs.len() as int) =~= cs);
}

/// Reading back the first `m` written elements.
proof fn lemma_read_back_prefix(
    els: Seq<ImageElement>,
    cs: Seq<(AddrSpace, u64, Seq<u8>)>,
    ss: Seq<(AddrSpace, u64, Seq<u8>)>,
    ro: Set<(int, u64)>,
    m: int,
)
    requires
        writes_image(els, cs, ss, ro),
        entries_sorted(cs),
        entries_sorted(ss),
        0 <= m <= els.len(),
    ensures
        apply_elements((Seq::empty(), Seq::empty(), Set::empty()), els.take(m)) == Some::<ImageContents>(if m <= cs.len() {
            (cs.take(m), Seq::<(AddrSpace, u64, Seq<u8>)>::empty(), marks_on(cs.take(m), ro))
        } else {
            (cs, ss.take(m - cs.len()), marks_on(cs, ro))
        }),
    decreases m,
{
    let st0: ImageContents = (Seq::empty(), Seq::empty(), Set::empty());
    if m == 0 {
        assert(els.take(0) =~= Seq::<ImageElement>::empty());
        assert(cs.take(0) =~= Seq::<(AddrSpace, u64, Seq<u8>)>::empty());
        assert(marks_on(cs.take(0), ro) =~= Set::<(int, u64)>::empty());
    } else {
        lemma_read_back_prefix(els, cs, ss, ro, m - 1);
        assert(els.take(m).drop_last() =~= els.take(m - 1));
        assert(els.take(m).last() == els[m - 1]);
        if m <= cs.len() {
            let k = m - 1;
            let prev = cs.take(k);
            assert(els[k] matches ImageElement::ByteChunk { .. });
            match els[k] {
                ImageElement::ByteChunk { space, offset, readonly, content } => {
                    lemma_chunk_text_roundtrip(cs[k].2);
                    assert forall|j: int| 0 <= j < prev.len() implies key_lt(#[trigger] prev[j], cs[k]) by {
                        assert(prev[j] == cs[j]);
                    }
                    lemma_sorted_insert_append(prev, (space, offset, hex_bytes(content@, 0)));
                    assert(prev.push(cs[k]) =~= cs.take(m));
                    let marks0 = marks_on(prev, ro);
                    let marks1 = marks_on(cs.take(m), ro);
                    if readonly {
                        assert(marks0.insert((space.index as int, offset)) =~= marks1) by {
                            assert forall|q: (int, u64)| #[trigger] marks1.contains(q) == marks0.insert((space.index as int, offset)).contains(q) by {
                                if marks1.contains(q) {
                                    let i = choose|i: int| 0 <= i < cs.take(m).len() && (#[trigger] cs.take(m)[i]).0.index as int == q.0 && cs.take(m)[i].1 == q.1;
                                    if i < k {
                                        assert(prev[i] == cs.take(m)[i]);
                                    }
                                }
                                if marks0.contains(q) {
                                    let i = choose|i: int| 0 <= i < prev.len() && (#[trigger] prev[i]).0.index as int == q.0 && prev[i].1 == q.1;
                                    assert(cs.take(m)[i] == prev[i]);
                                }
                                if q == (space.index as int, offset) {
                                    assert(cs.take(m)[k] == cs[k]);
                                }
                            }
                        }
                    } else {
                        assert(marks0 =~= marks1) by {
                            assert forall|q: (int, u64)| #[trigger] marks1.contains(q) == marks0.contains(q) by {
                                if marks1.contains(q) {
                                    let i = choose|i: int| 0 <= i < cs.take(m).len() && (#[trigger] cs.take(m)[i]).0.index as int == q.0 && cs.take(m)[i].1 == q.1;
                                    if i < k {
                                        assert(prev[i] == cs.take(m)[i]);
                                    } else {
                                        assert(cs.take(m)[i] == cs[k]);
                                    }
                                }
                                if marks0.contains(q) {
                                    let i = choose|i: int| 0 <= i < prev.len() && (#[trigger] prev[i]).0.index as int == q.0 && prev[i].1 == q.1;
                                    assert(cs.take(m)[i] == prev[i]);
                                }
                            }
                        }
                    }
                },
                _ => {},
            }
        } else {
            let k = m - 1 - cs.len();
            let prev = ss.take(k);
            assert(els[cs.len() + k] matches ImageElement::Symbol { .. });
            match els[m - 1] {
                ImageElement::Symbol { space, offset, name } => {
                    assert forall|j: int| 0 <= j < prev.len() implies key_lt(#[trigger] prev[j], ss[k]) by {
                        assert(prev[j] == ss[j]);
                    }
                    lemma_sorted_insert_append(prev, (space, offset, name@));
                    assert(prev.push(ss[k]) =~= ss.take(k + 1));
                    if m - 1 == cs.len() {
                        assert(cs.take(m - 1) =~= cs);
                        assert(prev =~= Seq::<(AddrSpace, u64, Seq<u8>)>::empty());
                    }
                },
                _ => {},
            }
        }
    }
}

/// The chunks holding bytes are among the chunks, in the same order.
proof fn lemma_nonempty_chunks_sorted(es: Seq<(AddrSpace, u64, Seq<u8>)>)
    requires
        entries_sorted(es),
    ensures
        entries_sorted(nonempty_chunks(es)),
        forall|k: int| 0 <= k < nonempty_chunks(es).len() ==> exists|j: int| 0 <= j < es.len() && #[trigger] nonempty_chunks(es)[k] == es[j],
    decreases es.len(),
{
    if es.len() > 0 {
        let init = es.drop_last();
        assert forall|a: int, b: int| 0 <= a < b < init.len() implies key_lt(#[trigger] init[a], #[trigger] init[b]) by {
            assert(init[a] == es[a] && init[b] == es[b]);
        }
        lemma_nonempty_chunks_sorted(init);
        let p = nonempty_chunks(init);
        let r = nonempty_chunks(es);
        assert forall|k: int| 0 <= k < r.len() implies exists|j: int| 0 <= j < es.len() && #[trigger] r[k] == es[j] by {
            if k < p.len() {
                assert(r[k] == p[k]);
                let j = choose|j: int| 0 <= j < init.len() && #[trigger] p[k] == init[j];
                assert(init[j] == es[j]);
            } else {
                assert(r[k] == es.last());
                assert(es.last() == es[es.len() - 1]);
            }
        }
        assert forall|a: int, b: int| 0 <= a < b < r.len() implies key_lt(#[trigger] r[a], #[trigger] r[b]) by {
            if b < p.len() {
                assert(r[a] == p[a] && r[b] == p[b]);
            } else {
                assert(r[a] == p[a]);
                let j = choose|j: int| 0 <= j < init.len() && #[trigger] p[a] == init[j];
                assert(init[j] == es[j]);
                assert(r[b] == es[es.len() - 1]);
            }
        }
    }
}

/// Reading back the elements an image writes out gives its chunks that
/// hold bytes, its symbols, and its read-only marks on those chunks.
pub proof fn lemma_image_read_back(img: LoadImageXml, els: Seq<ImageElement>)
    requires
        img.wf(),
        writes_image(els, nonempty_chunks(entries_view(img.chunks@)), entries_view(img.symbols@), img.readonly_keys()),
    ensures
        apply_elements((Seq::empty(), Seq::empty(), Set::empty()), els) == Some::<ImageContents>((
            nonempty_chunks(entries_view(img.chunks@)),
            entries_view(img.symbols@),
            marks_on(nonempty_chunks(entries_view(img.chunks@)), img.readonly_keys()),
        )),
{
    lemma_nonempty_chunks_sorted(entries_view(img.chunks@));
    lemma_read_back_written_image(els, nonempty_chunks(entries_view(img.chunks@)), entries_view(img.symbols@), img.readonly_keys());
}

} // verus!
