//! Address spaces as the rest of the library sees them: a small copyable
//! description (index, kind, endianness, sizes), plus the byte/word helpers
//! that the memory and template code use.
use vstd::prelude::*;

verus! {

/// The kind of an address space.
#[derive(Debug, Clone, Copy, PartialEq, Eq, Structural)]
pub enum SpaceType {
    /// The constant space: an "address" is the value itself.
    Constant,
    /// A normal processor space (RAM, registers).
    Processor,
    /// A space addressed relative to a base register.
    Spacebase,
    /// The internal (unique/temporary) space.
    Internal,
    /// Space for function-call specifications.
    Fspec,
    /// Space for internal p-code op references.
    Iop,
    /// Space for joined storage.
    Join,
}

/// A description of an address space.
///
/// Two spaces are the same space exactly when their indices agree.
#[derive(Debug, Clone, Copy, PartialEq, Eq, Structural)]
pub struct AddrSpace {
    /// The index of the space within its manager.
    pub index: i32,
    /// The kind of the space.
    pub space_type: SpaceType,
    /// Are values in this space encoded big-endian?
    pub big_endian: bool,
    /// Number of bytes in an address of this space.
    pub addr_size: u32,
    /// Number of bytes in an addressable unit of this space.
    pub word_size: u32,
}

impl AddrSpace {
    /// Build a space description.
    pub fn new(index: i32, space_type: SpaceType, big_endian: bool, addr_size: u32, word_size: u32) -> (r: AddrSpace)
        ensures
            r == (AddrSpace { index, space_type, big_endian, addr_size, word_size }),
    {
        AddrSpace { index, space_type, big_endian, addr_size, word_size }
    }

    /// The index of the space.
    pub fn get_index(&self) -> (r: i32)
        ensures
            r == self.index,
    {
        self.index
    }

    /// The kind of the space.
    pub fn get_type(&self) -> (r: SpaceType)
        ensures
            r == self.space_type,
    {
        self.space_type
    }

    /// Is the space big-endian?
    pub fn is_big_endian(&self) -> (r: bool)
        ensures
            r == self.big_endian,
    {
        self.big_endian
    }

    /// Number of bytes in an address.
    pub fn get_addr_size(&self) -> (r: u32)
        ensures
            r == self.addr_size,
    {
        self.addr_size
    }

    /// Number of bytes in an addressable unit.
    pub fn get_word_size(&self) -> (r: u32)
        ensures
            r == self.word_size,
    {
        self.word_size
    }

    /// The highest offset of a space with addresses of `addr_size` bytes
    /// and units of `word_size` bytes (computed modulo 2^64).
    pub open spec fn spec_highest(addr_size: u32, word_size: u32) -> u64 {
        ((spec_calc_mask(addr_size as int) as int * word_size as int + word_size as int - 1) % 0x1_0000_0000_0000_0000) as u64
    }

    /// The highest offset in the space.
    pub fn get_highest(&self) -> (r: u64)
        requires
            self.word_size > 0,
        ensures
            r == Self::spec_highest(self.addr_size, self.word_size),
    {
        let m = if self.addr_size >= 8 { u64::MAX } else { calc_mask(self.addr_size as i32) };
        let r = m.wrapping_mul(self.word_size as u64).wrapping_add((self.word_size - 1) as u64);
        proof {
            vstd::arithmetic::div_mod::lemma_add_mod_noop(
                (m as int * self.word_size as int) % 0x1_0000_0000_0000_0000, self.word_size as int - 1, 0x1_0000_0000_0000_0000);
        }
        r
    }

    /// Reduce an offset into the space the way the decoder does: an
    /// offset above the highest is taken modulo the space's size, reading
    /// the offset as a signed 64-bit number (and the size too, when it is
    /// 2^63 or more).
    pub open spec fn spec_wrap_offset(off: u64, highest: u64) -> u64 {
        let m = highest as int + 1;
        if off <= highest {
            off
        } else if off < 0x8000_0000_0000_0000 {
            (off as int % m) as u64
        } else if m < 0x8000_0000_0000_0000 {
            let t = (0x1_0000_0000_0000_0000 - off as int) % m;
            if t == 0 { 0 } else { (m - t) as u64 }
        } else if m == 0x8000_0000_0000_0000 {
            (off - 0x8000_0000_0000_0000) as u64
        } else if off as int == m {
            0
        } else {
            (off as int + m - 0x1_0000_0000_0000_0000) as u64
        }
    }

    /// Reduce `off` into the space (see [`AddrSpace::spec_wrap_offset`]).
    pub fn wrap_offset(&self, off: u64) -> (r: u64)
        requires
            self.word_size > 0,
        ensures
            r == Self::spec_wrap_offset(off, Self::spec_highest(self.addr_size, self.word_size)),
    {
        let h = self.get_highest();
        if off <= h {
            off
        } else {
            let m: u64 = h + 1;
            if off < 0x8000_0000_0000_0000 {
                off % m
            } else if m < 0x8000_0000_0000_0000 {
                let t: u64 = (0u64.wrapping_sub(off)) % m;
                if t == 0 { 0 } else { m - t }
            } else if m == 0x8000_0000_0000_0000 {
                off - 0x8000_0000_0000_0000
            } else if off == m {
                0
            } else {
                off.wrapping_add(m)
            }
        }
    }

    /// Convert an address (unit) offset to a byte offset (modulo 2^64).
    pub fn address_to_byte(val: u64, ws: u32) -> (r: u64)
        ensures
            r == (val as int * ws as int) % 0x1_0000_0000_0000_0000,
    {
        val.wrapping_mul(ws as u64)
    }

    /// Convert a byte offset to an address (unit) offset.
    pub fn byte_to_address(val: u64, ws: u32) -> (r: u64)
        requires
            ws > 0,
        ensures
            r == val / (ws as u64),
    {
        val / (ws as u64)
    }
}

/// The mask selecting the low `size` bytes of a 64-bit value.
pub open spec fn spec_calc_mask(size: int) -> u64 {
    if size >= 8 {
        u64::MAX
    } else if size <= 0 {
        0
    } else {
        (u64::MAX >> ((64 - 8 * size) as u64)) as u64
    }
}

/// The mask selecting the low `size` bytes of a 64-bit value (all bits for
/// 8 or more bytes, none for a non-positive size).
pub fn calc_mask(size: i32) -> (r: u64)
    ensures
        r == spec_calc_mask(size as int),
{
    if size >= 8 {
        u64::MAX
    } else if size <= 0 {
        0
    } else {
        let sh: u64 = (64 - 8 * size) as u64;
        u64::MAX >> sh
    }
}

} // verus!
