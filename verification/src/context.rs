//! What surrounds the decoding of one instruction: instruction-stream
//! tokens and the resolved form of a varnode a constructor exports.
use vstd::prelude::*;

use crate::space::AddrSpace;

verus! {

/// A multiple-byte chunk of pattern in the instruction byte stream.
#[derive(Debug, Clone)]
pub struct Token {
    /// The name of the token.
    pub name: Vec<u8>,
    /// The number of bytes in the token.
    pub size: i32,
    /// The index of the token, for resolving offsets.
    pub index: i32,
    /// Are encodings within the token big-endian?
    pub bigendian: bool,
}

impl Token {
    /// A token named `nm` of `sz` bytes, at index `ind`.
    pub fn new(nm: &[u8], sz: i32, be: bool, ind: i32) -> (r: Token)
        ensures
            r.name@ == nm@,
            r.size == sz,
            r.bigendian == be,
            r.index == ind,
    {
        Token { name: vstd::slice::slice_to_vec(nm), size: sz, index: ind, bigendian: be }
    }

    /// The size in bytes.
    pub fn get_size(&self) -> (r: i32)
        ensures
            r == self.size,
    {
        self.size
    }

    /// Are encodings within the token big-endian?
    pub fn is_big_endian(&self) -> (r: bool)
        ensures
            r == self.bigendian,
    {
        self.bigendian
    }

    /// The index of the token.
    pub fn get_index(&self) -> (r: i32)
        ensures
            r == self.index,
    {
        self.index
    }

    /// The name of the token.
    pub fn get_name(&self) -> (r: &[u8])
        ensures
            r@ == self.name@,
    {
        self.name.as_slice()
    }
}

/// A resolved varnode: for a static varnode the triple (space, offset,
/// size); for a dynamic one also the pointer varnode holding the offset
/// and a temporary location for the value pointed to.
#[derive(Debug, Clone, Copy, PartialEq, Eq, Structural)]
pub struct FixedHandle {
    /// The space of the varnode.
    pub space: Option<AddrSpace>,
    /// The number of bytes in the varnode.
    pub size: u32,
    /// None, or the space of the pointer holding a dynamic offset.
    pub offset_space: Option<AddrSpace>,
    /// The offset of a static varnode, or the offset of the pointer.
    pub offset_offset: u64,
    /// The size of the pointer.
    pub offset_size: u32,
    /// The space of the temporary holding a dynamic value.
    pub temp_space: Option<AddrSpace>,
    /// The offset of the temporary.
    pub temp_offset: u64,
}

impl FixedHandle {
    /// The handle with no spaces and every number zero.
    pub open spec fn empty() -> FixedHandle {
        FixedHandle {
            space: None,
            size: 0,
            offset_space: None,
            offset_offset: 0,
            offset_size: 0,
            temp_space: None,
            temp_offset: 0,
        }
    }

    /// Is the varnode's offset dynamic (held in a pointer)?
    pub open spec fn is_dynamic(&self) -> bool {
        self.offset_space is Some
    }
}

impl Default for FixedHandle {
    fn default() -> (r: FixedHandle)
        ensures
            r == FixedHandle::empty(),
    {
        FixedHandle {
            space: None,
            size: 0,
            offset_space: None,
            offset_offset: 0,
            offset_size: 0,
            temp_space: None,
            temp_offset: 0,
        }
    }
}

/// An address reported by the decoder: a space and an offset in it.
#[derive(Debug, Clone, Copy, PartialEq, Eq, Structural)]
pub struct WalkerAddr {
    /// The space of the address.
    pub space: AddrSpace,
    /// The offset within the space.
    pub offset: u64,
}

/// What instantiating a template reads of the instruction being decoded:
/// its addresses (those that may be unknown are optional), the current and
/// constant spaces, and the resolved handles of its operands.
#[derive(Debug, Clone)]
pub struct WalkerView {
    /// The start address of the instruction.
    pub addr: WalkerAddr,
    /// The address of the next instruction.
    pub naddr: WalkerAddr,
    /// The address of the instruction after the next, if known.
    pub n2addr: Option<WalkerAddr>,
    /// The flow reference address, if known.
    pub ref_addr: Option<WalkerAddr>,
    /// The flow destination address, if known.
    pub dest_addr: Option<WalkerAddr>,
    /// The current address space.
    pub cur_space: AddrSpace,
    /// The constant space.
    pub const_space: AddrSpace,
    /// The resolved handles of the operands, by handle index.
    pub handles: Vec<FixedHandle>,
}

impl WalkerView {
    /// The resolved handle with index `i`, if there is one.
    pub open spec fn handle(&self, i: i32) -> Option<FixedHandle> {
        if 0 <= i < self.handles@.len() {
            Some(self.handles@[i as int])
        } else {
            None
        }
    }

    /// The resolved handle with index `i`, if there is one.
    pub fn get_fixed_handle(&self, i: i32) -> (r: Option<FixedHandle>)
        ensures
            r == self.handle(i),
    {
        if 0 <= i && (i as usize) < self.handles.len() {
            Some(self.handles[i as usize])
        } else {
            None
        }
    }
}

} // verus!
