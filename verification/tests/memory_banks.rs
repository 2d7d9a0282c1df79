use kuna_sleigh::globalcontext::VarnodeLoc;
use kuna_sleigh::memstate::{MemoryError, MemoryHashOverlay, MemoryPageOverlay, MemoryState};
use kuna_sleigh::space::{AddrSpace, SpaceType};

fn ram(big_endian: bool) -> AddrSpace {
    AddrSpace::new(1, SpaceType::Processor, big_endian, 4, 1)
}

fn register() -> AddrSpace {
    AddrSpace::new(2, SpaceType::Processor, false, 4, 1)
}

fn unique() -> AddrSpace {
    AddrSpace::new(3, SpaceType::Internal, false, 4, 1)
}

fn constant() -> AddrSpace {
    AddrSpace::new(0, SpaceType::Constant, false, 8, 1)
}

#[test]
fn test_memstate_page_overlay_big_endian() {
    let r = ram(true);
    let mut overlay = MemoryPageOverlay::new(r, 8, 16);

    overlay.set_value(0x0, 8, 0x1122334455667788);
    let mut res = [0u8; 8];
    overlay.get_chunk(0x0, &mut res);
    // big endian: most significant byte at the lowest address
    assert_eq!(res, [0x11, 0x22, 0x33, 0x44, 0x55, 0x66, 0x77, 0x88]);

    // partial-word write lands in address order
    overlay.set_value(0x3, 2, 0xBEEF);
    assert_eq!(overlay.find(0x0), 0x112233BEEF667788);
    overlay.get_chunk(0x0, &mut res);
    assert_eq!(res, [0x11, 0x22, 0x33, 0xBE, 0xEF, 0x66, 0x77, 0x88]);
    assert_eq!(overlay.get_value(0x3, 2), 0xBEEF);

    // spill over a word boundary, big endian
    overlay.set_value(0x6, 4, 0xAABBCCDD);
    assert_eq!(overlay.find(0x0), 0x112233BEEF66AABB);
    assert_eq!(overlay.find(0x8), 0xCCDD000000000000);
    assert_eq!(overlay.get_value(0x6, 4), 0xAABBCCDD);
}

#[test]
fn test_memstate_page_overlay_little_endian() {
    let mut zeros = MemoryPageOverlay::new(ram(false), 8, 16);
    assert_eq!(zeros.get_value(0x80, 8), 0);
    zeros.set_value(0x84, 4, 0xCAFEBABE);
    assert_eq!(zeros.find(0x80), 0xCAFEBABE00000000);
    let mut res = [0u8; 4];
    zeros.get_chunk(0x84, &mut res);
    assert_eq!(res, [0xBE, 0xBA, 0xFE, 0xCA]);
}

#[test]
fn page_overlay_little_endian_words_and_spill() {
    let mut overlay = MemoryPageOverlay::new(ram(false), 8, 16);
    overlay.set_chunk(0x2000, &[0x11, 0x22, 0x33, 0x44, 0x55, 0x66, 0x77, 0x88]);
    assert_eq!(overlay.get_value(0x2000, 8), 0x8877665544332211);

    overlay.set_value(0x2003, 2, 0xBEEF);
    assert_eq!(overlay.get_value(0x2000, 8), 0x887766BEEF332211);
    assert_eq!(overlay.get_value(0x2003, 2), 0xBEEF);

    // a value spilling into the next word
    overlay.set_value(0x2006, 4, 0xAABBCCDD);
    assert_eq!(overlay.find(0x2000), 0xCCDD66BEEF332211);
    assert_eq!(overlay.find(0x2008), 0x000000000000AABB);
    assert_eq!(overlay.get_value(0x2006, 4), 0xAABBCCDD);
}

#[test]
fn page_overlay_chunk_across_pages_reads_back() {
    let mut overlay = MemoryPageOverlay::new(ram(false), 8, 16);
    overlay.set_chunk(0x200e, &[0xDE, 0xAD, 0xBE, 0xEF]);
    assert_eq!(overlay.get_value(0x200e, 2), 0xADDE);
    assert_eq!(overlay.get_value(0x2010, 2), 0xEFBE);
    let mut res = [0xffu8; 6];
    overlay.get_chunk(0x200d, &mut res);
    assert_eq!(res, [0, 0xDE, 0xAD, 0xBE, 0xEF, 0]);
}

#[test]
fn page_overlay_chunk_wraps_at_top_of_space() {
    let mut overlay = MemoryPageOverlay::new(ram(false), 4, 8);
    overlay.set_chunk(0xffff_ffff_ffff_fffe, &[1, 2, 3, 4]);
    let mut res = [0u8; 4];
    overlay.get_chunk(0xffff_ffff_ffff_fffe, &mut res);
    assert_eq!(res, [1, 2, 3, 4]);
    assert_eq!(overlay.get_value(0, 2), 0x0403);
}

#[test]
fn page_overlay_page_access() {
    let mut overlay = MemoryPageOverlay::new(ram(false), 4, 16);
    overlay.set_page(0x40, &[9, 8, 7], 5);
    let mut res = [0xaau8; 5];
    overlay.get_page(0x40, &mut res, 4);
    assert_eq!(res, [0, 9, 8, 7, 0]);
    let mut untouched = [0xaau8; 3];
    overlay.get_page(0x80, &mut untouched, 0);
    assert_eq!(untouched, [0, 0, 0]);
    assert_eq!(overlay.get_word_size(), 4);
    assert_eq!(overlay.get_page_size(), 16);
    assert_eq!(overlay.get_space(), ram(false));
}

#[test]
fn test_memstate_memory_state() {
    let r = ram(false);
    let reg = register();
    let uniq = unique();

    let mut state = MemoryState::new();
    state.set_memory_bank(MemoryPageOverlay::new(r, 8, 16));
    state.set_memory_bank(MemoryPageOverlay::new(reg, 8, 16));
    assert_eq!(state.get_memory_bank(&r).unwrap().get_space(), r);
    assert!(state.get_memory_bank(&uniq).is_none());

    // constant space reads return the offset directly
    assert_eq!(state.get_value(&constant(), 12345, 8).unwrap(), 12345);

    // space/offset interface
    state.set_value(&r, 0x3000, 8, 0x1234).unwrap();
    assert_eq!(state.get_value(&r, 0x3000, 8).unwrap(), 0x1234);

    // varnode interface
    let vn = VarnodeLoc { space: reg, offset: 8, size: 8 };
    state.set_value_data(&vn, 0xfeed).unwrap();
    assert_eq!(state.get_value_data(&vn).unwrap(), 0xfeed);
    assert_eq!(state.get_value(&reg, 8, 8).unwrap(), 0xfeed);

    // chunk interface
    state.set_chunk(&[0xDE, 0xAD], &r, 0x3008).unwrap();
    let mut res = [0u8; 2];
    state.get_chunk(&mut res, &r, 0x3008).unwrap();
    assert_eq!(res, [0xDE, 0xAD]);

    // unmapped space errors carry the expected descriptions
    assert_eq!(state.get_value(&uniq, 0, 8).unwrap_err(), MemoryError::GetUnmapped);
    assert_eq!(
        state.get_value(&uniq, 0, 8).unwrap_err().explain(),
        "Getting value from unmapped memory space"
    );
    assert_eq!(
        state.set_value(&uniq, 0, 8, 1).unwrap_err().explain(),
        "Setting value for unmapped memory space"
    );
    let mut res = [0u8; 1];
    assert_eq!(
        state.get_chunk(&mut res, &uniq, 0).unwrap_err().explain(),
        "Getting chunk from unmapped memory space"
    );
    assert_eq!(
        state.set_chunk(&[0], &uniq, 0).unwrap_err().explain(),
        "Setting chunk of unmapped memory space"
    );
}

#[test]
fn memory_state_replacing_a_bank_forgets_old_contents() {
    let r = ram(false);
    let mut state = MemoryState::new();
    state.set_memory_bank(MemoryPageOverlay::new(r, 8, 16));
    state.set_value(&r, 0x10, 4, 0xdeadbeef).unwrap();
    assert_eq!(state.get_value(&r, 0x10, 4).unwrap(), 0xdeadbeef);
    state.set_memory_bank(MemoryPageOverlay::new(r, 8, 16));
    assert_eq!(state.get_value(&r, 0x10, 4).unwrap(), 0);
}

#[test]
fn test_memstate_hash_overlay() {
    let r = ram(false);
    let mut hash = MemoryHashOverlay::new(r, 8, 16, 16);
    // unwritten words read as zero
    assert_eq!(hash.get_value(0x2000, 8), 0);
    // aligned write and replacement
    hash.set_value(0x100, 8, 42).unwrap();
    assert_eq!(hash.get_value(0x100, 8), 42);
    hash.set_value(0x100, 8, 43).unwrap();
    assert_eq!(hash.get_value(0x100, 8), 43);
    hash.set_value(0x100, 8, 42).unwrap();

    // unaligned write spanning two words (read-modify-write through the
    // table): word 0x100 keeps 42 in its low half
    hash.set_value(0x104, 8, 0x1122334455667788).unwrap();
    assert_eq!(hash.get_value(0x100, 8), 0x556677880000002A);
    assert_eq!(hash.get_value(0x108, 8), 0x11223344);
    assert_eq!(hash.get_value(0x104, 8), 0x1122334455667788);
    assert_eq!(hash.find(0x108), 0x11223344);

    // collision probing: hashsize 4, addresses 0x0 and 0x20 both hash to
    // slot 0; the second probes (0 + 1023) % 4 = 3
    let mut small = MemoryHashOverlay::new(r, 8, 16, 4);
    small.set_value(0x0, 8, 7).unwrap();
    small.set_value(0x20, 8, 9).unwrap();
    assert_eq!(small.get_value(0x0, 8), 7);
    assert_eq!(small.get_value(0x20, 8), 9);
    assert_eq!(small.address[0], 0x0);
    assert_eq!(small.address[3], 0x20);

    // table full: hashsize 2 holds two addresses, the third errs
    let mut tiny = MemoryHashOverlay::new(r, 8, 16, 2);
    tiny.set_value(0x0, 8, 1).unwrap();
    tiny.set_value(0x8, 8, 2).unwrap();
    let err = tiny.set_value(0x10, 8, 3).unwrap_err();
    assert_eq!(err, MemoryError::HashFull);
    assert_eq!(err.explain(), "Memory state hash_table is full");
    // the failed store changed nothing
    assert_eq!(tiny.get_value(0x0, 8), 1);
    assert_eq!(tiny.get_value(0x8, 8), 2);
    assert_eq!(tiny.get_value(0x10, 8), 0);

    // unwritten with no underlying bank reads zero
    let empty = MemoryHashOverlay::new(r, 8, 16, 4);
    assert_eq!(empty.get_value(0x40, 8), 0);
}

#[test]
fn hash_overlay_insert_reports_full_table() {
    let mut h = MemoryHashOverlay::new(ram(true), 4, 16, 1);
    h.insert(0x10, 5).unwrap();
    assert_eq!(h.find(0x10), 5);
    assert_eq!(h.insert(0x20, 6).unwrap_err(), MemoryError::HashFull);
    h.insert(0x10, 8).unwrap();
    assert_eq!(h.find(0x10), 8);
    // big-endian 2-byte read inside the word
    assert_eq!(h.get_value(0x12, 2), 0x0008);
}
