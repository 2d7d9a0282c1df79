use kuna_sleigh::globalcontext::ContextBitRange;
use kuna_sleigh::memstate::{construct_value, deconstruct_value};

#[test]
fn test_globalcontext_bitrange_pack_unpack() {
    let r = ContextBitRange::new(0, 7);
    assert_eq!((r.get_word(), r.get_shift(), r.get_mask()), (0, 24, 0xff));
    let r2 = ContextBitRange::new(4, 6);
    assert_eq!((r2.get_word(), r2.get_shift(), r2.get_mask()), (0, 25, 0x7));
    let r3 = ContextBitRange::new(32, 47);
    assert_eq!((r3.get_word(), r3.get_shift(), r3.get_mask()), (1, 16, 0xffff));
    let bit = ContextBitRange::new(8, 8);
    assert_eq!((bit.get_word(), bit.get_shift(), bit.get_mask()), (0, 23, 0x1));
    // full-word value
    let full = ContextBitRange::new(0, 31);
    assert_eq!((full.get_word(), full.get_shift(), full.get_mask()), (0, 0, 0xffff_ffff));

    let mut blob = [0u32; 2];
    r.set_value(&mut blob, 0xab);
    r3.set_value(&mut blob, 0x1234);
    bit.set_value(&mut blob, 1);
    assert_eq!(r.get_value(&blob), 0xab);
    assert_eq!(r3.get_value(&blob), 0x1234);
    assert_eq!(bit.get_value(&blob), 1);
    assert_eq!(blob[0], 0xab80_0000);
    assert_eq!(blob[1], 0x1234_0000);
    // overwrite only touches its own bits; oversized values are masked
    r.set_value(&mut blob, 0x1cd);
    assert_eq!(r.get_value(&blob), 0xcd);
    assert_eq!(bit.get_value(&blob), 1);
    assert_eq!(r3.get_value(&blob), 0x1234);
}

#[test]
fn bitrange_get_after_set_on_every_field() {
    // a value written to a field reads back masked; other fields keep theirs
    let fields = [
        ContextBitRange::new(0, 3),
        ContextBitRange::new(4, 11),
        ContextBitRange::new(12, 31),
        ContextBitRange::new(32, 63),
    ];
    let mut blob = [0u32; 2];
    for (i, f) in fields.iter().enumerate() {
        f.set_value(&mut blob, 0xdead_beef ^ (i as u32));
    }
    for (i, f) in fields.iter().enumerate() {
        assert_eq!(f.get_value(&blob), (0xdead_beef ^ (i as u32)) & f.get_mask());
    }
    fields[1].set_value(&mut blob, 0);
    assert_eq!(fields[1].get_value(&blob), 0);
    assert_eq!(fields[0].get_value(&blob), 0xf & 0xdead_beef);
    assert_eq!(fields[2].get_value(&blob), (0xdead_beef ^ 2) & 0xf_ffff);
    assert_eq!(fields[3].get_value(&blob), 0xdead_beef ^ 3);
}

#[test]
fn test_memstate_construct_deconstruct_value() {
    let bytes = [0x12u8, 0x34, 0x56, 0x78];
    assert_eq!(construct_value(&bytes, 4, true), 0x12345678);
    assert_eq!(construct_value(&bytes, 4, false), 0x78563412);
    assert_eq!(construct_value(&bytes, 1, true), 0x12);
    assert_eq!(construct_value(&bytes, 1, false), 0x12);

    let mut out = [0u8; 4];
    deconstruct_value(&mut out, 0x12345678, 4, true);
    assert_eq!(out, [0x12, 0x34, 0x56, 0x78]);
    deconstruct_value(&mut out, 0x12345678, 4, false);
    assert_eq!(out, [0x78, 0x56, 0x34, 0x12]);
    // round trip an 8-byte value both ways
    let mut out = [0u8; 8];
    deconstruct_value(&mut out, 0x1122334455667788, 8, true);
    assert_eq!(construct_value(&out, 8, true), 0x1122334455667788);
    deconstruct_value(&mut out, 0x1122334455667788, 8, false);
    assert_eq!(construct_value(&out, 8, false), 0x1122334455667788);
}

#[test]
fn deconstruct_then_construct_keeps_low_bytes() {
    // writing a value into fewer bytes than it needs keeps its low bytes
    let mut out = [0u8; 2];
    deconstruct_value(&mut out, 0xaabb_ccdd, 2, true);
    assert_eq!(out, [0xcc, 0xdd]);
    assert_eq!(construct_value(&out, 2, true), 0xccdd);
    deconstruct_value(&mut out, 0xaabb_ccdd, 2, false);
    assert_eq!(out, [0xdd, 0xcc]);
    assert_eq!(construct_value(&out, 2, false), 0xccdd);
}
