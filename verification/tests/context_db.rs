use kuna_sleigh::globalcontext::{
    get_tracked_value_in, ContextAddr, ContextCache, ContextError, ContextInternal, TrackedContext, VarnodeLoc,
};
use kuna_sleigh::space::{AddrSpace, SpaceType};

/// Spaces: "ram" (1), "ram2" (2), a little-endian "reg" (3) and a
/// big-endian "breg" (4), all with 4-byte addresses.
fn space(nm: &str) -> AddrSpace {
    match nm {
        "ram" => AddrSpace::new(1, SpaceType::Processor, false, 4, 1),
        "ram2" => AddrSpace::new(2, SpaceType::Processor, false, 4, 1),
        "reg" => AddrSpace::new(3, SpaceType::Processor, false, 4, 1),
        "breg" => AddrSpace::new(4, SpaceType::Processor, true, 4, 1),
        _ => panic!("no such space"),
    }
}

fn addr(nm: &str, off: u64) -> ContextAddr {
    ContextAddr { space: space(nm), offset: off }
}

/// Two one-word variables, a flag and a second-word variable.
fn test_db() -> ContextInternal {
    let mut db = ContextInternal::new();
    db.register_variable(b"fldA", 0, 7).unwrap();
    db.register_variable(b"fldB", 8, 15).unwrap();
    db.register_variable(b"flag", 16, 16).unwrap();
    db.register_variable(b"wide", 32, 63).unwrap();
    db
}

fn get(db: &ContextInternal, nm: &[u8], off: u64) -> u32 {
    db.get_variable_value(nm, addr("ram", off)).unwrap()
}

fn message(err: ContextError, nm: &[u8]) -> String {
    String::from_utf8(err.message(nm)).unwrap()
}

#[test]
fn test_globalcontext_register_and_defaults() {
    let mut db = test_db();
    assert_eq!(db.get_context_size(), 2);
    db.set_variable_default(b"fldA", 0xab).unwrap();
    db.set_variable_default(b"wide", 0xdead_beef).unwrap();
    assert_eq!(db.get_default_value_by_name(b"fldA").unwrap(), 0xab);
    assert_eq!(db.get_default_value_by_name(b"wide").unwrap(), 0xdead_beef);
    assert_eq!(get(&db, b"fldA", 0x0), 0xab);
    assert_eq!(get(&db, b"wide", 0xffff_ffff), 0xdead_beef);
    // unknown variable
    let err = db.get_variable_value(b"nope", addr("ram", 0)).unwrap_err();
    assert_eq!(message(err, b"nope"), "Non-existent context variable: nope");
    // a variable crossing a word boundary is rejected
    let err = db.register_variable(b"bad", 30, 33).unwrap_err();
    assert_eq!(message(err, b"bad"), "Context variable does not fit in one word");
    // once the database has split points, registration is frozen
    db.set_variable(b"fldA", addr("ram", 0x100), 1).unwrap();
    let err = db.register_variable(b"late", 17, 18).unwrap_err();
    assert_eq!(message(err, b"late"), "Cannot register new context variables after database is initialized");
}

#[test]
fn test_globalcontext_region_layering_across_boundaries() {
    let mut db = test_db();
    // a set at 0x100 paints from 0x100 to the end of the space
    db.set_variable(b"fldA", addr("ram", 0x100), 5).unwrap();
    assert_eq!(get(&db, b"fldA", 0xff), 0);
    assert_eq!(get(&db, b"fldA", 0x100), 5);
    assert_eq!(get(&db, b"fldA", 0x5000), 5);
    // B set at 0x200: A keeps its painted value across the new split
    db.set_variable(b"fldB", addr("ram", 0x200), 7).unwrap();
    assert_eq!(get(&db, b"fldB", 0x200), 7);
    assert_eq!(get(&db, b"fldB", 0x1ff), 0);
    assert_eq!(get(&db, b"fldA", 0x200), 5);
    // A set at 0x50 stops painting at 0x100 (A was set there)
    db.set_variable(b"fldA", addr("ram", 0x50), 9).unwrap();
    assert_eq!(get(&db, b"fldA", 0x4f), 0);
    assert_eq!(get(&db, b"fldA", 0x50), 9);
    assert_eq!(get(&db, b"fldA", 0xff), 9);
    assert_eq!(get(&db, b"fldA", 0x100), 5);
    // B set at 0x50 flows through 0x100 (only A was set there) and stops
    // at 0x200 where B was set
    db.set_variable(b"fldB", addr("ram", 0x50), 3).unwrap();
    assert_eq!(get(&db, b"fldB", 0x50), 3);
    assert_eq!(get(&db, b"fldB", 0x100), 3);
    assert_eq!(get(&db, b"fldB", 0x1ff), 3);
    assert_eq!(get(&db, b"fldB", 0x200), 7);
    // A was not disturbed by any B operation
    assert_eq!(get(&db, b"fldA", 0x80), 9);
    assert_eq!(get(&db, b"fldA", 0x150), 5);
}

#[test]
fn test_globalcontext_set_variable_region() {
    let mut db = test_db();
    db.set_variable_region(b"fldA", addr("ram", 0x1000), Some(addr("ram", 0x2000)), 4).unwrap();
    assert_eq!(get(&db, b"fldA", 0xfff), 0);
    assert_eq!(get(&db, b"fldA", 0x1000), 4);
    assert_eq!(get(&db, b"fldA", 0x1fff), 4);
    assert_eq!(get(&db, b"fldA", 0x2000), 0);
    // a set below the region stops at its first boundary
    db.set_variable(b"fldA", addr("ram", 0x500), 2).unwrap();
    assert_eq!(get(&db, b"fldA", 0x500), 2);
    assert_eq!(get(&db, b"fldA", 0xfff), 2);
    assert_eq!(get(&db, b"fldA", 0x1000), 4);
    // a set inside the region paints through the region's end split (no
    // bit is marked as set there) out to the end of the space
    db.set_variable(b"fldA", addr("ram", 0x1800), 6).unwrap();
    assert_eq!(get(&db, b"fldA", 0x17ff), 4);
    assert_eq!(get(&db, b"fldA", 0x1800), 6);
    assert_eq!(get(&db, b"fldA", 0x2000), 6);
    assert_eq!(get(&db, b"fldA", 0x9999), 6);
    // no end address paints from the first address through every
    // remaining split point
    db.set_variable_region(b"fldB", addr("ram", 0x1900), None, 1).unwrap();
    assert_eq!(get(&db, b"fldB", 0x18ff), 0);
    assert_eq!(get(&db, b"fldB", 0x1900), 1);
    assert_eq!(get(&db, b"fldB", 0x2000), 1);
    assert_eq!(get(&db, b"fldB", 0x9999), 1);
}

#[test]
fn test_globalcontext_raw_context_set() {
    let mut db = test_db();
    let var = db.get_variable(b"fldB").unwrap();
    let num = var.get_word();
    let mask = var.get_mask() << var.get_shift();
    db.set_context_change_point(addr("ram", 0x100), num, mask, 0x42 << var.get_shift());
    assert_eq!(get(&db, b"fldB", 0x100), 0x42);
    assert_eq!(get(&db, b"fldB", 0xff), 0);
    db.set_context_region(addr("ram", 0x40), Some(addr("ram", 0x80)), num, mask, 0x7 << var.get_shift());
    assert_eq!(get(&db, b"fldB", 0x40), 0x7);
    assert_eq!(get(&db, b"fldB", 0x7f), 0x7);
    assert_eq!(get(&db, b"fldB", 0x80), 0);
    assert_eq!(get(&db, b"fldB", 0x100), 0x42);
}

#[test]
fn test_globalcontext_get_context_bounds() {
    let mut db = test_db();
    let ram_highest = space("ram").get_highest();
    // empty database: whole space
    let (_, first, last) = db.get_context_bounds(addr("ram", 0x500));
    assert_eq!((first, last), (0, ram_highest));
    db.set_variable(b"fldA", addr("ram", 0x100), 5).unwrap();
    // below the split: no lower bound in this space
    let (blob, first, last) = db.get_context_bounds(addr("ram", 0x80));
    assert_eq!((first, last), (0, 0xff));
    assert_eq!(db.get_variable(b"fldA").unwrap().get_value(blob), 0);
    // at/after the split: bounded below by the split, unbounded above
    let (blob, first, last) = db.get_context_bounds(addr("ram", 0x100));
    assert_eq!((first, last), (0x100, ram_highest));
    assert_eq!(db.get_variable(b"fldA").unwrap().get_value(blob), 5);
    // a neighbouring space: the ram split belongs to another space
    let ram2_highest = space("ram2").get_highest();
    let (_, first, last) = db.get_context_bounds(addr("ram2", 0x500));
    assert_eq!((first, last), (0, ram2_highest));
}

#[test]
fn test_globalcontext_cache_flow_boundary_invalidation() {
    let mut db = test_db();
    let var = db.get_variable(b"fldA").unwrap();
    let (num, mask) = (var.get_word(), var.get_mask() << var.get_shift());
    db.set_variable(b"fldA", addr("ram", 0x200), 7).unwrap();

    let mut cache = ContextCache::new();
    let mut buf = [0u32; 2];
    cache.get_context(&db, addr("ram", 0x100), &mut buf);
    assert_eq!(var.get_value(&buf), 0);
    cache.get_context(&db, addr("ram", 0x300), &mut buf);
    assert_eq!(var.get_value(&buf), 7);

    // a set within the cached range invalidates the cache, and the paint
    // stops at the 0x200 flow boundary
    cache.get_context(&db, addr("ram", 0x100), &mut buf);
    cache.set_context(&mut db, addr("ram", 0x180), num, mask, 5 << var.get_shift());
    cache.get_context(&db, addr("ram", 0x190), &mut buf);
    assert_eq!(var.get_value(&buf), 5);
    cache.get_context(&db, addr("ram", 0x17f), &mut buf);
    assert_eq!(var.get_value(&buf), 0);
    cache.get_context(&db, addr("ram", 0x210), &mut buf);
    assert_eq!(var.get_value(&buf), 7);

    // a paint from below the cached range that reaches into it is seen
    cache.get_context(&db, addr("ram", 0x300), &mut buf);
    cache.set_context(&mut db, addr("ram", 0x1c0), num, mask, 3 << var.get_shift());
    cache.get_context(&db, addr("ram", 0x300), &mut buf);
    assert_eq!(var.get_value(&buf), 7);
    cache.get_context(&db, addr("ram", 0x1f0), &mut buf);
    assert_eq!(var.get_value(&buf), 3);

    // allow_set(false) drops sets entirely
    cache.allow_set(false);
    cache.set_context(&mut db, addr("ram", 0x300), num, mask, 1 << var.get_shift());
    cache.get_context(&db, addr("ram", 0x300), &mut buf);
    assert_eq!(var.get_value(&buf), 7);
    cache.allow_set(true);

    cache.set_context_region(&mut db, addr("ram", 0x400), Some(addr("ram", 0x500)), num, mask, 9 << var.get_shift());
    cache.get_context(&db, addr("ram", 0x450), &mut buf);
    assert_eq!(var.get_value(&buf), 9);
    cache.get_context(&db, addr("ram", 0x500), &mut buf);
    assert_eq!(var.get_value(&buf), 7);
}

#[test]
fn context_write_mask_preserves_other_fields_and_restores_writes() {
    let start = addr("ram", 0x100);
    let end = addr("ram", 0x200);
    for bounded in [false, true] {
        let mut db = test_db();
        db.set_variable_default(b"fldA", 0x12).unwrap();
        let field = db.get_variable(b"fldA").unwrap();
        let mask = field.get_mask() << field.get_shift();
        let mut cache = ContextCache::new();
        let previous = cache.set_write_mask(0, !mask);
        for value in [u32::MAX, 0] {
            if bounded {
                cache.set_context_region(&mut db, start, Some(end), 0, u32::MAX, value);
            } else {
                cache.set_context(&mut db, start, 0, u32::MAX, value);
            }
            assert_eq!(get(&db, b"fldA", 0x100), 0x12);
            assert_eq!(get(&db, b"fldB", 0x100), value & 0xff);
        }
        cache.set_context(&mut db, start, 1, u32::MAX, 0xcafe);
        assert_eq!(get(&db, b"wide", 0x100), 0xcafe);
        cache.set_write_mask(0, previous);
        cache.allow_set(false);
        cache.set_context(&mut db, start, 0, mask, 0);
        assert_eq!(get(&db, b"fldA", 0x100), 0x12);
        cache.allow_set(true);
        cache.set_context(&mut db, start, 0, mask, 0);
        assert_eq!(get(&db, b"fldA", 0x100), 0);
    }
}

#[test]
fn test_globalcontext_tracked_value_trimming() {
    let mut db = test_db();
    let point = addr("ram", 0x1000);
    {
        let tset = db.get_tracked_default();
        tset.push(TrackedContext {
            loc: VarnodeLoc { space: space("reg"), offset: 0, size: 8 },
            val: 0x1122_3344_5566_7788,
        });
        tset.push(TrackedContext {
            loc: VarnodeLoc { space: space("breg"), offset: 0x10, size: 8 },
            val: 0x1122_3344_5566_7788,
        });
    }
    let value = |sp: &str, offset: u64, size: u32| {
        db.get_tracked_value(VarnodeLoc { space: space(sp), offset, size }, point)
    };
    // exact match
    assert_eq!(value("reg", 0, 8), 0x1122_3344_5566_7788);
    // little endian: sub-register at +4 takes the high bytes
    assert_eq!(value("reg", 4, 4), 0x1122_3344);
    // little endian: sub-register at +0 takes the low bytes
    assert_eq!(value("reg", 0, 4), 0x5566_7788);
    // big endian, single byte reads: last byte is unshifted, first byte
    // is shifted down by the full distance to the tracked end
    assert_eq!(value("breg", 0x17, 1), 0x88);
    assert_eq!(value("breg", 0x10, 1), 0x11);
    // big endian, multi-byte sub-register: shifted by the distance from
    // its start to the register's end
    assert_eq!(value("breg", 0x10, 4), 0x11);
    // big endian exact match is returned untrimmed
    assert_eq!(value("breg", 0x10, 8), 0x1122_3344_5566_7788);
    // not contained / not tracked -> 0
    assert_eq!(value("reg", 6, 4), 0);
    assert_eq!(value("ram", 0, 4), 0);
}

#[test]
fn tracked_value_in_a_plain_set() {
    let tset = vec![TrackedContext {
        loc: VarnodeLoc { space: space("reg"), offset: 0, size: 8 },
        val: 0x1122_3344_5566_7788,
    }];
    let v = get_tracked_value_in(&tset, VarnodeLoc { space: space("reg"), offset: 2, size: 2 });
    assert_eq!(v, 0x5566);
}

#[test]
fn test_globalcontext_create_set_ranges() {
    let mut db = test_db();
    {
        let tset = db.create_set(addr("ram", 0x100), addr("ram", 0x200));
        tset.push(TrackedContext { loc: VarnodeLoc { space: space("reg"), offset: 0, size: 4 }, val: 0x55 });
    }
    let mem = VarnodeLoc { space: space("reg"), offset: 0, size: 4 };
    assert_eq!(db.get_tracked_value(mem, addr("ram", 0x150)), 0x55);
    // before the range and at/after its open end: the (empty) copies
    assert_eq!(db.get_tracked_value(mem, addr("ram", 0xff)), 0);
    assert_eq!(db.get_tracked_value(mem, addr("ram", 0x200)), 0);
    assert!(db.get_tracked_set(addr("ram", 0x150)).len() == 1);
    assert!(db.get_tracked_set(addr("ram", 0x200)).is_empty());
}

#[test]
fn create_set_keeps_what_lies_outside_the_range() {
    let mut db = test_db();
    let reg = |off: u64| VarnodeLoc { space: space("reg"), offset: off, size: 4 };
    db.get_tracked_default().push(TrackedContext { loc: reg(0), val: 1 });
    db.create_set(addr("ram", 0x100), addr("ram", 0x300)).push(TrackedContext { loc: reg(0), val: 2 });
    // an inner range splits the outer one
    db.create_set(addr("ram", 0x180), addr("ram", 0x200)).push(TrackedContext { loc: reg(0), val: 3 });
    assert_eq!(db.get_tracked_value(reg(0), addr("ram", 0x0)), 1);
    assert_eq!(db.get_tracked_value(reg(0), addr("ram", 0x100)), 2);
    assert_eq!(db.get_tracked_value(reg(0), addr("ram", 0x17f)), 2);
    assert_eq!(db.get_tracked_value(reg(0), addr("ram", 0x180)), 3);
    assert_eq!(db.get_tracked_value(reg(0), addr("ram", 0x1ff)), 3);
    assert_eq!(db.get_tracked_value(reg(0), addr("ram", 0x200)), 2);
    assert_eq!(db.get_tracked_value(reg(0), addr("ram", 0x2ff)), 2);
    assert_eq!(db.get_tracked_value(reg(0), addr("ram", 0x300)), 1);
    // a range over the whole of the others replaces them
    db.create_set(addr("ram", 0x80), addr("ram", 0x400));
    assert_eq!(db.get_tracked_value(reg(0), addr("ram", 0x190)), 0);
    assert_eq!(db.get_tracked_value(reg(0), addr("ram", 0x400)), 1);
    assert_eq!(db.get_tracked_set(addr("ram", 0x7f)).len(), 1);
    // the context is untouched
    assert_eq!(get(&db, b"fldA", 0x190), 0);
}

#[test]
fn region_paint_leaves_other_variables_and_addresses() {
    let mut db = test_db();
    db.set_variable_default(b"fldB", 0x33).unwrap();
    db.set_variable_region(b"fldA", addr("ram", 0x10), Some(addr("ram", 0x20)), 0x1ff).unwrap();
    // the value is cut to the variable's width
    assert_eq!(get(&db, b"fldA", 0x10), 0xff);
    assert_eq!(get(&db, b"fldA", 0x1f), 0xff);
    assert_eq!(get(&db, b"fldA", 0x20), 0);
    assert_eq!(get(&db, b"fldB", 0x10), 0x33);
    // another space is untouched
    assert_eq!(db.get_variable_value(b"fldA", addr("ram2", 0x10)).unwrap(), 0);
    // an empty region paints nothing
    db.set_variable_region(b"fldB", addr("ram", 0x30), Some(addr("ram", 0x30)), 1).unwrap();
    assert_eq!(get(&db, b"fldB", 0x30), 0x33);
}
