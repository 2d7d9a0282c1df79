use kuna_sleigh::ctxsnapshot::{restore_context, snapshot_context, ContextValueSnapshot, SnapshotError};
use kuna_sleigh::globalcontext::{ContextAddr, ContextInternal};
use kuna_sleigh::space::{AddrSpace, SpaceType};

fn ram() -> AddrSpace {
    AddrSpace::new(1, SpaceType::Processor, false, 2, 1)
}

fn at(off: u64) -> ContextAddr {
    ContextAddr { space: ram(), offset: off }
}

fn test_db() -> ContextInternal {
    let mut db = ContextInternal::new();
    db.register_variable(b"mode", 0, 7).unwrap();
    db.register_variable(b"wide", 32, 63).unwrap();
    db
}

#[test]
fn snapshot_lists_regions_in_order() {
    let mut db = test_db();
    db.set_variable_default(b"mode", 3).unwrap();
    db.set_variable_region(b"mode", at(0x100), Some(at(0x200)), 7).unwrap();
    let snap = snapshot_context(&db, ram());
    assert_eq!(snap.words, 2);
    // bit 0 is the most significant bit of the word
    assert_eq!(snap.default_blob, vec![3 << 24, 0]);
    let starts: Vec<u64> = snap.points.iter().map(|p| p.0).collect();
    assert_eq!(starts, vec![0, 0x100, 0x200]);
    assert_eq!(snap.points[0].1, vec![3 << 24, 0]);
    assert_eq!(snap.points[1].1, vec![7 << 24, 0]);
    assert_eq!(snap.points[2].1, vec![3 << 24, 0]);
}

#[test]
fn restore_reproduces_context_over_the_space() {
    let mut db = test_db();
    db.set_variable_default(b"wide", 0x1234).unwrap();
    db.set_variable_region(b"mode", at(0x10), Some(at(0x20)), 1).unwrap();
    db.set_variable(b"wide", at(0x8000), 0xdead).unwrap();
    let snap = snapshot_context(&db, ram());

    let mut copy = test_db();
    restore_context(&mut copy, &snap, ram()).unwrap();
    for off in [0u64, 0xf, 0x10, 0x1f, 0x20, 0x7fff, 0x8000, 0xffff] {
        assert_eq!(copy.get_context(at(off)), db.get_context(at(off)), "offset {:#x}", off);
    }
    assert_eq!(copy.get_default_value(), db.get_default_value());
}

#[test]
fn restore_rejects_bad_snapshots() {
    let mut db = test_db();
    let good = snapshot_context(&db, ram());

    let bad = ContextValueSnapshot { words: 3, default_blob: vec![0, 0], points: vec![(0, vec![0, 0])] };
    assert_eq!(restore_context(&mut db, &bad, ram()).unwrap_err(), SnapshotError::WordCountMismatch);

    let bad = ContextValueSnapshot { words: 1, default_blob: vec![0], points: vec![(0, vec![0])] };
    assert_eq!(restore_context(&mut db, &bad, ram()).unwrap_err(), SnapshotError::SizeMismatch);

    let bad = ContextValueSnapshot { words: 2, default_blob: vec![0, 0], points: vec![(4, vec![0, 0])] };
    assert_eq!(restore_context(&mut db, &bad, ram()).unwrap_err(), SnapshotError::NotFromZero);
    assert_eq!(
        SnapshotError::NotFromZero.explain(),
        "context snapshot: value map must start at offset 0"
    );

    let bad = ContextValueSnapshot {
        words: 2,
        default_blob: vec![0, 0],
        points: vec![(0, vec![0, 0]), (0x1_0000, vec![0, 0])],
    };
    assert_eq!(restore_context(&mut db, &bad, ram()).unwrap_err(), SnapshotError::PointBeyondSpace);

    let bad = ContextValueSnapshot {
        words: 2,
        default_blob: vec![0, 0],
        points: vec![(0, vec![0, 0]), (8, vec![0, 0]), (8, vec![0, 0])],
    };
    assert_eq!(restore_context(&mut db, &bad, ram()).unwrap_err(), SnapshotError::NotAscending);

    let bad = ContextValueSnapshot { words: 2, default_blob: vec![0, 0], points: vec![(0, vec![0])] };
    assert_eq!(restore_context(&mut db, &bad, ram()).unwrap_err(), SnapshotError::BlobSize);

    // a failed restore leaves the database as it was
    assert_eq!(db.get_context(at(0)), &[0, 0]);
    restore_context(&mut db, &good, ram()).unwrap();
}
