//! A value copy of a context database over one address space: the default
//! blob and the blob of every region of the space, in order, which can be
//! written into another database to give it the same context there.
use vstd::prelude::*;

use crate::globalcontext::{addr_lt, in_region, painted, value_at, ContextAddr, ContextInternal};
use crate::space::AddrSpace;

verus! {

/// The context of a database over one space: the number of words in a
/// blob, the default blob, and for each region of the space (in increasing
/// order) its first offset and its blob.
#[derive(Debug)]
pub struct ContextValueSnapshot {
    /// The number of words in a blob.
    pub words: usize,
    /// The blob where no split point applies.
    pub default_blob: Vec<u32>,
    /// The first offset and the blob of each region, in increasing order.
    pub points: Vec<(u64, Vec<u32>)>,
}

/// The regions of the snapshot as values: first offset and blob.
pub open spec fn points_view(pts: Seq<(u64, Vec<u32>)>) -> Seq<(u64, Seq<u32>)> {
    pts.map_values(|p: (u64, Vec<u32>)| (p.0, p.1@))
}

/// The highest offset of a space.
pub open spec fn highest_of(sp: AddrSpace) -> u64 {
    AddrSpace::spec_highest(sp.addr_size, sp.word_size)
}

/// The regions of `db` in space `sp` from offset `off` on: the region
/// holding `off` (its first offset and its blob), then the regions after
/// its last offset, up to the top of the space.
pub open spec fn regions_from(db: ContextInternal, sp: AddrSpace, off: u64) -> Seq<(u64, Seq<u32>)>
    decreases highest_of(sp) - off,
{
    let a = ContextAddr { space: sp, offset: off };
    let last = db.bounds_last(a);
    seq![(db.bounds_first(a), db.context_at(a))] + if last >= highest_of(sp) || last < off {
        Seq::empty()
    } else {
        regions_from(db, sp, (last + 1) as u64)
    }
}

/// A copy of the blob words.
fn copy_words(s: &[u32]) -> (r: Vec<u32>)
    ensures
        r@ == s@,
{
    vstd::slice::slice_to_vec(s)
}

/// The context of `db` over `space`: its default blob and, region by
/// region from offset 0 up, each region's first offset and blob.
pub fn snapshot_context(db: &ContextInternal, space: AddrSpace) -> (r: ContextValueSnapshot)
    requires
        db.wf(),
        space.word_size > 0,
    ensures
        r.default_blob@ == db.default_value.array@,
        r.words == db.default_value.array@.len(),
        points_view(r.points@) == regions_from(*db, space, 0),
{
    let default_blob = copy_words(db.get_default_value());
    let words = default_blob.len();
    let mut points: Vec<(u64, Vec<u32>)> = Vec::new();
    let highest = space.get_highest();
    let mut off: u64 = 0;
    loop
        invariant_except_break
            regions_from(*db, space, 0) == points_view(points@) + regions_from(*db, space, off),
        invariant
            db.wf(),
            space.word_size > 0,
            highest == highest_of(space),
        ensures
            regions_from(*db, space, 0) == points_view(points@),
        decreases highest - off,
    {
        let a = ContextAddr { space, offset: off };
        let (blob, first, last) = db.get_context_bounds(a);
        let ghost before = points_view(points@);
        points.push((first, copy_words(blob)));
        proof {
            assert(points_view(points@) =~= before.push((first, db.context_at(a))));
        }
        if last >= highest || last < off {
            proof {
                assert(regions_from(*db, space, off) == seq![(first, db.context_at(a))]);
                assert(before + seq![(first, db.context_at(a))] =~= points_view(points@));
            }
            break;
        }
        proof {
            assert(regions_from(*db, space, off) == seq![(first, db.context_at(a))] + regions_from(*db, space, (last + 1) as u64));
            assert(before + regions_from(*db, space, off) =~= points_view(points@) + regions_from(*db, space, (last + 1) as u64));
        }
        off = last + 1;
    }
    ContextValueSnapshot { words, default_blob, points }
}

/// Why a snapshot cannot be written into a database.
#[derive(Debug, Clone, Copy, PartialEq, Eq, Structural)]
pub enum SnapshotError {
    /// The word count does not match the default blob's length.
    WordCountMismatch,
    /// The snapshot's blobs and the database's differ in size.
    SizeMismatch,
    /// The regions do not start at offset 0.
    NotFromZero,
    /// A region starts beyond the top of the space.
    PointBeyondSpace,
    /// The regions are not in strictly increasing order.
    NotAscending,
    /// A region's blob has the wrong number of words.
    BlobSize,
}

impl SnapshotError {
    /// A description of the error.
    pub fn explain(&self) -> (r: &'static str)
        ensures
            r@ == match self {
                SnapshotError::WordCountMismatch => "context snapshot: word count does not match default blob length"@,
                SnapshotError::SizeMismatch => "context snapshot: source and target word counts differ"@,
                SnapshotError::NotFromZero => "context snapshot: value map must start at offset 0"@,
                SnapshotError::PointBeyondSpace => "context snapshot: split point exceeds the address space"@,
                SnapshotError::NotAscending => "context snapshot: split points are not strictly ascending"@,
                SnapshotError::BlobSize => "context snapshot: split point has the wrong number of words"@,
            },
    {
        match self {
            SnapshotError::WordCountMismatch => "context snapshot: word count does not match default blob length",
            SnapshotError::SizeMismatch => "context snapshot: source and target word counts differ",
            SnapshotError::NotFromZero => "context snapshot: value map must start at offset 0",
            SnapshotError::PointBeyondSpace => "context snapshot: split point exceeds the address space",
            SnapshotError::NotAscending => "context snapshot: split points are not strictly ascending",
            SnapshotError::BlobSize => "context snapshot: split point has the wrong number of words",
        }
    }
}

/// The first fault among the regions from `i` on: a start beyond the top
/// of the space, a start not above the one before, or a blob of the wrong
/// size (checked in that order, region by region).
pub open spec fn region_fault(pts: Seq<(u64, Seq<u32>)>, i: int, highest: u64, words: int) -> Option<SnapshotError>
    decreases pts.len() - i,
{
    if i < 0 || i >= pts.len() {
        None
    } else if pts[i].0 > highest {
        Some(SnapshotError::PointBeyondSpace)
    } else if i > 0 && pts[i].0 <= pts[i - 1].0 {
        Some(SnapshotError::NotAscending)
    } else if pts[i].1.len() != words {
        Some(SnapshotError::BlobSize)
    } else {
        region_fault(pts, i + 1, highest, words)
    }
}

/// Why the snapshot cannot be written into a database with blobs of
/// `size` words, if it cannot.
pub open spec fn snapshot_fault(snap: ContextValueSnapshot, size: int, highest: u64) -> Option<SnapshotError> {
    let pts = points_view(snap.points@);
    if snap.words != snap.default_blob@.len() {
        Some(SnapshotError::WordCountMismatch)
    } else if snap.words != size {
        Some(SnapshotError::SizeMismatch)
    } else if pts.len() == 0 || pts[0].0 != 0 {
        Some(SnapshotError::NotFromZero)
    } else {
        region_fault(pts, 0, highest, size)
    }
}

/// The index of the last region of `pts` whose start (in space `sp`) is
/// at or before `x`, or -1.
pub open spec fn last_region(pts: Seq<(u64, Seq<u32>)>, sp: AddrSpace, x: ContextAddr) -> int
    decreases pts.len(),
{
    if pts.len() == 0 {
        -1
    } else if !addr_lt(x, ContextAddr { space: sp, offset: pts.last().0 }) {
        pts.len() - 1
    } else {
        last_region(pts.drop_last(), sp, x)
    }
}

/// The last region index found is in range, its start at or before `x`.
proof fn lemma_last_region_props(pts: Seq<(u64, Seq<u32>)>, sp: AddrSpace, x: ContextAddr)
    ensures
        -1 <= last_region(pts, sp, x) < pts.len(),
        last_region(pts, sp, x) >= 0 ==> !addr_lt(x, ContextAddr { space: sp, offset: pts[last_region(pts, sp, x)].0 }),
        last_region(pts, sp, x) < 0 ==> forall|j: int| 0 <= j < pts.len() ==> addr_lt(x, ContextAddr { space: sp, offset: #[trigger] pts[j].0 }),
    decreases pts.len(),
{
    if pts.len() > 0 && addr_lt(x, ContextAddr { space: sp, offset: pts.last().0 }) {
        lemma_last_region_props(pts.drop_last(), sp, x);
        let r = last_region(pts.drop_last(), sp, x);
        if r >= 0 {
            assert(pts.drop_last()[r] == pts[r]);
        } else {
            assert forall|j: int| 0 <= j < pts.len() implies addr_lt(x, ContextAddr { space: sp, offset: #[trigger] pts[j].0 }) by {
                if j < pts.len() - 1 {
                    assert(pts.drop_last()[j] == pts[j]);
                }
            }
        }
    }
}

/// Write the snapshot's context into `db` over `space`: check the snapshot
/// fits, make its default blob the database's, then paint each region's
/// blob from the region's start on, in order, so that every address of
/// the space from offset 0 up gets the blob of the last region starting at
/// or before it.  An error, leaving the database as it was, when the
/// snapshot does not fit.
pub fn restore_context(db: &mut ContextInternal, snap: &ContextValueSnapshot, space: AddrSpace) -> (r: Result<(), SnapshotError>)
    requires
        old(db).wf(),
        space.word_size > 0,
    ensures
        final(db).wf(),
        match snapshot_fault(*snap, old(db).size as int, highest_of(space)) {
            Some(e) => r == Err::<(), SnapshotError>(e) && *final(db) == *old(db),
            None => r is Ok && final(db).size == old(db).size && final(db).variables@ == old(db).variables@
                && final(db).default_value.array@ == snap.default_blob@
                && forall|x: ContextAddr| #[trigger] final(db).context_at(x) == {
                    let k = last_region(points_view(snap.points@), space, x);
                    if k >= 0 {
                        points_view(snap.points@)[k].1
                    } else {
                        value_at(old(db).points@, snap.default_blob@, x)
                    }
                },
        },
{
    let target_words = db.get_context_size() as usize;
    if snap.words != snap.default_blob.len() {
        return Err(SnapshotError::WordCountMismatch);
    }
    if snap.words != target_words || target_words != db.get_default_value().len() {
        return Err(SnapshotError::SizeMismatch);
    }
    if snap.points.len() == 0 || snap.points[0].0 != 0 {
        return Err(SnapshotError::NotFromZero);
    }
    let ghost pv = points_view(snap.points@);
    let highest = space.get_highest();
    let mut i: usize = 0;
    while i < snap.points.len()
        invariant
            *db == *old(db),
            old(db).wf(),
            pv == points_view(snap.points@),
            i <= pv.len(),
            highest == highest_of(space),
            snap.words == db.size,
            snap.words == snap.default_blob@.len(),
            pv.len() > 0 && pv[0].0 == 0,
            region_fault(pv, 0, highest, snap.words as int) == region_fault(pv, i as int, highest, snap.words as int),
        decreases pv.len() - i,
    {
        let off = snap.points[i].0;
        assert(pv[i as int].0 == off);
        if off > highest {
            return Err(SnapshotError::PointBeyondSpace);
        }
        if i > 0 && off <= snap.points[i - 1].0 {
            assert(pv[i - 1].0 == snap.points@[i - 1].0);
            return Err(SnapshotError::NotAscending);
        }
        if snap.points[i].1.len() != snap.words {
            return Err(SnapshotError::BlobSize);
        }
        i += 1;
    }
    proof {
        lemma_no_fault_blobs(pv, 0, highest, snap.words as int);
    }
    let ghost base = *db;
    db.default_value.array = copy_words(snap.default_blob.as_slice());
    let ghost start = *db;
    proof {
        assert forall|x: ContextAddr| #[trigger] start.context_at(x) == value_at(base.points@, snap.default_blob@, x) by {}
        assert(last_region(pv.take(0), space, ContextAddr { space, offset: 0 }) == -1);
    }
    let mut p: usize = 0;
    while p < snap.points.len()
        invariant
            pv == points_view(snap.points@),
            p <= pv.len(),
            db.wf(),
            db.size == base.size,
            snap.words == db.size,
            db.variables@ == base.variables@,
            db.default_value.array@ == snap.default_blob@,
            forall|j: int| 0 <= j < pv.len() ==> (#[trigger] pv[j]).1.len() == snap.words,
            forall|x: ContextAddr| #[trigger] db.context_at(x) == {
                let k = last_region(pv.take(p as int), space, x);
                if k >= 0 {
                    pv[k].1
                } else {
                    value_at(base.points@, snap.default_blob@, x)
                }
            },
        decreases pv.len() - p,
    {
        let a = ContextAddr { space, offset: snap.points[p].0 };
        let ghost prev = *db;
        let ghost blob = pv[p as int].1;
        let mut w: usize = 0;
        while w < snap.words
            invariant
                pv == points_view(snap.points@),
                p < pv.len(),
                blob == pv[p as int].1,
                blob.len() == snap.words,
                a == (ContextAddr { space, offset: pv[p as int].0 }),
                w <= snap.words,
                db.wf(),
                db.size == prev.size,
                snap.words == db.size,
                prev.wf(),
                db.variables@ == prev.variables@,
                db.default_value.array@ == prev.default_value.array@,
                forall|x: ContextAddr| #[trigger] db.context_at(x) == if in_region(x, a, None) {
                    blob.take(w as int) + prev.context_at(x).skip(w as int)
                } else {
                    prev.context_at(x)
                },
            decreases snap.words - w,
        {
            let v = snap.points[p].1[w];
            assert(v == blob[w as int]);
            let ghost before = *db;
            db.set_context_region(a, None, w as i32, u32::MAX, v);
            proof {
                assert forall|x: ContextAddr| #[trigger] db.context_at(x) == if in_region(x, a, None) {
                    blob.take(w + 1) + prev.context_at(x).skip(w + 1)
                } else {
                    prev.context_at(x)
                } by {
                    if in_region(x, a, None) {
                        let c = before.context_at(x);
                        let old_w = c[w as int];
                        assert((old_w & !0xffff_ffffu32) | v == v) by (bit_vector);
                        assert(prev.context_at(x).len() == snap.words) by {
                            lemma_context_len(prev, x);
                        }
                        assert(painted(c, w as int, u32::MAX, v) =~= blob.take(w + 1) + prev.context_at(x).skip(w + 1));
                    }
                }
            }
            w += 1;
        }
        proof {
            assert forall|x: ContextAddr| #[trigger] db.context_at(x) == {
                let k = last_region(pv.take(p + 1), space, x);
                if k >= 0 {
                    pv[k].1
                } else {
                    value_at(base.points@, snap.default_blob@, x)
                }
            } by {
                let t = pv.take(p + 1);
                assert(t.drop_last() =~= pv.take(p as int));
                assert(t.last() == pv[p as int]);
                if in_region(x, a, None) {
                    assert(blob.take(snap.words as int) + prev.context_at(x).skip(snap.words as int) =~= blob) by {
                        assert(prev.context_at(x).len() == snap.words) by {
                            lemma_context_len(prev, x);
                        }
                    }
                    assert(last_region(t, space, x) == p);
                } else {
                    assert(last_region(t, space, x) == last_region(pv.take(p as int), space, x));
                }
            }
        }
        p += 1;
    }
    proof {
        assert(pv.take(pv.len() as int) =~= pv);
    }
    Ok(())
}

/// Without a fault from region `i` on, every region from there has a blob
/// of the word count.
proof fn lemma_no_fault_blobs(pts: Seq<(u64, Seq<u32>)>, i: int, highest: u64, words: int)
    requires
        0 <= i,
        region_fault(pts, i, highest, words) is None,
    ensures
        forall|j: int| i <= j < pts.len() ==> (#[trigger] pts[j]).1.len() == words,
    decreases pts.len() - i,
{
    if i < pts.len() {
        lemma_no_fault_blobs(pts, i + 1, highest, words);
    }
}

/// Every blob of a sound database has its word count.
proof fn lemma_context_len(db: ContextInternal, x: ContextAddr)
    requires
        db.wf(),
    ensures
        db.context_at(x).len() == db.size,
{
    crate::globalcontext::lemma_last_le_props(db.points@, x);
}

/// Are the region starts strictly increasing?
pub open spec fn starts_ascending(pts: Seq<(u64, Seq<u32>)>) -> bool {
    forall|i: int, j: int| 0 <= i < j < pts.len() ==> (#[trigger] pts[i]).0 < (#[trigger] pts[j]).0
}

/// With increasing starts, the last region starting at or before `x` is
/// the one whose successor (if any) starts after `x`.
proof fn lemma_last_region_char(pts: Seq<(u64, Seq<u32>)>, sp: AddrSpace, x: ContextAddr, k: int)
    requires
        starts_ascending(pts),
        -1 <= k < pts.len(),
        k >= 0 ==> !addr_lt(x, ContextAddr { space: sp, offset: pts[k].0 }),
        k + 1 < pts.len() ==> addr_lt(x, ContextAddr { space: sp, offset: pts[k + 1].0 }),
    ensures
        last_region(pts, sp, x) == k,
    decreases pts.len(),
{
    if pts.len() > 0 && k < pts.len() - 1 {
        let p = pts.drop_last();
        assert(pts[k + 1].0 <= pts.last().0);
        assert(addr_lt(x, ContextAddr { space: sp, offset: pts.last().0 }));
        assert(starts_ascending(p)) by {
            assert forall|a: int, b: int| 0 <= a < b < p.len() implies (#[trigger] p[a]).0 < (#[trigger] p[b]).0 by {
                assert(p[a] == pts[a] && p[b] == pts[b]);
            }
        }
        if k >= 0 {
            assert(p[k] == pts[k]);
        }
        if k + 1 < p.len() {
            assert(p[k + 1] == pts[k + 1]);
        }
        lemma_last_region_char(p, sp, x, k);
    }
}

/// Facts about the region of a database holding the address `off` of
/// space `sp`: it starts at or before `off` and ends at or after it; every
/// address of the space from `off` to its end has the same context; and
/// when it ends before the top of the space, the next region starts just
/// after it.
proof fn lemma_region_facts(db: ContextInternal, sp: AddrSpace, off: u64, x: ContextAddr)
    requires
        db.wf(),
        off <= highest_of(sp),
    ensures
        db.bounds_first(ContextAddr { space: sp, offset: off }) <= off,
        db.bounds_last(ContextAddr { space: sp, offset: off }) >= off,
        x.space.index == sp.index && off <= x.offset <= db.bounds_last(ContextAddr { space: sp, offset: off })
            ==> db.context_at(x) == db.context_at(ContextAddr { space: sp, offset: off }),
        db.bounds_last(ContextAddr { space: sp, offset: off }) < highest_of(sp) ==> db.bounds_first(
            ContextAddr { space: sp, offset: (db.bounds_last(ContextAddr { space: sp, offset: off }) + 1) as u64 },
        ) == db.bounds_last(ContextAddr { space: sp, offset: off }) + 1,
{
    let a = ContextAddr { space: sp, offset: off };
    let pts = db.points@;
    crate::globalcontext::lemma_last_le_props(pts, a);
    let i = crate::globalcontext::last_le(pts, a);
    let last = db.bounds_last(a);
    if x.space.index == sp.index && off <= x.offset <= last {
        if i >= 0 {
            assert(!addr_lt(x, pts[i].addr));
        }
        if i + 1 < pts.len() {
            assert(addr_lt(x, pts[i + 1].addr));
        }
        crate::globalcontext::lemma_last_le_char(pts, x, i);
    }
    if last < highest_of(sp) {
        let b = ContextAddr { space: sp, offset: (last + 1) as u64 };
        assert(i + 1 < pts.len() && pts[i + 1].addr.space.index == sp.index);
        if i + 2 < pts.len() {
            assert(addr_lt(pts[i + 1].addr, pts[i + 2].addr));
        }
        crate::globalcontext::lemma_last_le_char(pts, b, i + 1);
    }
}

/// The regions of a space from `off` on start in increasing order, the
/// first at the start of the region holding `off`.
proof fn lemma_regions_ascending(db: ContextInternal, sp: AddrSpace, off: u64)
    requires
        db.wf(),
        off <= highest_of(sp),
    ensures
        regions_from(db, sp, off).len() > 0,
        starts_ascending(regions_from(db, sp, off)),
        regions_from(db, sp, off)[0].0 == db.bounds_first(ContextAddr { space: sp, offset: off }),
        regions_from(db, sp, off)[0].0 <= off,
    decreases highest_of(sp) - off,
{
    let a = ContextAddr { space: sp, offset: off };
    let r = regions_from(db, sp, off);
    let last = db.bounds_last(a);
    let r0 = (db.bounds_first(a), db.context_at(a));
    lemma_region_facts(db, sp, off, a);
    if last >= highest_of(sp) {
        assert(r =~= seq![r0]);
    } else {
        let n = (last + 1) as u64;
        let rest = regions_from(db, sp, n);
        lemma_regions_ascending(db, sp, n);
        assert(r =~= seq![r0] + rest);
        assert(rest[0].0 == last + 1);
        assert forall|i: int, j: int| 0 <= i < j < r.len() implies (#[trigger] r[i]).0 < (#[trigger] r[j]).0 by {
            if i == 0 {
                assert(r[j] == rest[j - 1]);
                if j - 1 > 0 {
                    assert(rest[0].0 < rest[j - 1].0);
                }
            } else {
                assert(r[i] == rest[i - 1] && r[j] == rest[j - 1]);
            }
        }
    }
}

/// Every address `x` of the space from `off` to the top has the blob of the
/// last region (from `off` on) starting at or before it.
proof fn lemma_regions_cover(db: ContextInternal, sp: AddrSpace, off: u64, x: ContextAddr)
    requires
        db.wf(),
        off <= highest_of(sp),
        x.space.index == sp.index,
        off <= x.offset <= highest_of(sp),
    ensures
        0 <= last_region(regions_from(db, sp, off), sp, x) < regions_from(db, sp, off).len(),
        regions_from(db, sp, off)[last_region(regions_from(db, sp, off), sp, x)].1 == db.context_at(x),
    decreases highest_of(sp) - off,
{
    let a = ContextAddr { space: sp, offset: off };
    let r = regions_from(db, sp, off);
    let last = db.bounds_last(a);
    let r0 = (db.bounds_first(a), db.context_at(a));
    lemma_region_facts(db, sp, off, a);
    lemma_region_facts(db, sp, off, x);
    lemma_regions_ascending(db, sp, off);
    if last >= highest_of(sp) {
        assert(r =~= seq![r0]);
        lemma_last_region_char(r, sp, x, 0);
    } else {
        let n = (last + 1) as u64;
        let rest = regions_from(db, sp, n);
        lemma_regions_ascending(db, sp, n);
        assert(r =~= seq![r0] + rest);
        assert(rest[0].0 == last + 1);
        if x.offset <= last {
            assert(r[1] == rest[0]);
            assert(addr_lt(x, ContextAddr { space: sp, offset: r[1].0 }));
            lemma_last_region_char(r, sp, x, 0);
        } else {
            lemma_regions_cover(db, sp, n, x);
            let k1 = last_region(rest, sp, x);
            lemma_last_region_props(rest, sp, x);
            if k1 + 1 < rest.len() {
                lemma_last_region_char_rev(rest, sp, x, k1);
                assert(rest[k1 + 1] == r[k1 + 2]);
            }
            assert(r[k1 + 1] == rest[k1]);
            lemma_last_region_char(r, sp, x, k1 + 1);
        }
    }
}

/// The last region found has its successor (if any) starting after `x`.
proof fn lemma_last_region_char_rev(pts: Seq<(u64, Seq<u32>)>, sp: AddrSpace, x: ContextAddr, k: int)
    requires
        k == last_region(pts, sp, x),
        0 <= k,
        k + 1 < pts.len(),
    ensures
        addr_lt(x, ContextAddr { space: sp, offset: pts[k + 1].0 }),
    decreases pts.len(),
{
    if !addr_lt(x, ContextAddr { space: sp, offset: pts.last().0 }) {
        assert(last_region(pts, sp, x) == pts.len() - 1);
    } else {
        let p = pts.drop_last();
        if k + 1 < p.len() {
            assert(p[k + 1] == pts[k + 1]);
            lemma_last_region_char_rev(p, sp, x, k);
        }
    }
}

/// Writing a database's snapshot into another database gives it the same
/// context over the snapshot's space: when `db2`'s context is what
/// [`restore_context`] makes of the regions of `db1` from offset 0, every
/// address of the space (up to its top) has the same context in both.
pub proof fn lemma_snapshot_restore(db1: ContextInternal, db2: ContextInternal, space: AddrSpace, fallback: Seq<u32>, x: ContextAddr)
    requires
        db1.wf(),
        forall|y: ContextAddr| #[trigger] db2.context_at(y) == {
            let k = last_region(regions_from(db1, space, 0), space, y);
            if k >= 0 {
                regions_from(db1, space, 0)[k].1
            } else {
                fallback
            }
        },
        x.space.index == space.index,
        x.offset <= highest_of(space),
    ensures
        db2.context_at(x) == db1.context_at(x),
{
    lemma_regions_cover(db1, space, 0, x);
    assert(db2.context_at(x) == {
        let k = last_region(regions_from(db1, space, 0), space, x);
        if k >= 0 {
            regions_from(db1, space, 0)[k].1
        } else {
            fallback
        }
    });
}

} // verus!
