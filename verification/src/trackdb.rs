//! The tracked-register database: sets of registers with known values,
//! held in a partition of the address space by split points.
use vstd::prelude::*;

use crate::globalcontext::{addr_lt, addr_lt_exec, in_region, ContextAddr, TrackedContext};

verus! {

/// A split point of the tracked-register database: from `addr` up to the
/// next split point the tracked registers are `set`.
#[derive(Debug, Clone)]
pub struct TrackedPoint {
    /// Where the set starts to hold.
    pub addr: ContextAddr,
    /// The tracked registers from this point on.
    pub set: Vec<TrackedContext>,
}

/// Are the split points in strictly increasing address order?
pub open spec fn sorted_tracked(pts: Seq<TrackedPoint>) -> bool {
    forall|i: int, j: int| 0 <= i < j < pts.len() ==> addr_lt(#[trigger] pts[i].addr, #[trigger] pts[j].addr)
}

/// The index of the last split point at or before `a` (-1 if none).
pub open spec fn tracked_last_le(pts: Seq<TrackedPoint>, a: ContextAddr) -> int
    decreases pts.len(),
{
    if pts.len() == 0 {
        -1
    } else if !addr_lt(a, pts.last().addr) {
        pts.len() - 1
    } else {
        tracked_last_le(pts.drop_last(), a)
    }
}

/// The tracked registers in force at `a`: those of the last split point at
/// or before it, or the default set `d`.
pub open spec fn tracked_set_at(pts: Seq<TrackedPoint>, d: Seq<TrackedContext>, a: ContextAddr) -> Seq<TrackedContext> {
    let i = tracked_last_le(pts, a);
    if i < 0 {
        d
    } else {
        pts[i].set@
    }
}

/// Dropping the last of sorted points keeps them sorted.
proof fn lemma_sorted_drop_last(pts: Seq<TrackedPoint>)
    requires
        sorted_tracked(pts),
        pts.len() > 0,
    ensures
        sorted_tracked(pts.drop_last()),
{
    let p = pts.drop_last();
    assert forall|x: int, y: int| 0 <= x < y < p.len() implies addr_lt(#[trigger] p[x].addr, #[trigger] p[y].addr) by {
        assert(p[x] == pts[x] && p[y] == pts[y]);
    }
}

/// In sorted points, the last point at or before `a` is the one whose
/// successor (if any) lies after `a`.
pub proof fn lemma_tracked_last_le_char(pts: Seq<TrackedPoint>, a: ContextAddr, i: int)
    requires
        sorted_tracked(pts),
        -1 <= i < pts.len(),
        i >= 0 ==> !addr_lt(a, pts[i].addr),
        i + 1 < pts.len() ==> addr_lt(a, pts[i + 1].addr),
    ensures
        tracked_last_le(pts, a) == i,
    decreases pts.len(),
{
    if pts.len() == 0 {
    } else if i == pts.len() - 1 {
    } else {
        let p = pts.drop_last();
        assert(addr_lt(pts[i + 1].addr, pts.last().addr) || i + 1 == pts.len() - 1);
        assert(addr_lt(a, pts.last().addr));
        lemma_sorted_drop_last(pts);
        if i >= 0 {
            assert(p[i] == pts[i]);
        }
        if i + 1 < p.len() {
            assert(p[i + 1] == pts[i + 1]);
        }
        lemma_tracked_last_le_char(p, a, i);
    }
}

/// The last point at or before `a` is in range, at or before `a`, and its
/// successor lies after `a`.
pub proof fn lemma_tracked_last_le_props(pts: Seq<TrackedPoint>, a: ContextAddr)
    requires
        sorted_tracked(pts),
    ensures
        -1 <= tracked_last_le(pts, a) < pts.len(),
        tracked_last_le(pts, a) >= 0 ==> !addr_lt(a, pts[tracked_last_le(pts, a)].addr),
        tracked_last_le(pts, a) + 1 < pts.len() ==> addr_lt(a, pts[tracked_last_le(pts, a) + 1].addr),
    decreases pts.len(),
{
    if pts.len() > 0 && addr_lt(a, pts.last().addr) {
        let p = pts.drop_last();
        lemma_sorted_drop_last(pts);
        lemma_tracked_last_le_props(p, a);
        let k = tracked_last_le(p, a);
        if k >= 0 {
            assert(p[k] == pts[k]);
        }
        if k + 1 < p.len() {
            assert(p[k + 1] == pts[k + 1]);
        }
    }
}

/// The last point at or before `a` depends only on where the points are.
pub proof fn lemma_tracked_same_addrs(pts: Seq<TrackedPoint>, q: Seq<TrackedPoint>, a: ContextAddr)
    requires
        pts.len() == q.len(),
        forall|i: int| 0 <= i < pts.len() ==> (#[trigger] pts[i]).addr == q[i].addr,
    ensures
        tracked_last_le(pts, a) == tracked_last_le(q, a),
    decreases pts.len(),
{
    if pts.len() > 0 {
        assert(pts.last().addr == q.last().addr);
        let p1 = pts.drop_last();
        let q1 = q.drop_last();
        assert forall|i: int| 0 <= i < p1.len() implies (#[trigger] p1[i]).addr == q1[i].addr by {
            assert(p1[i] == pts[i] && q1[i] == q[i]);
        }
        lemma_tracked_same_addrs(p1, q1, a);
    }
}

/// A copy of a set of tracked registers.
fn copy_set(s: &Vec<TrackedContext>) -> (r: Vec<TrackedContext>)
    ensures
        r@ == s@,
{
    let mut r: Vec<TrackedContext> = Vec::new();
    let mut i: usize = 0;
    while i < s.len()
        invariant
            i <= s@.len(),
            r@ == s@.subrange(0, i as int),
        decreases s@.len() - i,
    {
        r.push(s[i]);
        i += 1;
        proof {
            assert(r@ =~= s@.subrange(0, i as int));
        }
    }
    proof {
        assert(s@.subrange(0, s@.len() as int) =~= s@);
    }
    r
}

/// A copy of a split point.
fn copy_point(p: &TrackedPoint) -> (r: TrackedPoint)
    ensures
        r.addr == p.addr,
        r.set@ == p.set@,
{
    TrackedPoint { addr: p.addr, set: copy_set(&p.set) }
}

/// The points `np` are `old` with those from `a1` up to and including `a2`
/// replaced by a point at `a1` and one at `a2` carrying the set in force
/// at `a2`: they are sorted, the set in force is unchanged outside the
/// range from `a1` up to `a2`, and inside it the point at `a1` applies.
proof fn lemma_replaced(
    old: Seq<TrackedPoint>,
    np: Seq<TrackedPoint>,
    d: Seq<TrackedContext>,
    k1: int,
    k2: int,
    a1: ContextAddr,
    a2: ContextAddr,
)
    requires
        sorted_tracked(old),
        addr_lt(a1, a2),
        0 <= k1 <= k2 <= old.len(),
        forall|j: int| 0 <= j < k1 ==> addr_lt((#[trigger] old[j]).addr, a1),
        k1 < old.len() ==> !addr_lt(old[k1].addr, a1),
        forall|j: int| k1 <= j < k2 ==> !addr_lt(a2, (#[trigger] old[j]).addr),
        k2 < old.len() ==> addr_lt(a2, old[k2].addr),
        np.len() == k1 + 2 + old.len() - k2,
        forall|i: int| 0 <= i < k1 ==> (#[trigger] np[i]).addr == old[i].addr && np[i].set@ == old[i].set@,
        np[k1].addr == a1,
        np[k1 + 1].addr == a2,
        np[k1 + 1].set@ == tracked_set_at(old, d, a2),
        forall|i: int| k1 + 2 <= i < np.len() ==> (#[trigger] np[i]).addr == old[i - k1 - 2 + k2].addr
            && np[i].set@ == old[i - k1 - 2 + k2].set@,
    ensures
        sorted_tracked(np),
        forall|x: ContextAddr| !in_region(x, a1, Some(a2)) ==> #[trigger] tracked_set_at(np, d, x) == tracked_set_at(old, d, x),
        forall|x: ContextAddr| in_region(x, a1, Some(a2)) ==> #[trigger] tracked_last_le(np, x) == k1,
{
    assert forall|i: int, j: int| 0 <= i < j < np.len() implies addr_lt(#[trigger] np[i].addr, #[trigger] np[j].addr) by {
        if j < k1 {
        } else if j == k1 || j == k1 + 1 {
            if i < k1 {
                assert(addr_lt(old[i].addr, a1));
            }
        } else {
            let jj = j - k1 - 2 + k2;
            assert(np[j].addr == old[jj].addr);
            if k2 < jj {
                assert(addr_lt(old[k2].addr, old[jj].addr));
            }
            assert(addr_lt(a2, old[jj].addr));
            if i < k1 {
                assert(np[i].addr == old[i].addr);
                assert(addr_lt(old[i].addr, old[jj].addr));
            } else if i >= k1 + 2 {
                let ii = i - k1 - 2 + k2;
                assert(np[i].addr == old[ii].addr);
                assert(addr_lt(old[ii].addr, old[jj].addr));
            }
        }
    }
    // the point in force at a2 before the change
    if k2 > 0 && k2 - 1 < k1 {
        assert(addr_lt(old[k2 - 1].addr, a1));
    }
    lemma_tracked_last_le_char(old, a2, k2 - 1);
    assert forall|x: ContextAddr| !in_region(x, a1, Some(a2)) implies #[trigger] tracked_set_at(np, d, x)
        == tracked_set_at(old, d, x) by {
        lemma_tracked_last_le_props(old, x);
        let i = tracked_last_le(old, x);
        if addr_lt(x, a1) {
            assert(i < k1) by {
                if i >= k1 {
                    if i > k1 {
                        assert(addr_lt(old[k1].addr, old[i].addr));
                    }
                }
            }
            if i >= 0 {
                assert(np[i].addr == old[i].addr);
            }
            if i + 1 < k1 {
                assert(np[i + 1].addr == old[i + 1].addr);
            }
            lemma_tracked_last_le_char(np, x, i);
            if i >= 0 {
                assert(np[i].set@ == old[i].set@);
            }
        } else {
            // at or past a2
            assert(!addr_lt(x, a2));
            assert(i >= k2 - 1) by {
                if k2 > 0 {
                    if i < k2 - 1 {
                        assert(addr_lt(old[i + 1].addr, x) || old[i + 1].addr == old[k2 - 1].addr || addr_lt(
                            old[i + 1].addr,
                            old[k2 - 1].addr,
                        ));
                        assert(!addr_lt(a2, old[k2 - 1].addr) || k2 - 1 < k1);
                    }
                }
            }
            if i == k2 - 1 {
                if k1 + 2 < np.len() {
                    assert(np[k1 + 2].addr == old[k2].addr);
                }
                lemma_tracked_last_le_char(np, x, k1 + 1);
            } else {
                let ni = i - k2 + k1 + 2;
                assert(np[ni].addr == old[i].addr);
                if ni + 1 < np.len() {
                    assert(np[ni + 1].addr == old[i + 1].addr);
                }
                lemma_tracked_last_le_char(np, x, ni);
                assert(np[ni].set@ == old[i].set@);
            }
        }
    }
    assert forall|x: ContextAddr| in_region(x, a1, Some(a2)) implies #[trigger] tracked_last_le(np, x) == k1 by {
        lemma_tracked_last_le_char(np, x, k1);
    }
}

/// The set of point `k`, to be changed in place.
fn borrow_set(pts: &mut Vec<TrackedPoint>, k: usize) -> (r: &mut Vec<TrackedContext>)
    requires
        k < old(pts)@.len(),
    ensures
        r@ == old(pts)@[k as int].set@,
        final(pts)@ == old(pts)@.update(k as int, TrackedPoint { addr: old(pts)@[k as int].addr, set: *final(r) }),
{
    &mut pts[k].set
}

/// Replacing the set of point `k`, which holds over the range from `a1` up
/// to `a2`, changes the set in force there and nowhere else.
proof fn lemma_refill(pts: Seq<TrackedPoint>, d: Seq<TrackedContext>, k: int, a1: ContextAddr, a2: ContextAddr)
    requires
        sorted_tracked(pts),
        0 <= k,
        k + 1 < pts.len(),
        pts[k].addr == a1,
        pts[k + 1].addr == a2,
    ensures
        forall|s: Vec<TrackedContext>| #[trigger] sorted_tracked(pts.update(k, TrackedPoint { addr: a1, set: s })),
        forall|s: Vec<TrackedContext>, x: ContextAddr| in_region(x, a1, Some(a2)) ==> #[trigger] tracked_set_at(
            pts.update(k, TrackedPoint { addr: a1, set: s }),
            d,
            x,
        ) == s@,
        forall|s: Vec<TrackedContext>, x: ContextAddr| !in_region(x, a1, Some(a2)) ==> #[trigger] tracked_set_at(
            pts.update(k, TrackedPoint { addr: a1, set: s }),
            d,
            x,
        ) == tracked_set_at(pts, d, x),
{
    assert forall|s: Vec<TrackedContext>| #[trigger] sorted_tracked(pts.update(k, TrackedPoint { addr: a1, set: s })) by {
        let q = pts.update(k, TrackedPoint { addr: a1, set: s });
        assert forall|i: int, j: int| 0 <= i < j < q.len() implies addr_lt(#[trigger] q[i].addr, #[trigger] q[j].addr) by {
            assert(q[i].addr == pts[i].addr && q[j].addr == pts[j].addr);
        }
    }
    assert forall|s: Vec<TrackedContext>, x: ContextAddr| #[trigger] tracked_set_at(
        pts.update(k, TrackedPoint { addr: a1, set: s }),
        d,
        x,
    ) == if in_region(x, a1, Some(a2)) { s@ } else { tracked_set_at(pts, d, x) } by {
        let q = pts.update(k, TrackedPoint { addr: a1, set: s });
        assert forall|i: int| 0 <= i < pts.len() implies (#[trigger] pts[i]).addr == q[i].addr by {}
        lemma_tracked_same_addrs(pts, q, x);
        lemma_tracked_last_le_props(pts, x);
        let i = tracked_last_le(pts, x);
        if in_region(x, a1, Some(a2)) {
            lemma_tracked_last_le_char(pts, x, k);
        } else if i == k {
            assert(false);
        }
    }
}

/// The address of the first split point after `a`, if any.
pub open spec fn next_after(pts: Seq<TrackedPoint>, a: ContextAddr) -> Option<ContextAddr>
    decreases pts.len(),
{
    if pts.len() == 0 {
        None
    } else if addr_lt(a, pts[0].addr) {
        Some(pts[0].addr)
    } else {
        next_after(pts.drop_first(), a)
    }
}

/// In sorted points, the first point after `a` is the first one of those
/// from `m` on, when none before `m` lies after `a`.
proof fn lemma_next_after(pts: Seq<TrackedPoint>, a: ContextAddr, m: int)
    requires
        sorted_tracked(pts),
        0 <= m <= pts.len(),
        forall|j: int| 0 <= j < m ==> !addr_lt(a, (#[trigger] pts[j]).addr),
        m < pts.len() ==> addr_lt(a, pts[m].addr),
    ensures
        next_after(pts, a) == if m < pts.len() { Some(pts[m].addr) } else { None::<ContextAddr> },
    decreases pts.len(),
{
    if pts.len() > 0 && m > 0 {
        let q = pts.drop_first();
        assert(sorted_tracked(q)) by {
            assert forall|x: int, y: int| 0 <= x < y < q.len() implies addr_lt(#[trigger] q[x].addr, #[trigger] q[y].addr) by {
                assert(q[x] == pts[x + 1] && q[y] == pts[y + 1]);
            }
        }
        assert forall|j: int| 0 <= j < m - 1 implies !addr_lt(a, (#[trigger] q[j]).addr) by {
            assert(q[j] == pts[j + 1]);
        }
        if m < pts.len() {
            assert(q[m - 1] == pts[m]);
        }
        lemma_next_after(q, a, m - 1);
    }
}

/// Putting the set `s` at a split point `a`, new or not, with the points
/// before `k` lying before `a` and those from `k` on not: the set in force
/// is `s` from `a` up to the next point after it, and unchanged elsewhere.
proof fn lemma_put_at(pts: Seq<TrackedPoint>, q: Seq<TrackedPoint>, d: Seq<TrackedContext>, k: int, a: ContextAddr, s: Seq<TrackedContext>, fresh: bool)
    requires
        sorted_tracked(pts),
        0 <= k <= pts.len(),
        forall|j: int| 0 <= j < k ==> addr_lt((#[trigger] pts[j]).addr, a),
        k < pts.len() ==> !addr_lt(pts[k].addr, a),
        fresh ==> (k < pts.len() ==> addr_lt(a, pts[k].addr)),
        !fresh ==> k < pts.len() && !addr_lt(a, pts[k].addr),
        fresh ==> q.len() == pts.len() + 1 && (forall|j: int| 0 <= j < k ==> (#[trigger] q[j]) == pts[j])
            && (forall|j: int| k < j < q.len() ==> (#[trigger] q[j]) == pts[j - 1]),
        !fresh ==> q.len() == pts.len() && (forall|j: int| 0 <= j < q.len() && j != k ==> (#[trigger] q[j]) == pts[j]),
        q[k].addr == (if fresh { a } else { pts[k].addr }),
        q[k].set@ == s,
    ensures
        sorted_tracked(q),
        forall|x: ContextAddr| #[trigger] tracked_set_at(q, d, x) == if in_region(x, a, next_after(pts, a)) {
            s
        } else {
            tracked_set_at(pts, d, x)
        },
{
    let m = if fresh { k } else { k + 1 };
    assert forall|j: int| 0 <= j < m implies !addr_lt(a, (#[trigger] pts[j]).addr) by {
        if j < k {
            assert(addr_lt(pts[j].addr, a));
        }
    }
    if m < pts.len() {
        if !fresh {
            assert(addr_lt(pts[k].addr, pts[k + 1].addr));
        }
    }
    lemma_next_after(pts, a, m);
    assert forall|i: int, j: int| 0 <= i < j < q.len() implies addr_lt(#[trigger] q[i].addr, #[trigger] q[j].addr) by {
        if fresh {
            if j < k {
            } else if j == k {
                assert(q[i] == pts[i]);
            } else if i < k {
                assert(q[i] == pts[i] && q[j] == pts[j - 1]);
                if k < j - 1 {
                    assert(addr_lt(pts[k].addr, pts[j - 1].addr));
                }
            } else if i == k {
                assert(q[j] == pts[j - 1]);
                if k < j - 1 {
                    assert(addr_lt(pts[k].addr, pts[j - 1].addr));
                }
            } else {
                assert(q[i] == pts[i - 1] && q[j] == pts[j - 1]);
            }
        } else {
            if i != k {
                assert(q[i] == pts[i]);
            }
            if j != k {
                assert(q[j] == pts[j]);
            }
        }
    }
    assert forall|x: ContextAddr| #[trigger] tracked_set_at(q, d, x) == if in_region(x, a, next_after(pts, a)) {
        s
    } else {
        tracked_set_at(pts, d, x)
    } by {
        lemma_tracked_last_le_props(pts, x);
        let i = tracked_last_le(pts, x);
        if addr_lt(x, a) {
            assert(i < k) by {
                if i >= k {
                    if i > k {
                        assert(addr_lt(pts[k].addr, pts[i].addr));
                    }
                }
            }
            if i >= 0 {
                assert(q[i] == pts[i]);
            }
            if i + 1 < k {
                assert(q[i + 1] == pts[i + 1]);
            }
            lemma_tracked_last_le_char(q, x, i);
        } else if m == pts.len() || addr_lt(x, pts[m].addr) {
            if fresh {
                if k + 1 < q.len() {
                    assert(q[k + 1] == pts[k]);
                }
            } else {
                if k + 1 < q.len() {
                    assert(q[k + 1] == pts[k + 1]);
                }
            }
            lemma_tracked_last_le_char(q, x, k);
        } else {
            assert(i >= m) by {
                if i < m {
                    if i + 1 < m {
                        assert(addr_lt(pts[i + 1].addr, pts[m].addr));
                    }
                }
            }
            if fresh {
                assert(q[i + 1] == pts[i]);
                if i + 2 < q.len() {
                    assert(q[i + 2] == pts[i + 1]);
                }
                lemma_tracked_last_le_char(q, x, i + 1);
            } else {
                assert(q[i] == pts[i]);
                if i + 1 < q.len() {
                    assert(q[i + 1] == pts[i + 1]);
                }
                lemma_tracked_last_le_char(q, x, i);
            }
        }
    }
}

/// Replacing the set of the last point `k`, at `a1`, changes the set in
/// force from `a1` on and nowhere else.
proof fn lemma_refill_from(pts: Seq<TrackedPoint>, d: Seq<TrackedContext>, k: int, a1: ContextAddr)
    requires
        sorted_tracked(pts),
        0 <= k,
        k + 1 == pts.len(),
        pts[k].addr == a1,
    ensures
        forall|s: Vec<TrackedContext>| #[trigger] sorted_tracked(pts.update(k, TrackedPoint { addr: a1, set: s })),
        forall|s: Vec<TrackedContext>, x: ContextAddr| in_region(x, a1, None) ==> #[trigger] tracked_set_at(
            pts.update(k, TrackedPoint { addr: a1, set: s }),
            d,
            x,
        ) == s@,
        forall|s: Vec<TrackedContext>, x: ContextAddr| !in_region(x, a1, None) ==> #[trigger] tracked_set_at(
            pts.update(k, TrackedPoint { addr: a1, set: s }),
            d,
            x,
        ) == tracked_set_at(pts, d, x),
{
    assert forall|s: Vec<TrackedContext>| #[trigger] sorted_tracked(pts.update(k, TrackedPoint { addr: a1, set: s })) by {
        let q = pts.update(k, TrackedPoint { addr: a1, set: s });
        assert forall|i: int, j: int| 0 <= i < j < q.len() implies addr_lt(#[trigger] q[i].addr, #[trigger] q[j].addr) by {
            assert(q[i].addr == pts[i].addr && q[j].addr == pts[j].addr);
        }
    }
    assert forall|s: Vec<TrackedContext>, x: ContextAddr| #[trigger] tracked_set_at(
        pts.update(k, TrackedPoint { addr: a1, set: s }),
        d,
        x,
    ) == if in_region(x, a1, None) { s@ } else { tracked_set_at(pts, d, x) } by {
        let q = pts.update(k, TrackedPoint { addr: a1, set: s });
        assert forall|i: int| 0 <= i < pts.len() implies (#[trigger] pts[i]).addr == q[i].addr by {}
        lemma_tracked_same_addrs(pts, q, x);
        lemma_tracked_last_le_props(pts, x);
        if in_region(x, a1, None) {
            lemma_tracked_last_le_char(pts, x, k);
        }
    }
}

/// The tracked registers of a whole address space partition: a default set
/// and the split points, in address order.
#[derive(Debug)]
pub struct TrackedDatabase {
    /// The set wherever no split point applies.
    pub default_set: Vec<TrackedContext>,
    /// The split points, in increasing address order.
    pub points: Vec<TrackedPoint>,
}

impl TrackedDatabase {
    /// Are the split points sorted?
    pub closed spec fn wf(&self) -> bool {
        sorted_tracked(self.points@)
    }

    /// The tracked registers in force at `a`.
    pub open spec fn set_at(&self, a: ContextAddr) -> Seq<TrackedContext> {
        tracked_set_at(self.points@, self.default_set@, a)
    }

    /// An empty database: no tracked registers anywhere.
    pub fn new() -> (r: TrackedDatabase)
        ensures
            r.wf(),
            r.default_set@.len() == 0,
            r.points@.len() == 0,
            forall|x: ContextAddr| #[trigger] r.set_at(x).len() == 0,
    {
        TrackedDatabase { default_set: Vec::new(), points: Vec::new() }
    }

    /// The index of the last split point at or before `a`, if any.
    fn last_point_at_or_before(&self, a: ContextAddr) -> (r: Option<usize>)
        requires
            self.wf(),
        ensures
            r matches Some(i) ==> i < self.points@.len() && i as int == tracked_last_le(self.points@, a),
            r is None ==> tracked_last_le(self.points@, a) == -1,
    {
        let mut i: usize = self.points.len();
        while i > 0
            invariant
                i <= self.points@.len(),
                forall|j: int| i <= j < self.points@.len() ==> addr_lt(a, (#[trigger] self.points@[j]).addr),
                sorted_tracked(self.points@),
            decreases i,
        {
            if !addr_lt_exec(a, self.points[i - 1].addr) {
                proof {
                    lemma_tracked_last_le_char(self.points@, a, i - 1);
                }
                return Some(i - 1);
            }
            i -= 1;
        }
        proof {
            lemma_tracked_last_le_char(self.points@, a, -1);
        }
        None
    }

    /// The tracked registers in force at `a`.
    pub fn get_tracked_set(&self, a: ContextAddr) -> (r: &Vec<TrackedContext>)
        requires
            self.wf(),
        ensures
            r@ == self.set_at(a),
    {
        match self.last_point_at_or_before(a) {
            Some(i) => &self.points[i].set,
            None => &self.default_set,
        }
    }

    /// Make `a1` and `a2` split points with none between them and an empty
    /// set at `a1`, returning the index of `a1`'s point; outside the range
    /// from `a1` up to `a2` the tracked registers do not change.
    fn replace_range(&mut self, a1: ContextAddr, a2: ContextAddr) -> (k: usize)
        requires
            old(self).wf(),
            addr_lt(a1, a2),
        ensures
            final(self).wf(),
            final(self).default_set@ == old(self).default_set@,
            k + 1 < final(self).points@.len(),
            final(self).points@[k as int].addr == a1,
            final(self).points@[k as int].set@.len() == 0,
            final(self).points@[k + 1].addr == a2,
            forall|x: ContextAddr| !in_region(x, a1, Some(a2)) ==> #[trigger] final(self).set_at(x) == old(self).set_at(x),
            forall|x: ContextAddr| in_region(x, a1, Some(a2)) ==> #[trigger] tracked_last_le(final(self).points@, x) == k,
    {
        let ghost old_pts = self.points@;
        let n = self.points.len();
        let mut k1: usize = 0;
        while k1 < n && addr_lt_exec(self.points[k1].addr, a1)
            invariant
                n == self.points@.len(),
                k1 <= n,
                forall|j: int| 0 <= j < k1 ==> addr_lt((#[trigger] self.points@[j]).addr, a1),
            decreases n - k1,
        {
            k1 += 1;
        }
        let mut k2: usize = k1;
        while k2 < n && !addr_lt_exec(a2, self.points[k2].addr)
            invariant
                n == self.points@.len(),
                k1 <= k2 <= n,
                forall|j: int| k1 <= j < k2 ==> !addr_lt(a2, (#[trigger] self.points@[j]).addr),
            decreases n - k2,
        {
            k2 += 1;
        }
        let v2 = if k2 == 0 {
            copy_set(&self.default_set)
        } else {
            copy_set(&self.points[k2 - 1].set)
        };
        proof {
            if k2 > 0 && k2 - 1 < k1 {
                assert(addr_lt(old_pts[k2 - 1].addr, a1));
            }
            lemma_tracked_last_le_char(old_pts, a2, k2 - 1);
        }
        let mut np: Vec<TrackedPoint> = Vec::new();
        let mut j: usize = 0;
        while j < k1
            invariant
                j <= k1 <= n,
                n == self.points@.len(),
                self.points@ == old_pts,
                np@.len() == j,
                forall|i: int| 0 <= i < j ==> (#[trigger] np@[i]).addr == old_pts[i].addr && np@[i].set@ == old_pts[i].set@,
            decreases k1 - j,
        {
            np.push(copy_point(&self.points[j]));
            j += 1;
        }
        np.push(TrackedPoint { addr: a1, set: Vec::new() });
        np.push(TrackedPoint { addr: a2, set: v2 });
        let mut j: usize = k2;
        while j < n
            invariant
                k1 <= k2 <= j <= n,
                n == self.points@.len(),
                self.points@ == old_pts,
                np@.len() == k1 + 2 + (j - k2),
                forall|i: int| 0 <= i < k1 ==> (#[trigger] np@[i]).addr == old_pts[i].addr && np@[i].set@ == old_pts[i].set@,
                np@[k1 as int].addr == a1,
                np@[k1 as int].set@.len() == 0,
                np@[k1 + 1].addr == a2,
                np@[k1 + 1].set@ == tracked_set_at(old_pts, self.default_set@, a2),
                forall|i: int| k1 + 2 <= i < np@.len() ==> (#[trigger] np@[i]).addr == old_pts[i - k1 - 2 + k2].addr
                    && np@[i].set@ == old_pts[i - k1 - 2 + k2].set@,
            decreases n - j,
        {
            np.push(copy_point(&self.points[j]));
            j += 1;
        }
        proof {
            lemma_replaced(old_pts, np@, self.default_set@, k1 as int, k2 as int, a1, a2);
        }
        self.points = np;
        k1
    }

    /// Clear the tracked registers over the range from `a1` up to (not
    /// including) `a2` and hand out the empty set that now holds there, to
    /// be filled in place; outside the range nothing changes.
    pub fn create_set(&mut self, a1: ContextAddr, a2: ContextAddr) -> (r: &mut Vec<TrackedContext>)
        requires
            old(self).wf(),
            addr_lt(a1, a2),
        ensures
            r@.len() == 0,
            final(self).wf(),
            final(self).default_set@ == old(self).default_set@,
            forall|x: ContextAddr| in_region(x, a1, Some(a2)) ==> #[trigger] final(self).set_at(x) == final(r)@,
            forall|x: ContextAddr| !in_region(x, a1, Some(a2)) ==> #[trigger] final(self).set_at(x) == old(self).set_at(x),
    {
        let k = self.replace_range(a1, a2);
        proof {
            lemma_refill(self.points@, self.default_set@, k as int, a1, a2);
            assert forall|x: ContextAddr| !in_region(x, a1, Some(a2)) implies #[trigger] tracked_set_at(
                self.points@,
                self.default_set@,
                x,
            ) == old(self).set_at(x) by {
                assert(self.set_at(x) == old(self).set_at(x));
            }
        }
        borrow_set(&mut self.points, k)
    }

    /// Make `a` a split point whose tracked registers are `set`: from `a`
    /// up to the next split point after it they are `set`, elsewhere
    /// nothing changes.
    pub fn put_set_at(&mut self, a: ContextAddr, set: Vec<TrackedContext>)
        requires
            old(self).wf(),
        ensures
            final(self).wf(),
            final(self).default_set@ == old(self).default_set@,
            forall|x: ContextAddr| #[trigger] final(self).set_at(x) == if in_region(x, a, next_after(old(self).points@, a)) {
                set@
            } else {
                old(self).set_at(x)
            },
    {
        let ghost pts = self.points@;
        let ghost s = set@;
        let n = self.points.len();
        let mut k: usize = 0;
        while k < n && addr_lt_exec(self.points[k].addr, a)
            invariant
                n == self.points@.len(),
                self.points@ == pts,
                k <= n,
                forall|j: int| 0 <= j < k ==> addr_lt((#[trigger] self.points@[j]).addr, a),
            decreases n - k,
        {
            k += 1;
        }
        if k < n && !addr_lt_exec(a, self.points[k].addr) {
            let pa = self.points[k].addr;
            self.points.set(k, TrackedPoint { addr: pa, set });
            proof {
                lemma_put_at(pts, self.points@, self.default_set@, k as int, a, s, false);
            }
        } else {
            self.points.insert(k, TrackedPoint { addr: a, set });
            proof {
                lemma_put_at(pts, self.points@, self.default_set@, k as int, a, s, true);
            }
        }
    }

    /// Clear the tracked registers from `a1` on and hand out the empty set
    /// that now holds there, to be filled in place; before `a1` nothing
    /// changes.
    pub fn create_set_from(&mut self, a1: ContextAddr) -> (r: &mut Vec<TrackedContext>)
        requires
            old(self).wf(),
        ensures
            r@.len() == 0,
            final(self).wf(),
            final(self).default_set@ == old(self).default_set@,
            forall|x: ContextAddr| in_region(x, a1, None) ==> #[trigger] final(self).set_at(x) == final(r)@,
            forall|x: ContextAddr| !in_region(x, a1, None) ==> #[trigger] final(self).set_at(x) == old(self).set_at(x),
    {
        let ghost pts = self.points@;
        let n = self.points.len();
        let mut k: usize = 0;
        while k < n && addr_lt_exec(self.points[k].addr, a1)
            invariant
                n == self.points@.len(),
                self.points@ == pts,
                k <= n,
                forall|j: int| 0 <= j < k ==> addr_lt((#[trigger] self.points@[j]).addr, a1),
            decreases n - k,
        {
            k += 1;
        }
        self.points.truncate(k);
        self.points.push(TrackedPoint { addr: a1, set: Vec::new() });
        proof {
            let q = self.points@;
            assert(q.len() == k + 1);
            assert forall|j: int| 0 <= j < k implies #[trigger] q[j] == pts[j] by {}
            assert forall|i: int, j: int| 0 <= i < j < q.len() implies addr_lt(#[trigger] q[i].addr, #[trigger] q[j].addr) by {
                if j < k {
                    assert(q[i] == pts[i] && q[j] == pts[j]);
                } else {
                    assert(q[i] == pts[i]);
                }
            }
            assert forall|x: ContextAddr| in_region(x, a1, None) implies #[trigger] tracked_last_le(q, x) == k by {
                lemma_tracked_last_le_char(q, x, k as int);
            }
            assert forall|x: ContextAddr| !in_region(x, a1, None) implies #[trigger] tracked_set_at(q, self.default_set@, x)
                == tracked_set_at(pts, self.default_set@, x) by {
                lemma_tracked_last_le_props(pts, x);
                let i = tracked_last_le(pts, x);
                assert(i < k) by {
                    if i >= k {
                        if i > k {
                            assert(addr_lt(pts[k as int].addr, pts[i].addr));
                        }
                    }
                }
                if i + 1 < k {
                    assert(q[i + 1] == pts[i + 1]);
                }
                lemma_tracked_last_le_char(q, x, i);
            }
            lemma_refill_from(q, self.default_set@, k as int, a1);
            assert forall|x: ContextAddr| !in_region(x, a1, None) implies #[trigger] tracked_set_at(q, self.default_set@, x)
                == old(self).set_at(x) by {}
        }
        borrow_set(&mut self.points, k)
    }

    /// The default set, to be changed in place.
    pub fn get_tracked_default(&mut self) -> (r: &mut Vec<TrackedContext>)
        ensures
            r@ == old(self).default_set@,
            final(self).default_set@ == final(r)@,
            final(self).points@ == old(self).points@,
            final(self).wf() == old(self).wf(),
    {
        &mut self.default_set
    }
}

} // verus!
