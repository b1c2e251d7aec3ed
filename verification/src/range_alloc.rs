//! Free-space tracking for one device.
//!
//! An allocator covers the sectors `[0, limit)` of a device. It keeps the
//! free extents in ascending order; every other sector below the limit is in
//! use. Space is granted lowest sector first and is never taken back.

use vstd::prelude::*;
use vstd::string::StringExecFns;

use crate::errors::{EngineError, EngineResult};
use crate::units::Sectors;

verus! {

/// A run of sectors: its first sector and its length.
pub type Extent = (Sectors, Sectors);

/// The first sector after `e`.
pub open spec fn end_of(e: Extent) -> int {
    e.0 + e.1
}

/// Sector `s` lies in one of `extents`.
pub open spec fn covers(extents: Seq<Extent>, s: int) -> bool {
    exists|i: int| 0 <= i < extents.len() && (#[trigger] extents[i]).0 <= s < end_of(extents[i])
}

/// The number of sectors in `extents`, counting each extent's length.
pub open spec fn total_len(extents: Seq<Extent>) -> int
    decreases extents.len(),
{
    if extents.len() == 0 {
        0
    } else {
        extents[0].1 + total_len(extents.drop_first())
    }
}

/// A free list: no extent is empty, each ends at or below `limit`, they ascend,
/// and at least one sector in use lies between any two of them.
pub open spec fn free_list_wf(free: Seq<Extent>, limit: int) -> bool {
    &&& forall|i: int| 0 <= i < free.len() ==> (#[trigger] free[i]).1 > 0 && end_of(free[i]) <= limit
    &&& forall|i: int, j: int|
        0 <= i < j < free.len() ==> end_of(#[trigger] free[i]) < (#[trigger] free[j]).0
}

/// A list of extents in use that an allocator can start from: no extent is
/// empty, each ends at or below `limit`, and they ascend without overlap.
/// Extents that touch are admitted.
pub open spec fn used_list_wf(used: Seq<Extent>, limit: int) -> bool {
    &&& forall|i: int| 0 <= i < used.len() ==> (#[trigger] used[i]).1 > 0 && end_of(used[i]) <= limit
    &&& forall|i: int, j: int|
        0 <= i < j < used.len() ==> end_of(#[trigger] used[i]) <= (#[trigger] used[j]).0
}

/// The free extents of `[from, limit)` that `used` leaves, where every extent
/// of `used` starts at or after `from`.
pub open spec fn gaps(used: Seq<Extent>, from: int, limit: int) -> Seq<Extent>
    decreases used.len(),
{
    if used.len() == 0 {
        if from < limit {
            seq![(from as u64, (limit - from) as u64)]
        } else {
            seq![]
        }
    } else {
        let rest = gaps(used.drop_first(), end_of(used[0]), limit);
        if from < used[0].0 {
            seq![(from as u64, (used[0].0 - from) as u64)] + rest
        } else {
            rest
        }
    }
}

/// What a request for `amount` sectors is granted from `free`: whole extents
/// from the front while they fit, then the front part of the next one.
pub open spec fn granted(free: Seq<Extent>, amount: int) -> Seq<Extent>
    decreases free.len(),
{
    if free.len() == 0 || amount <= 0 {
        seq![]
    } else if free[0].1 <= amount {
        seq![free[0]] + granted(free.drop_first(), amount - free[0].1)
    } else {
        seq![(free[0].0, amount as u64)]
    }
}

/// What stays free of `free` after a request for `amount` sectors.
pub open spec fn remaining(free: Seq<Extent>, amount: int) -> Seq<Extent>
    decreases free.len(),
{
    if free.len() == 0 || amount <= 0 {
        free
    } else if free[0].1 <= amount {
        remaining(free.drop_first(), amount - free[0].1)
    } else {
        seq![((free[0].0 + amount) as u64, (free[0].1 - amount) as u64)] + free.drop_first()
    }
}

/// The smaller of two integers.
pub open spec fn min_int(a: int, b: int) -> int {
    if a <= b {
        a
    } else {
        b
    }
}

/// Appending an extent adds its length to the total.
pub proof fn lemma_total_len_push(extents: Seq<Extent>, e: Extent)
    ensures
        total_len(extents.push(e)) == total_len(extents) + e.1,
    decreases extents.len(),
{
    if extents.len() == 0 {
        assert(extents.push(e).drop_first() =~= extents);
    } else {
        assert(extents.push(e).drop_first() =~= extents.drop_first().push(e));
        lemma_total_len_push(extents.drop_first(), e);
    }
}

/// A free list holds no more sectors than lie between its first extent and
/// the limit.
pub proof fn lemma_total_len_bound(free: Seq<Extent>, limit: int)
    requires
        free_list_wf(free, limit),
    ensures
        0 <= total_len(free),
        free.len() > 0 ==> total_len(free) <= limit - free[0].0,
        total_len(free) <= limit || free.len() == 0,
    decreases free.len(),
{
    if free.len() > 0 {
        let rest = free.drop_first();
        assert forall|i: int| 0 <= i < rest.len() implies (#[trigger] rest[i]).1 > 0 && end_of(
            rest[i],
        ) <= limit by {
            assert(rest[i] == free[i + 1]);
        }
        assert forall|i: int, j: int| 0 <= i < j < rest.len() implies end_of(#[trigger] rest[i])
            < (#[trigger] rest[j]).0 by {
            assert(rest[i] == free[i + 1]);
            assert(rest[j] == free[j + 1]);
        }
        lemma_total_len_bound(rest, limit);
        if rest.len() > 0 {
            assert(rest[0] == free[1]);
            assert(end_of(free[0]) < free[1].0);
        }
    }
}

/// Dropping the first extent of a free list leaves a free list.
pub proof fn lemma_free_list_tail(free: Seq<Extent>, limit: int)
    requires
        free_list_wf(free, limit),
        free.len() > 0,
    ensures
        free_list_wf(free.drop_first(), limit),
        forall|s: int| covers(free.drop_first(), s) ==> end_of(free[0]) < s,
        forall|s: int|
            covers(free, s) <==> (free[0].0 <= s < end_of(free[0]) || covers(free.drop_first(), s)),
{
    let rest = free.drop_first();
    assert forall|i: int| 0 <= i < rest.len() implies (#[trigger] rest[i]).1 > 0 && end_of(rest[i])
        <= limit by {
        assert(rest[i] == free[i + 1]);
    }
    assert forall|i: int, j: int| 0 <= i < j < rest.len() implies end_of(#[trigger] rest[i]) < (
    #[trigger] rest[j]).0 by {
        assert(rest[i] == free[i + 1]);
        assert(rest[j] == free[j + 1]);
    }
    assert forall|s: int| covers(rest, s) implies end_of(free[0]) < s by {
        let i = choose|i: int| 0 <= i < rest.len() && (#[trigger] rest[i]).0 <= s < end_of(rest[i]);
        assert(rest[i] == free[i + 1]);
    }
    assert forall|s: int|
        covers(free, s) <==> (free[0].0 <= s < end_of(free[0]) || covers(rest, s)) by {
        if covers(free, s) {
            let i = choose|i: int| 0 <= i < free.len() && (#[trigger] free[i]).0 <= s < end_of(free[i]);
            if i > 0 {
                assert(rest[i - 1] == free[i]);
            }
        }
        if covers(rest, s) {
            let i = choose|i: int| 0 <= i < rest.len() && (#[trigger] rest[i]).0 <= s < end_of(rest[i]);
            assert(rest[i] == free[i + 1]);
        }
    }
}

/// A request is granted in full where the free list holds enough, and is
/// granted all that is free otherwise; what is granted leaves the free list.
pub proof fn lemma_request_totals(free: Seq<Extent>, amount: int)
    requires
        0 <= amount,
    ensures
        total_len(granted(free, amount)) == min_int(amount, total_len(free)),
        total_len(remaining(free, amount)) == total_len(free) - min_int(amount, total_len(free)),
    decreases free.len(),
{
    if free.len() == 0 || amount <= 0 {
        lemma_total_len_nonneg(free);
    } else if free[0].1 <= amount {
        let rest = free.drop_first();
        lemma_request_totals(rest, amount - free[0].1);
        lemma_total_len_nonneg(rest);
        let g = granted(rest, amount - free[0].1);
        assert((seq![free[0]] + g).drop_first() =~= g);
    } else {
        let rest = free.drop_first();
        lemma_total_len_nonneg(rest);
        let g = granted(free, amount);
        assert(g.drop_first() =~= Seq::<Extent>::empty());
        assert(total_len(g.drop_first()) == 0);
        let r = remaining(free, amount);
        assert(r.drop_first() =~= rest);
    }
}

/// A total of lengths is never negative.
pub proof fn lemma_total_len_nonneg(extents: Seq<Extent>)
    ensures
        0 <= total_len(extents),
    decreases extents.len(),
{
    if extents.len() > 0 {
        lemma_total_len_nonneg(extents.drop_first());
    }
}

/// A request splits the free sectors in two: those granted, which all lie
/// below those that stay free. Both parts are free lists again.
pub proof fn lemma_request_splits(free: Seq<Extent>, limit: int, amount: int)
    requires
        free_list_wf(free, limit),
        limit <= u64::MAX,
        0 <= amount,
    ensures
        free_list_wf(granted(free, amount), limit),
        free_list_wf(remaining(free, amount), limit),
        forall|s: int|
            covers(free, s) <==> (covers(granted(free, amount), s) || covers(
                remaining(free, amount),
                s,
            )),
        forall|s: int, t: int|
            covers(granted(free, amount), s) && covers(remaining(free, amount), t) ==> s < t,
    decreases free.len(),
{
    let g = granted(free, amount);
    let r = remaining(free, amount);
    if free.len() == 0 || amount <= 0 {
    } else if free[0].1 <= amount {
        let rest = free.drop_first();
        let g1 = granted(rest, amount - free[0].1);
        lemma_free_list_tail(free, limit);
        lemma_request_splits(rest, limit, amount - free[0].1);
        assert(g =~= seq![free[0]] + g1);
        assert(g.drop_first() =~= g1);
        assert forall|s: int| covers(g, s) <==> (free[0].0 <= s < end_of(free[0]) || covers(g1, s)) by {
            if covers(g, s) {
                let i = choose|i: int| 0 <= i < g.len() && (#[trigger] g[i]).0 <= s < end_of(g[i]);
                if i > 0 {
                    assert(g1[i - 1] == g[i]);
                }
            }
            if covers(g1, s) {
                let i = choose|i: int| 0 <= i < g1.len() && (#[trigger] g1[i]).0 <= s < end_of(g1[i]);
                assert(g[i + 1] == g1[i]);
            }
            if free[0].0 <= s < end_of(free[0]) {
                assert(g[0] == free[0]);
            }
        }
        assert forall|i: int| 0 <= i < g.len() implies (#[trigger] g[i]).1 > 0 && end_of(g[i])
            <= limit by {
            if i > 0 {
                assert(g[i] == g1[i - 1]);
            }
        }
        assert forall|i: int, j: int| 0 <= i < j < g.len() implies end_of(#[trigger] g[i]) < (
        #[trigger] g[j]).0 by {
            assert(g[j] == g1[j - 1]);
            if i > 0 {
                assert(g[i] == g1[i - 1]);
            } else {
                assert(covers(g1, g1[j - 1].0 as int));
                assert(covers(rest, g1[j - 1].0 as int));
            }
        }
        assert forall|s: int, t: int| covers(g, s) && covers(r, t) implies s < t by {
            if free[0].0 <= s < end_of(free[0]) {
                assert(covers(rest, t));
            } else {
                assert(covers(g1, s));
            }
        }
    } else {
        let rest = free.drop_first();
        lemma_free_list_tail(free, limit);
        let head: Extent = ((free[0].0 + amount) as u64, (free[0].1 - amount) as u64);
        assert(r =~= seq![head] + rest);
        assert forall|i: int| 0 <= i < r.len() implies (#[trigger] r[i]).1 > 0 && end_of(r[i])
            <= limit by {
            if i > 0 {
                assert(r[i] == free[i]);
            }
        }
        assert forall|i: int, j: int| 0 <= i < j < r.len() implies end_of(#[trigger] r[i]) < (
        #[trigger] r[j]).0 by {
            assert(r[j] == free[j]);
            if i > 0 {
                assert(r[i] == free[i]);
            }
        }
        assert forall|s: int| covers(r, s) <==> (head.0 <= s < end_of(head) || covers(rest, s)) by {
            if covers(r, s) {
                let i = choose|i: int| 0 <= i < r.len() && (#[trigger] r[i]).0 <= s < end_of(r[i]);
                if i > 0 {
                    assert(rest[i - 1] == r[i]);
                }
            }
            if covers(rest, s) {
                let i = choose|i: int| 0 <= i < rest.len() && (#[trigger] rest[i]).0 <= s < end_of(rest[i]);
                assert(r[i + 1] == rest[i]);
            }
            if head.0 <= s < end_of(head) {
                assert(r[0] == head);
            }
        }
        assert forall|s: int| covers(g, s) <==> free[0].0 <= s < free[0].0 + amount by {
            if covers(g, s) {
                let i = choose|i: int| 0 <= i < g.len() && (#[trigger] g[i]).0 <= s < end_of(g[i]);
            }
            if free[0].0 <= s < free[0].0 + amount {
                assert(g[0].0 <= s < end_of(g[0]));
            }
        }
        assert forall|s: int, t: int| covers(g, s) && covers(r, t) implies s < t by {
            assert(free[0].0 <= s < free[0].0 + amount);
            assert(head.0 <= t < end_of(head) || covers(rest, t));
        }
    }
}

/// Dropping the first extent of a list in use leaves a list in use, whose
/// extents all start at or after the end of the one dropped.
pub proof fn lemma_used_list_tail(used: Seq<Extent>, limit: int)
    requires
        used_list_wf(used, limit),
        used.len() > 0,
    ensures
        used_list_wf(used.drop_first(), limit),
        forall|i: int|
            0 <= i < used.drop_first().len() ==> end_of(used[0]) <= (#[trigger] used.drop_first()[i]).0,
        forall|s: int|
            covers(used, s) <==> (used[0].0 <= s < end_of(used[0]) || covers(used.drop_first(), s)),
{
    let rest = used.drop_first();
    assert forall|i: int| 0 <= i < rest.len() implies (#[trigger] rest[i]).1 > 0 && end_of(rest[i])
        <= limit && end_of(used[0]) <= rest[i].0 by {
        assert(rest[i] == used[i + 1]);
    }
    assert forall|i: int, j: int| 0 <= i < j < rest.len() implies end_of(#[trigger] rest[i]) <= (
    #[trigger] rest[j]).0 by {
        assert(rest[i] == used[i + 1]);
        assert(rest[j] == used[j + 1]);
    }
    assert forall|s: int|
        covers(used, s) <==> (used[0].0 <= s < end_of(used[0]) || covers(rest, s)) by {
        if covers(used, s) {
            let i = choose|i: int| 0 <= i < used.len() && (#[trigger] used[i]).0 <= s < end_of(used[i]);
            if i > 0 {
                assert(rest[i - 1] == used[i]);
            }
        }
        if covers(rest, s) {
            let i = choose|i: int| 0 <= i < rest.len() && (#[trigger] rest[i]).0 <= s < end_of(rest[i]);
            assert(rest[i] == used[i + 1]);
        }
    }
}

/// The gaps that a list in use leaves are a free list, and they hold exactly
/// the sectors of `[from, limit)` that are not in use.
pub proof fn lemma_gaps(used: Seq<Extent>, from: int, limit: int)
    requires
        used_list_wf(used, limit),
        0 <= from <= limit <= u64::MAX,
        forall|i: int| 0 <= i < used.len() ==> from <= (#[trigger] used[i]).0,
    ensures
        free_list_wf(gaps(used, from, limit), limit),
        forall|i: int|
            0 <= i < gaps(used, from, limit).len() ==> from <= (#[trigger] gaps(used, from, limit)[i]).0,
        forall|s: int|
            covers(gaps(used, from, limit), s) <==> (from <= s < limit && !covers(used, s)),
    decreases used.len(),
{
    let g = gaps(used, from, limit);
    if used.len() == 0 {
        assert forall|s: int| covers(g, s) <==> (from <= s < limit && !covers(used, s)) by {
            if from <= s < limit {
                assert(g[0].0 <= s < end_of(g[0]));
            }
        }
    } else {
        let rest = used.drop_first();
        let next = end_of(used[0]);
        let g1 = gaps(rest, next, limit);
        lemma_used_list_tail(used, limit);
        lemma_gaps(rest, next, limit);
        if from < used[0].0 {
            let head: Extent = (from as u64, (used[0].0 - from) as u64);
            assert(g =~= seq![head] + g1);
            assert forall|i: int| 0 <= i < g.len() implies (#[trigger] g[i]).1 > 0 && end_of(g[i])
                <= limit && from <= g[i].0 by {
                if i > 0 {
                    assert(g[i] == g1[i - 1]);
                }
            }
            assert forall|i: int, j: int| 0 <= i < j < g.len() implies end_of(#[trigger] g[i]) < (
            #[trigger] g[j]).0 by {
                assert(g[j] == g1[j - 1]);
                if i > 0 {
                    assert(g[i] == g1[i - 1]);
                }
            }
            assert forall|s: int| covers(g, s) <==> (from <= s < used[0].0 || covers(g1, s)) by {
                if covers(g, s) {
                    let i = choose|i: int| 0 <= i < g.len() && (#[trigger] g[i]).0 <= s < end_of(g[i]);
                    if i > 0 {
                        assert(g1[i - 1] == g[i]);
                    }
                }
                if covers(g1, s) {
                    let i = choose|i: int| 0 <= i < g1.len() && (#[trigger] g1[i]).0 <= s < end_of(g1[i]);
                    assert(g[i + 1] == g1[i]);
                }
                if from <= s < used[0].0 {
                    assert(g[0].0 <= s < end_of(g[0]));
                }
            }
        } else {
            assert(g == g1);
        }
        assert forall|s: int| covers(g, s) <==> (from <= s < limit && !covers(used, s)) by {
            if covers(rest, s) {
                let i = choose|i: int| 0 <= i < rest.len() && (#[trigger] rest[i]).0 <= s < end_of(rest[i]);
            }
        }
    }
}

/// The free space of one device.
#[derive(Debug)]
pub struct RangeAllocator {
    limit: Sectors,
    free: Vec<Extent>,
}

impl RangeAllocator {
    /// The number of sectors that the allocator covers.
    pub closed spec fn limit(&self) -> Sectors {
        self.limit
    }

    /// The free extents, in ascending order.
    pub closed spec fn free(&self) -> Seq<Extent> {
        self.free@
    }

    /// The free extents form a free list below the limit.
    pub open spec fn wf(&self) -> bool {
        free_list_wf(self.free(), self.limit() as int)
    }

    /// Sector `s` is free.
    pub open spec fn is_free(&self, s: int) -> bool {
        covers(self.free(), s)
    }

    /// Sector `s` is below the limit and in use.
    pub open spec fn is_used(&self, s: int) -> bool {
        0 <= s < self.limit() && !covers(self.free(), s)
    }

    /// The number of free sectors.
    pub open spec fn spec_available(&self) -> int {
        total_len(self.free())
    }

    /// An allocator for `limit` sectors in which the extents of `used` are in
    /// use and all else is free. Fails with `Invalid` where `used` holds an
    /// empty extent, one that ends above the limit, or two that overlap or do
    /// not ascend.
    pub fn new_with_used(limit: Sectors, used: &Vec<Extent>) -> (res: EngineResult<RangeAllocator>)
        ensures
            res is Ok <==> used_list_wf(used@, limit as int),
            res is Err ==> res->Err_0.is_invalid(),
            res matches Ok(alloc) ==> {
                &&& alloc.wf()
                &&& alloc.limit() == limit
                &&& alloc.free() == gaps(used@, 0, limit as int)
                &&& forall|s: int| alloc.is_used(s) <==> covers(used@, s)
            },
    {
        let mut free: Vec<Extent> = Vec::new();
        let mut from: Sectors = 0;
        let mut i: usize = 0;
        proof {
            assert(used@.subrange(0, used.len() as int) =~= used@);
            assert(free@ + gaps(used@, 0, limit as int) =~= gaps(used@, 0, limit as int));
        }
        while i < used.len()
            invariant
                0 <= i <= used.len(),
                0 <= from <= limit,
                used_list_wf(used@.subrange(0, i as int), limit as int),
                i == 0 ==> from == 0,
                i > 0 ==> from == end_of(used@[i - 1]),
                free@ + gaps(used@.subrange(i as int, used.len() as int), from as int, limit as int)
                    == gaps(used@, 0, limit as int),
            decreases used.len() - i,
        {
            let (start, len) = used[i];
            let ghost tail = used@.subrange(i as int, used.len() as int);
            assert(tail[0] == used@[i as int]);
            assert(tail.drop_first() =~= used@.subrange(i + 1, used.len() as int));
            if len == 0 || start < from || start > limit || len > limit - start {
                proof {
                    if used_list_wf(used@, limit as int) {
                        lemma_prefix_end(used@, i as int, from as int, limit as int);
                    }
                }
                return Err(EngineError::invalid(String::from_str("ranges in use are malformed")));
            }
            let ghost before = free@;
            if from < start {
                free.push((from, start - from));
            }
            proof {
                let rest = gaps(tail.drop_first(), end_of(tail[0]), limit as int);
                assert(free@ + rest =~= before + gaps(tail, from as int, limit as int));
                let prefix = used@.subrange(0, i + 1);
                assert forall|k: int| 0 <= k < prefix.len() implies (#[trigger] prefix[k]).1 > 0
                    && end_of(prefix[k]) <= limit by {
                    if k < i {
                        assert(prefix[k] == used@.subrange(0, i as int)[k]);
                    }
                }
                assert forall|a: int, b: int| 0 <= a < b < prefix.len() implies end_of(
                    #[trigger] prefix[a],
                ) <= (#[trigger] prefix[b]).0 by {
                    if b < i {
                        assert(prefix[a] == used@.subrange(0, i as int)[a]);
                        assert(prefix[b] == used@.subrange(0, i as int)[b]);
                    } else if a == i - 1 {
                        assert(prefix[a] == used@[i - 1]);
                    } else {
                        assert(prefix[a] == used@.subrange(0, i as int)[a]);
                        assert(used@.subrange(0, i as int)[i - 1] == used@[i - 1]);
                    }
                }
            }
            from = start + len;
            i = i + 1;
        }
        if from < limit {
            free.push((from, limit - from));
        }
        proof {
            assert(used@.subrange(0, used.len() as int) =~= used@);
            assert(used@.subrange(used.len() as int, used.len() as int) =~= Seq::<Extent>::empty());
            assert(free@ == gaps(used@, 0, limit as int));
            lemma_gaps(used@, 0, limit as int);
        }
        Ok(RangeAllocator { limit, free })
    }

    /// The number of sectors that the allocator covers.
    pub fn size(&self) -> (limit: Sectors)
        ensures
            limit == self.limit(),
    {
        self.limit
    }

    /// The number of free sectors.
    pub fn available(&self) -> (avail: Sectors)
        requires
            self.wf(),
        ensures
            avail == self.spec_available(),
            avail <= self.limit(),
    {
        let mut avail: Sectors = 0;
        let mut i: usize = 0;
        proof {
            assert(self.free@.subrange(0, self.free.len() as int) =~= self.free@);
            lemma_total_len_bound(self.free@, self.limit as int);
        }
        while i < self.free.len()
            invariant
                0 <= i <= self.free.len(),
                avail + total_len(self.free@.subrange(i as int, self.free.len() as int)) == total_len(
                    self.free@,
                ),
                0 <= total_len(self.free@) <= self.limit || self.free.len() == 0,
            decreases self.free.len() - i,
        {
            proof {
                let tail = self.free@.subrange(i as int, self.free.len() as int);
                assert(tail.drop_first() =~= self.free@.subrange(i + 1, self.free.len() as int));
                lemma_total_len_nonneg(tail.drop_first());
            }
            avail = avail + self.free[i].1;
            i = i + 1;
        }
        avail
    }

    /// The number of sectors in use.
    pub fn used(&self) -> (used: Sectors)
        requires
            self.wf(),
        ensures
            used == self.limit() - self.spec_available(),
    {
        self.limit - self.available()
    }

    /// Takes `amount` sectors from the free space, lowest sector first, or
    /// all of it where less is free. Returns the number of sectors granted
    /// and the extents granted, in ascending order; they are in use from now
    /// on.
    pub fn request(&mut self, amount: Sectors) -> (res: (Sectors, Vec<Extent>))
        requires
            old(self).wf(),
        ensures
            final(self).wf(),
            final(self).limit() == old(self).limit(),
            final(self).free() == remaining(old(self).free(), amount as int),
            res.1@ == granted(old(self).free(), amount as int),
            res.0 == min_int(amount as int, old(self).spec_available()),
            res.0 == total_len(res.1@),
            final(self).spec_available() == old(self).spec_available() - res.0,
            forall|s: int| old(self).is_used(s) ==> final(self).is_used(s),
            forall|s: int| covers(res.1@, s) ==> old(self).is_free(s) && final(self).is_used(s),
    {
        let mut needed: Sectors = amount;
        let mut segs: Vec<Extent> = Vec::new();
        proof {
            assert(segs@ + granted(self.free@, needed as int) =~= granted(self.free@, amount as int));
        }
        while needed > 0 && self.free.len() > 0
            invariant
                self.limit == old(self).limit,
                free_list_wf(self.free@, self.limit as int),
                0 <= needed <= amount,
                segs@ + granted(self.free@, needed as int) == granted(old(self).free@, amount as int),
                remaining(self.free@, needed as int) == remaining(old(self).free@, amount as int),
                total_len(segs@) == amount - needed,
            decreases self.free.len(), needed,
        {
            let (start, len) = self.free[0];
            let ghost before = self.free@;
            let ghost segs_before = segs@;
            proof {
                lemma_free_list_tail(before, self.limit as int);
                lemma_total_len_push(segs@, (start, if len <= needed { len } else { needed }));
            }
            if len <= needed {
                self.free.remove(0);
                segs.push((start, len));
                needed = needed - len;
                proof {
                    assert(self.free@ =~= before.drop_first());
                    assert(segs@ + granted(self.free@, needed as int) =~= segs_before + granted(
                        before,
                        needed + len,
                    ));
                }
            } else {
                self.free.set(0, (start + needed, len - needed));
                segs.push((start, needed));
                proof {
                    assert(self.free@ =~= remaining(before, needed as int));
                    lemma_request_splits(before, self.limit as int, needed as int);
                    assert(segs@ + granted(self.free@, 0) =~= segs_before + granted(
                        before,
                        needed as int,
                    ));
                }
                needed = 0;
            }
        }
        proof {
            assert(segs@ =~= segs@ + Seq::<Extent>::empty());
            lemma_request_totals(old(self).free@, amount as int);
            lemma_total_len_bound(old(self).free@, self.limit as int);
            lemma_request_splits(old(self).free@, self.limit as int, amount as int);
            assert forall|s: int| covers(segs@, s) implies old(self).is_free(s) && self.is_used(s) by {
                let free = old(self).free@;
                let k = choose|k: int| 0 <= k < free.len() && (#[trigger] free[k]).0 <= s < end_of(free[k]);
                if covers(self.free@, s) {
                    // A sector cannot be granted and stay free: what is
                    // granted lies below what stays free.
                    assert(s < s);
                }
            }
        }
        (amount - needed, segs)
    }
}

/// Where a prefix of a well-formed list in use ends, the next extent starts
/// no earlier, is not empty, and ends at or below the limit.
proof fn lemma_prefix_end(used: Seq<Extent>, i: int, from: int, limit: int)
    requires
        used_list_wf(used, limit),
        0 <= i < used.len(),
        from == 0 || (i > 0 && from == end_of(used[i - 1])),
    ensures
        used[i].1 > 0,
        from <= used[i].0 <= limit,
        used[i].1 <= limit - used[i].0,
{
}

/// Where the first `reserved` sectors of `limit` are in use, the rest is
/// free.
pub proof fn lemma_fresh_available(reserved: Sectors, limit: Sectors)
    requires
        0 < reserved <= limit,
    ensures
        total_len(gaps(seq![(0u64, reserved)], 0, limit as int)) == limit - reserved,
{
    let used = seq![(0u64, reserved)];
    assert(used.drop_first() =~= Seq::<Extent>::empty());
    let g = gaps(used, 0, limit as int);
    assert(g == gaps(used.drop_first(), reserved as int, limit as int));
    if reserved < limit {
        assert(g.drop_first() =~= Seq::<Extent>::empty());
        assert(total_len(g.drop_first()) == 0);
    }
}

} // verus!
