//! Slot ranges and the predicates that say when the ranges of a cluster
//! partition the slot space.

use vstd::prelude::*;

verus! {

/// Number of logical slots; the slot space is `[0, SLOT_MAX)`.
pub const SLOT_MAX: usize = 16384;

/// Identity of a single slot-range handoff: the epoch at which it was
/// planned together with the four endpoints involved.
#[derive(Clone, Debug, PartialEq)]
pub struct MigrationMeta {
    pub epoch: u64,
    pub src_proxy_address: String,
    pub src_node_address: String,
    pub dst_proxy_address: String,
    pub dst_node_address: String,
}

impl MigrationMeta {
    /// Spec-level equality: field by field, strings by their characters.
    pub open spec fn same(self, other: MigrationMeta) -> bool {
        &&& self.epoch == other.epoch
        &&& self.src_proxy_address@ == other.src_proxy_address@
        &&& self.src_node_address@ == other.src_node_address@
        &&& self.dst_proxy_address@ == other.dst_proxy_address@
        &&& self.dst_node_address@ == other.dst_node_address@
    }

    /// Structural copy; cloning each string keeps its characters.
    pub fn duplicate(&self) -> (r: MigrationMeta)
        ensures
            r.same(*self),
    {
        MigrationMeta {
            epoch: self.epoch,
            src_proxy_address: self.src_proxy_address.clone(),
            src_node_address: self.src_node_address.clone(),
            dst_proxy_address: self.dst_proxy_address.clone(),
            dst_node_address: self.dst_node_address.clone(),
        }
    }

    /// Decides spec-level equality of two metas.
    pub fn eq_meta(&self, other: &MigrationMeta) -> (r: bool)
        ensures
            r == self.same(*other),
    {
        self.epoch == other.epoch
            && self.src_proxy_address == other.src_proxy_address
            && self.src_node_address == other.src_node_address
            && self.dst_proxy_address == other.dst_proxy_address
            && self.dst_node_address == other.dst_node_address
    }
}

/// Marking of a slot range: stable, handing its slots away, or receiving
/// them.
#[derive(Clone, Debug, PartialEq)]
pub enum SlotRangeTag {
    Stable,
    Migrating(MigrationMeta),
    Importing(MigrationMeta),
}

impl SlotRangeTag {
    pub open spec fn same(self, other: SlotRangeTag) -> bool {
        match (self, other) {
            (SlotRangeTag::Stable, SlotRangeTag::Stable) => true,
            (SlotRangeTag::Migrating(a), SlotRangeTag::Migrating(b)) => a.same(b),
            (SlotRangeTag::Importing(a), SlotRangeTag::Importing(b)) => a.same(b),
            _ => false,
        }
    }

    pub fn duplicate(&self) -> (r: SlotRangeTag)
        ensures
            r.same(*self),
    {
        match self {
            SlotRangeTag::Stable => SlotRangeTag::Stable,
            SlotRangeTag::Migrating(m) => SlotRangeTag::Migrating(m.duplicate()),
            SlotRangeTag::Importing(m) => SlotRangeTag::Importing(m.duplicate()),
        }
    }
}

/// A half-open interval `[start, end)` of slots with its migration tag.
#[derive(Clone, Debug, PartialEq)]
pub struct SlotRange {
    pub start: usize,
    pub end: usize,
    pub tag: SlotRangeTag,
}

impl SlotRange {
    pub open spec fn same(self, other: SlotRange) -> bool {
        self.start == other.start && self.end == other.end && self.tag.same(other.tag)
    }

    pub fn duplicate(&self) -> (r: SlotRange)
        ensures
            r.same(*self),
            r.start == self.start,
            r.end == self.end,
    {
        SlotRange { start: self.start, end: self.end, tag: self.tag.duplicate() }
    }
}

/// A range is well formed when it is non-empty and stays inside the slot
/// space.
pub open spec fn range_valid(r: SlotRange) -> bool {
    r.start < r.end <= SLOT_MAX
}

pub open spec fn ranges_valid(rs: Seq<SlotRange>) -> bool {
    forall|k: int| 0 <= k < rs.len() ==> range_valid(#[trigger] rs[k])
}

/// A range owns a slot when the slot lies inside it and the range is not
/// merely importing: during a migration the source side keeps ownership.
pub open spec fn owned_at(r: SlotRange, s: int) -> bool {
    !(r.tag is Importing) && r.start <= s < r.end
}

/// Some range of the list owns the slot.
pub open spec fn list_owns(rs: Seq<SlotRange>, s: int) -> bool {
    exists|k: int| 0 <= k < rs.len() && owned_at(#[trigger] rs[k], s)
}

/// No slot is owned by two distinct ranges of the list.
pub open spec fn list_disjoint(rs: Seq<SlotRange>) -> bool {
    forall|k1: int, k2: int, s: int|
        0 <= k1 < rs.len() && 0 <= k2 < rs.len() && k1 != k2 ==> !(#[trigger] owned_at(
            rs[k1],
            s,
        ) && #[trigger] owned_at(rs[k2], s))
}

/// Two lists own exactly the same slots.
pub open spec fn same_owned(a: Seq<SlotRange>, b: Seq<SlotRange>) -> bool {
    forall|s: int| #[trigger] list_owns(a, s) == list_owns(b, s)
}

/// Left endpoint of the `t`-th piece when the slot space is cut into
/// pieces of size `base` with the first `rem` pieces one slot longer.
pub open spec fn part_bound(t: int, base: int, rem: int) -> int {
    t * base + if t <= rem {
        t
    } else {
        rem
    }
}

/// Advancing one piece adds `base` slots, plus one while long pieces
/// remain.
pub proof fn lemma_part_bound_step(t: int, base: int, rem: int)
    requires
        0 <= t,
        0 <= rem,
    ensures
        part_bound(t + 1, base, rem) == part_bound(t, base, rem) + base + if t < rem {
            1int
        } else {
            0int
        },
{
    assert((t + 1) * base == t * base + base) by (nonlinear_arith);
}

/// The piece boundaries grow with the index.
pub proof fn lemma_part_bound_mono(t1: int, t2: int, base: int, rem: int)
    requires
        0 <= t1 <= t2,
        0 <= rem,
        base >= 1,
    ensures
        part_bound(t1, base, rem) <= part_bound(t2, base, rem),
        part_bound(t1, base, rem) + (t2 - t1) <= part_bound(t2, base, rem),
    decreases t2 - t1,
{
    if t1 < t2 {
        lemma_part_bound_step(t2 - 1, base, rem);
        lemma_part_bound_mono(t1, t2 - 1, base, rem);
    }
}

/// Mark the trailing `amount` slots of the stable range at `idx` as
/// migrating away under `meta`: either the whole range is retagged or its
/// tail is split off.  The owned slots do not change.  Returns the first
/// migrated slot.
pub fn split_tail_migrating(
    slots: &mut Vec<SlotRange>,
    idx: usize,
    amount: usize,
    meta: MigrationMeta,
) -> (cut: usize)
    requires
        idx < old(slots)@.len(),
        old(slots)@[idx as int].tag is Stable,
        ranges_valid(old(slots)@),
        list_disjoint(old(slots)@),
        1 <= amount <= old(slots)@[idx as int].end - old(slots)@[idx as int].start,
    ensures
        ranges_valid(final(slots)@),
        list_disjoint(final(slots)@),
        same_owned(old(slots)@, final(slots)@),
        cut == old(slots)@[idx as int].end - amount,
        amount == old(slots)@[idx as int].end - old(slots)@[idx as int].start ==> final(slots)@
            == old(slots)@.update(
            idx as int,
            SlotRange {
                start: old(slots)@[idx as int].start,
                end: old(slots)@[idx as int].end,
                tag: SlotRangeTag::Migrating(meta),
            },
        ),
        amount < old(slots)@[idx as int].end - old(slots)@[idx as int].start ==> final(slots)@
            == old(slots)@.update(
            idx as int,
            SlotRange {
                start: old(slots)@[idx as int].start,
                end: (old(slots)@[idx as int].end - amount) as usize,
                tag: SlotRangeTag::Stable,
            },
        ).push(
            SlotRange {
                start: (old(slots)@[idx as int].end - amount) as usize,
                end: old(slots)@[idx as int].end,
                tag: SlotRangeTag::Migrating(meta),
            },
        ),
{
    let ghost pre = slots@;
    let s = slots[idx].start;
    let e = slots[idx].end;
    if amount == e - s {
        let r = &mut slots[idx];
        r.tag = SlotRangeTag::Migrating(meta);
        proof {
            let post = slots@;
            assert forall|x: int| #[trigger] list_owns(pre, x) == list_owns(post, x) by {
                if list_owns(pre, x) {
                    let k = choose|k: int| 0 <= k < pre.len() && owned_at(#[trigger] pre[k], x);
                    assert(owned_at(post[k], x));
                }
                if list_owns(post, x) {
                    let k = choose|k: int| 0 <= k < post.len() && owned_at(#[trigger] post[k], x);
                    assert(owned_at(pre[k], x));
                }
            }
            assert forall|k1: int, k2: int, x: int|
                0 <= k1 < post_len(post) && 0 <= k2 < post_len(post) && k1 != k2 implies !(
            #[trigger] owned_at(post[k1], x) && #[trigger] owned_at(post[k2], x)) by {
                if owned_at(post[k1], x) && owned_at(post[k2], x) {
                    assert(owned_at(pre[k1], x) && owned_at(pre[k2], x));
                }
            }
        }
        s
    } else {
        let r = &mut slots[idx];
        r.end = e - amount;
        slots.push(SlotRange { start: e - amount, end: e, tag: SlotRangeTag::Migrating(meta) });
        proof {
            let post = slots@;
            let last = post.len() - 1;
            assert forall|x: int| #[trigger] list_owns(pre, x) == list_owns(post, x) by {
                if list_owns(pre, x) {
                    let k = choose|k: int| 0 <= k < pre.len() && owned_at(#[trigger] pre[k], x);
                    if k == idx {
                        if x < e - amount {
                            assert(owned_at(post[k], x));
                        } else {
                            assert(owned_at(post[last], x));
                        }
                    } else {
                        assert(owned_at(post[k], x));
                    }
                }
                if list_owns(post, x) {
                    let k = choose|k: int| 0 <= k < post.len() && owned_at(#[trigger] post[k], x);
                    if k == last {
                        assert(owned_at(pre[idx as int], x));
                    } else {
                        assert(owned_at(pre[k], x));
                    }
                }
            }
            assert forall|k1: int, k2: int, x: int|
                0 <= k1 < post_len(post) && 0 <= k2 < post_len(post) && k1 != k2 implies !(
            #[trigger] owned_at(post[k1], x) && #[trigger] owned_at(post[k2], x)) by {
                if owned_at(post[k1], x) && owned_at(post[k2], x) {
                    let q1: int = if k1 == last {
                        idx as int
                    } else {
                        k1
                    };
                    let q2: int = if k2 == last {
                        idx as int
                    } else {
                        k2
                    };
                    assert(owned_at(pre[q1], x));
                    assert(owned_at(pre[q2], x));
                    if q1 == q2 {
                        assert(k1 == last || k2 == last);
                        assert(q1 == idx);
                        assert(x < e - amount && x >= e - amount);
                    }
                }
            }
        }
        e - amount
    }
}

/// Length of the list, for stable triggers in proofs above.
pub open spec fn post_len(rs: Seq<SlotRange>) -> int {
    rs.len() as int
}

/// Append a range imported from elsewhere.  Imported ranges own nothing,
/// so the owned slots do not change.
pub fn push_importing(slots: &mut Vec<SlotRange>, start: usize, end: usize, meta: MigrationMeta)
    requires
        start < end <= SLOT_MAX,
        ranges_valid(old(slots)@),
        list_disjoint(old(slots)@),
    ensures
        ranges_valid(final(slots)@),
        list_disjoint(final(slots)@),
        same_owned(old(slots)@, final(slots)@),
        final(slots)@ == old(slots)@.push(
            SlotRange { start, end, tag: SlotRangeTag::Importing(meta) },
        ),
{
    let ghost pre = slots@;
    slots.push(SlotRange { start, end, tag: SlotRangeTag::Importing(meta) });
    proof {
        let post = slots@;
        let last = post.len() - 1;
        assert forall|x: int| #[trigger] list_owns(pre, x) == list_owns(post, x) by {
            if list_owns(pre, x) {
                let k = choose|k: int| 0 <= k < pre.len() && owned_at(#[trigger] pre[k], x);
                assert(owned_at(post[k], x));
            }
            if list_owns(post, x) {
                let k = choose|k: int| 0 <= k < post.len() && owned_at(#[trigger] post[k], x);
                assert(k != last);
                assert(owned_at(pre[k], x));
            }
        }
        assert forall|k1: int, k2: int, x: int|
            0 <= k1 < post_len(post) && 0 <= k2 < post_len(post) && k1 != k2 implies !(
        #[trigger] owned_at(post[k1], x) && #[trigger] owned_at(post[k2], x)) by {
            if owned_at(post[k1], x) && owned_at(post[k2], x) {
                assert(k1 != last && k2 != last);
                assert(owned_at(pre[k1], x) && owned_at(pre[k2], x));
            }
        }
    }
}

/// Every slot below the last boundary lies in exactly one piece.
pub proof fn lemma_part_bound_locate(s: int, m: int, base: int, rem: int) -> (t: int)
    requires
        0 <= rem,
        base >= 1,
        1 <= m,
        part_bound(0, base, rem) <= s < part_bound(m, base, rem),
    ensures
        0 <= t < m,
        part_bound(t, base, rem) <= s < part_bound(t + 1, base, rem),
    decreases m,
{
    lemma_part_bound_step(m - 1, base, rem);
    if s >= part_bound(m - 1, base, rem) {
        m - 1
    } else {
        lemma_part_bound_locate(s, m - 1, base, rem)
    }
}

} // verus!
