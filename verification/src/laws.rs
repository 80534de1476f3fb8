//! The library-wide laws, stated once over the store's model and proved
//! from its invariant and the operations' contracts.

use vstd::prelude::*;

use crate::slots::SLOT_MAX;
use crate::store::MetaStore;

verus! {

/// The address appears in some chunk of cluster `i`.
pub open spec fn appears_at(s: MetaStore, a: Seq<char>, i: int) -> bool {
    exists|j: int|
        0 <= j < s.clusters@[i].chunks@.len() && ((#[trigger] s.clusters@[i].chunks@[j]).first.address@
            == a || s.clusters@[i].chunks@[j].second.address@ == a)
}

/// In any store reachable through the verified operations, the slot
/// ranges of every cluster partition the slot space: each of the
/// `SLOT_MAX` slots is owned by exactly one replication pair.
pub proof fn lemma_cluster_slots_partition(s: MetaStore, i: int)
    requires
        s.inv(),
        0 <= i < s.clusters@.len(),
    ensures
        forall|slot: int| 0 <= slot < SLOT_MAX as int ==> s.clusters@[i].owns(slot),
        forall|j1: int, j2: int, slot: int|
            0 <= j1 < s.clusters@[i].chunks@.len() && 0 <= j2 < s.clusters@[i].chunks@.len() && j1
                != j2 ==> !(#[trigger] s.clusters@[i].chunks@[j1].owns(slot)
                && #[trigger] s.clusters@[i].chunks@[j2].owns(slot)),
{
    assert(s.clusters@[i].wf());
}

/// A proxy belongs to at most one cluster: the same address cannot stand
/// in the chunks of two distinct clusters.
pub proof fn lemma_proxy_in_at_most_one_cluster(s: MetaStore, a: Seq<char>, i1: int, i2: int)
    requires
        s.inv(),
        0 <= i1 < s.clusters@.len(),
        0 <= i2 < s.clusters@.len(),
        appears_at(s, a, i1),
        appears_at(s, a, i2),
    ensures
        i1 == i2,
{
    let j1 = choose|j: int|
        0 <= j < s.clusters@[i1].chunks@.len() && ((#[trigger] s.clusters@[i1].chunks@[j]).first.address@
            == a || s.clusters@[i1].chunks@[j].second.address@ == a);
    let j2 = choose|j: int|
        0 <= j < s.clusters@[i2].chunks@.len() && ((#[trigger] s.clusters@[i2].chunks@[j]).first.address@
            == a || s.clusters@[i2].chunks@[j].second.address@ == a);
    assert(s.has_proxy_bound(a, s.clusters@[i1].name@));
    assert(s.has_proxy_bound(a, s.clusters@[i2].name@));
    let p1 = choose|p: int|
        0 <= p < s.all_proxies@.len() && (#[trigger] s.all_proxies@[p]).address@ == a
            && s.all_proxies@[p].bound_to(s.clusters@[i1].name@);
    let p2 = choose|p: int|
        0 <= p < s.all_proxies@.len() && (#[trigger] s.all_proxies@[p]).address@ == a
            && s.all_proxies@[p].bound_to(s.clusters@[i2].name@);
    assert(p1 == p2);
    assert(s.clusters@[i1].name@ == s.clusters@[i2].name@);
    if i1 != i2 {
        assert(s.clusters@[i1].name@ != s.clusters@[i2].name@);
    }
}

/// A free proxy stands in no cluster at all.
pub proof fn lemma_free_proxy_in_no_cluster(s: MetaStore, p: int)
    requires
        s.inv(),
        0 <= p < s.all_proxies@.len(),
        s.all_proxies@[p].is_free(),
    ensures
        forall|i: int| 0 <= i < s.clusters@.len() ==> !appears_at(s, s.all_proxies@[p].address@, i),
{
    let a = s.all_proxies@[p].address@;
    assert forall|i: int| 0 <= i < s.clusters@.len() implies !appears_at(s, a, i) by {
        if appears_at(s, a, i) {
            let j = choose|j: int|
                0 <= j < s.clusters@[i].chunks@.len() && ((#[trigger] s.clusters@[i].chunks@[j]).first.address@
                    == a || s.clusters@[i].chunks@[j].second.address@ == a);
            assert(s.has_proxy_bound(a, s.clusters@[i].name@));
            let p2 = choose|p2: int|
                0 <= p2 < s.all_proxies@.len() && (#[trigger] s.all_proxies@[p2]).address@ == a
                    && s.all_proxies@[p2].bound_to(s.clusters@[i].name@);
            assert(p2 == p);
        }
    }
}

/// In every chunk whose two proxies differ, each master's replica lives
/// on the other proxy of the pair: the pair couples one node of each
/// proxy, so whichever is the master, its replica's proxy is the other
/// one.
pub proof fn lemma_replica_on_other_proxy(s: MetaStore, i: int, j: int)
    requires
        s.inv(),
        0 <= i < s.clusters@.len(),
        0 <= j < s.clusters@[i].chunks@.len(),
    ensures
        ({
            let c = s.clusters@[i].chunks@[j];
            let p1_master = if c.pair1_master_on_first {
                c.first.address
            } else {
                c.second.address
            };
            let p1_replica = if c.pair1_master_on_first {
                c.second.address
            } else {
                c.first.address
            };
            let p2_master = if c.pair2_master_on_second {
                c.second.address
            } else {
                c.first.address
            };
            let p2_replica = if c.pair2_master_on_second {
                c.first.address
            } else {
                c.second.address
            };
            p1_master@ != p1_replica@ && p2_master@ != p2_replica@
        }),
{
    assert(s.clusters@[i].wf());
    assert(s.clusters@[i].chunks@[j].wf());
}

/// Under ordered mode the proxies of the single cluster carry exactly
/// the dense indices `0, 1, ..., 2 * chunks - 1`, in chunk order.
pub proof fn lemma_ordered_indices_contiguous(s: MetaStore, j: int)
    requires
        s.inv(),
        s.enable_ordered_proxy,
        s.clusters@.len() == 1,
        0 <= j < s.clusters@[0].chunks@.len(),
    ensures
        2 * j + 1 < s.all_proxies@.len(),
        s.clusters@[0].chunks@[j].first.address@ == s.all_proxies@[2 * j].address@,
        s.clusters@[0].chunks@[j].second.address@ == s.all_proxies@[2 * j + 1].address@,
        s.all_proxies@[2 * j].index == Some((2 * j) as usize),
        s.all_proxies@[2 * j + 1].index == Some((2 * j + 1) as usize),
{
}

} // verus!
