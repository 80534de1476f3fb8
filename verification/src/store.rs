//! The authoritative metadata store: proxies, clusters, chunks, failure
//! reports and epochs, with every mutation bumping the global epoch.

use vstd::prelude::*;

use crate::migration::MigrationTaskMeta;
use crate::slots::{
    lemma_part_bound_locate, lemma_part_bound_mono, lemma_part_bound_step, list_disjoint,
    list_owns, owned_at, part_bound, range_valid, ranges_valid, MigrationMeta, SlotRange,
    SlotRangeTag, SLOT_MAX,
};

verus! {

/// Version stamp carried by a dumped store; a restore refuses other stamps.
pub const META_STORE_VERSION: u64 = 2;

/// Everything a store mutation can refuse with.
#[derive(Clone, Copy, Debug, PartialEq, Eq, Structural)]
pub enum MetaStoreError {
    InUse,
    NotInUse,
    NoAvailableResource,
    ResourceNotBalance,
    AlreadyExisted,
    ClusterNotFound,
    FreeNodeNotFound,
    FreeNodeFound,
    ProxyNotFound,
    InvalidNodeNum,
    NodeNumAlreadyEnough,
    InvalidClusterName,
    InvalidMigrationTask,
    InvalidProxyAddress,
    MigrationTaskNotFound,
    MigrationRunning,
    InvalidConfig,
    SlotsAlreadyEven,
    SyncError,
    InvalidMetaVersion,
    SmallEpoch,
    MissingIndex,
    ProxyResourceOutOfOrder,
    OrderedProxyEnabled,
    OneClusterAlreadyExisted,
    ProxyNotSync,
    NodeNumberChanging,
}

/// One half of a chunk: a proxy with its host and its two storage nodes.
#[derive(Clone, Debug)]
pub struct ChunkProxy {
    pub address: String,
    pub host: String,
    pub node1: String,
    pub node2: String,
}

/// A replication chunk: two proxies, four nodes, two replication pairs.
///
/// Pair one is `first.node1` with `second.node2`; pair two is
/// `second.node1` with `first.node2`.  Each pair has one master and one
/// replica, so whichever node is the master, its replica lives on the
/// other proxy.  The slots of a pair belong to its master.
#[derive(Clone, Debug)]
pub struct Chunk {
    pub first: ChunkProxy,
    pub second: ChunkProxy,
    pub pair1_master_on_first: bool,
    pub pair2_master_on_second: bool,
    pub pair1_slots: Vec<SlotRange>,
    pub pair2_slots: Vec<SlotRange>,
}

impl Chunk {
    /// Both slot lists are well formed and no slot is owned twice inside
    /// the chunk.
    pub open spec fn wf(self) -> bool {
        &&& self.first.address@ != self.second.address@
        &&& ranges_valid(self.pair1_slots@)
        &&& ranges_valid(self.pair2_slots@)
        &&& list_disjoint(self.pair1_slots@)
        &&& list_disjoint(self.pair2_slots@)
        &&& forall|s: int|
            !(#[trigger] list_owns(self.pair1_slots@, s) && #[trigger] list_owns(
                self.pair2_slots@,
                s,
            ))
    }

    /// The chunk owns a slot when either of its pairs does.
    pub open spec fn owns(self, s: int) -> bool {
        list_owns(self.pair1_slots@, s) || list_owns(self.pair2_slots@, s)
    }
}

/// The two lists hold the same ranges, compared by content.
pub open spec fn same_range_seq(a: Seq<SlotRange>, b: Seq<SlotRange>) -> bool {
    a.len() == b.len() && forall|k: int| 0 <= k < a.len() ==> (#[trigger] a[k]).same(b[k])
}

/// A named cluster: an epoch, at least one chunk, and its configuration.
#[derive(Clone, Debug)]
pub struct ClusterStore {
    pub name: String,
    pub epoch: u64,
    pub chunks: Vec<Chunk>,
    pub config: Vec<(String, String)>,
}

impl ClusterStore {
    /// Some chunk of the cluster owns the slot.
    pub open spec fn owns(self, s: int) -> bool {
        exists|j: int| 0 <= j < self.chunks@.len() && (#[trigger] self.chunks@[j]).owns(s)
    }

    /// No slot is owned by two distinct chunks.
    pub open spec fn unique_chunk_owner(self) -> bool {
        forall|j1: int, j2: int, s: int|
            0 <= j1 < self.chunks@.len() && 0 <= j2 < self.chunks@.len() && j1 != j2 ==> !(
            #[trigger] self.chunks@[j1].owns(s) && #[trigger] self.chunks@[j2].owns(s))
    }

    /// The owned ranges of the cluster cover the whole slot space.
    pub open spec fn covers_all(self) -> bool {
        forall|s: int| 0 <= s < SLOT_MAX as int ==> self.owns(s)
    }

    /// The slot ranges of the cluster partition `[0, SLOT_MAX)`.
    pub open spec fn partitioned(self) -> bool {
        self.unique_chunk_owner() && self.covers_all()
    }

    pub open spec fn wf(self) -> bool {
        &&& self.name@.len() > 0
        &&& self.chunks@.len() >= 1
        &&& forall|j: int| 0 <= j < self.chunks@.len() ==> (#[trigger] self.chunks@[j]).wf()
        &&& self.partitioned()
    }
}

/// A registered proxy resource; `cluster` is its binding, `None` while the
/// proxy is free.
#[derive(Clone, Debug)]
pub struct ProxyResource {
    pub address: String,
    pub host: String,
    pub node1: String,
    pub node2: String,
    pub index: Option<usize>,
    pub cluster: Option<String>,
}

impl ProxyResource {
    pub open spec fn is_free(self) -> bool {
        self.cluster is None
    }

    pub open spec fn bound_to(self, name: Seq<char>) -> bool {
        self.cluster matches Some(n) && n@ == name
    }
}

/// One reporter's timestamped witness that a proxy looks dead.
#[derive(Clone, Debug)]
pub struct FailureReport {
    pub reporter_id: String,
    pub reported_at: i64,
}

/// All witnesses collected for one proxy address.
#[derive(Clone, Debug)]
pub struct FailureRecord {
    pub address: String,
    pub reports: Vec<FailureReport>,
}

/// A report is fresh when it is at most `ttl` seconds old at time `now`.
pub open spec fn report_fresh(t: i64, ttl: i64, now: i64) -> bool {
    t as int + ttl as int >= now as int
}

/// Number of fresh reports in a list.
pub open spec fn fresh_count(reports: Seq<FailureReport>, ttl: i64, now: i64) -> nat
    decreases reports.len(),
{
    if reports.len() == 0 {
        0
    } else {
        fresh_count(reports.drop_last(), ttl, now) + if report_fresh(
            reports.last().reported_at,
            ttl,
            now,
        ) {
            1nat
        } else {
            0nat
        }
    }
}

/// The address has at least `quorum` fresh witnesses from distinct
/// reporters.
pub open spec fn addr_failed(
    fs: Seq<FailureRecord>,
    a: Seq<char>,
    ttl: i64,
    now: i64,
    quorum: u64,
) -> bool {
    exists|i: int|
        0 <= i < fs.len() && (#[trigger] fs[i]).address@ == a && fresh_count(
            fs[i].reports@,
            ttl,
            now,
        ) >= quorum
}

/// The authoritative store.
#[derive(Clone, Debug)]
pub struct MetaStore {
    pub version: u64,
    pub global_epoch: u64,
    pub clusters: Vec<ClusterStore>,
    pub all_proxies: Vec<ProxyResource>,
    pub failures: Vec<FailureRecord>,
    pub enable_ordered_proxy: bool,
}

impl MetaStore {
    pub open spec fn proxies_unique(self) -> bool {
        forall|p1: int, p2: int|
            0 <= p1 < self.all_proxies@.len() && 0 <= p2 < self.all_proxies@.len() && p1 != p2
                ==> (#[trigger] self.all_proxies@[p1]).address@
                != (#[trigger] self.all_proxies@[p2]).address@
    }

    pub open spec fn clusters_unique(self) -> bool {
        forall|i1: int, i2: int|
            0 <= i1 < self.clusters@.len() && 0 <= i2 < self.clusters@.len() && i1 != i2 ==> (
            #[trigger] self.clusters@[i1]).name@ != (#[trigger] self.clusters@[i2]).name@
    }

    pub open spec fn clusters_wf(self) -> bool {
        forall|i: int|
            0 <= i < self.clusters@.len() ==> (#[trigger] self.clusters@[i]).wf()
                && self.clusters@[i].epoch <= self.global_epoch
    }

    /// There is a proxy record for the address and it is bound to the
    /// cluster name.
    pub open spec fn has_proxy_bound(self, addr: Seq<char>, name: Seq<char>) -> bool {
        exists|p: int|
            0 <= p < self.all_proxies@.len() && (#[trigger] self.all_proxies@[p]).address@ == addr
                && self.all_proxies@[p].bound_to(name)
    }

    /// Every proxy referenced from a chunk is a registered proxy bound to
    /// that cluster.
    pub open spec fn chunk_proxies_bound(self) -> bool {
        forall|i: int, j: int|
            0 <= i < self.clusters@.len() && 0 <= j < self.clusters@[i].chunks@.len()
                ==> self.has_proxy_bound(
                (#[trigger] self.clusters@[i].chunks@[j]).first.address@,
                self.clusters@[i].name@,
            ) && self.has_proxy_bound(
                self.clusters@[i].chunks@[j].second.address@,
                self.clusters@[i].name@,
            )
    }

    /// The address appears in some chunk of the named cluster.
    pub open spec fn appears_in_cluster(self, addr: Seq<char>, name: Seq<char>) -> bool {
        exists|i: int, j: int|
            0 <= i < self.clusters@.len() && 0 <= j < self.clusters@[i].chunks@.len()
                && self.clusters@[i].name@ == name && ((#[trigger] self.clusters@[i].chunks@[j]).first.address@
                == addr || self.clusters@[i].chunks@[j].second.address@ == addr)
    }

    /// Every bound proxy really appears in the cluster it names.
    pub open spec fn bindings_backed(self) -> bool {
        forall|p: int|
            0 <= p < self.all_proxies@.len() ==> ((#[trigger] self.all_proxies@[p]).cluster
                matches Some(n) ==> self.appears_in_cluster(self.all_proxies@[p].address@, n@))
    }

    pub open spec fn failures_wf(self) -> bool {
        &&& forall|i1: int, i2: int|
            0 <= i1 < self.failures@.len() && 0 <= i2 < self.failures@.len() && i1 != i2 ==> (
            #[trigger] self.failures@[i1]).address@ != (#[trigger] self.failures@[i2]).address@
        &&& forall|i: int, k1: int, k2: int|
            0 <= i < self.failures@.len() && 0 <= k1 < self.failures@[i].reports@.len() && 0 <= k2
                < self.failures@[i].reports@.len() && k1 != k2 ==> (
            #[trigger] self.failures@[i].reports@[k1]).reporter_id@ != (
            #[trigger] self.failures@[i].reports@[k2]).reporter_id@
    }

    /// Under ordered mode: indices are dense and positional, at most one
    /// cluster exists, and its chunks consume proxies in index order.
    pub open spec fn ordered_wf(self) -> bool {
        self.enable_ordered_proxy ==> {
            &&& forall|p: int|
                0 <= p < self.all_proxies@.len() ==> (#[trigger] self.all_proxies@[p]).index
                    == Some(p as usize)
            &&& self.clusters@.len() <= 1
            &&& self.clusters@.len() == 1 ==> {
                &&& 2 * self.clusters@[0].chunks@.len() <= self.all_proxies@.len()
                &&& forall|j: int|
                    0 <= j < self.clusters@[0].chunks@.len() ==> (
                    #[trigger] self.clusters@[0].chunks@[j]).first.address@
                        == self.all_proxies@[2 * j].address@
                        && self.clusters@[0].chunks@[j].second.address@ == self.all_proxies@[2 * j
                        + 1].address@
            }
        }
    }

    /// Within one cluster, no proxy address appears in two chunks.
    pub open spec fn clusters_chunk_addrs_unique(self) -> bool {
        forall|i: int, j1: int, j2: int|
            0 <= i < self.clusters@.len() && 0 <= j1 < self.clusters@[i].chunks@.len() && 0 <= j2
                < self.clusters@[i].chunks@.len() && j1 != j2 ==> {
                let c1 = #[trigger] self.clusters@[i].chunks@[j1];
                let c2 = #[trigger] self.clusters@[i].chunks@[j2];
                c1.first.address@ != c2.first.address@ && c1.first.address@ != c2.second.address@
                    && c1.second.address@ != c2.first.address@ && c1.second.address@
                    != c2.second.address@
            }
    }

    /// The store invariant: established by `new`, preserved by every
    /// operation, decided executably by `check`.
    pub open spec fn inv(self) -> bool {
        &&& self.proxies_unique()
        &&& self.clusters_unique()
        &&& self.clusters_wf()
        &&& self.chunk_proxies_bound()
        &&& self.bindings_backed()
        &&& self.clusters_chunk_addrs_unique()
        &&& self.failures_wf()
        &&& self.ordered_wf()
    }

    /// A fresh, empty store.
    pub fn new(enable_ordered_proxy: bool) -> (r: MetaStore)
        ensures
            r.inv(),
            r.version == META_STORE_VERSION,
            r.global_epoch == 0,
            r.clusters@.len() == 0,
            r.all_proxies@.len() == 0,
            r.failures@.len() == 0,
            r.enable_ordered_proxy == enable_ordered_proxy,
    {
        MetaStore {
            version: META_STORE_VERSION,
            global_epoch: 0,
            clusters: Vec::new(),
            all_proxies: Vec::new(),
            failures: Vec::new(),
            enable_ordered_proxy,
        }
    }

    pub fn get_global_epoch(&self) -> (r: u64)
        ensures
            r == self.global_epoch,
    {
        self.global_epoch
    }

    /// Forcibly raise the global epoch and every cluster epoch to
    /// `new_epoch`.  A stale target is refused and nothing changes.
    pub fn force_bump_all_epoch(&mut self, new_epoch: u64) -> (r: Result<(), MetaStoreError>)
        requires
            old(self).inv(),
        ensures
            final(self).inv(),
            r is Err <==> new_epoch <= old(self).global_epoch,
            r matches Err(e) ==> e == MetaStoreError::SmallEpoch && *final(self) == *old(self),
            r is Ok ==> all_epochs_bumped(*old(self), *final(self), new_epoch),
    {
        if new_epoch <= self.global_epoch {
            return Err(MetaStoreError::SmallEpoch);
        }
        self.global_epoch = new_epoch;
        let n = self.clusters.len();
        let mut i: usize = 0;
        while i < n
            invariant
                n == self.clusters@.len(),
                i <= n,
                forall|k: int|
                    0 <= k < i ==> (#[trigger] self.clusters@[k]).epoch == new_epoch
                        && self.clusters@[k].name == old(self).clusters@[k].name
                        && self.clusters@[k].chunks == old(self).clusters@[k].chunks
                        && self.clusters@[k].config == old(self).clusters@[k].config,
                forall|k: int|
                    i <= k < n ==> #[trigger] self.clusters@[k] == old(self).clusters@[k],
                self.version == old(self).version,
                self.global_epoch == new_epoch,
                self.all_proxies == old(self).all_proxies,
                self.failures == old(self).failures,
                self.enable_ordered_proxy == old(self).enable_ordered_proxy,
            decreases n - i,
        {
            let c = &mut self.clusters[i];
            c.epoch = new_epoch;
            i = i + 1;
        }
        proof {
            assert(final(self).inv()) by {
                assert forall|i2: int| 0 <= i2 < self.clusters@.len() implies (
                #[trigger] self.clusters@[i2]).wf() && self.clusters@[i2].epoch
                    <= self.global_epoch by {
                    assert(old(self).clusters@[i2].wf());
                    assert(self.clusters@[i2].chunks == old(self).clusters@[i2].chunks);
                    cluster_wf_depends_on_chunks_and_name(
                        old(self).clusters@[i2],
                        self.clusters@[i2],
                    );
                }
                assert(same_memberships(*old(self), *self));
                memberships_preserve_inv(*old(self), *self);
            }
        }
        Ok(())
    }

    /// Raise the global epoch to at least `new_epoch`; never lowers it.
    pub fn recover_epoch(&mut self, new_epoch: u64)
        requires
            old(self).inv(),
        ensures
            final(self).inv(),
            final(self).global_epoch == if new_epoch > old(self).global_epoch {
                new_epoch
            } else {
                old(self).global_epoch
            },
            final(self).clusters == old(self).clusters,
            final(self).all_proxies == old(self).all_proxies,
            final(self).failures == old(self).failures,
            final(self).version == old(self).version,
            final(self).enable_ordered_proxy == old(self).enable_ordered_proxy,
    {
        if new_epoch > self.global_epoch {
            self.global_epoch = new_epoch;
            proof {
                let b = *self;
                assert(same_memberships(*old(self), b));
                assert forall|i: int| 0 <= i < b.clusters@.len() implies (
                #[trigger] b.clusters@[i]).wf() && b.clusters@[i].epoch <= b.global_epoch by {
                    assert(old(self).clusters@[i].wf());
                    assert(old(self).clusters@[i].epoch <= old(self).global_epoch);
                }
                memberships_preserve_inv(*old(self), b);
            }
        }
    }
}

/// Some report of the list was made by `rep` at time `t`.
pub open spec fn rec_has(reports: Seq<FailureReport>, rep: Seq<char>, t: i64) -> bool {
    exists|k: int|
        0 <= k < reports.len() && (#[trigger] reports[k]).reporter_id@ == rep
            && reports[k].reported_at == t
}

/// The records hold a witness by `rep` at time `t` against address `a`.
pub open spec fn has_report(fs: Seq<FailureRecord>, a: Seq<char>, rep: Seq<char>, t: i64) -> bool {
    exists|i: int|
        0 <= i < fs.len() && (#[trigger] fs[i]).address@ == a && rec_has(fs[i].reports@, rep, t)
}

/// There is a registered proxy with this address and it is bound to some
/// cluster.
pub open spec fn proxy_bound_any(ps: Seq<ProxyResource>, a: Seq<char>) -> bool {
    exists|p: int|
        0 <= p < ps.len() && (#[trigger] ps[p]).address@ == a && !(ps[p].cluster is None)
}

/// First index of a page over `n` items.
pub open spec fn page_start(offset: Option<usize>, n: int) -> int {
    let o = match offset {
        Some(o) => o as int,
        None => 0int,
    };
    if o > n {
        n
    } else {
        o
    }
}

/// Length of a page over `n` items.
pub open spec fn page_len(offset: Option<usize>, limit: Option<usize>, n: int) -> int {
    let s = page_start(offset, n);
    let l = match limit {
        Some(l) => l as int,
        None => n,
    };
    if l < n - s {
        l
    } else {
        n - s
    }
}

/// Everything but the failure records is unchanged.
pub open spec fn only_failures_changed(a: MetaStore, b: MetaStore) -> bool {
    &&& b.version == a.version
    &&& b.global_epoch == a.global_epoch
    &&& b.clusters == a.clusters
    &&& b.all_proxies == a.all_proxies
    &&& b.enable_ordered_proxy == a.enable_ordered_proxy
}

impl MetaStore {
    /// Index of the failure record for this address, if any.
    fn find_failure_pos(&self, addr: &String) -> (r: Option<usize>)
        ensures
            r matches Some(i) ==> i < self.failures@.len() && self.failures@[i as int].address@
                == addr@,
            r is None ==> forall|i: int|
                0 <= i < self.failures@.len() ==> (#[trigger] self.failures@[i]).address@ != addr@,
    {
        let n = self.failures.len();
        let mut i: usize = 0;
        while i < n
            invariant
                n == self.failures@.len(),
                i <= n,
                forall|k: int| 0 <= k < i ==> (#[trigger] self.failures@[k]).address@ != addr@,
            decreases n - i,
        {
            if self.failures[i].address == *addr {
                return Some(i);
            }
            i = i + 1;
        }
        None
    }

    /// Index of the registered proxy with this address, if any.
    pub fn find_proxy_pos(&self, addr: &String) -> (r: Option<usize>)
        ensures
            r matches Some(i) ==> i < self.all_proxies@.len() && self.all_proxies@[i as int].address@
                == addr@,
            r is None ==> forall|i: int|
                0 <= i < self.all_proxies@.len() ==> (#[trigger] self.all_proxies@[i]).address@
                    != addr@,
    {
        let n = self.all_proxies.len();
        let mut i: usize = 0;
        while i < n
            invariant
                n == self.all_proxies@.len(),
                i <= n,
                forall|k: int| 0 <= k < i ==> (#[trigger] self.all_proxies@[k]).address@ != addr@,
            decreases n - i,
        {
            if self.all_proxies[i].address == *addr {
                return Some(i);
            }
            i = i + 1;
        }
        None
    }

    /// Index of the cluster with this name, if any.
    pub fn find_cluster_pos(&self, name: &String) -> (r: Option<usize>)
        ensures
            r matches Some(i) ==> i < self.clusters@.len() && self.clusters@[i as int].name@
                == name@,
            r is None ==> forall|i: int|
                0 <= i < self.clusters@.len() ==> (#[trigger] self.clusters@[i]).name@ != name@,
    {
        let n = self.clusters.len();
        let mut i: usize = 0;
        while i < n
            invariant
                n == self.clusters@.len(),
                i <= n,
                forall|k: int| 0 <= k < i ==> (#[trigger] self.clusters@[k]).name@ != name@,
            decreases n - i,
        {
            if self.clusters[i].name == *name {
                return Some(i);
            }
            i = i + 1;
        }
        None
    }

    /// Record that `reporter_id` saw `address` failed at time `now`,
    /// overwriting any earlier witness of the same reporter.
    pub fn add_failure_at(&mut self, address: String, reporter_id: String, now: i64)
        requires
            old(self).inv(),
        ensures
            final(self).inv(),
            only_failures_changed(*old(self), *final(self)),
            has_report(final(self).failures@, address@, reporter_id@, now),
            forall|t: i64|
                has_report(final(self).failures@, address@, reporter_id@, t) ==> t == now,
            forall|a: Seq<char>, rep: Seq<char>, t: i64|
                a != address@ || rep != reporter_id@ ==> #[trigger] has_report(
                    final(self).failures@,
                    a,
                    rep,
                    t,
                ) == has_report(old(self).failures@, a, rep, t),
    {
        let ghost pre = *self;
        match self.find_failure_pos(&address) {
            Some(i) => {
                let m = self.failures[i].reports.len();
                let mut k: usize = 0;
                let mut found: Option<usize> = None;
                while k < m && found.is_none()
                    invariant
                        *self == pre,
                        i < self.failures@.len(),
                        m == self.failures@[i as int].reports@.len(),
                        k <= m,
                        found matches Some(x) ==> x < m && self.failures@[i as int].reports@[x as int].reporter_id@
                            == reporter_id@,
                        found is None ==> forall|y: int|
                            0 <= y < k ==> (
                            #[trigger] self.failures@[i as int].reports@[y]).reporter_id@
                                != reporter_id@,
                    decreases m - k, if found.is_none() { 1int } else { 0int },
                {
                    if self.failures[i].reports[k].reporter_id == reporter_id {
                        found = Some(k);
                    } else {
                        k = k + 1;
                    }
                }
                let ghost old_rec = self.failures@[i as int];
                match found {
                    Some(x) => {
                        let rec = &mut self.failures[i];
                        let rep = &mut rec.reports[x];
                        rep.reported_at = now;
                        proof {
                            lemma_add_failure_update(
                                pre,
                                *self,
                                i as int,
                                x as int,
                                address@,
                                reporter_id@,
                                now,
                            );
                        }
                    },
                    None => {
                        let rec = &mut self.failures[i];
                        rec.reports.push(FailureReport { reporter_id, reported_at: now });
                        proof {
                            lemma_add_failure_push_report(
                                pre,
                                *self,
                                i as int,
                                address@,
                                now,
                            );
                        }
                    },
                }
            },
            None => {
                let mut reports: Vec<FailureReport> = Vec::new();
                reports.push(FailureReport { reporter_id, reported_at: now });
                self.failures.push(FailureRecord { address, reports });
                proof {
                    lemma_add_failure_push_record(pre, *self, now);
                }
            },
        }
    }
}

/// After overwriting report `x` of record `i` with time `now`, the
/// witness model changes only at that reporter and address.
proof fn lemma_add_failure_update(
    a: MetaStore,
    b: MetaStore,
    i: int,
    x: int,
    addr: Seq<char>,
    rep: Seq<char>,
    now: i64,
)
    requires
        a.inv(),
        0 <= i < a.failures@.len(),
        0 <= x < a.failures@[i].reports@.len(),
        a.failures@[i].address@ == addr,
        a.failures@[i].reports@[x].reporter_id@ == rep,
        only_failures_changed(a, b),
        b.failures@.len() == a.failures@.len(),
        forall|i2: int| 0 <= i2 < a.failures@.len() && i2 != i ==> b.failures@[i2] == a.failures@[i2],
        b.failures@[i].address == a.failures@[i].address,
        b.failures@[i].reports@.len() == a.failures@[i].reports@.len(),
        forall|k: int|
            0 <= k < a.failures@[i].reports@.len() && k != x ==> b.failures@[i].reports@[k]
                == a.failures@[i].reports@[k],
        b.failures@[i].reports@[x].reporter_id == a.failures@[i].reports@[x].reporter_id,
        b.failures@[i].reports@[x].reported_at == now,
    ensures
        b.inv(),
        has_report(b.failures@, addr, rep, now),
        forall|t: i64| has_report(b.failures@, addr, rep, t) ==> t == now,
        forall|a2: Seq<char>, rep2: Seq<char>, t: i64|
            a2 != addr || rep2 != rep ==> #[trigger] has_report(b.failures@, a2, rep2, t)
                == has_report(a.failures@, a2, rep2, t),
{
    let new_reports = b.failures@[i].reports@;
    assert(new_reports[x].reporter_id@ == rep && new_reports[x].reported_at == now);
    assert(has_report(b.failures@, addr, rep, now)) by {
        assert(rec_has(new_reports, rep, now));
    }
    assert forall|t: i64| has_report(b.failures@, addr, rep, t) implies t == now by {
        let i2 = choose|i2: int|
            0 <= i2 < b.failures@.len() && (#[trigger] b.failures@[i2]).address@ == addr && rec_has(
                b.failures@[i2].reports@,
                rep,
                t,
            );
        assert(i2 == i) by {
            if i2 != i {
                assert(a.failures@[i2].address@ == addr);
            }
        }
        let k2 = choose|k2: int|
            0 <= k2 < new_reports.len() && (#[trigger] new_reports[k2]).reporter_id@ == rep
                && new_reports[k2].reported_at == t;
        assert(k2 == x) by {
            if k2 != x {
                assert(a.failures@[i].reports@[k2].reporter_id@ == rep);
                assert(a.failures@[i].reports@[x].reporter_id@ == rep);
            }
        }
    }
    assert forall|a2: Seq<char>, rep2: Seq<char>, t: i64| a2 != addr || rep2 != rep implies
    #[trigger] has_report(b.failures@, a2, rep2, t) == has_report(a.failures@, a2, rep2, t) by {
        if has_report(b.failures@, a2, rep2, t) {
            let i2 = choose|i2: int|
                0 <= i2 < b.failures@.len() && (#[trigger] b.failures@[i2]).address@ == a2
                    && rec_has(b.failures@[i2].reports@, rep2, t);
            if i2 != i {
                assert(b.failures@[i2] == a.failures@[i2]);
                assert(has_report(a.failures@, a2, rep2, t));
            } else {
                assert(a2 == addr);
                let k2 = choose|k2: int|
                    0 <= k2 < b.failures@[i].reports@.len() && (
                    #[trigger] b.failures@[i].reports@[k2]).reporter_id@ == rep2
                        && b.failures@[i].reports@[k2].reported_at == t;
                assert(k2 != x);
                assert(a.failures@[i].reports@[k2].reporter_id@ == rep2
                    && a.failures@[i].reports@[k2].reported_at == t);
                assert(has_report(a.failures@, a2, rep2, t));
            }
        }
        if has_report(a.failures@, a2, rep2, t) {
            let i2 = choose|i2: int|
                0 <= i2 < a.failures@.len() && (#[trigger] a.failures@[i2]).address@ == a2
                    && rec_has(a.failures@[i2].reports@, rep2, t);
            if i2 != i {
                assert(b.failures@[i2] == a.failures@[i2]);
                assert(has_report(b.failures@, a2, rep2, t));
            } else {
                assert(a2 == addr);
                let k2 = choose|k2: int|
                    0 <= k2 < a.failures@[i].reports@.len() && (
                    #[trigger] a.failures@[i].reports@[k2]).reporter_id@ == rep2
                        && a.failures@[i].reports@[k2].reported_at == t;
                assert(k2 != x);
                assert(rec_has(b.failures@[i].reports@, rep2, t));
            }
        }
    }
    assert(b.inv()) by {
        assert(b.failures@.len() == a.failures@.len());
        assert forall|i1: int, i2: int|
            0 <= i1 < b.failures@.len() && 0 <= i2 < b.failures@.len() && i1 != i2 implies (
        #[trigger] b.failures@[i1]).address@ != (#[trigger] b.failures@[i2]).address@ by {
            assert(b.failures@[i1].address@ == a.failures@[i1].address@);
            assert(b.failures@[i2].address@ == a.failures@[i2].address@);
        }
        assert forall|i0: int, k1: int, k2: int|
            0 <= i0 < b.failures@.len() && 0 <= k1 < b.failures@[i0].reports@.len() && 0 <= k2
                < b.failures@[i0].reports@.len() && k1 != k2 implies (
        #[trigger] b.failures@[i0].reports@[k1]).reporter_id@ != (
        #[trigger] b.failures@[i0].reports@[k2]).reporter_id@ by {
            assert(b.failures@[i0].reports@[k1].reporter_id@
                == a.failures@[i0].reports@[k1].reporter_id@);
            assert(b.failures@[i0].reports@[k2].reporter_id@
                == a.failures@[i0].reports@[k2].reporter_id@);
        }
        failures_only_preserve_inv(a, b);
    }
}

/// After appending a fresh report by a reporter not yet present in record
/// `i`, the witness model changes only at that reporter and address.
proof fn lemma_add_failure_push_report(a: MetaStore, b: MetaStore, i: int, addr: Seq<char>, now: i64)
    requires
        a.inv(),
        0 <= i < a.failures@.len(),
        a.failures@[i].address@ == addr,
        only_failures_changed(a, b),
        b.failures@.len() == a.failures@.len(),
        forall|i2: int| 0 <= i2 < a.failures@.len() && i2 != i ==> b.failures@[i2] == a.failures@[i2],
        b.failures@[i].address == a.failures@[i].address,
        b.failures@[i].reports@.len() == a.failures@[i].reports@.len() + 1,
        forall|k: int|
            0 <= k < a.failures@[i].reports@.len() ==> b.failures@[i].reports@[k]
                == a.failures@[i].reports@[k],
        b.failures@[i].reports@.last().reported_at == now,
        forall|k: int|
            0 <= k < a.failures@[i].reports@.len() ==> (#[trigger] a.failures@[i].reports@[k]).reporter_id@
                != b.failures@[i].reports@.last().reporter_id@,
    ensures
        b.inv(),
        has_report(b.failures@, addr, b.failures@[i].reports@.last().reporter_id@, now),
        forall|t: i64|
            has_report(b.failures@, addr, b.failures@[i].reports@.last().reporter_id@, t) ==> t
                == now,
        forall|a2: Seq<char>, rep2: Seq<char>, t: i64|
            a2 != addr || rep2 != b.failures@[i].reports@.last().reporter_id@ ==> #[trigger] has_report(
                b.failures@,
                a2,
                rep2,
                t,
            ) == has_report(a.failures@, a2, rep2, t),
{
    let rep = b.failures@[i].reports@.last().reporter_id@;
    let last = b.failures@[i].reports@.len() - 1;
    assert(has_report(b.failures@, addr, rep, now)) by {
        assert(b.failures@[i].reports@[last].reporter_id@ == rep);
        assert(rec_has(b.failures@[i].reports@, rep, now));
    }
    assert forall|t: i64| has_report(b.failures@, addr, rep, t) implies t == now by {
        let i2 = choose|i2: int|
            0 <= i2 < b.failures@.len() && (#[trigger] b.failures@[i2]).address@ == addr && rec_has(
                b.failures@[i2].reports@,
                rep,
                t,
            );
        assert(i2 == i) by {
            if i2 != i {
                assert(a.failures@[i2].address@ == addr);
            }
        }
        let k2 = choose|k2: int|
            0 <= k2 < b.failures@[i].reports@.len() && (
            #[trigger] b.failures@[i].reports@[k2]).reporter_id@ == rep
                && b.failures@[i].reports@[k2].reported_at == t;
        assert(k2 == last);
    }
    assert forall|a2: Seq<char>, rep2: Seq<char>, t: i64| a2 != addr || rep2 != rep implies
    #[trigger] has_report(b.failures@, a2, rep2, t) == has_report(a.failures@, a2, rep2, t) by {
        if has_report(b.failures@, a2, rep2, t) {
            let i2 = choose|i2: int|
                0 <= i2 < b.failures@.len() && (#[trigger] b.failures@[i2]).address@ == a2
                    && rec_has(b.failures@[i2].reports@, rep2, t);
            if i2 != i {
                assert(has_report(a.failures@, a2, rep2, t));
            } else {
                let k2 = choose|k2: int|
                    0 <= k2 < b.failures@[i].reports@.len() && (
                    #[trigger] b.failures@[i].reports@[k2]).reporter_id@ == rep2
                        && b.failures@[i].reports@[k2].reported_at == t;
                assert(k2 != last);
                assert(rec_has(a.failures@[i].reports@, rep2, t));
                assert(has_report(a.failures@, a2, rep2, t));
            }
        }
        if has_report(a.failures@, a2, rep2, t) {
            let i2 = choose|i2: int|
                0 <= i2 < a.failures@.len() && (#[trigger] a.failures@[i2]).address@ == a2
                    && rec_has(a.failures@[i2].reports@, rep2, t);
            if i2 != i {
                assert(has_report(b.failures@, a2, rep2, t));
            } else {
                let k2 = choose|k2: int|
                    0 <= k2 < a.failures@[i].reports@.len() && (
                    #[trigger] a.failures@[i].reports@[k2]).reporter_id@ == rep2
                        && a.failures@[i].reports@[k2].reported_at == t;
                assert(b.failures@[i].reports@[k2].reporter_id@ == rep2);
                assert(rec_has(b.failures@[i].reports@, rep2, t));
                assert(has_report(b.failures@, a2, rep2, t));
            }
        }
    }
    assert(b.inv()) by {
        assert forall|i1: int, i2: int|
            0 <= i1 < b.failures@.len() && 0 <= i2 < b.failures@.len() && i1 != i2 implies (
        #[trigger] b.failures@[i1]).address@ != (#[trigger] b.failures@[i2]).address@ by {
            assert(b.failures@[i1].address@ == a.failures@[i1].address@);
            assert(b.failures@[i2].address@ == a.failures@[i2].address@);
        }
        assert forall|i0: int, k1: int, k2: int|
            0 <= i0 < b.failures@.len() && 0 <= k1 < b.failures@[i0].reports@.len() && 0 <= k2
                < b.failures@[i0].reports@.len() && k1 != k2 implies (
        #[trigger] b.failures@[i0].reports@[k1]).reporter_id@ != (
        #[trigger] b.failures@[i0].reports@[k2]).reporter_id@ by {
            if i0 != i {
                assert(b.failures@[i0] == a.failures@[i0]);
            } else {
                if k1 != last && k2 != last {
                    assert(b.failures@[i].reports@[k1] == a.failures@[i].reports@[k1]);
                    assert(b.failures@[i].reports@[k2] == a.failures@[i].reports@[k2]);
                }
            }
        }
        failures_only_preserve_inv(a, b);
    }
}

/// After appending a whole new record for an address not yet present, the
/// witness model gains exactly that one witness.
proof fn lemma_add_failure_push_record(a: MetaStore, b: MetaStore, now: i64)
    requires
        a.inv(),
        only_failures_changed(a, b),
        b.failures@.len() == a.failures@.len() + 1,
        forall|i: int| 0 <= i < a.failures@.len() ==> b.failures@[i] == a.failures@[i],
        forall|i: int|
            0 <= i < a.failures@.len() ==> (#[trigger] a.failures@[i]).address@
                != b.failures@.last().address@,
        b.failures@.last().reports@.len() == 1,
        b.failures@.last().reports@[0].reported_at == now,
    ensures
        b.inv(),
        has_report(
            b.failures@,
            b.failures@.last().address@,
            b.failures@.last().reports@[0].reporter_id@,
            now,
        ),
        forall|t: i64|
            has_report(
                b.failures@,
                b.failures@.last().address@,
                b.failures@.last().reports@[0].reporter_id@,
                t,
            ) ==> t == now,
        forall|a2: Seq<char>, rep2: Seq<char>, t: i64|
            a2 != b.failures@.last().address@ || rep2
                != b.failures@.last().reports@[0].reporter_id@ ==> #[trigger] has_report(
                b.failures@,
                a2,
                rep2,
                t,
            ) == has_report(a.failures@, a2, rep2, t),
{
    let addr = b.failures@.last().address@;
    let rep = b.failures@.last().reports@[0].reporter_id@;
    let last = b.failures@.len() - 1;
    assert(has_report(b.failures@, addr, rep, now)) by {
        assert(b.failures@[last].address@ == addr);
        assert(rec_has(b.failures@[last].reports@, rep, now));
    }
    assert forall|t: i64| has_report(b.failures@, addr, rep, t) implies t == now by {
        let i2 = choose|i2: int|
            0 <= i2 < b.failures@.len() && (#[trigger] b.failures@[i2]).address@ == addr && rec_has(
                b.failures@[i2].reports@,
                rep,
                t,
            );
        assert(i2 == last);
        let k2 = choose|k2: int|
            0 <= k2 < b.failures@[last].reports@.len() && (
            #[trigger] b.failures@[last].reports@[k2]).reporter_id@ == rep
                && b.failures@[last].reports@[k2].reported_at == t;
        assert(k2 == 0);
    }
    assert forall|a2: Seq<char>, rep2: Seq<char>, t: i64| a2 != addr || rep2 != rep implies
    #[trigger] has_report(b.failures@, a2, rep2, t) == has_report(a.failures@, a2, rep2, t) by {
        if has_report(b.failures@, a2, rep2, t) {
            let i2 = choose|i2: int|
                0 <= i2 < b.failures@.len() && (#[trigger] b.failures@[i2]).address@ == a2
                    && rec_has(b.failures@[i2].reports@, rep2, t);
            if i2 != last {
                assert(has_report(a.failures@, a2, rep2, t));
            } else {
                assert(a2 == addr);
                let k2 = choose|k2: int|
                    0 <= k2 < b.failures@[last].reports@.len() && (
                    #[trigger] b.failures@[last].reports@[k2]).reporter_id@ == rep2
                        && b.failures@[last].reports@[k2].reported_at == t;
                assert(k2 == 0);
                assert(false);
            }
        }
        if has_report(a.failures@, a2, rep2, t) {
            let i2 = choose|i2: int|
                0 <= i2 < a.failures@.len() && (#[trigger] a.failures@[i2]).address@ == a2
                    && rec_has(a.failures@[i2].reports@, rep2, t);
            assert(b.failures@[i2] == a.failures@[i2]);
            assert(has_report(b.failures@, a2, rep2, t));
        }
    }
    assert(b.inv()) by {
        assert forall|i1: int, i2: int|
            0 <= i1 < b.failures@.len() && 0 <= i2 < b.failures@.len() && i1 != i2 implies (
        #[trigger] b.failures@[i1]).address@ != (#[trigger] b.failures@[i2]).address@ by {
            if i1 < last && i2 < last {
                assert(b.failures@[i1] == a.failures@[i1]);
                assert(b.failures@[i2] == a.failures@[i2]);
            }
        }
        assert forall|i0: int, k1: int, k2: int|
            0 <= i0 < b.failures@.len() && 0 <= k1 < b.failures@[i0].reports@.len() && 0 <= k2
                < b.failures@[i0].reports@.len() && k1 != k2 implies (
        #[trigger] b.failures@[i0].reports@[k1]).reporter_id@ != (
        #[trigger] b.failures@[i0].reports@[k2]).reporter_id@ by {
            if i0 < last {
                assert(b.failures@[i0] == a.failures@[i0]);
            }
        }
        failures_only_preserve_inv(a, b);
    }
}

/// A change that only touches the failure records, keeping their
/// well-formedness, preserves the whole invariant.
proof fn failures_only_preserve_inv(a: MetaStore, b: MetaStore)
    requires
        a.inv(),
        only_failures_changed(a, b),
        b.failures_wf(),
    ensures
        b.inv(),
{
    assert(same_memberships(a, b));
    assert forall|i: int| 0 <= i < b.clusters@.len() implies (#[trigger] b.clusters@[i]).wf()
        && b.clusters@[i].epoch <= b.global_epoch by {
        assert(b.clusters@[i] == a.clusters@[i]);
        assert(a.clusters@[i].wf());
    }
    memberships_preserve_inv(a, b);
}

/// `b` is `a` with the global epoch and every cluster epoch set to `e`
/// and nothing else changed.
pub open spec fn all_epochs_bumped(a: MetaStore, b: MetaStore, e: u64) -> bool {
    &&& b.global_epoch == e
    &&& b.clusters@.len() == a.clusters@.len()
    &&& forall|i: int|
        0 <= i < b.clusters@.len() ==> (#[trigger] b.clusters@[i]).epoch == e && b.clusters@[i].name
            == a.clusters@[i].name && b.clusters@[i].chunks == a.clusters@[i].chunks
            && b.clusters@[i].config == a.clusters@[i].config
    &&& b.all_proxies == a.all_proxies
    &&& b.failures == a.failures
    &&& b.version == a.version
    &&& b.enable_ordered_proxy == a.enable_ordered_proxy
}

/// A cluster's well-formedness depends only on its name, chunks and the
/// slot lists inside them, not on its epoch or configuration.
pub proof fn cluster_wf_depends_on_chunks_and_name(a: ClusterStore, b: ClusterStore)
    requires
        a.wf(),
        b.name == a.name,
        b.chunks == a.chunks,
    ensures
        b.wf(),
{
    assert forall|s: int| 0 <= s < SLOT_MAX as int implies b.owns(s) by {
        assert(a.owns(s));
        let j = choose|j: int| 0 <= j < a.chunks@.len() && (#[trigger] a.chunks@[j]).owns(s);
        assert(b.chunks@[j].owns(s));
    }
    assert forall|j1: int, j2: int, s: int|
        0 <= j1 < b.chunks@.len() && 0 <= j2 < b.chunks@.len() && j1 != j2 implies !(
    #[trigger] b.chunks@[j1].owns(s) && #[trigger] b.chunks@[j2].owns(s)) by {
        assert(!((a.chunks@[j1]).owns(s) && (a.chunks@[j2]).owns(s)));
    }
}

/// The chunk lists pair the same proxy addresses in the same order.
pub open spec fn chunks_same_addresses(a: Seq<Chunk>, b: Seq<Chunk>) -> bool {
    b.len() == a.len() && forall|j: int|
        0 <= j < a.len() ==> (#[trigger] b[j]).first.address@ == a[j].first.address@
            && b[j].second.address@ == a[j].second.address@
}

/// The two stores agree on everything the binding, ordering and failure
/// parts of the invariant look at.
pub open spec fn same_memberships(a: MetaStore, b: MetaStore) -> bool {
    &&& b.all_proxies == a.all_proxies
    &&& b.enable_ordered_proxy == a.enable_ordered_proxy
    &&& b.clusters@.len() == a.clusters@.len()
    &&& forall|i: int|
        0 <= i < a.clusters@.len() ==> (#[trigger] b.clusters@[i]).name@ == a.clusters@[i].name@
            && chunks_same_addresses(a.clusters@[i].chunks@, b.clusters@[i].chunks@)
}

/// Invariant parts that only look at memberships carry over to a store
/// with the same memberships, provided the per-cluster parts hold too.
pub proof fn memberships_preserve_inv(a: MetaStore, b: MetaStore)
    requires
        a.inv(),
        same_memberships(a, b),
        b.failures_wf(),
        forall|i: int|
            0 <= i < b.clusters@.len() ==> (#[trigger] b.clusters@[i]).wf() && b.clusters@[i].epoch
                <= b.global_epoch,
    ensures
        b.inv(),
{
    assert forall|i: int, j: int|
        0 <= i < b.clusters@.len() && 0 <= j < b.clusters@[i].chunks@.len() implies b.has_proxy_bound(
        (#[trigger] b.clusters@[i].chunks@[j]).first.address@,
        b.clusters@[i].name@,
    ) && b.has_proxy_bound(b.clusters@[i].chunks@[j].second.address@, b.clusters@[i].name@) by {
        assert(a.has_proxy_bound(a.clusters@[i].chunks@[j].first.address@, a.clusters@[i].name@));
        assert(a.has_proxy_bound(a.clusters@[i].chunks@[j].second.address@, a.clusters@[i].name@));
    }
    assert forall|i: int, j1: int, j2: int|
        0 <= i < b.clusters@.len() && 0 <= j1 < b.clusters@[i].chunks@.len() && 0 <= j2
            < b.clusters@[i].chunks@.len() && j1 != j2 implies {
        let c1 = #[trigger] b.clusters@[i].chunks@[j1];
        let c2 = #[trigger] b.clusters@[i].chunks@[j2];
        c1.first.address@ != c2.first.address@ && c1.first.address@ != c2.second.address@
            && c1.second.address@ != c2.first.address@ && c1.second.address@ != c2.second.address@
    } by {
        let a1 = a.clusters@[i].chunks@[j1];
        let a2 = a.clusters@[i].chunks@[j2];
        assert(a1.first.address@ != a2.first.address@ && a1.first.address@ != a2.second.address@
            && a1.second.address@ != a2.first.address@ && a1.second.address@
            != a2.second.address@);
        assert(b.clusters@[i].chunks@[j1].first.address@ == a1.first.address@);
        assert(b.clusters@[i].chunks@[j1].second.address@ == a1.second.address@);
        assert(b.clusters@[i].chunks@[j2].first.address@ == a2.first.address@);
        assert(b.clusters@[i].chunks@[j2].second.address@ == a2.second.address@);
    }
    assert forall|p: int| 0 <= p < b.all_proxies@.len() implies ((
    #[trigger] b.all_proxies@[p]).cluster matches Some(n) ==> b.appears_in_cluster(
        b.all_proxies@[p].address@,
        n@,
    )) by {
        if b.all_proxies@[p].cluster is Some {
            let n = b.all_proxies@[p].cluster->0;
            assert(a.appears_in_cluster(a.all_proxies@[p].address@, n@));
            let (i, j) = choose|i: int, j: int|
                0 <= i < a.clusters@.len() && 0 <= j < a.clusters@[i].chunks@.len()
                    && a.clusters@[i].name@ == n@ && ((
                #[trigger] a.clusters@[i].chunks@[j]).first.address@ == a.all_proxies@[p].address@
                    || a.clusters@[i].chunks@[j].second.address@ == a.all_proxies@[p].address@);
            assert(0 <= i < b.clusters@.len() && 0 <= j < b.clusters@[i].chunks@.len()
                && b.clusters@[i].name@ == n@ && ((
            #[trigger] b.clusters@[i].chunks@[j]).first.address@ == b.all_proxies@[p].address@
                || b.clusters@[i].chunks@[j].second.address@ == b.all_proxies@[p].address@));
        }
    }
    if b.enable_ordered_proxy && b.clusters@.len() == 1 {
        assert(chunks_same_addresses(a.clusters@[0].chunks@, b.clusters@[0].chunks@));
        assert forall|j: int| 0 <= j < b.clusters@[0].chunks@.len() implies (
        #[trigger] b.clusters@[0].chunks@[j]).first.address@ == b.all_proxies@[2 * j].address@
            && b.clusters@[0].chunks@[j].second.address@ == b.all_proxies@[2 * j
            + 1].address@ by {
            assert(a.clusters@[0].chunks@[j].first.address@ == a.all_proxies@[2 * j].address@);
            assert(a.clusters@[0].chunks@[j].second.address@ == a.all_proxies@[2 * j
                + 1].address@);
        }
    }
}

/// `b`'s failure records are `a`'s with every stale report dropped.
pub open spec fn failures_pruned(a: MetaStore, b: MetaStore, ttl: i64, now: i64) -> bool {
    &&& b.failures@.len() == a.failures@.len()
    &&& forall|i: int|
        0 <= i < b.failures@.len() ==> (#[trigger] b.failures@[i]).address@
            == a.failures@[i].address@
    &&& forall|x: Seq<char>, rep: Seq<char>, t: i64|
        #[trigger] has_report(b.failures@, x, rep, t) == (has_report(a.failures@, x, rep, t)
            && report_fresh(t, ttl, now))
}

/// `r` lists exactly the addresses failed by quorum in `fs`, each once.
pub open spec fn failed_list_exact(
    r: Seq<String>,
    fs: Seq<FailureRecord>,
    ttl: i64,
    now: i64,
    quorum: u64,
) -> bool {
    &&& forall|k: int| 0 <= k < r.len() ==> addr_failed(fs, (#[trigger] r[k])@, ttl, now, quorum)
    &&& forall|a: Seq<char>|
        addr_failed(fs, a, ttl, now, quorum) ==> exists|k: int| 0 <= k < r.len() && (#[trigger] r[k])@ == a
    &&& forall|k1: int, k2: int|
        0 <= k1 < r.len() && 0 <= k2 < r.len() && k1 != k2 ==> (#[trigger] r[k1])@ != (
        #[trigger] r[k2])@
}

/// `r` lists exactly the addresses failed by quorum at time `now` and
/// bound to some cluster, each once.
pub open spec fn failed_bound_list_exact(
    r: Seq<String>,
    fs: Seq<FailureRecord>,
    ps: Seq<ProxyResource>,
    ttl: i64,
    now: i64,
    quorum: u64,
) -> bool {
    &&& forall|k: int|
        0 <= k < r.len() ==> #[trigger] addr_failed(fs, r[k]@, ttl, now, quorum)
            && proxy_bound_any(ps, r[k]@)
    &&& forall|a: Seq<char>|
        addr_failed(fs, a, ttl, now, quorum) && proxy_bound_any(ps, a) ==> exists|k: int|
            0 <= k < r.len() && (#[trigger] r[k])@ == a
    &&& forall|k1: int, k2: int|
        0 <= k1 < r.len() && 0 <= k2 < r.len() && k1 != k2 ==> (#[trigger] r[k1])@ != (
        #[trigger] r[k2])@
}

impl MetaStore {
    /// Drop the reports of record `i` that are stale at time `now`.
    fn prune_record(&mut self, i: usize, ttl: i64, now: i64)
        requires
            old(self).inv(),
            i < old(self).failures@.len(),
        ensures
            final(self).inv(),
            only_failures_changed(*old(self), *final(self)),
            final(self).failures@.len() == old(self).failures@.len(),
            forall|i2: int|
                0 <= i2 < old(self).failures@.len() && i2 != i ==> final(self).failures@[i2]
                    == old(self).failures@[i2],
            final(self).failures@[i as int].address == old(self).failures@[i as int].address,
            final(self).failures@[i as int].reports@.len() == fresh_count(
                old(self).failures@[i as int].reports@,
                ttl,
                now,
            ),
            forall|rep: Seq<char>, t: i64|
                #[trigger] rec_has(final(self).failures@[i as int].reports@, rep, t) == (rec_has(
                    old(self).failures@[i as int].reports@,
                    rep,
                    t,
                ) && report_fresh(t, ttl, now)),
    {
        let ghost pre = *self;
        let ghost orep = self.failures@[i as int].reports@;
        let m = self.failures[i].reports.len();
        let mut kept: Vec<FailureReport> = Vec::new();
        let mut k: usize = 0;
        while k < m
            invariant
                pre.inv(),
                *self == pre,
                i < self.failures@.len(),
                orep == self.failures@[i as int].reports@,
                m == orep.len(),
                k <= m,
                kept@.len() == fresh_count(orep.take(k as int), ttl, now),
                forall|x: int|
                    0 <= x < kept@.len() ==> report_fresh(
                        (#[trigger] kept@[x]).reported_at,
                        ttl,
                        now,
                    ) && exists|y: int|
                        0 <= y < k && (#[trigger] orep[y]).reporter_id@ == kept@[x].reporter_id@
                            && orep[y].reported_at == kept@[x].reported_at,
                forall|y: int|
                    0 <= y < k && report_fresh((#[trigger] orep[y]).reported_at, ttl, now)
                        ==> rec_has(kept@, orep[y].reporter_id@, orep[y].reported_at),
                forall|x1: int, x2: int|
                    0 <= x1 < kept@.len() && 0 <= x2 < kept@.len() && x1 != x2 ==> (
                    #[trigger] kept@[x1]).reporter_id@ != (#[trigger] kept@[x2]).reporter_id@,
            decreases m - k,
        {
            let t = self.failures[i].reports[k].reported_at;
            proof {
                assert(orep.take(k + 1).drop_last() =~= orep.take(k as int));
                assert(orep.take(k + 1).last() == orep[k as int]);
            }
            if (t as i128) + (ttl as i128) >= (now as i128) {
                let id = self.failures[i].reports[k].reporter_id.clone();
                proof {
                    assert forall|x: int| 0 <= x < kept@.len() implies (
                    #[trigger] kept@[x]).reporter_id@ != orep[k as int].reporter_id@ by {
                        let y = choose|y: int|
                            0 <= y < k && (#[trigger] orep[y]).reporter_id@ == kept@[x].reporter_id@
                                && orep[y].reported_at == kept@[x].reported_at;
                        assert(pre.failures@[i as int].reports@[y].reporter_id@
                            != pre.failures@[i as int].reports@[k as int].reporter_id@);
                    }
                }
                let ghost kept_before = kept@;
                kept.push(FailureReport { reporter_id: id, reported_at: t });
                proof {
                    assert(kept@ == kept_before.push(
                        FailureReport { reporter_id: id, reported_at: t },
                    ));
                    assert forall|y: int|
                        0 <= y < k + 1 && report_fresh(
                            (#[trigger] orep[y]).reported_at,
                            ttl,
                            now,
                        ) implies rec_has(kept@, orep[y].reporter_id@, orep[y].reported_at) by {
                        if y < k {
                            let x = choose|x: int|
                                0 <= x < kept_before.len() && (#[trigger] kept_before[x]).reporter_id@
                                    == orep[y].reporter_id@ && kept_before[x].reported_at
                                    == orep[y].reported_at;
                            assert(kept@[x] == kept_before[x]);
                        } else {
                            assert(kept@.last().reporter_id@ == orep[k as int].reporter_id@);
                        }
                    }
                }
            } else {
                proof {
                    assert forall|y: int|
                        0 <= y < k + 1 && report_fresh(
                            (#[trigger] orep[y]).reported_at,
                            ttl,
                            now,
                        ) implies rec_has(kept@, orep[y].reporter_id@, orep[y].reported_at) by {
                        if y < k {
                            assert(rec_has(kept@, orep[y].reporter_id@, orep[y].reported_at));
                        } else {
                            assert(!report_fresh(orep[y].reported_at, ttl, now));
                        }
                    }
                }
            }
            k = k + 1;
        }
        proof {
            assert(orep.take(m as int) =~= orep);
        }
        let rec = &mut self.failures[i];
        rec.reports = kept;
        proof {
            let b = *self;
            assert forall|rep: Seq<char>, t: i64| #[trigger] rec_has(
                b.failures@[i as int].reports@,
                rep,
                t,
            ) == (rec_has(orep, rep, t) && report_fresh(t, ttl, now)) by {
                if rec_has(b.failures@[i as int].reports@, rep, t) {
                    let x = choose|x: int|
                        0 <= x < b.failures@[i as int].reports@.len() && (
                        #[trigger] b.failures@[i as int].reports@[x]).reporter_id@ == rep
                            && b.failures@[i as int].reports@[x].reported_at == t;
                    assert(report_fresh(t, ttl, now));
                    let y = choose|y: int|
                        0 <= y < m && (#[trigger] orep[y]).reporter_id@ == rep && orep[y].reported_at
                            == t;
                    assert(rec_has(orep, rep, t));
                }
                if rec_has(orep, rep, t) && report_fresh(t, ttl, now) {
                    let y = choose|y: int|
                        0 <= y < orep.len() && (#[trigger] orep[y]).reporter_id@ == rep
                            && orep[y].reported_at == t;
                    assert(rec_has(b.failures@[i as int].reports@, rep, t));
                }
            }
            assert(b.failures_wf()) by {
                assert forall|i1: int, i2: int|
                    0 <= i1 < b.failures@.len() && 0 <= i2 < b.failures@.len() && i1 != i2 implies (
                #[trigger] b.failures@[i1]).address@ != (#[trigger] b.failures@[i2]).address@ by {
                    assert(b.failures@[i1].address@ == pre.failures@[i1].address@);
                    assert(b.failures@[i2].address@ == pre.failures@[i2].address@);
                }
                assert forall|i0: int, k1: int, k2: int|
                    0 <= i0 < b.failures@.len() && 0 <= k1 < b.failures@[i0].reports@.len() && 0
                        <= k2 < b.failures@[i0].reports@.len() && k1 != k2 implies (
                #[trigger] b.failures@[i0].reports@[k1]).reporter_id@ != (
                #[trigger] b.failures@[i0].reports@[k2]).reporter_id@ by {
                    if i0 != i {
                        assert(b.failures@[i0] == pre.failures@[i0]);
                    }
                }
            }
            failures_only_preserve_inv(pre, b);
        }
    }

    /// Prune stale reports everywhere and return every address with at
    /// least `quorum` fresh witnesses.
    #[verifier::rlimit(100)]
    pub fn get_failures_at(&mut self, ttl: i64, quorum: u64, now: i64) -> (r: Vec<String>)
        requires
            old(self).inv(),
        ensures
            final(self).inv(),
            only_failures_changed(*old(self), *final(self)),
            failures_pruned(*old(self), *final(self), ttl, now),
            failed_list_exact(r@, old(self).failures@, ttl, now, quorum),
    {
        let ghost pre = *self;
        let n = self.failures.len();
        let mut result: Vec<String> = Vec::new();
        let mut i: usize = 0;
        while i < n
            invariant
                pre.inv(),
                self.inv(),
                only_failures_changed(pre, *self),
                n == self.failures@.len(),
                n == pre.failures@.len(),
                i <= n,
                forall|i2: int| i <= i2 < n ==> self.failures@[i2] == pre.failures@[i2],
                forall|i2: int|
                    0 <= i2 < i ==> (#[trigger] self.failures@[i2]).address
                        == pre.failures@[i2].address && self.failures@[i2].reports@.len()
                        == fresh_count(pre.failures@[i2].reports@, ttl, now),
                forall|i2: int, rep: Seq<char>, t: i64|
                    0 <= i2 < i ==> #[trigger] rec_has(self.failures@[i2].reports@, rep, t) == (
                    rec_has(pre.failures@[i2].reports@, rep, t) && report_fresh(t, ttl, now)),
                forall|k: int|
                    0 <= k < result@.len() ==> addr_failed(
                        pre.failures@,
                        (#[trigger] result@[k])@,
                        ttl,
                        now,
                        quorum,
                    ),
                forall|k: int, i2: int|
                    0 <= k < result@.len() && i <= i2 < n ==> (#[trigger] result@[k])@ != (
                    #[trigger] pre.failures@[i2]).address@,
                forall|i2: int|
                    0 <= i2 < i && fresh_count(
                        (#[trigger] pre.failures@[i2]).reports@,
                        ttl,
                        now,
                    ) >= quorum ==> exists|k: int|
                        0 <= k < result@.len() && (#[trigger] result@[k])@
                            == pre.failures@[i2].address@,
                forall|k1: int, k2: int|
                    0 <= k1 < result@.len() && 0 <= k2 < result@.len() && k1 != k2 ==> (
                    #[trigger] result@[k1])@ != (#[trigger] result@[k2])@,
            decreases n - i,
        {
            let ghost mid = *self;
            self.prune_record(i, ttl, now);
            proof {
                assert forall|i2: int, rep: Seq<char>, t: i64| 0 <= i2 < i + 1 implies
                #[trigger] rec_has(self.failures@[i2].reports@, rep, t) == (rec_has(
                    pre.failures@[i2].reports@,
                    rep,
                    t,
                ) && report_fresh(t, ttl, now)) by {
                    if i2 < i {
                        assert(self.failures@[i2] == mid.failures@[i2]);
                    }
                }
            }
            let cnt = self.failures[i].reports.len();
            if cnt as u64 >= quorum {
                let a = self.failures[i].address.clone();
                let ghost res_before = result@;
                result.push(a);
                proof {
                    assert(result@ == res_before.push(a));
                    assert(result@.last()@ == pre.failures@[i as int].address@);
                    assert(fresh_count(pre.failures@[i as int].reports@, ttl, now) >= quorum);
                    assert forall|i2: int|
                        0 <= i2 < i + 1 && fresh_count(
                            (#[trigger] pre.failures@[i2]).reports@,
                            ttl,
                            now,
                        ) >= quorum implies exists|k: int|
                        0 <= k < result@.len() && (#[trigger] result@[k])@
                            == pre.failures@[i2].address@ by {
                        if i2 < i {
                            let k = choose|k: int|
                                0 <= k < res_before.len() && (#[trigger] res_before[k])@
                                    == pre.failures@[i2].address@;
                            assert(result@[k] == res_before[k]);
                        } else {
                            assert(result@[result@.len() - 1]@ == pre.failures@[i2].address@);
                        }
                    }
                    assert forall|k: int, i2: int|
                        0 <= k < result@.len() && i + 1 <= i2 < n implies (#[trigger] result@[k])@
                            != (#[trigger] pre.failures@[i2]).address@ by {
                        if k < res_before.len() {
                            assert(result@[k] == res_before[k]);
                        } else {
                            assert(result@[k]@ == pre.failures@[i as int].address@);
                            assert(pre.failures@[i as int].address@
                                != pre.failures@[i2].address@);
                        }
                    }
                    assert forall|k: int| 0 <= k < result@.len() implies addr_failed(
                        pre.failures@,
                        (#[trigger] result@[k])@,
                        ttl,
                        now,
                        quorum,
                    ) by {
                        if k < res_before.len() {
                            assert(result@[k] == res_before[k]);
                        } else {
                            assert(result@[k]@ == pre.failures@[i as int].address@ && fresh_count(
                                pre.failures@[i as int].reports@,
                                ttl,
                                now,
                            ) >= quorum);
                            assert(addr_failed(pre.failures@, result@[k]@, ttl, now, quorum));
                        }
                    }
                }
            } else {
                proof {
                    assert(fresh_count(pre.failures@[i as int].reports@, ttl, now) < quorum);
                }
            }
            i = i + 1;
        }
        proof {
            assert(failures_pruned(pre, *self, ttl, now)) by {
                assert forall|x: Seq<char>, rep: Seq<char>, t: i64| #[trigger] has_report(
                    self.failures@,
                    x,
                    rep,
                    t,
                ) == (has_report(pre.failures@, x, rep, t) && report_fresh(t, ttl, now)) by {
                    if has_report(self.failures@, x, rep, t) {
                        let i2 = choose|i2: int|
                            0 <= i2 < self.failures@.len() && (#[trigger] self.failures@[i2]).address@
                                == x && rec_has(self.failures@[i2].reports@, rep, t);
                        assert(rec_has(pre.failures@[i2].reports@, rep, t));
                        assert(has_report(pre.failures@, x, rep, t));
                    }
                    if has_report(pre.failures@, x, rep, t) && report_fresh(t, ttl, now) {
                        let i2 = choose|i2: int|
                            0 <= i2 < pre.failures@.len() && (#[trigger] pre.failures@[i2]).address@
                                == x && rec_has(pre.failures@[i2].reports@, rep, t);
                        assert(rec_has(self.failures@[i2].reports@, rep, t));
                        assert(self.failures@[i2].address@ == x);
                        assert(has_report(self.failures@, x, rep, t));
                    }
                }
            }
            assert(failed_list_exact(result@, pre.failures@, ttl, now, quorum)) by {
                assert forall|a: Seq<char>|
                    addr_failed(pre.failures@, a, ttl, now, quorum) implies exists|k: int|
                    0 <= k < result@.len() && (#[trigger] result@[k])@ == a by {
                    let i2 = choose|i2: int|
                        0 <= i2 < pre.failures@.len() && (#[trigger] pre.failures@[i2]).address@
                            == a && fresh_count(pre.failures@[i2].reports@, ttl, now) >= quorum;
                }
            }
        }
        result
    }

    /// Like `get_failures_at`, but read-only and keeping only addresses
    /// currently bound to a cluster.
    #[verifier::rlimit(100)]
    pub fn get_failed_proxies_at(&self, ttl: i64, quorum: u64, now: i64) -> (r: Vec<String>)
        requires
            self.inv(),
        ensures
            forall|k: int|
                0 <= k < r@.len() ==> addr_failed(
                    self.failures@,
                    (#[trigger] r@[k])@,
                    ttl,
                    now,
                    quorum,
                ) && proxy_bound_any(self.all_proxies@, r@[k]@),
            forall|a: Seq<char>|
                addr_failed(self.failures@, a, ttl, now, quorum) && proxy_bound_any(
                    self.all_proxies@,
                    a,
                ) ==> exists|k: int| 0 <= k < r@.len() && (#[trigger] r@[k])@ == a,
            forall|k1: int, k2: int|
                0 <= k1 < r@.len() && 0 <= k2 < r@.len() && k1 != k2 ==> (#[trigger] r@[k1])@ != (
                #[trigger] r@[k2])@,
    {
        let n = self.failures.len();
        let mut result: Vec<String> = Vec::new();
        let mut i: usize = 0;
        while i < n
            invariant
                self.inv(),
                n == self.failures@.len(),
                i <= n,
                forall|k: int|
                    0 <= k < result@.len() ==> addr_failed(
                        self.failures@,
                        (#[trigger] result@[k])@,
                        ttl,
                        now,
                        quorum,
                    ) && proxy_bound_any(self.all_proxies@, result@[k]@),
                forall|k: int, i2: int|
                    0 <= k < result@.len() && i <= i2 < n ==> (#[trigger] result@[k])@ != (
                    #[trigger] self.failures@[i2]).address@,
                forall|i2: int|
                    0 <= i2 < i && fresh_count(
                        (#[trigger] self.failures@[i2]).reports@,
                        ttl,
                        now,
                    ) >= quorum && proxy_bound_any(self.all_proxies@, self.failures@[i2].address@)
                        ==> exists|k: int|
                        0 <= k < result@.len() && (#[trigger] result@[k])@
                            == self.failures@[i2].address@,
                forall|k1: int, k2: int|
                    0 <= k1 < result@.len() && 0 <= k2 < result@.len() && k1 != k2 ==> (
                    #[trigger] result@[k1])@ != (#[trigger] result@[k2])@,
            decreases n - i,
        {
            let ghost orep = self.failures@[i as int].reports@;
            let m = self.failures[i].reports.len();
            let mut cnt: usize = 0;
            let mut k: usize = 0;
            while k < m
                invariant
                    i < self.failures@.len(),
                    orep == self.failures@[i as int].reports@,
                    m == orep.len(),
                    k <= m,
                    cnt <= k,
                    cnt == fresh_count(orep.take(k as int), ttl, now),
                decreases m - k,
            {
                proof {
                    assert(orep.take(k + 1).drop_last() =~= orep.take(k as int));
                    assert(orep.take(k + 1).last() == orep[k as int]);
                }
                let t = self.failures[i].reports[k].reported_at;
                if (t as i128) + (ttl as i128) >= (now as i128) {
                    cnt = cnt + 1;
                }
                k = k + 1;
            }
            proof {
                assert(orep.take(m as int) =~= orep);
            }
            let pos = self.find_proxy_pos(&self.failures[i].address);
            let bound = match pos {
                Some(p) => self.all_proxies[p].cluster.is_some(),
                None => false,
            };
            proof {
                let a = self.failures@[i as int].address@;
                if bound {
                    assert(proxy_bound_any(self.all_proxies@, a));
                } else {
                    assert(!proxy_bound_any(self.all_proxies@, a)) by {
                        if proxy_bound_any(self.all_proxies@, a) {
                            let p2 = choose|p2: int|
                                0 <= p2 < self.all_proxies@.len() && (
                                #[trigger] self.all_proxies@[p2]).address@ == a && !(
                                self.all_proxies@[p2].cluster is None);
                            match pos {
                                Some(p) => {
                                    assert(p2 == p as int);
                                },
                                None => {
                                    assert(self.all_proxies@[p2].address@ != a);
                                },
                            }
                        }
                    }
                }
            }
            if cnt as u64 >= quorum && bound {
                let a = self.failures[i].address.clone();
                let ghost res_before = result@;
                result.push(a);
                proof {
                    assert(result@ == res_before.push(a));
                    assert(result@.last()@ == self.failures@[i as int].address@);
                    assert(fresh_count(self.failures@[i as int].reports@, ttl, now) >= quorum);
                    assert forall|i2: int|
                        0 <= i2 < i + 1 && fresh_count(
                            (#[trigger] self.failures@[i2]).reports@,
                            ttl,
                            now,
                        ) >= quorum && proxy_bound_any(
                            self.all_proxies@,
                            self.failures@[i2].address@,
                        ) implies exists|k: int|
                        0 <= k < result@.len() && (#[trigger] result@[k])@
                            == self.failures@[i2].address@ by {
                        if i2 < i {
                            let k = choose|k: int|
                                0 <= k < res_before.len() && (#[trigger] res_before[k])@
                                    == self.failures@[i2].address@;
                            assert(result@[k] == res_before[k]);
                        } else {
                            assert(result@[result@.len() - 1]@ == self.failures@[i2].address@);
                        }
                    }
                    assert forall|k: int, i2: int|
                        0 <= k < result@.len() && i + 1 <= i2 < n implies (#[trigger] result@[k])@
                            != (#[trigger] self.failures@[i2]).address@ by {
                        if k < res_before.len() {
                            assert(result@[k] == res_before[k]);
                        } else {
                            assert(result@[k]@ == self.failures@[i as int].address@);
                            assert(self.failures@[i as int].address@
                                != self.failures@[i2].address@);
                        }
                    }
                    assert forall|k: int| 0 <= k < result@.len() implies addr_failed(
                        self.failures@,
                        (#[trigger] result@[k])@,
                        ttl,
                        now,
                        quorum,
                    ) && proxy_bound_any(self.all_proxies@, result@[k]@) by {
                        if k < res_before.len() {
                            assert(result@[k] == res_before[k]);
                        } else {
                            assert(result@[k]@ == self.failures@[i as int].address@
                                && fresh_count(self.failures@[i as int].reports@, ttl, now)
                                >= quorum && proxy_bound_any(self.all_proxies@, result@[k]@));
                            assert(addr_failed(self.failures@, result@[k]@, ttl, now, quorum));
                        }
                    }
                }
            }
            i = i + 1;
        }
        proof {
            assert forall|a: Seq<char>|
                addr_failed(self.failures@, a, ttl, now, quorum) && proxy_bound_any(
                    self.all_proxies@,
                    a,
                ) implies exists|k: int| 0 <= k < result@.len() && (#[trigger] result@[k])@ == a by {
                let i2 = choose|i2: int|
                    0 <= i2 < self.failures@.len() && (#[trigger] self.failures@[i2]).address@ == a
                        && fresh_count(self.failures@[i2].reports@, ttl, now) >= quorum;
            }
        }
        result
    }

    /// Record a failure witness stamped with the current wall-clock time.
    pub fn add_failure(&mut self, address: String, reporter_id: String)
        requires
            old(self).inv(),
        ensures
            final(self).inv(),
            only_failures_changed(*old(self), *final(self)),
            exists|now: i64|
                {
                    &&& #[trigger] has_report(final(self).failures@, address@, reporter_id@, now)
                    &&& forall|t: i64|
                        has_report(final(self).failures@, address@, reporter_id@, t) ==> t == now
                    &&& forall|a: Seq<char>, rep: Seq<char>, t: i64|
                        a != address@ || rep != reporter_id@ ==> #[trigger] has_report(
                            final(self).failures@,
                            a,
                            rep,
                            t,
                        ) == has_report(old(self).failures@, a, rep, t)
                },
    {
        let now = now_seconds();
        self.add_failure_at(address, reporter_id, now);
    }

    /// Prune with the current wall-clock time and return the failed
    /// addresses.
    pub fn get_failures(&mut self, ttl: i64, quorum: u64) -> (r: Vec<String>)
        requires
            old(self).inv(),
        ensures
            final(self).inv(),
            only_failures_changed(*old(self), *final(self)),
            exists|now: i64|
                #[trigger] failures_pruned(*old(self), *final(self), ttl, now) && failed_list_exact(
                    r@,
                    old(self).failures@,
                    ttl,
                    now,
                    quorum,
                ),
    {
        let now = now_seconds();
        self.get_failures_at(ttl, quorum, now)
    }

    /// The failed addresses, at the current wall-clock time, that are
    /// bound to a cluster.
    pub fn get_failed_proxies(&self, ttl: i64, quorum: u64) -> (r: Vec<String>)
        requires
            self.inv(),
        ensures
            exists|now: i64|
                #[trigger] failed_bound_list_exact(
                    r@,
                    self.failures@,
                    self.all_proxies@,
                    ttl,
                    now,
                    quorum,
                ),
    {
        let now = now_seconds();
        let r = self.get_failed_proxies_at(ttl, quorum, now);
        proof {
            assert(failed_bound_list_exact(
                r@,
                self.failures@,
                self.all_proxies@,
                ttl,
                now,
                quorum,
            ));
        }
        r
    }
}

/// Relies on `std::time::SystemTime::now` for the wall-clock time in
/// whole seconds since the epoch; a clock set before the epoch reads as
/// zero rather than failing, and nothing is assumed of the value.
#[verifier::external_body]
fn now_seconds() -> i64 {
    match std::time::SystemTime::now().duration_since(std::time::UNIX_EPOCH) {
        Ok(d) => i64::try_from(d.as_secs()).unwrap_or(i64::MAX),
        Err(_) => 0,
    }
}

/// The spec-level host of a proxy address under the given optional
/// explicit host: the explicit one where present, else everything before
/// the first colon of the address.
pub open spec fn effective_host(addr: Seq<char>, host: Option<String>, stored: Seq<char>) -> bool {
    match host {
        Some(h) => stored == h@,
        None => exists|n: int| #[trigger] crate::strfmt::first_colon_at(addr, n) && stored == addr.take(n),
    }
}

impl MetaStore {
    /// Register a free proxy resource with its two storage nodes.
    ///
    /// The address must be new; without an explicit host the address must
    /// hold a colon so a host can be cut from it; under ordered mode an
    /// index is mandatory and must continue the dense sequence.
    pub fn add_proxy(
        &mut self,
        proxy_address: String,
        node1: String,
        node2: String,
        host: Option<String>,
        index: Option<usize>,
    ) -> (r: Result<(), MetaStoreError>)
        requires
            old(self).inv(),
            old(self).global_epoch < u64::MAX,
        ensures
            final(self).inv(),
            r is Err ==> *final(self) == *old(self),
            r == Err::<(), MetaStoreError>(MetaStoreError::AlreadyExisted) <==> proxy_registered(
                old(self).all_proxies@,
                proxy_address@,
            ),
            r == Err::<(), MetaStoreError>(MetaStoreError::InvalidProxyAddress) <==> !proxy_registered(
                old(self).all_proxies@,
                proxy_address@,
            ) && host is None && !(exists|n: int| crate::strfmt::first_colon_at(proxy_address@, n)),
            r == Err::<(), MetaStoreError>(MetaStoreError::MissingIndex) <==> !proxy_registered(
                old(self).all_proxies@,
                proxy_address@,
            ) && !(host is None && !(exists|n: int|
                crate::strfmt::first_colon_at(proxy_address@, n)
            )) && old(self).enable_ordered_proxy && index is None,
            r == Err::<(), MetaStoreError>(MetaStoreError::ProxyResourceOutOfOrder) <==> !proxy_registered(
                old(self).all_proxies@,
                proxy_address@,
            ) && !(host is None && !(exists|n: int|
                crate::strfmt::first_colon_at(proxy_address@, n)
            )) && old(self).enable_ordered_proxy && (index matches Some(i) && i != old(
                self,
            ).all_proxies@.len()),
            r is Ok <==> !proxy_registered(old(self).all_proxies@, proxy_address@) && !(host is None
                && !(exists|n: int| crate::strfmt::first_colon_at(proxy_address@, n))) && (old(
                self,
            ).enable_ordered_proxy ==> index == Some(old(self).all_proxies@.len() as usize)),
            r is Ok ==> {
                &&& final(self).global_epoch == old(self).global_epoch + 1
                &&& final(self).clusters == old(self).clusters
                &&& final(self).failures == old(self).failures
                &&& final(self).version == old(self).version
                &&& final(self).enable_ordered_proxy == old(self).enable_ordered_proxy
                &&& final(self).all_proxies@.len() == old(self).all_proxies@.len() + 1
                &&& forall|p: int|
                    0 <= p < old(self).all_proxies@.len() ==> final(self).all_proxies@[p] == old(
                        self,
                    ).all_proxies@[p]
                &&& final(self).all_proxies@.last().address == proxy_address
                &&& final(self).all_proxies@.last().node1 == node1
                &&& final(self).all_proxies@.last().node2 == node2
                &&& final(self).all_proxies@.last().cluster is None
                &&& effective_host(
                    proxy_address@,
                    host,
                    final(self).all_proxies@.last().host@,
                )
            },
    {
        if self.find_proxy_pos(&proxy_address).is_some() {
            return Err(MetaStoreError::AlreadyExisted);
        }
        let host_val = match host {
            Some(h) => h,
            None => match crate::strfmt::host_of_address(&proxy_address) {
                Some(h) => h,
                None => {
                    return Err(MetaStoreError::InvalidProxyAddress);
                },
            },
        };
        let idx = if self.enable_ordered_proxy {
            match index {
                None => {
                    return Err(MetaStoreError::MissingIndex);
                },
                Some(i) => {
                    if i != self.all_proxies.len() {
                        return Err(MetaStoreError::ProxyResourceOutOfOrder);
                    }
                    Some(i)
                },
            }
        } else {
            index
        };
        let ghost pre = *self;
        self.all_proxies.push(
            ProxyResource {
                address: proxy_address,
                host: host_val,
                node1,
                node2,
                index: idx,
                cluster: None,
            },
        );
        self.global_epoch = self.global_epoch + 1;
        proof {
            let b = *self;
            assert(b.proxies_unique()) by {
                assert forall|p1: int, p2: int|
                    0 <= p1 < b.all_proxies@.len() && 0 <= p2 < b.all_proxies@.len() && p1 != p2 implies (
                #[trigger] b.all_proxies@[p1]).address@ != (#[trigger] b.all_proxies@[p2]).address@ by {
                    if p1 < pre.all_proxies@.len() && p2 < pre.all_proxies@.len() {
                        assert(b.all_proxies@[p1] == pre.all_proxies@[p1]);
                        assert(b.all_proxies@[p2] == pre.all_proxies@[p2]);
                    }
                }
            }
            assert(b.chunk_proxies_bound()) by {
                assert forall|i: int, j: int|
                    0 <= i < b.clusters@.len() && 0 <= j < b.clusters@[i].chunks@.len() implies b.has_proxy_bound(
                    (#[trigger] b.clusters@[i].chunks@[j]).first.address@,
                    b.clusters@[i].name@,
                ) && b.has_proxy_bound(
                    b.clusters@[i].chunks@[j].second.address@,
                    b.clusters@[i].name@,
                ) by {
                    assert(pre.has_proxy_bound(
                        pre.clusters@[i].chunks@[j].first.address@,
                        pre.clusters@[i].name@,
                    ));
                    assert(pre.has_proxy_bound(
                        pre.clusters@[i].chunks@[j].second.address@,
                        pre.clusters@[i].name@,
                    ));
                    let p1 = choose|p: int|
                        0 <= p < pre.all_proxies@.len() && (#[trigger] pre.all_proxies@[p]).address@
                            == pre.clusters@[i].chunks@[j].first.address@
                            && pre.all_proxies@[p].bound_to(pre.clusters@[i].name@);
                    let p2 = choose|p: int|
                        0 <= p < pre.all_proxies@.len() && (#[trigger] pre.all_proxies@[p]).address@
                            == pre.clusters@[i].chunks@[j].second.address@
                            && pre.all_proxies@[p].bound_to(pre.clusters@[i].name@);
                    assert(b.all_proxies@[p1] == pre.all_proxies@[p1]);
                    assert(b.all_proxies@[p2] == pre.all_proxies@[p2]);
                }
            }
            assert(b.bindings_backed()) by {
                assert forall|p: int| 0 <= p < b.all_proxies@.len() implies ((
                #[trigger] b.all_proxies@[p]).cluster matches Some(n) ==> b.appears_in_cluster(
                    b.all_proxies@[p].address@,
                    n@,
                )) by {
                    if p < pre.all_proxies@.len() {
                        assert(b.all_proxies@[p] == pre.all_proxies@[p]);
                        if b.all_proxies@[p].cluster is Some {
                            let n = b.all_proxies@[p].cluster->0;
                            assert(pre.appears_in_cluster(pre.all_proxies@[p].address@, n@));
                            let (i, j) = choose|i: int, j: int|
                                0 <= i < pre.clusters@.len() && 0 <= j
                                    < pre.clusters@[i].chunks@.len() && pre.clusters@[i].name@ == n@
                                    && ((#[trigger] pre.clusters@[i].chunks@[j]).first.address@
                                    == pre.all_proxies@[p].address@
                                    || pre.clusters@[i].chunks@[j].second.address@
                                    == pre.all_proxies@[p].address@);
                            assert(0 <= i < b.clusters@.len() && 0 <= j
                                < b.clusters@[i].chunks@.len() && b.clusters@[i].name@ == n@ && ((
                            #[trigger] b.clusters@[i].chunks@[j]).first.address@
                                == b.all_proxies@[p].address@
                                || b.clusters@[i].chunks@[j].second.address@
                                == b.all_proxies@[p].address@));
                        }
                    }
                }
            }
            assert(b.clusters_wf()) by {
                assert forall|i: int| 0 <= i < b.clusters@.len() implies (
                #[trigger] b.clusters@[i]).wf() && b.clusters@[i].epoch <= b.global_epoch by {
                    assert(pre.clusters@[i].wf());
                    assert(pre.clusters@[i].epoch <= pre.global_epoch);
                }
            }
            assert(b.ordered_wf()) by {
                if b.enable_ordered_proxy {
                    assert forall|p: int| 0 <= p < b.all_proxies@.len() implies (
                    #[trigger] b.all_proxies@[p]).index == Some(p as usize) by {
                        if p < pre.all_proxies@.len() {
                            assert(b.all_proxies@[p] == pre.all_proxies@[p]);
                        }
                    }
                }
            }
        }
        Ok(())
    }

    /// Remove a registered proxy; only free proxies can be removed, and
    /// under ordered mode only the one with the highest index.
    pub fn remove_proxy(&mut self, proxy_address: String) -> (r: Result<(), MetaStoreError>)
        requires
            old(self).inv(),
            old(self).global_epoch < u64::MAX,
        ensures
            final(self).inv(),
            r is Err ==> *final(self) == *old(self),
            r == Err::<(), MetaStoreError>(MetaStoreError::ProxyNotFound) <==> !proxy_registered(
                old(self).all_proxies@,
                proxy_address@,
            ),
            r == Err::<(), MetaStoreError>(MetaStoreError::InUse) <==> proxy_bound_any(
                old(self).all_proxies@,
                proxy_address@,
            ),
            r == Err::<(), MetaStoreError>(MetaStoreError::OrderedProxyEnabled) <==> proxy_registered(
                old(self).all_proxies@,
                proxy_address@,
            ) && !proxy_bound_any(old(self).all_proxies@, proxy_address@) && old(
                self,
            ).enable_ordered_proxy && (exists|p: int|
                0 <= p < old(self).all_proxies@.len() && (#[trigger] old(self).all_proxies@[p]).address@
                    == proxy_address@ && p != old(self).all_proxies@.len() - 1),
            r is Ok <==> proxy_registered(old(self).all_proxies@, proxy_address@)
                && !proxy_bound_any(old(self).all_proxies@, proxy_address@) && (old(
                self,
            ).enable_ordered_proxy ==> old(self).all_proxies@.last().address@ == proxy_address@),
            r is Ok ==> {
                &&& final(self).global_epoch == old(self).global_epoch + 1
                &&& final(self).clusters == old(self).clusters
                &&& final(self).failures == old(self).failures
                &&& final(self).version == old(self).version
                &&& final(self).enable_ordered_proxy == old(self).enable_ordered_proxy
                &&& final(self).all_proxies@.len() == old(self).all_proxies@.len() - 1
                &&& forall|a: Seq<char>|
                    a != proxy_address@ ==> (#[trigger] proxy_registered(
                        final(self).all_proxies@,
                        a,
                    )) == proxy_registered(old(self).all_proxies@, a)
                &&& !proxy_registered(final(self).all_proxies@, proxy_address@)
            },
    {
        let i = match self.find_proxy_pos(&proxy_address) {
            None => {
                return Err(MetaStoreError::ProxyNotFound);
            },
            Some(i) => i,
        };
        if self.all_proxies[i].cluster.is_some() {
            return Err(MetaStoreError::InUse);
        }
        if self.enable_ordered_proxy && i != self.all_proxies.len() - 1 {
            return Err(MetaStoreError::OrderedProxyEnabled);
        }
        let ghost pre = *self;
        let _removed = self.all_proxies.remove(i);
        self.global_epoch = self.global_epoch + 1;
        proof {
            let b = *self;
            assert forall|a: Seq<char>| a != proxy_address@ implies (#[trigger] proxy_registered(
                b.all_proxies@,
                a,
            )) == proxy_registered(pre.all_proxies@, a) by {
                if proxy_registered(b.all_proxies@, a) {
                    let p = choose|p: int|
                        0 <= p < b.all_proxies@.len() && (#[trigger] b.all_proxies@[p]).address@
                            == a;
                    if p < i {
                        assert(pre.all_proxies@[p].address@ == a);
                    } else {
                        assert(pre.all_proxies@[p + 1].address@ == a);
                    }
                }
                if proxy_registered(pre.all_proxies@, a) {
                    let p = choose|p: int|
                        0 <= p < pre.all_proxies@.len() && (#[trigger] pre.all_proxies@[p]).address@
                            == a;
                    assert(p != i);
                    if p < i {
                        assert(b.all_proxies@[p].address@ == a);
                    } else {
                        assert(b.all_proxies@[p - 1].address@ == a);
                    }
                }
            }
            assert(!proxy_registered(b.all_proxies@, proxy_address@)) by {
                if proxy_registered(b.all_proxies@, proxy_address@) {
                    let p = choose|p: int|
                        0 <= p < b.all_proxies@.len() && (#[trigger] b.all_proxies@[p]).address@
                            == proxy_address@;
                    if p < i {
                        assert(pre.all_proxies@[p].address@ == proxy_address@);
                        assert(pre.all_proxies@[i as int].address@ == proxy_address@);
                    } else {
                        assert(pre.all_proxies@[p + 1].address@ == proxy_address@);
                        assert(pre.all_proxies@[i as int].address@ == proxy_address@);
                    }
                }
            }
            assert(b.inv()) by {
                assert(b.proxies_unique()) by {
                    assert forall|p1: int, p2: int|
                        0 <= p1 < b.all_proxies@.len() && 0 <= p2 < b.all_proxies@.len() && p1 != p2 implies (
                    #[trigger] b.all_proxies@[p1]).address@ != (
                    #[trigger] b.all_proxies@[p2]).address@ by {
                        let q1: int = if p1 < i { p1 } else { p1 + 1 };
                        let q2: int = if p2 < i { p2 } else { p2 + 1 };
                        assert(b.all_proxies@[p1] == pre.all_proxies@[q1]);
                        assert(b.all_proxies@[p2] == pre.all_proxies@[q2]);
                    }
                }
                assert(b.chunk_proxies_bound()) by {
                    assert forall|ci: int, j: int|
                        0 <= ci < b.clusters@.len() && 0 <= j < b.clusters@[ci].chunks@.len() implies b.has_proxy_bound(
                        (#[trigger] b.clusters@[ci].chunks@[j]).first.address@,
                        b.clusters@[ci].name@,
                    ) && b.has_proxy_bound(
                        b.clusters@[ci].chunks@[j].second.address@,
                        b.clusters@[ci].name@,
                    ) by {
                        assert(pre.has_proxy_bound(
                            pre.clusters@[ci].chunks@[j].first.address@,
                            pre.clusters@[ci].name@,
                        ));
                        assert(pre.has_proxy_bound(
                            pre.clusters@[ci].chunks@[j].second.address@,
                            pre.clusters@[ci].name@,
                        ));
                        let p1 = choose|p: int|
                            0 <= p < pre.all_proxies@.len() && (
                            #[trigger] pre.all_proxies@[p]).address@
                                == pre.clusters@[ci].chunks@[j].first.address@
                                && pre.all_proxies@[p].bound_to(pre.clusters@[ci].name@);
                        let p2 = choose|p: int|
                            0 <= p < pre.all_proxies@.len() && (
                            #[trigger] pre.all_proxies@[p]).address@
                                == pre.clusters@[ci].chunks@[j].second.address@
                                && pre.all_proxies@[p].bound_to(pre.clusters@[ci].name@);
                        assert(p1 != i && p2 != i);
                        let q1: int = if p1 < i { p1 } else { p1 - 1 };
                        let q2: int = if p2 < i { p2 } else { p2 - 1 };
                        assert(b.all_proxies@[q1] == pre.all_proxies@[p1]);
                        assert(b.all_proxies@[q2] == pre.all_proxies@[p2]);
                    }
                }
                assert(b.bindings_backed()) by {
                    assert forall|p: int| 0 <= p < b.all_proxies@.len() implies ((
                    #[trigger] b.all_proxies@[p]).cluster matches Some(n) ==> b.appears_in_cluster(
                        b.all_proxies@[p].address@,
                        n@,
                    )) by {
                        let q: int = if p < i { p } else { p + 1 };
                        assert(b.all_proxies@[p] == pre.all_proxies@[q]);
                        if b.all_proxies@[p].cluster is Some {
                            let n = b.all_proxies@[p].cluster->0;
                            assert(pre.appears_in_cluster(pre.all_proxies@[q].address@, n@));
                            let (ci, j) = choose|ci: int, j: int|
                                0 <= ci < pre.clusters@.len() && 0 <= j
                                    < pre.clusters@[ci].chunks@.len() && pre.clusters@[ci].name@
                                    == n@ && ((#[trigger] pre.clusters@[ci].chunks@[j]).first.address@
                                    == pre.all_proxies@[q].address@
                                    || pre.clusters@[ci].chunks@[j].second.address@
                                    == pre.all_proxies@[q].address@);
                            assert(0 <= ci < b.clusters@.len() && 0 <= j
                                < b.clusters@[ci].chunks@.len() && b.clusters@[ci].name@ == n@ && ((
                            #[trigger] b.clusters@[ci].chunks@[j]).first.address@
                                == b.all_proxies@[p].address@
                                || b.clusters@[ci].chunks@[j].second.address@
                                == b.all_proxies@[p].address@));
                        }
                    }
                }
                assert(b.clusters_wf()) by {
                    assert forall|ci: int| 0 <= ci < b.clusters@.len() implies (
                    #[trigger] b.clusters@[ci]).wf() && b.clusters@[ci].epoch
                        <= b.global_epoch by {
                        assert(pre.clusters@[ci].wf());
                        assert(pre.clusters@[ci].epoch <= pre.global_epoch);
                    }
                }
                assert(b.ordered_wf()) by {
                    if b.enable_ordered_proxy {
                        assert forall|p: int| 0 <= p < b.all_proxies@.len() implies (
                        #[trigger] b.all_proxies@[p]).index == Some(p as usize) by {
                            assert(b.all_proxies@[p] == pre.all_proxies@[p]);
                        }
                        if b.clusters@.len() == 1 {
                            assert(2 * b.clusters@[0].chunks@.len() <= b.all_proxies@.len()) by {
                                if 2 * pre.clusters@[0].chunks@.len() == pre.all_proxies@.len() {
                                    let j = (i as int) / 2;
                                    assert(0 <= j < pre.clusters@[0].chunks@.len());
                                    assert(pre.has_proxy_bound(
                                        pre.clusters@[0].chunks@[j].first.address@,
                                        pre.clusters@[0].name@,
                                    ));
                                    assert(pre.has_proxy_bound(
                                        pre.clusters@[0].chunks@[j].second.address@,
                                        pre.clusters@[0].name@,
                                    ));
                                    if i as int == 2 * j {
                                        let p = choose|p: int|
                                            0 <= p < pre.all_proxies@.len() && (
                                            #[trigger] pre.all_proxies@[p]).address@
                                                == pre.clusters@[0].chunks@[j].first.address@
                                                && pre.all_proxies@[p].bound_to(
                                                pre.clusters@[0].name@,
                                            );
                                        assert(p == i as int);
                                        assert(pre.all_proxies@[i as int].cluster is Some);
                                    } else {
                                        let p = choose|p: int|
                                            0 <= p < pre.all_proxies@.len() && (
                                            #[trigger] pre.all_proxies@[p]).address@
                                                == pre.clusters@[0].chunks@[j].second.address@
                                                && pre.all_proxies@[p].bound_to(
                                                pre.clusters@[0].name@,
                                            );
                                        assert(p == i as int);
                                        assert(pre.all_proxies@[i as int].cluster is Some);
                                    }
                                }
                            }
                            assert forall|j: int| 0 <= j < b.clusters@[0].chunks@.len() implies (
                            #[trigger] b.clusters@[0].chunks@[j]).first.address@
                                == b.all_proxies@[2 * j].address@
                                && b.clusters@[0].chunks@[j].second.address@ == b.all_proxies@[2 * j
                                + 1].address@ by {
                                assert(b.all_proxies@[2 * j] == pre.all_proxies@[2 * j]);
                                assert(b.all_proxies@[2 * j + 1] == pre.all_proxies@[2 * j + 1]);
                            }
                        }
                    }
                }
            }
        }
        Ok(())
    }
}

/// There is a registered proxy with this address.
pub open spec fn proxy_registered(ps: Seq<ProxyResource>, a: Seq<char>) -> bool {
    exists|p: int| 0 <= p < ps.len() && (#[trigger] ps[p]).address@ == a
}

/// An ASCII letter or digit.
pub open spec fn char_alnum(c: char) -> bool {
    ('0' <= c <= '9') || ('A' <= c <= 'Z') || ('a' <= c <= 'z')
}

/// Cluster names are short and purely alphanumeric.
pub open spec fn valid_cluster_name(s: Seq<char>) -> bool {
    0 < s.len() <= 30 && forall|i: int| 0 <= i < s.len() ==> char_alnum(#[trigger] s[i])
}

/// Decides `valid_cluster_name`.
pub fn is_valid_cluster_name(name: &String) -> (r: bool)
    ensures
        r == valid_cluster_name(name@),
{
    let s = name.as_str();
    let len = s.unicode_len();
    if len == 0 || len > 30 {
        return false;
    }
    let mut i: usize = 0;
    while i < len
        invariant
            len == s@.len(),
            s@ == name@,
            0 < len <= 30,
            i <= len,
            forall|k: int| 0 <= k < i ==> char_alnum(#[trigger] s@[k]),
        decreases len - i,
    {
        let c = s.get_char(i);
        if !(('0' <= c && c <= '9') || ('A' <= c && c <= 'Z') || ('a' <= c && c <= 'z')) {
            return false;
        }
        i = i + 1;
    }
    true
}

/// A cluster with this name exists.
pub open spec fn cluster_exists(cs: Seq<ClusterStore>, name: Seq<char>) -> bool {
    exists|i: int| 0 <= i < cs.len() && (#[trigger] cs[i]).name@ == name
}

/// One chosen pair of proxy positions: in range, distinct, free, and on
/// distinct hosts unless ordered mode forces the pairing.
pub open spec fn pair_ok(pq: (usize, usize), ps: Seq<ProxyResource>, ordered: bool) -> bool {
    &&& pq.0 < ps.len() && pq.1 < ps.len() && pq.0 != pq.1
    &&& ps[pq.0 as int].is_free() && ps[pq.1 as int].is_free()
    &&& !ordered ==> ps[pq.0 as int].host@ != ps[pq.1 as int].host@
}

/// A full selection of `k` pairs: each pair fine, no position reused, and
/// under ordered mode the positions are consecutive from `start`.
pub open spec fn pairs_ok(
    v: Seq<(usize, usize)>,
    ps: Seq<ProxyResource>,
    ordered: bool,
    start: int,
    k: int,
) -> bool {
    &&& v.len() == k
    &&& forall|j: int| 0 <= j < k ==> pair_ok(#[trigger] v[j], ps, ordered)
    &&& forall|j1: int, j2: int|
        0 <= j1 < k && 0 <= j2 < k && j1 != j2 ==> (#[trigger] v[j1]).0 != (#[trigger] v[j2]).0
            && v[j1].0 != v[j2].1 && v[j1].1 != v[j2].0 && v[j1].1 != v[j2].1
    &&& ordered ==> forall|j: int|
        0 <= j < k ==> (#[trigger] v[j]).0 == start + 2 * j && v[j].1 == start + 2 * j + 1
}

impl MetaStore {
    /// Choose `k` pairs of free proxies to become chunks.  Outside ordered
    /// mode each pair joins the two currently most populated distinct
    /// hosts; under ordered mode the pairing by consecutive index is
    /// forced, starting at `ordered_start`.
    fn pick_chunk_pairs(&self, k: usize, ordered_start: usize) -> (r: Result<
        Vec<(usize, usize)>,
        MetaStoreError,
    >)
        requires
            self.inv(),
            k >= 1,
            self.enable_ordered_proxy ==> ordered_start <= self.all_proxies@.len() && forall|p: int|
                ordered_start <= p < self.all_proxies@.len() ==> (
                #[trigger] self.all_proxies@[p]).is_free(),
        ensures
            r matches Ok(v) ==> pairs_ok(
                v@,
                self.all_proxies@,
                self.enable_ordered_proxy,
                ordered_start as int,
                k as int,
            ),
            r matches Err(e) ==> e == MetaStoreError::NoAvailableResource,
            self.enable_ordered_proxy ==> (r is Err <==> ordered_start + 2 * k
                > self.all_proxies@.len()),
            !self.enable_ordered_proxy && free_hosts_distinct(self.all_proxies@) && 2 * k
                <= free_count(self.all_proxies@) ==> r is Ok,
    {
        let n = self.all_proxies.len();
        let mut picks: Vec<(usize, usize)> = Vec::new();
        if self.enable_ordered_proxy {
            if ordered_start > n || k > (n - ordered_start) / 2 {
                return Err(MetaStoreError::NoAvailableResource);
            }
            let mut j: usize = 0;
            while j < k
                invariant
                    n == self.all_proxies@.len(),
                    self.enable_ordered_proxy,
                    ordered_start + 2 * k <= n,
                    forall|p: int|
                        ordered_start <= p < n ==> (#[trigger] self.all_proxies@[p]).is_free(),
                    self.proxies_unique(),
                    j <= k,
                    picks@.len() == j,
                    forall|j2: int|
                        0 <= j2 < j ==> (#[trigger] picks@[j2]).0 == ordered_start + 2 * j2
                            && picks@[j2].1 == ordered_start + 2 * j2 + 1,
                decreases k - j,
            {
                picks.push((ordered_start + 2 * j, ordered_start + 2 * j + 1));
                j = j + 1;
            }
            proof {
                assert forall|j2: int| 0 <= j2 < k implies pair_ok(
                    #[trigger] picks@[j2],
                    self.all_proxies@,
                    true,
                ) by {
                    assert(self.all_proxies@[picks@[j2].0 as int].is_free());
                    assert(self.all_proxies@[picks@[j2].1 as int].is_free());
                }
            }
            return Ok(picks);
        }
        let mut taken: Vec<bool> = Vec::new();
        let mut t: usize = 0;
        while t < n
            invariant
                t <= n,
                taken@.len() == t,
                forall|p: int| 0 <= p < t ==> !(#[trigger] taken@[p]),
            decreases n - t,
        {
            taken.push(false);
            t = t + 1;
        }
        proof {
            lemma_avail_all_false(self.all_proxies@, taken@, n as int);
        }
        let mut j: usize = 0;
        while j < k
            invariant
                n == self.all_proxies@.len(),
                !self.enable_ordered_proxy,
                self.inv(),
                j <= k,
                picks@.len() == j,
                taken@.len() == n,
                avail_count_to(self.all_proxies@, taken@, n as int) + 2 * j == free_count(
                    self.all_proxies@,
                ),
                forall|j2: int|
                    0 <= j2 < j ==> pair_ok(#[trigger] picks@[j2], self.all_proxies@, false),
                forall|j1: int, j2: int|
                    0 <= j1 < j && 0 <= j2 < j && j1 != j2 ==> (#[trigger] picks@[j1]).0 != (
                    #[trigger] picks@[j2]).0 && picks@[j1].0 != picks@[j2].1 && picks@[j1].1
                        != picks@[j2].0 && picks@[j1].1 != picks@[j2].1,
                forall|p: int|
                    0 <= p < n ==> ((#[trigger] taken@[p]) <==> exists|j2: int|
                        0 <= j2 < j && ((#[trigger] picks@[j2]).0 == p || picks@[j2].1 == p)),
            decreases k - j,
        {
            proof {
                if free_hosts_distinct(self.all_proxies@) && 2 * k <= free_count(
                    self.all_proxies@,
                ) {
                    assert(avail_count_to(self.all_proxies@, taken@, n as int) >= 2);
                }
            }
            let p1 = match self.most_populated_avail(&taken, None) {
                Some(p) => p,
                None => {
                    proof {
                        if free_hosts_distinct(self.all_proxies@) && 2 * k <= free_count(
                            self.all_proxies@,
                        ) {
                            let w = lemma_avail_two_witnesses(self.all_proxies@, taken@);
                            assert(self.all_proxies@[w.0].is_free() && !taken@[w.0]);
                        }
                    }
                    return Err(MetaStoreError::NoAvailableResource);
                },
            };
            let p2 = match self.most_populated_avail(&taken, Some(p1)) {
                Some(p) => p,
                None => {
                    proof {
                        if free_hosts_distinct(self.all_proxies@) && 2 * k <= free_count(
                            self.all_proxies@,
                        ) {
                            let w = lemma_avail_two_witnesses(self.all_proxies@, taken@);
                            let other: int = if w.0 == p1 as int {
                                w.1
                            } else {
                                w.0
                            };
                            assert(self.all_proxies@[other].is_free() && !taken@[other] && other
                                != p1 as int);
                            assert(self.all_proxies@[other].host@
                                != self.all_proxies@[p1 as int].host@);
                        }
                    }
                    return Err(MetaStoreError::NoAvailableResource);
                },
            };
            let ghost taken_before = taken@;
            let ghost picks_before = picks@;
            proof {
                assert(p2 != p1) by {
                    assert(self.all_proxies@[p2 as int].host@
                        != self.all_proxies@[p1 as int].host@);
                }
                lemma_avail_take(self.all_proxies@, taken@, p1 as int, n as int);
                lemma_avail_take(
                    self.all_proxies@,
                    taken@.update(p1 as int, true),
                    p2 as int,
                    n as int,
                );
            }
            let e1 = &mut taken[p1];
            *e1 = true;
            let e2 = &mut taken[p2];
            *e2 = true;
            picks.push((p1, p2));
            proof {
                assert(picks@ == picks_before.push((p1, p2)));
                assert forall|p: int| 0 <= p < n implies ((#[trigger] taken@[p]) <==> exists|j2: int|
                    0 <= j2 < j + 1 && ((#[trigger] picks@[j2]).0 == p || picks@[j2].1 == p)) by {
                    if p == p1 as int || p == p2 as int {
                        assert(taken@[p]);
                        assert(picks@[j as int].0 == p1 && picks@[j as int].1 == p2);
                    } else {
                        assert(taken@[p] == taken_before[p]);
                        if taken@[p] {
                            let j2 = choose|j2: int|
                                0 <= j2 < j && ((#[trigger] picks_before[j2]).0 == p
                                    || picks_before[j2].1 == p);
                            assert(picks@[j2] == picks_before[j2]);
                        }
                        if exists|j2: int|
                            0 <= j2 < j + 1 && ((#[trigger] picks@[j2]).0 == p || picks@[j2].1
                                == p) {
                            let j2 = choose|j2: int|
                                0 <= j2 < j + 1 && ((#[trigger] picks@[j2]).0 == p || picks@[j2].1
                                    == p);
                            if j2 < j {
                                assert(picks_before[j2] == picks@[j2]);
                                assert(taken_before[p]);
                            }
                        }
                    }
                }
                assert forall|j2: int| 0 <= j2 < j + 1 implies pair_ok(
                    #[trigger] picks@[j2],
                    self.all_proxies@,
                    false,
                ) by {
                    if j2 < j {
                        assert(picks@[j2] == picks_before[j2]);
                        assert(pair_ok(picks_before[j2], self.all_proxies@, false));
                    } else {
                        assert(picks@[j2] == (p1, p2));
                        assert(self.all_proxies@[p1 as int].host@
                            != self.all_proxies@[p2 as int].host@);
                    }
                }
                assert forall|j1: int, j2: int|
                    0 <= j1 < j + 1 && 0 <= j2 < j + 1 && j1 != j2 implies (
                #[trigger] picks@[j1]).0 != (#[trigger] picks@[j2]).0 && picks@[j1].0
                    != picks@[j2].1 && picks@[j1].1 != picks@[j2].0 && picks@[j1].1
                    != picks@[j2].1 by {
                    if j1 < j && j2 < j {
                        assert(picks@[j1] == picks_before[j1]);
                        assert(picks@[j2] == picks_before[j2]);
                    } else if j1 < j {
                        assert(picks@[j1] == picks_before[j1]);
                        assert(picks@[j2] == (p1, p2));
                        assert(!taken_before[p1 as int] && !taken_before[p2 as int]);
                        assert((picks_before[j1].0 == p1 as int || picks_before[j1].1
                            == p1 as int) ==> taken_before[p1 as int]);
                        assert((picks_before[j1].0 == p2 as int || picks_before[j1].1
                            == p2 as int) ==> taken_before[p2 as int]);
                    } else {
                        assert(picks@[j2] == picks_before[j2]);
                        assert(picks@[j1] == (p1, p2));
                        assert(!taken_before[p1 as int] && !taken_before[p2 as int]);
                        assert((picks_before[j2].0 == p1 as int || picks_before[j2].1
                            == p1 as int) ==> taken_before[p1 as int]);
                        assert((picks_before[j2].0 == p2 as int || picks_before[j2].1
                            == p2 as int) ==> taken_before[p2 as int]);
                    }
                }
            }
            j = j + 1;
        }
        Ok(picks)
    }

    /// Among the free, untaken proxies (on a host other than `avoid`'s,
    /// when given) find one on the most populated host; earlier
    /// registration breaks ties.
    fn most_populated_avail(&self, taken: &Vec<bool>, avoid: Option<usize>) -> (r: Option<usize>)
        requires
            self.inv(),
            taken@.len() == self.all_proxies@.len(),
            avoid matches Some(a) ==> a < self.all_proxies@.len(),
        ensures
            r matches Some(p) ==> p < self.all_proxies@.len() && self.all_proxies@[p as int].is_free()
                && !taken@[p as int] && (avoid matches Some(a) ==> self.all_proxies@[p as int].host@
                != self.all_proxies@[a as int].host@),
            r is None ==> forall|p: int|
                0 <= p < self.all_proxies@.len() ==> !((#[trigger] self.all_proxies@[p]).is_free()
                    && !taken@[p] && (avoid matches Some(a) ==> self.all_proxies@[p].host@
                    != self.all_proxies@[a as int].host@)),
    {
        let n = self.all_proxies.len();
        let mut best: Option<usize> = None;
        let mut best_cnt: usize = 0;
        let mut p: usize = 0;
        while p < n
            invariant
                n == self.all_proxies@.len(),
                taken@.len() == n,
                avoid matches Some(a) ==> a < n,
                p <= n,
                best matches Some(b) ==> b < n && self.all_proxies@[b as int].is_free()
                    && !taken@[b as int] && (avoid matches Some(a) ==> self.all_proxies@[b as int].host@
                    != self.all_proxies@[a as int].host@),
                best is None ==> best_cnt == 0,
                best is None ==> forall|p2: int|
                    0 <= p2 < p ==> !((#[trigger] self.all_proxies@[p2]).is_free() && !taken@[p2]
                        && (avoid matches Some(a) ==> self.all_proxies@[p2].host@
                        != self.all_proxies@[a as int].host@)),
            decreases n - p,
        {
            let usable = self.all_proxies[p].cluster.is_none() && !taken[p] && (match avoid {
                Some(a) => self.all_proxies[p].host != self.all_proxies[a].host,
                None => true,
            });
            if usable {
                let mut cnt: usize = 0;
                let mut q: usize = 0;
                while q < n
                    invariant
                        n == self.all_proxies@.len(),
                        taken@.len() == n,
                        p < n,
                        q <= n,
                        cnt <= q,
                        q > p ==> cnt >= 1,
                        self.all_proxies@[p as int].is_free(),
                        !taken@[p as int],
                    decreases n - q,
                {
                    if self.all_proxies[q].cluster.is_none() && !taken[q]
                        && self.all_proxies[q].host == self.all_proxies[p].host {
                        cnt = cnt + 1;
                    } else {
                        proof {
                            if q == p as int as usize {
                                assert(self.all_proxies@[p as int].is_free());
                                assert(!taken@[p as int]);
                                assert(self.all_proxies@[p as int].host@
                                    == self.all_proxies@[p as int].host@);
                            }
                        }
                    }
                    q = q + 1;
                }
                if cnt > best_cnt {
                    best = Some(p);
                    best_cnt = cnt;
                }
            }
            p = p + 1;
        }
        best
    }
}



/// Number of free proxies among the first `i` records.
pub open spec fn free_count_to(ps: Seq<ProxyResource>, i: int) -> nat
    decreases i,
{
    if i <= 0 {
        0
    } else {
        free_count_to(ps, i - 1) + if 0 <= i - 1 < ps.len() && ps[i - 1].is_free() {
            1nat
        } else {
            0nat
        }
    }
}

/// Number of free proxies.
pub open spec fn free_count(ps: Seq<ProxyResource>) -> nat {
    free_count_to(ps, ps.len() as int)
}

/// No two free proxies share a host: the simplest pool shape under which
/// chunk allocation is owed to succeed.
pub open spec fn free_hosts_distinct(ps: Seq<ProxyResource>) -> bool {
    forall|p1: int, p2: int|
        0 <= p1 < ps.len() && 0 <= p2 < ps.len() && p1 != p2 && (#[trigger] ps[p1]).is_free() && (
        #[trigger] ps[p2]).is_free() ==> ps[p1].host@ != ps[p2].host@
}

/// Number of free, untaken proxies among the first `i` records.
pub open spec fn avail_count_to(ps: Seq<ProxyResource>, t: Seq<bool>, i: int) -> nat
    decreases i,
{
    if i <= 0 {
        0
    } else {
        avail_count_to(ps, t, i - 1) + if 0 <= i - 1 < ps.len() && i - 1 < t.len() && ps[i
            - 1].is_free() && !t[i - 1] {
            1nat
        } else {
            0nat
        }
    }
}

/// With nothing taken, the available count is the free count.
proof fn lemma_avail_all_false(ps: Seq<ProxyResource>, t: Seq<bool>, i: int)
    requires
        t.len() == ps.len(),
        forall|p: int| 0 <= p < t.len() ==> !(#[trigger] t[p]),
        i <= ps.len(),
    ensures
        avail_count_to(ps, t, i) == free_count_to(ps, i),
    decreases i,
{
    if i > 0 {
        lemma_avail_all_false(ps, t, i - 1);
    }
}

/// Taking one available proxy lowers the available count by one.
proof fn lemma_avail_take(ps: Seq<ProxyResource>, t: Seq<bool>, q: int, i: int)
    requires
        t.len() == ps.len(),
        0 <= q < ps.len(),
        ps[q].is_free(),
        !t[q],
        i <= ps.len(),
    ensures
        avail_count_to(ps, t.update(q, true), i) == avail_count_to(ps, t, i) - if q < i {
            1int
        } else {
            0int
        },
    decreases i,
{
    if i > 0 {
        lemma_avail_take(ps, t, q, i - 1);
    }
}

/// A positive available count yields a witness.
proof fn lemma_avail_witness(ps: Seq<ProxyResource>, t: Seq<bool>, i: int) -> (p: int)
    requires
        t.len() == ps.len(),
        0 <= i <= ps.len(),
        avail_count_to(ps, t, i) > 0,
    ensures
        0 <= p < i,
        ps[p].is_free(),
        !t[p],
    decreases i,
{
    if 0 <= i - 1 < ps.len() && ps[i - 1].is_free() && !t[i - 1] {
        i - 1
    } else {
        lemma_avail_witness(ps, t, i - 1)
    }
}

/// Two or more available proxies yield two distinct witnesses.
proof fn lemma_avail_two_witnesses(ps: Seq<ProxyResource>, t: Seq<bool>) -> (w: (int, int))
    requires
        t.len() == ps.len(),
        avail_count_to(ps, t, ps.len() as int) >= 2,
    ensures
        0 <= w.0 < ps.len(),
        0 <= w.1 < ps.len(),
        w.0 != w.1,
        ps[w.0].is_free() && !t[w.0],
        ps[w.1].is_free() && !t[w.1],
{
    let p1 = lemma_avail_witness(ps, t, ps.len() as int);
    let t2 = t.update(p1, true);
    lemma_avail_take(ps, t, p1, ps.len() as int);
    let p2 = lemma_avail_witness(ps, t2, ps.len() as int);
    assert(p2 != p1) by {
        assert(t2[p1]);
    }
    assert(!t[p2]) by {
        assert(t2[p2] == t[p2]);
    }
    (p1, p2)
}

/// Position `p` is used by one of the first `j` pairs.
pub open spec fn pick_uses(v: Seq<(usize, usize)>, j: int, p: int) -> bool {
    exists|j2: int| 0 <= j2 < j && ((#[trigger] v[j2]).0 == p || v[j2].1 == p)
}

/// Addresses are pairwise distinct.
pub open spec fn proxies_unique_seq(ps: Seq<ProxyResource>) -> bool {
    forall|p1: int, p2: int|
        0 <= p1 < ps.len() && 0 <= p2 < ps.len() && p1 != p2 ==> (#[trigger] ps[p1]).address@ != (
        #[trigger] ps[p2]).address@
}

/// The fields of `c` form chunk `j` of a fresh cluster built from the
/// proxies at positions `pq`, with the pieces of the even partition.
pub open spec fn chunk_built(
    c: Chunk,
    ps: Seq<ProxyResource>,
    pq: (usize, usize),
    j: int,
    base: int,
    rem: int,
) -> bool {
    &&& pq.0 < ps.len() && pq.1 < ps.len()
    &&& c.first.address == ps[pq.0 as int].address
    &&& c.first.host == ps[pq.0 as int].host
    &&& c.first.node1 == ps[pq.0 as int].node1
    &&& c.first.node2 == ps[pq.0 as int].node2
    &&& c.second.address == ps[pq.1 as int].address
    &&& c.second.host == ps[pq.1 as int].host
    &&& c.second.node1 == ps[pq.1 as int].node1
    &&& c.second.node2 == ps[pq.1 as int].node2
    &&& c.pair1_master_on_first
    &&& c.pair2_master_on_second
    &&& c.pair1_slots@.len() == 1
    &&& c.pair2_slots@.len() == 1
    &&& c.pair1_slots@[0].start == part_bound(2 * j, base, rem)
    &&& c.pair1_slots@[0].end == part_bound(2 * j + 1, base, rem)
    &&& c.pair1_slots@[0].tag is Stable
    &&& c.pair2_slots@[0].start == part_bound(2 * j + 1, base, rem)
    &&& c.pair2_slots@[0].end == part_bound(2 * j + 2, base, rem)
    &&& c.pair2_slots@[0].tag is Stable
}

/// The two single ranges of chunk `j` are exactly its pieces of the even
/// partition, untagged.
pub open spec fn chunk_even_slots(c: Chunk, j: int, base: int, rem: int) -> bool {
    &&& c.pair1_slots@.len() == 1
    &&& c.pair2_slots@.len() == 1
    &&& c.pair1_slots@[0].start == part_bound(2 * j, base, rem)
    &&& c.pair1_slots@[0].end == part_bound(2 * j + 1, base, rem)
    &&& c.pair1_slots@[0].tag is Stable
    &&& c.pair2_slots@[0].start == part_bound(2 * j + 1, base, rem)
    &&& c.pair2_slots@[0].end == part_bound(2 * j + 2, base, rem)
    &&& c.pair2_slots@[0].tag is Stable
}

/// A cluster whose chunks carry the pieces of the even partition in order
/// is well formed.
proof fn lemma_fresh_cluster_wf(
    c: ClusterStore,
    ps: Seq<ProxyResource>,
    pairs: Seq<(usize, usize)>,
    k: int,
    base: int,
    rem: int,
    m: int,
)
    requires
        c.name@.len() > 0,
        k >= 1,
        m == 2 * k,
        base >= 1,
        0 <= rem < m,
        part_bound(m, base, rem) == SLOT_MAX as int,
        c.chunks@.len() == k,
        pairs.len() == k,
        proxies_unique_seq(ps),
        forall|j: int| 0 <= j < k ==> chunk_built(c.chunks@[j], ps, #[trigger] pairs[j], j, base, rem),
        forall|j: int| 0 <= j < k ==> (#[trigger] pairs[j]).0 != pairs[j].1,
    ensures
        c.wf(),
{
    assert forall|j: int| 0 <= j < k implies (#[trigger] c.chunks@[j]).wf() by {
        let ch = c.chunks@[j];
        assert(chunk_built(ch, ps, pairs[j], j, base, rem));
        lemma_part_bound_step(2 * j, base, rem);
        lemma_part_bound_step(2 * j + 1, base, rem);
        lemma_part_bound_mono(2 * j + 2, m, base, rem);
        lemma_part_bound_mono(0, 2 * j, base, rem);
        assert(ch.first.address@ != ch.second.address@) by {
            assert(ps[pairs[j].0 as int].address@ != ps[pairs[j].1 as int].address@);
        }
        assert(ranges_valid(ch.pair1_slots@)) by {
            assert(range_valid(ch.pair1_slots@[0]));
        }
        assert(ranges_valid(ch.pair2_slots@)) by {
            assert(range_valid(ch.pair2_slots@[0]));
        }
        assert forall|s: int| !(#[trigger] list_owns(ch.pair1_slots@, s) && #[trigger] list_owns(
            ch.pair2_slots@,
            s,
        )) by {
            if list_owns(ch.pair1_slots@, s) && list_owns(ch.pair2_slots@, s) {
                let k1 = choose|k1: int|
                    0 <= k1 < ch.pair1_slots@.len() && owned_at(#[trigger] ch.pair1_slots@[k1], s);
                let k2 = choose|k2: int|
                    0 <= k2 < ch.pair2_slots@.len() && owned_at(#[trigger] ch.pair2_slots@[k2], s);
                assert(s < part_bound(2 * j + 1, base, rem) && s >= part_bound(2 * j + 1, base, rem));
            }
        }
    }
    assert forall|j1: int, j2: int, s: int|
        0 <= j1 < c.chunks@.len() && 0 <= j2 < c.chunks@.len() && j1 != j2 implies !(
    #[trigger] c.chunks@[j1].owns(s) && #[trigger] c.chunks@[j2].owns(s)) by {
        if c.chunks@[j1].owns(s) && c.chunks@[j2].owns(s) {
            assert(chunk_built(c.chunks@[j1], ps, pairs[j1], j1, base, rem));
            assert(chunk_built(c.chunks@[j2], ps, pairs[j2], j2, base, rem));
            lemma_chunk_owns_window(c.chunks@[j1], ps, pairs[j1], j1, base, rem, s);
            lemma_chunk_owns_window(c.chunks@[j2], ps, pairs[j2], j2, base, rem, s);
            if j1 < j2 {
                lemma_part_bound_mono(2 * j1 + 2, 2 * j2, base, rem);
            } else {
                lemma_part_bound_mono(2 * j2 + 2, 2 * j1, base, rem);
            }
        }
    }
    assert forall|s: int| 0 <= s < SLOT_MAX as int implies c.owns(s) by {
        let t = lemma_part_bound_locate(s, m, base, rem);
        let j = t / 2;
        vstd::arithmetic::div_mod::lemma_fundamental_div_mod(t, 2);
        vstd::arithmetic::div_mod::lemma_mod_division_less_than_divisor(t, 2);
        assert(0 <= j < k) by (nonlinear_arith)
            requires
                0 <= t < m,
                m == 2 * k,
                j == t / 2,
                t == 2 * j + t % 2,
                0 <= t % 2 < 2,
        ;
        let ch = c.chunks@[j];
        assert(chunk_built(ch, ps, pairs[j], j, base, rem));
        lemma_part_bound_step(2 * j, base, rem);
        lemma_part_bound_step(2 * j + 1, base, rem);
        if t % 2 == 0 {
            assert(t == 2 * j);
            assert(owned_at(ch.pair1_slots@[0], s));
            assert(list_owns(ch.pair1_slots@, s));
        } else {
            assert(t == 2 * j + 1);
            assert(owned_at(ch.pair2_slots@[0], s));
            assert(list_owns(ch.pair2_slots@, s));
        }
        assert(c.chunks@[j].owns(s));
    }
}

/// A freshly built chunk owns only slots inside its window of the
/// partition.
proof fn lemma_chunk_owns_window(
    ch: Chunk,
    ps: Seq<ProxyResource>,
    pq: (usize, usize),
    j: int,
    base: int,
    rem: int,
    s: int,
)
    requires
        chunk_built(ch, ps, pq, j, base, rem),
        ch.owns(s),
        0 <= j,
        0 <= rem,
        base >= 1,
    ensures
        part_bound(2 * j, base, rem) <= s < part_bound(2 * j + 2, base, rem),
{
    lemma_part_bound_step(2 * j, base, rem);
    lemma_part_bound_step(2 * j + 1, base, rem);
    if list_owns(ch.pair1_slots@, s) {
        let k1 = choose|k1: int|
            0 <= k1 < ch.pair1_slots@.len() && owned_at(#[trigger] ch.pair1_slots@[k1], s);
    } else {
        let k2 = choose|k2: int|
            0 <= k2 < ch.pair2_slots@.len() && owned_at(#[trigger] ch.pair2_slots@[k2], s);
    }
}

impl MetaStore {
    /// Create a cluster: allocate `node_num / 4` host-diverse chunks from
    /// the free pool, cut the slot space evenly across the new masters,
    /// bind the chosen proxies and bump the epochs.
    #[verifier::rlimit(100)]
    pub fn add_cluster(&mut self, cluster_name: String, node_num: usize) -> (r: Result<
        (),
        MetaStoreError,
    >)
        requires
            old(self).inv(),
            old(self).global_epoch < u64::MAX,
        ensures
            final(self).inv(),
            r is Err ==> *final(self) == *old(self),
            r == Err::<(), MetaStoreError>(MetaStoreError::InvalidClusterName) <==> !valid_cluster_name(
                cluster_name@,
            ),
            r == Err::<(), MetaStoreError>(MetaStoreError::AlreadyExisted) <==> valid_cluster_name(
                cluster_name@,
            ) && cluster_exists(old(self).clusters@, cluster_name@),
            r == Err::<(), MetaStoreError>(MetaStoreError::OneClusterAlreadyExisted) <==> valid_cluster_name(
                cluster_name@,
            ) && !cluster_exists(old(self).clusters@, cluster_name@) && old(
                self,
            ).enable_ordered_proxy && old(self).clusters@.len() >= 1,
            r == Err::<(), MetaStoreError>(MetaStoreError::InvalidNodeNum) <==> valid_cluster_name(
                cluster_name@,
            ) && !cluster_exists(old(self).clusters@, cluster_name@) && !(old(
                self,
            ).enable_ordered_proxy && old(self).clusters@.len() >= 1) && (node_num == 0 || node_num
                % 4 != 0 || node_num / 2 > SLOT_MAX),
            r matches Err(e) ==> (e == MetaStoreError::InvalidClusterName || e
                == MetaStoreError::AlreadyExisted || e == MetaStoreError::OneClusterAlreadyExisted
                || e == MetaStoreError::InvalidNodeNum || e == MetaStoreError::NoAvailableResource),
            old(self).enable_ordered_proxy && valid_cluster_name(cluster_name@) && !cluster_exists(
                old(self).clusters@,
                cluster_name@,
            ) && old(self).clusters@.len() == 0 && !(node_num == 0 || node_num % 4 != 0 || node_num
                / 2 > SLOT_MAX) ==> (r == Err::<(), MetaStoreError>(
                MetaStoreError::NoAvailableResource,
            ) <==> node_num / 2 > old(self).all_proxies@.len()),
            !old(self).enable_ordered_proxy && valid_cluster_name(cluster_name@)
                && !cluster_exists(old(self).clusters@, cluster_name@) && !(node_num == 0
                || node_num % 4 != 0 || node_num / 2 > SLOT_MAX) && free_hosts_distinct(
                old(self).all_proxies@,
            ) && node_num as int / 2 <= free_count(old(self).all_proxies@) ==> r is Ok,
            r is Ok ==> exists|v: Seq<(usize, usize)>|
                #[trigger] pairs_ok(
                    v,
                    old(self).all_proxies@,
                    old(self).enable_ordered_proxy,
                    0,
                    node_num as int / 4,
                ),
            r is Ok ==> added_cluster_post(*old(self), *final(self), cluster_name@, node_num),
    {
        if !is_valid_cluster_name(&cluster_name) {
            return Err(MetaStoreError::InvalidClusterName);
        }
        if self.find_cluster_pos(&cluster_name).is_some() {
            return Err(MetaStoreError::AlreadyExisted);
        }
        if self.enable_ordered_proxy && self.clusters.len() >= 1 {
            return Err(MetaStoreError::OneClusterAlreadyExisted);
        }
        if node_num == 0 || node_num % 4 != 0 || node_num / 2 > SLOT_MAX {
            return Err(MetaStoreError::InvalidNodeNum);
        }
        let k = node_num / 4;
        let m = node_num / 2;
        proof {
            assert(m == 2 * k && k >= 1) by (nonlinear_arith)
                requires
                    node_num % 4 == 0,
                    node_num != 0,
                    k == node_num / 4,
                    m == node_num / 2,
            ;
            if self.enable_ordered_proxy {
                assert forall|p: int|
                    0 <= p < self.all_proxies@.len() implies (
                #[trigger] self.all_proxies@[p]).is_free() by {
                    if self.all_proxies@[p].cluster is Some {
                        let n = self.all_proxies@[p].cluster->0;
                        assert(self.appears_in_cluster(self.all_proxies@[p].address@, n@));
                    }
                }
            }
        }
        let pairs = match self.pick_chunk_pairs(k, 0) {
            Ok(v) => v,
            Err(e) => {
                proof {
                    assert(2 * k == node_num as int / 2) by (nonlinear_arith)
                        requires
                            node_num % 4 == 0,
                            k == node_num / 4,
                    ;
                }
                return Err(MetaStoreError::NoAvailableResource);
            },
        };
        let base = SLOT_MAX / m;
        let rem = SLOT_MAX % m;
        proof {
            vstd::arithmetic::div_mod::lemma_fundamental_div_mod(SLOT_MAX as int, m as int);
            vstd::arithmetic::div_mod::lemma_mod_division_less_than_divisor(
                SLOT_MAX as int,
                m as int,
            );
            vstd::arithmetic::div_mod::lemma_div_non_zero(SLOT_MAX as int, m as int);
            assert(part_bound(m as int, base as int, rem as int) == SLOT_MAX as int);
        }
        let mut chunks: Vec<Chunk> = Vec::new();
        let mut start: usize = 0;
        let mut j: usize = 0;
        while j < k
            invariant
                self.inv(),
                k >= 1,
                m == 2 * k,
                m <= SLOT_MAX,
                base == SLOT_MAX / m,
                rem == SLOT_MAX % m,
                base >= 1,
                rem < m,
                part_bound(m as int, base as int, rem as int) == SLOT_MAX as int,
                pairs_ok(
                    pairs@,
                    self.all_proxies@,
                    self.enable_ordered_proxy,
                    0,
                    k as int,
                ),
                j <= k,
                chunks@.len() == j,
                start == part_bound(2 * j as int, base as int, rem as int),
                start <= SLOT_MAX,
                forall|j2: int|
                    0 <= j2 < j ==> chunk_built(
                        #[trigger] chunks@[j2],
                        self.all_proxies@,
                        pairs@[j2],
                        j2,
                        base as int,
                        rem as int,
                    ),
            decreases k - j,
        {
            proof {
                lemma_part_bound_step(2 * j as int, base as int, rem as int);
                lemma_part_bound_step(2 * j + 1, base as int, rem as int);
                lemma_part_bound_mono(2 * j + 2, m as int, base as int, rem as int);
                lemma_part_bound_mono(0, 2 * j as int, base as int, rem as int);
                assert(pair_ok(pairs@[j as int], self.all_proxies@, self.enable_ordered_proxy));
            }
            let len1 = if 2 * j < rem {
                base + 1
            } else {
                base
            };
            let len2 = if 2 * j + 1 < rem {
                base + 1
            } else {
                base
            };
            let p1 = pairs[j].0;
            let p2 = pairs[j].1;
            let first = ChunkProxy {
                address: self.all_proxies[p1].address.clone(),
                host: self.all_proxies[p1].host.clone(),
                node1: self.all_proxies[p1].node1.clone(),
                node2: self.all_proxies[p1].node2.clone(),
            };
            let second = ChunkProxy {
                address: self.all_proxies[p2].address.clone(),
                host: self.all_proxies[p2].host.clone(),
                node1: self.all_proxies[p2].node1.clone(),
                node2: self.all_proxies[p2].node2.clone(),
            };
            let mut pair1_slots: Vec<SlotRange> = Vec::new();
            pair1_slots.push(
                SlotRange { start, end: start + len1, tag: SlotRangeTag::Stable },
            );
            let mut pair2_slots: Vec<SlotRange> = Vec::new();
            pair2_slots.push(
                SlotRange { start: start + len1, end: start + len1 + len2, tag: SlotRangeTag::Stable },
            );
            chunks.push(
                Chunk {
                    first,
                    second,
                    pair1_master_on_first: true,
                    pair2_master_on_second: true,
                    pair1_slots,
                    pair2_slots,
                },
            );
            start = start + len1 + len2;
            j = j + 1;
        }
        proof {
            assert(start == SLOT_MAX);
        }
        let new_epoch = self.global_epoch + 1;
        let cluster = ClusterStore {
            name: cluster_name.clone(),
            epoch: new_epoch,
            chunks,
            config: Vec::new(),
        };
        proof {
            lemma_fresh_cluster_wf(
                cluster,
                self.all_proxies@,
                pairs@,
                k as int,
                base as int,
                rem as int,
                m as int,
            );
        }
        let ghost mid = *self;
        self.clusters.push(cluster);
        let n = self.all_proxies.len();
        let mut j2: usize = 0;
        while j2 < k
            invariant
                mid.inv(),
                k >= 1,
                n == self.all_proxies@.len(),
                n == mid.all_proxies@.len(),
                pairs_ok(pairs@, mid.all_proxies@, mid.enable_ordered_proxy, 0, k as int),
                self.clusters@.len() == mid.clusters@.len() + 1,
                forall|i: int| 0 <= i < mid.clusters@.len() ==> self.clusters@[i] == mid.clusters@[i],
                self.clusters@.last().name@ == cluster_name@,
                self.clusters@.last().wf(),
                self.clusters@.last().epoch == mid.global_epoch + 1,
                self.clusters@.last().chunks@.len() == k,
                forall|j3: int|
                    0 <= j3 < k ==> chunk_built(
                        #[trigger] self.clusters@.last().chunks@[j3],
                        mid.all_proxies@,
                        pairs@[j3],
                        j3,
                        base as int,
                        rem as int,
                    ),
                self.global_epoch == mid.global_epoch,
                self.version == mid.version,
                self.failures == mid.failures,
                self.enable_ordered_proxy == mid.enable_ordered_proxy,
                self.clusters@.last().config@.len() == 0,
                j2 <= k,
                forall|p: int|
                    0 <= p < n ==> (#[trigger] self.all_proxies@[p]).address
                        == mid.all_proxies@[p].address && self.all_proxies@[p].host
                        == mid.all_proxies@[p].host && self.all_proxies@[p].node1
                        == mid.all_proxies@[p].node1 && self.all_proxies@[p].node2
                        == mid.all_proxies@[p].node2 && self.all_proxies@[p].index
                        == mid.all_proxies@[p].index,
                forall|p: int|
                    0 <= p < n && pick_uses(pairs@, j2 as int, p) ==> (
                    #[trigger] self.all_proxies@[p]).bound_to(cluster_name@),
                forall|p: int|
                    0 <= p < n && !pick_uses(pairs@, j2 as int, p) ==> (
                    #[trigger] self.all_proxies@[p]).cluster == mid.all_proxies@[p].cluster,
            decreases k - j2,
        {
            proof {
                assert(pair_ok(pairs@[j2 as int], mid.all_proxies@, mid.enable_ordered_proxy));
            }
            let p1 = pairs[j2].0;
            let p2 = pairs[j2].1;
            let name1 = cluster_name.clone();
            let e1 = &mut self.all_proxies[p1];
            e1.cluster = Some(name1);
            let name2 = cluster_name.clone();
            let e2 = &mut self.all_proxies[p2];
            e2.cluster = Some(name2);
            proof {
                assert forall|p: int|
                    0 <= p < n && pick_uses(pairs@, j2 + 1, p) implies (
                #[trigger] self.all_proxies@[p]).bound_to(cluster_name@) by {
                    if p != p1 as int && p != p2 as int {
                        let j3 = choose|j3: int|
                            0 <= j3 < j2 + 1 && ((#[trigger] pairs@[j3]).0 == p || pairs@[j3].1
                                == p);
                        assert(j3 < j2);
                        assert(pick_uses(pairs@, j2 as int, p));
                    }
                }
                assert forall|p: int|
                    0 <= p < n && !pick_uses(pairs@, j2 + 1, p) implies (
                #[trigger] self.all_proxies@[p]).cluster == mid.all_proxies@[p].cluster by {
                    assert(p != p1 as int && p != p2 as int) by {
                        assert(pairs@[j2 as int].0 == p1 && pairs@[j2 as int].1 == p2);
                    }
                    assert(!pick_uses(pairs@, j2 as int, p)) by {
                        if pick_uses(pairs@, j2 as int, p) {
                            let j3 = choose|j3: int|
                                0 <= j3 < j2 && ((#[trigger] pairs@[j3]).0 == p || pairs@[j3].1
                                    == p);
                        }
                    }
                }
            }
            j2 = j2 + 1;
        }
        self.global_epoch = new_epoch;
        proof {
            lemma_add_cluster_inv(
                mid,
                *self,
                cluster_name@,
                pairs@,
                k as int,
            );
            assert(pairs_ok(
                pairs@,
                old(self).all_proxies@,
                old(self).enable_ordered_proxy,
                0,
                node_num as int / 4,
            ));
            assert(m as int == node_num as int / 2);
            assert forall|j3: int|
                0 <= j3 < self.clusters@.last().chunks@.len() implies chunk_even_slots(
                #[trigger] self.clusters@.last().chunks@[j3],
                j3,
                SLOT_MAX as int / (node_num as int / 2),
                SLOT_MAX as int % (node_num as int / 2),
            ) by {
                assert(chunk_built(
                    self.clusters@.last().chunks@[j3],
                    mid.all_proxies@,
                    pairs@[j3],
                    j3,
                    base as int,
                    rem as int,
                ));
            }
            if !old(self).enable_ordered_proxy {
                assert forall|j3: int|
                    0 <= j3 < self.clusters@.last().chunks@.len() implies (
                #[trigger] self.clusters@.last().chunks@[j3]).first.host@
                    != self.clusters@.last().chunks@[j3].second.host@ by {
                    assert(chunk_built(
                        self.clusters@.last().chunks@[j3],
                        mid.all_proxies@,
                        pairs@[j3],
                        j3,
                        base as int,
                        rem as int,
                    ));
                    assert(pair_ok(pairs@[j3], mid.all_proxies@, false));
                }
            }
            assert(added_cluster_post(*old(self), *final(self), cluster_name@, node_num));
        }
        Ok(())
    }
}

/// What a successful cluster creation leaves behind.
pub open spec fn added_cluster_post(
    pre: MetaStore,
    post: MetaStore,
    name: Seq<char>,
    node_num: usize,
) -> bool {
    &&& post.global_epoch == pre.global_epoch + 1
    &&& post.clusters@.len() == pre.clusters@.len() + 1
    &&& forall|i: int| 0 <= i < pre.clusters@.len() ==> post.clusters@[i] == pre.clusters@[i]
    &&& post.clusters@.last().name@ == name
    &&& post.clusters@.last().epoch == post.global_epoch
    &&& post.clusters@.last().chunks@.len() == node_num / 4
    &&& post.clusters@.last().wf()
    &&& forall|j: int|
        0 <= j < post.clusters@.last().chunks@.len() ==> chunk_even_slots(
            #[trigger] post.clusters@.last().chunks@[j],
            j,
            SLOT_MAX as int / (node_num as int / 2),
            SLOT_MAX as int % (node_num as int / 2),
        )
    &&& !pre.enable_ordered_proxy ==> forall|j: int|
        0 <= j < post.clusters@.last().chunks@.len() ==> (#[trigger] post.clusters@.last().chunks@[j]).first.host@
            != post.clusters@.last().chunks@[j].second.host@
    &&& post.failures == pre.failures
    &&& post.version == pre.version
    &&& post.enable_ordered_proxy == pre.enable_ordered_proxy
    &&& post.all_proxies@.len() == pre.all_proxies@.len()
    &&& forall|p: int|
        0 <= p < post.all_proxies@.len() ==> (#[trigger] post.all_proxies@[p]).address
            == pre.all_proxies@[p].address && post.all_proxies@[p].host == pre.all_proxies@[p].host
            && post.all_proxies@[p].node1 == pre.all_proxies@[p].node1
            && post.all_proxies@[p].node2 == pre.all_proxies@[p].node2
            && post.all_proxies@[p].index == pre.all_proxies@[p].index
    &&& forall|p: int|
        0 <= p < post.all_proxies@.len() ==> (#[trigger] post.all_proxies@[p]).cluster
            == pre.all_proxies@[p].cluster || (pre.all_proxies@[p].is_free()
            && post.all_proxies@[p].bound_to(name))
}

/// Re-establish the store invariant after a cluster has been created and
/// its proxies bound.
proof fn lemma_add_cluster_inv(
    pre: MetaStore,
    post: MetaStore,
    name: Seq<char>,
    pairs: Seq<(usize, usize)>,
    k: int,
)
    requires
        pre.inv(),
        pre.global_epoch < u64::MAX,
        !cluster_exists(pre.clusters@, name),
        k >= 1,
        pairs.len() == k,
        forall|j: int| 0 <= j < k ==> pair_ok(#[trigger] pairs[j], pre.all_proxies@, pre.enable_ordered_proxy),
        forall|j1: int, j2: int|
            0 <= j1 < k && 0 <= j2 < k && j1 != j2 ==> (#[trigger] pairs[j1]).0 != (
            #[trigger] pairs[j2]).0 && pairs[j1].0 != pairs[j2].1 && pairs[j1].1 != pairs[j2].0
                && pairs[j1].1 != pairs[j2].1,
        post.global_epoch == pre.global_epoch + 1,
        post.version == pre.version,
        post.enable_ordered_proxy == pre.enable_ordered_proxy,
        post.failures == pre.failures,
        post.clusters@.len() == pre.clusters@.len() + 1,
        forall|i: int| 0 <= i < pre.clusters@.len() ==> post.clusters@[i] == pre.clusters@[i],
        post.clusters@.last().wf(),
        post.clusters@.last().name@ == name,
        post.clusters@.last().epoch == post.global_epoch,
        post.clusters@.last().chunks@.len() == k,
        forall|j: int|
            0 <= j < k ==> (#[trigger] post.clusters@.last().chunks@[j]).first.address
                == pre.all_proxies@[pairs[j].0 as int].address
                && post.clusters@.last().chunks@[j].second.address
                == pre.all_proxies@[pairs[j].1 as int].address,
        post.all_proxies@.len() == pre.all_proxies@.len(),
        forall|p: int|
            0 <= p < post.all_proxies@.len() ==> (#[trigger] post.all_proxies@[p]).address
                == pre.all_proxies@[p].address && post.all_proxies@[p].host
                == pre.all_proxies@[p].host && post.all_proxies@[p].node1
                == pre.all_proxies@[p].node1 && post.all_proxies@[p].node2
                == pre.all_proxies@[p].node2 && post.all_proxies@[p].index
                == pre.all_proxies@[p].index,
        forall|p: int|
            0 <= p < post.all_proxies@.len() && pick_uses(pairs, k, p) ==> (
            #[trigger] post.all_proxies@[p]).bound_to(name),
        forall|p: int|
            0 <= p < post.all_proxies@.len() && !pick_uses(pairs, k, p) ==> (
            #[trigger] post.all_proxies@[p]).cluster == pre.all_proxies@[p].cluster,
        pre.enable_ordered_proxy ==> pre.clusters@.len() == 0 && forall|j: int|
            0 <= j < k ==> (#[trigger] pairs[j]).0 == 2 * j && pairs[j].1 == 2 * j + 1,
    ensures
        post.inv(),
{
    let last = post.clusters@.len() - 1;
    assert(post.proxies_unique()) by {
        assert forall|p1: int, p2: int|
            0 <= p1 < post.all_proxies@.len() && 0 <= p2 < post.all_proxies@.len() && p1 != p2 implies (
        #[trigger] post.all_proxies@[p1]).address@ != (#[trigger] post.all_proxies@[p2]).address@ by {
            assert(pre.all_proxies@[p1].address@ != pre.all_proxies@[p2].address@);
        }
    }
    assert(post.clusters_unique()) by {
        assert forall|i1: int, i2: int|
            0 <= i1 < post.clusters@.len() && 0 <= i2 < post.clusters@.len() && i1 != i2 implies (
        #[trigger] post.clusters@[i1]).name@ != (#[trigger] post.clusters@[i2]).name@ by {
            if i1 < last && i2 < last {
                assert(pre.clusters@[i1].name@ != pre.clusters@[i2].name@);
            } else if i1 == last {
                assert(pre.clusters@[i2].name@ != name);
            } else {
                assert(pre.clusters@[i1].name@ != name);
            }
        }
    }
    assert(post.clusters_wf()) by {
        assert forall|i: int| 0 <= i < post.clusters@.len() implies (
        #[trigger] post.clusters@[i]).wf() && post.clusters@[i].epoch <= post.global_epoch by {
            if i < last {
                assert(post.clusters@[i] == pre.clusters@[i]);
                assert(pre.clusters@[i].wf() && pre.clusters@[i].epoch <= pre.global_epoch);
            }
        }
    }
    assert(post.chunk_proxies_bound()) by {
        assert forall|i: int, j: int|
            0 <= i < post.clusters@.len() && 0 <= j < post.clusters@[i].chunks@.len() implies post.has_proxy_bound(
            (#[trigger] post.clusters@[i].chunks@[j]).first.address@,
            post.clusters@[i].name@,
        ) && post.has_proxy_bound(
            post.clusters@[i].chunks@[j].second.address@,
            post.clusters@[i].name@,
        ) by {
            if i < last {
                assert(post.clusters@[i] == pre.clusters@[i]);
                assert(pre.has_proxy_bound(
                    pre.clusters@[i].chunks@[j].first.address@,
                    pre.clusters@[i].name@,
                ));
                assert(pre.has_proxy_bound(
                    pre.clusters@[i].chunks@[j].second.address@,
                    pre.clusters@[i].name@,
                ));
                let q1 = choose|p: int|
                    0 <= p < pre.all_proxies@.len() && (#[trigger] pre.all_proxies@[p]).address@
                        == pre.clusters@[i].chunks@[j].first.address@
                        && pre.all_proxies@[p].bound_to(pre.clusters@[i].name@);
                let q2 = choose|p: int|
                    0 <= p < pre.all_proxies@.len() && (#[trigger] pre.all_proxies@[p]).address@
                        == pre.clusters@[i].chunks@[j].second.address@
                        && pre.all_proxies@[p].bound_to(pre.clusters@[i].name@);
                assert(!pick_uses(pairs, k, q1)) by {
                    if pick_uses(pairs, k, q1) {
                        let j3 = choose|j3: int|
                            0 <= j3 < k && ((#[trigger] pairs[j3]).0 == q1 || pairs[j3].1 == q1);
                        assert(pre.all_proxies@[q1].is_free());
                    }
                }
                assert(!pick_uses(pairs, k, q2)) by {
                    if pick_uses(pairs, k, q2) {
                        let j3 = choose|j3: int|
                            0 <= j3 < k && ((#[trigger] pairs[j3]).0 == q2 || pairs[j3].1 == q2);
                        assert(pre.all_proxies@[q2].is_free());
                    }
                }
                assert(post.all_proxies@[q1].bound_to(post.clusters@[i].name@));
                assert(post.all_proxies@[q2].bound_to(post.clusters@[i].name@));
            } else {
                let q1 = pairs[j].0 as int;
                let q2 = pairs[j].1 as int;
                assert(pick_uses(pairs, k, q1) && pick_uses(pairs, k, q2)) by {
                    assert((#[trigger] pairs[j]).0 == pairs[j].0);
                }
                assert(post.all_proxies@[q1].bound_to(name));
                assert(post.all_proxies@[q2].bound_to(name));
                assert(post.all_proxies@[q1].address@
                    == post.clusters@[i].chunks@[j].first.address@);
                assert(post.all_proxies@[q2].address@
                    == post.clusters@[i].chunks@[j].second.address@);
            }
        }
    }
    assert(post.bindings_backed()) by {
        assert forall|p: int| 0 <= p < post.all_proxies@.len() implies ((
        #[trigger] post.all_proxies@[p]).cluster matches Some(nn) ==> post.appears_in_cluster(
            post.all_proxies@[p].address@,
            nn@,
        )) by {
            if post.all_proxies@[p].cluster is Some {
                let nn = post.all_proxies@[p].cluster->0;
                if pick_uses(pairs, k, p) {
                    let j3 = choose|j3: int|
                        0 <= j3 < k && ((#[trigger] pairs[j3]).0 == p || pairs[j3].1 == p);
                    assert(nn@ == name);
                    assert(post.clusters@[last].name@ == name);
                    assert((post.clusters@[last].chunks@[j3]).first.address@
                        == post.all_proxies@[p].address@ || post.clusters@[last].chunks@[j3].second.address@
                        == post.all_proxies@[p].address@);
                    assert(post.appears_in_cluster(post.all_proxies@[p].address@, nn@));
                } else {
                    assert(post.all_proxies@[p].cluster == pre.all_proxies@[p].cluster);
                    assert(pre.appears_in_cluster(pre.all_proxies@[p].address@, nn@));
                    let (i, j) = choose|i: int, j: int|
                        0 <= i < pre.clusters@.len() && 0 <= j < pre.clusters@[i].chunks@.len()
                            && pre.clusters@[i].name@ == nn@ && ((
                        #[trigger] pre.clusters@[i].chunks@[j]).first.address@
                            == pre.all_proxies@[p].address@
                            || pre.clusters@[i].chunks@[j].second.address@
                            == pre.all_proxies@[p].address@);
                    assert(post.clusters@[i] == pre.clusters@[i]);
                    assert(post.appears_in_cluster(post.all_proxies@[p].address@, nn@));
                }
            }
        }
    }
    assert(post.clusters_chunk_addrs_unique()) by {
        assert forall|i: int, j1: int, j2: int|
            0 <= i < post.clusters@.len() && 0 <= j1 < post.clusters@[i].chunks@.len() && 0 <= j2
                < post.clusters@[i].chunks@.len() && j1 != j2 implies {
            let c1 = #[trigger] post.clusters@[i].chunks@[j1];
            let c2 = #[trigger] post.clusters@[i].chunks@[j2];
            c1.first.address@ != c2.first.address@ && c1.first.address@ != c2.second.address@
                && c1.second.address@ != c2.first.address@ && c1.second.address@
                != c2.second.address@
        } by {
            if i < last {
                assert(post.clusters@[i] == pre.clusters@[i]);
                let a1 = pre.clusters@[i].chunks@[j1];
                let a2 = pre.clusters@[i].chunks@[j2];
                assert(a1.first.address@ != a2.first.address@ && a1.first.address@
                    != a2.second.address@ && a1.second.address@ != a2.first.address@
                    && a1.second.address@ != a2.second.address@);
            } else {
                let q10 = pairs[j1].0 as int;
                let q11 = pairs[j1].1 as int;
                let q20 = pairs[j2].0 as int;
                let q21 = pairs[j2].1 as int;
                assert(q10 != q20 && q10 != q21 && q11 != q20 && q11 != q21);
                assert(pre.all_proxies@[q10].address@ != pre.all_proxies@[q20].address@);
                assert(pre.all_proxies@[q10].address@ != pre.all_proxies@[q21].address@);
                assert(pre.all_proxies@[q11].address@ != pre.all_proxies@[q20].address@);
                assert(pre.all_proxies@[q11].address@ != pre.all_proxies@[q21].address@);
            }
        }
    }
    assert(post.failures_wf()) by {
        assert(pre.failures_wf());
    }
    assert(post.ordered_wf()) by {
        if post.enable_ordered_proxy {
            assert forall|p: int| 0 <= p < post.all_proxies@.len() implies (
            #[trigger] post.all_proxies@[p]).index == Some(p as usize) by {
                assert(pre.all_proxies@[p].index == Some(p as usize));
            }
            assert(post.clusters@.len() == 1);
            assert(2 * post.clusters@[0].chunks@.len() <= post.all_proxies@.len()) by {
                assert(pair_ok(pairs[k - 1], pre.all_proxies@, true));
                assert(pairs[k - 1].1 == 2 * (k - 1) + 1);
            }
            assert forall|j: int| 0 <= j < post.clusters@[0].chunks@.len() implies (
            #[trigger] post.clusters@[0].chunks@[j]).first.address@ == post.all_proxies@[2
                * j].address@ && post.clusters@[0].chunks@[j].second.address@ == post.all_proxies@[2
                * j + 1].address@ by {
                assert(pairs[j].0 == 2 * j && pairs[j].1 == 2 * j + 1);
                assert(post.clusters@[0].chunks@[j].first.address
                    == pre.all_proxies@[2 * j].address);
                assert(post.clusters@[0].chunks@[j].second.address
                    == pre.all_proxies@[2 * j + 1].address);
            }
        }
    }
}


/// One staging step: the cluster gained exactly one migrating range and
/// its mirrored importing range, over the same span and meta, and no
/// other staged triple changed.
pub open spec fn staged_step(
    x: ClusterStore,
    y: ClusterStore,
    s: int,
    e: int,
    m: MigrationMeta,
) -> bool {
    &&& cluster_has_migrating(y, s, e, m)
    &&& cluster_has_importing(y, s, e, m)
    &&& forall|s2: int, e2: int, m2: MigrationMeta|
        #[trigger] cluster_has_migrating(y, s2, e2, m2) <==> (cluster_has_migrating(x, s2, e2, m2)
            || (s2 == s && e2 == e && m.same(m2)))
    &&& forall|s2: int, e2: int, m2: MigrationMeta|
        #[trigger] cluster_has_importing(y, s2, e2, m2) <==> (cluster_has_importing(x, s2, e2, m2)
            || (s2 == s && e2 == e && m.same(m2)))
}

/// Everything outside the slot lists of cluster `ci` is unchanged.
pub open spec fn slots_only_changed(a: MetaStore, b: MetaStore, ci: int) -> bool {
    &&& b.version == a.version
    &&& b.global_epoch == a.global_epoch
    &&& b.failures == a.failures
    &&& b.all_proxies == a.all_proxies
    &&& b.enable_ordered_proxy == a.enable_ordered_proxy
    &&& b.clusters@.len() == a.clusters@.len()
    &&& 0 <= ci < a.clusters@.len()
    &&& forall|i: int|
        0 <= i < a.clusters@.len() && i != ci ==> #[trigger] b.clusters@[i] == a.clusters@[i]
    &&& cluster_slots_only_changed(a.clusters@[ci], b.clusters@[ci])
}

/// Only the slot lists of the cluster differ.
pub open spec fn cluster_slots_only_changed(x: ClusterStore, y: ClusterStore) -> bool {
    &&& y.name == x.name
    &&& y.epoch == x.epoch
    &&& y.config == x.config
    &&& y.chunks@.len() == x.chunks@.len()
    &&& forall|j: int|
        0 <= j < x.chunks@.len() ==> (#[trigger] y.chunks@[j]).first == x.chunks@[j].first
            && y.chunks@[j].second == x.chunks@[j].second
            && y.chunks@[j].pair1_master_on_first == x.chunks@[j].pair1_master_on_first
            && y.chunks@[j].pair2_master_on_second == x.chunks@[j].pair2_master_on_second
}

/// Chaining two slot-only changes gives a slot-only change.
proof fn lemma_slots_chain(a: MetaStore, b: MetaStore, c: MetaStore, ci: int)
    requires
        slots_only_changed(a, b, ci),
        slots_only_changed(b, c, ci),
    ensures
        slots_only_changed(a, c, ci),
{
    assert forall|i: int| 0 <= i < a.clusters@.len() && i != ci implies #[trigger] c.clusters@[i]
        == a.clusters@[i] by {
        assert(b.clusters@[i] == a.clusters@[i]);
        assert(c.clusters@[i] == b.clusters@[i]);
    }
}

/// A cluster whose chunks own the same slots as those of a well-formed
/// cluster, and are themselves well formed, is well formed.
proof fn lemma_cluster_same_owned_wf(x: ClusterStore, y: ClusterStore)
    requires
        x.wf(),
        y.name@ == x.name@,
        y.chunks@.len() == x.chunks@.len(),
        forall|j: int| 0 <= j < y.chunks@.len() ==> (#[trigger] y.chunks@[j]).wf(),
        forall|j: int, s: int|
            0 <= j < y.chunks@.len() ==> (#[trigger] y.chunks@[j].owns(s)) == x.chunks@[j].owns(s),
    ensures
        y.wf(),
{
    assert forall|s: int| 0 <= s < SLOT_MAX as int implies y.owns(s) by {
        assert(x.owns(s));
        let j = choose|j: int| 0 <= j < x.chunks@.len() && (#[trigger] x.chunks@[j]).owns(s);
        assert(y.chunks@[j].owns(s));
    }
    assert forall|j1: int, j2: int, s: int|
        0 <= j1 < y.chunks@.len() && 0 <= j2 < y.chunks@.len() && j1 != j2 implies !(
    #[trigger] y.chunks@[j1].owns(s) && #[trigger] y.chunks@[j2].owns(s)) by {
        if y.chunks@[j1].owns(s) && y.chunks@[j2].owns(s) {
            assert(x.chunks@[j1].owns(s) && x.chunks@[j2].owns(s));
        }
    }
}

/// Re-establish the store invariant after a slot-only change whose
/// touched cluster is still well formed.
proof fn lemma_slots_change_inv(a: MetaStore, b: MetaStore, ci: int)
    requires
        a.inv(),
        slots_only_changed(a, b, ci),
        b.clusters@[ci].wf(),
    ensures
        b.inv(),
{
    assert(same_memberships(a, b)) by {
        assert forall|i: int| 0 <= i < a.clusters@.len() implies (#[trigger] b.clusters@[i]).name@
            == a.clusters@[i].name@ && chunks_same_addresses(
            a.clusters@[i].chunks@,
            b.clusters@[i].chunks@,
        ) by {
            if i != ci {
                assert(b.clusters@[i] == a.clusters@[i]);
            }
        }
    }
    assert forall|i: int| 0 <= i < b.clusters@.len() implies (#[trigger] b.clusters@[i]).wf()
        && b.clusters@[i].epoch <= b.global_epoch by {
        if i != ci {
            assert(b.clusters@[i] == a.clusters@[i]);
            assert(a.clusters@[i].wf());
        }
        assert(a.clusters@[i].epoch <= a.global_epoch);
    }
    memberships_preserve_inv(a, b);
}

/// Some range of the list carries a migration tag.
pub open spec fn list_has_tag(rs: Seq<SlotRange>) -> bool {
    exists|k: int| 0 <= k < rs.len() && !((#[trigger] rs[k]).tag is Stable)
}

/// The cluster carries some migration tag.
pub open spec fn cluster_has_tags(c: ClusterStore) -> bool {
    exists|j: int|
        0 <= j < c.chunks@.len() && (list_has_tag((#[trigger] c.chunks@[j]).pair1_slots@)
            || list_has_tag(c.chunks@[j].pair2_slots@))
}

/// Some replication pair of the cluster holds no ranges at all: a free
/// master waiting for slots.
pub open spec fn cluster_has_empty_master(c: ClusterStore) -> bool {
    exists|j: int|
        0 <= j < c.chunks@.len() && ((#[trigger] c.chunks@[j]).pair1_slots@.len() == 0
            || c.chunks@[j].pair2_slots@.len() == 0)
}

impl Chunk {
    /// Proxy address and node address of the master of the given pair.
    pub fn master_endpoints(&self, pair1: bool) -> (r: (String, String)) {
        if pair1 {
            if self.pair1_master_on_first {
                (self.first.address.clone(), self.first.node1.clone())
            } else {
                (self.second.address.clone(), self.second.node2.clone())
            }
        } else {
            if self.pair2_master_on_second {
                (self.second.address.clone(), self.second.node1.clone())
            } else {
                (self.first.address.clone(), self.first.node2.clone())
            }
        }
    }
}

impl MetaStore {
    /// Heuristic size a master will retain once the staged migrations
    /// commit: its stable and importing ranges, clipped at the size of
    /// the slot space.
    fn owned_size(slots: &Vec<SlotRange>) -> (r: usize)
        requires
            ranges_valid(slots@),
    {
        let n = slots.len();
        let mut acc: usize = 0;
        let mut k: usize = 0;
        while k < n
            invariant
                n == slots@.len(),
                ranges_valid(slots@),
                k <= n,
                acc <= SLOT_MAX,
            decreases n - k,
        {
            let leaving = match slots[k].tag {
                SlotRangeTag::Migrating(_) => true,
                _ => false,
            };
            if !leaving {
                proof {
                    assert(range_valid(slots@[k as int]));
                }
                let l = slots[k].end - slots[k].start;
                if l > SLOT_MAX - acc {
                    acc = SLOT_MAX;
                } else {
                    acc = acc + l;
                }
            }
            k = k + 1;
        }
        acc
    }

    /// Index of the last stable range of the list, if any.
    fn last_stable_idx(slots: &Vec<SlotRange>) -> (r: Option<usize>)
        ensures
            r matches Some(k) ==> k < slots@.len() && slots@[k as int].tag is Stable,
    {
        let n = slots.len();
        let mut found: Option<usize> = None;
        let mut k: usize = 0;
        while k < n
            invariant
                n == slots@.len(),
                k <= n,
                found matches Some(x) ==> x < n && slots@[x as int].tag is Stable,
            decreases n - k,
        {
            let is_stable = match slots[k].tag {
                SlotRangeTag::Stable => true,
                _ => false,
            };
            if is_stable {
                found = Some(k);
            }
            k = k + 1;
        }
        found
    }

    /// Move up to `need` slots from some over-full master of cluster `ci`
    /// towards the master of pair `d_pair1` of chunk `dj`: the source
    /// keeps the moved range tagged as migrating, the destination gains
    /// the mirrored importing range.  Returns how many slots were staged,
    /// zero when no donor qualifies.
    #[verifier::rlimit(100)]
    fn migration_take_step(
        &mut self,
        ci: usize,
        dj: usize,
        d_pair1: bool,
        need: usize,
        target: usize,
        epoch: u64,
        src: Option<(usize, bool)>,
    ) -> (took: usize)
        requires
            old(self).inv(),
            ci < old(self).clusters@.len(),
            dj < old(self).clusters@[ci as int].chunks@.len(),
            src matches Some((x, p)) ==> x < old(self).clusters@[ci as int].chunks@.len() && !(x
                == dj && p == d_pair1),
            1 <= need,
        ensures
            final(self).inv(),
            slots_only_changed(*old(self), *final(self), ci as int),
            took <= need,
            took == 0 ==> *final(self) == *old(self),
            took > 0 ==> exists|cs: int, ce: int, m: MigrationMeta|
                #[trigger] staged_step(
                    old(self).clusters@[ci as int],
                    final(self).clusters@[ci as int],
                    cs,
                    ce,
                    m,
                ),
    {
        let ghost pre = *self;
        let nchunks = self.clusters[ci].chunks.len();
        let mut donor: Option<(usize, bool)> = src;
        let mut j: usize = if src.is_some() {
            nchunks
        } else {
            0
        };
        while j < nchunks
            invariant
                *self == pre,
                pre.inv(),
                ci < self.clusters@.len(),
                nchunks == self.clusters@[ci as int].chunks@.len(),
                dj < nchunks,
                j <= nchunks,
                donor matches Some((x, p)) ==> x < nchunks && !(x == dj && p == d_pair1),
            decreases nchunks - j,
        {
            proof {
                assert(self.clusters@[ci as int].wf());
                assert(self.clusters@[ci as int].chunks@[j as int].wf());
            }
            if !(j == dj && d_pair1) {
                let size = Self::owned_size(&self.clusters[ci].chunks[j].pair1_slots);
                if size > target && Self::last_stable_idx(
                    &self.clusters[ci].chunks[j].pair1_slots,
                ).is_some() {
                    donor = Some((j, true));
                }
            }
            if donor.is_none() && !(j == dj && !d_pair1) {
                let size = Self::owned_size(&self.clusters[ci].chunks[j].pair2_slots);
                if size > target && Self::last_stable_idx(
                    &self.clusters[ci].chunks[j].pair2_slots,
                ).is_some() {
                    donor = Some((j, false));
                }
            }
            if donor.is_some() {
                j = nchunks;
            } else {
                j = j + 1;
            }
        }
        let (sj, s_pair1) = match donor {
            None => {
                return 0;
            },
            Some(d) => d,
        };
        proof {
            assert(self.clusters@[ci as int].wf());
            assert(self.clusters@[ci as int].chunks@[sj as int].wf());
            assert(self.clusters@[ci as int].chunks@[dj as int].wf());
        }
        let idx = if s_pair1 {
            match Self::last_stable_idx(&self.clusters[ci].chunks[sj].pair1_slots) {
                Some(k) => k,
                None => {
                    return 0;
                },
            }
        } else {
            match Self::last_stable_idx(&self.clusters[ci].chunks[sj].pair2_slots) {
                Some(k) => k,
                None => {
                    return 0;
                },
            }
        };
        let (range_start, range_end) = if s_pair1 {
            let r = &self.clusters[ci].chunks[sj].pair1_slots[idx];
            (r.start, r.end)
        } else {
            let r = &self.clusters[ci].chunks[sj].pair2_slots[idx];
            (r.start, r.end)
        };
        proof {
            if s_pair1 {
                assert(range_valid(self.clusters@[ci as int].chunks@[sj as int].pair1_slots@[idx as int]));
            } else {
                assert(range_valid(self.clusters@[ci as int].chunks@[sj as int].pair2_slots@[idx as int]));
            }
        }
        let range_len = range_end - range_start;
        let amount = if need < range_len {
            need
        } else {
            range_len
        };
        let (src_proxy, src_node) = self.clusters[ci].chunks[sj].master_endpoints(s_pair1);
        let (dst_proxy, dst_node) = self.clusters[ci].chunks[dj].master_endpoints(d_pair1);
        let meta = MigrationMeta {
            epoch,
            src_proxy_address: src_proxy,
            src_node_address: src_node,
            dst_proxy_address: dst_proxy,
            dst_node_address: dst_node,
        };
        let ghost gmeta = meta;
        let meta2 = meta.duplicate();
        let cut: usize;
        if s_pair1 {
            let cl = &mut self.clusters[ci];
            let ch = &mut cl.chunks[sj];
            cut = crate::slots::split_tail_migrating(&mut ch.pair1_slots, idx, amount, meta);
        } else {
            let cl = &mut self.clusters[ci];
            let ch = &mut cl.chunks[sj];
            cut = crate::slots::split_tail_migrating(&mut ch.pair2_slots, idx, amount, meta);
        }
        if d_pair1 {
            let cl = &mut self.clusters[ci];
            let ch = &mut cl.chunks[dj];
            crate::slots::push_importing(&mut ch.pair1_slots, cut, range_end, meta2);
        } else {
            let cl = &mut self.clusters[ci];
            let ch = &mut cl.chunks[dj];
            crate::slots::push_importing(&mut ch.pair2_slots, cut, range_end, meta2);
        }
        proof {
            let post = *self;
            assert(slots_only_changed(pre, post, ci as int));
            assert forall|j3: int|
                0 <= j3 < post.clusters@[ci as int].chunks@.len() implies (
            #[trigger] post.clusters@[ci as int].chunks@[j3]).wf() by {
                let xc = pre.clusters@[ci as int].chunks@[j3];
                let yc = post.clusters@[ci as int].chunks@[j3];
                assert(xc.wf());
                if j3 != sj as int && j3 != dj as int {
                    assert(yc == xc);
                } else {
                    assert(yc.first == xc.first && yc.second == xc.second);
                    assert forall|s: int| !(#[trigger] list_owns(yc.pair1_slots@, s)
                        && #[trigger] list_owns(yc.pair2_slots@, s)) by {
                        assert(list_owns(yc.pair1_slots@, s) == list_owns(xc.pair1_slots@, s));
                        assert(list_owns(yc.pair2_slots@, s) == list_owns(xc.pair2_slots@, s));
                    }
                }
            }
            assert forall|j3: int, s: int|
                0 <= j3 < post.clusters@[ci as int].chunks@.len() implies (
            #[trigger] post.clusters@[ci as int].chunks@[j3].owns(s)) == pre.clusters@[ci as int].chunks@[j3].owns(
                s,
            ) by {
                let xc = pre.clusters@[ci as int].chunks@[j3];
                let yc = post.clusters@[ci as int].chunks@[j3];
                if j3 != sj as int && j3 != dj as int {
                    assert(yc == xc);
                } else {
                    assert(list_owns(yc.pair1_slots@, s) == list_owns(xc.pair1_slots@, s));
                    assert(list_owns(yc.pair2_slots@, s) == list_owns(xc.pair2_slots@, s));
                }
            }
            lemma_cluster_same_owned_wf(
                pre.clusters@[ci as int],
                post.clusters@[ci as int],
            );
            lemma_slots_change_inv(pre, post, ci as int);
            // The staged-triple bookkeeping.
            let pre_c = pre.clusters@[ci as int];
            let post_c = post.clusters@[ci as int];
            let src_old = if s_pair1 {
                pre_c.chunks@[sj as int].pair1_slots@
            } else {
                pre_c.chunks@[sj as int].pair2_slots@
            };
            let src_new = if s_pair1 {
                post_c.chunks@[sj as int].pair1_slots@
            } else {
                post_c.chunks@[sj as int].pair2_slots@
            };
            let dst_old = if d_pair1 {
                pre_c.chunks@[dj as int].pair1_slots@
            } else {
                pre_c.chunks@[dj as int].pair2_slots@
            };
            let dst_new = if d_pair1 {
                post_c.chunks@[dj as int].pair1_slots@
            } else {
                post_c.chunks@[dj as int].pair2_slots@
            };
            lemma_split_list_tags(src_old, src_new, idx as int, cut as int, gmeta);
            lemma_push_list_tags(
                dst_old,
                dst_new,
                SlotRange { start: cut, end: range_end, tag: SlotRangeTag::Importing(meta2) },
            );
            assert(meta2.same(gmeta));
            assert(staged_step(pre_c, post_c, cut as int, range_end as int, gmeta)) by {
                assert forall|s2: int, e2: int, m2: MigrationMeta| #[trigger] cluster_has_migrating(
                    post_c,
                    s2,
                    e2,
                    m2,
                ) <==> (cluster_has_migrating(pre_c, s2, e2, m2) || (s2 == cut as int && e2
                    == range_end as int && gmeta.same(m2))) by {
                    if cluster_has_migrating(post_c, s2, e2, m2) {
                        let j3 = choose|j3: int|
                            0 <= j3 < post_c.chunks@.len() && (list_has_migrating(
                                (#[trigger] post_c.chunks@[j3]).pair1_slots@,
                                s2,
                                e2,
                                m2,
                            ) || list_has_migrating(post_c.chunks@[j3].pair2_slots@, s2, e2, m2));
                        if j3 != sj as int && j3 != dj as int {
                            assert(post_c.chunks@[j3] == pre_c.chunks@[j3]);
                        }
                    }
                    if cluster_has_migrating(pre_c, s2, e2, m2) {
                        let j3 = choose|j3: int|
                            0 <= j3 < pre_c.chunks@.len() && (list_has_migrating(
                                (#[trigger] pre_c.chunks@[j3]).pair1_slots@,
                                s2,
                                e2,
                                m2,
                            ) || list_has_migrating(pre_c.chunks@[j3].pair2_slots@, s2, e2, m2));
                        if j3 != sj as int && j3 != dj as int {
                            assert(post_c.chunks@[j3] == pre_c.chunks@[j3]);
                        }
                    }
                    if s2 == cut as int && e2 == range_end as int && gmeta.same(m2) {
                        assert(list_has_migrating(src_new, s2, e2, m2));
                    }
                }
                assert forall|s2: int, e2: int, m2: MigrationMeta| #[trigger] cluster_has_importing(
                    post_c,
                    s2,
                    e2,
                    m2,
                ) <==> (cluster_has_importing(pre_c, s2, e2, m2) || (s2 == cut as int && e2
                    == range_end as int && gmeta.same(m2))) by {
                    if cluster_has_importing(post_c, s2, e2, m2) {
                        let j3 = choose|j3: int|
                            0 <= j3 < post_c.chunks@.len() && (list_has_importing(
                                (#[trigger] post_c.chunks@[j3]).pair1_slots@,
                                s2,
                                e2,
                                m2,
                            ) || list_has_importing(post_c.chunks@[j3].pair2_slots@, s2, e2, m2));
                        if j3 != sj as int && j3 != dj as int {
                            assert(post_c.chunks@[j3] == pre_c.chunks@[j3]);
                        }
                    }
                    if cluster_has_importing(pre_c, s2, e2, m2) {
                        let j3 = choose|j3: int|
                            0 <= j3 < pre_c.chunks@.len() && (list_has_importing(
                                (#[trigger] pre_c.chunks@[j3]).pair1_slots@,
                                s2,
                                e2,
                                m2,
                            ) || list_has_importing(pre_c.chunks@[j3].pair2_slots@, s2, e2, m2));
                        if j3 != sj as int && j3 != dj as int {
                            assert(post_c.chunks@[j3] == pre_c.chunks@[j3]);
                        }
                    }
                    if s2 == cut as int && e2 == range_end as int && gmeta.same(m2) {
                        assert(m2.same(meta2) || meta2.same(m2));
                        assert(list_has_importing(dst_new, s2, e2, m2));
                    }
                }
            }
        }
        amount
    }
}


/// A range migrating away with span `[start, end)` under a meta equal to
/// `tm`.
pub open spec fn is_migrating_match(r: SlotRange, start: int, end: int, tm: MigrationMeta) -> bool {
    r.start == start && r.end == end && (r.tag matches SlotRangeTag::Migrating(m) && m.same(tm))
}

/// A range importing span `[start, end)` under a meta equal to `tm`.
pub open spec fn is_importing_match(r: SlotRange, start: int, end: int, tm: MigrationMeta) -> bool {
    r.start == start && r.end == end && (r.tag matches SlotRangeTag::Importing(m) && m.same(tm))
}

pub open spec fn list_has_migrating(rs: Seq<SlotRange>, start: int, end: int, tm: MigrationMeta) -> bool {
    exists|k: int| 0 <= k < rs.len() && is_migrating_match(#[trigger] rs[k], start, end, tm)
}

pub open spec fn list_has_importing(rs: Seq<SlotRange>, start: int, end: int, tm: MigrationMeta) -> bool {
    exists|k: int| 0 <= k < rs.len() && is_importing_match(#[trigger] rs[k], start, end, tm)
}

/// The cluster holds a stable (untagged) range with exactly this span:
/// after a commit, the destination's merged ownership.
pub open spec fn cluster_has_stable_range(c: ClusterStore, start: int, end: int) -> bool {
    exists|j: int|
        0 <= j < c.chunks@.len() && (list_has_stable_range(
            (#[trigger] c.chunks@[j]).pair1_slots@,
            start,
            end,
        ) || list_has_stable_range(c.chunks@[j].pair2_slots@, start, end))
}

pub open spec fn list_has_stable_range(rs: Seq<SlotRange>, start: int, end: int) -> bool {
    exists|k: int|
        0 <= k < rs.len() && (#[trigger] rs[k]).start == start && rs[k].end == end
            && rs[k].tag is Stable
}

pub open spec fn cluster_has_migrating(c: ClusterStore, start: int, end: int, tm: MigrationMeta) -> bool {
    exists|j: int|
        0 <= j < c.chunks@.len() && (list_has_migrating(
            (#[trigger] c.chunks@[j]).pair1_slots@,
            start,
            end,
            tm,
        ) || list_has_migrating(c.chunks@[j].pair2_slots@, start, end, tm))
}

pub open spec fn cluster_has_importing(c: ClusterStore, start: int, end: int, tm: MigrationMeta) -> bool {
    exists|j: int|
        0 <= j < c.chunks@.len() && (list_has_importing(
            (#[trigger] c.chunks@[j]).pair1_slots@,
            start,
            end,
            tm,
        ) || list_has_importing(c.chunks@[j].pair2_slots@, start, end, tm))
}

/// The staged tags of the two clusters agree triple for triple: every
/// migrating range has its mirrored importing range and conversely.
pub open spec fn cluster_tags_mirrored(c: ClusterStore) -> bool {
    forall|s: int, e: int, m: MigrationMeta|
        #[trigger] cluster_has_migrating(c, s, e, m) <==> #[trigger] cluster_has_importing(
            c,
            s,
            e,
            m,
        )
}

/// A cluster without tags has no staged triple of either kind.
proof fn lemma_no_tags_no_triples(c: ClusterStore)
    requires
        !cluster_has_tags(c),
    ensures
        forall|s: int, e: int, m: MigrationMeta| !(#[trigger] cluster_has_migrating(c, s, e, m)),
        forall|s: int, e: int, m: MigrationMeta| !(#[trigger] cluster_has_importing(c, s, e, m)),
{
    assert forall|s: int, e: int, m: MigrationMeta| !(#[trigger] cluster_has_migrating(
        c,
        s,
        e,
        m,
    )) by {
        if cluster_has_migrating(c, s, e, m) {
            let j = choose|j: int|
                0 <= j < c.chunks@.len() && (list_has_migrating(
                    (#[trigger] c.chunks@[j]).pair1_slots@,
                    s,
                    e,
                    m,
                ) || list_has_migrating(c.chunks@[j].pair2_slots@, s, e, m));
            if list_has_migrating(c.chunks@[j].pair1_slots@, s, e, m) {
                let k = choose|k: int|
                    0 <= k < c.chunks@[j].pair1_slots@.len() && is_migrating_match(
                        #[trigger] c.chunks@[j].pair1_slots@[k],
                        s,
                        e,
                        m,
                    );
                assert(list_has_tag(c.chunks@[j].pair1_slots@));
            } else {
                let k = choose|k: int|
                    0 <= k < c.chunks@[j].pair2_slots@.len() && is_migrating_match(
                        #[trigger] c.chunks@[j].pair2_slots@[k],
                        s,
                        e,
                        m,
                    );
                assert(list_has_tag(c.chunks@[j].pair2_slots@));
            }
            assert(cluster_has_tags(c));
        }
    }
    assert forall|s: int, e: int, m: MigrationMeta| !(#[trigger] cluster_has_importing(
        c,
        s,
        e,
        m,
    )) by {
        if cluster_has_importing(c, s, e, m) {
            let j = choose|j: int|
                0 <= j < c.chunks@.len() && (list_has_importing(
                    (#[trigger] c.chunks@[j]).pair1_slots@,
                    s,
                    e,
                    m,
                ) || list_has_importing(c.chunks@[j].pair2_slots@, s, e, m));
            if list_has_importing(c.chunks@[j].pair1_slots@, s, e, m) {
                let k = choose|k: int|
                    0 <= k < c.chunks@[j].pair1_slots@.len() && is_importing_match(
                        #[trigger] c.chunks@[j].pair1_slots@[k],
                        s,
                        e,
                        m,
                    );
                assert(list_has_tag(c.chunks@[j].pair1_slots@));
            } else {
                let k = choose|k: int|
                    0 <= k < c.chunks@[j].pair2_slots@.len() && is_importing_match(
                        #[trigger] c.chunks@[j].pair2_slots@[k],
                        s,
                        e,
                        m,
                    );
                assert(list_has_tag(c.chunks@[j].pair2_slots@));
            }
            assert(cluster_has_tags(c));
        }
    }
}

/// A staged migrating triple means the cluster carries tags.
proof fn lemma_mig_implies_tags(c: ClusterStore, s: int, e: int, m: MigrationMeta)
    requires
        cluster_has_migrating(c, s, e, m),
    ensures
        cluster_has_tags(c),
{
    let j = choose|j: int|
        0 <= j < c.chunks@.len() && (list_has_migrating(
            (#[trigger] c.chunks@[j]).pair1_slots@,
            s,
            e,
            m,
        ) || list_has_migrating(c.chunks@[j].pair2_slots@, s, e, m));
    if list_has_migrating(c.chunks@[j].pair1_slots@, s, e, m) {
        let k = choose|k: int|
            0 <= k < c.chunks@[j].pair1_slots@.len() && is_migrating_match(
                #[trigger] c.chunks@[j].pair1_slots@[k],
                s,
                e,
                m,
            );
        assert(list_has_tag(c.chunks@[j].pair1_slots@));
    } else {
        let k = choose|k: int|
            0 <= k < c.chunks@[j].pair2_slots@.len() && is_migrating_match(
                #[trigger] c.chunks@[j].pair2_slots@[k],
                s,
                e,
                m,
            );
        assert(list_has_tag(c.chunks@[j].pair2_slots@));
    }
}

/// Tag content of a list after the split helper: one migrating triple
/// appears, nothing else changes.
proof fn lemma_split_list_tags(
    old_l: Seq<SlotRange>,
    new_l: Seq<SlotRange>,
    idx: int,
    cut: int,
    gmeta: MigrationMeta,
)
    requires
        0 <= idx < old_l.len(),
        old_l[idx].tag is Stable,
        new_l == old_l.update(
            idx,
            SlotRange {
                start: old_l[idx].start,
                end: old_l[idx].end,
                tag: SlotRangeTag::Migrating(gmeta),
            },
        ) && cut == old_l[idx].start || (new_l == old_l.update(
            idx,
            SlotRange { start: old_l[idx].start, end: cut as usize, tag: SlotRangeTag::Stable },
        ).push(
            SlotRange { start: cut as usize, end: old_l[idx].end, tag: SlotRangeTag::Migrating(gmeta) },
        ) && old_l[idx].start <= cut <= usize::MAX),
    ensures
        forall|s2: int, e2: int, m2: MigrationMeta|
            #[trigger] list_has_migrating(new_l, s2, e2, m2) <==> (list_has_migrating(
                old_l,
                s2,
                e2,
                m2,
            ) || (s2 == cut && e2 == old_l[idx].end && gmeta.same(m2))),
        forall|s2: int, e2: int, m2: MigrationMeta|
            #[trigger] list_has_importing(new_l, s2, e2, m2) == list_has_importing(
                old_l,
                s2,
                e2,
                m2,
            ),
{
    let retag = new_l == old_l.update(
        idx,
        SlotRange {
            start: old_l[idx].start,
            end: old_l[idx].end,
            tag: SlotRangeTag::Migrating(gmeta),
        },
    ) && cut == old_l[idx].start;
    assert forall|s2: int, e2: int, m2: MigrationMeta| #[trigger] list_has_migrating(
        new_l,
        s2,
        e2,
        m2,
    ) <==> (list_has_migrating(old_l, s2, e2, m2) || (s2 == cut && e2 == old_l[idx].end
        && gmeta.same(m2))) by {
        if list_has_migrating(new_l, s2, e2, m2) {
            let k = choose|k: int|
                0 <= k < new_l.len() && is_migrating_match(#[trigger] new_l[k], s2, e2, m2);
            if retag {
                if k != idx {
                    assert(is_migrating_match(old_l[k], s2, e2, m2));
                }
            } else {
                if k < old_l.len() && k != idx {
                    assert(is_migrating_match(old_l[k], s2, e2, m2));
                } else if k == idx {
                    assert(new_l[k].tag is Stable);
                }
            }
        }
        if list_has_migrating(old_l, s2, e2, m2) {
            let k = choose|k: int|
                0 <= k < old_l.len() && is_migrating_match(#[trigger] old_l[k], s2, e2, m2);
            assert(k != idx);
            assert(is_migrating_match(new_l[k], s2, e2, m2));
        }
        if s2 == cut && e2 == old_l[idx].end && gmeta.same(m2) {
            if retag {
                assert(is_migrating_match(new_l[idx], s2, e2, m2));
            } else {
                assert(is_migrating_match(new_l[new_l.len() - 1], s2, e2, m2));
            }
        }
    }
    assert forall|s2: int, e2: int, m2: MigrationMeta| #[trigger] list_has_importing(
        new_l,
        s2,
        e2,
        m2,
    ) == list_has_importing(old_l, s2, e2, m2) by {
        if list_has_importing(new_l, s2, e2, m2) {
            let k = choose|k: int|
                0 <= k < new_l.len() && is_importing_match(#[trigger] new_l[k], s2, e2, m2);
            if retag {
                assert(k != idx);
                assert(is_importing_match(old_l[k], s2, e2, m2));
            } else {
                assert(k != idx && k < old_l.len());
                assert(is_importing_match(old_l[k], s2, e2, m2));
            }
        }
        if list_has_importing(old_l, s2, e2, m2) {
            let k = choose|k: int|
                0 <= k < old_l.len() && is_importing_match(#[trigger] old_l[k], s2, e2, m2);
            assert(k != idx);
            assert(is_importing_match(new_l[k], s2, e2, m2));
        }
    }
}

/// Tag content of a list after the push helper: one importing triple
/// appears, nothing else changes.
proof fn lemma_push_list_tags(old_l: Seq<SlotRange>, new_l: Seq<SlotRange>, sr: SlotRange)
    requires
        new_l == old_l.push(sr),
        sr.tag matches SlotRangeTag::Importing(mi),
    ensures
        forall|s2: int, e2: int, m2: MigrationMeta|
            #[trigger] list_has_importing(new_l, s2, e2, m2) <==> (list_has_importing(
                old_l,
                s2,
                e2,
                m2,
            ) || (s2 == sr.start && e2 == sr.end && (sr.tag matches SlotRangeTag::Importing(mi)
                && mi.same(m2)))),
        forall|s2: int, e2: int, m2: MigrationMeta|
            #[trigger] list_has_migrating(new_l, s2, e2, m2) == list_has_migrating(
                old_l,
                s2,
                e2,
                m2,
            ),
{
    assert forall|s2: int, e2: int, m2: MigrationMeta| #[trigger] list_has_importing(
        new_l,
        s2,
        e2,
        m2,
    ) <==> (list_has_importing(old_l, s2, e2, m2) || (s2 == sr.start && e2 == sr.end && (sr.tag
        matches SlotRangeTag::Importing(mi) && mi.same(m2)))) by {
        if list_has_importing(new_l, s2, e2, m2) {
            let k = choose|k: int|
                0 <= k < new_l.len() && is_importing_match(#[trigger] new_l[k], s2, e2, m2);
            if k < old_l.len() {
                assert(is_importing_match(old_l[k], s2, e2, m2));
            }
        }
        if list_has_importing(old_l, s2, e2, m2) {
            let k = choose|k: int|
                0 <= k < old_l.len() && is_importing_match(#[trigger] old_l[k], s2, e2, m2);
            assert(is_importing_match(new_l[k], s2, e2, m2));
        }
        if s2 == sr.start && e2 == sr.end && (sr.tag matches SlotRangeTag::Importing(mi)
            && mi.same(m2)) {
            assert(is_importing_match(new_l[new_l.len() - 1], s2, e2, m2));
        }
    }
    assert forall|s2: int, e2: int, m2: MigrationMeta| #[trigger] list_has_migrating(
        new_l,
        s2,
        e2,
        m2,
    ) == list_has_migrating(old_l, s2, e2, m2) by {
        if list_has_migrating(new_l, s2, e2, m2) {
            let k = choose|k: int|
                0 <= k < new_l.len() && is_migrating_match(#[trigger] new_l[k], s2, e2, m2);
            if k < old_l.len() {
                assert(is_migrating_match(old_l[k], s2, e2, m2));
            }
        }
        if list_has_migrating(old_l, s2, e2, m2) {
            let k = choose|k: int|
                0 <= k < old_l.len() && is_migrating_match(#[trigger] old_l[k], s2, e2, m2);
            assert(is_migrating_match(new_l[k], s2, e2, m2));
        }
    }
}

impl MetaStore {
    /// Decides `list_has_tag`.
    fn list_tag_present(rs: &Vec<SlotRange>) -> (r: bool)
        ensures
            r == list_has_tag(rs@),
    {
        let n = rs.len();
        let mut k: usize = 0;
        while k < n
            invariant
                n == rs@.len(),
                k <= n,
                forall|k2: int| 0 <= k2 < k ==> (#[trigger] rs@[k2]).tag is Stable,
            decreases n - k,
        {
            let tagged = match rs[k].tag {
                SlotRangeTag::Stable => false,
                _ => true,
            };
            if tagged {
                return true;
            }
            k = k + 1;
        }
        false
    }

    /// Decides `cluster_has_tags`.
    fn cluster_tags_present(c: &ClusterStore) -> (r: bool)
        ensures
            r == cluster_has_tags(*c),
    {
        let n = c.chunks.len();
        let mut j: usize = 0;
        while j < n
            invariant
                n == c.chunks@.len(),
                j <= n,
                forall|j2: int|
                    0 <= j2 < j ==> !list_has_tag((#[trigger] c.chunks@[j2]).pair1_slots@)
                        && !list_has_tag(c.chunks@[j2].pair2_slots@),
            decreases n - j,
        {
            if Self::list_tag_present(&c.chunks[j].pair1_slots) || Self::list_tag_present(
                &c.chunks[j].pair2_slots,
            ) {
                return true;
            }
            j = j + 1;
        }
        false
    }

    /// Decides `cluster_has_empty_master`.
    fn cluster_empty_master_present(c: &ClusterStore) -> (r: bool)
        ensures
            r == cluster_has_empty_master(*c),
    {
        let n = c.chunks.len();
        let mut j: usize = 0;
        while j < n
            invariant
                n == c.chunks@.len(),
                j <= n,
                forall|j2: int|
                    0 <= j2 < j ==> (#[trigger] c.chunks@[j2]).pair1_slots@.len() != 0
                        && c.chunks@[j2].pair2_slots@.len() != 0,
            decreases n - j,
        {
            if c.chunks[j].pair1_slots.len() == 0 || c.chunks[j].pair2_slots.len() == 0 {
                return true;
            }
            j = j + 1;
        }
        false
    }

    /// Plan a scale-out migration: give every empty master its share of
    /// the slot space, staging the moved ranges under migration tags.
    #[verifier::rlimit(100)]
    pub fn migrate_slots(&mut self, cluster_name: String) -> (r: Result<(), MetaStoreError>)
        requires
            old(self).inv(),
            old(self).global_epoch < u64::MAX,
        ensures
            final(self).inv(),
            r is Err ==> *final(self) == *old(self),
            r == Err::<(), MetaStoreError>(MetaStoreError::ClusterNotFound) <==> !cluster_exists(
                old(self).clusters@,
                cluster_name@,
            ),
            r matches Err(e) ==> (e == MetaStoreError::ClusterNotFound || e
                == MetaStoreError::MigrationRunning || e == MetaStoreError::SlotsAlreadyEven),
            forall|i: int|
                0 <= i < old(self).clusters@.len() && (#[trigger] old(self).clusters@[i]).name@
                    == cluster_name@ ==> {
                    &&& (r == Err::<(), MetaStoreError>(MetaStoreError::MigrationRunning)
                        <==> cluster_has_tags(old(self).clusters@[i]))
                    &&& (r == Err::<(), MetaStoreError>(MetaStoreError::SlotsAlreadyEven)
                        ==> !cluster_has_tags(old(self).clusters@[i]) && *final(self) == *old(self))
                    &&& (!cluster_has_tags(old(self).clusters@[i]) && !cluster_has_empty_master(
                        old(self).clusters@[i],
                    ) ==> r == Err::<(), MetaStoreError>(MetaStoreError::SlotsAlreadyEven))
                    &&& r is Ok ==> !cluster_has_tags(old(self).clusters@[i])
                        && cluster_has_empty_master(old(self).clusters@[i]) && migrate_slots_post(
                        *old(self),
                        *final(self),
                        i,
                    ) && cluster_has_tags(final(self).clusters@[i]) && cluster_tags_mirrored(
                        final(self).clusters@[i],
                    )
                },
    {
        let ci = match self.find_cluster_pos(&cluster_name) {
            None => {
                return Err(MetaStoreError::ClusterNotFound);
            },
            Some(i) => i,
        };
        if Self::cluster_tags_present(&self.clusters[ci]) {
            return Err(MetaStoreError::MigrationRunning);
        }
        if !Self::cluster_empty_master_present(&self.clusters[ci]) {
            return Err(MetaStoreError::SlotsAlreadyEven);
        }
        let ghost pre = *self;
        proof {
            lemma_no_tags_no_triples(pre.clusters@[ci as int]);
        }
        let mut staged: bool = false;
        let new_epoch = self.global_epoch + 1;
        let nchunks = self.clusters[ci].chunks.len();
        proof {
            assert(pre.clusters@[ci as int].wf());
        }
        let m = if nchunks >= SLOT_MAX {
            SLOT_MAX
        } else {
            2 * nchunks
        };
        let target = SLOT_MAX / m;
        let mut dj: usize = 0;
        while dj < nchunks
            invariant
                pre.inv(),
                self.inv(),
                ci < self.clusters@.len(),
                nchunks == self.clusters@[ci as int].chunks@.len(),
                slots_only_changed(pre, *self, ci as int),
                dj <= nchunks,
                cluster_tags_mirrored(self.clusters@[ci as int]),
                !staged ==> *self == pre,
                staged ==> cluster_has_tags(self.clusters@[ci as int]),
            decreases nchunks - dj,
        {
            let mut d_pair1: bool = true;
            let mut round: usize = 0;
            while round < 2
                invariant
                    pre.inv(),
                    self.inv(),
                    ci < self.clusters@.len(),
                    nchunks == self.clusters@[ci as int].chunks@.len(),
                    slots_only_changed(pre, *self, ci as int),
                    dj < nchunks,
                    round <= 2,
                    cluster_tags_mirrored(self.clusters@[ci as int]),
                    !staged ==> *self == pre,
                    staged ==> cluster_has_tags(self.clusters@[ci as int]),
                decreases 2 - round,
            {
                let empty = if d_pair1 {
                    self.clusters[ci].chunks[dj].pair1_slots.len() == 0
                } else {
                    self.clusters[ci].chunks[dj].pair2_slots.len() == 0
                };
                if empty {
                    let mut need: usize = target;
                    let mut fuel: usize = SLOT_MAX;
                    while need > 0 && fuel > 0
                        invariant
                            pre.inv(),
                            self.inv(),
                            ci < self.clusters@.len(),
                            nchunks == self.clusters@[ci as int].chunks@.len(),
                            slots_only_changed(pre, *self, ci as int),
                            dj < nchunks,
                            cluster_tags_mirrored(self.clusters@[ci as int]),
                            !staged ==> *self == pre,
                            staged ==> cluster_has_tags(self.clusters@[ci as int]),
                        decreases fuel,
                    {
                        fuel = fuel - 1;
                        let ghost cur = *self;
                        let took = self.migration_take_step(
                            ci,
                            dj,
                            d_pair1,
                            need,
                            target,
                            new_epoch,
                            None,
                        );
                        proof {
                            lemma_slots_chain(pre, cur, *self, ci as int);
                            if took > 0 {
                                let (cs, ce, m) = choose|cs: int, ce: int, m: MigrationMeta|
                                    #[trigger] staged_step(
                                        cur.clusters@[ci as int],
                                        self.clusters@[ci as int],
                                        cs,
                                        ce,
                                        m,
                                    );
                                assert(cluster_tags_mirrored(self.clusters@[ci as int])) by {
                                    assert forall|s2: int, e2: int, m2: MigrationMeta|
                                        #[trigger] cluster_has_migrating(
                                            self.clusters@[ci as int],
                                            s2,
                                            e2,
                                            m2,
                                        ) <==> #[trigger] cluster_has_importing(
                                        self.clusters@[ci as int],
                                        s2,
                                        e2,
                                        m2,
                                    ) by {
                                        assert(cluster_has_migrating(
                                            cur.clusters@[ci as int],
                                            s2,
                                            e2,
                                            m2,
                                        ) <==> cluster_has_importing(
                                            cur.clusters@[ci as int],
                                            s2,
                                            e2,
                                            m2,
                                        ));
                                    }
                                }
                                lemma_mig_implies_tags(self.clusters@[ci as int], cs, ce, m);
                            }
                        }
                        if took == 0 {
                            need = 0;
                        } else {
                            staged = true;
                            need = need - took;
                        }
                    }
                }
                d_pair1 = false;
                round = round + 1;
            }
            dj = dj + 1;
        }
        if !staged {
            return Err(MetaStoreError::SlotsAlreadyEven);
        }
        let ghost mid = *self;
        let cl = &mut self.clusters[ci];
        cl.epoch = new_epoch;
        self.global_epoch = new_epoch;
        proof {
            let post = *self;
            assert(same_memberships(mid, post)) by {
                assert forall|i: int| 0 <= i < mid.clusters@.len() implies (
                #[trigger] post.clusters@[i]).name@ == mid.clusters@[i].name@
                    && chunks_same_addresses(mid.clusters@[i].chunks@, post.clusters@[i].chunks@) by {
                    if i != ci {
                        assert(post.clusters@[i] == mid.clusters@[i]);
                    }
                }
            }
            assert forall|i: int| 0 <= i < post.clusters@.len() implies (
            #[trigger] post.clusters@[i]).wf() && post.clusters@[i].epoch
                <= post.global_epoch by {
                if i != ci {
                    assert(post.clusters@[i] == mid.clusters@[i]);
                    assert(mid.clusters@[i].wf());
                    assert(mid.clusters@[i].epoch <= mid.global_epoch);
                } else {
                    assert(mid.clusters@[i].wf());
                    cluster_wf_depends_on_chunks_and_name(mid.clusters@[i], post.clusters@[i]);
                }
            }
            memberships_preserve_inv(mid, post);
            assert(migrate_slots_post(pre, post, ci as int));
            assert(post.clusters@[ci as int].chunks == mid.clusters@[ci as int].chunks);
            assert(cluster_has_tags(post.clusters@[ci as int])) by {
                assert(cluster_has_tags(mid.clusters@[ci as int]));
                let j = choose|j: int|
                    0 <= j < mid.clusters@[ci as int].chunks@.len() && (list_has_tag(
                        (#[trigger] mid.clusters@[ci as int].chunks@[j]).pair1_slots@,
                    ) || list_has_tag(mid.clusters@[ci as int].chunks@[j].pair2_slots@));
                assert(post.clusters@[ci as int].chunks@[j]
                    == mid.clusters@[ci as int].chunks@[j]);
            }
            assert(cluster_tags_mirrored(post.clusters@[ci as int])) by {
                assert forall|s2: int, e2: int, m2: MigrationMeta| #[trigger] cluster_has_migrating(
                    post.clusters@[ci as int],
                    s2,
                    e2,
                    m2,
                ) <==> #[trigger] cluster_has_importing(
                    post.clusters@[ci as int],
                    s2,
                    e2,
                    m2,
                ) by {
                    assert(cluster_has_migrating(post.clusters@[ci as int], s2, e2, m2)
                        <==> cluster_has_migrating(mid.clusters@[ci as int], s2, e2, m2)) by {
                        if cluster_has_migrating(post.clusters@[ci as int], s2, e2, m2) {
                            let j = choose|j: int|
                                0 <= j < post.clusters@[ci as int].chunks@.len() && (
                                list_has_migrating(
                                    (#[trigger] post.clusters@[ci as int].chunks@[j]).pair1_slots@,
                                    s2,
                                    e2,
                                    m2,
                                ) || list_has_migrating(
                                    post.clusters@[ci as int].chunks@[j].pair2_slots@,
                                    s2,
                                    e2,
                                    m2,
                                ));
                            assert(mid.clusters@[ci as int].chunks@[j]
                                == post.clusters@[ci as int].chunks@[j]);
                        }
                        if cluster_has_migrating(mid.clusters@[ci as int], s2, e2, m2) {
                            let j = choose|j: int|
                                0 <= j < mid.clusters@[ci as int].chunks@.len() && (
                                list_has_migrating(
                                    (#[trigger] mid.clusters@[ci as int].chunks@[j]).pair1_slots@,
                                    s2,
                                    e2,
                                    m2,
                                ) || list_has_migrating(
                                    mid.clusters@[ci as int].chunks@[j].pair2_slots@,
                                    s2,
                                    e2,
                                    m2,
                                ));
                            assert(post.clusters@[ci as int].chunks@[j]
                                == mid.clusters@[ci as int].chunks@[j]);
                        }
                    }
                    assert(cluster_has_importing(post.clusters@[ci as int], s2, e2, m2)
                        <==> cluster_has_importing(mid.clusters@[ci as int], s2, e2, m2)) by {
                        if cluster_has_importing(post.clusters@[ci as int], s2, e2, m2) {
                            let j = choose|j: int|
                                0 <= j < post.clusters@[ci as int].chunks@.len() && (
                                list_has_importing(
                                    (#[trigger] post.clusters@[ci as int].chunks@[j]).pair1_slots@,
                                    s2,
                                    e2,
                                    m2,
                                ) || list_has_importing(
                                    post.clusters@[ci as int].chunks@[j].pair2_slots@,
                                    s2,
                                    e2,
                                    m2,
                                ));
                            assert(mid.clusters@[ci as int].chunks@[j]
                                == post.clusters@[ci as int].chunks@[j]);
                        }
                        if cluster_has_importing(mid.clusters@[ci as int], s2, e2, m2) {
                            let j = choose|j: int|
                                0 <= j < mid.clusters@[ci as int].chunks@.len() && (
                                list_has_importing(
                                    (#[trigger] mid.clusters@[ci as int].chunks@[j]).pair1_slots@,
                                    s2,
                                    e2,
                                    m2,
                                ) || list_has_importing(
                                    mid.clusters@[ci as int].chunks@[j].pair2_slots@,
                                    s2,
                                    e2,
                                    m2,
                                ));
                            assert(post.clusters@[ci as int].chunks@[j]
                                == mid.clusters@[ci as int].chunks@[j]);
                        }
                    }
                }
            }
        }
        Ok(())
    }
}

/// What a successful scale-out plan leaves behind: epochs bumped, only
/// the slot lists of the cluster changed.
pub open spec fn migrate_slots_post(pre: MetaStore, post: MetaStore, ci: int) -> bool {
    &&& post.global_epoch == pre.global_epoch + 1
    &&& post.version == pre.version
    &&& post.failures == pre.failures
    &&& post.all_proxies == pre.all_proxies
    &&& post.enable_ordered_proxy == pre.enable_ordered_proxy
    &&& post.clusters@.len() == pre.clusters@.len()
    &&& forall|i: int|
        0 <= i < pre.clusters@.len() && i != ci ==> #[trigger] post.clusters@[i]
            == pre.clusters@[i]
    &&& post.clusters@[ci].epoch == post.global_epoch
    &&& post.clusters@[ci].name == pre.clusters@[ci].name
    &&& post.clusters@[ci].config == pre.clusters@[ci].config
    &&& post.clusters@[ci].chunks@.len() == pre.clusters@[ci].chunks@.len()
    &&& forall|j: int|
        0 <= j < pre.clusters@[ci].chunks@.len() ==> (#[trigger] post.clusters@[ci].chunks@[j]).first
            == pre.clusters@[ci].chunks@[j].first && post.clusters@[ci].chunks@[j].second
            == pre.clusters@[ci].chunks@[j].second
}


/// There is a pair list holding the importing side that is not the list
/// holding the migrating side.
pub open spec fn cluster_has_importing_apart(
    c: ClusterStore,
    start: int,
    end: int,
    tm: MigrationMeta,
) -> bool {
    exists|j: int|
        0 <= j < c.chunks@.len() && ((list_has_importing(
            (#[trigger] c.chunks@[j]).pair1_slots@,
            start,
            end,
            tm,
        ) && !list_has_migrating(c.chunks@[j].pair1_slots@, start, end, tm)) || (list_has_importing(
            c.chunks@[j].pair2_slots@,
            start,
            end,
            tm,
        ) && !list_has_migrating(c.chunks@[j].pair2_slots@, start, end, tm)))
}

/// In a well-formed cluster at most one pair list can hold a migrating
/// range over a given span: the span is owned, and owners are unique.
proof fn lemma_migrating_unique(
    c: ClusterStore,
    sj: int,
    sp1: bool,
    sk: int,
    start: int,
    end: int,
    tm: MigrationMeta,
)
    requires
        c.wf(),
        0 <= sj < c.chunks@.len(),
        0 <= sk,
        sp1 ==> sk < c.chunks@[sj].pair1_slots@.len() && is_migrating_match(
            c.chunks@[sj].pair1_slots@[sk],
            start,
            end,
            tm,
        ),
        !sp1 ==> sk < c.chunks@[sj].pair2_slots@.len() && is_migrating_match(
            c.chunks@[sj].pair2_slots@[sk],
            start,
            end,
            tm,
        ),
    ensures
        forall|j: int|
            0 <= j < c.chunks@.len() && j != sj ==> !list_has_migrating(
                (#[trigger] c.chunks@[j]).pair1_slots@,
                start,
                end,
                tm,
            ) && !list_has_migrating(c.chunks@[j].pair2_slots@, start, end, tm),
        sp1 ==> !list_has_migrating(c.chunks@[sj].pair2_slots@, start, end, tm) && forall|k: int|
            0 <= k < c.chunks@[sj].pair1_slots@.len() && k != sk ==> !is_migrating_match(
                #[trigger] c.chunks@[sj].pair1_slots@[k],
                start,
                end,
                tm,
            ),
        !sp1 ==> !list_has_migrating(c.chunks@[sj].pair1_slots@, start, end, tm) && forall|k: int|
            0 <= k < c.chunks@[sj].pair2_slots@.len() && k != sk ==> !is_migrating_match(
                #[trigger] c.chunks@[sj].pair2_slots@[k],
                start,
                end,
                tm,
            ),
{
    let src_list = if sp1 {
        c.chunks@[sj].pair1_slots@
    } else {
        c.chunks@[sj].pair2_slots@
    };
    assert(range_valid(src_list[sk]));
    assert(owned_at(src_list[sk], start));
    assert(list_owns(src_list, start));
    assert(c.chunks@[sj].owns(start));
    assert forall|j: int| 0 <= j < c.chunks@.len() && j != sj implies !list_has_migrating(
        (#[trigger] c.chunks@[j]).pair1_slots@,
        start,
        end,
        tm,
    ) && !list_has_migrating(c.chunks@[j].pair2_slots@, start, end, tm) by {
        if list_has_migrating(c.chunks@[j].pair1_slots@, start, end, tm) {
            let k = choose|k: int|
                0 <= k < c.chunks@[j].pair1_slots@.len() && is_migrating_match(
                    #[trigger] c.chunks@[j].pair1_slots@[k],
                    start,
                    end,
                    tm,
                );
            assert(owned_at(c.chunks@[j].pair1_slots@[k], start));
            assert(list_owns(c.chunks@[j].pair1_slots@, start));
            assert(c.chunks@[j].owns(start));
        }
        if list_has_migrating(c.chunks@[j].pair2_slots@, start, end, tm) {
            let k = choose|k: int|
                0 <= k < c.chunks@[j].pair2_slots@.len() && is_migrating_match(
                    #[trigger] c.chunks@[j].pair2_slots@[k],
                    start,
                    end,
                    tm,
                );
            assert(owned_at(c.chunks@[j].pair2_slots@[k], start));
            assert(list_owns(c.chunks@[j].pair2_slots@, start));
            assert(c.chunks@[j].owns(start));
        }
    }
    assert(c.chunks@[sj].wf());
    if sp1 {
        if list_has_migrating(c.chunks@[sj].pair2_slots@, start, end, tm) {
            let k = choose|k: int|
                0 <= k < c.chunks@[sj].pair2_slots@.len() && is_migrating_match(
                    #[trigger] c.chunks@[sj].pair2_slots@[k],
                    start,
                    end,
                    tm,
                );
            assert(owned_at(c.chunks@[sj].pair2_slots@[k], start));
            assert(list_owns(c.chunks@[sj].pair2_slots@, start));
        }
        assert forall|k: int|
            0 <= k < c.chunks@[sj].pair1_slots@.len() && k != sk implies !is_migrating_match(
            #[trigger] c.chunks@[sj].pair1_slots@[k],
            start,
            end,
            tm,
        ) by {
            if is_migrating_match(c.chunks@[sj].pair1_slots@[k], start, end, tm) {
                assert(owned_at(c.chunks@[sj].pair1_slots@[k], start));
                assert(owned_at(c.chunks@[sj].pair1_slots@[sk], start));
            }
        }
    } else {
        if list_has_migrating(c.chunks@[sj].pair1_slots@, start, end, tm) {
            let k = choose|k: int|
                0 <= k < c.chunks@[sj].pair1_slots@.len() && is_migrating_match(
                    #[trigger] c.chunks@[sj].pair1_slots@[k],
                    start,
                    end,
                    tm,
                );
            assert(owned_at(c.chunks@[sj].pair1_slots@[k], start));
            assert(list_owns(c.chunks@[sj].pair1_slots@, start));
        }
        assert forall|k: int|
            0 <= k < c.chunks@[sj].pair2_slots@.len() && k != sk implies !is_migrating_match(
            #[trigger] c.chunks@[sj].pair2_slots@[k],
            start,
            end,
            tm,
        ) by {
            if is_migrating_match(c.chunks@[sj].pair2_slots@[k], start, end, tm) {
                assert(owned_at(c.chunks@[sj].pair2_slots@[k], start));
                assert(owned_at(c.chunks@[sj].pair2_slots@[sk], start));
            }
        }
    }
}

impl MetaStore {
    /// Find a migrating range with this span and meta in the list.
    fn find_migrating_in_list(rs: &Vec<SlotRange>, s: usize, e: usize, tm: &MigrationMeta) -> (r:
        Option<usize>)
        ensures
            r matches Some(k) ==> k < rs@.len() && is_migrating_match(
                rs@[k as int],
                s as int,
                e as int,
                *tm,
            ),
            r is None ==> !list_has_migrating(rs@, s as int, e as int, *tm),
    {
        let n = rs.len();
        let mut k: usize = 0;
        while k < n
            invariant
                n == rs@.len(),
                k <= n,
                forall|k2: int|
                    0 <= k2 < k ==> !is_migrating_match(#[trigger] rs@[k2], s as int, e as int, *tm),
            decreases n - k,
        {
            let hit = match &rs[k].tag {
                SlotRangeTag::Migrating(m2) => rs[k].start == s && rs[k].end == e && m2.eq_meta(tm),
                _ => false,
            };
            if hit {
                return Some(k);
            }
            k = k + 1;
        }
        None
    }

    /// Find an importing range with this span and meta in the list.
    fn find_importing_in_list(rs: &Vec<SlotRange>, s: usize, e: usize, tm: &MigrationMeta) -> (r:
        Option<usize>)
        ensures
            r matches Some(k) ==> k < rs@.len() && is_importing_match(
                rs@[k as int],
                s as int,
                e as int,
                *tm,
            ),
            r is None ==> !list_has_importing(rs@, s as int, e as int, *tm),
    {
        let n = rs.len();
        let mut k: usize = 0;
        while k < n
            invariant
                n == rs@.len(),
                k <= n,
                forall|k2: int|
                    0 <= k2 < k ==> !is_importing_match(#[trigger] rs@[k2], s as int, e as int, *tm),
            decreases n - k,
        {
            let hit = match &rs[k].tag {
                SlotRangeTag::Importing(m2) => rs[k].start == s && rs[k].end == e && m2.eq_meta(tm),
                _ => false,
            };
            if hit {
                return Some(k);
            }
            k = k + 1;
        }
        None
    }

    /// Commit a finished migration task: the destination's importing
    /// range becomes stable, the source drops its migrating range, and
    /// the epochs advance.  Committing the same task again finds no
    /// migrating range and is refused, so the operation is idempotent.
    #[verifier::rlimit(100)]
    pub fn commit_migration(&mut self, task: MigrationTaskMeta) -> (r: Result<(), MetaStoreError>)
        requires
            old(self).inv(),
            old(self).global_epoch < u64::MAX,
        ensures
            final(self).inv(),
            r is Err ==> *final(self) == *old(self),
            r == Err::<(), MetaStoreError>(MetaStoreError::ClusterNotFound) <==> !cluster_exists(
                old(self).clusters@,
                task.cluster_name@,
            ),
            r == Err::<(), MetaStoreError>(MetaStoreError::InvalidMigrationTask) <==> cluster_exists(
                old(self).clusters@,
                task.cluster_name@,
            ) && !(task.slot_range.tag is Migrating),
            r matches Err(e) ==> (e == MetaStoreError::ClusterNotFound || e
                == MetaStoreError::InvalidMigrationTask || e
                == MetaStoreError::MigrationTaskNotFound),
            forall|i: int|
                0 <= i < old(self).clusters@.len() && (#[trigger] old(self).clusters@[i]).name@
                    == task.cluster_name@ && (task.slot_range.tag matches SlotRangeTag::Migrating(
                    tm,
                )) ==> {
                    let tm = task.slot_range.tag->Migrating_0;
                    let s = task.slot_range.start as int;
                    let e = task.slot_range.end as int;
                    &&& (r is Ok <==> cluster_has_migrating(old(self).clusters@[i], s, e, tm)
                        && cluster_has_importing_apart(old(self).clusters@[i], s, e, tm))
                    &&& r is Ok ==> migrate_slots_post(*old(self), *final(self), i)
                        && !cluster_has_migrating(final(self).clusters@[i], s, e, tm)
                        && cluster_has_stable_range(final(self).clusters@[i], s, e)
                },
    {
        let ci = match self.find_cluster_pos(&task.cluster_name) {
            None => {
                return Err(MetaStoreError::ClusterNotFound);
            },
            Some(i) => i,
        };
        let (s, e) = (task.slot_range.start, task.slot_range.end);
        let tm = match &task.slot_range.tag {
            SlotRangeTag::Migrating(m) => m,
            _ => {
                return Err(MetaStoreError::InvalidMigrationTask);
            },
        };
        let ghost pre = *self;
        proof {
            assert(pre.clusters@[ci as int].wf());
        }
        let nchunks = self.clusters[ci].chunks.len();
        let mut smatch: Option<(usize, bool, usize)> = None;
        let mut j: usize = 0;
        while j < nchunks
            invariant
                *self == pre,
                ci < self.clusters@.len(),
                nchunks == self.clusters@[ci as int].chunks@.len(),
                j <= nchunks,
                smatch matches Some((x, p, k)) ==> x < nchunks && (p ==> k
                    < self.clusters@[ci as int].chunks@[x as int].pair1_slots@.len()
                    && is_migrating_match(
                    self.clusters@[ci as int].chunks@[x as int].pair1_slots@[k as int],
                    s as int,
                    e as int,
                    *tm,
                )) && (!p ==> k < self.clusters@[ci as int].chunks@[x as int].pair2_slots@.len()
                    && is_migrating_match(
                    self.clusters@[ci as int].chunks@[x as int].pair2_slots@[k as int],
                    s as int,
                    e as int,
                    *tm,
                )),
                smatch is None ==> forall|j2: int|
                    0 <= j2 < j ==> !list_has_migrating(
                        (#[trigger] self.clusters@[ci as int].chunks@[j2]).pair1_slots@,
                        s as int,
                        e as int,
                        *tm,
                    ) && !list_has_migrating(
                        self.clusters@[ci as int].chunks@[j2].pair2_slots@,
                        s as int,
                        e as int,
                        *tm,
                    ),
            decreases nchunks - j,
        {
            match Self::find_migrating_in_list(&self.clusters[ci].chunks[j].pair1_slots, s, e, tm) {
                Some(k) => {
                    smatch = Some((j, true, k));
                    j = nchunks;
                },
                None => {
                    match Self::find_migrating_in_list(
                        &self.clusters[ci].chunks[j].pair2_slots,
                        s,
                        e,
                        tm,
                    ) {
                        Some(k) => {
                            smatch = Some((j, false, k));
                            j = nchunks;
                        },
                        None => {
                            j = j + 1;
                        },
                    }
                },
            }
        }
        let (sj, sp, sk) = match smatch {
            None => {
                proof {
                    assert(!cluster_has_migrating(
                        pre.clusters@[ci as int],
                        s as int,
                        e as int,
                        *tm,
                    ));
                }
                return Err(MetaStoreError::MigrationTaskNotFound);
            },
            Some(t) => t,
        };
        proof {
            lemma_migrating_unique(
                pre.clusters@[ci as int],
                sj as int,
                sp,
                sk as int,
                s as int,
                e as int,
                *tm,
            );
        }
        let mut dmatch: Option<(usize, bool, usize)> = None;
        let mut j2: usize = 0;
        while j2 < nchunks
            invariant
                *self == pre,
                ci < self.clusters@.len(),
                nchunks == self.clusters@[ci as int].chunks@.len(),
                j2 <= nchunks,
                sj < nchunks,
                dmatch matches Some((x, p, k)) ==> x < nchunks && !(x == sj && p == sp) && (p ==> k
                    < self.clusters@[ci as int].chunks@[x as int].pair1_slots@.len()
                    && is_importing_match(
                    self.clusters@[ci as int].chunks@[x as int].pair1_slots@[k as int],
                    s as int,
                    e as int,
                    *tm,
                )) && (!p ==> k < self.clusters@[ci as int].chunks@[x as int].pair2_slots@.len()
                    && is_importing_match(
                    self.clusters@[ci as int].chunks@[x as int].pair2_slots@[k as int],
                    s as int,
                    e as int,
                    *tm,
                )),
                dmatch is None ==> forall|j3: int|
                    0 <= j3 < j2 ==> !(!(j3 == sj && sp) && list_has_importing(
                        (#[trigger] self.clusters@[ci as int].chunks@[j3]).pair1_slots@,
                        s as int,
                        e as int,
                        *tm,
                    )) && !(!(j3 == sj && !sp) && list_has_importing(
                        self.clusters@[ci as int].chunks@[j3].pair2_slots@,
                        s as int,
                        e as int,
                        *tm,
                    )),
            decreases nchunks - j2,
        {
            if !(j2 == sj && sp) {
                match Self::find_importing_in_list(
                    &self.clusters[ci].chunks[j2].pair1_slots,
                    s,
                    e,
                    tm,
                ) {
                    Some(k) => {
                        dmatch = Some((j2, true, k));
                    },
                    None => {},
                }
            }
            if dmatch.is_none() && !(j2 == sj && !sp) {
                match Self::find_importing_in_list(
                    &self.clusters[ci].chunks[j2].pair2_slots,
                    s,
                    e,
                    tm,
                ) {
                    Some(k) => {
                        dmatch = Some((j2, false, k));
                    },
                    None => {},
                }
            }
            if dmatch.is_some() {
                j2 = nchunks;
            } else {
                j2 = j2 + 1;
            }
        }
        let (dj, dp, dk) = match dmatch {
            None => {
                proof {
                    assert(!cluster_has_importing_apart(
                        pre.clusters@[ci as int],
                        s as int,
                        e as int,
                        *tm,
                    )) by {
                        if cluster_has_importing_apart(
                            pre.clusters@[ci as int],
                            s as int,
                            e as int,
                            *tm,
                        ) {
                            let j3 = choose|j3: int|
                                0 <= j3 < pre.clusters@[ci as int].chunks@.len() && ((
                                list_has_importing(
                                    (#[trigger] pre.clusters@[ci as int].chunks@[j3]).pair1_slots@,
                                    s as int,
                                    e as int,
                                    *tm,
                                ) && !list_has_migrating(
                                    pre.clusters@[ci as int].chunks@[j3].pair1_slots@,
                                    s as int,
                                    e as int,
                                    *tm,
                                )) || (list_has_importing(
                                    pre.clusters@[ci as int].chunks@[j3].pair2_slots@,
                                    s as int,
                                    e as int,
                                    *tm,
                                ) && !list_has_migrating(
                                    pre.clusters@[ci as int].chunks@[j3].pair2_slots@,
                                    s as int,
                                    e as int,
                                    *tm,
                                )));
                        }
                    }
                }
                return Err(MetaStoreError::MigrationTaskNotFound);
            },
            Some(t) => t,
        };
        let new_epoch = self.global_epoch + 1;
        if dp {
            let cl = &mut self.clusters[ci];
            let ch = &mut cl.chunks[dj];
            let rr = &mut ch.pair1_slots[dk];
            rr.tag = SlotRangeTag::Stable;
        } else {
            let cl = &mut self.clusters[ci];
            let ch = &mut cl.chunks[dj];
            let rr = &mut ch.pair2_slots[dk];
            rr.tag = SlotRangeTag::Stable;
        }
        if sp {
            let cl = &mut self.clusters[ci];
            let ch = &mut cl.chunks[sj];
            let _moved = ch.pair1_slots.remove(sk);
        } else {
            let cl = &mut self.clusters[ci];
            let ch = &mut cl.chunks[sj];
            let _moved = ch.pair2_slots.remove(sk);
        }
        proof {
            lemma_commit_cluster_wf(
                pre.clusters@[ci as int],
                self.clusters@[ci as int],
                sj as int,
                sp,
                sk as int,
                dj as int,
                dp,
                dk as int,
                s as int,
                e as int,
                *tm,
            );
        }
        let ghost mid = *self;
        let cl = &mut self.clusters[ci];
        cl.epoch = new_epoch;
        self.global_epoch = new_epoch;
        proof {
            let post = *self;
            assert(same_memberships(mid, post)) by {
                assert forall|i: int| 0 <= i < mid.clusters@.len() implies (
                #[trigger] post.clusters@[i]).name@ == mid.clusters@[i].name@
                    && chunks_same_addresses(mid.clusters@[i].chunks@, post.clusters@[i].chunks@) by {
                    if i != ci {
                        assert(post.clusters@[i] == mid.clusters@[i]);
                    } else {
                        assert(chunks_same_addresses(
                            pre.clusters@[ci as int].chunks@,
                            mid.clusters@[ci as int].chunks@,
                        ));
                    }
                }
                assert(same_memberships(pre, mid));
            }
            assert(same_memberships(pre, post));
            assert forall|i: int| 0 <= i < post.clusters@.len() implies (
            #[trigger] post.clusters@[i]).wf() && post.clusters@[i].epoch
                <= post.global_epoch by {
                if i != ci {
                    assert(post.clusters@[i] == pre.clusters@[i]);
                    assert(pre.clusters@[i].wf());
                    assert(pre.clusters@[i].epoch <= pre.global_epoch);
                } else {
                    assert(mid.clusters@[i].wf());
                    cluster_wf_depends_on_chunks_and_name(mid.clusters@[i], post.clusters@[i]);
                }
            }
            memberships_preserve_inv(pre, post);
            assert(migrate_slots_post(pre, post, ci as int));
            assert(cluster_has_stable_range(post.clusters@[ci as int], s as int, e as int)) by {
                let dst_new = if dp {
                    post.clusters@[ci as int].chunks@[dj as int].pair1_slots@
                } else {
                    post.clusters@[ci as int].chunks@[dj as int].pair2_slots@
                };
                assert(dst_new[dk as int].start == s as int && dst_new[dk as int].end == e as int
                    && dst_new[dk as int].tag is Stable) by {
                    assert(mid.clusters@[ci as int].chunks@[dj as int]
                        == post.clusters@[ci as int].chunks@[dj as int]);
                }
                assert(list_has_stable_range(dst_new, s as int, e as int));
            }
            assert(!cluster_has_migrating(post.clusters@[ci as int], s as int, e as int, *tm)) by {
                lemma_commit_no_migrating_left(
                    pre.clusters@[ci as int],
                    mid.clusters@[ci as int],
                    sj as int,
                    sp,
                    sk as int,
                    dj as int,
                    dp,
                    dk as int,
                    s as int,
                    e as int,
                    *tm,
                );
                assert(post.clusters@[ci as int].chunks == mid.clusters@[ci as int].chunks);
                if cluster_has_migrating(post.clusters@[ci as int], s as int, e as int, *tm) {
                    let j3 = choose|j3: int|
                        0 <= j3 < post.clusters@[ci as int].chunks@.len() && (list_has_migrating(
                            (#[trigger] post.clusters@[ci as int].chunks@[j3]).pair1_slots@,
                            s as int,
                            e as int,
                            *tm,
                        ) || list_has_migrating(
                            post.clusters@[ci as int].chunks@[j3].pair2_slots@,
                            s as int,
                            e as int,
                            *tm,
                        ));
                    assert(post.clusters@[ci as int].chunks@[j3]
                        == mid.clusters@[ci as int].chunks@[j3]);
                }
            }
        }
        Ok(())
    }
}

/// Shape of the two pair lists after a commit, relative to before.
pub open spec fn commit_shape(
    x: ClusterStore,
    y: ClusterStore,
    sj: int,
    sp: bool,
    sk: int,
    dj: int,
    dp: bool,
    dk: int,
) -> bool {
    &&& y.name == x.name
    &&& y.epoch == x.epoch
    &&& y.config == x.config
    &&& y.chunks@.len() == x.chunks@.len()
    &&& forall|j: int|
        0 <= j < x.chunks@.len() ==> (#[trigger] y.chunks@[j]).first == x.chunks@[j].first
            && y.chunks@[j].second == x.chunks@[j].second
            && y.chunks@[j].pair1_master_on_first == x.chunks@[j].pair1_master_on_first
            && y.chunks@[j].pair2_master_on_second == x.chunks@[j].pair2_master_on_second
    &&& forall|j: int|
        0 <= j < x.chunks@.len() && !(j == sj && sp) && !(j == dj && dp) ==> (
        #[trigger] y.chunks@[j]).pair1_slots@ == x.chunks@[j].pair1_slots@
    &&& forall|j: int|
        0 <= j < x.chunks@.len() && !(j == sj && !sp) && !(j == dj && !dp) ==> (
        #[trigger] y.chunks@[j]).pair2_slots@ == x.chunks@[j].pair2_slots@
}

/// The destination list after retagging entry `dk` as stable.
pub open spec fn retagged(xs: Seq<SlotRange>, dk: int) -> Seq<SlotRange> {
    xs.update(
        dk,
        SlotRange { start: xs[dk].start, end: xs[dk].end, tag: SlotRangeTag::Stable },
    )
}

/// After a commit the touched cluster is still well formed.
#[verifier::rlimit(100)]
proof fn lemma_commit_cluster_wf(
    x: ClusterStore,
    y: ClusterStore,
    sj: int,
    sp: bool,
    sk: int,
    dj: int,
    dp: bool,
    dk: int,
    start: int,
    end: int,
    tm: MigrationMeta,
)
    requires
        x.wf(),
        0 <= sj < x.chunks@.len(),
        0 <= dj < x.chunks@.len(),
        !(sj == dj && sp == dp),
        0 <= sk,
        0 <= dk,
        sp ==> sk < x.chunks@[sj].pair1_slots@.len() && is_migrating_match(
            x.chunks@[sj].pair1_slots@[sk],
            start,
            end,
            tm,
        ),
        !sp ==> sk < x.chunks@[sj].pair2_slots@.len() && is_migrating_match(
            x.chunks@[sj].pair2_slots@[sk],
            start,
            end,
            tm,
        ),
        dp ==> dk < x.chunks@[dj].pair1_slots@.len() && is_importing_match(
            x.chunks@[dj].pair1_slots@[dk],
            start,
            end,
            tm,
        ),
        !dp ==> dk < x.chunks@[dj].pair2_slots@.len() && is_importing_match(
            x.chunks@[dj].pair2_slots@[dk],
            start,
            end,
            tm,
        ),
        commit_shape(x, y, sj, sp, sk, dj, dp, dk),
        sp ==> y.chunks@[sj].pair1_slots@ == if sj == dj && dp {
            retagged(x.chunks@[sj].pair1_slots@, dk).remove(sk)
        } else {
            x.chunks@[sj].pair1_slots@.remove(sk)
        },
        !sp ==> y.chunks@[sj].pair2_slots@ == if sj == dj && !dp {
            retagged(x.chunks@[sj].pair2_slots@, dk).remove(sk)
        } else {
            x.chunks@[sj].pair2_slots@.remove(sk)
        },
        dp && !(sj == dj && sp) ==> y.chunks@[dj].pair1_slots@ == retagged(
            x.chunks@[dj].pair1_slots@,
            dk,
        ),
        !dp && !(sj == dj && !sp) ==> y.chunks@[dj].pair2_slots@ == retagged(
            x.chunks@[dj].pair2_slots@,
            dk,
        ),
    ensures
        y.wf(),
{
    let src_list = if sp {
        x.chunks@[sj].pair1_slots@
    } else {
        x.chunks@[sj].pair2_slots@
    };
    let dst_list = if dp {
        x.chunks@[dj].pair1_slots@
    } else {
        x.chunks@[dj].pair2_slots@
    };
    let src_new = if sp {
        y.chunks@[sj].pair1_slots@
    } else {
        y.chunks@[sj].pair2_slots@
    };
    let dst_new = if dp {
        y.chunks@[dj].pair1_slots@
    } else {
        y.chunks@[dj].pair2_slots@
    };
    assert(x.chunks@[sj].wf());
    assert(x.chunks@[dj].wf());
    assert(src_new == src_list.remove(sk));
    assert(dst_new == retagged(dst_list, dk));
    assert(range_valid(src_list[sk]));
    assert(range_valid(dst_list[dk]));
    // Ownership relation of the source list: it loses exactly the span.
    assert forall|v: int| #[trigger] list_owns(src_new, v) == (list_owns(src_list, v) && !(start
        <= v < end)) by {
        if list_owns(src_new, v) {
            let k = choose|k: int| 0 <= k < src_new.len() && owned_at(#[trigger] src_new[k], v);
            let q: int = if k < sk {
                k
            } else {
                k + 1
            };
            assert(owned_at(src_list[q], v));
            assert(q != sk);
            if start <= v < end {
                assert(owned_at(src_list[sk], v));
            }
        }
        if list_owns(src_list, v) && !(start <= v < end) {
            let q = choose|q: int| 0 <= q < src_list.len() && owned_at(#[trigger] src_list[q], v);
            assert(q != sk);
            let k: int = if q < sk {
                q
            } else {
                q - 1
            };
            assert(owned_at(src_new[k], v));
        }
    }
    // Ownership relation of the destination list: it gains exactly the span.
    assert forall|v: int| #[trigger] list_owns(dst_new, v) == (list_owns(dst_list, v) || (start
        <= v < end)) by {
        if list_owns(dst_new, v) {
            let k = choose|k: int| 0 <= k < dst_new.len() && owned_at(#[trigger] dst_new[k], v);
            if k != dk {
                assert(owned_at(dst_list[k], v));
            }
        }
        if list_owns(dst_list, v) {
            let q = choose|q: int| 0 <= q < dst_list.len() && owned_at(#[trigger] dst_list[q], v);
            assert(q != dk);
            assert(owned_at(dst_new[q], v));
        }
        if start <= v < end {
            assert(owned_at(dst_new[dk], v));
        }
    }
    // The span was owned by the source pair before.
    assert forall|v: int| start <= v < end implies list_owns(src_list, v) by {
        assert(owned_at(src_list[sk], v));
    }
    // Validity and internal disjointness of the new lists.
    assert(ranges_valid(src_new)) by {
        assert forall|k: int| 0 <= k < src_new.len() implies range_valid(#[trigger] src_new[k]) by {
            let q: int = if k < sk {
                k
            } else {
                k + 1
            };
            assert(range_valid(src_list[q]));
        }
    }
    assert(list_disjoint(src_new)) by {
        assert forall|k1: int, k2: int, v: int|
            0 <= k1 < src_new.len() && 0 <= k2 < src_new.len() && k1 != k2 implies !(
        #[trigger] owned_at(src_new[k1], v) && #[trigger] owned_at(src_new[k2], v)) by {
            let q1: int = if k1 < sk {
                k1
            } else {
                k1 + 1
            };
            let q2: int = if k2 < sk {
                k2
            } else {
                k2 + 1
            };
            if owned_at(src_new[k1], v) && owned_at(src_new[k2], v) {
                assert(owned_at(src_list[q1], v) && owned_at(src_list[q2], v));
            }
        }
    }
    assert(ranges_valid(dst_new)) by {
        assert forall|k: int| 0 <= k < dst_new.len() implies range_valid(#[trigger] dst_new[k]) by {
            if k != dk {
                assert(range_valid(dst_list[k]));
            }
        }
    }
    assert(list_disjoint(dst_new)) by {
        assert forall|k1: int, k2: int, v: int|
            0 <= k1 < dst_new.len() && 0 <= k2 < dst_new.len() && k1 != k2 implies !(
        #[trigger] owned_at(dst_new[k1], v) && #[trigger] owned_at(dst_new[k2], v)) by {
            if owned_at(dst_new[k1], v) && owned_at(dst_new[k2], v) {
                if k1 != dk && k2 != dk {
                    assert(owned_at(dst_list[k1], v) && owned_at(dst_list[k2], v));
                } else {
                    let other: int = if k1 == dk {
                        k2
                    } else {
                        k1
                    };
                    assert(owned_at(dst_new[dk], v));
                    assert(start <= v < end);
                    assert(owned_at(dst_list[other], v));
                    assert(list_owns(dst_list, v));
                    assert(list_owns(src_list, v));
                    if sj == dj {
                        assert(!(list_owns(x.chunks@[sj].pair1_slots@, v) && list_owns(
                            x.chunks@[sj].pair2_slots@,
                            v,
                        )));
                    } else {
                        assert(x.chunks@[sj].owns(v) && x.chunks@[dj].owns(v));
                    }
                }
            }
        }
    }
    // Per-chunk well-formedness and ownership of the new cluster.
    assert forall|j: int| 0 <= j < y.chunks@.len() implies (#[trigger] y.chunks@[j]).wf() by {
        assert(x.chunks@[j].wf());
        let y1 = y.chunks@[j].pair1_slots@;
        let y2 = y.chunks@[j].pair2_slots@;
        let x1 = x.chunks@[j].pair1_slots@;
        let x2 = x.chunks@[j].pair2_slots@;
        assert(ranges_valid(y1) && list_disjoint(y1)) by {
            if j == sj && sp {
                assert(y1 == src_new);
            } else if j == dj && dp {
                assert(y1 == dst_new);
            } else {
                assert(y1 == x1);
            }
        }
        assert(ranges_valid(y2) && list_disjoint(y2)) by {
            if j == sj && !sp {
                assert(y2 == src_new);
            } else if j == dj && !dp {
                assert(y2 == dst_new);
            } else {
                assert(y2 == x2);
            }
        }
        assert forall|v: int| !(#[trigger] list_owns(y1, v) && #[trigger] list_owns(y2, v)) by {
            if list_owns(y1, v) && list_owns(y2, v) {
                let o1 = list_owns(x1, v);
                let o2 = list_owns(x2, v);
                if start <= v < end {
                    assert(list_owns(src_list, v));
                    if j == dj && dp {
                        assert(list_owns(y2, v) ==> list_owns(x2, v));
                        assert(x.chunks@[dj].owns(v));
                        if sj == dj {
                            assert(!(list_owns(x1, v) && list_owns(x2, v)));
                            assert(!sp);
                            assert(list_owns(y2, v) == (list_owns(x2, v) && !(start <= v < end)));
                        } else {
                            assert(x.chunks@[sj].owns(v));
                        }
                    } else if j == dj && !dp {
                        assert(list_owns(y1, v) ==> list_owns(x1, v));
                        if sj == dj {
                            assert(sp);
                            assert(list_owns(y1, v) == (list_owns(x1, v) && !(start <= v < end)));
                        } else {
                            assert(x.chunks@[dj].owns(v));
                            assert(x.chunks@[sj].owns(v));
                        }
                    } else {
                        assert(list_owns(y1, v) ==> list_owns(x1, v) && !(j == sj && sp && start
                            <= v < end));
                        assert(list_owns(y2, v) ==> list_owns(x2, v));
                        assert(x.chunks@[j].owns(v));
                        if j != sj {
                            assert(x.chunks@[sj].owns(v));
                        } else {
                            assert(list_owns(src_list, v));
                            assert(!(list_owns(x1, v) && list_owns(x2, v)));
                            if sp {
                                assert(!list_owns(y1, v));
                            } else {
                                assert(!list_owns(y2, v));
                            }
                        }
                    }
                } else {
                    assert(list_owns(x1, v)) by {
                        if j == sj && sp {
                            assert(list_owns(y1, v) == (list_owns(x1, v) && !(start <= v < end)));
                        } else if j == dj && dp {
                            assert(list_owns(y1, v) == (list_owns(x1, v) || (start <= v < end)));
                        } else {
                            assert(y1 == x1);
                        }
                    }
                    assert(list_owns(x2, v)) by {
                        if j == sj && !sp {
                            assert(list_owns(y2, v) == (list_owns(x2, v) && !(start <= v < end)));
                        } else if j == dj && !dp {
                            assert(list_owns(y2, v) == (list_owns(x2, v) || (start <= v < end)));
                        } else {
                            assert(y2 == x2);
                        }
                    }
                    assert(!(list_owns(x1, v) && list_owns(x2, v)));
                }
            }
        }
    }
    // Cluster-level ownership: the span moves from the source chunk to the
    // destination chunk, everything else stays.
    assert forall|j: int, v: int|
        0 <= j < y.chunks@.len() && !(start <= v < end) implies (#[trigger] y.chunks@[j].owns(v))
            == x.chunks@[j].owns(v) by {
        let y1 = y.chunks@[j].pair1_slots@;
        let y2 = y.chunks@[j].pair2_slots@;
        let x1 = x.chunks@[j].pair1_slots@;
        let x2 = x.chunks@[j].pair2_slots@;
        assert(list_owns(y1, v) == list_owns(x1, v)) by {
            if j == sj && sp {
                assert(list_owns(y1, v) == (list_owns(x1, v) && !(start <= v < end)));
            } else if j == dj && dp {
                assert(list_owns(y1, v) == (list_owns(x1, v) || (start <= v < end)));
            } else {
                assert(y1 == x1);
            }
        }
        assert(list_owns(y2, v) == list_owns(x2, v)) by {
            if j == sj && !sp {
                assert(list_owns(y2, v) == (list_owns(x2, v) && !(start <= v < end)));
            } else if j == dj && !dp {
                assert(list_owns(y2, v) == (list_owns(x2, v) || (start <= v < end)));
            } else {
                assert(y2 == x2);
            }
        }
    }
    assert forall|v: int| start <= v < end implies #[trigger] y.chunks@[dj].owns(v) by {
        assert(list_owns(dst_new, v));
    }
    assert forall|j: int, v: int|
        0 <= j < y.chunks@.len() && j != dj && start <= v < end implies !(
    #[trigger] y.chunks@[j].owns(v)) by {
        {
            let y1 = y.chunks@[j].pair1_slots@;
            let y2 = y.chunks@[j].pair2_slots@;
            let x1 = x.chunks@[j].pair1_slots@;
            let x2 = x.chunks@[j].pair2_slots@;
            if y.chunks@[j].owns(v) {
                assert(list_owns(src_list, v));
                assert(x.chunks@[sj].owns(v));
                if list_owns(y1, v) {
                    if j == sj && sp {
                        assert(false);
                    } else {
                        assert(list_owns(x1, v));
                        assert(x.chunks@[j].owns(v));
                        if j != sj {
                            assert(!(x.chunks@[j].owns(v) && x.chunks@[sj].owns(v)));
                        } else {
                            assert(!sp);
                            assert(!(list_owns(x1, v) && list_owns(x2, v)));
                        }
                    }
                } else {
                    assert(list_owns(y2, v));
                    if j == sj && !sp {
                        assert(false);
                    } else {
                        assert(list_owns(x2, v));
                        assert(x.chunks@[j].owns(v));
                        if j != sj {
                            assert(!(x.chunks@[j].owns(v) && x.chunks@[sj].owns(v)));
                        } else {
                            assert(sp);
                            assert(!(list_owns(x1, v) && list_owns(x2, v)));
                        }
                    }
                }
            }
        }
    }
    // Coverage.
    assert forall|v: int| 0 <= v < SLOT_MAX as int implies y.owns(v) by {
        if start <= v < end {
            assert(y.chunks@[dj].owns(v));
        } else {
            assert(x.owns(v));
            let j = choose|j: int| 0 <= j < x.chunks@.len() && (#[trigger] x.chunks@[j]).owns(v);
            assert(y.chunks@[j].owns(v));
        }
    }
    // Uniqueness.
    assert forall|j1: int, j2: int, v: int|
        0 <= j1 < y.chunks@.len() && 0 <= j2 < y.chunks@.len() && j1 != j2 implies !(
    #[trigger] y.chunks@[j1].owns(v) && #[trigger] y.chunks@[j2].owns(v)) by {
        if y.chunks@[j1].owns(v) && y.chunks@[j2].owns(v) {
            if start <= v < end {
                assert(j1 == dj && j2 == dj);
            } else {
                assert(x.chunks@[j1].owns(v) && x.chunks@[j2].owns(v));
            }
        }
    }
}

/// After the commit no migrating range over the span is left anywhere in
/// the cluster.
proof fn lemma_commit_no_migrating_left(
    x: ClusterStore,
    y: ClusterStore,
    sj: int,
    sp: bool,
    sk: int,
    dj: int,
    dp: bool,
    dk: int,
    start: int,
    end: int,
    tm: MigrationMeta,
)
    requires
        x.wf(),
        0 <= sj < x.chunks@.len(),
        0 <= dj < x.chunks@.len(),
        !(sj == dj && sp == dp),
        0 <= sk,
        0 <= dk,
        sp ==> sk < x.chunks@[sj].pair1_slots@.len() && is_migrating_match(
            x.chunks@[sj].pair1_slots@[sk],
            start,
            end,
            tm,
        ),
        !sp ==> sk < x.chunks@[sj].pair2_slots@.len() && is_migrating_match(
            x.chunks@[sj].pair2_slots@[sk],
            start,
            end,
            tm,
        ),
        dp ==> dk < x.chunks@[dj].pair1_slots@.len(),
        !dp ==> dk < x.chunks@[dj].pair2_slots@.len(),
        commit_shape(x, y, sj, sp, sk, dj, dp, dk),
        sp ==> y.chunks@[sj].pair1_slots@ == if sj == dj && dp {
            retagged(x.chunks@[sj].pair1_slots@, dk).remove(sk)
        } else {
            x.chunks@[sj].pair1_slots@.remove(sk)
        },
        !sp ==> y.chunks@[sj].pair2_slots@ == if sj == dj && !dp {
            retagged(x.chunks@[sj].pair2_slots@, dk).remove(sk)
        } else {
            x.chunks@[sj].pair2_slots@.remove(sk)
        },
        dp && !(sj == dj && sp) ==> y.chunks@[dj].pair1_slots@ == retagged(
            x.chunks@[dj].pair1_slots@,
            dk,
        ),
        !dp && !(sj == dj && !sp) ==> y.chunks@[dj].pair2_slots@ == retagged(
            x.chunks@[dj].pair2_slots@,
            dk,
        ),
    ensures
        forall|j3: int|
            0 <= j3 < y.chunks@.len() ==> !list_has_migrating(
                (#[trigger] y.chunks@[j3]).pair1_slots@,
                start,
                end,
                tm,
            ) && !list_has_migrating(y.chunks@[j3].pair2_slots@, start, end, tm),
{
    lemma_migrating_unique(x, sj, sp, sk, start, end, tm);
    assert forall|j3: int|
        0 <= j3 < y.chunks@.len() implies !list_has_migrating(
        (#[trigger] y.chunks@[j3]).pair1_slots@,
        start,
        end,
        tm,
    ) && !list_has_migrating(y.chunks@[j3].pair2_slots@, start, end, tm) by {
    if list_has_migrating(y.chunks@[j3].pair1_slots@, start, end, tm) {
        let k = choose|k: int|
            0 <= k < y.chunks@[j3].pair1_slots@.len() && is_migrating_match(
                #[trigger] y.chunks@[j3].pair1_slots@[k],
                start,
                end,
                tm,
            );
        if j3 == sj && sp {
            let q: int = if k < sk {
                k
            } else {
                k + 1
            };
            if sj == dj && dp {
                assert(y.chunks@[j3].pair1_slots@[k] == retagged(
                    x.chunks@[sj].pair1_slots@,
                    dk,
                )[q]);
                if q == dk {
                    assert(retagged(x.chunks@[sj].pair1_slots@, dk)[q].tag is Stable);
                } else {
                    assert(is_migrating_match(x.chunks@[sj].pair1_slots@[q], start, end, tm));
                }
            } else {
                assert(is_migrating_match(x.chunks@[sj].pair1_slots@[q], start, end, tm));
            }
        } else if j3 == dj && dp {
            if k == dk {
                assert(y.chunks@[j3].pair1_slots@[k].tag is Stable);
            } else {
                assert(is_migrating_match(x.chunks@[dj].pair1_slots@[k], start, end, tm));
                assert(list_has_migrating(x.chunks@[dj].pair1_slots@, start, end, tm));
            }
        } else {
            assert(y.chunks@[j3].pair1_slots@ == x.chunks@[j3].pair1_slots@);
            assert(list_has_migrating(x.chunks@[j3].pair1_slots@, start, end, tm));
        }
    } else if list_has_migrating(y.chunks@[j3].pair2_slots@, start, end, tm) {
        let k = choose|k: int|
            0 <= k < y.chunks@[j3].pair2_slots@.len() && is_migrating_match(
                #[trigger] y.chunks@[j3].pair2_slots@[k],
                start,
                end,
                tm,
            );
        if j3 == sj && !sp {
            let q: int = if k < sk {
                k
            } else {
                k + 1
            };
            if sj == dj && !dp {
                assert(y.chunks@[j3].pair2_slots@[k] == retagged(
                    x.chunks@[sj].pair2_slots@,
                    dk,
                )[q]);
                if q == dk {
                    assert(retagged(x.chunks@[sj].pair2_slots@, dk)[q].tag is Stable);
                } else {
                    assert(is_migrating_match(x.chunks@[sj].pair2_slots@[q], start, end, tm));
                }
            } else {
                assert(is_migrating_match(x.chunks@[sj].pair2_slots@[q], start, end, tm));
            }
        } else if j3 == dj && !dp {
            if k == dk {
                assert(y.chunks@[j3].pair2_slots@[k].tag is Stable);
            } else {
                assert(is_migrating_match(x.chunks@[dj].pair2_slots@[k], start, end, tm));
                assert(list_has_migrating(x.chunks@[dj].pair2_slots@, start, end, tm));
            }
        } else {
            assert(y.chunks@[j3].pair2_slots@ == x.chunks@[j3].pair2_slots@);
            assert(list_has_migrating(x.chunks@[j3].pair2_slots@, start, end, tm));
        }
    }
    }
}


/// Scale operations distinguished by the two-phase auto-scaling entry.
#[derive(Clone, Copy, Debug, PartialEq, Eq, Structural)]
pub enum ScaleOp {
    NoOp,
    ScaleUp,
    ScaleDown,
}

impl MetaStore {
    /// Plan a scale-in migration towards `new_node_num` nodes: every
    /// master of a chunk beyond the new chunk count stages all its slots
    /// towards the surviving masters.
    #[verifier::rlimit(100)]
    pub fn migrate_slots_to_scale_down(
        &mut self,
        cluster_name: String,
        new_node_num: usize,
    ) -> (r: Result<(), MetaStoreError>)
        requires
            old(self).inv(),
            old(self).global_epoch < u64::MAX,
        ensures
            final(self).inv(),
            r is Err ==> *final(self) == *old(self),
            r == Err::<(), MetaStoreError>(MetaStoreError::ClusterNotFound) <==> !cluster_exists(
                old(self).clusters@,
                cluster_name@,
            ),
            r matches Err(e) ==> (e == MetaStoreError::ClusterNotFound || e
                == MetaStoreError::MigrationRunning || e == MetaStoreError::InvalidNodeNum || e
                == MetaStoreError::NodeNumAlreadyEnough),
            forall|i: int|
                0 <= i < old(self).clusters@.len() && (#[trigger] old(self).clusters@[i]).name@
                    == cluster_name@ ==> {
                    &&& (r == Err::<(), MetaStoreError>(MetaStoreError::MigrationRunning)
                        <==> cluster_has_tags(old(self).clusters@[i]))
                    &&& (r == Err::<(), MetaStoreError>(MetaStoreError::InvalidNodeNum)
                        <==> !cluster_has_tags(old(self).clusters@[i]) && (new_node_num == 0
                        || new_node_num % 4 != 0))
                    &&& (r == Err::<(), MetaStoreError>(MetaStoreError::NodeNumAlreadyEnough)
                        <==> !cluster_has_tags(old(self).clusters@[i]) && new_node_num != 0
                        && new_node_num % 4 == 0 && new_node_num / 4 >= old(
                        self,
                    ).clusters@[i].chunks@.len())
                    &&& r is Ok ==> migrate_slots_post(*old(self), *final(self), i)
                },
    {
        let ci = match self.find_cluster_pos(&cluster_name) {
            None => {
                return Err(MetaStoreError::ClusterNotFound);
            },
            Some(i) => i,
        };
        if Self::cluster_tags_present(&self.clusters[ci]) {
            return Err(MetaStoreError::MigrationRunning);
        }
        if new_node_num == 0 || new_node_num % 4 != 0 {
            return Err(MetaStoreError::InvalidNodeNum);
        }
        let new_chunks = new_node_num / 4;
        let nchunks = self.clusters[ci].chunks.len();
        if new_chunks >= nchunks {
            return Err(MetaStoreError::NodeNumAlreadyEnough);
        }
        let ghost pre = *self;
        let new_epoch = self.global_epoch + 1;
        let mut sj: usize = new_chunks;
        while sj < nchunks
            invariant
                pre.inv(),
                self.inv(),
                ci < self.clusters@.len(),
                nchunks == self.clusters@[ci as int].chunks@.len(),
                slots_only_changed(pre, *self, ci as int),
                new_chunks >= 1,
                new_chunks <= sj <= nchunks,
            decreases nchunks - sj,
        {
            let mut round: usize = 0;
            let mut s_pair1: bool = true;
            while round < 2
                invariant
                    pre.inv(),
                    self.inv(),
                    ci < self.clusters@.len(),
                    nchunks == self.clusters@[ci as int].chunks@.len(),
                    slots_only_changed(pre, *self, ci as int),
                    new_chunks >= 1,
                    new_chunks <= sj < nchunks,
                    round <= 2,
                decreases 2 - round,
            {
                let mut fuel: usize = SLOT_MAX;
                let mut done: bool = false;
                while !done && fuel > 0
                    invariant
                        pre.inv(),
                        self.inv(),
                        ci < self.clusters@.len(),
                        nchunks == self.clusters@[ci as int].chunks@.len(),
                        slots_only_changed(pre, *self, ci as int),
                        new_chunks >= 1,
                        new_chunks <= sj < nchunks,
                    decreases fuel,
                {
                    fuel = fuel - 1;
                    let has_stable = if s_pair1 {
                        Self::last_stable_idx(&self.clusters[ci].chunks[sj].pair1_slots).is_some()
                    } else {
                        Self::last_stable_idx(&self.clusters[ci].chunks[sj].pair2_slots).is_some()
                    };
                    if !has_stable {
                        done = true;
                    } else {
                        // Send towards the surviving master with the least load.
                        let mut dj: usize = 0;
                        let mut d_pair1: bool = true;
                        let mut best_size: usize = SLOT_MAX;
                        let mut cand: usize = 0;
                        while cand < new_chunks
                            invariant
                                pre.inv(),
                                self.inv(),
                                ci < self.clusters@.len(),
                                nchunks == self.clusters@[ci as int].chunks@.len(),
                                new_chunks <= nchunks,
                                cand <= new_chunks,
                                dj < new_chunks || dj == 0,
                            decreases new_chunks - cand,
                        {
                            proof {
                                assert(self.clusters@[ci as int].wf());
                                assert(self.clusters@[ci as int].chunks@[cand as int].wf());
                            }
                            let s1 = Self::owned_size(&self.clusters[ci].chunks[cand].pair1_slots);
                            if s1 < best_size {
                                best_size = s1;
                                dj = cand;
                                d_pair1 = true;
                            }
                            let s2 = Self::owned_size(&self.clusters[ci].chunks[cand].pair2_slots);
                            if s2 < best_size {
                                best_size = s2;
                                dj = cand;
                                d_pair1 = false;
                            }
                            cand = cand + 1;
                        }
                        let ghost cur = *self;
                        let took = self.migration_take_step(
                            ci,
                            dj,
                            d_pair1,
                            SLOT_MAX,
                            0,
                            new_epoch,
                            Some((sj, s_pair1)),
                        );
                        proof {
                            lemma_slots_chain(pre, cur, *self, ci as int);
                        }
                        if took == 0 {
                            done = true;
                        }
                    }
                }
                s_pair1 = false;
                round = round + 1;
            }
            sj = sj + 1;
        }
        let ghost mid = *self;
        let cl = &mut self.clusters[ci];
        cl.epoch = new_epoch;
        self.global_epoch = new_epoch;
        proof {
            let post = *self;
            assert(same_memberships(mid, post)) by {
                assert forall|i: int| 0 <= i < mid.clusters@.len() implies (
                #[trigger] post.clusters@[i]).name@ == mid.clusters@[i].name@
                    && chunks_same_addresses(mid.clusters@[i].chunks@, post.clusters@[i].chunks@) by {
                    if i != ci {
                        assert(post.clusters@[i] == mid.clusters@[i]);
                    }
                }
            }
            assert forall|i: int| 0 <= i < post.clusters@.len() implies (
            #[trigger] post.clusters@[i]).wf() && post.clusters@[i].epoch
                <= post.global_epoch by {
                if i != ci {
                    assert(post.clusters@[i] == mid.clusters@[i]);
                    assert(mid.clusters@[i].wf());
                    assert(mid.clusters@[i].epoch <= mid.global_epoch);
                } else {
                    assert(mid.clusters@[i].wf());
                    cluster_wf_depends_on_chunks_and_name(mid.clusters@[i], post.clusters@[i]);
                }
            }
            memberships_preserve_inv(mid, post);
            assert(migrate_slots_post(pre, post, ci as int));
        }
        Ok(())
    }
}


/// Value bound to a key in a configuration list: the last entry wins.
pub open spec fn config_val(cfg: Seq<(String, String)>, key: Seq<char>) -> Option<Seq<char>>
    decreases cfg.len(),
{
    if cfg.len() == 0 {
        None
    } else if cfg.last().0@ == key {
        Some(cfg.last().1@)
    } else {
        config_val(cfg.drop_last(), key)
    }
}

/// Summary of a cluster as reported over the wire.
#[derive(Clone, Debug)]
pub struct ClusterInfo {
    pub name: String,
    pub epoch: u64,
    pub node_number: usize,
    pub is_migrating: bool,
}

impl MetaStore {
    /// Delete a cluster and free its proxies; refused while a migration
    /// is staged.
    pub fn remove_cluster(&mut self, cluster_name: String) -> (r: Result<(), MetaStoreError>)
        requires
            old(self).inv(),
            old(self).global_epoch < u64::MAX,
        ensures
            final(self).inv(),
            r is Err ==> *final(self) == *old(self),
            r == Err::<(), MetaStoreError>(MetaStoreError::ClusterNotFound) <==> !cluster_exists(
                old(self).clusters@,
                cluster_name@,
            ),
            r matches Err(e) ==> (e == MetaStoreError::ClusterNotFound || e
                == MetaStoreError::MigrationRunning),
            forall|i: int|
                0 <= i < old(self).clusters@.len() && (#[trigger] old(self).clusters@[i]).name@
                    == cluster_name@ ==> {
                    &&& (r == Err::<(), MetaStoreError>(MetaStoreError::MigrationRunning)
                        <==> cluster_has_tags(old(self).clusters@[i]))
                    &&& (r is Ok <==> !cluster_has_tags(old(self).clusters@[i]))
                },
            r is Ok ==> {
                &&& final(self).global_epoch == old(self).global_epoch + 1
                &&& final(self).clusters@.len() == old(self).clusters@.len() - 1
                &&& !cluster_exists(final(self).clusters@, cluster_name@)
                &&& final(self).failures == old(self).failures
                &&& final(self).version == old(self).version
                &&& final(self).enable_ordered_proxy == old(self).enable_ordered_proxy
                &&& final(self).all_proxies@.len() == old(self).all_proxies@.len()
                &&& forall|p: int|
                    0 <= p < old(self).all_proxies@.len() ==> (#[trigger] final(self).all_proxies@[p]).address
                        == old(self).all_proxies@[p].address && (final(self).all_proxies@[p].cluster
                        == old(self).all_proxies@[p].cluster || (old(self).all_proxies@[p].bound_to(
                        cluster_name@,
                    ) && final(self).all_proxies@[p].is_free()))
            },
    {
        let ci = match self.find_cluster_pos(&cluster_name) {
            None => {
                return Err(MetaStoreError::ClusterNotFound);
            },
            Some(i) => i,
        };
        if Self::cluster_tags_present(&self.clusters[ci]) {
            return Err(MetaStoreError::MigrationRunning);
        }
        let ghost pre = *self;
        let n = self.all_proxies.len();
        let mut p: usize = 0;
        while p < n
            invariant
                pre.inv(),
                n == self.all_proxies@.len(),
                n == pre.all_proxies@.len(),
                p <= n,
                self.clusters == pre.clusters,
                self.failures == pre.failures,
                self.version == pre.version,
                self.global_epoch == pre.global_epoch,
                self.enable_ordered_proxy == pre.enable_ordered_proxy,
                forall|q: int| p <= q < n ==> self.all_proxies@[q] == pre.all_proxies@[q],
                forall|q: int|
                    0 <= q < p ==> (#[trigger] self.all_proxies@[q]).address
                        == pre.all_proxies@[q].address && self.all_proxies@[q].host
                        == pre.all_proxies@[q].host && self.all_proxies@[q].node1
                        == pre.all_proxies@[q].node1 && self.all_proxies@[q].node2
                        == pre.all_proxies@[q].node2 && self.all_proxies@[q].index
                        == pre.all_proxies@[q].index,
                forall|q: int|
                    0 <= q < p ==> (if pre.all_proxies@[q].bound_to(cluster_name@) {
                        (#[trigger] self.all_proxies@[q]).cluster is None
                    } else {
                        self.all_proxies@[q].cluster == pre.all_proxies@[q].cluster
                    }),
            decreases n - p,
        {
            let bound = match &self.all_proxies[p].cluster {
                Some(nm) => *nm == cluster_name,
                None => false,
            };
            if bound {
                let rec = &mut self.all_proxies[p];
                rec.cluster = None;
            }
            p = p + 1;
        }
        let _removed = self.clusters.remove(ci);
        self.global_epoch = self.global_epoch + 1;
        proof {
            let b = *self;
            assert(!cluster_exists(b.clusters@, cluster_name@)) by {
                if cluster_exists(b.clusters@, cluster_name@) {
                    let i = choose|i: int|
                        0 <= i < b.clusters@.len() && (#[trigger] b.clusters@[i]).name@
                            == cluster_name@;
                    let q: int = if i < ci {
                        i
                    } else {
                        i + 1
                    };
                    assert(pre.clusters@[q].name@ == cluster_name@);
                    assert(pre.clusters@[ci as int].name@ == cluster_name@);
                }
            }
            assert(b.proxies_unique()) by {
                assert forall|p1: int, p2: int|
                    0 <= p1 < b.all_proxies@.len() && 0 <= p2 < b.all_proxies@.len() && p1 != p2 implies (
                #[trigger] b.all_proxies@[p1]).address@ != (#[trigger] b.all_proxies@[p2]).address@ by {
                    assert(pre.all_proxies@[p1].address@ != pre.all_proxies@[p2].address@);
                }
            }
            assert(b.clusters_unique()) by {
                assert forall|i1: int, i2: int|
                    0 <= i1 < b.clusters@.len() && 0 <= i2 < b.clusters@.len() && i1 != i2 implies (
                #[trigger] b.clusters@[i1]).name@ != (#[trigger] b.clusters@[i2]).name@ by {
                    let q1: int = if i1 < ci {
                        i1
                    } else {
                        i1 + 1
                    };
                    let q2: int = if i2 < ci {
                        i2
                    } else {
                        i2 + 1
                    };
                    assert(pre.clusters@[q1].name@ != pre.clusters@[q2].name@);
                }
            }
            assert(b.clusters_wf()) by {
                assert forall|i: int| 0 <= i < b.clusters@.len() implies (
                #[trigger] b.clusters@[i]).wf() && b.clusters@[i].epoch <= b.global_epoch by {
                    let q: int = if i < ci {
                        i
                    } else {
                        i + 1
                    };
                    assert(b.clusters@[i] == pre.clusters@[q]);
                    assert(pre.clusters@[q].wf() && pre.clusters@[q].epoch <= pre.global_epoch);
                }
            }
            assert(b.chunk_proxies_bound()) by {
                assert forall|i: int, j: int|
                    0 <= i < b.clusters@.len() && 0 <= j < b.clusters@[i].chunks@.len() implies b.has_proxy_bound(
                    (#[trigger] b.clusters@[i].chunks@[j]).first.address@,
                    b.clusters@[i].name@,
                ) && b.has_proxy_bound(
                    b.clusters@[i].chunks@[j].second.address@,
                    b.clusters@[i].name@,
                ) by {
                    let q: int = if i < ci {
                        i
                    } else {
                        i + 1
                    };
                    assert(b.clusters@[i] == pre.clusters@[q]);
                    assert(pre.has_proxy_bound(
                        pre.clusters@[q].chunks@[j].first.address@,
                        pre.clusters@[q].name@,
                    ));
                    assert(pre.has_proxy_bound(
                        pre.clusters@[q].chunks@[j].second.address@,
                        pre.clusters@[q].name@,
                    ));
                    let w1 = choose|w: int|
                        0 <= w < pre.all_proxies@.len() && (#[trigger] pre.all_proxies@[w]).address@
                            == pre.clusters@[q].chunks@[j].first.address@
                            && pre.all_proxies@[w].bound_to(pre.clusters@[q].name@);
                    let w2 = choose|w: int|
                        0 <= w < pre.all_proxies@.len() && (#[trigger] pre.all_proxies@[w]).address@
                            == pre.clusters@[q].chunks@[j].second.address@
                            && pre.all_proxies@[w].bound_to(pre.clusters@[q].name@);
                    assert(pre.clusters@[q].name@ != cluster_name@);
                    assert(!pre.all_proxies@[w1].bound_to(cluster_name@));
                    assert(!pre.all_proxies@[w2].bound_to(cluster_name@));
                    assert(b.all_proxies@[w1].cluster == pre.all_proxies@[w1].cluster);
                    assert(b.all_proxies@[w2].cluster == pre.all_proxies@[w2].cluster);
                }
            }
            assert(b.bindings_backed()) by {
                assert forall|w: int| 0 <= w < b.all_proxies@.len() implies ((
                #[trigger] b.all_proxies@[w]).cluster matches Some(nn) ==> b.appears_in_cluster(
                    b.all_proxies@[w].address@,
                    nn@,
                )) by {
                    if b.all_proxies@[w].cluster is Some {
                        let nn = b.all_proxies@[w].cluster->0;
                        assert(!pre.all_proxies@[w].bound_to(cluster_name@));
                        assert(b.all_proxies@[w].cluster == pre.all_proxies@[w].cluster);
                        assert(nn@ != cluster_name@);
                        assert(pre.appears_in_cluster(pre.all_proxies@[w].address@, nn@));
                        let (i, j) = choose|i: int, j: int|
                            0 <= i < pre.clusters@.len() && 0 <= j < pre.clusters@[i].chunks@.len()
                                && pre.clusters@[i].name@ == nn@ && ((
                            #[trigger] pre.clusters@[i].chunks@[j]).first.address@
                                == pre.all_proxies@[w].address@
                                || pre.clusters@[i].chunks@[j].second.address@
                                == pre.all_proxies@[w].address@);
                        assert(i != ci);
                        let i2: int = if i < ci {
                            i
                        } else {
                            i - 1
                        };
                        assert(b.clusters@[i2] == pre.clusters@[i]);
                        assert(0 <= i2 < b.clusters@.len() && 0 <= j < b.clusters@[i2].chunks@.len()
                            && b.clusters@[i2].name@ == nn@ && ((
                        #[trigger] b.clusters@[i2].chunks@[j]).first.address@
                            == b.all_proxies@[w].address@
                            || b.clusters@[i2].chunks@[j].second.address@
                            == b.all_proxies@[w].address@));
                    }
                }
            }
            assert(b.clusters_chunk_addrs_unique()) by {
                assert forall|i: int, j1: int, j2: int|
                    0 <= i < b.clusters@.len() && 0 <= j1 < b.clusters@[i].chunks@.len() && 0 <= j2
                        < b.clusters@[i].chunks@.len() && j1 != j2 implies {
                    let c1 = #[trigger] b.clusters@[i].chunks@[j1];
                    let c2 = #[trigger] b.clusters@[i].chunks@[j2];
                    c1.first.address@ != c2.first.address@ && c1.first.address@
                        != c2.second.address@ && c1.second.address@ != c2.first.address@
                        && c1.second.address@ != c2.second.address@
                } by {
                    let q: int = if i < ci {
                        i
                    } else {
                        i + 1
                    };
                    assert(b.clusters@[i] == pre.clusters@[q]);
                    let a1 = pre.clusters@[q].chunks@[j1];
                    let a2 = pre.clusters@[q].chunks@[j2];
                    assert(a1.first.address@ != a2.first.address@ && a1.first.address@
                        != a2.second.address@ && a1.second.address@ != a2.first.address@
                        && a1.second.address@ != a2.second.address@);
                }
            }
            assert(b.failures_wf()) by {
                assert(pre.failures_wf());
            }
            assert(b.ordered_wf()) by {
                if b.enable_ordered_proxy {
                    assert forall|w: int| 0 <= w < b.all_proxies@.len() implies (
                    #[trigger] b.all_proxies@[w]).index == Some(w as usize) by {
                        assert(pre.all_proxies@[w].index == Some(w as usize));
                    }
                    assert(pre.clusters@.len() <= 1);
                    assert(b.clusters@.len() == 0);
                }
            }
        }
        Ok(())
    }

    /// Put one master of each replication pair on each proxy of every
    /// chunk of the cluster.
    pub fn balance_masters(&mut self, cluster_name: String) -> (r: Result<(), MetaStoreError>)
        requires
            old(self).inv(),
            old(self).global_epoch < u64::MAX,
        ensures
            final(self).inv(),
            r is Err ==> *final(self) == *old(self),
            r is Ok <==> cluster_exists(old(self).clusters@, cluster_name@),
            r matches Err(e) ==> e == MetaStoreError::ClusterNotFound,
            r is Ok ==> final(self).global_epoch == old(self).global_epoch + 1 && exists|i: int|
                0 <= i < final(self).clusters@.len() && (#[trigger] final(self).clusters@[i]).name@
                    == cluster_name@ && final(self).clusters@[i].epoch == final(self).global_epoch
                    && (forall|j: int|
                    0 <= j < final(self).clusters@[i].chunks@.len() ==> (#[trigger] final(self).clusters@[i].chunks@[j]).pair1_master_on_first
                        && final(self).clusters@[i].chunks@[j].pair2_master_on_second),
    {
        let ci = match self.find_cluster_pos(&cluster_name) {
            None => {
                return Err(MetaStoreError::ClusterNotFound);
            },
            Some(i) => i,
        };
        let ghost pre = *self;
        let new_epoch = self.global_epoch + 1;
        let nchunks = self.clusters[ci].chunks.len();
        let mut j: usize = 0;
        while j < nchunks
            invariant
                pre.inv(),
                ci < self.clusters@.len(),
                nchunks == self.clusters@[ci as int].chunks@.len(),
                j <= nchunks,
                self.version == pre.version,
                self.global_epoch == pre.global_epoch,
                self.failures == pre.failures,
                self.all_proxies == pre.all_proxies,
                self.enable_ordered_proxy == pre.enable_ordered_proxy,
                self.clusters@.len() == pre.clusters@.len(),
                forall|i: int|
                    0 <= i < pre.clusters@.len() && i != ci ==> #[trigger] self.clusters@[i]
                        == pre.clusters@[i],
                self.clusters@[ci as int].name == pre.clusters@[ci as int].name,
                self.clusters@[ci as int].epoch == pre.clusters@[ci as int].epoch,
                self.clusters@[ci as int].config == pre.clusters@[ci as int].config,
                forall|j2: int|
                    0 <= j2 < nchunks ==> (#[trigger] self.clusters@[ci as int].chunks@[j2]).first
                        == pre.clusters@[ci as int].chunks@[j2].first
                        && self.clusters@[ci as int].chunks@[j2].second
                        == pre.clusters@[ci as int].chunks@[j2].second
                        && self.clusters@[ci as int].chunks@[j2].pair1_slots
                        == pre.clusters@[ci as int].chunks@[j2].pair1_slots
                        && self.clusters@[ci as int].chunks@[j2].pair2_slots
                        == pre.clusters@[ci as int].chunks@[j2].pair2_slots,
                forall|j2: int|
                    0 <= j2 < j ==> (#[trigger] self.clusters@[ci as int].chunks@[j2]).pair1_master_on_first
                        && self.clusters@[ci as int].chunks@[j2].pair2_master_on_second,
            decreases nchunks - j,
        {
            let cl = &mut self.clusters[ci];
            let ch = &mut cl.chunks[j];
            ch.pair1_master_on_first = true;
            ch.pair2_master_on_second = true;
            j = j + 1;
        }
        let cl = &mut self.clusters[ci];
        cl.epoch = new_epoch;
        self.global_epoch = new_epoch;
        proof {
            let b = *self;
            assert(same_memberships(pre, b)) by {
                assert forall|i: int| 0 <= i < pre.clusters@.len() implies (
                #[trigger] b.clusters@[i]).name@ == pre.clusters@[i].name@
                    && chunks_same_addresses(pre.clusters@[i].chunks@, b.clusters@[i].chunks@) by {
                    if i != ci {
                        assert(b.clusters@[i] == pre.clusters@[i]);
                    }
                }
            }
            assert forall|i: int| 0 <= i < b.clusters@.len() implies (#[trigger] b.clusters@[i]).wf()
                && b.clusters@[i].epoch <= b.global_epoch by {
                if i != ci {
                    assert(b.clusters@[i] == pre.clusters@[i]);
                    assert(pre.clusters@[i].wf());
                    assert(pre.clusters@[i].epoch <= pre.global_epoch);
                } else {
                    assert(pre.clusters@[i].wf());
                    assert forall|s: int| 0 <= s < SLOT_MAX as int implies b.clusters@[i].owns(
                        s,
                    ) by {
                        assert(pre.clusters@[i].owns(s));
                        let j2 = choose|j2: int|
                            0 <= j2 < pre.clusters@[i].chunks@.len() && (
                            #[trigger] pre.clusters@[i].chunks@[j2]).owns(s);
                        assert(b.clusters@[i].chunks@[j2].owns(s));
                    }
                    assert forall|j1: int, j2: int, s: int|
                        0 <= j1 < b.clusters@[i].chunks@.len() && 0 <= j2
                            < b.clusters@[i].chunks@.len() && j1 != j2 implies !(
                    #[trigger] b.clusters@[i].chunks@[j1].owns(s)
                        && #[trigger] b.clusters@[i].chunks@[j2].owns(s)) by {
                        if b.clusters@[i].chunks@[j1].owns(s) && b.clusters@[i].chunks@[j2].owns(
                            s,
                        ) {
                            assert(pre.clusters@[i].chunks@[j1].owns(s)
                                && pre.clusters@[i].chunks@[j2].owns(s));
                        }
                    }
                    assert forall|j2: int| 0 <= j2 < b.clusters@[i].chunks@.len() implies (
                    #[trigger] b.clusters@[i].chunks@[j2]).wf() by {
                        assert(pre.clusters@[i].chunks@[j2].wf());
                    }
                }
            }
            memberships_preserve_inv(pre, b);
        }
        Ok(())
    }

    /// Set one configuration key of a cluster; an empty key is refused.
    pub fn change_config(&mut self, cluster_name: String, key: String, value: String) -> (r: Result<
        (),
        MetaStoreError,
    >)
        requires
            old(self).inv(),
            old(self).global_epoch < u64::MAX,
        ensures
            final(self).inv(),
            r is Err ==> *final(self) == *old(self),
            r == Err::<(), MetaStoreError>(MetaStoreError::ClusterNotFound) <==> !cluster_exists(
                old(self).clusters@,
                cluster_name@,
            ),
            r == Err::<(), MetaStoreError>(MetaStoreError::InvalidConfig) <==> cluster_exists(
                old(self).clusters@,
                cluster_name@,
            ) && key@.len() == 0,
            r matches Err(e) ==> (e == MetaStoreError::ClusterNotFound || e
                == MetaStoreError::InvalidConfig),
            r is Ok ==> final(self).global_epoch == old(self).global_epoch + 1 && exists|i: int|
                0 <= i < final(self).clusters@.len() && (#[trigger] final(self).clusters@[i]).name@
                    == cluster_name@ && final(self).clusters@[i].epoch == final(self).global_epoch
                    && config_val(final(self).clusters@[i].config@, key@) == Some(value@),
    {
        let ci = match self.find_cluster_pos(&cluster_name) {
            None => {
                return Err(MetaStoreError::ClusterNotFound);
            },
            Some(i) => i,
        };
        if key.as_str().unicode_len() == 0 {
            return Err(MetaStoreError::InvalidConfig);
        }
        let ghost pre = *self;
        let new_epoch = self.global_epoch + 1;
        let cl = &mut self.clusters[ci];
        cl.config.push((key, value));
        cl.epoch = new_epoch;
        self.global_epoch = new_epoch;
        proof {
            let b = *self;
            assert(same_memberships(pre, b)) by {
                assert forall|i: int| 0 <= i < pre.clusters@.len() implies (
                #[trigger] b.clusters@[i]).name@ == pre.clusters@[i].name@
                    && chunks_same_addresses(pre.clusters@[i].chunks@, b.clusters@[i].chunks@) by {
                    if i != ci {
                        assert(b.clusters@[i] == pre.clusters@[i]);
                    }
                }
            }
            assert forall|i: int| 0 <= i < b.clusters@.len() implies (#[trigger] b.clusters@[i]).wf()
                && b.clusters@[i].epoch <= b.global_epoch by {
                if i != ci {
                    assert(b.clusters@[i] == pre.clusters@[i]);
                    assert(pre.clusters@[i].wf());
                    assert(pre.clusters@[i].epoch <= pre.global_epoch);
                } else {
                    assert(pre.clusters@[i].wf());
                    cluster_wf_depends_on_chunks_and_name(pre.clusters@[i], b.clusters@[i]);
                }
            }
            memberships_preserve_inv(pre, b);
        }
        Ok(())
    }

    /// Replace the whole store with a dumped one; only the same version
    /// stamp is accepted.  A well-formed dump leaves a well-formed store.
    pub fn restore(&mut self, other: MetaStore) -> (r: Result<(), MetaStoreError>)
        ensures
            r is Err ==> *final(self) == *old(self) && r == Err::<(), MetaStoreError>(
                MetaStoreError::InvalidMetaVersion,
            ),
            r is Err <==> other.version != META_STORE_VERSION,
            r is Ok ==> *final(self) == other,
            r is Ok && other.inv() ==> final(self).inv(),
    {
        if other.version != META_STORE_VERSION {
            return Err(MetaStoreError::InvalidMetaVersion);
        }
        *self = other;
        Ok(())
    }

    /// The exact page of registered proxy addresses.
    pub fn get_proxies_with_pagination(&self, offset: Option<usize>, limit: Option<usize>) -> (r:
        Vec<String>)
        ensures
            r@.len() == page_len(offset, limit, self.all_proxies@.len() as int),
            forall|x: int|
                0 <= x < r@.len() ==> (#[trigger] r@[x])@ == self.all_proxies@[page_start(
                    offset,
                    self.all_proxies@.len() as int,
                ) + x].address@,
    {
        let off = match offset {
            Some(o) => o,
            None => 0,
        };
        let n = self.all_proxies.len();
        let lim = match limit {
            Some(l) => l,
            None => n,
        };
        let start = if off > n {
            n
        } else {
            off
        };
        let mut result: Vec<String> = Vec::new();
        let mut k: usize = start;
        while k < n && result.len() < lim
            invariant
                n == self.all_proxies@.len(),
                start == page_start(offset, n as int),
                lim == (match limit {
                    Some(l) => l as int,
                    None => n as int,
                }),
                start <= k <= n,
                result@.len() == k - start,
                result@.len() <= lim,
                forall|x: int|
                    0 <= x < result@.len() ==> (#[trigger] result@[x])@ == self.all_proxies@[start
                        + x].address@,
            decreases n - k,
        {
            let a = self.all_proxies[k].address.clone();
            proof {
                assert(self.all_proxies@[k as int].address@ == a@);
            }
            result.push(a);
            k = k + 1;
        }
        result
    }

    /// The exact page of cluster names.
    pub fn get_cluster_names_with_pagination(
        &self,
        offset: Option<usize>,
        limit: Option<usize>,
    ) -> (r: Vec<String>)
        ensures
            r@.len() == page_len(offset, limit, self.clusters@.len() as int),
            forall|x: int|
                0 <= x < r@.len() ==> (#[trigger] r@[x])@ == self.clusters@[page_start(
                    offset,
                    self.clusters@.len() as int,
                ) + x].name@,
    {
        let off = match offset {
            Some(o) => o,
            None => 0,
        };
        let n = self.clusters.len();
        let lim = match limit {
            Some(l) => l,
            None => n,
        };
        let start = if off > n {
            n
        } else {
            off
        };
        let mut result: Vec<String> = Vec::new();
        let mut k: usize = start;
        while k < n && result.len() < lim
            invariant
                n == self.clusters@.len(),
                start == page_start(offset, n as int),
                lim == (match limit {
                    Some(l) => l as int,
                    None => n as int,
                }),
                start <= k <= n,
                result@.len() == k - start,
                result@.len() <= lim,
                forall|x: int|
                    0 <= x < result@.len() ==> (#[trigger] result@[x])@ == self.clusters@[start
                        + x].name@,
            decreases n - k,
        {
            let a = self.clusters[k].name.clone();
            proof {
                assert(self.clusters@[k as int].name@ == a@);
            }
            result.push(a);
            k = k + 1;
        }
        result
    }

    /// All registered proxy addresses, in registration order.
    pub fn get_proxies(&self) -> (r: Vec<String>)
        ensures
            r@.len() == self.all_proxies@.len(),
            forall|k: int|
                0 <= k < r@.len() ==> (#[trigger] r@[k])@ == self.all_proxies@[k].address@,
    {
        let n = self.all_proxies.len();
        let mut result: Vec<String> = Vec::new();
        let mut k: usize = 0;
        while k < n
            invariant
                n == self.all_proxies@.len(),
                k <= n,
                result@.len() == k,
                forall|k2: int|
                    0 <= k2 < k ==> (#[trigger] result@[k2])@ == self.all_proxies@[k2].address@,
            decreases n - k,
        {
            result.push(self.all_proxies[k].address.clone());
            k = k + 1;
        }
        result
    }

    /// A copy of the registered proxy record for this address.
    pub fn get_proxy_by_address(&self, address: &String) -> (r: Option<ProxyResource>)
        ensures
            r is Some <==> proxy_registered(self.all_proxies@, address@),
            r matches Some(pr) ==> exists|p: int|
                0 <= p < self.all_proxies@.len() && (#[trigger] self.all_proxies@[p]).address@
                    == pr.address@ && pr.address@ == address@ && self.all_proxies@[p].host@
                    == pr.host@ && self.all_proxies@[p].node1@ == pr.node1@
                    && self.all_proxies@[p].node2@ == pr.node2@ && self.all_proxies@[p].index
                    == pr.index && (match (pr.cluster, self.all_proxies@[p].cluster) {
                    (Some(n1), Some(n2)) => n1@ == n2@,
                    (Option::None, Option::None) => true,
                    _ => false,
                }),
    {
        match self.find_proxy_pos(address) {
            None => None,
            Some(p) => {
                let rec = &self.all_proxies[p];
                let cluster = match &rec.cluster {
                    Some(nm) => Some(nm.clone()),
                    None => None,
                };
                Some(
                    ProxyResource {
                        address: rec.address.clone(),
                        host: rec.host.clone(),
                        node1: rec.node1.clone(),
                        node2: rec.node2.clone(),
                        index: rec.index,
                        cluster,
                    },
                )
            },
        }
    }

    /// Summary counters for a cluster.
    pub fn get_cluster_info_by_name(&self, name: &String) -> (r: Option<ClusterInfo>)
        ensures
            r is Some <==> cluster_exists(self.clusters@, name@),
            r matches Some(info) ==> exists|i: int|
                0 <= i < self.clusters@.len() && (#[trigger] self.clusters@[i]).name@ == name@
                    && info.name@ == name@ && info.epoch == self.clusters@[i].epoch
                    && info.is_migrating == cluster_has_tags(self.clusters@[i])
                    && info.node_number as int == (if self.clusters@[i].chunks@.len() as int
                    <= usize::MAX as int / 4 {
                    4 * self.clusters@[i].chunks@.len() as int
                } else {
                    usize::MAX as int
                }),
    {
        match self.find_cluster_pos(name) {
            None => None,
            Some(i) => {
                let c = &self.clusters[i];
                let nchunks = c.chunks.len();
                let node_number = if nchunks > usize::MAX / 4 {
                    usize::MAX
                } else {
                    4 * nchunks
                };
                Some(
                    ClusterInfo {
                        name: c.name.clone(),
                        epoch: c.epoch,
                        node_number,
                        is_migrating: Self::cluster_tags_present(c),
                    },
                )
            },
        }
    }
}


/// The fields of `c` form a freshly appended, slotless chunk built from
/// the proxies at positions `pq`.
pub open spec fn chunk_appended(c: Chunk, ps: Seq<ProxyResource>, pq: (usize, usize)) -> bool {
    &&& pq.0 < ps.len() && pq.1 < ps.len()
    &&& c.first.address == ps[pq.0 as int].address
    &&& c.first.host == ps[pq.0 as int].host
    &&& c.first.node1 == ps[pq.0 as int].node1
    &&& c.first.node2 == ps[pq.0 as int].node2
    &&& c.second.address == ps[pq.1 as int].address
    &&& c.second.host == ps[pq.1 as int].host
    &&& c.second.node1 == ps[pq.1 as int].node1
    &&& c.second.node2 == ps[pq.1 as int].node2
    &&& c.pair1_master_on_first
    &&& c.pair2_master_on_second
    &&& c.pair1_slots@.len() == 0
    &&& c.pair2_slots@.len() == 0
}

/// Re-establish the store invariant after slotless chunks have been
/// appended to a cluster and their proxies bound.
#[verifier::rlimit(100)]
proof fn lemma_append_chunks_inv(
    pre: MetaStore,
    post: MetaStore,
    ci: int,
    pairs: Seq<(usize, usize)>,
    k: int,
)
    requires
        pre.inv(),
        pre.global_epoch < u64::MAX,
        0 <= ci < pre.clusters@.len(),
        k >= 1,
        pairs.len() == k,
        forall|j: int| 0 <= j < k ==> pair_ok(#[trigger] pairs[j], pre.all_proxies@, pre.enable_ordered_proxy),
        forall|j1: int, j2: int|
            0 <= j1 < k && 0 <= j2 < k && j1 != j2 ==> (#[trigger] pairs[j1]).0 != (
            #[trigger] pairs[j2]).0 && pairs[j1].0 != pairs[j2].1 && pairs[j1].1 != pairs[j2].0
                && pairs[j1].1 != pairs[j2].1,
        post.global_epoch == pre.global_epoch + 1,
        post.version == pre.version,
        post.enable_ordered_proxy == pre.enable_ordered_proxy,
        post.failures == pre.failures,
        post.clusters@.len() == pre.clusters@.len(),
        forall|i: int| 0 <= i < pre.clusters@.len() && i != ci ==> post.clusters@[i] == pre.clusters@[i],
        post.clusters@[ci].name == pre.clusters@[ci].name,
        post.clusters@[ci].config == pre.clusters@[ci].config,
        post.clusters@[ci].epoch == post.global_epoch,
        post.clusters@[ci].chunks@.len() == pre.clusters@[ci].chunks@.len() + k,
        forall|j: int|
            0 <= j < pre.clusters@[ci].chunks@.len() ==> #[trigger] post.clusters@[ci].chunks@[j]
                == pre.clusters@[ci].chunks@[j],
        forall|t: int|
            0 <= t < k ==> chunk_appended(
                #[trigger] post.clusters@[ci].chunks@[pre.clusters@[ci].chunks@.len() + t],
                pre.all_proxies@,
                pairs[t],
            ),
        post.all_proxies@.len() == pre.all_proxies@.len(),
        forall|p: int|
            0 <= p < post.all_proxies@.len() ==> (#[trigger] post.all_proxies@[p]).address
                == pre.all_proxies@[p].address && post.all_proxies@[p].host
                == pre.all_proxies@[p].host && post.all_proxies@[p].node1
                == pre.all_proxies@[p].node1 && post.all_proxies@[p].node2
                == pre.all_proxies@[p].node2 && post.all_proxies@[p].index
                == pre.all_proxies@[p].index,
        forall|p: int|
            0 <= p < post.all_proxies@.len() && pick_uses(pairs, k, p) ==> (
            #[trigger] post.all_proxies@[p]).bound_to(pre.clusters@[ci].name@),
        forall|p: int|
            0 <= p < post.all_proxies@.len() && !pick_uses(pairs, k, p) ==> (
            #[trigger] post.all_proxies@[p]).cluster == pre.all_proxies@[p].cluster,
        pre.enable_ordered_proxy ==> ci == 0 && pre.clusters@.len() == 1 && forall|t: int|
            0 <= t < k ==> (#[trigger] pairs[t]).0 == 2 * pre.clusters@[ci].chunks@.len() + 2 * t
                && pairs[t].1 == 2 * pre.clusters@[ci].chunks@.len() + 2 * t + 1,
    ensures
        post.inv(),
{
    let oldc = pre.clusters@[ci].chunks@.len() as int;
    let name = pre.clusters@[ci].name@;
    assert(post.proxies_unique()) by {
        assert forall|p1: int, p2: int|
            0 <= p1 < post.all_proxies@.len() && 0 <= p2 < post.all_proxies@.len() && p1 != p2 implies (
        #[trigger] post.all_proxies@[p1]).address@ != (#[trigger] post.all_proxies@[p2]).address@ by {
            assert(pre.all_proxies@[p1].address@ != pre.all_proxies@[p2].address@);
        }
    }
    assert(post.clusters_unique()) by {
        assert forall|i1: int, i2: int|
            0 <= i1 < post.clusters@.len() && 0 <= i2 < post.clusters@.len() && i1 != i2 implies (
        #[trigger] post.clusters@[i1]).name@ != (#[trigger] post.clusters@[i2]).name@ by {
            assert(post.clusters@[i1].name@ == pre.clusters@[i1].name@);
            assert(post.clusters@[i2].name@ == pre.clusters@[i2].name@);
            assert(pre.clusters@[i1].name@ != pre.clusters@[i2].name@);
        }
    }
    assert(post.clusters@[ci].wf()) by {
        assert(pre.clusters@[ci].wf());
        assert forall|j: int| 0 <= j < post.clusters@[ci].chunks@.len() implies (
        #[trigger] post.clusters@[ci].chunks@[j]).wf() by {
            if j < oldc {
                assert(post.clusters@[ci].chunks@[j] == pre.clusters@[ci].chunks@[j]);
                assert(pre.clusters@[ci].chunks@[j].wf());
            } else {
                let t = j - oldc;
                assert(chunk_appended(
                    post.clusters@[ci].chunks@[pre.clusters@[ci].chunks@.len() + t],
                    pre.all_proxies@,
                    pairs[t],
                ));
                assert(pre.clusters@[ci].chunks@.len() + t == j);
                assert(pre.all_proxies@[pairs[t].0 as int].address@
                    != pre.all_proxies@[pairs[t].1 as int].address@);
            }
        }
        assert forall|s: int| 0 <= s < SLOT_MAX as int implies post.clusters@[ci].owns(s) by {
            assert(pre.clusters@[ci].owns(s));
            let j = choose|j: int|
                0 <= j < pre.clusters@[ci].chunks@.len() && (
                #[trigger] pre.clusters@[ci].chunks@[j]).owns(s);
            assert(post.clusters@[ci].chunks@[j].owns(s));
        }
        assert forall|j1: int, j2: int, s: int|
            0 <= j1 < post.clusters@[ci].chunks@.len() && 0 <= j2
                < post.clusters@[ci].chunks@.len() && j1 != j2 implies !(
        #[trigger] post.clusters@[ci].chunks@[j1].owns(s)
            && #[trigger] post.clusters@[ci].chunks@[j2].owns(s)) by {
            if post.clusters@[ci].chunks@[j1].owns(s) && post.clusters@[ci].chunks@[j2].owns(s) {
                if j1 < oldc && j2 < oldc {
                    assert(pre.clusters@[ci].chunks@[j1].owns(s)
                        && pre.clusters@[ci].chunks@[j2].owns(s));
                } else {
                    let j3: int = if j1 >= oldc {
                        j1
                    } else {
                        j2
                    };
                    let t3 = j3 - oldc;
                    assert(chunk_appended(
                        post.clusters@[ci].chunks@[pre.clusters@[ci].chunks@.len() + t3],
                        pre.all_proxies@,
                        pairs[t3],
                    ));
                    assert(pre.clusters@[ci].chunks@.len() + t3 == j3);
                    assert(!post.clusters@[ci].chunks@[j3].owns(s));
                }
            }
        }
    }
    assert(post.clusters_wf()) by {
        assert forall|i: int| 0 <= i < post.clusters@.len() implies (
        #[trigger] post.clusters@[i]).wf() && post.clusters@[i].epoch <= post.global_epoch by {
            if i != ci {
                assert(post.clusters@[i] == pre.clusters@[i]);
                assert(pre.clusters@[i].wf() && pre.clusters@[i].epoch <= pre.global_epoch);
            }
        }
    }
    assert(post.chunk_proxies_bound()) by {
        assert forall|i: int, j: int|
            0 <= i < post.clusters@.len() && 0 <= j < post.clusters@[i].chunks@.len() implies post.has_proxy_bound(
            (#[trigger] post.clusters@[i].chunks@[j]).first.address@,
            post.clusters@[i].name@,
        ) && post.has_proxy_bound(
            post.clusters@[i].chunks@[j].second.address@,
            post.clusters@[i].name@,
        ) by {
            if i != ci || j < oldc {
                let cname = pre.clusters@[i].name@;
                assert(pre.has_proxy_bound(pre.clusters@[i].chunks@[j].first.address@, cname));
                assert(pre.has_proxy_bound(pre.clusters@[i].chunks@[j].second.address@, cname));
                let w1 = choose|w: int|
                    0 <= w < pre.all_proxies@.len() && (#[trigger] pre.all_proxies@[w]).address@
                        == pre.clusters@[i].chunks@[j].first.address@
                        && pre.all_proxies@[w].bound_to(cname);
                let w2 = choose|w: int|
                    0 <= w < pre.all_proxies@.len() && (#[trigger] pre.all_proxies@[w]).address@
                        == pre.clusters@[i].chunks@[j].second.address@
                        && pre.all_proxies@[w].bound_to(cname);
                assert(!pick_uses(pairs, k, w1)) by {
                    if pick_uses(pairs, k, w1) {
                        let t = choose|t: int|
                            0 <= t < k && ((#[trigger] pairs[t]).0 == w1 || pairs[t].1 == w1);
                        assert(pre.all_proxies@[w1].is_free());
                    }
                }
                assert(!pick_uses(pairs, k, w2)) by {
                    if pick_uses(pairs, k, w2) {
                        let t = choose|t: int|
                            0 <= t < k && ((#[trigger] pairs[t]).0 == w2 || pairs[t].1 == w2);
                        assert(pre.all_proxies@[w2].is_free());
                    }
                }
                assert(post.all_proxies@[w1].bound_to(cname));
                assert(post.all_proxies@[w2].bound_to(cname));
                assert(post.clusters@[i].chunks@[j].first.address@
                    == pre.clusters@[i].chunks@[j].first.address@);
                assert(post.clusters@[i].chunks@[j].second.address@
                    == pre.clusters@[i].chunks@[j].second.address@);
            } else {
                let t = j - oldc;
                let q1 = pairs[t].0 as int;
                let q2 = pairs[t].1 as int;
                assert(pick_uses(pairs, k, q1) && pick_uses(pairs, k, q2)) by {
                    assert((#[trigger] pairs[t]).0 == pairs[t].0);
                }
                assert(post.all_proxies@[q1].bound_to(name));
                assert(post.all_proxies@[q2].bound_to(name));
                assert(chunk_appended(
                    post.clusters@[ci].chunks@[pre.clusters@[ci].chunks@.len() + t],
                    pre.all_proxies@,
                    pairs[t],
                ));
                assert(post.clusters@[i].chunks@[j].first.address@
                    == post.all_proxies@[q1].address@);
                assert(post.clusters@[i].chunks@[j].second.address@
                    == post.all_proxies@[q2].address@);
            }
        }
    }
    assert(post.bindings_backed()) by {
        assert forall|p: int| 0 <= p < post.all_proxies@.len() implies ((
        #[trigger] post.all_proxies@[p]).cluster matches Some(nn) ==> post.appears_in_cluster(
            post.all_proxies@[p].address@,
            nn@,
        )) by {
            if post.all_proxies@[p].cluster is Some {
                let nn = post.all_proxies@[p].cluster->0;
                if pick_uses(pairs, k, p) {
                    let t = choose|t: int|
                        0 <= t < k && ((#[trigger] pairs[t]).0 == p || pairs[t].1 == p);
                    assert(nn@ == name);
                    assert(post.clusters@[ci].name@ == name);
                    assert(chunk_appended(
                        post.clusters@[ci].chunks@[pre.clusters@[ci].chunks@.len() + t],
                        pre.all_proxies@,
                        pairs[t],
                    ));
                    assert((post.clusters@[ci].chunks@[oldc + t]).first.address@
                        == post.all_proxies@[p].address@ || post.clusters@[ci].chunks@[oldc
                        + t].second.address@ == post.all_proxies@[p].address@);
                    assert(post.appears_in_cluster(post.all_proxies@[p].address@, nn@));
                } else {
                    assert(post.all_proxies@[p].cluster == pre.all_proxies@[p].cluster);
                    assert(pre.appears_in_cluster(pre.all_proxies@[p].address@, nn@));
                    let (i, j) = choose|i: int, j: int|
                        0 <= i < pre.clusters@.len() && 0 <= j < pre.clusters@[i].chunks@.len()
                            && pre.clusters@[i].name@ == nn@ && ((
                        #[trigger] pre.clusters@[i].chunks@[j]).first.address@
                            == pre.all_proxies@[p].address@
                            || pre.clusters@[i].chunks@[j].second.address@
                            == pre.all_proxies@[p].address@);
                    assert(post.clusters@[i].name@ == nn@);
                    assert(0 <= j < post.clusters@[i].chunks@.len());
                    assert(post.clusters@[i].chunks@[j].first.address@
                        == pre.clusters@[i].chunks@[j].first.address@
                        && post.clusters@[i].chunks@[j].second.address@
                        == pre.clusters@[i].chunks@[j].second.address@) by {
                        if i != ci {
                            assert(post.clusters@[i] == pre.clusters@[i]);
                        } else {
                            assert(post.clusters@[ci].chunks@[j] == pre.clusters@[ci].chunks@[j]);
                        }
                    }
                    assert(post.appears_in_cluster(post.all_proxies@[p].address@, nn@));
                }
            }
        }
    }
    assert(post.clusters_chunk_addrs_unique()) by {
        assert forall|i: int, j1: int, j2: int|
            0 <= i < post.clusters@.len() && 0 <= j1 < post.clusters@[i].chunks@.len() && 0 <= j2
                < post.clusters@[i].chunks@.len() && j1 != j2 implies {
            let c1 = #[trigger] post.clusters@[i].chunks@[j1];
            let c2 = #[trigger] post.clusters@[i].chunks@[j2];
            c1.first.address@ != c2.first.address@ && c1.first.address@ != c2.second.address@
                && c1.second.address@ != c2.first.address@ && c1.second.address@
                != c2.second.address@
        } by {
            if i != ci {
                assert(post.clusters@[i] == pre.clusters@[i]);
                let a1 = pre.clusters@[i].chunks@[j1];
                let a2 = pre.clusters@[i].chunks@[j2];
                assert(a1.first.address@ != a2.first.address@ && a1.first.address@
                    != a2.second.address@ && a1.second.address@ != a2.first.address@
                    && a1.second.address@ != a2.second.address@);
            } else if j1 < oldc && j2 < oldc {
                let a1 = pre.clusters@[i].chunks@[j1];
                let a2 = pre.clusters@[i].chunks@[j2];
                assert(a1.first.address@ != a2.first.address@ && a1.first.address@
                    != a2.second.address@ && a1.second.address@ != a2.first.address@
                    && a1.second.address@ != a2.second.address@);
            } else if j1 >= oldc && j2 >= oldc {
                let t1 = j1 - oldc;
                let t2 = j2 - oldc;
                assert(chunk_appended(
                    post.clusters@[ci].chunks@[pre.clusters@[ci].chunks@.len() + t1],
                    pre.all_proxies@,
                    pairs[t1],
                ));
                assert(chunk_appended(
                    post.clusters@[ci].chunks@[pre.clusters@[ci].chunks@.len() + t2],
                    pre.all_proxies@,
                    pairs[t2],
                ));
                let q10 = pairs[t1].0 as int;
                let q11 = pairs[t1].1 as int;
                let q20 = pairs[t2].0 as int;
                let q21 = pairs[t2].1 as int;
                assert(q10 != q20 && q10 != q21 && q11 != q20 && q11 != q21);
                assert(pre.all_proxies@[q10].address@ != pre.all_proxies@[q20].address@);
                assert(pre.all_proxies@[q10].address@ != pre.all_proxies@[q21].address@);
                assert(pre.all_proxies@[q11].address@ != pre.all_proxies@[q20].address@);
                assert(pre.all_proxies@[q11].address@ != pre.all_proxies@[q21].address@);
            } else {
                let jo: int = if j1 < oldc {
                    j1
                } else {
                    j2
                };
                let jn: int = if j1 < oldc {
                    j2
                } else {
                    j1
                };
                let t = jn - oldc;
                assert(chunk_appended(
                    post.clusters@[ci].chunks@[pre.clusters@[ci].chunks@.len() + t],
                    pre.all_proxies@,
                    pairs[t],
                ));
                let q0 = pairs[t].0 as int;
                let q1 = pairs[t].1 as int;
                assert(pre.has_proxy_bound(pre.clusters@[ci].chunks@[jo].first.address@, name));
                assert(pre.has_proxy_bound(pre.clusters@[ci].chunks@[jo].second.address@, name));
                let w1 = choose|w: int|
                    0 <= w < pre.all_proxies@.len() && (#[trigger] pre.all_proxies@[w]).address@
                        == pre.clusters@[ci].chunks@[jo].first.address@
                        && pre.all_proxies@[w].bound_to(name);
                let w2 = choose|w: int|
                    0 <= w < pre.all_proxies@.len() && (#[trigger] pre.all_proxies@[w]).address@
                        == pre.clusters@[ci].chunks@[jo].second.address@
                        && pre.all_proxies@[w].bound_to(name);
                assert(w1 != q0 && w1 != q1 && w2 != q0 && w2 != q1);
                assert(pre.all_proxies@[w1].address@ != pre.all_proxies@[q0].address@);
                assert(pre.all_proxies@[w1].address@ != pre.all_proxies@[q1].address@);
                assert(pre.all_proxies@[w2].address@ != pre.all_proxies@[q0].address@);
                assert(pre.all_proxies@[w2].address@ != pre.all_proxies@[q1].address@);
            }
        }
    }
    assert(post.failures_wf()) by {
        assert(pre.failures_wf());
    }
    assert(post.ordered_wf()) by {
        if post.enable_ordered_proxy {
            assert forall|p: int| 0 <= p < post.all_proxies@.len() implies (
            #[trigger] post.all_proxies@[p]).index == Some(p as usize) by {
                assert(pre.all_proxies@[p].index == Some(p as usize));
            }
            assert(post.clusters@.len() == 1);
            assert(2 * post.clusters@[0].chunks@.len() <= post.all_proxies@.len()) by {
                assert(pair_ok(pairs[k - 1], pre.all_proxies@, true));
                assert(pairs[k - 1].1 == 2 * oldc + 2 * (k - 1) + 1);
            }
            assert forall|j: int| 0 <= j < post.clusters@[0].chunks@.len() implies (
            #[trigger] post.clusters@[0].chunks@[j]).first.address@ == post.all_proxies@[2
                * j].address@ && post.clusters@[0].chunks@[j].second.address@ == post.all_proxies@[2
                * j + 1].address@ by {
                if j < oldc {
                    assert(post.clusters@[0].chunks@[j] == pre.clusters@[0].chunks@[j]);
                    assert(pre.clusters@[0].chunks@[j].first.address@ == pre.all_proxies@[2
                        * j].address@ && pre.clusters@[0].chunks@[j].second.address@
                        == pre.all_proxies@[2 * j + 1].address@);
                } else {
                    let t = j - oldc;
                    assert(pairs[t].0 == 2 * oldc + 2 * t && pairs[t].1 == 2 * oldc + 2 * t + 1);
                    assert(chunk_appended(
                        post.clusters@[ci].chunks@[pre.clusters@[ci].chunks@.len() + t],
                        pre.all_proxies@,
                        pairs[t],
                    ));
                    assert(pre.clusters@[ci].chunks@.len() + t == j);
                }
            }
        }
    }
}

impl MetaStore {
    /// Append `node_num` nodes to a cluster as slotless chunks ready for
    /// a scale-out migration.
    #[verifier::rlimit(100)]
    pub fn auto_add_nodes(&mut self, cluster_name: String, node_num: usize) -> (r: Result<
        (),
        MetaStoreError,
    >)
        requires
            old(self).inv(),
            old(self).global_epoch < u64::MAX,
        ensures
            final(self).inv(),
            r is Err ==> *final(self) == *old(self),
            r == Err::<(), MetaStoreError>(MetaStoreError::ClusterNotFound) <==> !cluster_exists(
                old(self).clusters@,
                cluster_name@,
            ),
            r matches Err(e) ==> (e == MetaStoreError::ClusterNotFound || e
                == MetaStoreError::MigrationRunning || e == MetaStoreError::InvalidNodeNum || e
                == MetaStoreError::NoAvailableResource),
            forall|i: int|
                0 <= i < old(self).clusters@.len() && (#[trigger] old(self).clusters@[i]).name@
                    == cluster_name@ ==> {
                    &&& (r == Err::<(), MetaStoreError>(MetaStoreError::MigrationRunning)
                        <==> cluster_has_tags(old(self).clusters@[i]))
                    &&& (r == Err::<(), MetaStoreError>(MetaStoreError::InvalidNodeNum)
                        <==> !cluster_has_tags(old(self).clusters@[i]) && (node_num == 0 || node_num
                        % 4 != 0))
                    &&& (!cluster_has_tags(old(self).clusters@[i]) && node_num != 0 && node_num % 4
                        == 0 && old(self).enable_ordered_proxy ==> (r == Err::<(), MetaStoreError>(
                        MetaStoreError::NoAvailableResource,
                    ) <==> 2 * old(self).clusters@[i].chunks@.len() + node_num as int / 2 > old(
                        self,
                    ).all_proxies@.len()))
                    &&& (!cluster_has_tags(old(self).clusters@[i]) && node_num != 0 && node_num % 4
                        == 0 && !old(self).enable_ordered_proxy && free_hosts_distinct(
                        old(self).all_proxies@,
                    ) && node_num as int / 2 <= free_count(old(self).all_proxies@) ==> r is Ok)
                    &&& r is Ok ==> added_nodes_post(*old(self), *final(self), i, node_num)
                },
    {
        let ci = match self.find_cluster_pos(&cluster_name) {
            None => {
                return Err(MetaStoreError::ClusterNotFound);
            },
            Some(i) => i,
        };
        if Self::cluster_tags_present(&self.clusters[ci]) {
            return Err(MetaStoreError::MigrationRunning);
        }
        if node_num == 0 || node_num % 4 != 0 {
            return Err(MetaStoreError::InvalidNodeNum);
        }
        let k = node_num / 4;
        let oldc = self.clusters[ci].chunks.len();
        proof {
            assert(k >= 1 && 2 * k == node_num as int / 2) by (nonlinear_arith)
                requires
                    node_num % 4 == 0,
                    node_num != 0,
                    k == node_num / 4,
            ;
        }
        let ordered_start = if self.enable_ordered_proxy {
            if oldc > usize::MAX / 2 {
                proof {
                    assert(2 * oldc as int + node_num as int / 2 > usize::MAX as int);
                    assert(self.all_proxies@.len() == self.all_proxies.len());
                }
                return Err(MetaStoreError::NoAvailableResource);
            }
            2 * oldc
        } else {
            0
        };
        proof {
            if self.enable_ordered_proxy {
                assert(self.clusters@.len() == 1 && ci == 0);
                assert(2 * oldc <= self.all_proxies@.len());
                assert forall|p: int|
                    ordered_start <= p < self.all_proxies@.len() implies (
                #[trigger] self.all_proxies@[p]).is_free() by {
                    if self.all_proxies@[p].cluster is Some {
                        let nn = self.all_proxies@[p].cluster->0;
                        assert(self.appears_in_cluster(self.all_proxies@[p].address@, nn@));
                        let (i, j) = choose|i: int, j: int|
                            0 <= i < self.clusters@.len() && 0 <= j
                                < self.clusters@[i].chunks@.len() && self.clusters@[i].name@ == nn@
                                && ((#[trigger] self.clusters@[i].chunks@[j]).first.address@
                                == self.all_proxies@[p].address@
                                || self.clusters@[i].chunks@[j].second.address@
                                == self.all_proxies@[p].address@);
                        assert(i == 0);
                        if self.clusters@[0].chunks@[j].first.address@
                            == self.all_proxies@[p].address@ {
                            assert(self.all_proxies@[2 * j].address@
                                == self.all_proxies@[p].address@);
                            assert(p == 2 * j);
                        } else {
                            assert(self.all_proxies@[2 * j + 1].address@
                                == self.all_proxies@[p].address@);
                            assert(p == 2 * j + 1);
                        }
                    }
                }
            }
        }
        let pairs = match self.pick_chunk_pairs(k, ordered_start) {
            Ok(v) => v,
            Err(_e) => {
                return Err(MetaStoreError::NoAvailableResource);
            },
        };
        let ghost pre = *self;
        let new_epoch = self.global_epoch + 1;
        let mut t: usize = 0;
        while t < k
            invariant
                pre.inv(),
                ci < self.clusters@.len(),
                pairs_ok(pairs@, pre.all_proxies@, pre.enable_ordered_proxy, ordered_start as int, k as int),
                oldc == pre.clusters@[ci as int].chunks@.len(),
                self.version == pre.version,
                self.global_epoch == pre.global_epoch,
                self.failures == pre.failures,
                self.all_proxies == pre.all_proxies,
                self.enable_ordered_proxy == pre.enable_ordered_proxy,
                self.clusters@.len() == pre.clusters@.len(),
                forall|i: int|
                    0 <= i < pre.clusters@.len() && i != ci ==> #[trigger] self.clusters@[i]
                        == pre.clusters@[i],
                self.clusters@[ci as int].name == pre.clusters@[ci as int].name,
                self.clusters@[ci as int].epoch == pre.clusters@[ci as int].epoch,
                self.clusters@[ci as int].config == pre.clusters@[ci as int].config,
                t <= k,
                self.clusters@[ci as int].chunks@.len() == oldc + t,
                forall|j: int|
                    0 <= j < oldc ==> #[trigger] self.clusters@[ci as int].chunks@[j]
                        == pre.clusters@[ci as int].chunks@[j],
                forall|t2: int|
                    0 <= t2 < t ==> chunk_appended(
                        #[trigger] self.clusters@[ci as int].chunks@[oldc + t2],
                        pre.all_proxies@,
                        pairs@[t2],
                    ),
            decreases k - t,
        {
            proof {
                assert(pair_ok(pairs@[t as int], pre.all_proxies@, pre.enable_ordered_proxy));
            }
            let p1 = pairs[t].0;
            let p2 = pairs[t].1;
            let first = ChunkProxy {
                address: self.all_proxies[p1].address.clone(),
                host: self.all_proxies[p1].host.clone(),
                node1: self.all_proxies[p1].node1.clone(),
                node2: self.all_proxies[p1].node2.clone(),
            };
            let second = ChunkProxy {
                address: self.all_proxies[p2].address.clone(),
                host: self.all_proxies[p2].host.clone(),
                node1: self.all_proxies[p2].node1.clone(),
                node2: self.all_proxies[p2].node2.clone(),
            };
            let cl = &mut self.clusters[ci];
            cl.chunks.push(
                Chunk {
                    first,
                    second,
                    pair1_master_on_first: true,
                    pair2_master_on_second: true,
                    pair1_slots: Vec::new(),
                    pair2_slots: Vec::new(),
                },
            );
            t = t + 1;
        }
        let ghost mid = *self;
        let n = self.all_proxies.len();
        let mut t2: usize = 0;
        while t2 < k
            invariant
                pre.inv(),
                ci < self.clusters@.len(),
                n == self.all_proxies@.len(),
                n == pre.all_proxies@.len(),
                pairs_ok(pairs@, pre.all_proxies@, pre.enable_ordered_proxy, ordered_start as int, k as int),
                self.clusters == mid.clusters,
                self.clusters@[ci as int].name == pre.clusters@[ci as int].name,
                self.version == pre.version,
                self.global_epoch == pre.global_epoch,
                self.failures == pre.failures,
                self.enable_ordered_proxy == pre.enable_ordered_proxy,
                t2 <= k,
                forall|p: int|
                    0 <= p < n ==> (#[trigger] self.all_proxies@[p]).address
                        == pre.all_proxies@[p].address && self.all_proxies@[p].host
                        == pre.all_proxies@[p].host && self.all_proxies@[p].node1
                        == pre.all_proxies@[p].node1 && self.all_proxies@[p].node2
                        == pre.all_proxies@[p].node2 && self.all_proxies@[p].index
                        == pre.all_proxies@[p].index,
                forall|p: int|
                    0 <= p < n && pick_uses(pairs@, t2 as int, p) ==> (
                    #[trigger] self.all_proxies@[p]).bound_to(pre.clusters@[ci as int].name@),
                forall|p: int|
                    0 <= p < n && !pick_uses(pairs@, t2 as int, p) ==> (
                    #[trigger] self.all_proxies@[p]).cluster == pre.all_proxies@[p].cluster,
            decreases k - t2,
        {
            proof {
                assert(pair_ok(pairs@[t2 as int], pre.all_proxies@, pre.enable_ordered_proxy));
            }
            let p1 = pairs[t2].0;
            let p2 = pairs[t2].1;
            let name1 = self.clusters[ci].name.clone();
            let e1 = &mut self.all_proxies[p1];
            e1.cluster = Some(name1);
            let name2 = self.clusters[ci].name.clone();
            let e2 = &mut self.all_proxies[p2];
            e2.cluster = Some(name2);
            proof {
                assert forall|p: int|
                    0 <= p < n && pick_uses(pairs@, t2 + 1, p) implies (
                #[trigger] self.all_proxies@[p]).bound_to(pre.clusters@[ci as int].name@) by {
                    if p != p1 as int && p != p2 as int {
                        let j3 = choose|j3: int|
                            0 <= j3 < t2 + 1 && ((#[trigger] pairs@[j3]).0 == p || pairs@[j3].1
                                == p);
                        assert(j3 < t2);
                        assert(pick_uses(pairs@, t2 as int, p));
                    }
                }
                assert forall|p: int|
                    0 <= p < n && !pick_uses(pairs@, t2 + 1, p) implies (
                #[trigger] self.all_proxies@[p]).cluster == pre.all_proxies@[p].cluster by {
                    assert(p != p1 as int && p != p2 as int) by {
                        assert(pairs@[t2 as int].0 == p1 && pairs@[t2 as int].1 == p2);
                    }
                    assert(!pick_uses(pairs@, t2 as int, p)) by {
                        if pick_uses(pairs@, t2 as int, p) {
                            let j3 = choose|j3: int|
                                0 <= j3 < t2 && ((#[trigger] pairs@[j3]).0 == p || pairs@[j3].1
                                    == p);
                        }
                    }
                }
            }
            t2 = t2 + 1;
        }
        let cl = &mut self.clusters[ci];
        cl.epoch = new_epoch;
        self.global_epoch = new_epoch;
        proof {
            lemma_append_chunks_inv(pre, *self, ci as int, pairs@, k as int);
            let oldc2 = pre.clusters@[ci as int].chunks@.len() as int;
            assert(self.clusters@[ci as int].chunks@.len() == oldc2 + k);
            assert forall|j: int|
                oldc2 <= j < self.clusters@[ci as int].chunks@.len() implies (
            #[trigger] self.clusters@[ci as int].chunks@[j]).pair1_slots@.len() == 0
                && self.clusters@[ci as int].chunks@[j].pair2_slots@.len() == 0 by {
                let t = j - oldc2;
                assert(chunk_appended(
                    self.clusters@[ci as int].chunks@[pre.clusters@[ci as int].chunks@.len() + t],
                    pre.all_proxies@,
                    pairs@[t],
                ));
                assert(pre.clusters@[ci as int].chunks@.len() + t == j);
            }
            assert forall|p: int|
                0 <= p < self.all_proxies@.len() implies ((#[trigger] self.all_proxies@[p]).cluster
                == pre.all_proxies@[p].cluster || (pre.all_proxies@[p].is_free()
                && self.all_proxies@[p].bound_to(pre.clusters@[ci as int].name@))) by {
                if pick_uses(pairs@, k as int, p) {
                    let t = choose|t: int|
                        0 <= t < k && ((#[trigger] pairs@[t]).0 == p || pairs@[t].1 == p);
                    assert(pair_ok(pairs@[t], pre.all_proxies@, pre.enable_ordered_proxy));
                    assert(pre.all_proxies@[p].is_free());
                }
            }
            assert(added_nodes_post(pre, *self, ci as int, node_num));
        }
        Ok(())
    }
}

/// What a successful node addition leaves behind.
pub open spec fn added_nodes_post(
    pre: MetaStore,
    post: MetaStore,
    ci: int,
    node_num: usize,
) -> bool {
    &&& post.global_epoch == pre.global_epoch + 1
    &&& post.version == pre.version
    &&& post.failures == pre.failures
    &&& post.enable_ordered_proxy == pre.enable_ordered_proxy
    &&& post.clusters@.len() == pre.clusters@.len()
    &&& forall|i: int|
        0 <= i < pre.clusters@.len() && i != ci ==> #[trigger] post.clusters@[i]
            == pre.clusters@[i]
    &&& post.clusters@[ci].name == pre.clusters@[ci].name
    &&& post.clusters@[ci].epoch == post.global_epoch
    &&& post.clusters@[ci].chunks@.len() == pre.clusters@[ci].chunks@.len() + node_num / 4
    &&& forall|j: int|
        0 <= j < pre.clusters@[ci].chunks@.len() ==> #[trigger] post.clusters@[ci].chunks@[j]
            == pre.clusters@[ci].chunks@[j]
    &&& forall|j: int|
        pre.clusters@[ci].chunks@.len() <= j < post.clusters@[ci].chunks@.len() ==> (
        #[trigger] post.clusters@[ci].chunks@[j]).pair1_slots@.len() == 0
            && post.clusters@[ci].chunks@[j].pair2_slots@.len() == 0
    &&& post.all_proxies@.len() == pre.all_proxies@.len()
    &&& forall|p: int|
        0 <= p < post.all_proxies@.len() ==> (#[trigger] post.all_proxies@[p]).address
            == pre.all_proxies@[p].address && (post.all_proxies@[p].cluster
            == pre.all_proxies@[p].cluster || (pre.all_proxies@[p].is_free()
            && post.all_proxies@[p].bound_to(pre.clusters@[ci].name@)))
}


impl MetaStore {
    /// Pop the last chunk of cluster `ci` if both of its masters hold no
    /// ranges, freeing its two proxies.  Returns whether a chunk was
    /// removed.
    #[verifier::rlimit(100)]
    fn pop_free_chunk(&mut self, ci: usize) -> (r: bool)
        requires
            old(self).inv(),
            ci < old(self).clusters@.len(),
            old(self).clusters@[ci as int].chunks@.len() >= 2,
        ensures
            final(self).inv(),
            !r ==> *final(self) == *old(self),
            (old(self).clusters@[ci as int].chunks@.last().pair1_slots@.len() == 0 && old(
                self,
            ).clusters@[ci as int].chunks@.last().pair2_slots@.len() == 0) ==> r,
            r ==> !proxy_bound_any(
                final(self).all_proxies@,
                old(self).clusters@[ci as int].chunks@.last().first.address@,
            ) && !proxy_bound_any(
                final(self).all_proxies@,
                old(self).clusters@[ci as int].chunks@.last().second.address@,
            ),
            r ==> {
                &&& final(self).version == old(self).version
                &&& final(self).global_epoch == old(self).global_epoch
                &&& final(self).failures == old(self).failures
                &&& final(self).enable_ordered_proxy == old(self).enable_ordered_proxy
                &&& final(self).clusters@.len() == old(self).clusters@.len()
                &&& forall|i: int|
                    0 <= i < old(self).clusters@.len() && i != ci ==> #[trigger] final(self).clusters@[i]
                        == old(self).clusters@[i]
                &&& final(self).clusters@[ci as int].name == old(self).clusters@[ci as int].name
                &&& final(self).clusters@[ci as int].epoch == old(self).clusters@[ci as int].epoch
                &&& final(self).clusters@[ci as int].config == old(self).clusters@[ci as int].config
                &&& final(self).clusters@[ci as int].chunks@ == old(self).clusters@[ci as int].chunks@.drop_last()
                &&& final(self).all_proxies@.len() == old(self).all_proxies@.len()
                &&& forall|p: int|
                    0 <= p < old(self).all_proxies@.len() ==> (#[trigger] final(self).all_proxies@[p]).address
                        == old(self).all_proxies@[p].address && (final(self).all_proxies@[p].cluster
                        == old(self).all_proxies@[p].cluster || final(self).all_proxies@[p].is_free())
            },
    {
        let nchunks = self.clusters[ci].chunks.len();
        let last = nchunks - 1;
        if self.clusters[ci].chunks[last].pair1_slots.len() != 0
            || self.clusters[ci].chunks[last].pair2_slots.len() != 0 {
            return false;
        }
        if self.enable_ordered_proxy {
            // Keep the dense positional pairing intact: free the two
            // highest-indexed bound proxies, which are exactly this
            // chunk's.
        }
        let ghost pre = *self;
        let a1 = self.clusters[ci].chunks[last].first.address.clone();
        let a2 = self.clusters[ci].chunks[last].second.address.clone();
        match self.find_proxy_pos(&a1) {
            Some(p) => {
                let rec = &mut self.all_proxies[p];
                rec.cluster = None;
            },
            None => {},
        }
        match self.find_proxy_pos(&a2) {
            Some(p) => {
                let rec = &mut self.all_proxies[p];
                rec.cluster = None;
            },
            None => {},
        }
        let cl = &mut self.clusters[ci];
        let _popped = cl.chunks.pop();
        proof {
            let b = *self;
            let lastc = pre.clusters@[ci as int].chunks@[last as int];
            assert(b.clusters@[ci as int].chunks@ =~= pre.clusters@[ci as int].chunks@.drop_last());
            assert(b.proxies_unique()) by {
                assert forall|p1: int, p2: int|
                    0 <= p1 < b.all_proxies@.len() && 0 <= p2 < b.all_proxies@.len() && p1 != p2 implies (
                #[trigger] b.all_proxies@[p1]).address@ != (#[trigger] b.all_proxies@[p2]).address@ by {
                    assert(pre.all_proxies@[p1].address@ != pre.all_proxies@[p2].address@);
                }
            }
            assert(b.clusters_unique()) by {
                assert forall|i1: int, i2: int|
                    0 <= i1 < b.clusters@.len() && 0 <= i2 < b.clusters@.len() && i1 != i2 implies (
                #[trigger] b.clusters@[i1]).name@ != (#[trigger] b.clusters@[i2]).name@ by {
                    assert(b.clusters@[i1].name@ == pre.clusters@[i1].name@);
                    assert(b.clusters@[i2].name@ == pre.clusters@[i2].name@);
                    assert(pre.clusters@[i1].name@ != pre.clusters@[i2].name@);
                }
            }
            assert(b.clusters@[ci as int].wf()) by {
                assert(pre.clusters@[ci as int].wf());
                assert forall|j: int| 0 <= j < b.clusters@[ci as int].chunks@.len() implies (
                #[trigger] b.clusters@[ci as int].chunks@[j]).wf() by {
                    assert(b.clusters@[ci as int].chunks@[j] == pre.clusters@[ci as int].chunks@[j]);
                    assert(pre.clusters@[ci as int].chunks@[j].wf());
                }
                assert forall|s: int| 0 <= s < SLOT_MAX as int implies b.clusters@[ci as int].owns(
                    s,
                ) by {
                    assert(pre.clusters@[ci as int].owns(s));
                    let j = choose|j: int|
                        0 <= j < pre.clusters@[ci as int].chunks@.len() && (
                        #[trigger] pre.clusters@[ci as int].chunks@[j]).owns(s);
                    assert(j != last) by {
                        if j == last {
                            assert(lastc.pair1_slots@.len() == 0 && lastc.pair2_slots@.len() == 0);
                            assert(!lastc.owns(s));
                        }
                    }
                    assert(b.clusters@[ci as int].chunks@[j].owns(s));
                }
                assert forall|j1: int, j2: int, s: int|
                    0 <= j1 < b.clusters@[ci as int].chunks@.len() && 0 <= j2
                        < b.clusters@[ci as int].chunks@.len() && j1 != j2 implies !(
                #[trigger] b.clusters@[ci as int].chunks@[j1].owns(s)
                    && #[trigger] b.clusters@[ci as int].chunks@[j2].owns(s)) by {
                    if b.clusters@[ci as int].chunks@[j1].owns(s)
                        && b.clusters@[ci as int].chunks@[j2].owns(s) {
                        assert(pre.clusters@[ci as int].chunks@[j1].owns(s)
                            && pre.clusters@[ci as int].chunks@[j2].owns(s));
                    }
                }
            }
            assert(b.clusters_wf()) by {
                assert forall|i: int| 0 <= i < b.clusters@.len() implies (
                #[trigger] b.clusters@[i]).wf() && b.clusters@[i].epoch <= b.global_epoch by {
                    if i != ci {
                        assert(b.clusters@[i] == pre.clusters@[i]);
                        assert(pre.clusters@[i].wf() && pre.clusters@[i].epoch
                            <= pre.global_epoch);
                    } else {
                        assert(pre.clusters@[i].epoch <= pre.global_epoch);
                    }
                }
            }
            assert(b.chunk_proxies_bound()) by {
                assert forall|i: int, j: int|
                    0 <= i < b.clusters@.len() && 0 <= j < b.clusters@[i].chunks@.len() implies b.has_proxy_bound(
                    (#[trigger] b.clusters@[i].chunks@[j]).first.address@,
                    b.clusters@[i].name@,
                ) && b.has_proxy_bound(
                    b.clusters@[i].chunks@[j].second.address@,
                    b.clusters@[i].name@,
                ) by {
                    let cname = pre.clusters@[i].name@;
                    assert(pre.has_proxy_bound(pre.clusters@[i].chunks@[j].first.address@, cname));
                    assert(pre.has_proxy_bound(pre.clusters@[i].chunks@[j].second.address@, cname));
                    let w1 = choose|w: int|
                        0 <= w < pre.all_proxies@.len() && (#[trigger] pre.all_proxies@[w]).address@
                            == pre.clusters@[i].chunks@[j].first.address@
                            && pre.all_proxies@[w].bound_to(cname);
                    let w2 = choose|w: int|
                        0 <= w < pre.all_proxies@.len() && (#[trigger] pre.all_proxies@[w]).address@
                            == pre.clusters@[i].chunks@[j].second.address@
                            && pre.all_proxies@[w].bound_to(cname);
                    assert(pre.all_proxies@[w1].address@ != lastc.first.address@
                        && pre.all_proxies@[w1].address@ != lastc.second.address@) by {
                        if i != ci {
                            if pre.all_proxies@[w1].address@ == lastc.first.address@ {
                                assert(pre.has_proxy_bound(
                                    lastc.first.address@,
                                    pre.clusters@[ci as int].name@,
                                ));
                                let w3 = choose|w: int|
                                    0 <= w < pre.all_proxies@.len() && (
                                    #[trigger] pre.all_proxies@[w]).address@
                                        == lastc.first.address@ && pre.all_proxies@[w].bound_to(
                                        pre.clusters@[ci as int].name@,
                                    );
                                assert(w3 == w1);
                                assert(pre.clusters@[i].name@ != pre.clusters@[ci as int].name@);
                            }
                            if pre.all_proxies@[w1].address@ == lastc.second.address@ {
                                assert(pre.has_proxy_bound(
                                    lastc.second.address@,
                                    pre.clusters@[ci as int].name@,
                                ));
                                let w3 = choose|w: int|
                                    0 <= w < pre.all_proxies@.len() && (
                                    #[trigger] pre.all_proxies@[w]).address@
                                        == lastc.second.address@ && pre.all_proxies@[w].bound_to(
                                        pre.clusters@[ci as int].name@,
                                    );
                                assert(w3 == w1);
                                assert(pre.clusters@[i].name@ != pre.clusters@[ci as int].name@);
                            }
                        } else {
                            assert(j != last);
                            assert(pre.clusters@[ci as int].chunks@[j].first.address@
                                != lastc.first.address@ && pre.clusters@[ci as int].chunks@[j].first.address@
                                != lastc.second.address@);
                        }
                    }
                    assert(pre.all_proxies@[w2].address@ != lastc.first.address@
                        && pre.all_proxies@[w2].address@ != lastc.second.address@) by {
                        if i != ci {
                            if pre.all_proxies@[w2].address@ == lastc.first.address@ {
                                let w3 = choose|w: int|
                                    0 <= w < pre.all_proxies@.len() && (
                                    #[trigger] pre.all_proxies@[w]).address@
                                        == lastc.first.address@ && pre.all_proxies@[w].bound_to(
                                        pre.clusters@[ci as int].name@,
                                    );
                                assert(w3 == w2);
                                assert(pre.clusters@[i].name@ != pre.clusters@[ci as int].name@);
                            }
                            if pre.all_proxies@[w2].address@ == lastc.second.address@ {
                                let w3 = choose|w: int|
                                    0 <= w < pre.all_proxies@.len() && (
                                    #[trigger] pre.all_proxies@[w]).address@
                                        == lastc.second.address@ && pre.all_proxies@[w].bound_to(
                                        pre.clusters@[ci as int].name@,
                                    );
                                assert(w3 == w2);
                                assert(pre.clusters@[i].name@ != pre.clusters@[ci as int].name@);
                            }
                        } else {
                            assert(j != last);
                            assert(pre.clusters@[ci as int].chunks@[j].second.address@
                                != lastc.first.address@ && pre.clusters@[ci as int].chunks@[j].second.address@
                                != lastc.second.address@);
                        }
                    }
                    assert(b.all_proxies@[w1] == pre.all_proxies@[w1]);
                    assert(b.all_proxies@[w2] == pre.all_proxies@[w2]);
                }
            }
            assert(b.bindings_backed()) by {
                assert forall|w: int| 0 <= w < b.all_proxies@.len() implies ((
                #[trigger] b.all_proxies@[w]).cluster matches Some(nn) ==> b.appears_in_cluster(
                    b.all_proxies@[w].address@,
                    nn@,
                )) by {
                    if b.all_proxies@[w].cluster is Some {
                        let nn = b.all_proxies@[w].cluster->0;
                        assert(b.all_proxies@[w] == pre.all_proxies@[w]);
                        assert(pre.appears_in_cluster(pre.all_proxies@[w].address@, nn@));
                        let (i, j) = choose|i: int, j: int|
                            0 <= i < pre.clusters@.len() && 0 <= j < pre.clusters@[i].chunks@.len()
                                && pre.clusters@[i].name@ == nn@ && ((
                            #[trigger] pre.clusters@[i].chunks@[j]).first.address@
                                == pre.all_proxies@[w].address@
                                || pre.clusters@[i].chunks@[j].second.address@
                                == pre.all_proxies@[w].address@);
                        assert(!(i == ci && j == last)) by {
                            if i == ci && j == last {
                                assert(pre.has_proxy_bound(lastc.first.address@, nn@)
                                    || pre.has_proxy_bound(lastc.second.address@, nn@));
                                let wa = choose|w4: int|
                                    0 <= w4 < pre.all_proxies@.len() && (
                                    #[trigger] pre.all_proxies@[w4]).address@
                                        == pre.all_proxies@[w].address@
                                        && pre.all_proxies@[w4].bound_to(nn@);
                                assert(wa == w);
                                assert(b.all_proxies@[w].is_free());
                            }
                        }
                        assert(0 <= i < b.clusters@.len() && 0 <= j < b.clusters@[i].chunks@.len()
                            && b.clusters@[i].name@ == nn@ && ((
                        #[trigger] b.clusters@[i].chunks@[j]).first.address@
                            == b.all_proxies@[w].address@ || b.clusters@[i].chunks@[j].second.address@
                            == b.all_proxies@[w].address@)) by {
                            if i != ci {
                                assert(b.clusters@[i] == pre.clusters@[i]);
                            } else {
                                assert(b.clusters@[ci as int].chunks@[j]
                                    == pre.clusters@[ci as int].chunks@[j]);
                            }
                        }
                    }
                }
            }
            assert(b.clusters_chunk_addrs_unique()) by {
                assert forall|i: int, j1: int, j2: int|
                    0 <= i < b.clusters@.len() && 0 <= j1 < b.clusters@[i].chunks@.len() && 0 <= j2
                        < b.clusters@[i].chunks@.len() && j1 != j2 implies {
                    let c1 = #[trigger] b.clusters@[i].chunks@[j1];
                    let c2 = #[trigger] b.clusters@[i].chunks@[j2];
                    c1.first.address@ != c2.first.address@ && c1.first.address@
                        != c2.second.address@ && c1.second.address@ != c2.first.address@
                        && c1.second.address@ != c2.second.address@
                } by {
                    let a1 = pre.clusters@[i].chunks@[j1];
                    let a2 = pre.clusters@[i].chunks@[j2];
                    assert(a1.first.address@ != a2.first.address@ && a1.first.address@
                        != a2.second.address@ && a1.second.address@ != a2.first.address@
                        && a1.second.address@ != a2.second.address@);
                    assert(b.clusters@[i].chunks@[j1] == a1 && b.clusters@[i].chunks@[j2] == a2);
                }
            }
            assert(b.failures_wf()) by {
                assert(pre.failures_wf());
            }
            assert(b.ordered_wf()) by {
                if b.enable_ordered_proxy {
                    assert forall|w: int| 0 <= w < b.all_proxies@.len() implies (
                    #[trigger] b.all_proxies@[w]).index == Some(w as usize) by {
                        assert(pre.all_proxies@[w].index == Some(w as usize));
                    }
                    if b.clusters@.len() == 1 {
                        assert forall|j: int| 0 <= j < b.clusters@[0].chunks@.len() implies (
                        #[trigger] b.clusters@[0].chunks@[j]).first.address@ == b.all_proxies@[2
                            * j].address@ && b.clusters@[0].chunks@[j].second.address@
                            == b.all_proxies@[2 * j + 1].address@ by {
                            assert(b.clusters@[0].chunks@[j] == pre.clusters@[0].chunks@[j]);
                            assert(pre.clusters@[0].chunks@[j].first.address@ == pre.all_proxies@[2
                                * j].address@ && pre.clusters@[0].chunks@[j].second.address@
                                == pre.all_proxies@[2 * j + 1].address@);
                            assert(b.all_proxies@[2 * j].address == pre.all_proxies@[2 * j].address);
                            assert(b.all_proxies@[2 * j + 1].address == pre.all_proxies@[2 * j
                                + 1].address);
                        }
                    }
                }
            }
        }
        true
    }

    /// Remove the trailing slotless chunks of a cluster, freeing their
    /// proxies; at least one chunk always remains.
    pub fn audo_delete_free_nodes(&mut self, cluster_name: String) -> (r: Result<
        (),
        MetaStoreError,
    >)
        requires
            old(self).inv(),
            old(self).global_epoch < u64::MAX,
        ensures
            final(self).inv(),
            r is Err ==> *final(self) == *old(self),
            r == Err::<(), MetaStoreError>(MetaStoreError::ClusterNotFound) <==> !cluster_exists(
                old(self).clusters@,
                cluster_name@,
            ),
            r matches Err(e) ==> (e == MetaStoreError::ClusterNotFound || e
                == MetaStoreError::FreeNodeNotFound),
            forall|i: int|
                0 <= i < old(self).clusters@.len() && (#[trigger] old(self).clusters@[i]).name@
                    == cluster_name@ ==> {
                    &&& (r is Ok <==> old(self).clusters@[i].chunks@.len() >= 2 && old(
                        self,
                    ).clusters@[i].chunks@.last().pair1_slots@.len() == 0 && old(
                        self,
                    ).clusters@[i].chunks@.last().pair2_slots@.len() == 0)
                    &&& r is Ok ==> {
                        &&& final(self).clusters@[i].chunks@.len() < old(self).clusters@[i].chunks@.len()
                        &&& final(self).clusters@[i].chunks@.len() >= 1
                        &&& forall|j: int|
                            0 <= j < final(self).clusters@[i].chunks@.len()
                                ==> #[trigger] final(self).clusters@[i].chunks@[j] == old(self).clusters@[i].chunks@[j]
                        &&& final(self).clusters@[i].epoch == final(self).global_epoch
                    }
                },
            r is Ok ==> final(self).global_epoch == old(self).global_epoch + 1,
    {
        let ci = match self.find_cluster_pos(&cluster_name) {
            None => {
                return Err(MetaStoreError::ClusterNotFound);
            },
            Some(i) => i,
        };
        let ghost pre = *self;
        if self.clusters[ci].chunks.len() < 2 {
            return Err(MetaStoreError::FreeNodeNotFound);
        }
        {
            let last = self.clusters[ci].chunks.len() - 1;
            if self.clusters[ci].chunks[last].pair1_slots.len() != 0
                || self.clusters[ci].chunks[last].pair2_slots.len() != 0 {
                return Err(MetaStoreError::FreeNodeNotFound);
            }
        }
        let first_pop = self.pop_free_chunk(ci);
        proof {
            assert(first_pop);
        }
        let mut keep_going: bool = true;
        let mut fuel: usize = self.clusters[ci].chunks.len();
        while keep_going && fuel > 0
            invariant
                pre.inv(),
                self.inv(),
                ci < self.clusters@.len(),
                self.clusters@.len() == pre.clusters@.len(),
                self.global_epoch == pre.global_epoch,
                self.global_epoch < u64::MAX,
                self.clusters@[ci as int].epoch == pre.clusters@[ci as int].epoch,
                self.clusters@[ci as int].name@ == pre.clusters@[ci as int].name@,
                self.clusters@[ci as int].chunks@.len() >= 1,
                self.clusters@[ci as int].chunks@.len() < pre.clusters@[ci as int].chunks@.len(),
                forall|j: int|
                    0 <= j < self.clusters@[ci as int].chunks@.len() ==> #[trigger] self.clusters@[
                        ci as int
                    ].chunks@[j] == pre.clusters@[ci as int].chunks@[j],
            decreases fuel,
        {
            fuel = fuel - 1;
            if self.clusters[ci].chunks.len() < 2 {
                keep_going = false;
            } else {
                let popped = self.pop_free_chunk(ci);
                if !popped {
                    keep_going = false;
                }
            }
        }
        let ghost mid = *self;
        let new_epoch = self.global_epoch + 1;
        let cl = &mut self.clusters[ci];
        cl.epoch = new_epoch;
        self.global_epoch = new_epoch;
        proof {
            let b = *self;
            assert(same_memberships(mid, b)) by {
                assert forall|i: int| 0 <= i < mid.clusters@.len() implies (
                #[trigger] b.clusters@[i]).name@ == mid.clusters@[i].name@
                    && chunks_same_addresses(mid.clusters@[i].chunks@, b.clusters@[i].chunks@) by {
                    if i != ci {
                        assert(b.clusters@[i] == mid.clusters@[i]);
                    }
                }
            }
            assert forall|i: int| 0 <= i < b.clusters@.len() implies (#[trigger] b.clusters@[i]).wf()
                && b.clusters@[i].epoch <= b.global_epoch by {
                if i != ci {
                    assert(b.clusters@[i] == mid.clusters@[i]);
                    assert(mid.clusters@[i].wf() && mid.clusters@[i].epoch <= mid.global_epoch);
                } else {
                    assert(mid.clusters@[i].wf());
                    cluster_wf_depends_on_chunks_and_name(mid.clusters@[i], b.clusters@[i]);
                }
            }
            memberships_preserve_inv(mid, b);
        }
        Ok(())
    }

    /// Scale the cluster up to `cluster_node_num` nodes by adding free
    /// chunks.
    pub fn auto_scale_up_nodes(&mut self, cluster_name: String, cluster_node_num: usize) -> (r:
        Result<(), MetaStoreError>)
        requires
            old(self).inv(),
            old(self).global_epoch < u64::MAX,
        ensures
            final(self).inv(),
            r is Err ==> *final(self) == *old(self),
            r == Err::<(), MetaStoreError>(MetaStoreError::ClusterNotFound) <==> !cluster_exists(
                old(self).clusters@,
                cluster_name@,
            ),
            r matches Err(e) ==> (e == MetaStoreError::ClusterNotFound || e
                == MetaStoreError::MigrationRunning || e == MetaStoreError::InvalidNodeNum || e
                == MetaStoreError::NodeNumAlreadyEnough || e == MetaStoreError::NoAvailableResource),
            r == Err::<(), MetaStoreError>(MetaStoreError::InvalidNodeNum) <==> cluster_exists(
                old(self).clusters@,
                cluster_name@,
            ) && (cluster_node_num == 0 || cluster_node_num % 4 != 0),
            forall|i: int|
                0 <= i < old(self).clusters@.len() && (#[trigger] old(self).clusters@[i]).name@
                    == cluster_name@ && cluster_node_num != 0 && cluster_node_num % 4 == 0 ==> {
                    &&& (r == Err::<(), MetaStoreError>(MetaStoreError::NodeNumAlreadyEnough)
                        <==> old(self).clusters@[i].chunks@.len() > usize::MAX as int / 4
                        || cluster_node_num as int <= 4 * old(self).clusters@[i].chunks@.len())
                    &&& r is Ok ==> exists|d: usize|
                        4 * old(self).clusters@[i].chunks@.len() + d == cluster_node_num
                            && #[trigger] added_nodes_post(*old(self), *final(self), i, d)
                },
            r is Ok ==> final(self).global_epoch == old(self).global_epoch + 1,
    {
        let ci = match self.find_cluster_pos(&cluster_name) {
            None => {
                return Err(MetaStoreError::ClusterNotFound);
            },
            Some(i) => i,
        };
        if cluster_node_num == 0 || cluster_node_num % 4 != 0 {
            return Err(MetaStoreError::InvalidNodeNum);
        }
        let nchunks = self.clusters[ci].chunks.len();
        if nchunks > usize::MAX / 4 || cluster_node_num <= 4 * nchunks {
            return Err(MetaStoreError::NodeNumAlreadyEnough);
        }
        let delta = cluster_node_num - 4 * nchunks;
        proof {
            assert(delta % 4 == 0) by (nonlinear_arith)
                requires
                    cluster_node_num % 4 == 0,
                    delta == cluster_node_num - 4 * nchunks,
                    cluster_node_num >= 4 * nchunks,
            ;
        }
        match self.auto_add_nodes(cluster_name, delta) {
            Ok(()) => Ok(()),
            Err(e) => Err(e),
        }
    }

    /// First phase of the two-phase automatic scaling: adjust the chunk
    /// count and report what kind of scaling is under way, together with
    /// the proxies that must observe the new epoch before slots move.
    pub fn auto_change_node_number(&mut self, cluster_name: String, new_node_num: usize) -> (r:
        Result<(ScaleOp, Vec<String>, u64), MetaStoreError>)
        requires
            old(self).inv(),
            old(self).global_epoch < u64::MAX,
        ensures
            final(self).inv(),
            r is Err ==> *final(self) == *old(self),
            r == Err::<(ScaleOp, Vec<String>, u64), MetaStoreError>(MetaStoreError::ClusterNotFound)
                <==> !cluster_exists(old(self).clusters@, cluster_name@),
            forall|i: int|
                0 <= i < old(self).clusters@.len() && (#[trigger] old(self).clusters@[i]).name@
                    == cluster_name@ && old(self).clusters@[i].chunks@.len() <= usize::MAX as int
                    / 4 ==> (r matches Ok(t) ==> ((t.0 == ScaleOp::NoOp <==> new_node_num as int
                    == 4 * old(self).clusters@[i].chunks@.len()) && (t.0 == ScaleOp::ScaleDown
                    <==> (new_node_num as int) < 4 * old(self).clusters@[i].chunks@.len()) && (t.0
                    == ScaleOp::ScaleUp <==> (new_node_num as int) > 4 * old(
                    self,
                ).clusters@[i].chunks@.len()))),
            r matches Ok(t) && t.0 == ScaleOp::NoOp ==> *final(self) == *old(self),
            r matches Ok(t) && t.0 != ScaleOp::NoOp ==> final(self).global_epoch == old(
                self,
            ).global_epoch + 1,
    {
        let ci = match self.find_cluster_pos(&cluster_name) {
            None => {
                return Err(MetaStoreError::ClusterNotFound);
            },
            Some(i) => i,
        };
        let nchunks = self.clusters[ci].chunks.len();
        if nchunks > usize::MAX / 4 {
            return Err(MetaStoreError::InvalidNodeNum);
        }
        let current = 4 * nchunks;
        if new_node_num == current {
            let epoch = self.clusters[ci].epoch;
            return Ok((ScaleOp::NoOp, Vec::new(), epoch));
        }
        if new_node_num < current {
            match self.migrate_slots_to_scale_down(cluster_name, new_node_num) {
                Ok(()) => {
                    return Ok((ScaleOp::ScaleDown, Vec::new(), self.global_epoch));
                },
                Err(e) => {
                    return Err(e);
                },
            }
        }
        match self.auto_scale_up_nodes(cluster_name.clone(), new_node_num) {
            Ok(()) => {},
            Err(e) => {
                return Err(e);
            },
        }
        let mut addresses: Vec<String> = Vec::new();
        let n = self.clusters.len();
        let mut i: usize = 0;
        let mut epoch: u64 = self.global_epoch;
        while i < n
            invariant
                self.inv(),
                n == self.clusters@.len(),
                i <= n,
            decreases n - i,
        {
            if self.clusters[i].name == cluster_name {
                epoch = self.clusters[i].epoch;
                let m = self.clusters[i].chunks.len();
                let mut j: usize = 0;
                while j < m
                    invariant
                        self.inv(),
                        i < self.clusters@.len(),
                        m == self.clusters@[i as int].chunks@.len(),
                        j <= m,
                    decreases m - j,
                {
                    addresses.push(self.clusters[i].chunks[j].first.address.clone());
                    addresses.push(self.clusters[i].chunks[j].second.address.clone());
                    j = j + 1;
                }
            }
            i = i + 1;
        }
        Ok((ScaleOp::ScaleUp, addresses, epoch))
    }

    /// Second phase of the two-phase automatic scaling: move the slots to
    /// the chunks added by the first phase.
    pub fn auto_scale_out_node_number(&mut self, cluster_name: String, _new_node_num: usize) -> (r:
        Result<(), MetaStoreError>)
        requires
            old(self).inv(),
            old(self).global_epoch < u64::MAX,
        ensures
            final(self).inv(),
            r is Err ==> *final(self) == *old(self),
            r == Err::<(), MetaStoreError>(MetaStoreError::ClusterNotFound) <==> !cluster_exists(
                old(self).clusters@,
                cluster_name@,
            ),
            forall|i: int|
                0 <= i < old(self).clusters@.len() && (#[trigger] old(self).clusters@[i]).name@
                    == cluster_name@ ==> {
                    &&& (r == Err::<(), MetaStoreError>(MetaStoreError::MigrationRunning)
                        <==> cluster_has_tags(old(self).clusters@[i]))
                    &&& r is Ok ==> !cluster_has_tags(old(self).clusters@[i])
                        && cluster_has_empty_master(old(self).clusters@[i]) && migrate_slots_post(
                        *old(self),
                        *final(self),
                        i,
                    ) && cluster_has_tags(final(self).clusters@[i]) && cluster_tags_mirrored(
                        final(self).clusters@[i],
                    )
                },
    {
        self.migrate_slots(cluster_name)
    }
}


/// The chunk references this proxy address on either side.
pub open spec fn chunk_holds_addr(c: Chunk, a: Seq<char>) -> bool {
    c.first.address@ == a || c.second.address@ == a
}

/// The address of the chunk's other proxy.
pub open spec fn chunk_other_addr(c: Chunk, a: Seq<char>) -> Seq<char> {
    if c.first.address@ == a {
        c.second.address@
    } else {
        c.first.address@
    }
}

/// Some free proxy lives on a host other than the given one.
pub open spec fn spare_off_host(ps: Seq<ProxyResource>, h: Seq<char>) -> bool {
    exists|p: int|
        0 <= p < ps.len() && (#[trigger] ps[p]).is_free() && ps[p].host@ != h
}

/// The failed address sits in a chunk whose peer's registered host has no
/// free proxy off it: no suitable replacement.
pub open spec fn no_replacement_for(s: MetaStore, a: Seq<char>) -> bool {
    exists|i: int, j: int, q: int|
        0 <= i < s.clusters@.len() && 0 <= j < s.clusters@[i].chunks@.len() && chunk_holds_addr(
            #[trigger] s.clusters@[i].chunks@[j],
            a,
        ) && 0 <= q < s.all_proxies@.len() && (#[trigger] s.all_proxies@[q]).address@
            == chunk_other_addr(s.clusters@[i].chunks@[j], a) && !spare_off_host(
            s.all_proxies@,
            s.all_proxies@[q].host@,
        )
}

/// The replacement stands exactly where the failed proxy stood: same
/// chunk slot, same peer, same roles as the promoted layout, same slots,
/// and nothing else of the cluster map moved.
pub open spec fn replacement_in_place(
    pre: MetaStore,
    post: MetaStore,
    failed: Seq<char>,
    repl: Seq<char>,
) -> bool {
    exists|i: int, j: int|
        0 <= i < pre.clusters@.len() && 0 <= j < pre.clusters@[i].chunks@.len() && chunk_holds_addr(
            #[trigger] pre.clusters@[i].chunks@[j],
            failed,
        ) && post.clusters@.len() == pre.clusters@.len() && (forall|i2: int|
            0 <= i2 < pre.clusters@.len() && i2 != i ==> #[trigger] post.clusters@[i2]
                == pre.clusters@[i2]) && post.clusters@[i].name@ == pre.clusters@[i].name@
            && post.clusters@[i].chunks@.len() == pre.clusters@[i].chunks@.len() && (forall|
            j2: int,
        |
            0 <= j2 < pre.clusters@[i].chunks@.len() && j2 != j ==> #[trigger] post.clusters@[i].chunks@[j2]
                == pre.clusters@[i].chunks@[j2]) && chunk_holds_addr(
            post.clusters@[i].chunks@[j],
            repl,
        ) && chunk_other_addr(post.clusters@[i].chunks@[j], repl) == chunk_other_addr(
            pre.clusters@[i].chunks@[j],
            failed,
        ) && post.clusters@[i].chunks@[j].pair1_slots == pre.clusters@[i].chunks@[j].pair1_slots
            && post.clusters@[i].chunks@[j].pair2_slots == pre.clusters@[i].chunks@[j].pair2_slots
}

impl MetaStore {
    /// Swap a failed proxy out of its chunk for a free proxy on a host
    /// other than its peer's, promote the peer's nodes to masters, drop
    /// the failed proxy from the registry and bump the epochs.  Returns
    /// the replacement's address.  Refused under ordered mode, where the
    /// dense index sequence could not survive a swap.
    #[verifier::rlimit(100)]
    pub fn replace_failed_proxy(&mut self, failed_proxy_address: String) -> (r: Result<
        String,
        MetaStoreError,
    >)
        requires
            old(self).inv(),
            old(self).global_epoch < u64::MAX,
        ensures
            final(self).inv(),
            r is Err ==> *final(self) == *old(self),
            r == Err::<String, MetaStoreError>(MetaStoreError::OrderedProxyEnabled) <==> old(
                self,
            ).enable_ordered_proxy,
            r == Err::<String, MetaStoreError>(MetaStoreError::ProxyNotFound) <==> !old(
                self,
            ).enable_ordered_proxy && !proxy_registered(
                old(self).all_proxies@,
                failed_proxy_address@,
            ),
            r matches Err(e) ==> (e == MetaStoreError::OrderedProxyEnabled || e
                == MetaStoreError::ProxyNotFound || e == MetaStoreError::NotInUse || e
                == MetaStoreError::NoAvailableResource),
            r == Err::<String, MetaStoreError>(MetaStoreError::NotInUse) <==> !old(
                self,
            ).enable_ordered_proxy && proxy_registered(
                old(self).all_proxies@,
                failed_proxy_address@,
            ) && !proxy_bound_any(old(self).all_proxies@, failed_proxy_address@),
            r == Err::<String, MetaStoreError>(MetaStoreError::NoAvailableResource) <==> !old(
                self,
            ).enable_ordered_proxy && proxy_bound_any(
                old(self).all_proxies@,
                failed_proxy_address@,
            ) && no_replacement_for(*old(self), failed_proxy_address@),
            r matches Ok(repl) ==> {
                &&& final(self).global_epoch == old(self).global_epoch + 1
                &&& !proxy_registered(final(self).all_proxies@, failed_proxy_address@)
                &&& proxy_registered(final(self).all_proxies@, repl@)
                &&& proxy_bound_any(final(self).all_proxies@, repl@)
                &&& proxy_registered(old(self).all_proxies@, repl@)
                &&& !proxy_bound_any(old(self).all_proxies@, repl@)
                &&& replacement_in_place(*old(self), *final(self), failed_proxy_address@, repl@)
                &&& final(self).failures == old(self).failures
                &&& final(self).version == old(self).version
            },
    {
        if self.enable_ordered_proxy {
            return Err(MetaStoreError::OrderedProxyEnabled);
        }
        let p = match self.find_proxy_pos(&failed_proxy_address) {
            None => {
                return Err(MetaStoreError::ProxyNotFound);
            },
            Some(p) => p,
        };
        let name = match &self.all_proxies[p].cluster {
            None => {
                return Err(MetaStoreError::NotInUse);
            },
            Some(nm) => nm.clone(),
        };
        let ci = match self.find_cluster_pos(&name) {
            None => {
                proof {
                    assert(self.appears_in_cluster(self.all_proxies@[p as int].address@, name@));
                    let (i0, j0) = choose|i0: int, j0: int|
                        0 <= i0 < self.clusters@.len() && 0 <= j0
                            < self.clusters@[i0].chunks@.len() && self.clusters@[i0].name@ == name@
                            && ((#[trigger] self.clusters@[i0].chunks@[j0]).first.address@
                            == self.all_proxies@[p as int].address@
                            || self.clusters@[i0].chunks@[j0].second.address@
                            == self.all_proxies@[p as int].address@);
                    assert(self.clusters@[i0].name@ != name@);
                }
                return Err(MetaStoreError::ProxyNotFound);
            },
            Some(i) => i,
        };
        proof {
            assert(self.appears_in_cluster(self.all_proxies@[p as int].address@, name@));
        }
        let nchunks = self.clusters[ci].chunks.len();
        let mut hit: Option<(usize, bool)> = None;
        let mut j: usize = 0;
        while j < nchunks
            invariant
                self.inv(),
                ci < self.clusters@.len(),
                nchunks == self.clusters@[ci as int].chunks@.len(),
                j <= nchunks,
                hit matches Some((x, f)) ==> x < nchunks && (f
                    ==> self.clusters@[ci as int].chunks@[x as int].first.address@
                    == failed_proxy_address@) && (!f
                    ==> self.clusters@[ci as int].chunks@[x as int].second.address@
                    == failed_proxy_address@),
                hit is None ==> forall|j2: int|
                    0 <= j2 < j ==> (#[trigger] self.clusters@[ci as int].chunks@[j2]).first.address@
                        != failed_proxy_address@ && self.clusters@[ci as int].chunks@[j2].second.address@
                        != failed_proxy_address@,
            decreases nchunks - j,
        {
            if self.clusters[ci].chunks[j].first.address == failed_proxy_address {
                hit = Some((j, true));
                j = nchunks;
            } else if self.clusters[ci].chunks[j].second.address == failed_proxy_address {
                hit = Some((j, false));
                j = nchunks;
            } else {
                j = j + 1;
            }
        }
        let (cj, failed_is_first) = match hit {
            None => {
                proof {
                    let (i0, j0) = choose|i0: int, j0: int|
                        0 <= i0 < self.clusters@.len() && 0 <= j0
                            < self.clusters@[i0].chunks@.len() && self.clusters@[i0].name@ == name@
                            && ((#[trigger] self.clusters@[i0].chunks@[j0]).first.address@
                            == failed_proxy_address@ || self.clusters@[i0].chunks@[j0].second.address@
                            == failed_proxy_address@);
                    assert(i0 == ci as int);
                }
                return Err(MetaStoreError::NotInUse);
            },
            Some(t) => t,
        };
        let peer_address = if failed_is_first {
            self.clusters[ci].chunks[cj].second.address.clone()
        } else {
            self.clusters[ci].chunks[cj].first.address.clone()
        };
        let peer_idx = match self.find_proxy_pos(&peer_address) {
            None => {
                proof {
                    assert(self.clusters@[ci as int].wf());
                    assert(self.has_proxy_bound(peer_address@, name@));
                    let w = choose|w: int|
                        0 <= w < self.all_proxies@.len() && (#[trigger] self.all_proxies@[w]).address@
                            == peer_address@ && self.all_proxies@[w].bound_to(name@);
                }
                return Err(MetaStoreError::NotInUse);
            },
            Some(q) => q,
        };
        let n = self.all_proxies.len();
        let mut taken: Vec<bool> = Vec::new();
        let mut t: usize = 0;
        while t < n
            invariant
                t <= n,
                taken@.len() == t,
                forall|p2: int| 0 <= p2 < t ==> !(#[trigger] taken@[p2]),
            decreases n - t,
        {
            taken.push(false);
            t = t + 1;
        }
        let repl = match self.most_populated_avail(&taken, Some(peer_idx)) {
            None => {
                proof {
                    let a = failed_proxy_address@;
                    let ch = self.clusters@[ci as int].chunks@[cj as int];
                    assert(chunk_holds_addr(ch, a));
                    assert(self.all_proxies@[peer_idx as int].address@ == chunk_other_addr(ch, a))
                        by {
                        assert(self.clusters@[ci as int].wf());
                        assert(ch.wf());
                    }
                    assert(!spare_off_host(
                        self.all_proxies@,
                        self.all_proxies@[peer_idx as int].host@,
                    )) by {
                        if spare_off_host(
                            self.all_proxies@,
                            self.all_proxies@[peer_idx as int].host@,
                        ) {
                            let p2 = choose|p2: int|
                                0 <= p2 < self.all_proxies@.len() && (
                                #[trigger] self.all_proxies@[p2]).is_free()
                                    && self.all_proxies@[p2].host@
                                    != self.all_proxies@[peer_idx as int].host@;
                            assert(!taken@[p2]);
                        }
                    }
                    assert(no_replacement_for(*self, a));
                }
                return Err(MetaStoreError::NoAvailableResource);
            },
            Some(q) => q,
        };
        let ghost pre = *self;
        let repl_address = self.all_proxies[repl].address.clone();
        let new_proxy = ChunkProxy {
            address: self.all_proxies[repl].address.clone(),
            host: self.all_proxies[repl].host.clone(),
            node1: self.all_proxies[repl].node1.clone(),
            node2: self.all_proxies[repl].node2.clone(),
        };
        let new_epoch = self.global_epoch + 1;
        {
            let cl = &mut self.clusters[ci];
            let ch = &mut cl.chunks[cj];
            if failed_is_first {
                ch.first = new_proxy;
                ch.pair1_master_on_first = false;
                ch.pair2_master_on_second = true;
            } else {
                ch.second = new_proxy;
                ch.pair1_master_on_first = true;
                ch.pair2_master_on_second = false;
            }
        }
        {
            let name2 = name.clone();
            let rec = &mut self.all_proxies[repl];
            rec.cluster = Some(name2);
        }
        let _removed = self.all_proxies.remove(p);
        {
            let cl = &mut self.clusters[ci];
            cl.epoch = new_epoch;
        }
        self.global_epoch = new_epoch;
        proof {
            let b = *self;
            assert(p != repl && repl != peer_idx);
            assert(pre.all_proxies@[repl as int].is_free());
            assert(!pre.all_proxies@[p as int].is_free());
            let shift = |w: int| if w < p { w } else { w - 1 };
            assert(b.all_proxies@.len() == pre.all_proxies@.len() - 1);
            assert forall|w: int| 0 <= w < b.all_proxies@.len() implies #[trigger] b.all_proxies@[w]
                == (if (if w < p {
                w
            } else {
                w + 1
            }) == repl {
                b.all_proxies@[w]
            } else {
                pre.all_proxies@[if w < p {
                    w
                } else {
                    w + 1
                }]
            }) by {}
            assert(b.proxies_unique()) by {
                assert forall|p1: int, p2: int|
                    0 <= p1 < b.all_proxies@.len() && 0 <= p2 < b.all_proxies@.len() && p1 != p2 implies (
                #[trigger] b.all_proxies@[p1]).address@ != (#[trigger] b.all_proxies@[p2]).address@ by {
                    let q1: int = if p1 < p {
                        p1
                    } else {
                        p1 + 1
                    };
                    let q2: int = if p2 < p {
                        p2
                    } else {
                        p2 + 1
                    };
                    assert(b.all_proxies@[p1].address@ == pre.all_proxies@[q1].address@);
                    assert(b.all_proxies@[p2].address@ == pre.all_proxies@[q2].address@);
                    assert(pre.all_proxies@[q1].address@ != pre.all_proxies@[q2].address@);
                }
            }
            assert(!proxy_registered(b.all_proxies@, failed_proxy_address@)) by {
                if proxy_registered(b.all_proxies@, failed_proxy_address@) {
                    let w = choose|w: int|
                        0 <= w < b.all_proxies@.len() && (#[trigger] b.all_proxies@[w]).address@
                            == failed_proxy_address@;
                    let q: int = if w < p {
                        w
                    } else {
                        w + 1
                    };
                    assert(pre.all_proxies@[q].address@ == failed_proxy_address@);
                    assert(pre.all_proxies@[p as int].address@ == failed_proxy_address@);
                    assert(q != p);
                }
            }
            assert(proxy_registered(b.all_proxies@, repl_address@)) by {
                let w: int = if repl < p {
                    repl as int
                } else {
                    repl - 1
                };
                assert(b.all_proxies@[w].address@ == repl_address@);
            }
            let cpre = pre.clusters@[ci as int];
            let cb = b.clusters@[ci as int];
            assert(cb.wf()) by {
                assert(cpre.wf());
                assert forall|j2: int| 0 <= j2 < cb.chunks@.len() implies (
                #[trigger] cb.chunks@[j2]).wf() by {
                    assert(cpre.chunks@[j2].wf());
                    if j2 == cj {
                        assert(cb.chunks@[j2].pair1_slots == cpre.chunks@[j2].pair1_slots);
                        assert(cb.chunks@[j2].pair2_slots == cpre.chunks@[j2].pair2_slots);
                        assert(cb.chunks@[j2].first.address@ != cb.chunks@[j2].second.address@) by {
                            assert(pre.all_proxies@[repl as int].address@
                                != pre.all_proxies@[peer_idx as int].address@);
                            assert(pre.all_proxies@[peer_idx as int].address@ == peer_address@);
                        }
                    }
                }
                assert forall|s: int| 0 <= s < SLOT_MAX as int implies cb.owns(s) by {
                    assert(cpre.owns(s));
                    let j2 = choose|j2: int|
                        0 <= j2 < cpre.chunks@.len() && (#[trigger] cpre.chunks@[j2]).owns(s);
                    assert(cb.chunks@[j2].owns(s));
                }
                assert forall|j1: int, j2: int, s: int|
                    0 <= j1 < cb.chunks@.len() && 0 <= j2 < cb.chunks@.len() && j1 != j2 implies !(
                #[trigger] cb.chunks@[j1].owns(s) && #[trigger] cb.chunks@[j2].owns(s)) by {
                    if cb.chunks@[j1].owns(s) && cb.chunks@[j2].owns(s) {
                        assert(cpre.chunks@[j1].owns(s) && cpre.chunks@[j2].owns(s));
                    }
                }
            }
            assert(b.clusters_unique()) by {
                assert forall|i1: int, i2: int|
                    0 <= i1 < b.clusters@.len() && 0 <= i2 < b.clusters@.len() && i1 != i2 implies (
                #[trigger] b.clusters@[i1]).name@ != (#[trigger] b.clusters@[i2]).name@ by {
                    assert(b.clusters@[i1].name@ == pre.clusters@[i1].name@);
                    assert(b.clusters@[i2].name@ == pre.clusters@[i2].name@);
                    assert(pre.clusters@[i1].name@ != pre.clusters@[i2].name@);
                }
            }
            assert(b.clusters_wf()) by {
                assert forall|i: int| 0 <= i < b.clusters@.len() implies (
                #[trigger] b.clusters@[i]).wf() && b.clusters@[i].epoch <= b.global_epoch by {
                    if i != ci {
                        assert(b.clusters@[i] == pre.clusters@[i]);
                        assert(pre.clusters@[i].wf() && pre.clusters@[i].epoch
                            <= pre.global_epoch);
                    }
                }
            }
            assert(b.clusters_chunk_addrs_unique()) by {
                assert forall|i: int, j1: int, j2: int|
                    0 <= i < b.clusters@.len() && 0 <= j1 < b.clusters@[i].chunks@.len() && 0 <= j2
                        < b.clusters@[i].chunks@.len() && j1 != j2 implies {
                    let c1 = #[trigger] b.clusters@[i].chunks@[j1];
                    let c2 = #[trigger] b.clusters@[i].chunks@[j2];
                    c1.first.address@ != c2.first.address@ && c1.first.address@
                        != c2.second.address@ && c1.second.address@ != c2.first.address@
                        && c1.second.address@ != c2.second.address@
                } by {
                    let a1 = pre.clusters@[i].chunks@[j1];
                    let a2 = pre.clusters@[i].chunks@[j2];
                    assert(a1.first.address@ != a2.first.address@ && a1.first.address@
                        != a2.second.address@ && a1.second.address@ != a2.first.address@
                        && a1.second.address@ != a2.second.address@);
                    if i == ci && (j1 == cj || j2 == cj) {
                        let jo: int = if j1 == cj {
                            j2
                        } else {
                            j1
                        };
                        assert(pre.has_proxy_bound(
                            pre.clusters@[ci as int].chunks@[jo].first.address@,
                            name@,
                        ));
                        assert(pre.has_proxy_bound(
                            pre.clusters@[ci as int].chunks@[jo].second.address@,
                            name@,
                        ));
                        let w1 = choose|w: int|
                            0 <= w < pre.all_proxies@.len() && (
                            #[trigger] pre.all_proxies@[w]).address@
                                == pre.clusters@[ci as int].chunks@[jo].first.address@
                                && pre.all_proxies@[w].bound_to(name@);
                        let w2 = choose|w: int|
                            0 <= w < pre.all_proxies@.len() && (
                            #[trigger] pre.all_proxies@[w]).address@
                                == pre.clusters@[ci as int].chunks@[jo].second.address@
                                && pre.all_proxies@[w].bound_to(name@);
                        assert(w1 != repl && w2 != repl);
                        assert(pre.all_proxies@[w1].address@
                            != pre.all_proxies@[repl as int].address@);
                        assert(pre.all_proxies@[w2].address@
                            != pre.all_proxies@[repl as int].address@);
                    }
                }
            }
            assert(b.chunk_proxies_bound()) by {
                assert forall|i: int, j2: int|
                    0 <= i < b.clusters@.len() && 0 <= j2 < b.clusters@[i].chunks@.len() implies b.has_proxy_bound(
                    (#[trigger] b.clusters@[i].chunks@[j2]).first.address@,
                    b.clusters@[i].name@,
                ) && b.has_proxy_bound(
                    b.clusters@[i].chunks@[j2].second.address@,
                    b.clusters@[i].name@,
                ) by {
                    let cname = pre.clusters@[i].name@;
                    if i == ci && j2 == cj {
                        let wr: int = if repl < p {
                            repl as int
                        } else {
                            repl - 1
                        };
                        assert(b.all_proxies@[wr].address@ == repl_address@);
                        assert(b.all_proxies@[wr].bound_to(name@));
                        let wpq: int = if peer_idx < p {
                            peer_idx as int
                        } else {
                            peer_idx - 1
                        };
                        assert(peer_idx != p);
                        assert(b.all_proxies@[wpq].address@ == peer_address@);
                        assert(pre.all_proxies@[peer_idx as int].bound_to(name@)) by {
                            assert(pre.has_proxy_bound(peer_address@, name@));
                            let w = choose|w: int|
                                0 <= w < pre.all_proxies@.len() && (
                                #[trigger] pre.all_proxies@[w]).address@ == peer_address@
                                    && pre.all_proxies@[w].bound_to(name@);
                            assert(w == peer_idx);
                        }
                        assert(b.all_proxies@[wpq].bound_to(name@));
                        assert(b.clusters@[i].chunks@[j2].first.address@ == if failed_is_first {
                            repl_address@
                        } else {
                            peer_address@
                        });
                        assert(b.clusters@[i].chunks@[j2].second.address@ == if failed_is_first {
                            peer_address@
                        } else {
                            repl_address@
                        });
                    } else {
                        assert(b.clusters@[i].chunks@[j2].first.address@
                            == pre.clusters@[i].chunks@[j2].first.address@);
                        assert(b.clusters@[i].chunks@[j2].second.address@
                            == pre.clusters@[i].chunks@[j2].second.address@);
                        assert(pre.has_proxy_bound(
                            pre.clusters@[i].chunks@[j2].first.address@,
                            cname,
                        ));
                        assert(pre.has_proxy_bound(
                            pre.clusters@[i].chunks@[j2].second.address@,
                            cname,
                        ));
                        let w1 = choose|w: int|
                            0 <= w < pre.all_proxies@.len() && (
                            #[trigger] pre.all_proxies@[w]).address@
                                == pre.clusters@[i].chunks@[j2].first.address@
                                && pre.all_proxies@[w].bound_to(cname);
                        let w2 = choose|w: int|
                            0 <= w < pre.all_proxies@.len() && (
                            #[trigger] pre.all_proxies@[w]).address@
                                == pre.clusters@[i].chunks@[j2].second.address@
                                && pre.all_proxies@[w].bound_to(cname);
                        assert(w1 != p && w2 != p) by {
                            if w1 == p {
                                assert(i == ci && j2 == cj) by {
                                    assert(pre.all_proxies@[p as int].bound_to(name@));
                                    assert(cname == name@);
                                    assert(pre.clusters@[i].chunks@[j2].first.address@
                                        == failed_proxy_address@);
                                    if i != ci {
                                        assert(pre.clusters@[i].name@
                                            != pre.clusters@[ci as int].name@);
                                    } else if j2 != cj {
                                        let ccj = pre.clusters@[ci as int].chunks@[cj as int];
                                        let co = pre.clusters@[ci as int].chunks@[j2];
                                        assert(co.first.address@ != ccj.first.address@
                                            && co.first.address@ != ccj.second.address@);
                                    }
                                }
                            }
                            if w2 == p {
                                assert(i == ci && j2 == cj) by {
                                    assert(pre.all_proxies@[p as int].bound_to(name@));
                                    assert(cname == name@);
                                    assert(pre.clusters@[i].chunks@[j2].second.address@
                                        == failed_proxy_address@);
                                    if i != ci {
                                        assert(pre.clusters@[i].name@
                                            != pre.clusters@[ci as int].name@);
                                    } else if j2 != cj {
                                        let ccj = pre.clusters@[ci as int].chunks@[cj as int];
                                        let co = pre.clusters@[ci as int].chunks@[j2];
                                        assert(co.second.address@ != ccj.first.address@
                                            && co.second.address@ != ccj.second.address@);
                                    }
                                }
                            }
                        }
                        let v1: int = if w1 < p {
                            w1
                        } else {
                            w1 - 1
                        };
                        let v2: int = if w2 < p {
                            w2
                        } else {
                            w2 - 1
                        };
                        assert(b.all_proxies@[v1].address@ == pre.all_proxies@[w1].address@
                            && (b.all_proxies@[v1].cluster == pre.all_proxies@[w1].cluster || w1
                            == repl));
                        assert(b.all_proxies@[v2].address@ == pre.all_proxies@[w2].address@
                            && (b.all_proxies@[v2].cluster == pre.all_proxies@[w2].cluster || w2
                            == repl));
                        assert(w1 != repl && w2 != repl) by {
                            if w1 == repl as int {
                                assert(pre.all_proxies@[repl as int].is_free());
                            }
                            if w2 == repl as int {
                                assert(pre.all_proxies@[repl as int].is_free());
                            }
                        }
                    }
                }
            }
            assert(b.bindings_backed()) by {
                assert forall|w: int| 0 <= w < b.all_proxies@.len() implies ((
                #[trigger] b.all_proxies@[w]).cluster matches Some(nn) ==> b.appears_in_cluster(
                    b.all_proxies@[w].address@,
                    nn@,
                )) by {
                    if b.all_proxies@[w].cluster is Some {
                        let nn = b.all_proxies@[w].cluster->0;
                        let q: int = if w < p {
                            w
                        } else {
                            w + 1
                        };
                        if q == repl as int {
                            assert(nn@ == name@);
                            assert(b.all_proxies@[w].address@ == repl_address@);
                            assert(b.clusters@[ci as int].name@ == name@);
                            assert((b.clusters@[ci as int].chunks@[cj as int]).first.address@
                                == repl_address@ || b.clusters@[ci as int].chunks@[cj as int].second.address@
                                == repl_address@);
                            assert(b.appears_in_cluster(b.all_proxies@[w].address@, nn@));
                        } else {
                            assert(b.all_proxies@[w] == pre.all_proxies@[q]);
                            assert(pre.appears_in_cluster(pre.all_proxies@[q].address@, nn@));
                            let (i0, j0) = choose|i0: int, j0: int|
                                0 <= i0 < pre.clusters@.len() && 0 <= j0
                                    < pre.clusters@[i0].chunks@.len() && pre.clusters@[i0].name@
                                    == nn@ && ((#[trigger] pre.clusters@[i0].chunks@[j0]).first.address@
                                    == pre.all_proxies@[q].address@
                                    || pre.clusters@[i0].chunks@[j0].second.address@
                                    == pre.all_proxies@[q].address@);
                            assert(b.clusters@[i0].name@ == nn@);
                            if i0 == ci && j0 == cj {
                                assert(pre.all_proxies@[q].address@ == failed_proxy_address@ ==> q
                                    == p);
                                assert(pre.all_proxies@[q].address@ != failed_proxy_address@);
                                assert(b.clusters@[i0].chunks@[j0].first.address@ == if failed_is_first {
                                    repl_address@
                                } else {
                                    pre.clusters@[i0].chunks@[j0].first.address@
                                });
                                assert(b.clusters@[i0].chunks@[j0].second.address@
                                    == if failed_is_first {
                                    pre.clusters@[i0].chunks@[j0].second.address@
                                } else {
                                    repl_address@
                                });
                                assert(b.appears_in_cluster(b.all_proxies@[w].address@, nn@));
                            } else {
                                assert(b.clusters@[i0].chunks@[j0].first.address@
                                    == pre.clusters@[i0].chunks@[j0].first.address@
                                    && b.clusters@[i0].chunks@[j0].second.address@
                                    == pre.clusters@[i0].chunks@[j0].second.address@);
                                assert(b.appears_in_cluster(b.all_proxies@[w].address@, nn@));
                            }
                        }
                    }
                }
            }
            assert(b.failures_wf()) by {
                assert(pre.failures_wf());
            }
            assert(b.ordered_wf());
        }
        Ok(repl_address)
    }
}


/// The four outward nodes of one chunk: for each replication pair the
/// master node first, carrying the pair's slots, then its replica on the
/// other proxy, carrying none.
pub open spec fn chunk_nodes_ok(
    ch: Chunk,
    cname: Seq<char>,
    n0: crate::cluster::Node,
    n1: crate::cluster::Node,
    n2: crate::cluster::Node,
    n3: crate::cluster::Node,
) -> bool {
    &&& (ch.pair1_master_on_first ==> n0.spec_address()@ == ch.first.node1@
        && n0.spec_proxy_address()@ == ch.first.address@ && n1.spec_address()@ == ch.second.node2@
        && n1.spec_proxy_address()@ == ch.second.address@)
    &&& (!ch.pair1_master_on_first ==> n0.spec_address()@ == ch.second.node2@
        && n0.spec_proxy_address()@ == ch.second.address@ && n1.spec_address()@ == ch.first.node1@
        && n1.spec_proxy_address()@ == ch.first.address@)
    &&& (ch.pair2_master_on_second ==> n2.spec_address()@ == ch.second.node1@
        && n2.spec_proxy_address()@ == ch.second.address@ && n3.spec_address()@ == ch.first.node2@
        && n3.spec_proxy_address()@ == ch.first.address@)
    &&& (!ch.pair2_master_on_second ==> n2.spec_address()@ == ch.first.node2@
        && n2.spec_proxy_address()@ == ch.first.address@ && n3.spec_address()@ == ch.second.node1@
        && n3.spec_proxy_address()@ == ch.second.address@)
    &&& same_range_seq(n0.spec_slots()@, ch.pair1_slots@)
    &&& same_range_seq(n2.spec_slots()@, ch.pair2_slots@)
    &&& n1.spec_slots()@.len() == 0
    &&& n3.spec_slots()@.len() == 0
    &&& n0.spec_cluster_name()@ == cname
    &&& n1.spec_cluster_name()@ == cname
    &&& n2.spec_cluster_name()@ == cname
    &&& n3.spec_cluster_name()@ == cname
}

impl MetaStore {
    /// The outward view of a cluster: four nodes per chunk, the slots of
    /// each replication pair attached to its master node.
    pub fn get_cluster_by_name(&self, name: &String) -> (r: Option<crate::cluster::Cluster>)
        requires
            self.inv(),
        ensures
            r is Some <==> cluster_exists(self.clusters@, name@),
            r matches Some(c) ==> exists|i: int|
                0 <= i < self.clusters@.len() && (#[trigger] self.clusters@[i]).name@ == name@
                    && c.spec_name()@ == name@ && c.spec_epoch() == self.clusters@[i].epoch
                    && c.spec_nodes()@.len() == 4 * self.clusters@[i].chunks@.len() && (forall|
                    j: int,
                |
                    0 <= j < self.clusters@[i].chunks@.len() ==> chunk_nodes_ok(
                        #[trigger] self.clusters@[i].chunks@[j],
                        name@,
                        c.spec_nodes()@[4 * j],
                        c.spec_nodes()@[4 * j + 1],
                        c.spec_nodes()@[4 * j + 2],
                        c.spec_nodes()@[4 * j + 3],
                    )),
    {
        let i = match self.find_cluster_pos(name) {
            None => {
                return None;
            },
            Some(i) => i,
        };
        let nchunks = self.clusters[i].chunks.len();
        let mut nodes: Vec<crate::cluster::Node> = Vec::new();
        let mut j: usize = 0;
        while j < nchunks
            invariant
                self.inv(),
                i < self.clusters@.len(),
                self.clusters@[i as int].name@ == name@,
                nchunks == self.clusters@[i as int].chunks@.len(),
                j <= nchunks,
                nodes@.len() == 4 * j,
                forall|j2: int|
                    0 <= j2 < j ==> chunk_nodes_ok(
                        #[trigger] self.clusters@[i as int].chunks@[j2],
                        name@,
                        nodes@[4 * j2],
                        nodes@[4 * j2 + 1],
                        nodes@[4 * j2 + 2],
                        nodes@[4 * j2 + 3],
                    ),
            decreases nchunks - j,
        {
            let empty1: Vec<SlotRange> = Vec::new();
            let empty2: Vec<SlotRange> = Vec::new();
            let mut p1_slots: Vec<SlotRange> = Vec::new();
            let m1 = self.clusters[i].chunks[j].pair1_slots.len();
            let mut k: usize = 0;
            while k < m1
                invariant
                    i < self.clusters@.len(),
                    j < self.clusters@[i as int].chunks@.len(),
                    m1 == self.clusters@[i as int].chunks@[j as int].pair1_slots@.len(),
                    k <= m1,
                    p1_slots@.len() == k,
                    forall|x: int|
                        0 <= x < k ==> (#[trigger] p1_slots@[x]).same(
                            self.clusters@[i as int].chunks@[j as int].pair1_slots@[x],
                        ),
                decreases m1 - k,
            {
                p1_slots.push(self.clusters[i].chunks[j].pair1_slots[k].duplicate());
                k = k + 1;
            }
            let mut p2_slots: Vec<SlotRange> = Vec::new();
            let m2 = self.clusters[i].chunks[j].pair2_slots.len();
            let mut k2: usize = 0;
            while k2 < m2
                invariant
                    i < self.clusters@.len(),
                    j < self.clusters@[i as int].chunks@.len(),
                    m2 == self.clusters@[i as int].chunks@[j as int].pair2_slots@.len(),
                    k2 <= m2,
                    p2_slots@.len() == k2,
                    forall|x: int|
                        0 <= x < k2 ==> (#[trigger] p2_slots@[x]).same(
                            self.clusters@[i as int].chunks@[j as int].pair2_slots@[x],
                        ),
                decreases m2 - k2,
            {
                p2_slots.push(self.clusters[i].chunks[j].pair2_slots[k2].duplicate());
                k2 = k2 + 1;
            }
            let ch = &self.clusters[i].chunks[j];
            let cname = self.clusters[i].name.clone();
            // Pair one: master and replica, then pair two.
            let (n1, n2) = if ch.pair1_master_on_first {
                (
                    crate::cluster::Node::new(
                        ch.first.node1.clone(),
                        ch.first.address.clone(),
                        cname.clone(),
                        p1_slots,
                    ),
                    crate::cluster::Node::new(
                        ch.second.node2.clone(),
                        ch.second.address.clone(),
                        cname.clone(),
                        empty1,
                    ),
                )
            } else {
                (
                    crate::cluster::Node::new(
                        ch.second.node2.clone(),
                        ch.second.address.clone(),
                        cname.clone(),
                        p1_slots,
                    ),
                    crate::cluster::Node::new(
                        ch.first.node1.clone(),
                        ch.first.address.clone(),
                        cname.clone(),
                        empty1,
                    ),
                )
            };
            let (n3, n4) = if ch.pair2_master_on_second {
                (
                    crate::cluster::Node::new(
                        ch.second.node1.clone(),
                        ch.second.address.clone(),
                        cname.clone(),
                        p2_slots,
                    ),
                    crate::cluster::Node::new(
                        ch.first.node2.clone(),
                        ch.first.address.clone(),
                        cname.clone(),
                        empty2,
                    ),
                )
            } else {
                (
                    crate::cluster::Node::new(
                        ch.first.node2.clone(),
                        ch.first.address.clone(),
                        cname.clone(),
                        p2_slots,
                    ),
                    crate::cluster::Node::new(
                        ch.second.node1.clone(),
                        ch.second.address.clone(),
                        cname.clone(),
                        empty2,
                    ),
                )
            };
            let ghost nodes_before = nodes@;
            nodes.push(n1);
            nodes.push(n2);
            nodes.push(n3);
            nodes.push(n4);
            proof {
                assert forall|j2: int| 0 <= j2 < j + 1 implies chunk_nodes_ok(
                    #[trigger] self.clusters@[i as int].chunks@[j2],
                    name@,
                    nodes@[4 * j2],
                    nodes@[4 * j2 + 1],
                    nodes@[4 * j2 + 2],
                    nodes@[4 * j2 + 3],
                ) by {
                    if j2 < j {
                        assert(nodes@[4 * j2] == nodes_before[4 * j2]);
                        assert(nodes@[4 * j2 + 1] == nodes_before[4 * j2 + 1]);
                        assert(nodes@[4 * j2 + 2] == nodes_before[4 * j2 + 2]);
                        assert(nodes@[4 * j2 + 3] == nodes_before[4 * j2 + 3]);
                    } else {
                        assert(nodes@[4 * j2] == n1 && nodes@[4 * j2 + 1] == n2 && nodes@[4 * j2
                            + 2] == n3 && nodes@[4 * j2 + 3] == n4);
                        assert(same_range_seq(
                            n1.spec_slots()@,
                            self.clusters@[i as int].chunks@[j2].pair1_slots@,
                        ));
                        assert(same_range_seq(
                            n3.spec_slots()@,
                            self.clusters@[i as int].chunks@[j2].pair2_slots@,
                        ));
                    }
                }
            }
            j = j + 1;
        }
        Some(crate::cluster::Cluster::new(self.clusters[i].name.clone(), self.clusters[i].epoch, nodes))

    }
}


/// The single-slot, non-queueing lock that serializes scaling: taking it
/// while held fails immediately, which the callers surface as
/// `NodeNumberChanging`.
#[derive(Clone, Copy, Debug, PartialEq, Eq, Structural)]
pub struct ScaleLock {
    pub held: bool,
}

impl ScaleLock {
    pub fn new() -> (r: ScaleLock)
        ensures
            !r.held,
    {
        ScaleLock { held: false }
    }

    /// Take the lock; of two attempts on a free lock, exactly the first
    /// succeeds.
    pub fn try_lock(&mut self) -> (r: bool)
        ensures
            r == !old(self).held,
            final(self).held,
    {
        let was_held = self.held;
        self.held = true;
        !was_held
    }

    pub fn unlock(&mut self)
        ensures
            !final(self).held,
    {
        self.held = false;
    }
}

} // verus!
