//! The resource checker: which hosts the fleet could not afford to lose,
//! because some bound proxy on them has no host-diverse spare left.

use vstd::prelude::*;

use crate::store::MetaStore;

verus! {

/// Some free proxy lives on a host other than the two given ones.
pub open spec fn diverse_spare_exists(s: MetaStore, h: Seq<char>, peer: Seq<char>) -> bool {
    exists|p: int|
        0 <= p < s.all_proxies@.len() && (#[trigger] s.all_proxies@[p]).is_free()
            && s.all_proxies@[p].host@ != h && s.all_proxies@[p].host@ != peer
}

/// Losing host `h` would strand some chunk: one of its proxies lives on
/// `h` and no spare off `h` and off the peer's host is free.
pub open spec fn host_cannot_fail(s: MetaStore, h: Seq<char>) -> bool {
    exists|i: int, j: int|
        0 <= i < s.clusters@.len() && 0 <= j < s.clusters@[i].chunks@.len() && ({
            let ch = #[trigger] s.clusters@[i].chunks@[j];
            (ch.first.host@ == h && !diverse_spare_exists(s, h, ch.second.host@))
                || (ch.second.host@ == h && !diverse_spare_exists(s, h, ch.first.host@))
        })
}

/// The host stands somewhere in the list.
pub open spec fn host_listed(l: Seq<String>, h: Seq<char>) -> bool {
    exists|k: int| 0 <= k < l.len() && (#[trigger] l[k])@ == h
}

/// Audits the free pool against single-host failures.
pub struct ResourceChecker {
    pub store: MetaStore,
}

impl ResourceChecker {
    pub fn new(store: MetaStore) -> (r: ResourceChecker)
        ensures
            r.store == store,
    {
        ResourceChecker { store }
    }

    /// Decides `diverse_spare_exists`.
    fn spare_available(&self, h: &String, peer: &String) -> (r: bool)
        ensures
            r == diverse_spare_exists(self.store, h@, peer@),
    {
        let n = self.store.all_proxies.len();
        let mut p: usize = 0;
        while p < n
            invariant
                n == self.store.all_proxies@.len(),
                p <= n,
                forall|p2: int|
                    0 <= p2 < p ==> !((#[trigger] self.store.all_proxies@[p2]).is_free()
                        && self.store.all_proxies@[p2].host@ != h@
                        && self.store.all_proxies@[p2].host@ != peer@),
            decreases n - p,
        {
            let rec = &self.store.all_proxies[p];
            if rec.cluster.is_none() && rec.host != *h && rec.host != *peer {
                return true;
            }
            p = p + 1;
        }
        false
    }

    /// Every host that the fleet cannot afford to lose, each once.
    #[verifier::rlimit(100)]
    pub fn check_failure_tolerance(&self) -> (r: Vec<String>)
        ensures
            forall|k: int| 0 <= k < r@.len() ==> host_cannot_fail(self.store, (#[trigger] r@[k])@),
            forall|i: int, j: int|
                0 <= i < self.store.clusters@.len() && 0 <= j < self.store.clusters@[i].chunks@.len()
                    ==> {
                    let ch = #[trigger] self.store.clusters@[i].chunks@[j];
                    &&& (!diverse_spare_exists(self.store, ch.first.host@, ch.second.host@)
                        ==> host_listed(r@, ch.first.host@))
                    &&& (!diverse_spare_exists(self.store, ch.second.host@, ch.first.host@)
                        ==> host_listed(r@, ch.second.host@))
                },
            forall|k1: int, k2: int|
                0 <= k1 < r@.len() && 0 <= k2 < r@.len() && k1 != k2 ==> (#[trigger] r@[k1])@ != (
                #[trigger] r@[k2])@,
    {
        let n = self.store.clusters.len();
        let mut result: Vec<String> = Vec::new();
        let mut i: usize = 0;
        while i < n
            invariant
                n == self.store.clusters@.len(),
                i <= n,
                forall|k: int|
                    0 <= k < result@.len() ==> host_cannot_fail(
                        self.store,
                        (#[trigger] result@[k])@,
                    ),
                forall|i2: int, j2: int|
                    0 <= i2 < i && 0 <= j2 < self.store.clusters@[i2].chunks@.len()
                        ==> {
                        let ch = #[trigger] self.store.clusters@[i2].chunks@[j2];
                        &&& (!diverse_spare_exists(self.store, ch.first.host@, ch.second.host@)
                            ==> host_listed(result@, ch.first.host@))
                        &&& (!diverse_spare_exists(self.store, ch.second.host@, ch.first.host@)
                            ==> host_listed(result@, ch.second.host@))
                    },
                forall|k1: int, k2: int|
                    0 <= k1 < result@.len() && 0 <= k2 < result@.len() && k1 != k2 ==> (
                    #[trigger] result@[k1])@ != (#[trigger] result@[k2])@,
            decreases n - i,
        {
            let m = self.store.clusters[i].chunks.len();
            let mut j: usize = 0;
            while j < m
                invariant
                    n == self.store.clusters@.len(),
                    i < n,
                    m == self.store.clusters@[i as int].chunks@.len(),
                    j <= m,
                    forall|k: int|
                        0 <= k < result@.len() ==> host_cannot_fail(
                            self.store,
                            (#[trigger] result@[k])@,
                        ),
                    forall|i2: int, j2: int|
                        0 <= i2 < i && 0 <= j2 < self.store.clusters@[i2].chunks@.len()
                            ==> {
                            let ch = #[trigger] self.store.clusters@[i2].chunks@[j2];
                            &&& (!diverse_spare_exists(self.store, ch.first.host@, ch.second.host@)
                                ==> host_listed(result@, ch.first.host@))
                            &&& (!diverse_spare_exists(self.store, ch.second.host@, ch.first.host@)
                                ==> host_listed(result@, ch.second.host@))
                        },
                    forall|j2: int|
                        0 <= j2 < j ==> {
                            let ch = #[trigger] self.store.clusters@[i as int].chunks@[j2];
                            &&& (!diverse_spare_exists(self.store, ch.first.host@, ch.second.host@)
                                ==> host_listed(result@, ch.first.host@))
                            &&& (!diverse_spare_exists(self.store, ch.second.host@, ch.first.host@)
                                ==> host_listed(result@, ch.second.host@))
                        },
                    forall|k1: int, k2: int|
                        0 <= k1 < result@.len() && 0 <= k2 < result@.len() && k1 != k2 ==> (
                        #[trigger] result@[k1])@ != (#[trigger] result@[k2])@,
                decreases m - j,
            {
                let first_host = self.store.clusters[i].chunks[j].first.host.clone();
                let second_host = self.store.clusters[i].chunks[j].second.host.clone();
                if !self.spare_available(&first_host, &second_host) {
                    self.push_if_new(&mut result, &first_host, Ghost(i as int), Ghost(j as int));
                }
                if !self.spare_available(&second_host, &first_host) {
                    self.push_if_new(&mut result, &second_host, Ghost(i as int), Ghost(j as int));
                }
                j = j + 1;
            }
            i = i + 1;
        }
        result
    }

    /// Append the host unless it is already listed.
    fn push_if_new(
        &self,
        result: &mut Vec<String>,
        h: &String,
        i: Ghost<int>,
        j: Ghost<int>,
    )
        requires
            0 <= i@ < self.store.clusters@.len(),
            0 <= j@ < self.store.clusters@[i@].chunks@.len(),
            self.store.clusters@[i@].chunks@[j@].first.host@ == h@
                || self.store.clusters@[i@].chunks@[j@].second.host@ == h@,
            ({
                let ch = self.store.clusters@[i@].chunks@[j@];
                (ch.first.host@ == h@ && !diverse_spare_exists(self.store, h@, ch.second.host@))
                    || (ch.second.host@ == h@ && !diverse_spare_exists(
                    self.store,
                    h@,
                    ch.first.host@,
                ))
            }),
            forall|k: int|
                0 <= k < old(result)@.len() ==> host_cannot_fail(
                    self.store,
                    (#[trigger] old(result)@[k])@,
                ),
            forall|k1: int, k2: int|
                0 <= k1 < old(result)@.len() && 0 <= k2 < old(result)@.len() && k1 != k2 ==> (
                #[trigger] old(result)@[k1])@ != (#[trigger] old(result)@[k2])@,
        ensures
            host_listed(final(result)@, h@),
            forall|k: int|
                0 <= k < final(result)@.len() ==> host_cannot_fail(
                    self.store,
                    (#[trigger] final(result)@[k])@,
                ),
            forall|a: Seq<char>| host_listed(old(result)@, a) ==> host_listed(final(result)@, a),
            forall|k1: int, k2: int|
                0 <= k1 < final(result)@.len() && 0 <= k2 < final(result)@.len() && k1 != k2 ==> (
                #[trigger] final(result)@[k1])@ != (#[trigger] final(result)@[k2])@,
    {
        let n = result.len();
        let mut k: usize = 0;
        while k < n
            invariant
                result@ == old(result)@,
                n == result@.len(),
                k <= n,
                forall|k2: int| 0 <= k2 < k ==> (#[trigger] result@[k2])@ != h@,
                forall|k2: int|
                    0 <= k2 < result@.len() ==> host_cannot_fail(
                        self.store,
                        (#[trigger] result@[k2])@,
                    ),
                forall|k1: int, k2: int|
                    0 <= k1 < result@.len() && 0 <= k2 < result@.len() && k1 != k2 ==> (
                    #[trigger] result@[k1])@ != (#[trigger] result@[k2])@,
            decreases n - k,
        {
            if result[k] == *h {
                proof {
                    assert(host_listed(result@, h@));
                }
                return ;
            }
            k = k + 1;
        }
        let ghost before = result@;
        result.push(h.clone());
        proof {
            assert(result@ == before.push(result@.last()));
            assert(result@.last()@ == h@);
            assert(host_cannot_fail(self.store, h@));
            assert forall|a: Seq<char>| host_listed(before, a) implies host_listed(
                result@,
                a,
            ) by {
                let k2 = choose|k2: int| 0 <= k2 < before.len() && (#[trigger] before[k2])@ == a;
                assert(result@[k2] == before[k2]);
            }
            assert forall|k1: int, k2: int|
                0 <= k1 < result@.len() && 0 <= k2 < result@.len() && k1 != k2 implies (
            #[trigger] result@[k1])@ != (#[trigger] result@[k2])@ by {
                if k1 < before.len() && k2 < before.len() {
                    assert(result@[k1] == before[k1] && result@[k2] == before[k2]);
                } else {
                    let other: int = if k1 < before.len() {
                        k1
                    } else {
                        k2
                    };
                    assert(result@[other] == before[other]);
                    assert(before[other]@ != h@);
                }
            }
            assert forall|k2: int| 0 <= k2 < result@.len() implies host_cannot_fail(
                self.store,
                (#[trigger] result@[k2])@,
            ) by {
                if k2 < before.len() {
                    assert(result@[k2] == before[k2]);
                }
            }
        }
    }
}

} // verus!
