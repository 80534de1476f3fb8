//! The coordinator's decisions, separated from the network loops that
//! carry them out: which proxies to report failed, which to sync, when a
//! migration is ready to commit, and how gossiped epochs are folded.

use vstd::prelude::*;

use crate::migration::MigrationState;

verus! {

/// Identity and target of one coordinator process.
#[derive(Clone, Debug)]
pub struct CoordinatorConfig {
    pub broker_address: String,
    pub reporter_id: String,
}

/// The coordinator itself; the surrounding runtime owns the brokers and
/// clients and asks this core what to do.
#[derive(Clone, Debug)]
pub struct CoordinatorService {
    pub config: CoordinatorConfig,
}

/// What `fetch_max_epoch` reports back.
#[derive(Clone, Debug)]
pub struct EpochFetchResult {
    pub max_epoch: u64,
    pub failed_addresses: Vec<String>,
}

/// Some ping of the round found this address dead.
pub open spec fn ping_failed(pings: Seq<(String, bool)>, a: Seq<char>) -> bool {
    exists|p: int| 0 <= p < pings.len() && !(#[trigger] pings[p]).1 && pings[p].0@ == a
}

/// Some filed report names this address.
pub open spec fn address_reported(reports: Seq<(String, String)>, a: Seq<char>) -> bool {
    exists|k: int| 0 <= k < reports.len() && (#[trigger] reports[k]).0@ == a
}

impl CoordinatorService {
    pub fn new(config: CoordinatorConfig) -> (r: CoordinatorService)
        ensures
            r.config == config,
    {
        CoordinatorService { config }
    }

    /// One failure-detection round: given the liveness of each proxy,
    /// the witnesses to file are exactly the dead ones, under this
    /// coordinator's reporter identity.
    pub fn detect_failures(&self, ping_results: &Vec<(String, bool)>) -> (r: Vec<(String, String)>)
        ensures
            forall|k: int|
                0 <= k < r@.len() ==> ping_failed(ping_results@, (#[trigger] r@[k]).0@) && r@[k].1@
                    == self.config.reporter_id@,
            forall|p: int|
                0 <= p < ping_results@.len() && !(#[trigger] ping_results@[p]).1
                    ==> address_reported(r@, ping_results@[p].0@),
    {
        let n = ping_results.len();
        let mut reports: Vec<(String, String)> = Vec::new();
        let mut p: usize = 0;
        while p < n
            invariant
                n == ping_results@.len(),
                p <= n,
                forall|k: int|
                    0 <= k < reports@.len() ==> ping_failed(
                        ping_results@,
                        (#[trigger] reports@[k]).0@,
                    ) && reports@[k].1@ == self.config.reporter_id@,
                forall|p2: int|
                    0 <= p2 < p && !(#[trigger] ping_results@[p2]).1 ==> address_reported(
                        reports@,
                        ping_results@[p2].0@,
                    ),
            decreases n - p,
        {
            if !ping_results[p].1 {
                let ghost before = reports@;
                reports.push((ping_results[p].0.clone(), self.config.reporter_id.clone()));
                proof {
                    assert(reports@ == before.push(reports@.last()));
                    assert(reports@.last().0@ == ping_results@[p as int].0@);
                    assert(ping_failed(ping_results@, reports@.last().0@));
                    assert forall|k: int| 0 <= k < reports@.len() implies ping_failed(
                        ping_results@,
                        (#[trigger] reports@[k]).0@,
                    ) && reports@[k].1@ == self.config.reporter_id@ by {
                        if k < before.len() {
                            assert(reports@[k] == before[k]);
                        }
                    }
                    assert forall|p2: int|
                        0 <= p2 < p + 1 && !(#[trigger] ping_results@[p2]).1 implies address_reported(
                        reports@,
                        ping_results@[p2].0@,
                    ) by {
                        if p2 < p {
                            let k = choose|k: int|
                                0 <= k < before.len() && (#[trigger] before[k]).0@
                                    == ping_results@[p2].0@;
                            assert(reports@[k] == before[k]);
                        } else {
                            assert(reports@[reports@.len() - 1].0@ == ping_results@[p2].0@);
                        }
                    }
                }
            }
            p = p + 1;
        }
        reports
    }
}

/// A proxy is pushed fresh metadata only while its advertised epoch lags
/// the cluster's.
pub fn should_sync_proxy(proxy_epoch: u64, cluster_epoch: u64) -> (r: bool)
    ensures
        r == (proxy_epoch < cluster_epoch),
{
    proxy_epoch < cluster_epoch
}

/// A staged migration is committed only once every involved task reports
/// the switch done.
pub fn ready_to_commit(states: &Vec<MigrationState>) -> (r: bool)
    ensures
        r == forall|k: int|
            0 <= k < states@.len() ==> (#[trigger] states@[k]) == MigrationState::SwitchCommitted,
{
    let n = states.len();
    let mut k: usize = 0;
    while k < n
        invariant
            n == states@.len(),
            k <= n,
            forall|k2: int|
                0 <= k2 < k ==> (#[trigger] states@[k2]) == MigrationState::SwitchCommitted,
        decreases n - k,
    {
        let done = match states[k] {
            MigrationState::SwitchCommitted => true,
            _ => false,
        };
        if !done {
            proof {
                assert(states@[k as int] != MigrationState::SwitchCommitted);
            }
            return false;
        }
        k = k + 1;
    }
    true
}

/// The address stands somewhere in the list.
pub open spec fn addr_listed(l: Seq<String>, a: Seq<char>) -> bool {
    exists|k: int| 0 <= k < l.len() && (#[trigger] l[k])@ == a
}

/// The address belongs to a proxy that gave no epoch back.
pub open spec fn epoch_fetch_failed(results: Seq<(String, Option<u64>)>, a: Seq<char>) -> bool {
    exists|p: int|
        0 <= p < results.len() && (#[trigger] results[p]).1 is None && a == results[p].0@
}

/// Fold the gossiped epochs: the largest answer wins, proxies that gave
/// none are reported failed.
pub fn aggregate_epochs(results: &Vec<(String, Option<u64>)>) -> (r: EpochFetchResult)
    ensures
        forall|p: int|
            0 <= p < results@.len() ==> ((#[trigger] results@[p]).1 matches Some(e) ==> e
                <= r.max_epoch),
        r.max_epoch == 0 || exists|p: int|
            0 <= p < results@.len() && (#[trigger] results@[p]).1 == Some(r.max_epoch),
        forall|k: int|
            0 <= k < r.failed_addresses@.len() ==> epoch_fetch_failed(
                results@,
                (#[trigger] r.failed_addresses@[k])@,
            ),
        forall|p: int|
            0 <= p < results@.len() && (#[trigger] results@[p]).1 is None ==> addr_listed(
                r.failed_addresses@,
                results@[p].0@,
            ),
{
    let n = results.len();
    let mut max_epoch: u64 = 0;
    let mut failed: Vec<String> = Vec::new();
    let mut p: usize = 0;
    while p < n
        invariant
            n == results@.len(),
            p <= n,
            forall|p2: int|
                0 <= p2 < p ==> ((#[trigger] results@[p2]).1 matches Some(e) ==> e <= max_epoch),
            max_epoch == 0 || exists|p2: int|
                0 <= p2 < results@.len() && (#[trigger] results@[p2]).1 == Some(max_epoch),
            forall|k: int|
                0 <= k < failed@.len() ==> epoch_fetch_failed(results@, (#[trigger] failed@[k])@),
            forall|p2: int|
                0 <= p2 < p && (#[trigger] results@[p2]).1 is None ==> addr_listed(
                    failed@,
                    results@[p2].0@,
                ),
        decreases n - p,
    {
        match results[p].1 {
            Some(e) => {
                if e > max_epoch {
                    max_epoch = e;
                    proof {
                        assert(results@[p as int].1 == Some(max_epoch));
                    }
                }
            },
            None => {
                let ghost before = failed@;
                failed.push(results[p].0.clone());
                proof {
                    assert(failed@ == before.push(failed@.last()));
                    assert(failed@.last()@ == results@[p as int].0@);
                    assert(epoch_fetch_failed(results@, failed@.last()@));
                    assert forall|k: int| 0 <= k < failed@.len() implies epoch_fetch_failed(
                        results@,
                        (#[trigger] failed@[k])@,
                    ) by {
                        if k < before.len() {
                            assert(failed@[k] == before[k]);
                        }
                    }
                    assert forall|p2: int|
                        0 <= p2 < p + 1 && (#[trigger] results@[p2]).1 is None implies addr_listed(
                        failed@,
                        results@[p2].0@,
                    ) by {
                        if p2 < p {
                            let k = choose|k: int|
                                0 <= k < before.len() && (#[trigger] before[k])@
                                    == results@[p2].0@;
                            assert(failed@[k] == before[k]);
                            assert(failed@[k]@ == results@[p2].0@);
                        } else {
                            assert(failed@[failed@.len() - 1]@ == results@[p2].0@);
                        }
                    }
                }
            },
        }
        p = p + 1;
    }
    EpochFetchResult { max_epoch, failed_addresses: failed }
}

/// The first proxy that has not yet reached the target epoch, if any:
/// only then must the caller keep waiting.
pub fn epoch_laggard(reports: &Vec<(String, u64)>, target: u64) -> (r: Option<String>)
    ensures
        r is None <==> forall|p: int| 0 <= p < reports@.len() ==> (#[trigger] reports@[p]).1 >= target,
        r matches Some(a) ==> exists|p: int|
            0 <= p < reports@.len() && (#[trigger] reports@[p]).1 < target && a@ == reports@[p].0@,
{
    let n = reports.len();
    let mut p: usize = 0;
    while p < n
        invariant
            n == reports@.len(),
            p <= n,
            forall|p2: int| 0 <= p2 < p ==> (#[trigger] reports@[p2]).1 >= target,
        decreases n - p,
    {
        if reports[p].1 < target {
            return Some(reports[p].0.clone());
        }
        p = p + 1;
    }
    None
}

} // verus!
