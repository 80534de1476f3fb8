//! The proxy-side migration map: one state machine per staged slot-range
//! handoff, driving `PreCheck` through `SwitchCommitted`.

use vstd::prelude::*;

use vstd::string::StrSliceExecFns;
use vstd::string::StringExecFns;

use crate::slots::{MigrationMeta, SlotRange, SlotRangeTag};

verus! {

/// Steps of one migration task, in the order they are passed.
#[derive(Clone, Copy, Debug, PartialEq, Eq, Structural)]
pub enum MigrationState {
    PreCheck,
    PreBlocking,
    Blocking,
    Committing,
    SwitchCommitted,
}

/// Numeric position of a state in the machine's order.
pub open spec fn state_rank(s: MigrationState) -> int {
    match s {
        MigrationState::PreCheck => 0,
        MigrationState::PreBlocking => 1,
        MigrationState::Blocking => 2,
        MigrationState::Committing => 3,
        MigrationState::SwitchCommitted => 4,
    }
}

/// The two switch subcommands a destination can receive.
#[derive(Clone, Copy, Debug, PartialEq, Eq, Structural)]
pub enum MgrSubCmd {
    PreSwitch,
    FinalSwitch,
}

/// Which side of the handoff a task plays.
#[derive(Clone, Copy, Debug, PartialEq, Eq, Structural)]
pub enum TaskRole {
    Migrating,
    Importing,
}

/// Why a switch request was refused.
#[derive(Clone, Copy, Debug, PartialEq, Eq, Structural)]
pub enum SwitchError {
    InvalidArg,
    TaskNotFound,
    PeerMigrating,
    NotReady,
}

/// Why a command could not be routed through the migration map.
#[derive(Clone, Copy, Debug, PartialEq, Eq, Structural)]
pub enum SendError {
    MissingKey,
    SlotNotFound,
}

/// Identity of a task as the broker knows it.
#[derive(Clone, Debug)]
pub struct MigrationTaskMeta {
    pub cluster_name: String,
    pub slot_range: SlotRange,
}

impl MigrationTaskMeta {
    pub open spec fn same(self, o: MigrationTaskMeta) -> bool {
        self.cluster_name@ == o.cluster_name@ && self.slot_range.same(o.slot_range)
    }
}

/// The argument of a switch request.
#[derive(Clone, Debug)]
pub struct SwitchArg {
    pub meta: MigrationTaskMeta,
}

/// One running task.
#[derive(Clone, Debug)]
pub struct MgrTask {
    pub meta: MigrationTaskMeta,
    pub role: TaskRole,
    pub state: MigrationState,
}

/// All tasks of one cluster.
#[derive(Clone, Debug)]
pub struct ClusterTasks {
    pub name: String,
    pub tasks: Vec<MgrTask>,
}

/// The whole map, cluster by cluster.
#[derive(Clone, Debug)]
pub struct MigrationMap {
    pub task_map: Vec<ClusterTasks>,
}

/// A range is staged for migration when it carries either tag.
pub open spec fn range_tagged(r: SlotRange) -> bool {
    !(r.tag is Stable)
}

/// Role a tag asks for.
pub open spec fn tag_role(t: SlotRangeTag) -> TaskRole {
    match t {
        SlotRangeTag::Importing(_) => TaskRole::Importing,
        _ => TaskRole::Migrating,
    }
}

/// The map holds a task for this cluster name, span and tag.
pub open spec fn map_has_task(
    tm: Seq<ClusterTasks>,
    name: Seq<char>,
    r: SlotRange,
    role: TaskRole,
) -> bool {
    exists|i: int, k: int|
        0 <= i < tm.len() && 0 <= k < (#[trigger] tm[i]).tasks@.len() && tm[i].name@ == name && (
        #[trigger] tm[i].tasks@[k]).meta.slot_range.same(r) && tm[i].tasks@[k].role == role
}

/// A task of the map matches a name, span and role, and carries this
/// state.
pub open spec fn map_task_state(
    tm: Seq<ClusterTasks>,
    name: Seq<char>,
    r: SlotRange,
    role: TaskRole,
    st: MigrationState,
) -> bool {
    exists|i: int, k: int|
        0 <= i < tm.len() && 0 <= k < (#[trigger] tm[i]).tasks@.len() && tm[i].name@ == name && (
        #[trigger] tm[i].tasks@[k]).meta.slot_range.same(r) && tm[i].tasks@[k].role == role
            && tm[i].tasks@[k].state == st
}

/// Cluster names are pairwise distinct: the shape every constructor of
/// the map produces and every method expects.
pub open spec fn map_names_unique(tm: Seq<ClusterTasks>) -> bool {
    forall|i1: int, i2: int|
        0 <= i1 < tm.len() && 0 <= i2 < tm.len() && i1 != i2 ==> (#[trigger] tm[i1]).name@ != (
        #[trigger] tm[i2]).name@
}

/// The task spans the same slot range as the switch argument.
pub open spec fn task_matches_span(t: MgrTask, arg: SwitchArg) -> bool {
    t.meta.slot_range.start == arg.meta.slot_range.start && t.meta.slot_range.end
        == arg.meta.slot_range.end
}

/// `(i, k)` is the task a switch request lands on: the cluster named by
/// the argument and the first task of it with the argument's span.
pub open spec fn switch_target_at(tm: Seq<ClusterTasks>, arg: SwitchArg, i: int, k: int) -> bool {
    &&& 0 <= i < tm.len()
    &&& tm[i].name@ == arg.meta.cluster_name@
    &&& 0 <= k < tm[i].tasks@.len()
    &&& task_matches_span(tm[i].tasks@[k], arg)
    &&& forall|k2: int| 0 <= k2 < k ==> !task_matches_span(#[trigger] tm[i].tasks@[k2], arg)
}

pub open spec fn has_switch_target(tm: Seq<ClusterTasks>, arg: SwitchArg) -> bool {
    exists|i: int, k: int| switch_target_at(tm, arg, i, k)
}

/// The state a switch subcommand advances a ready destination task to.
pub open spec fn advanced_state(st: MigrationState, sub_cmd: MgrSubCmd) -> MigrationState {
    if sub_cmd == MgrSubCmd::FinalSwitch {
        MigrationState::SwitchCommitted
    } else if st == MigrationState::Blocking {
        MigrationState::Committing
    } else {
        st
    }
}

/// What a switch request did, given the task it landed on: a migrating
/// task is a protocol violation, a destination below `Blocking` is not
/// ready, and a ready destination advances in place with everything else
/// untouched.
pub open spec fn switch_outcome(
    a: Seq<ClusterTasks>,
    b: Seq<ClusterTasks>,
    i: int,
    k: int,
    sub_cmd: MgrSubCmd,
    r: Result<(), SwitchError>,
) -> bool {
    let t = a[i].tasks@[k];
    match r {
        Err(e) => (e == SwitchError::PeerMigrating && t.role == TaskRole::Migrating) || (e
            == SwitchError::NotReady && t.role == TaskRole::Importing && state_rank(t.state)
            < state_rank(MigrationState::Blocking)),
        Ok(u) => {
            &&& t.role == TaskRole::Importing
            &&& state_rank(t.state) >= state_rank(MigrationState::Blocking)
            &&& b.len() == a.len()
            &&& forall|i2: int| 0 <= i2 < a.len() && i2 != i ==> #[trigger] b[i2] == a[i2]
            &&& b[i].name == a[i].name
            &&& b[i].tasks@.len() == a[i].tasks@.len()
            &&& forall|k2: int|
                0 <= k2 < a[i].tasks@.len() && k2 != k ==> #[trigger] b[i].tasks@[k2]
                    == a[i].tasks@[k2]
            &&& b[i].tasks@[k].meta == t.meta
            &&& b[i].tasks@[k].role == t.role
            &&& b[i].tasks@[k].state == advanced_state(t.state, sub_cmd)
        },
    }
}

/// Task `(i, k)` belongs to the named cluster and covers the slot; for
/// the synchronization route it must also be on the migrating side.
pub open spec fn covering_task_at(
    tm: Seq<ClusterTasks>,
    name: Seq<char>,
    s: int,
    i: int,
    k: int,
    migrating_only: bool,
) -> bool {
    &&& 0 <= i < tm.len()
    &&& tm[i].name@ == name
    &&& 0 <= k < tm[i].tasks@.len()
    &&& tm[i].tasks@[k].meta.slot_range.start <= s < tm[i].tasks@[k].meta.slot_range.end
    &&& migrating_only ==> tm[i].tasks@[k].role == TaskRole::Migrating
}

pub open spec fn has_covering_task(
    tm: Seq<ClusterTasks>,
    name: Seq<char>,
    s: int,
    migrating_only: bool,
) -> bool {
    exists|i: int, k: int| covering_task_at(tm, name, s, i, k, migrating_only)
}

pub open spec fn map_has_cluster(tm: Seq<ClusterTasks>, name: Seq<char>) -> bool {
    exists|i: int| 0 <= i < tm.len() && (#[trigger] tm[i]).name@ == name
}

/// The pushed layout names each cluster once.
pub open spec fn layout_names_unique(layout: Seq<(String, Vec<SlotRange>)>) -> bool {
    forall|c1: int, c2: int|
        0 <= c1 < layout.len() && 0 <= c2 < layout.len() && c1 != c2 ==> (#[trigger] layout[c1]).0@
            != (#[trigger] layout[c2]).0@
}

/// Within one cluster of the pushed layout no two ranges have the same
/// content: the shape a partitioned cluster view always has.
pub open spec fn layout_ranges_distinct(layout: Seq<(String, Vec<SlotRange>)>) -> bool {
    forall|c: int, k1: int, k2: int|
        0 <= c < layout.len() && 0 <= k1 < layout[c].1@.len() && 0 <= k2 < layout[c].1@.len() && k1
            != k2 ==> !(#[trigger] layout[c].1@[k1]).same(#[trigger] layout[c].1@[k2])
}

/// The task mirrors a tagged range of the pushed layout for its cluster:
/// nothing in the rebuilt map is invented.
pub open spec fn task_from_layout(
    layout: Seq<(String, Vec<SlotRange>)>,
    name: Seq<char>,
    t: MgrTask,
) -> bool {
    exists|c: int, k: int|
        0 <= c < layout.len() && 0 <= k < (#[trigger] layout[c]).1@.len() && layout[c].0@ == name
            && (#[trigger] layout[c].1@[k]).same(t.meta.slot_range) && range_tagged(
            layout[c].1@[k],
        )
}

/// No two fresh-task descriptions name the same cluster and range.
pub open spec fn new_tasks_distinct(nts: Seq<NewTask>) -> bool {
    forall|x1: int, x2: int|
        0 <= x1 < nts.len() && 0 <= x2 < nts.len() && x1 != x2 ==> !((#[trigger] nts[x1]).cluster_name@
            == (#[trigger] nts[x2]).cluster_name@ && nts[x1].range.same(nts[x2].range))
}

/// The fresh-task description corresponds to a tagged range of the
/// layout that the old map had no task for, and carries that range's
/// planning epoch.
pub open spec fn new_task_from_layout(
    layout: Seq<(String, Vec<SlotRange>)>,
    old_map: Seq<ClusterTasks>,
    x: NewTask,
) -> bool {
    exists|c: int, k: int|
        0 <= c < layout.len() && 0 <= k < (#[trigger] layout[c]).1@.len() && {
            let rg = #[trigger] layout[c].1@[k];
            &&& x.cluster_name@ == layout[c].0@
            &&& x.range.same(rg)
            &&& range_tagged(rg)
            &&& x.role == tag_role(rg.tag)
            &&& (rg.tag matches SlotRangeTag::Migrating(mm) ==> x.epoch == mm.epoch)
            &&& (rg.tag matches SlotRangeTag::Importing(mm) ==> x.epoch == mm.epoch)
            &&& !map_has_task(old_map, layout[c].0@, rg, tag_role(rg.tag))
        }
}

/// Some fresh-task description names this cluster and range.
pub open spec fn new_task_listed(nts: Seq<NewTask>, name: Seq<char>, rg: SlotRange) -> bool {
    exists|x: int|
        0 <= x < nts.len() && (#[trigger] nts[x]).cluster_name@ == name && nts[x].range.same(rg)
}

/// Pushing a fresh task for a not-yet-processed range keeps the list
/// free of duplicates.
proof fn lemma_new_tasks_push_distinct(
    nts: Seq<NewTask>,
    fresh: NewTask,
    layout: Seq<(String, Vec<SlotRange>)>,
    c: int,
    k: int,
)
    requires
        layout_names_unique(layout),
        layout_ranges_distinct(layout),
        0 <= c < layout.len(),
        0 <= k < layout[c].1@.len(),
        fresh.cluster_name@ == layout[c].0@,
        fresh.range.same(layout[c].1@[k]),
        new_tasks_distinct(nts),
        forall|x: int|
            0 <= x < nts.len() && (#[trigger] nts[x]).cluster_name@ == layout[c].0@ ==> exists|
                k2: int,
            | 0 <= k2 < k && nts[x].range.same(#[trigger] layout[c].1@[k2]),
    ensures
        new_tasks_distinct(nts.push(fresh)),
{
    let post = nts.push(fresh);
    assert forall|x1: int, x2: int|
        0 <= x1 < post.len() && 0 <= x2 < post.len() && x1 != x2 implies !((
    #[trigger] post[x1]).cluster_name@ == (#[trigger] post[x2]).cluster_name@
        && post[x1].range.same(post[x2].range)) by {
        if x1 < nts.len() && x2 < nts.len() {
            assert(post[x1] == nts[x1]);
            assert(post[x2] == nts[x2]);
        } else {
            let xo: int = if x1 < nts.len() {
                x1
            } else {
                x2
            };
            assert(post[xo] == nts[xo]);
            let xn: int = if x1 < nts.len() {
                x2
            } else {
                x1
            };
            assert(post[xn] == fresh);
            if post[xo].cluster_name@ == fresh.cluster_name@ && (post[xo].range.same(fresh.range)
                || fresh.range.same(post[xo].range)) {
                let k2 = choose|k2: int|
                    0 <= k2 < k && nts[xo].range.same(#[trigger] layout[c].1@[k2]);
                assert(layout[c].1@[k2].same(layout[c].1@[k])) by {
                    lemma_range_same_sym(nts[xo].range, layout[c].1@[k2]);
                    lemma_range_same_trans(layout[c].1@[k2], nts[xo].range, fresh.range);
                    lemma_range_same_trans(layout[c].1@[k2], fresh.range, layout[c].1@[k]);
                }
                assert(!layout[c].1@[k2].same(layout[c].1@[k]));
            }
        }
    }
}

/// `same` on ranges is symmetric.
proof fn lemma_range_same_sym(x: SlotRange, y: SlotRange)
    requires
        x.same(y) || y.same(x),
    ensures
        x.same(y) && y.same(x),
{
}

/// A push keeps every fresh-task listing.
proof fn lemma_new_task_listed_push(nts: Seq<NewTask>, x: NewTask)
    ensures
        forall|name: Seq<char>, rg: SlotRange|
            new_task_listed(nts, name, rg) ==> #[trigger] new_task_listed(nts.push(x), name, rg),
{
    assert forall|name: Seq<char>, rg: SlotRange| new_task_listed(nts, name, rg) implies
    #[trigger] new_task_listed(nts.push(x), name, rg) by {
        let x0 = choose|x0: int|
            0 <= x0 < nts.len() && (#[trigger] nts[x0]).cluster_name@ == name && nts[x0].range.same(
                rg,
            );
        assert(nts.push(x)[x0] == nts[x0]);
    }
}

/// The task predicates care only about the span-and-tag content of the
/// range, so a `same` copy of the range can stand in for it.
proof fn lemma_task_pred_same_range(
    tm: Seq<ClusterTasks>,
    name: Seq<char>,
    a: SlotRange,
    b: SlotRange,
    role: TaskRole,
    st: MigrationState,
)
    requires
        a.same(b) || b.same(a),
        map_task_state(tm, name, a, role, st),
    ensures
        map_task_state(tm, name, b, role, st),
{
    let (i, k) = choose|i: int, k: int|
        0 <= i < tm.len() && 0 <= k < (#[trigger] tm[i]).tasks@.len() && tm[i].name@ == name && (
        #[trigger] tm[i].tasks@[k]).meta.slot_range.same(a) && tm[i].tasks@[k].role == role
            && tm[i].tasks@[k].state == st;
    assert(tm[i].tasks@[k].meta.slot_range.same(b)) by {
        lemma_range_same_trans(tm[i].tasks@[k].meta.slot_range, a, b);
    }
}

/// And likewise for the absence of a task.
proof fn lemma_task_pred_same_range_neg(
    tm: Seq<ClusterTasks>,
    name: Seq<char>,
    a: SlotRange,
    b: SlotRange,
    role: TaskRole,
)
    requires
        a.same(b) || b.same(a),
        !map_has_task(tm, name, a, role),
    ensures
        !map_has_task(tm, name, b, role),
{
    if map_has_task(tm, name, b, role) {
        let (i, k) = choose|i: int, k: int|
            0 <= i < tm.len() && 0 <= k < (#[trigger] tm[i]).tasks@.len() && tm[i].name@ == name
                && (#[trigger] tm[i].tasks@[k]).meta.slot_range.same(b) && tm[i].tasks@[k].role
                == role;
        assert(tm[i].tasks@[k].meta.slot_range.same(a)) by {
            lemma_range_same_trans(tm[i].tasks@[k].meta.slot_range, b, a);
        }
    }
}

/// `same` on ranges chains across a middle range.
proof fn lemma_range_same_trans(x: SlotRange, y: SlotRange, z: SlotRange)
    requires
        x.same(y),
        y.same(z) || z.same(y),
    ensures
        x.same(z),
{
}

/// `e` names a fully switched task of the map.
pub open spec fn finished_entry_ok(tm: Seq<ClusterTasks>, e: MigrationTaskMeta) -> bool {
    exists|i: int, k: int|
        0 <= i < tm.len() && 0 <= k < (#[trigger] tm[i]).tasks@.len() && (
        #[trigger] tm[i].tasks@[k]).state == MigrationState::SwitchCommitted && e.same(
            tm[i].tasks@[k].meta,
        )
}

/// `e` reports the range and state of a task of the named cluster.
pub open spec fn state_entry_ok(
    tm: Seq<ClusterTasks>,
    name: Seq<char>,
    e: (SlotRange, MigrationState),
) -> bool {
    exists|i: int, k: int|
        0 <= i < tm.len() && 0 <= k < (#[trigger] tm[i]).tasks@.len() && tm[i].name@ == name && (
        #[trigger] tm[i].tasks@[k]).state == e.1 && e.0.same(tm[i].tasks@[k].meta.slot_range)
}

impl MigrationMap {
    /// The map's well-formedness: one entry per cluster name.
    pub open spec fn wf(self) -> bool {
        map_names_unique(self.task_map@)
    }

    /// A map with no tasks at all.
    pub fn empty() -> (r: MigrationMap)
        ensures
            r.task_map@.len() == 0,
            r.wf(),
    {
        MigrationMap { task_map: Vec::new() }
    }

    /// Whether no task is held.
    pub fn is_empty(&self) -> (r: bool)
        ensures
            r == (self.task_map@.len() == 0),
    {
        self.task_map.len() == 0
    }

    fn find_cluster(&self, name: &String) -> (r: Option<usize>)
        ensures
            r matches Some(i) ==> i < self.task_map@.len() && self.task_map@[i as int].name@
                == name@,
            r is None ==> forall|i: int|
                0 <= i < self.task_map@.len() ==> (#[trigger] self.task_map@[i]).name@ != name@,
    {
        let n = self.task_map.len();
        let mut i: usize = 0;
        while i < n
            invariant
                n == self.task_map@.len(),
                i <= n,
                forall|k: int| 0 <= k < i ==> (#[trigger] self.task_map@[k]).name@ != name@,
            decreases n - i,
        {
            if self.task_map[i].name == *name {
                return Some(i);
            }
            i = i + 1;
        }
        None
    }

    /// Route a command: find the task whose range holds the slot.  A
    /// command without a key cannot be routed; without any matching task
    /// the caller falls back to the normal route.
    pub fn send(&self, cluster_name: &String, slot: Option<usize>) -> (r: Result<
        (usize, usize),
        SendError,
    >)
        requires
            self.wf(),
        ensures
            r is Ok <==> (slot matches Some(s) && has_covering_task(
                self.task_map@,
                cluster_name@,
                s as int,
                false,
            )),
            r matches Ok((i, k)) ==> (slot matches Some(s) && covering_task_at(
                self.task_map@,
                cluster_name@,
                s as int,
                i as int,
                k as int,
                false,
            )),
            r == Err::<(usize, usize), SendError>(SendError::MissingKey) <==> (self.task_map@.len()
                > 0 && map_has_cluster(self.task_map@, cluster_name@) && slot is None),
    {
        if self.task_map.len() == 0 {
            proof {
                assert(!has_covering_task(self.task_map@, cluster_name@, 0, false));
            }
            return Err(SendError::SlotNotFound);
        }
        let i = match self.find_cluster(cluster_name) {
            None => {
                proof {
                    if slot is Some {
                        let s0 = slot->0;
                        assert(!has_covering_task(self.task_map@, cluster_name@, s0 as int, false))
                            by {
                            if has_covering_task(self.task_map@, cluster_name@, s0 as int, false) {
                                let (i2, k2) = choose|i2: int, k2: int|
                                    covering_task_at(
                                        self.task_map@,
                                        cluster_name@,
                                        s0 as int,
                                        i2,
                                        k2,
                                        false,
                                    );
                            }
                        }
                    }
                    assert(!map_has_cluster(self.task_map@, cluster_name@)) by {
                        if map_has_cluster(self.task_map@, cluster_name@) {
                            let i2 = choose|i2: int|
                                0 <= i2 < self.task_map@.len() && (#[trigger] self.task_map@[i2]).name@
                                    == cluster_name@;
                        }
                    }
                }
                return Err(SendError::SlotNotFound);
            },
            Some(i) => i,
        };
        let s = match slot {
            None => {
                proof {
                    assert(map_has_cluster(self.task_map@, cluster_name@));
                }
                return Err(SendError::MissingKey);
            },
            Some(s) => s,
        };
        let m = self.task_map[i].tasks.len();
        let mut k: usize = 0;
        while k < m
            invariant
                self.wf(),
                i < self.task_map@.len(),
                m == self.task_map@[i as int].tasks@.len(),
                self.task_map@[i as int].name@ == cluster_name@,
                slot == Some(s),
                k <= m,
                forall|k2: int|
                    0 <= k2 < k ==> !(self.task_map@[i as int].tasks@[k2].meta.slot_range.start <= s
                        < (#[trigger] self.task_map@[i as int].tasks@[k2]).meta.slot_range.end),
            decreases m - k,
        {
            let t = &self.task_map[i].tasks[k];
            if t.meta.slot_range.start <= s && s < t.meta.slot_range.end {
                proof {
                    assert(covering_task_at(
                        self.task_map@,
                        cluster_name@,
                        s as int,
                        i as int,
                        k as int,
                        false,
                    ));
                }
                return Ok((i, k));
            }
            k = k + 1;
        }
        proof {
            assert(!has_covering_task(self.task_map@, cluster_name@, s as int, false)) by {
                if has_covering_task(self.task_map@, cluster_name@, s as int, false) {
                    let (i2, k2) = choose|i2: int, k2: int|
                        covering_task_at(self.task_map@, cluster_name@, s as int, i2, k2, false);
                    assert(i2 == i) by {
                        if i2 != i {
                            assert(self.task_map@[i2].name@ != self.task_map@[i as int].name@);
                        }
                    }
                }
            }
        }
        Err(SendError::SlotNotFound)
    }

    /// Route a synchronization command: as `send`, but only tasks on the
    /// migrating side take it.
    pub fn send_sync_task(&self, cluster_name: &String, slot: Option<usize>) -> (r: Result<
        (usize, usize),
        SendError,
    >)
        requires
            self.wf(),
        ensures
            r is Ok <==> (slot matches Some(s) && has_covering_task(
                self.task_map@,
                cluster_name@,
                s as int,
                true,
            )),
            r matches Ok((i, k)) ==> (slot matches Some(s) && covering_task_at(
                self.task_map@,
                cluster_name@,
                s as int,
                i as int,
                k as int,
                true,
            )),
            r == Err::<(usize, usize), SendError>(SendError::MissingKey) <==> (self.task_map@.len()
                > 0 && map_has_cluster(self.task_map@, cluster_name@) && slot is None),
    {
        if self.task_map.len() == 0 {
            proof {
                assert(!has_covering_task(self.task_map@, cluster_name@, 0, true));
            }
            return Err(SendError::SlotNotFound);
        }
        let i = match self.find_cluster(cluster_name) {
            None => {
                proof {
                    if slot is Some {
                        let s0 = slot->0;
                        assert(!has_covering_task(self.task_map@, cluster_name@, s0 as int, true))
                            by {
                            if has_covering_task(self.task_map@, cluster_name@, s0 as int, true) {
                                let (i2, k2) = choose|i2: int, k2: int|
                                    covering_task_at(
                                        self.task_map@,
                                        cluster_name@,
                                        s0 as int,
                                        i2,
                                        k2,
                                        true,
                                    );
                            }
                        }
                    }
                    assert(!map_has_cluster(self.task_map@, cluster_name@)) by {
                        if map_has_cluster(self.task_map@, cluster_name@) {
                            let i2 = choose|i2: int|
                                0 <= i2 < self.task_map@.len() && (#[trigger] self.task_map@[i2]).name@
                                    == cluster_name@;
                        }
                    }
                }
                return Err(SendError::SlotNotFound);
            },
            Some(i) => i,
        };
        let s = match slot {
            None => {
                proof {
                    assert(map_has_cluster(self.task_map@, cluster_name@));
                }
                return Err(SendError::MissingKey);
            },
            Some(s) => s,
        };
        let m = self.task_map[i].tasks.len();
        let mut k: usize = 0;
        while k < m
            invariant
                self.wf(),
                i < self.task_map@.len(),
                m == self.task_map@[i as int].tasks@.len(),
                self.task_map@[i as int].name@ == cluster_name@,
                slot == Some(s),
                k <= m,
                forall|k2: int|
                    0 <= k2 < k ==> !((#[trigger] self.task_map@[i as int].tasks@[k2]).role
                        == TaskRole::Migrating && self.task_map@[i as int].tasks@[k2].meta.slot_range.start
                        <= s < self.task_map@[i as int].tasks@[k2].meta.slot_range.end),
            decreases m - k,
        {
            let t = &self.task_map[i].tasks[k];
            let migrating = match t.role {
                TaskRole::Migrating => true,
                TaskRole::Importing => false,
            };
            if migrating && t.meta.slot_range.start <= s && s < t.meta.slot_range.end {
                proof {
                    assert(covering_task_at(
                        self.task_map@,
                        cluster_name@,
                        s as int,
                        i as int,
                        k as int,
                        true,
                    ));
                }
                return Ok((i, k));
            }
            k = k + 1;
        }
        proof {
            assert(!has_covering_task(self.task_map@, cluster_name@, s as int, true)) by {
                if has_covering_task(self.task_map@, cluster_name@, s as int, true) {
                    let (i2, k2) = choose|i2: int, k2: int|
                        covering_task_at(self.task_map@, cluster_name@, s as int, i2, k2, true);
                    assert(i2 == i) by {
                        if i2 != i {
                            assert(self.task_map@[i2].name@ != self.task_map@[i as int].name@);
                        }
                    }
                }
            }
        }
        Err(SendError::SlotNotFound)
    }

    /// A destination receives the switch request for a task.  Unknown
    /// tasks are refused; a request that reaches the migrating side is a
    /// protocol violation; a destination that has not yet blocked asks
    /// the caller to retry; otherwise the task advances in place.
    pub fn handle_switch(&mut self, switch_arg: SwitchArg, sub_cmd: MgrSubCmd) -> (r: Result<
        (),
        SwitchError,
    >)
        requires
            old(self).wf(),
        ensures
            final(self).wf(),
            r is Err ==> *final(self) == *old(self),
            r == Err::<(), SwitchError>(SwitchError::TaskNotFound) <==> !has_switch_target(
                old(self).task_map@,
                switch_arg,
            ),
            has_switch_target(old(self).task_map@, switch_arg) ==> exists|i: int, k: int|
                #[trigger] switch_target_at(old(self).task_map@, switch_arg, i, k)
                    && switch_outcome(
                    old(self).task_map@,
                    final(self).task_map@,
                    i,
                    k,
                    sub_cmd,
                    r,
                ),
    {
        let ghost pre = *self;
        let i = match self.find_cluster(&switch_arg.meta.cluster_name) {
            None => {
                proof {
                    assert(!has_switch_target(pre.task_map@, switch_arg)) by {
                        if has_switch_target(pre.task_map@, switch_arg) {
                            let (i2, k2) = choose|i2: int, k2: int|
                                switch_target_at(pre.task_map@, switch_arg, i2, k2);
                            assert(pre.task_map@[i2].name@ == switch_arg.meta.cluster_name@);
                        }
                    }
                }
                return Err(SwitchError::TaskNotFound);
            },
            Some(i) => i,
        };
        let m = self.task_map[i].tasks.len();
        let mut k: usize = 0;
        while k < m
            invariant
                pre == *old(self),
                *self == pre,
                pre.wf(),
                i < self.task_map@.len(),
                m == self.task_map@[i as int].tasks@.len(),
                self.task_map@[i as int].name@ == switch_arg.meta.cluster_name@,
                k <= m,
                forall|k2: int|
                    0 <= k2 < k ==> !task_matches_span(
                        #[trigger] self.task_map@[i as int].tasks@[k2],
                        switch_arg,
                    ),
            decreases m - k,
        {
            let hit = {
                let t = &self.task_map[i].tasks[k];
                t.meta.slot_range.start == switch_arg.meta.slot_range.start
                    && t.meta.slot_range.end == switch_arg.meta.slot_range.end
            };
            if hit {
                proof {
                    assert(switch_target_at(pre.task_map@, switch_arg, i as int, k as int));
                }
                let role_is_migrating = match self.task_map[i].tasks[k].role {
                    TaskRole::Migrating => true,
                    TaskRole::Importing => false,
                };
                if role_is_migrating {
                    proof {
                        assert(switch_outcome(
                            pre.task_map@,
                            pre.task_map@,
                            i as int,
                            k as int,
                            sub_cmd,
                            Err::<(), SwitchError>(SwitchError::PeerMigrating),
                        ));
                    }
                    return Err(SwitchError::PeerMigrating);
                }
                let st = self.task_map[i].tasks[k].state;
                let ready = match st {
                    MigrationState::PreCheck => false,
                    MigrationState::PreBlocking => false,
                    _ => true,
                };
                if !ready {
                    proof {
                        assert(switch_outcome(
                            pre.task_map@,
                            pre.task_map@,
                            i as int,
                            k as int,
                            sub_cmd,
                            Err::<(), SwitchError>(SwitchError::NotReady),
                        ));
                    }
                    return Err(SwitchError::NotReady);
                }
                let new_state = match sub_cmd {
                    MgrSubCmd::FinalSwitch => MigrationState::SwitchCommitted,
                    MgrSubCmd::PreSwitch => match st {
                        MigrationState::Blocking => MigrationState::Committing,
                        other => other,
                    },
                };
                let ct = &mut self.task_map[i];
                let tk = &mut ct.tasks[k];
                tk.state = new_state;
                proof {
                    assert(new_state == advanced_state(
                        pre.task_map@[i as int].tasks@[k as int].state,
                        sub_cmd,
                    ));
                    assert(switch_outcome(
                        pre.task_map@,
                        self.task_map@,
                        i as int,
                        k as int,
                        sub_cmd,
                        Ok::<(), SwitchError>(()),
                    ));
                    assert(self.wf()) by {
                        assert forall|i1: int, i2: int|
                            0 <= i1 < self.task_map@.len() && 0 <= i2 < self.task_map@.len() && i1
                                != i2 implies (#[trigger] self.task_map@[i1]).name@ != (
                        #[trigger] self.task_map@[i2]).name@ by {
                            assert(self.task_map@[i1].name@ == pre.task_map@[i1].name@);
                            assert(self.task_map@[i2].name@ == pre.task_map@[i2].name@);
                        }
                    }
                }
                return Ok(());
            }
            k = k + 1;
        }
        proof {
            assert(!has_switch_target(pre.task_map@, switch_arg)) by {
                if has_switch_target(pre.task_map@, switch_arg) {
                    let (i2, k2) = choose|i2: int, k2: int|
                        switch_target_at(pre.task_map@, switch_arg, i2, k2);
                    assert(i2 == i) by {
                        if i2 != i {
                            assert(pre.task_map@[i2].name@ != pre.task_map@[i as int].name@);
                        }
                    }
                    assert(!task_matches_span(pre.task_map@[i as int].tasks@[k2], switch_arg));
                }
            }
        }
        Err(SwitchError::TaskNotFound)
    }

    /// Metadata of every task that has fully switched, ready for the
    /// broker to commit: sound and complete.
    #[verifier::rlimit(100)]
    pub fn get_finished_tasks(&self) -> (r: Vec<MigrationTaskMeta>)
        ensures
            forall|x: int|
                0 <= x < r@.len() ==> finished_entry_ok(self.task_map@, #[trigger] r@[x]),
            forall|i: int, k: int|
                0 <= i < self.task_map@.len() && 0 <= k < (#[trigger] self.task_map@[i]).tasks@.len()
                    && (#[trigger] self.task_map@[i].tasks@[k]).state
                    == MigrationState::SwitchCommitted ==> exists|x: int|
                    0 <= x < r@.len() && (#[trigger] r@[x]).same(self.task_map@[i].tasks@[k].meta),
    {
        let n = self.task_map.len();
        let mut result: Vec<MigrationTaskMeta> = Vec::new();
        let mut i: usize = 0;
        while i < n
            invariant
                n == self.task_map@.len(),
                i <= n,
                forall|x: int|
                    0 <= x < result@.len() ==> finished_entry_ok(
                        self.task_map@,
                        #[trigger] result@[x],
                    ),
                forall|i2: int, k2: int|
                    0 <= i2 < i && 0 <= k2 < (#[trigger] self.task_map@[i2]).tasks@.len() && (
                    #[trigger] self.task_map@[i2].tasks@[k2]).state
                        == MigrationState::SwitchCommitted ==> exists|x: int|
                        0 <= x < result@.len() && (#[trigger] result@[x]).same(
                            self.task_map@[i2].tasks@[k2].meta,
                        ),
            decreases n - i,
        {
            let m = self.task_map[i].tasks.len();
            let mut k: usize = 0;
            while k < m
                invariant
                    n == self.task_map@.len(),
                    i < n,
                    m == self.task_map@[i as int].tasks@.len(),
                    k <= m,
                    forall|x: int|
                        0 <= x < result@.len() ==> finished_entry_ok(
                            self.task_map@,
                            #[trigger] result@[x],
                        ),
                    forall|i2: int, k2: int|
                        0 <= i2 < i && 0 <= k2 < (#[trigger] self.task_map@[i2]).tasks@.len() && (
                        #[trigger] self.task_map@[i2].tasks@[k2]).state
                            == MigrationState::SwitchCommitted ==> exists|x: int|
                            0 <= x < result@.len() && (#[trigger] result@[x]).same(
                                self.task_map@[i2].tasks@[k2].meta,
                            ),
                    forall|k2: int|
                        0 <= k2 < k && (#[trigger] self.task_map@[i as int].tasks@[k2]).state
                            == MigrationState::SwitchCommitted ==> exists|x: int|
                            0 <= x < result@.len() && (#[trigger] result@[x]).same(
                                self.task_map@[i as int].tasks@[k2].meta,
                            ),
                decreases m - k,
            {
                let done = match self.task_map[i].tasks[k].state {
                    MigrationState::SwitchCommitted => true,
                    _ => false,
                };
                if done {
                    let t = &self.task_map[i].tasks[k];
                    let copy = MigrationTaskMeta {
                        cluster_name: t.meta.cluster_name.clone(),
                        slot_range: t.meta.slot_range.duplicate(),
                    };
                    let ghost res_before = result@;
                    result.push(copy);
                    proof {
                        assert(result@ == res_before.push(copy));
                        assert(copy.same(self.task_map@[i as int].tasks@[k as int].meta));
                        assert(finished_entry_ok(self.task_map@, copy));
                        assert forall|x: int| 0 <= x < result@.len() implies finished_entry_ok(
                            self.task_map@,
                            #[trigger] result@[x],
                        ) by {
                            if x < res_before.len() {
                                assert(result@[x] == res_before[x]);
                            } else {
                                assert(result@[x] == copy);
                            }
                        }
                        assert forall|i2: int, k2: int|
                            0 <= i2 < i && 0 <= k2 < (#[trigger] self.task_map@[i2]).tasks@.len()
                                && (#[trigger] self.task_map@[i2].tasks@[k2]).state
                                == MigrationState::SwitchCommitted implies exists|x: int|
                            0 <= x < result@.len() && (#[trigger] result@[x]).same(
                                self.task_map@[i2].tasks@[k2].meta,
                            ) by {
                            let x0 = choose|x0: int|
                                0 <= x0 < res_before.len() && (#[trigger] res_before[x0]).same(
                                    self.task_map@[i2].tasks@[k2].meta,
                                );
                            assert(result@[x0] == res_before[x0]);
                        }
                        assert forall|k2: int|
                            0 <= k2 < k + 1 && (
                            #[trigger] self.task_map@[i as int].tasks@[k2]).state
                                == MigrationState::SwitchCommitted implies exists|x: int|
                            0 <= x < result@.len() && (#[trigger] result@[x]).same(
                                self.task_map@[i as int].tasks@[k2].meta,
                            ) by {
                            if k2 < k {
                                let x0 = choose|x0: int|
                                    0 <= x0 < res_before.len() && (#[trigger] res_before[x0]).same(
                                        self.task_map@[i as int].tasks@[k2].meta,
                                    );
                                assert(result@[x0] == res_before[x0]);
                            } else {
                                assert(result@[result@.len() - 1].same(
                                    self.task_map@[i as int].tasks@[k2].meta,
                                ));
                            }
                        }
                    }
                }
                k = k + 1;
            }
            i = i + 1;
        }
        result
    }

    /// The state of every task of one cluster, with its range: sound and
    /// complete.
    #[verifier::rlimit(100)]
    pub fn get_states(&self, cluster_name: &String) -> (r: Vec<(SlotRange, MigrationState)>)
        requires
            self.wf(),
        ensures
            forall|x: int|
                0 <= x < r@.len() ==> state_entry_ok(self.task_map@, cluster_name@, #[trigger] r@[x]),
            forall|i: int, k: int|
                #![trigger self.task_map@[i].tasks@[k]]
                0 <= i < self.task_map@.len() && self.task_map@[i].name@ == cluster_name@ && 0 <= k
                    < self.task_map@[i].tasks@.len() ==> exists|x: int|
                    0 <= x < r@.len() && (#[trigger] r@[x]).0.same(
                        self.task_map@[i].tasks@[k].meta.slot_range,
                    ) && r@[x].1 == self.task_map@[i].tasks@[k].state,
    {
        let mut result: Vec<(SlotRange, MigrationState)> = Vec::new();
        let i = match self.find_cluster(cluster_name) {
            None => {
                return result;
            },
            Some(i) => i,
        };
        let m = self.task_map[i].tasks.len();
        let mut k: usize = 0;
        while k < m
            invariant
                self.wf(),
                i < self.task_map@.len(),
                m == self.task_map@[i as int].tasks@.len(),
                self.task_map@[i as int].name@ == cluster_name@,
                k <= m,
                result@.len() == k,
                forall|x: int|
                    0 <= x < result@.len() ==> state_entry_ok(
                        self.task_map@,
                        cluster_name@,
                        #[trigger] result@[x],
                    ),
                forall|k2: int|
                    0 <= k2 < k ==> (#[trigger] result@[k2]).0.same(
                        self.task_map@[i as int].tasks@[k2].meta.slot_range,
                    ) && result@[k2].1 == self.task_map@[i as int].tasks@[k2].state,
            decreases m - k,
        {
            let t = &self.task_map[i].tasks[k];
            let pair = (t.meta.slot_range.duplicate(), t.state);
            let ghost res_before = result@;
            result.push(pair);
            proof {
                assert(result@ == res_before.push(pair));
                assert(pair.0.same(self.task_map@[i as int].tasks@[k as int].meta.slot_range));
                assert(state_entry_ok(self.task_map@, cluster_name@, pair));
                assert forall|x: int| 0 <= x < result@.len() implies state_entry_ok(
                    self.task_map@,
                    cluster_name@,
                    #[trigger] result@[x],
                ) by {
                    if x < res_before.len() {
                        assert(result@[x] == res_before[x]);
                    } else {
                        assert(result@[x] == pair);
                    }
                }
                assert forall|k2: int| 0 <= k2 < k + 1 implies (#[trigger] result@[k2]).0.same(
                    self.task_map@[i as int].tasks@[k2].meta.slot_range,
                ) && result@[k2].1 == self.task_map@[i as int].tasks@[k2].state by {
                    if k2 < k {
                        assert(result@[k2] == res_before[k2]);
                    } else {
                        assert(result@[k2] == pair);
                    }
                }
            }
            k = k + 1;
        }
        proof {
            assert forall|i2: int, k2: int|
                #![trigger self.task_map@[i2].tasks@[k2]]
                0 <= i2 < self.task_map@.len() && self.task_map@[i2].name@ == cluster_name@ && 0
                    <= k2 < self.task_map@[i2].tasks@.len() implies exists|
                x: int,
            |
                0 <= x < result@.len() && (#[trigger] result@[x]).0.same(
                    self.task_map@[i2].tasks@[k2].meta.slot_range,
                ) && result@[x].1 == self.task_map@[i2].tasks@[k2].state by {
                assert(i2 == i) by {
                    if i2 != i {
                        assert(self.task_map@[i2].name@ != self.task_map@[i as int].name@);
                    }
                }
                assert(result@[k2].0.same(self.task_map@[i as int].tasks@[k2].meta.slot_range)
                    && result@[k2].1 == self.task_map@[i as int].tasks@[k2].state);
            }
        }
        result
    }

    /// Rebuild the map from a freshly pushed cluster layout: a task for
    /// every tagged range, keeping the running state of tasks the old map
    /// already had and starting the rest at `PreCheck`.  Returns the map
    /// and the descriptions of the fresh tasks to spawn: exactly one per
    /// tagged range with no prior task, carrying that range's planning
    /// epoch.
    #[verifier::rlimit(100)]
    #[verifier::spinoff_prover]
    pub fn update_from_old_task_map(&self, local_cluster_map: &Vec<(String, Vec<SlotRange>)>) -> (r:
        (MigrationMap, Vec<NewTask>))
        requires
            self.wf(),
            layout_names_unique(local_cluster_map@),
            layout_ranges_distinct(local_cluster_map@),
        ensures
            r.0.wf(),
            new_tasks_distinct(r.1@),
            forall|i: int, k: int|
                0 <= i < r.0.task_map@.len() && 0 <= k < (#[trigger] r.0.task_map@[i]).tasks@.len()
                    ==> {
                    let t = #[trigger] r.0.task_map@[i].tasks@[k];
                    &&& range_tagged(t.meta.slot_range)
                    &&& t.role == tag_role(t.meta.slot_range.tag)
                    &&& task_from_layout(local_cluster_map@, r.0.task_map@[i].name@, t)
                    &&& (map_task_state(
                        self.task_map@,
                        r.0.task_map@[i].name@,
                        t.meta.slot_range,
                        t.role,
                        t.state,
                    ) || (t.state == MigrationState::PreCheck && !map_has_task(
                        self.task_map@,
                        r.0.task_map@[i].name@,
                        t.meta.slot_range,
                        t.role,
                    )))
                },
            forall|c: int, k: int|
                #![trigger local_cluster_map@[c].1@[k]]
                0 <= c < local_cluster_map@.len() && 0 <= k < local_cluster_map@[c].1@.len()
                    && range_tagged(local_cluster_map@[c].1@[k]) ==> map_has_task(
                    r.0.task_map@,
                    local_cluster_map@[c].0@,
                    local_cluster_map@[c].1@[k],
                    tag_role(local_cluster_map@[c].1@[k].tag),
                ),
            forall|x: int|
                0 <= x < r.1@.len() ==> (#[trigger] r.1@[x]).state == MigrationState::PreCheck
                    && new_task_from_layout(local_cluster_map@, self.task_map@, r.1@[x]),
            forall|c: int, k: int|
                #![trigger local_cluster_map@[c].1@[k]]
                0 <= c < local_cluster_map@.len() && 0 <= k < local_cluster_map@[c].1@.len()
                    && range_tagged(local_cluster_map@[c].1@[k]) && !map_has_task(
                    self.task_map@,
                    local_cluster_map@[c].0@,
                    local_cluster_map@[c].1@[k],
                    tag_role(local_cluster_map@[c].1@[k].tag),
                ) ==> new_task_listed(
                    r.1@,
                    local_cluster_map@[c].0@,
                    local_cluster_map@[c].1@[k],
                ),
    {
        let mut new_map: Vec<ClusterTasks> = Vec::new();
        let mut new_tasks: Vec<NewTask> = Vec::new();
        let n = local_cluster_map.len();
        let mut c: usize = 0;
        while c < n
            invariant
                self.wf(),
                layout_names_unique(local_cluster_map@),
                layout_ranges_distinct(local_cluster_map@),
                n == local_cluster_map@.len(),
                c <= n,
                map_names_unique(new_map@),
                forall|i: int|
                    0 <= i < new_map@.len() ==> exists|c2: int|
                        0 <= c2 < c && (#[trigger] new_map@[i]).name@ == local_cluster_map@[c2].0@,
                forall|i: int, k: int|
                    0 <= i < new_map@.len() && 0 <= k < (#[trigger] new_map@[i]).tasks@.len() ==> {
                        let t = #[trigger] new_map@[i].tasks@[k];
                        &&& range_tagged(t.meta.slot_range)
                        &&& t.role == tag_role(t.meta.slot_range.tag)
                        &&& task_from_layout(local_cluster_map@, new_map@[i].name@, t)
                        &&& (map_task_state(
                            self.task_map@,
                            new_map@[i].name@,
                            t.meta.slot_range,
                            t.role,
                            t.state,
                        ) || (t.state == MigrationState::PreCheck && !map_has_task(
                            self.task_map@,
                            new_map@[i].name@,
                            t.meta.slot_range,
                            t.role,
                        )))
                    },
                forall|c2: int, k: int|
                    #![trigger local_cluster_map@[c2].1@[k]]
                    0 <= c2 < c && 0 <= k < local_cluster_map@[c2].1@.len() && range_tagged(
                        local_cluster_map@[c2].1@[k],
                    ) ==> map_has_task(
                        new_map@,
                        local_cluster_map@[c2].0@,
                        local_cluster_map@[c2].1@[k],
                        tag_role(local_cluster_map@[c2].1@[k].tag),
                    ),
                new_tasks_distinct(new_tasks@),
                forall|x: int|
                    0 <= x < new_tasks@.len() ==> exists|c2: int|
                        0 <= c2 < c && (#[trigger] new_tasks@[x]).cluster_name@
                            == local_cluster_map@[c2].0@,
                forall|x: int|
                    0 <= x < new_tasks@.len() ==> (#[trigger] new_tasks@[x]).state
                        == MigrationState::PreCheck && new_task_from_layout(
                        local_cluster_map@,
                        self.task_map@,
                        new_tasks@[x],
                    ),
                forall|c2: int, k: int|
                    #![trigger local_cluster_map@[c2].1@[k]]
                    0 <= c2 < c && 0 <= k < local_cluster_map@[c2].1@.len() && range_tagged(
                        local_cluster_map@[c2].1@[k],
                    ) && !map_has_task(
                        self.task_map@,
                        local_cluster_map@[c2].0@,
                        local_cluster_map@[c2].1@[k],
                        tag_role(local_cluster_map@[c2].1@[k].tag),
                    ) ==> new_task_listed(
                        new_tasks@,
                        local_cluster_map@[c2].0@,
                        local_cluster_map@[c2].1@[k],
                    ),
            decreases n - c,
        {
            let cname = &local_cluster_map[c].0;
            proof {
                assert forall|x: int| 0 <= x < new_tasks@.len() implies (
                #[trigger] new_tasks@[x]).cluster_name@ != cname@ by {
                    let c2 = choose|c2: int|
                        0 <= c2 < c && (#[trigger] new_tasks@[x]).cluster_name@
                            == local_cluster_map@[c2].0@;
                    assert(local_cluster_map@[c2].0@ != local_cluster_map@[c as int].0@);
                }
            }
            let m = local_cluster_map[c].1.len();
            let mut tasks: Vec<MgrTask> = Vec::new();
            let mut k: usize = 0;
            while k < m
                invariant
                    self.wf(),
                    layout_names_unique(local_cluster_map@),
                    layout_ranges_distinct(local_cluster_map@),
                    n == local_cluster_map@.len(),
                    c < n,
                    m == local_cluster_map@[c as int].1@.len(),
                    cname == &local_cluster_map@[c as int].0,
                    k <= m,
                    forall|x: int|
                        0 <= x < tasks@.len() ==> {
                            let t = #[trigger] tasks@[x];
                            &&& range_tagged(t.meta.slot_range)
                            &&& t.role == tag_role(t.meta.slot_range.tag)
                            &&& t.meta.cluster_name@ == cname@
                            &&& task_from_layout(local_cluster_map@, cname@, t)
                            &&& (map_task_state(
                                self.task_map@,
                                cname@,
                                t.meta.slot_range,
                                t.role,
                                t.state,
                            ) || (t.state == MigrationState::PreCheck && !map_has_task(
                                self.task_map@,
                                cname@,
                                t.meta.slot_range,
                                t.role,
                            )))
                        },
                    forall|k2: int|
                        #![trigger local_cluster_map@[c as int].1@[k2]]
                        0 <= k2 < k && range_tagged(local_cluster_map@[c as int].1@[k2]) ==> exists|
                            x: int,
                        |
                            0 <= x < tasks@.len() && (#[trigger] tasks@[x]).meta.slot_range.same(
                                local_cluster_map@[c as int].1@[k2],
                            ) && tasks@[x].role == tag_role(local_cluster_map@[c as int].1@[k2].tag),
                    new_tasks_distinct(new_tasks@),
                    forall|x: int|
                        0 <= x < new_tasks@.len() ==> exists|c2: int|
                            0 <= c2 <= c && (#[trigger] new_tasks@[x]).cluster_name@
                                == local_cluster_map@[c2].0@,
                    forall|x: int|
                        0 <= x < new_tasks@.len() && (#[trigger] new_tasks@[x]).cluster_name@
                            == cname@ ==> exists|k2: int|
                            0 <= k2 < k && new_tasks@[x].range.same(
                                #[trigger] local_cluster_map@[c as int].1@[k2],
                            ),
                    forall|x: int|
                        0 <= x < new_tasks@.len() ==> (#[trigger] new_tasks@[x]).state
                            == MigrationState::PreCheck && new_task_from_layout(
                            local_cluster_map@,
                            self.task_map@,
                            new_tasks@[x],
                        ),
                    forall|c2: int, k2: int|
                        #![trigger local_cluster_map@[c2].1@[k2]]
                        0 <= c2 < c && 0 <= k2 < local_cluster_map@[c2].1@.len() && range_tagged(
                            local_cluster_map@[c2].1@[k2],
                        ) && !map_has_task(
                            self.task_map@,
                            local_cluster_map@[c2].0@,
                            local_cluster_map@[c2].1@[k2],
                            tag_role(local_cluster_map@[c2].1@[k2].tag),
                        ) ==> new_task_listed(
                            new_tasks@,
                            local_cluster_map@[c2].0@,
                            local_cluster_map@[c2].1@[k2],
                        ),
                    forall|k2: int|
                        #![trigger local_cluster_map@[c as int].1@[k2]]
                        0 <= k2 < k && range_tagged(local_cluster_map@[c as int].1@[k2])
                            && !map_has_task(
                            self.task_map@,
                            cname@,
                            local_cluster_map@[c as int].1@[k2],
                            tag_role(local_cluster_map@[c as int].1@[k2].tag),
                        ) ==> new_task_listed(
                            new_tasks@,
                            cname@,
                            local_cluster_map@[c as int].1@[k2],
                        ),
                decreases m - k,
            {
                let range = &local_cluster_map[c].1[k];
                let tagged = match range.tag {
                    SlotRangeTag::Stable => false,
                    _ => true,
                };
                if tagged {
                    let role = match range.tag {
                        SlotRangeTag::Importing(_) => TaskRole::Importing,
                        _ => TaskRole::Migrating,
                    };
                    let prior = self.lookup_state(cname, range, role);
                    let state = match prior {
                        Some(st) => st,
                        None => MigrationState::PreCheck,
                    };
                    let task = MgrTask {
                        meta: MigrationTaskMeta {
                            cluster_name: cname.clone(),
                            slot_range: range.duplicate(),
                        },
                        role,
                        state,
                    };
                    proof {
                        assert(task.meta.slot_range.same(local_cluster_map@[c as int].1@[k as int]));
                        assert(range_tagged(task.meta.slot_range));
                        assert(task.role == tag_role(task.meta.slot_range.tag));
                        if prior is Some {
                            assert(map_task_state(
                                self.task_map@,
                                cname@,
                                local_cluster_map@[c as int].1@[k as int],
                                role,
                                prior->0,
                            ));
                            lemma_task_pred_same_range(
                                self.task_map@,
                                cname@,
                                local_cluster_map@[c as int].1@[k as int],
                                task.meta.slot_range,
                                role,
                                prior->0,
                            );
                        } else {
                            lemma_task_pred_same_range_neg(
                                self.task_map@,
                                cname@,
                                local_cluster_map@[c as int].1@[k as int],
                                task.meta.slot_range,
                                role,
                            );
                        }
                    }
                    if prior.is_none() {
                        let epoch = match &range.tag {
                            SlotRangeTag::Migrating(mm) => mm.epoch,
                            SlotRangeTag::Importing(mm) => mm.epoch,
                            SlotRangeTag::Stable => 0,
                        };
                        let ghost nts_before = new_tasks@;
                        let fresh = NewTask {
                            cluster_name: cname.clone(),
                            epoch,
                            range: range.duplicate(),
                            role,
                            state: MigrationState::PreCheck,
                        };
                        new_tasks.push(fresh);
                        proof {
                            assert(new_tasks@ == nts_before.push(fresh));
                            assert(new_task_from_layout(
                                local_cluster_map@,
                                self.task_map@,
                                fresh,
                            )) by {
                                assert(fresh.range.same(local_cluster_map@[c as int].1@[k as int]));
                                assert(fresh.cluster_name@ == local_cluster_map@[c as int].0@);
                                lemma_task_pred_same_range_neg(
                                    self.task_map@,
                                    cname@,
                                    local_cluster_map@[c as int].1@[k as int],
                                    fresh.range,
                                    role,
                                );
                            }
                            assert forall|x: int| 0 <= x < new_tasks@.len() implies (
                            #[trigger] new_tasks@[x]).state == MigrationState::PreCheck
                                && new_task_from_layout(
                                local_cluster_map@,
                                self.task_map@,
                                new_tasks@[x],
                            ) by {
                                if x < nts_before.len() {
                                    assert(new_tasks@[x] == nts_before[x]);
                                }
                            }
                            assert(new_task_listed(
                                new_tasks@,
                                cname@,
                                local_cluster_map@[c as int].1@[k as int],
                            )) by {
                                assert(new_tasks@.last().cluster_name@ == cname@);
                            }
                            lemma_new_task_listed_push(nts_before, fresh);
                            assert forall|x: int|
                                0 <= x < new_tasks@.len() implies exists|c2: int|
                                0 <= c2 <= c && (#[trigger] new_tasks@[x]).cluster_name@
                                    == local_cluster_map@[c2].0@ by {
                                if x < nts_before.len() {
                                    assert(new_tasks@[x] == nts_before[x]);
                                } else {
                                    assert(new_tasks@[x].cluster_name@
                                        == local_cluster_map@[c as int].0@);
                                }
                            }
                            assert forall|x: int|
                                0 <= x < new_tasks@.len() && (#[trigger] new_tasks@[x]).cluster_name@
                                    == cname@ implies exists|k2: int|
                                0 <= k2 < k + 1 && new_tasks@[x].range.same(
                                    #[trigger] local_cluster_map@[c as int].1@[k2],
                                ) by {
                                if x < nts_before.len() {
                                    assert(new_tasks@[x] == nts_before[x]);
                                    let k2 = choose|k2: int|
                                        0 <= k2 < k && nts_before[x].range.same(
                                            #[trigger] local_cluster_map@[c as int].1@[k2],
                                        );
                                } else {
                                    assert(new_tasks@[x].range.same(
                                        local_cluster_map@[c as int].1@[k as int],
                                    ));
                                }
                            }
                            lemma_new_tasks_push_distinct(
                                nts_before,
                                fresh,
                                local_cluster_map@,
                                c as int,
                                k as int,
                            );
                        }
                    }
                    let ghost tasks_before = tasks@;
                    tasks.push(task);
                    proof {
                        assert(tasks@ == tasks_before.push(task));
                        assert(task_from_layout(local_cluster_map@, cname@, task)) by {
                            assert(local_cluster_map@[c as int].1@[k as int].same(
                                task.meta.slot_range,
                            ));
                        }
                        assert forall|x: int| 0 <= x < tasks@.len() implies {
                            let t = #[trigger] tasks@[x];
                            &&& range_tagged(t.meta.slot_range)
                            &&& t.role == tag_role(t.meta.slot_range.tag)
                            &&& t.meta.cluster_name@ == cname@
                            &&& task_from_layout(local_cluster_map@, cname@, t)
                            &&& (map_task_state(
                                self.task_map@,
                                cname@,
                                t.meta.slot_range,
                                t.role,
                                t.state,
                            ) || (t.state == MigrationState::PreCheck && !map_has_task(
                                self.task_map@,
                                cname@,
                                t.meta.slot_range,
                                t.role,
                            )))
                        } by {
                            if x < tasks_before.len() {
                                assert(tasks@[x] == tasks_before[x]);
                            } else {
                                assert(tasks@[x] == task);
                            }
                        }
                        assert forall|k2: int|
                            0 <= k2 < k + 1 && range_tagged(
                                #[trigger] local_cluster_map@[c as int].1@[k2],
                            ) implies exists|x: int|
                            0 <= x < tasks@.len() && (#[trigger] tasks@[x]).meta.slot_range.same(
                                local_cluster_map@[c as int].1@[k2],
                            ) && tasks@[x].role == tag_role(
                                local_cluster_map@[c as int].1@[k2].tag,
                            ) by {
                            if k2 < k {
                                let x0 = choose|x0: int|
                                    0 <= x0 < tasks_before.len() && (
                                    #[trigger] tasks_before[x0]).meta.slot_range.same(
                                        local_cluster_map@[c as int].1@[k2],
                                    ) && tasks_before[x0].role == tag_role(
                                        local_cluster_map@[c as int].1@[k2].tag,
                                    );
                                assert(tasks@[x0] == tasks_before[x0]);
                            } else {
                                assert(tasks@[tasks@.len() - 1].meta.slot_range.same(
                                    local_cluster_map@[c as int].1@[k2],
                                ));
                            }
                        }
                    }
                }
                k = k + 1;
            }
            if tasks.len() > 0 {
                let ghost map_before = new_map@;
                new_map.push(ClusterTasks { name: cname.clone(), tasks });
                proof {
                    assert(new_map@ == map_before.push(new_map@.last()));
                    assert(new_map@.last().name@ == local_cluster_map@[c as int].0@);
                    assert(map_names_unique(new_map@)) by {
                        assert forall|i1: int, i2: int|
                            0 <= i1 < new_map@.len() && 0 <= i2 < new_map@.len() && i1 != i2 implies (
                        #[trigger] new_map@[i1]).name@ != (#[trigger] new_map@[i2]).name@ by {
                            if i1 < map_before.len() && i2 < map_before.len() {
                                assert(new_map@[i1] == map_before[i1]);
                                assert(new_map@[i2] == map_before[i2]);
                            } else {
                                let io: int = if i1 < map_before.len() {
                                    i1
                                } else {
                                    i2
                                };
                                assert(new_map@[io] == map_before[io]);
                                let c2 = choose|c2: int|
                                    0 <= c2 < c && (#[trigger] map_before[io]).name@
                                        == local_cluster_map@[c2].0@;
                                assert(local_cluster_map@[c2].0@ != local_cluster_map@[c as int].0@);
                            }
                        }
                    }
                    assert forall|i: int| 0 <= i < new_map@.len() implies exists|c2: int|
                        0 <= c2 < c + 1 && (#[trigger] new_map@[i]).name@
                            == local_cluster_map@[c2].0@ by {
                        if i < map_before.len() {
                            assert(new_map@[i] == map_before[i]);
                            let c2 = choose|c2: int|
                                0 <= c2 < c && (#[trigger] map_before[i]).name@
                                    == local_cluster_map@[c2].0@;
                        } else {
                            assert(new_map@[i].name@ == local_cluster_map@[c as int].0@);
                        }
                    }
                    assert forall|i: int, k2: int|
                        0 <= i < new_map@.len() && 0 <= k2 < (#[trigger] new_map@[i]).tasks@.len() implies {
                        let t = #[trigger] new_map@[i].tasks@[k2];
                        &&& range_tagged(t.meta.slot_range)
                        &&& t.role == tag_role(t.meta.slot_range.tag)
                        &&& task_from_layout(local_cluster_map@, new_map@[i].name@, t)
                        &&& (map_task_state(
                            self.task_map@,
                            new_map@[i].name@,
                            t.meta.slot_range,
                            t.role,
                            t.state,
                        ) || (t.state == MigrationState::PreCheck && !map_has_task(
                            self.task_map@,
                            new_map@[i].name@,
                            t.meta.slot_range,
                            t.role,
                        )))
                    } by {
                        if i < map_before.len() {
                            assert(new_map@[i] == map_before[i]);
                        }
                    }
                    assert forall|c2: int, k2: int|
                        0 <= c2 < c + 1 && 0 <= k2 < local_cluster_map@[c2].1@.len()
                            && range_tagged(#[trigger] local_cluster_map@[c2].1@[k2]) implies map_has_task(
                        new_map@,
                        local_cluster_map@[c2].0@,
                        local_cluster_map@[c2].1@[k2],
                        tag_role(local_cluster_map@[c2].1@[k2].tag),
                    ) by {
                        if c2 < c {
                            assert(map_has_task(
                                map_before,
                                local_cluster_map@[c2].0@,
                                local_cluster_map@[c2].1@[k2],
                                tag_role(local_cluster_map@[c2].1@[k2].tag),
                            ));
                            let (i0, k0) = choose|i0: int, k0: int|
                                0 <= i0 < map_before.len() && 0 <= k0 < (
                                #[trigger] map_before[i0]).tasks@.len() && map_before[i0].name@
                                    == local_cluster_map@[c2].0@ && (
                                #[trigger] map_before[i0].tasks@[k0]).meta.slot_range.same(
                                    local_cluster_map@[c2].1@[k2],
                                ) && map_before[i0].tasks@[k0].role == tag_role(
                                    local_cluster_map@[c2].1@[k2].tag,
                                );
                            assert(new_map@[i0] == map_before[i0]);
                        } else {
                            let x0 = choose|x0: int|
                                0 <= x0 < new_map@.last().tasks@.len() && (
                                #[trigger] new_map@.last().tasks@[x0]).meta.slot_range.same(
                                    local_cluster_map@[c2].1@[k2],
                                ) && new_map@.last().tasks@[x0].role == tag_role(
                                    local_cluster_map@[c2].1@[k2].tag,
                                );
                            assert(new_map@[new_map@.len() - 1].tasks@[x0].meta.slot_range.same(
                                local_cluster_map@[c2].1@[k2],
                            ));
                        }
                    }
                }
            } else {
                proof {
                    assert forall|k2: int|
                        0 <= k2 < m implies !range_tagged(
                        #[trigger] local_cluster_map@[c as int].1@[k2],
                    ) by {
                        if range_tagged(local_cluster_map@[c as int].1@[k2]) {
                            let x0 = choose|x0: int|
                                0 <= x0 < tasks@.len() && (#[trigger] tasks@[x0]).meta.slot_range.same(
                                    local_cluster_map@[c as int].1@[k2],
                                ) && tasks@[x0].role == tag_role(
                                    local_cluster_map@[c as int].1@[k2].tag,
                                );
                        }
                    }
                }
            }
            c = c + 1;
        }
        (MigrationMap { task_map: new_map }, new_tasks)
    }

    /// State of a matching task of the old map, if one exists.
    fn lookup_state(&self, name: &String, range: &SlotRange, role: TaskRole) -> (r: Option<
        MigrationState,
    >)
        requires
            self.wf(),
        ensures
            r matches Some(st) ==> map_task_state(self.task_map@, name@, *range, role, st),
            r is None ==> !map_has_task(self.task_map@, name@, *range, role),
    {
        let i = match self.find_cluster(name) {
            None => {
                proof {
                    assert(!map_has_task(self.task_map@, name@, *range, role)) by {
                        if map_has_task(self.task_map@, name@, *range, role) {
                            let (i2, k2) = choose|i2: int, k2: int|
                                0 <= i2 < self.task_map@.len() && 0 <= k2 < (
                                #[trigger] self.task_map@[i2]).tasks@.len()
                                    && self.task_map@[i2].name@ == name@ && (
                                #[trigger] self.task_map@[i2].tasks@[k2]).meta.slot_range.same(
                                    *range,
                                ) && self.task_map@[i2].tasks@[k2].role == role;
                        }
                    }
                }
                return None;
            },
            Some(i) => i,
        };
        let m = self.task_map[i].tasks.len();
        let mut k: usize = 0;
        while k < m
            invariant
                self.wf(),
                i < self.task_map@.len(),
                m == self.task_map@[i as int].tasks@.len(),
                self.task_map@[i as int].name@ == name@,
                k <= m,
                forall|k2: int|
                    0 <= k2 < k ==> !((#[trigger] self.task_map@[i as int].tasks@[k2]).role == role
                        && self.task_map@[i as int].tasks@[k2].meta.slot_range.same(*range)),
            decreases m - k,
        {
            let t = &self.task_map[i].tasks[k];
            let role_eq = match (t.role, role) {
                (TaskRole::Migrating, TaskRole::Migrating) => true,
                (TaskRole::Importing, TaskRole::Importing) => true,
                _ => false,
            };
            let hit = role_eq && t.meta.slot_range.start == range.start && t.meta.slot_range.end
                == range.end && Self::tag_same(&t.meta.slot_range.tag, &range.tag);
            if hit {
                proof {
                    assert(self.task_map@[i as int].tasks@[k as int].meta.slot_range.same(*range));
                    assert(map_task_state(
                        self.task_map@,
                        name@,
                        *range,
                        role,
                        self.task_map@[i as int].tasks@[k as int].state,
                    ));
                }
                return Some(t.state);
            }
            k = k + 1;
        }
        proof {
            assert(!map_has_task(self.task_map@, name@, *range, role)) by {
                if map_has_task(self.task_map@, name@, *range, role) {
                    let (i2, k2) = choose|i2: int, k2: int|
                        0 <= i2 < self.task_map@.len() && 0 <= k2 < (
                        #[trigger] self.task_map@[i2]).tasks@.len() && self.task_map@[i2].name@
                            == name@ && (#[trigger] self.task_map@[i2].tasks@[k2]).meta.slot_range.same(
                            *range,
                        ) && self.task_map@[i2].tasks@[k2].role == role;
                    assert(i2 == i) by {
                        if i2 != i {
                            assert(self.task_map@[i2].name@ != self.task_map@[i as int].name@);
                        }
                    }
                }
            }
        }
        None
    }

    /// Decides spec-level tag equality.
    fn tag_same(a: &SlotRangeTag, b: &SlotRangeTag) -> (r: bool)
        ensures
            r == a.same(*b),
    {
        match (a, b) {
            (SlotRangeTag::Stable, SlotRangeTag::Stable) => true,
            (SlotRangeTag::Migrating(x), SlotRangeTag::Migrating(y)) => x.eq_meta(y),
            (SlotRangeTag::Importing(x), SlotRangeTag::Importing(y)) => x.eq_meta(y),
            _ => false,
        }
    }
}

/// Description of a freshly created task, for the runtime to spawn.
#[derive(Clone, Debug)]
pub struct NewTask {
    pub cluster_name: String,
    pub epoch: u64,
    pub range: SlotRange,
    pub role: TaskRole,
    pub state: MigrationState,
}

/// Configuration knobs of the per-proxy migration machinery.
#[derive(Clone, Copy, Debug, PartialEq, Eq, Structural)]
pub struct MigrationConfig {
    pub max_migration_batch: usize,
}

/// Owner of the per-proxy migration machinery: it turns freshly pushed
/// cluster layouts into migration maps.
#[derive(Clone, Debug)]
pub struct MigrationManager {
    pub config: MigrationConfig,
}

impl MigrationManager {
    pub fn new(config: MigrationConfig) -> (r: MigrationManager)
        ensures
            r.config == config,
    {
        MigrationManager { config }
    }

    /// Diff the freshly pushed layout against the running map.
    pub fn create_new_migration_map(
        &self,
        old_migration_map: &MigrationMap,
        local_cluster_map: &Vec<(String, Vec<SlotRange>)>,
    ) -> (r: (MigrationMap, Vec<NewTask>))
        requires
            old_migration_map.wf(),
            layout_names_unique(local_cluster_map@),
            layout_ranges_distinct(local_cluster_map@),
        ensures
            r.0.wf(),
            new_tasks_distinct(r.1@),
            forall|c: int, k: int|
                #![trigger local_cluster_map@[c].1@[k]]
                0 <= c < local_cluster_map@.len() && 0 <= k < local_cluster_map@[c].1@.len()
                    && range_tagged(local_cluster_map@[c].1@[k]) ==> map_has_task(
                    r.0.task_map@,
                    local_cluster_map@[c].0@,
                    local_cluster_map@[c].1@[k],
                    tag_role(local_cluster_map@[c].1@[k].tag),
                ),
            forall|x: int|
                0 <= x < r.1@.len() ==> (#[trigger] r.1@[x]).state == MigrationState::PreCheck
                    && new_task_from_layout(
                    local_cluster_map@,
                    old_migration_map.task_map@,
                    r.1@[x],
                ),
    {
        old_migration_map.update_from_old_task_map(local_cluster_map)
    }
}


impl MigrationMap {
    /// A human-readable dump of every task, one RESP array per cluster:
    /// the cluster's name, then one line per task with its range, its
    /// endpoints and its state.
    pub fn info(&self) -> (r: crate::replicator::Resp)
        ensures
            r matches crate::replicator::Resp::Arr(crate::replicator::Array::Arr(v)) && v@.len()
                == self.task_map@.len(),
    {
        let n = self.task_map.len();
        let mut clusters: Vec<crate::replicator::Resp> = Vec::new();
        let mut i: usize = 0;
        while i < n
            invariant
                n == self.task_map@.len(),
                i <= n,
                clusters@.len() == i,
            decreases n - i,
        {
            let mut lines: Vec<crate::replicator::Resp> = Vec::new();
            let mut head = String::from_str("name: ");
            head.append(self.task_map[i].name.as_str());
            lines.push(crate::replicator::Resp::Bulk(crate::replicator::BulkStr::Str(
                head.as_str().as_bytes_vec(),
            )));
            let m = self.task_map[i].tasks.len();
            let mut k: usize = 0;
            while k < m
                invariant
                    i < self.task_map@.len(),
                    m == self.task_map@[i as int].tasks@.len(),
                    k <= m,
                decreases m - k,
            {
                let t = &self.task_map[i].tasks[k];
                let mut line = crate::strfmt::u64_to_dec(t.meta.slot_range.start as u64);
                line.append("-");
                let end_str = crate::strfmt::u64_to_dec(t.meta.slot_range.end as u64);
                line.append(end_str.as_str());
                match &t.meta.slot_range.tag {
                    SlotRangeTag::Migrating(mm) | SlotRangeTag::Importing(mm) => {
                        line.append(" ");
                        line.append(mm.src_node_address.as_str());
                        line.append(" -> ");
                        line.append(mm.dst_node_address.as_str());
                    },
                    SlotRangeTag::Stable => {},
                }
                line.append(" ");
                line.append(state_name(t.state));
                lines.push(crate::replicator::Resp::Bulk(crate::replicator::BulkStr::Str(
                    line.as_str().as_bytes_vec(),
                )));
                k = k + 1;
            }
            clusters.push(crate::replicator::Resp::Arr(crate::replicator::Array::Arr(lines)));
            i = i + 1;
        }
        crate::replicator::Resp::Arr(crate::replicator::Array::Arr(clusters))
    }
}

/// The printable name of a task state.
pub fn state_name(s: MigrationState) -> (r: &'static str) {
    match s {
        MigrationState::PreCheck => "pre_check",
        MigrationState::PreBlocking => "pre_blocking",
        MigrationState::Blocking => "blocking",
        MigrationState::Committing => "committing",
        MigrationState::SwitchCommitted => "switch_committed",
    }
}

} // verus!
