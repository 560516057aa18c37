//! The forward may-analysis solver: per-block gen/kill sets over lock
//! guards, a worklist fixed-point loop, and the query for the guards live at
//! a block's entry.

use vstd::prelude::*;

use crate::cfg::Cfg;
use crate::cfg::START_BLOCK;
use crate::idset::distinct;
use crate::idset::lemma_concat_contains;
use crate::idset::lemma_distinct_same_len_same_elems;
use crate::idset::lemma_distinct_subset_len;
use crate::idset::lemma_push_contains;
use crate::idset::set_copy;
use crate::idset::set_insert;
use crate::idset::set_union_into;
use crate::statement::LockGuardEntry;
use crate::statement::LockGuardTable;
use crate::statement::OperationSequenceInfo;
use crate::statement::StatementId;

verus! {

/// The most worklist pops one `analyze` run may perform; past it the run
/// stops with whatever partial state exists, so the solver always terminates.
pub const RUN_LIMIT: u32 = 10000;

/// Whether some element of `s` shares its resource identity with `id`.
pub open spec fn rid_matched(table: LockGuardTable, s: Seq<StatementId>, id: StatementId) -> bool {
    exists|k: int| 0 <= k < s.len() && table.spec_rid(s[k]) == table.spec_rid(id)
}

/// The by-resource-identity equality the solver uses to detect that a
/// block's output changed: same cardinality, and every element's resource
/// identity is present on both sides.
pub open spec fn compare_spec(table: LockGuardTable, lhs: Seq<StatementId>, rhs: Seq<StatementId>) -> bool {
    &&& lhs.len() == rhs.len()
    &&& forall|i: int| 0 <= i < lhs.len() ==> rid_matched(table, rhs, #[trigger] lhs[i])
    &&& forall|i: int| 0 <= i < rhs.len() ==> rid_matched(table, lhs, #[trigger] rhs[i])
}

/// Whether the table marks block `b` as a gen site of guard `id` within
/// function `fn_id`.
pub open spec fn spec_gen_at(table: LockGuardTable, fn_id: u64, b: usize, id: StatementId) -> bool {
    &&& table.spec_contains(id)
    &&& id.fn_id == fn_id
    &&& table.entries@[table.spec_index_of(id)].info.gen_bbs@.contains(b)
}

/// Whether the table marks block `b` as a kill site of guard `id` within
/// function `fn_id`.
pub open spec fn spec_kill_at(table: LockGuardTable, fn_id: u64, b: usize, id: StatementId) -> bool {
    &&& table.spec_contains(id)
    &&& id.fn_id == fn_id
    &&& table.entries@[table.spec_index_of(id)].info.kill_bbs@.contains(b)
}

/// What `analyze` guarantees of every pair it reports: both guards are in
/// the table, they denote different lock resources, and the later guard is
/// one some block's gen set introduces.
pub open spec fn reported_pair_valid(
    table: LockGuardTable,
    gen_sets: Seq<Vec<StatementId>>,
    c: OperationSequenceInfo,
) -> bool {
    &&& table.spec_contains(c.first)
    &&& table.spec_contains(c.second)
    &&& table.spec_rid(c.first) != table.spec_rid(c.second)
    &&& exists|b: int| 0 <= b < gen_sets.len() && #[trigger] gen_sets[b]@.contains(c.second)
}

/// The guards the `after` sets of blocks below `b` can still gain, each
/// block weighted by one plus its fan-out: `t` is the most guards a set
/// can ever hold, and a block whose output changes requeues each of its
/// successors once.
pub open spec fn slack_sum(
    after_sets: Seq<Vec<StatementId>>,
    succ_sets: Seq<Vec<usize>>,
    t: int,
    b: nat,
) -> int
    decreases b,
{
    if b == 0 {
        0
    } else {
        slack_sum(after_sets, succ_sets, t, (b - 1) as nat) + (t - after_sets[b - 1]@.len()) * (1
            + succ_sets[b - 1]@.len())
    }
}

/// The slack is never negative while every `after` set stays within `t`.
proof fn lemma_slack_sum_nonneg(
    after_sets: Seq<Vec<StatementId>>,
    succ_sets: Seq<Vec<usize>>,
    t: int,
    b: nat,
)
    requires
        forall|k: int| 0 <= k < b ==> #[trigger] after_sets[k]@.len() <= t,
    ensures
        slack_sum(after_sets, succ_sets, t, b) >= 0,
    decreases b,
{
    if b > 0 {
        lemma_slack_sum_nonneg(after_sets, succ_sets, t, (b - 1) as nat);
        let d = t - after_sets[b - 1]@.len();
        let m = 1 + succ_sets[b - 1]@.len();
        assert(d * m >= 0) by (nonlinear_arith)
            requires
                d >= 0,
                m >= 1,
        ;
    }
}

/// Replacing one block's `after` set shifts the slack by exactly that
/// block's weighted difference.
proof fn lemma_slack_sum_update(
    after_sets: Seq<Vec<StatementId>>,
    succ_sets: Seq<Vec<usize>>,
    t: int,
    b: nat,
    i: int,
    v: Vec<StatementId>,
)
    requires
        0 <= i < after_sets.len(),
        b <= after_sets.len(),
    ensures
        i < b ==> slack_sum(after_sets.update(i, v), succ_sets, t, b) == slack_sum(
            after_sets,
            succ_sets,
            t,
            b,
        ) + (after_sets[i]@.len() - v@.len()) * (1 + succ_sets[i]@.len()),
        i >= b ==> slack_sum(after_sets.update(i, v), succ_sets, t, b) == slack_sum(
            after_sets,
            succ_sets,
            t,
            b,
        ),
    decreases b,
{
    if b > 0 {
        lemma_slack_sum_update(after_sets, succ_sets, t, (b - 1) as nat, i, v);
        if i == b - 1 {
            let lo = after_sets[i]@.len() as int;
            let lv = v@.len() as int;
            let m = 1 + succ_sets[i]@.len() as int;
            assert(after_sets.update(i, v)[b - 1] == v);
            assert(slack_sum(after_sets.update(i, v), succ_sets, t, b) == slack_sum(
                after_sets,
                succ_sets,
                t,
                (b - 1) as nat,
            ) + (t - lv) * m);
            assert(slack_sum(after_sets, succ_sets, t, b) == slack_sum(
                after_sets,
                succ_sets,
                t,
                (b - 1) as nat,
            ) + (t - lo) * m);
            assert((t - lv) * m == (t - lo) * m + (lo - lv) * m) by (nonlinear_arith);
        } else {
            assert(after_sets.update(i, v)[b - 1] == after_sets[b - 1]);
        }
    }
}

/// Whether `id` already occurs somewhere in the solver state `init`: in a
/// `before` set (the inherited context, after construction), an `after`
/// set, or a gen set. A run never invents guards, so everything its sets
/// ever hold satisfies this of the state the run started from.
pub open spec fn provenant(init: GenKill, id: StatementId) -> bool {
    ||| exists|b: int| 0 <= b < init.before@.len() && #[trigger] init.before@[b]@.contains(id)
    ||| exists|b: int| 0 <= b < init.after@.len() && #[trigger] init.after@[b]@.contains(id)
    ||| exists|b: int| 0 <= b < init.gen@.len() && #[trigger] init.gen@[b]@.contains(id)
}

/// One function-level dataflow run: static per-block `gen`/`kill` sets, the
/// mutable fixed-point state `before`/`after`, and the pending worklist.
/// All four set tables are indexed by basic block.
pub struct GenKill {
    pub gen: Vec<Vec<StatementId>>,
    pub kill: Vec<Vec<StatementId>>,
    pub before: Vec<Vec<StatementId>>,
    pub after: Vec<Vec<StatementId>>,
    pub worklist: Vec<usize>,
    /// How many blocks runs on this state have popped, kept only for the
    /// cap-safety contract of `analyze`.
    pub pops: Ghost<nat>,
}

impl GenKill {
    /// Well-formed for a graph of `n` blocks and the given table: each set
    /// table covers the `n` blocks, every stored set is duplicate-free and
    /// holds only statements the table knows, and the worklist holds only
    /// blocks of the graph.
    pub open spec fn wf(self, n: nat, table: LockGuardTable) -> bool {
        &&& self.gen@.len() == n
        &&& self.kill@.len() == n
        &&& self.before@.len() == n
        &&& self.after@.len() == n
        &&& forall|b: int| 0 <= b < n ==> distinct(#[trigger] self.gen@[b]@)
        &&& forall|b: int| 0 <= b < n ==> distinct(#[trigger] self.kill@[b]@)
        &&& forall|b: int| 0 <= b < n ==> distinct(#[trigger] self.before@[b]@)
        &&& forall|b: int| 0 <= b < n ==> distinct(#[trigger] self.after@[b]@)
        &&& forall|b: int, id: StatementId|
            0 <= b < n && #[trigger] self.gen@[b]@.contains(id) ==> table.spec_contains(id)
        &&& forall|b: int, id: StatementId|
            0 <= b < n && #[trigger] self.kill@[b]@.contains(id) ==> table.spec_contains(id)
        &&& forall|b: int, id: StatementId|
            0 <= b < n && #[trigger] self.before@[b]@.contains(id) ==> table.spec_contains(id)
        &&& forall|b: int, id: StatementId|
            0 <= b < n && #[trigger] self.after@[b]@.contains(id) ==> table.spec_contains(id)
        &&& forall|k: int| 0 <= k < self.worklist@.len() ==> #[trigger] self.worklist@[k] < n
    }

    /// The dataflow input of block `b`: the union of `after` over its
    /// predecessors, or the accumulated `before[b]` when it has none.
    pub open spec fn join_contains(self, cfg: Cfg, b: int, id: StatementId) -> bool {
        if cfg.preds@[b]@.len() > 0 {
            exists|k: int|
                0 <= k < cfg.preds@[b]@.len()
                    && self.after@[#[trigger] cfg.preds@[b]@[k] as int]@.contains(id)
        } else {
            self.before@[b]@.contains(id)
        }
    }

    /// The kill-then-gen transfer function of block `b`, applied to the
    /// block's dataflow input: `id` comes out live if it arrives live and no
    /// kill entry of `b` shares its resource, or if `b` generates it.
    pub open spec fn transfer_contains(
        self,
        cfg: Cfg,
        table: LockGuardTable,
        b: int,
        id: StatementId,
    ) -> bool {
        ||| (self.join_contains(cfg, b, id) && !rid_matched(table, self.kill@[b]@, id))
        ||| self.gen@[b]@.contains(id)
    }

    /// Some guard the transfer function of `b` lets through shares its
    /// resource identity with `id`.
    pub open spec fn transfer_rid_matched(
        self,
        cfg: Cfg,
        table: LockGuardTable,
        b: int,
        id: StatementId,
    ) -> bool {
        exists|x: StatementId|
            #[trigger] self.transfer_contains(cfg, table, b, x)
                && table.spec_rid(x) == table.spec_rid(id)
    }

    /// Block `b` is at a fixed point: `after[b]` and the transfer function
    /// applied to `b`'s input hold the same resource identities.
    pub open spec fn rid_fixed_at(self, cfg: Cfg, table: LockGuardTable, b: int) -> bool {
        &&& forall|id: StatementId|
            #[trigger] self.after@[b]@.contains(id) ==> self.transfer_rid_matched(cfg, table, b, id)
        &&& forall|id: StatementId|
            #[trigger] self.transfer_contains(cfg, table, b, id)
                ==> rid_matched(table, self.after@[b]@, id)
    }

    /// An upper bound on the pops a run from this state can perform before
    /// its worklist empties: the pending blocks, plus for every block the
    /// guards its `after` set can still gain (at most the table's size),
    /// weighted by one plus the block's fan-out. A run whose bound fits
    /// under `RUN_LIMIT` is guaranteed to drain.
    pub open spec fn work_bound(self, cfg: Cfg, table: LockGuardTable) -> int {
        self.worklist@.len() + slack_sum(
            self.after@,
            cfg.succs@,
            table.entries@.len() as int,
            self.after@.len(),
        )
    }

    /// The transfer function grows with the state: enlarging `after` and
    /// `before` sets can only enlarge a block's dataflow input, and with it
    /// the transfer output.
    proof fn lemma_transfer_monotone(
        pre: GenKill,
        post: GenKill,
        cfg: Cfg,
        table: LockGuardTable,
        b: int,
    )
        requires
            cfg.wf(),
            0 <= b < cfg.spec_len(),
            post.gen@[b]@ == pre.gen@[b]@,
            post.kill@[b]@ == pre.kill@[b]@,
            forall|id: StatementId|
                #[trigger] pre.before@[b]@.contains(id) ==> post.before@[b]@.contains(id),
            forall|k: int, id: StatementId|
                0 <= k < cfg.preds@[b]@.len()
                    && #[trigger] pre.after@[cfg.preds@[b]@[k] as int]@.contains(id)
                    ==> post.after@[cfg.preds@[b]@[k] as int]@.contains(id),
        ensures
            forall|id: StatementId|
                #[trigger] pre.transfer_contains(cfg, table, b, id)
                    ==> post.transfer_contains(cfg, table, b, id),
    {
        assert forall|id: StatementId| #[trigger] pre.transfer_contains(cfg, table, b, id)
            implies post.transfer_contains(cfg, table, b, id) by {
            if !pre.gen@[b]@.contains(id) {
                if cfg.preds@[b]@.len() > 0 {
                    let k = choose|k: int|
                        0 <= k < cfg.preds@[b]@.len()
                            && pre.after@[#[trigger] cfg.preds@[b]@[k] as int]@.contains(id);
                    assert(post.after@[cfg.preds@[b]@[k] as int]@.contains(id));
                    assert(post.join_contains(cfg, b, id));
                }
            }
        }
    }

    /// Every crossing at block `b` is in `conflicts`: whenever a guard `f`
    /// arrives live at `b` (per the current dataflow input) and survives the
    /// kill set, and `b` generates a guard `s` over a different resource,
    /// the pair `(f, s)` was reported.
    pub open spec fn crossings_reported(
        self,
        cfg: Cfg,
        table: LockGuardTable,
        b: int,
        conflicts: Seq<OperationSequenceInfo>,
    ) -> bool {
        forall|f: StatementId, s: StatementId|
            #[trigger] self.join_contains(cfg, b, f) && !rid_matched(table, self.kill@[b]@, f)
                && #[trigger] self.gen@[b]@.contains(s)
                && table.spec_rid(f) != table.spec_rid(s)
                ==> conflicts.contains((OperationSequenceInfo { first: f, second: s }))
    }

    /// Block `b`'s queryable entry snapshot has absorbed its predecessors'
    /// current outputs: every guard in some predecessor's `after` set is in
    /// `before[b]`, so the live-at-entry query over-approximates every
    /// predecessor contribution.
    pub open spec fn preds_absorbed(self, cfg: Cfg, b: int) -> bool {
        forall|k: int, id: StatementId|
            0 <= k < cfg.preds@[b]@.len()
                && #[trigger] self.after@[cfg.preds@[b]@[k] as int]@.contains(id)
                ==> self.before@[b]@.contains(id)
    }

    /// Builds the solver state for one function: `gen`/`kill` filtered to
    /// `fn_id` from the table, `before[START_BLOCK]` seeded with the
    /// inherited context, everything else empty, and every block queued.
    ///
    /// Gen or kill sites naming a block outside the graph are ignored, as
    /// nothing in the run ever consults them.
    pub fn new(
        fn_id: u64,
        cfg: &Cfg,
        crate_lockguards: &LockGuardTable,
        context: &Vec<StatementId>,
    ) -> (r: GenKill)
        requires
            cfg.wf(),
            crate_lockguards.wf(),
            distinct(context@),
            forall|k: int|
                0 <= k < context@.len() ==> crate_lockguards.spec_contains(#[trigger] context@[k]),
        ensures
            r.wf(cfg.spec_len(), *crate_lockguards),
            forall|b: usize, id: StatementId|
                b < cfg.spec_len()
                    ==> (#[trigger] r.gen@[b as int]@.contains(id)
                        <==> spec_gen_at(*crate_lockguards, fn_id, b, id)),
            forall|b: usize, id: StatementId|
                b < cfg.spec_len()
                    ==> (#[trigger] r.kill@[b as int]@.contains(id)
                        <==> spec_kill_at(*crate_lockguards, fn_id, b, id)),
            cfg.spec_len() > 0 ==> r.before@[START_BLOCK as int]@ == context@,
            forall|b: int| START_BLOCK < b < cfg.spec_len() ==> #[trigger] r.before@[b]@.len() == 0,
            forall|b: int| 0 <= b < cfg.spec_len() ==> #[trigger] r.after@[b]@.len() == 0,
            r.worklist@.len() == cfg.spec_len(),
            forall|k: int| 0 <= k < r.worklist@.len() ==> #[trigger] r.worklist@[k] == k,
            forall|b: usize| b < cfg.spec_len() ==> r.worklist@.contains(b),
            r.pops@ == 0,
    {
        let n = cfg.len();
        let n_entries = crate_lockguards.entries.len();
        let mut gen: Vec<Vec<StatementId>> = Vec::new();
        let mut kill: Vec<Vec<StatementId>> = Vec::new();
        let mut before: Vec<Vec<StatementId>> = Vec::new();
        let mut after: Vec<Vec<StatementId>> = Vec::new();
        let mut worklist: Vec<usize> = Vec::new();
        let mut b: usize = 0;
        while b < n
            invariant
                n == cfg.spec_len(),
                n_entries == crate_lockguards.entries@.len(),
                crate_lockguards.wf(),
                b <= n,
                gen@.len() == b,
                kill@.len() == b,
                before@.len() == b,
                after@.len() == b,
                worklist@.len() == b,
                forall|b2: int| 0 <= b2 < b ==> distinct(#[trigger] gen@[b2]@),
                forall|b2: int| 0 <= b2 < b ==> distinct(#[trigger] kill@[b2]@),
                forall|b2: usize, id: StatementId|
                    b2 < b
                        ==> (#[trigger] gen@[b2 as int]@.contains(id)
                            <==> spec_gen_at(*crate_lockguards, fn_id, b2, id)),
                forall|b2: usize, id: StatementId|
                    b2 < b
                        ==> (#[trigger] kill@[b2 as int]@.contains(id)
                            <==> spec_kill_at(*crate_lockguards, fn_id, b2, id)),
                forall|b2: int| 0 <= b2 < b ==> #[trigger] before@[b2]@.len() == 0,
                forall|b2: int| 0 <= b2 < b ==> #[trigger] after@[b2]@.len() == 0,
                forall|k: int| 0 <= k < b ==> #[trigger] worklist@[k] == k,
            decreases n - b,
        {
            let mut gen_b: Vec<StatementId> = Vec::new();
            let mut kill_b: Vec<StatementId> = Vec::new();
            let mut e: usize = 0;
            while e < n_entries
                invariant
                    n_entries == crate_lockguards.entries@.len(),
                    crate_lockguards.wf(),
                    e <= n_entries,
                    distinct(gen_b@),
                    distinct(kill_b@),
                    forall|id: StatementId|
                        #[trigger] gen_b@.contains(id)
                            <==> exists|k: int|
                                0 <= k < e && crate_lockguards.entries@[k].id == id
                                    && id.fn_id == fn_id
                                    && (#[trigger] crate_lockguards.entries@[k]).info.gen_bbs@.contains(b),
                    forall|id: StatementId|
                        #[trigger] kill_b@.contains(id)
                            <==> exists|k: int|
                                0 <= k < e && crate_lockguards.entries@[k].id == id
                                    && id.fn_id == fn_id
                                    && (#[trigger] crate_lockguards.entries@[k]).info.kill_bbs@.contains(b),
                decreases n_entries - e,
            {
                let entry = &crate_lockguards.entries[e];
                if entry.id.fn_id == fn_id {
                    if crate::cfg::block_list_contains(&entry.info.gen_bbs, b) {
                        set_insert(&mut gen_b, entry.id);
                    }
                    if crate::cfg::block_list_contains(&entry.info.kill_bbs, b) {
                        set_insert(&mut kill_b, entry.id);
                    }
                }
                proof {
                    assert forall|id: StatementId|
                        gen_b@.contains(id)
                            <==> exists|k: int|
                                0 <= k < e + 1 && crate_lockguards.entries@[k].id == id
                                    && id.fn_id == fn_id
                                    && (#[trigger] crate_lockguards.entries@[k]).info.gen_bbs@.contains(b) by {
                        if exists|k: int|
                            0 <= k < e + 1 && crate_lockguards.entries@[k].id == id && id.fn_id
                                == fn_id
                                && (#[trigger] crate_lockguards.entries@[k]).info.gen_bbs@.contains(b) {
                            let k = choose|k: int|
                                0 <= k < e + 1 && crate_lockguards.entries@[k].id == id && id.fn_id
                                    == fn_id
                                    && (#[trigger] crate_lockguards.entries@[k]).info.gen_bbs@.contains(
                                    b,
                                );
                            if k < e {
                                assert(exists|k2: int|
                                    0 <= k2 < e && crate_lockguards.entries@[k2].id == id
                                        && id.fn_id == fn_id
                                        && (#[trigger] crate_lockguards.entries@[k2]).info.gen_bbs@.contains(
                                        b,
                                    ));
                            }
                        }
                    }
                    assert forall|id: StatementId|
                        kill_b@.contains(id)
                            <==> exists|k: int|
                                0 <= k < e + 1 && crate_lockguards.entries@[k].id == id
                                    && id.fn_id == fn_id
                                    && (#[trigger] crate_lockguards.entries@[k]).info.kill_bbs@.contains(b) by {
                        if exists|k: int|
                            0 <= k < e + 1 && crate_lockguards.entries@[k].id == id && id.fn_id
                                == fn_id
                                && (#[trigger] crate_lockguards.entries@[k]).info.kill_bbs@.contains(b) {
                            let k = choose|k: int|
                                0 <= k < e + 1 && crate_lockguards.entries@[k].id == id && id.fn_id
                                    == fn_id
                                    && (#[trigger] crate_lockguards.entries@[k]).info.kill_bbs@.contains(
                                    b,
                                );
                            if k < e {
                                assert(exists|k2: int|
                                    0 <= k2 < e && crate_lockguards.entries@[k2].id == id
                                        && id.fn_id == fn_id
                                        && (#[trigger] crate_lockguards.entries@[k2]).info.kill_bbs@.contains(
                                        b,
                                    ));
                            }
                        }
                    }
                }
                e = e + 1;
            }
            proof {
                assert forall|id: StatementId|
                    gen_b@.contains(id) <==> spec_gen_at(*crate_lockguards, fn_id, b, id) by {
                    if gen_b@.contains(id) {
                        let k = choose|k: int|
                            0 <= k < n_entries && crate_lockguards.entries@[k].id == id && id.fn_id
                                == fn_id
                                && (#[trigger] crate_lockguards.entries@[k]).info.gen_bbs@.contains(b);
                        crate_lockguards.lemma_index_of_unique(k, id);
                    }
                    if spec_gen_at(*crate_lockguards, fn_id, b, id) {
                        let j = crate_lockguards.spec_index_of(id);
                        assert(0 <= j < n_entries && crate_lockguards.entries@[j].id == id);
                        assert(exists|k: int|
                            0 <= k < n_entries && crate_lockguards.entries@[k].id == id && id.fn_id
                                == fn_id
                                && (#[trigger] crate_lockguards.entries@[k]).info.gen_bbs@.contains(b));
                    }
                }
                assert forall|id: StatementId|
                    kill_b@.contains(id) <==> spec_kill_at(*crate_lockguards, fn_id, b, id) by {
                    if kill_b@.contains(id) {
                        let k = choose|k: int|
                            0 <= k < n_entries && crate_lockguards.entries@[k].id == id && id.fn_id
                                == fn_id
                                && (#[trigger] crate_lockguards.entries@[k]).info.kill_bbs@.contains(b);
                        crate_lockguards.lemma_index_of_unique(k, id);
                    }
                    if spec_kill_at(*crate_lockguards, fn_id, b, id) {
                        let j = crate_lockguards.spec_index_of(id);
                        assert(0 <= j < n_entries && crate_lockguards.entries@[j].id == id);
                        assert(exists|k: int|
                            0 <= k < n_entries && crate_lockguards.entries@[k].id == id && id.fn_id
                                == fn_id
                                && (#[trigger] crate_lockguards.entries@[k]).info.kill_bbs@.contains(b));
                    }
                }
            }
            gen.push(gen_b);
            kill.push(kill_b);
            before.push(Vec::new());
            after.push(Vec::new());
            worklist.push(b);
            b = b + 1;
        }
        if n > 0 {
            let ctx = set_copy(context);
            before.set(START_BLOCK, ctx);
        }
        proof {
            assert forall|b2: usize| b2 < n implies worklist@.contains(b2) by {
                assert(worklist@[b2 as int] == b2);
            }
        }
        GenKill { gen, kill, before, after, worklist, pops: Ghost(0) }
    }

    /// The set of guards assumed live at the entry of `bb`, or nothing when
    /// the block is unknown or no guard has reached it.
    pub fn get_live_lockguards(&self, bb: usize) -> (r: Option<Vec<StatementId>>)
        ensures
            match r {
                Some(v) => bb < self.before@.len() && v@ == self.before@[bb as int]@
                    && v@.len() > 0,
                None => bb >= self.before@.len() || self.before@[bb as int]@.len() == 0,
            },
    {
        if bb < self.before.len() {
            let context = &self.before[bb];
            if context.len() > 0 {
                Some(set_copy(context))
            } else {
                None
            }
        } else {
            None
        }
    }

    /// Whether some guard of `lockguards` refers to the same lock resource
    /// as `id`.
    fn has_same_resource(
        crate_lockguards: &LockGuardTable,
        lockguards: &Vec<StatementId>,
        id: StatementId,
    ) -> (r: bool)
        requires
            crate_lockguards.wf(),
            crate_lockguards.spec_contains(id),
            forall|k: int|
                0 <= k < lockguards@.len()
                    ==> crate_lockguards.spec_contains(#[trigger] lockguards@[k]),
        ensures
            r == rid_matched(*crate_lockguards, lockguards@, id),
    {
        let rid = crate_lockguards.resource_of(id);
        let n = lockguards.len();
        let mut k: usize = 0;
        while k < n
            invariant
                n == lockguards@.len(),
                k <= n,
                crate_lockguards.wf(),
                crate_lockguards.spec_contains(id),
                rid == crate_lockguards.spec_rid(id),
                forall|k2: int|
                    0 <= k2 < lockguards@.len()
                        ==> crate_lockguards.spec_contains(#[trigger] lockguards@[k2]),
                forall|k2: int|
                    0 <= k2 < k
                        ==> crate_lockguards.spec_rid(#[trigger] lockguards@[k2])
                            != crate_lockguards.spec_rid(id),
            decreases n - k,
        {
            if crate_lockguards.resource_of(lockguards[k]) == rid {
                return true;
            }
            k = k + 1;
        }
        false
    }

    /// Removes from `new_before` every guard whose resource identity matches
    /// some guard of the kill set `lockguards`.
    fn kill_kill_set(
        crate_lockguards: &LockGuardTable,
        new_before: &mut Vec<StatementId>,
        lockguards: &Vec<StatementId>,
    )
        requires
            crate_lockguards.wf(),
            distinct(old(new_before)@),
            forall|k: int|
                0 <= k < old(new_before)@.len()
                    ==> crate_lockguards.spec_contains(#[trigger] old(new_before)@[k]),
            forall|k: int|
                0 <= k < lockguards@.len()
                    ==> crate_lockguards.spec_contains(#[trigger] lockguards@[k]),
        ensures
            distinct(final(new_before)@),
            forall|id: StatementId|
                #[trigger] final(new_before)@.contains(id)
                    <==> (old(new_before)@.contains(id) && !rid_matched(
                        *crate_lockguards,
                        lockguards@,
                        id,
                    )),
    {
        let n = new_before.len();
        let mut survivors: Vec<StatementId> = Vec::new();
        let mut i: usize = 0;
        while i < n
            invariant
                n == new_before@.len(),
                i <= n,
                new_before@ == old(new_before)@,
                crate_lockguards.wf(),
                distinct(new_before@),
                distinct(survivors@),
                forall|k: int|
                    0 <= k < new_before@.len()
                        ==> crate_lockguards.spec_contains(#[trigger] new_before@[k]),
                forall|k: int|
                    0 <= k < lockguards@.len()
                        ==> crate_lockguards.spec_contains(#[trigger] lockguards@[k]),
                forall|id: StatementId|
                    #[trigger] survivors@.contains(id)
                        <==> ((exists|k: int| 0 <= k < i && new_before@[k] == id)
                            && !rid_matched(*crate_lockguards, lockguards@, id)),
            decreases n - i,
        {
            let id = new_before[i];
            if !Self::has_same_resource(crate_lockguards, lockguards, id) {
                proof {
                    if survivors@.contains(id) {
                        let k = choose|k: int| 0 <= k < i && new_before@[k] == id;
                        assert(new_before@[k] == new_before@[i as int]);
                    }
                    lemma_push_contains(survivors@, id);
                }
                survivors.push(id);
            }
            proof {
                assert forall|id2: StatementId|
                    survivors@.contains(id2)
                        <==> ((exists|k: int| 0 <= k < i + 1 && new_before@[k] == id2)
                            && !rid_matched(*crate_lockguards, lockguards@, id2)) by {
                    if (exists|k: int| 0 <= k < i + 1 && new_before@[k] == id2) && !rid_matched(
                        *crate_lockguards,
                        lockguards@,
                        id2,
                    ) {
                        let k = choose|k: int| 0 <= k < i + 1 && new_before@[k] == id2;
                        if k < i {
                            assert(exists|k2: int| 0 <= k2 < i && new_before@[k2] == id2);
                        }
                    }
                }
            }
            i = i + 1;
        }
        proof {
            assert forall|id: StatementId| new_before@.contains(id)
                implies exists|k: int| 0 <= k < n && new_before@[k] == id by {
                let k = choose|k: int| 0 <= k < new_before@.len() && new_before@[k] == id;
                assert(0 <= k < n && new_before@[k] == id);
            }
        }
        *new_before = survivors;
    }

    /// Reports, for every guard of the gen set `lockguards`, each already
    /// live guard of `new_before` over a different resource, then unions the
    /// gen set into `new_before`.
    fn union_gen_set(
        crate_lockguards: &LockGuardTable,
        new_before: &mut Vec<StatementId>,
        lockguards: &Vec<StatementId>,
    ) -> (conflict_locks: Vec<OperationSequenceInfo>)
        requires
            crate_lockguards.wf(),
            distinct(old(new_before)@),
            distinct(lockguards@),
            forall|k: int|
                0 <= k < old(new_before)@.len()
                    ==> crate_lockguards.spec_contains(#[trigger] old(new_before)@[k]),
            forall|k: int|
                0 <= k < lockguards@.len()
                    ==> crate_lockguards.spec_contains(#[trigger] lockguards@[k]),
        ensures
            distinct(final(new_before)@),
            forall|id: StatementId|
                #[trigger] final(new_before)@.contains(id)
                    <==> (old(new_before)@.contains(id) || lockguards@.contains(id)),
            forall|k: int|
                0 <= k < conflict_locks@.len()
                    ==> old(new_before)@.contains((#[trigger] conflict_locks@[k]).first)
                        && lockguards@.contains(conflict_locks@[k].second)
                        && crate_lockguards.spec_rid(conflict_locks@[k].first)
                            != crate_lockguards.spec_rid(conflict_locks@[k].second),
            forall|f: StatementId, s: StatementId|
                #[trigger] old(new_before)@.contains(f) && #[trigger] lockguards@.contains(s)
                    && crate_lockguards.spec_rid(f) != crate_lockguards.spec_rid(s)
                    ==> conflict_locks@.contains((OperationSequenceInfo { first: f, second: s })),
            forall|k1: int, k2: int|
                0 <= k1 < conflict_locks@.len() && 0 <= k2 < conflict_locks@.len() && k1 != k2
                    ==> conflict_locks@[k1] != conflict_locks@[k2],
            conflict_locks@.len() <= old(new_before)@.len() * lockguards@.len(),
    {
        let nb_len = new_before.len();
        let g_len = lockguards.len();
        let mut conflict_locks: Vec<OperationSequenceInfo> = Vec::new();
        let mut i: usize = 0;
        while i < nb_len
            invariant
                nb_len == new_before@.len(),
                g_len == lockguards@.len(),
                i <= nb_len,
                new_before@ == old(new_before)@,
                crate_lockguards.wf(),
                forall|k: int|
                    0 <= k < new_before@.len()
                        ==> crate_lockguards.spec_contains(#[trigger] new_before@[k]),
                forall|k: int|
                    0 <= k < lockguards@.len()
                        ==> crate_lockguards.spec_contains(#[trigger] lockguards@[k]),
                forall|k: int|
                    0 <= k < conflict_locks@.len()
                        ==> new_before@.contains((#[trigger] conflict_locks@[k]).first)
                            && lockguards@.contains(conflict_locks@[k].second)
                            && crate_lockguards.spec_rid(conflict_locks@[k].first)
                                != crate_lockguards.spec_rid(conflict_locks@[k].second),
                forall|f: StatementId, s: StatementId|
                    (exists|ki: int| 0 <= ki < i && new_before@[ki] == f)
                        && lockguards@.contains(s) && #[trigger] crate_lockguards.spec_rid(f)
                        != #[trigger] crate_lockguards.spec_rid(s)
                        ==> conflict_locks@.contains((OperationSequenceInfo { first: f, second: s })),
                distinct(new_before@),
                distinct(lockguards@),
                forall|k: int|
                    0 <= k < conflict_locks@.len()
                        ==> exists|ki: int|
                            0 <= ki < i && #[trigger] new_before@[ki]
                                == (#[trigger] conflict_locks@[k]).first,
                forall|k1: int, k2: int|
                    0 <= k1 < conflict_locks@.len() && 0 <= k2 < conflict_locks@.len() && k1 != k2
                        ==> conflict_locks@[k1] != conflict_locks@[k2],
                conflict_locks@.len() <= i * g_len,
            decreases nb_len - i,
        {
            let first = new_before[i];
            let mut j: usize = 0;
            while j < g_len
                invariant
                    nb_len == new_before@.len(),
                    g_len == lockguards@.len(),
                    i < nb_len,
                    j <= g_len,
                    first == new_before@[i as int],
                    new_before@ == old(new_before)@,
                    crate_lockguards.wf(),
                    forall|k: int|
                        0 <= k < new_before@.len()
                            ==> crate_lockguards.spec_contains(#[trigger] new_before@[k]),
                    forall|k: int|
                        0 <= k < lockguards@.len()
                            ==> crate_lockguards.spec_contains(#[trigger] lockguards@[k]),
                    forall|k: int|
                        0 <= k < conflict_locks@.len()
                            ==> new_before@.contains((#[trigger] conflict_locks@[k]).first)
                                && lockguards@.contains(conflict_locks@[k].second)
                                && crate_lockguards.spec_rid(conflict_locks@[k].first)
                                    != crate_lockguards.spec_rid(conflict_locks@[k].second),
                    forall|f: StatementId, s: StatementId|
                        (exists|ki: int| 0 <= ki < i && new_before@[ki] == f)
                            && lockguards@.contains(s) && #[trigger] crate_lockguards.spec_rid(f)
                            != #[trigger] crate_lockguards.spec_rid(s)
                            ==> conflict_locks@.contains(
                                (OperationSequenceInfo { first: f, second: s }),
                            ),
                    forall|kj: int|
                        0 <= kj < j && crate_lockguards.spec_rid(first)
                            != crate_lockguards.spec_rid(#[trigger] lockguards@[kj])
                            ==> conflict_locks@.contains(
                                (OperationSequenceInfo { first: first, second: lockguards@[kj] }),
                            ),
                    distinct(new_before@),
                    distinct(lockguards@),
                    forall|k: int|
                        0 <= k < conflict_locks@.len()
                            ==> (exists|ki: int|
                                0 <= ki < i && #[trigger] new_before@[ki]
                                    == (#[trigger] conflict_locks@[k]).first)
                                || (conflict_locks@[k].first == first && exists|kj: int|
                                    0 <= kj < j && #[trigger] lockguards@[kj]
                                        == conflict_locks@[k].second),
                    forall|k1: int, k2: int|
                        0 <= k1 < conflict_locks@.len() && 0 <= k2 < conflict_locks@.len() && k1
                            != k2 ==> conflict_locks@[k1] != conflict_locks@[k2],
                    conflict_locks@.len() <= i * g_len + j,
                decreases g_len - j,
            {
                let second = lockguards[j];
                if crate_lockguards.resource_of(first) != crate_lockguards.resource_of(second) {
                    proof {
                        lemma_push_contains(
                            conflict_locks@,
                            OperationSequenceInfo { first: first, second: second },
                        );
                        assert(new_before@.contains(first));
                        assert(lockguards@.contains(second));
                        assert forall|k: int| 0 <= k < conflict_locks@.len()
                            implies conflict_locks@[k] != (OperationSequenceInfo {
                            first: first,
                            second: second,
                        }) by {
                            if conflict_locks@[k] == (OperationSequenceInfo {
                                first: first,
                                second: second,
                            }) {
                                if exists|ki: int|
                                    0 <= ki < i && #[trigger] new_before@[ki]
                                        == conflict_locks@[k].first {
                                    let ki = choose|ki: int|
                                        0 <= ki < i && #[trigger] new_before@[ki]
                                            == conflict_locks@[k].first;
                                    assert(new_before@[ki] == new_before@[i as int]);
                                } else {
                                    let kj = choose|kj: int|
                                        0 <= kj < j && #[trigger] lockguards@[kj]
                                            == conflict_locks@[k].second;
                                    assert(lockguards@[kj] == lockguards@[j as int]);
                                }
                            }
                        }
                    }
                    conflict_locks.push(OperationSequenceInfo { first: first, second: second });
                }
                j = j + 1;
            }
            proof {
                assert forall|k: int| 0 <= k < conflict_locks@.len()
                    implies exists|ki: int|
                    0 <= ki < i + 1 && #[trigger] new_before@[ki]
                        == (#[trigger] conflict_locks@[k]).first by {
                    if exists|ki: int|
                        0 <= ki < i && #[trigger] new_before@[ki] == conflict_locks@[k].first {
                        let ki = choose|ki: int|
                            0 <= ki < i && #[trigger] new_before@[ki] == conflict_locks@[k].first;
                        assert(0 <= ki < i + 1 && new_before@[ki] == conflict_locks@[k].first);
                    } else {
                        assert(new_before@[i as int] == conflict_locks@[k].first);
                    }
                }
                assert((i as int) * (g_len as int) + (g_len as int) == ((i as int) + 1) * (
                g_len as int)) by (nonlinear_arith);
                assert forall|f: StatementId, s: StatementId|
                    (exists|ki: int| 0 <= ki < i + 1 && new_before@[ki] == f)
                        && lockguards@.contains(s) && #[trigger] crate_lockguards.spec_rid(f)
                        != #[trigger] crate_lockguards.spec_rid(s)
                    implies conflict_locks@.contains(
                        (OperationSequenceInfo { first: f, second: s }),
                    ) by {
                    let ki = choose|ki: int| 0 <= ki < i + 1 && new_before@[ki] == f;
                    if ki < i {
                        assert(exists|k2: int| 0 <= k2 < i && new_before@[k2] == f);
                    } else {
                        let kj = choose|kj: int| 0 <= kj < g_len && lockguards@[kj] == s;
                        assert(f == first);
                        assert(conflict_locks@.contains(
                            (OperationSequenceInfo { first: first, second: lockguards@[kj] }),
                        ));
                    }
                }
            }
            i = i + 1;
        }
        proof {
            assert forall|f: StatementId| new_before@.contains(f)
                implies exists|ki: int| 0 <= ki < nb_len && new_before@[ki] == f by {
                let ki = choose|ki: int| 0 <= ki < new_before@.len() && new_before@[ki] == f;
                assert(0 <= ki < nb_len && new_before@[ki] == f);
            }
        }
        set_union_into(new_before, lockguards);
        conflict_locks
    }

    /// The solver's change test: same cardinality and the resource
    /// identities of each side all present on the other.
    fn compare_lockguards(
        crate_lockguards: &LockGuardTable,
        lhs: &Vec<StatementId>,
        rhs: &Vec<StatementId>,
    ) -> (r: bool)
        requires
            crate_lockguards.wf(),
            forall|k: int|
                0 <= k < lhs@.len() ==> crate_lockguards.spec_contains(#[trigger] lhs@[k]),
            forall|k: int|
                0 <= k < rhs@.len() ==> crate_lockguards.spec_contains(#[trigger] rhs@[k]),
        ensures
            r == compare_spec(*crate_lockguards, lhs@, rhs@),
    {
        let lhs_len = lhs.len();
        let rhs_len = rhs.len();
        if lhs_len != rhs_len {
            return false;
        }
        let mut i: usize = 0;
        while i < lhs_len
            invariant
                lhs_len == lhs@.len(),
                rhs_len == rhs@.len(),
                i <= lhs_len,
                crate_lockguards.wf(),
                forall|k: int|
                    0 <= k < lhs@.len() ==> crate_lockguards.spec_contains(#[trigger] lhs@[k]),
                forall|k: int|
                    0 <= k < rhs@.len() ==> crate_lockguards.spec_contains(#[trigger] rhs@[k]),
                forall|k: int| 0 <= k < i ==> rid_matched(*crate_lockguards, rhs@, #[trigger] lhs@[k]),
            decreases lhs_len - i,
        {
            if !Self::has_same_resource(crate_lockguards, rhs, lhs[i]) {
                return false;
            }
            i = i + 1;
        }
        let mut k: usize = 0;
        while k < rhs_len
            invariant
                lhs_len == lhs@.len(),
                rhs_len == rhs@.len(),
                k <= rhs_len,
                crate_lockguards.wf(),
                forall|k2: int|
                    0 <= k2 < lhs@.len() ==> crate_lockguards.spec_contains(#[trigger] lhs@[k2]),
                forall|k2: int|
                    0 <= k2 < rhs@.len() ==> crate_lockguards.spec_contains(#[trigger] rhs@[k2]),
                forall|k2: int|
                    0 <= k2 < lhs@.len() ==> rid_matched(*crate_lockguards, rhs@, #[trigger] lhs@[k2]),
                forall|k2: int|
                    0 <= k2 < k ==> rid_matched(*crate_lockguards, lhs@, #[trigger] rhs@[k2]),
            decreases rhs_len - k,
        {
            if !Self::has_same_resource(crate_lockguards, lhs, rhs[k]) {
                return false;
            }
            k = k + 1;
        }
        true
    }

    /// A block's fixed-point status depends only on its own four sets and
    /// its predecessors' `after` sets: a change anywhere else preserves it.
    proof fn lemma_rid_fixed_frame(
        pre: GenKill,
        post: GenKill,
        cfg: Cfg,
        table: LockGuardTable,
        b: int,
    )
        requires
            cfg.wf(),
            0 <= b < cfg.spec_len(),
            post.gen@[b]@ == pre.gen@[b]@,
            post.kill@[b]@ == pre.kill@[b]@,
            post.before@[b]@ == pre.before@[b]@,
            post.after@[b]@ == pre.after@[b]@,
            forall|k: int|
                0 <= k < cfg.preds@[b]@.len()
                    ==> post.after@[#[trigger] cfg.preds@[b]@[k] as int]@
                        == pre.after@[cfg.preds@[b]@[k] as int]@,
            pre.rid_fixed_at(cfg, table, b),
        ensures
            post.rid_fixed_at(cfg, table, b),
    {
        assert forall|id: StatementId|
            post.transfer_contains(cfg, table, b, id)
                <==> pre.transfer_contains(cfg, table, b, id) by {
            if cfg.preds@[b]@.len() > 0 {
                if post.join_contains(cfg, b, id) {
                    let k = choose|k: int|
                        0 <= k < cfg.preds@[b]@.len()
                            && post.after@[#[trigger] cfg.preds@[b]@[k] as int]@.contains(id);
                    assert(pre.after@[cfg.preds@[b]@[k] as int]@.contains(id));
                    assert(pre.join_contains(cfg, b, id));
                }
                if pre.join_contains(cfg, b, id) {
                    let k = choose|k: int|
                        0 <= k < cfg.preds@[b]@.len()
                            && pre.after@[#[trigger] cfg.preds@[b]@[k] as int]@.contains(id);
                    assert(post.after@[cfg.preds@[b]@[k] as int]@.contains(id));
                    assert(post.join_contains(cfg, b, id));
                }
            }
        }
        assert forall|id: StatementId| #[trigger] post.after@[b]@.contains(id)
            implies post.transfer_rid_matched(cfg, table, b, id) by {
            assert(pre.after@[b]@.contains(id));
            assert(pre.transfer_rid_matched(cfg, table, b, id));
            let x = choose|x: StatementId|
                #[trigger] pre.transfer_contains(cfg, table, b, x)
                    && table.spec_rid(x) == table.spec_rid(id);
            assert(post.transfer_contains(cfg, table, b, x));
        }
        assert forall|id: StatementId| #[trigger] post.transfer_contains(cfg, table, b, id)
            implies rid_matched(table, post.after@[b]@, id) by {
            assert(pre.transfer_contains(cfg, table, b, id));
            assert(rid_matched(table, pre.after@[b]@, id));
        }
    }

    /// Like `lemma_rid_fixed_frame`, for the crossings of a block: they stay
    /// reported when the block's own sets and its predecessors' `after`
    /// sets are untouched and the report list only gains pairs.
    proof fn lemma_crossings_frame(
        pre: GenKill,
        post: GenKill,
        cfg: Cfg,
        table: LockGuardTable,
        b: int,
        c_pre: Seq<OperationSequenceInfo>,
        c_post: Seq<OperationSequenceInfo>,
    )
        requires
            cfg.wf(),
            0 <= b < cfg.spec_len(),
            post.gen@[b]@ == pre.gen@[b]@,
            post.kill@[b]@ == pre.kill@[b]@,
            post.before@[b]@ == pre.before@[b]@,
            forall|k: int|
                0 <= k < cfg.preds@[b]@.len()
                    ==> post.after@[#[trigger] cfg.preds@[b]@[k] as int]@
                        == pre.after@[cfg.preds@[b]@[k] as int]@,
            forall|x: OperationSequenceInfo| #[trigger] c_pre.contains(x) ==> c_post.contains(x),
            pre.crossings_reported(cfg, table, b, c_pre),
        ensures
            post.crossings_reported(cfg, table, b, c_post),
    {
        assert forall|f: StatementId, s: StatementId|
            #[trigger] post.join_contains(cfg, b, f) && !rid_matched(table, post.kill@[b]@, f)
                && #[trigger] post.gen@[b]@.contains(s)
                && table.spec_rid(f) != table.spec_rid(s)
            implies c_post.contains((OperationSequenceInfo { first: f, second: s })) by {
            if cfg.preds@[b]@.len() > 0 {
                let k = choose|k: int|
                    0 <= k < cfg.preds@[b]@.len()
                        && post.after@[#[trigger] cfg.preds@[b]@[k] as int]@.contains(f);
                assert(pre.after@[cfg.preds@[b]@[k] as int]@.contains(f));
            }
            assert(pre.join_contains(cfg, b, f));
            assert(c_pre.contains((OperationSequenceInfo { first: f, second: s })));
        }
    }

    /// Drains the worklist: pops a block, joins its predecessors' outputs
    /// (accumulating the join into `before`), applies kill then gen while
    /// collecting co-held distinct-resource pairs, and requeues successors
    /// whenever the block's output changes by resource identity. Stops when
    /// the worklist empties or after `RUN_LIMIT` pops.
    ///
    /// On entry the state must be as `new` leaves it: every block queued
    /// and every `after` set empty.
    ///
    /// The contract states the run's laws. Always: `before` only ever grows
    /// (monotonicity), a predecessor-less block keeps its entry set exactly
    /// (the inherited context at the entry block), every set member and
    /// every reported guard comes from the initial state (provenance),
    /// `after[b]` never exceeds its own transfer output, and every reported
    /// pair is a pair of table guards over distinct resources whose later
    /// guard some block generates. On a drained run additionally: every
    /// block satisfies the fixed-point equation `after[b] ==
    /// transfer(input of b)` up to resource identity, `before[b]` has
    /// absorbed every predecessor's final output, and every crossing — a
    /// surviving incoming guard meeting a generated guard over another
    /// resource — is in the returned list. And the run is guaranteed to
    /// drain whenever `work_bound`, computed from the input sizes alone,
    /// fits under `RUN_LIMIT`.
    #[verifier::loop_isolation(false)]
    pub fn analyze(
        &mut self,
        cfg: &Cfg,
        crate_lockguards: &LockGuardTable,
    ) -> (conflict_lock_info: Vec<OperationSequenceInfo>)
        requires
            cfg.wf(),
            crate_lockguards.wf(),
            old(self).wf(cfg.spec_len(), *crate_lockguards),
            forall|b: usize| b < cfg.spec_len() ==> old(self).worklist@.contains(b),
            forall|b: int| 0 <= b < cfg.spec_len() ==> #[trigger] old(self).after@[b]@.len() == 0,
        ensures
            final(self).wf(cfg.spec_len(), *crate_lockguards),
            final(self).gen@ == old(self).gen@,
            final(self).kill@ == old(self).kill@,
            forall|b: int, id: StatementId|
                0 <= b < cfg.spec_len() && #[trigger] old(self).before@[b]@.contains(id)
                    ==> final(self).before@[b]@.contains(id),
            forall|b: int|
                0 <= b < cfg.spec_len() && cfg.preds@[b]@.len() == 0
                    ==> final(self).before@[b]@ == #[trigger] old(self).before@[b]@,
            forall|b: int, id: StatementId|
                0 <= b < cfg.spec_len() && #[trigger] final(self).before@[b]@.contains(id)
                    ==> provenant(*old(self), id),
            forall|b: int, id: StatementId|
                0 <= b < cfg.spec_len() && #[trigger] final(self).after@[b]@.contains(id)
                    ==> provenant(*old(self), id),
            forall|k: int|
                0 <= k < conflict_lock_info@.len()
                    ==> reported_pair_valid(
                        *crate_lockguards,
                        final(self).gen@,
                        #[trigger] conflict_lock_info@[k],
                    ),
            forall|k: int|
                0 <= k < conflict_lock_info@.len()
                    ==> provenant(*old(self), (#[trigger] conflict_lock_info@[k]).first),
            final(self).worklist@.len() == 0
                ==> forall|b: int|
                    0 <= b < cfg.spec_len()
                        ==> final(self).rid_fixed_at(*cfg, *crate_lockguards, b),
            final(self).worklist@.len() == 0
                ==> forall|b: int|
                    0 <= b < cfg.spec_len() ==> final(self).preds_absorbed(*cfg, b),
            final(self).worklist@.len() == 0
                ==> forall|b: int|
                    0 <= b < cfg.spec_len()
                        ==> final(self).crossings_reported(
                            *cfg,
                            *crate_lockguards,
                            b,
                            conflict_lock_info@,
                        ),
            final(self).pops@ <= old(self).pops@ + RUN_LIMIT + 1,
            final(self).worklist@.len() > 0
                ==> final(self).pops@ == old(self).pops@ + RUN_LIMIT + 1,
            forall|b: int, id: StatementId|
                0 <= b < cfg.spec_len() && #[trigger] final(self).after@[b]@.contains(id)
                    ==> final(self).transfer_contains(*cfg, *crate_lockguards, b, id),
            old(self).work_bound(*cfg, *crate_lockguards) <= RUN_LIMIT
                ==> final(self).worklist@.len() == 0,
    {
        let n_blocks = cfg.len();
        let ghost n = cfg.spec_len();
        let ghost table = *crate_lockguards;
        let ghost t_size = crate_lockguards.entries@.len() as int;
        let mut conflict_lock_info: Vec<OperationSequenceInfo> = Vec::new();
        let mut count: u32 = 0;
        proof {
            assert forall|b: int, id: StatementId|
                0 <= b < n && #[trigger] self.before@[b]@.contains(id)
                implies provenant(*old(self), id) by {
                assert(0 <= b < old(self).before@.len() && old(self).before@[b]@.contains(id));
            }
            assert forall|b: int, id: StatementId|
                0 <= b < n && #[trigger] self.after@[b]@.contains(id)
                implies provenant(*old(self), id) by {
                assert(0 <= b < old(self).after@.len() && old(self).after@[b]@.contains(id));
            }
        }
        while self.worklist.len() > 0 && count <= RUN_LIMIT
            invariant
                count <= RUN_LIMIT + 1,
                self.wf(n, table),
                self.gen@ == old(self).gen@,
                self.kill@ == old(self).kill@,
                forall|b: int, id: StatementId|
                    0 <= b < n && #[trigger] old(self).before@[b]@.contains(id)
                        ==> self.before@[b]@.contains(id),
                forall|b: int|
                    0 <= b < n && cfg.preds@[b]@.len() == 0
                        ==> self.before@[b]@ == #[trigger] old(self).before@[b]@,
                forall|b: int, id: StatementId|
                    0 <= b < n && #[trigger] self.before@[b]@.contains(id)
                        ==> provenant(*old(self), id),
                forall|b: int, id: StatementId|
                    0 <= b < n && #[trigger] self.after@[b]@.contains(id)
                        ==> provenant(*old(self), id),
                forall|k: int|
                    0 <= k < conflict_lock_info@.len()
                        ==> reported_pair_valid(table, self.gen@, #[trigger] conflict_lock_info@[k]),
                forall|k: int|
                    0 <= k < conflict_lock_info@.len()
                        ==> provenant(*old(self), (#[trigger] conflict_lock_info@[k]).first),
                forall|b: usize|
                    b < n && !self.worklist@.contains(b)
                        ==> self.rid_fixed_at(*cfg, table, b as int),
                forall|b: int| 0 <= b < n ==> #[trigger] self.after@[b]@.len() <= table.entries@.len(),
                forall|b: int, id: StatementId|
                    0 <= b < n && #[trigger] self.after@[b]@.contains(id)
                        ==> self.transfer_contains(*cfg, table, b, id),
                count + self.work_bound(*cfg, table) <= old(self).work_bound(*cfg, table),
                forall|b: usize|
                    b < n && !self.worklist@.contains(b) ==> self.preds_absorbed(*cfg, b as int),
                forall|b: usize|
                    b < n && !self.worklist@.contains(b)
                        ==> self.crossings_reported(*cfg, table, b as int, conflict_lock_info@),
                self.pops@ == old(self).pops@ + count,
            decreases RUN_LIMIT + 1 - count,
        {
            count = count + 1;
            let ghost pre = *self;
            self.pops = Ghost((self.pops@ + 1) as nat);
            let cur = self.worklist.pop().unwrap();
            let ghost wl_mid = self.worklist@;
            proof {
                assert(pre.worklist@[pre.worklist@.len() - 1] < n);
                assert(wl_mid == pre.worklist@.subrange(0, pre.worklist@.len() - 1));
            }
            let mut new_before: Vec<StatementId> = Vec::new();
            let preds_len = cfg.preds[cur].len();
            if preds_len > 0 {
                let mut k: usize = 0;
                while k < preds_len
                    invariant
                        k <= preds_len,
                        distinct(new_before@),
                        forall|id: StatementId|
                            #[trigger] new_before@.contains(id)
                                <==> exists|k2: int|
                                    0 <= k2 < k
                                        && self.after@[#[trigger] cfg.preds@[cur as int]@[k2] as int]@.contains(
                                        id,
                                    ),
                    decreases preds_len - k,
                {
                    let ghost seen = k as int;
                    let p = cfg.preds[cur][k];
                    set_union_into(&mut new_before, &self.after[p]);
                    proof {
                        assert forall|id: StatementId|
                            new_before@.contains(id)
                                <==> exists|k2: int|
                                    0 <= k2 < seen + 1
                                        && self.after@[#[trigger] cfg.preds@[cur as int]@[k2] as int]@.contains(
                                        id,
                                    ) by {
                            if new_before@.contains(id) {
                                if !(exists|k2: int|
                                    0 <= k2 < seen
                                        && self.after@[#[trigger] cfg.preds@[cur as int]@[k2] as int]@.contains(
                                        id,
                                    )) {
                                    assert(self.after@[cfg.preds@[cur as int]@[seen] as int]@.contains(
                                        id,
                                    ));
                                }
                            }
                            if exists|k2: int|
                                0 <= k2 < seen + 1
                                    && self.after@[#[trigger] cfg.preds@[cur as int]@[k2] as int]@.contains(
                                    id,
                                ) {
                                let k2 = choose|k2: int|
                                    0 <= k2 < seen + 1
                                        && self.after@[#[trigger] cfg.preds@[cur as int]@[k2] as int]@.contains(
                                        id,
                                    );
                                if k2 < seen {
                                    assert(exists|k3: int|
                                        0 <= k3 < seen
                                            && self.after@[#[trigger] cfg.preds@[cur as int]@[k3] as int]@.contains(
                                            id,
                                        ));
                                }
                            }
                        }
                    }
                    k = k + 1;
                }
                let mut acc = set_copy(&self.before[cur]);
                set_union_into(&mut acc, &new_before);
                self.before.set(cur, acc);
            } else {
                new_before = set_copy(&self.before[cur]);
            }
            let ghost mid = *self;
            let ghost nb_join = new_before@;
            proof {
                assert forall|id: StatementId| nb_join.contains(id)
                    implies mid.join_contains(*cfg, cur as int, id) by {
                    if cfg.preds@[cur as int]@.len() > 0 {
                        let k2 = choose|k2: int|
                            0 <= k2 < preds_len
                                && mid.after@[#[trigger] cfg.preds@[cur as int]@[k2] as int]@.contains(
                                id,
                            );
                        assert(0 <= k2 < cfg.preds@[cur as int]@.len());
                    }
                }
                assert forall|id: StatementId| mid.join_contains(*cfg, cur as int, id)
                    implies nb_join.contains(id) by {
                    if cfg.preds@[cur as int]@.len() > 0 {
                        let k2 = choose|k2: int|
                            0 <= k2 < cfg.preds@[cur as int]@.len()
                                && mid.after@[#[trigger] cfg.preds@[cur as int]@[k2] as int]@.contains(
                                id,
                            );
                        assert(0 <= k2 < preds_len);
                    }
                }
                assert forall|id: StatementId| #[trigger] mid.before@[cur as int]@.contains(id)
                    implies (pre.before@[cur as int]@.contains(id) || nb_join.contains(id)) by {
                }
                assert forall|id: StatementId| #[trigger] pre.before@[cur as int]@.contains(id)
                    implies mid.before@[cur as int]@.contains(id) by {
                }
                if cfg.preds@[cur as int]@.len() > 0 {
                    assert forall|id: StatementId| #[trigger] nb_join.contains(id)
                        implies mid.before@[cur as int]@.contains(id) by {
                    }
                }
                assert forall|id: StatementId| #[trigger] nb_join.contains(id)
                    implies table.spec_contains(id) by {
                    assert(mid.join_contains(*cfg, cur as int, id));
                    if cfg.preds@[cur as int]@.len() > 0 {
                        let k2 = choose|k2: int|
                            0 <= k2 < cfg.preds@[cur as int]@.len()
                                && mid.after@[#[trigger] cfg.preds@[cur as int]@[k2] as int]@.contains(
                                id,
                            );
                        assert(cfg.preds@[cur as int]@[k2] < n);
                    }
                }
            }
            proof {
                assert forall|k: int| 0 <= k < new_before@.len()
                    implies table.spec_contains(#[trigger] new_before@[k]) by {
                    assert(new_before@.contains(new_before@[k]));
                }
                assert forall|k: int| 0 <= k < self.kill@[cur as int]@.len()
                    implies table.spec_contains(#[trigger] self.kill@[cur as int]@[k]) by {
                    assert(self.kill@[cur as int]@.contains(self.kill@[cur as int]@[k]));
                }
            }
            Self::kill_kill_set(crate_lockguards, &mut new_before, &self.kill[cur]);
            let ghost nb_kill = new_before@;
            proof {
                assert forall|k: int| 0 <= k < new_before@.len()
                    implies table.spec_contains(#[trigger] new_before@[k]) by {
                    assert(new_before@.contains(new_before@[k]));
                    assert(nb_join.contains(new_before@[k]));
                }
                assert forall|k: int| 0 <= k < self.gen@[cur as int]@.len()
                    implies table.spec_contains(#[trigger] self.gen@[cur as int]@[k]) by {
                    assert(self.gen@[cur as int]@.contains(self.gen@[cur as int]@[k]));
                }
            }
            let conflict_locks = Self::union_gen_set(
                crate_lockguards,
                &mut new_before,
                &self.gen[cur],
            );
            let ghost nb_final = new_before@;
            proof {
                assert forall|id: StatementId|
                    nb_final.contains(id)
                        <==> mid.transfer_contains(*cfg, table, cur as int, id) by {
                    assert(nb_kill.contains(id) <==> (nb_join.contains(id) && !rid_matched(
                        table,
                        mid.kill@[cur as int]@,
                        id,
                    )));
                }
                assert forall|id: StatementId| #[trigger] nb_final.contains(id)
                    implies table.spec_contains(id) by {
                    if !nb_kill.contains(id) {
                        assert(mid.gen@[cur as int]@.contains(id));
                    }
                }
            }
            let ghost confl_pre = conflict_lock_info@;
            let ghost confs_seq = conflict_locks@;
            let mut confl_new = conflict_locks;
            conflict_lock_info.append(&mut confl_new);
            proof {
                lemma_concat_contains(confl_pre, confs_seq);
                assert(conflict_lock_info@ == confl_pre + confs_seq);
            }
            proof {
                assert forall|k: int| 0 <= k < conflict_lock_info@.len()
                    implies reported_pair_valid(
                        table,
                        self.gen@,
                        #[trigger] conflict_lock_info@[k],
                    ) by {
                    if k >= confl_pre.len() {
                        let c = conflict_lock_info@[k];
                        assert(nb_kill.contains(c.first));
                        assert(self.gen@[cur as int]@.contains(c.second));
                    } else {
                        assert(reported_pair_valid(table, self.gen@, confl_pre[k]));
                    }
                }
                assert forall|k: int| 0 <= k < conflict_lock_info@.len()
                    implies provenant(*old(self), (#[trigger] conflict_lock_info@[k]).first) by {
                    if k >= confl_pre.len() {
                        let c = conflict_lock_info@[k];
                        assert(nb_kill.contains(c.first));
                        assert(nb_join.contains(c.first));
                        assert(mid.join_contains(*cfg, cur as int, c.first));
                        if cfg.preds@[cur as int]@.len() > 0 {
                            let k2 = choose|k2: int|
                                0 <= k2 < cfg.preds@[cur as int]@.len()
                                    && mid.after@[#[trigger] cfg.preds@[cur as int]@[k2] as int]@.contains(
                                    c.first,
                                );
                            assert(pre.after@[cfg.preds@[cur as int]@[k2] as int]@.contains(c.first));
                        } else {
                            assert(pre.before@[cur as int]@.contains(c.first));
                        }
                    } else {
                        assert(provenant(*old(self), confl_pre[k].first));
                    }
                }
            }
            proof {
                assert forall|k: int| 0 <= k < new_before@.len()
                    implies table.spec_contains(#[trigger] new_before@[k]) by {
                    assert(new_before@.contains(new_before@[k]));
                }
                assert forall|k: int| 0 <= k < self.after@[cur as int]@.len()
                    implies table.spec_contains(#[trigger] self.after@[cur as int]@[k]) by {
                    assert(self.after@[cur as int]@.contains(self.after@[cur as int]@[k]));
                }
            }
            let changed = !Self::compare_lockguards(crate_lockguards, &new_before, &self.after[cur]);
            if changed {
                proof {
                    // The old output is contained in the new one, and
                    // strictly so: otherwise the comparison would have
                    // found the two equal by resource identity.
                    assert forall|id: StatementId| #[trigger] mid.after@[cur as int]@.contains(id)
                        implies nb_final.contains(id) by {
                        assert(pre.after@[cur as int]@.contains(id));
                        assert(pre.transfer_contains(*cfg, table, cur as int, id));
                        if !pre.gen@[cur as int]@.contains(id) {
                            if cfg.preds@[cur as int]@.len() > 0 {
                                let k2 = choose|k2: int|
                                    0 <= k2 < cfg.preds@[cur as int]@.len()
                                        && pre.after@[#[trigger] cfg.preds@[cur as int]@[k2] as int]@.contains(
                                        id,
                                    );
                                assert(mid.after@[cfg.preds@[cur as int]@[k2] as int]@.contains(id));
                                assert(mid.join_contains(*cfg, cur as int, id));
                            } else {
                                assert(mid.before@[cur as int]@ == pre.before@[cur as int]@);
                                assert(mid.join_contains(*cfg, cur as int, id));
                            }
                        }
                        assert(mid.transfer_contains(*cfg, table, cur as int, id));
                    }
                    lemma_distinct_subset_len(mid.after@[cur as int]@, nb_final);
                    if nb_final.len() <= mid.after@[cur as int]@.len() {
                        lemma_distinct_same_len_same_elems(mid.after@[cur as int]@, nb_final);
                        assert(compare_spec(table, nb_final, mid.after@[cur as int]@)) by {
                            assert forall|i: int| 0 <= i < nb_final.len()
                                implies rid_matched(
                                table,
                                mid.after@[cur as int]@,
                                #[trigger] nb_final[i],
                            ) by {
                                assert(nb_final.contains(nb_final[i]));
                                assert(mid.after@[cur as int]@.contains(nb_final[i]));
                                lemma_contains_rid_matched(
                                    table,
                                    mid.after@[cur as int]@,
                                    nb_final[i],
                                );
                            }
                            assert forall|i: int| 0 <= i < mid.after@[cur as int]@.len()
                                implies rid_matched(
                                table,
                                nb_final,
                                #[trigger] mid.after@[cur as int]@[i],
                            ) by {
                                assert(mid.after@[cur as int]@.contains(mid.after@[cur as int]@[i]));
                                assert(nb_final.contains(mid.after@[cur as int]@[i]));
                                lemma_contains_rid_matched(
                                    table,
                                    nb_final,
                                    mid.after@[cur as int]@[i],
                                );
                            }
                        }
                        assert(false);
                    }
                    assert forall|id: StatementId| #[trigger] nb_final.contains(id)
                        implies table.spec_contains(id) by {
                        if !nb_kill.contains(id) {
                            assert(mid.gen@[cur as int]@.contains(id));
                        }
                    }
                    lemma_table_bounds_len(table, nb_final);
                }
                self.after.set(cur, new_before);
                let succs_len = cfg.succs[cur].len();
                let mut k: usize = 0;
                while k < succs_len
                    invariant
                        k <= succs_len,
                        self.gen@ == mid.gen@,
                        self.kill@ == mid.kill@,
                        self.before@ == mid.before@,
                        self.after@ == mid.after@.update(cur as int, self.after@[cur as int]),
                        self.after@[cur as int]@ == nb_final,
                        self.worklist@ == wl_mid + cfg.succs@[cur as int]@.subrange(0, k as int),
                        self.pops == mid.pops,
                    decreases succs_len - k,
                {
                    let ghost seen = k as int;
                    let s = cfg.succs[cur][k];
                    self.worklist.push(s);
                    proof {
                        assert(cfg.succs@[cur as int]@.subrange(0, seen + 1) =~= cfg.succs@[cur as int]@.subrange(
                            0,
                            seen,
                        ).push(s));
                    }
                    k = k + 1;
                }
                proof {
                    assert(cfg.succs@[cur as int]@.subrange(0, succs_len as int) =~= cfg.succs@[cur as int]@);
                }
            }
            proof {
                let post = *self;
                lemma_concat_contains(wl_mid, cfg.succs@[cur as int]@);
                if changed {
                    assert(post.worklist@ == wl_mid + cfg.succs@[cur as int]@);
                } else {
                    assert(post.worklist@ == wl_mid);
                }
                assert forall|b: int| 0 <= b < n
                    implies #[trigger] post.after@[b]@.len() <= table.entries@.len() by {
                    if !(changed && b == cur as int) {
                        assert(post.after@[b]@ == pre.after@[b]@);
                    }
                }
                assert forall|b: int, id: StatementId|
                    0 <= b < n && #[trigger] post.after@[b]@.contains(id)
                    implies post.transfer_contains(*cfg, table, b, id) by {
                    if changed && b == cur as int {
                        assert(nb_final.contains(id));
                        assert(mid.transfer_contains(*cfg, table, cur as int, id));
                        if !mid.gen@[cur as int]@.contains(id) {
                            if cfg.preds@[cur as int]@.len() > 0 {
                                let k2 = choose|k2: int|
                                    0 <= k2 < cfg.preds@[cur as int]@.len()
                                        && mid.after@[#[trigger] cfg.preds@[cur as int]@[k2] as int]@.contains(
                                        id,
                                    );
                                assert(pre.after@[cfg.preds@[cur as int]@[k2] as int]@.contains(id));
                                assert(pre.join_contains(*cfg, cur as int, id));
                            } else {
                                assert(pre.before@[cur as int]@ == mid.before@[cur as int]@);
                                assert(pre.join_contains(*cfg, cur as int, id));
                            }
                        }
                        assert(pre.transfer_contains(*cfg, table, b, id));
                    } else {
                        assert(pre.after@[b]@.contains(id));
                        assert(pre.transfer_contains(*cfg, table, b, id));
                    }
                    assert forall|id2: StatementId| #[trigger] pre.before@[b]@.contains(id2)
                        implies post.before@[b]@.contains(id2) by {
                        if b == cur as int {
                            assert(mid.before@[cur as int]@.contains(id2));
                        }
                    }
                    assert forall|k2: int, id2: StatementId|
                        0 <= k2 < cfg.preds@[b]@.len()
                            && #[trigger] pre.after@[cfg.preds@[b]@[k2] as int]@.contains(id2)
                        implies post.after@[cfg.preds@[b]@[k2] as int]@.contains(id2) by {
                        let p2 = cfg.preds@[b]@[k2];
                        if changed && p2 == cur {
                            assert(mid.after@[cur as int]@.contains(id2));
                            assert(nb_final.contains(id2));
                        }
                    }
                    GenKill::lemma_transfer_monotone(pre, post, *cfg, table, b);
                }
                if changed {
                    let v = post.after@[cur as int];
                    assert(post.after@ == pre.after@.update(cur as int, v));
                    lemma_slack_sum_update(pre.after@, cfg.succs@, t_size, n, cur as int, v);
                    let len_old = pre.after@[cur as int]@.len() as int;
                    let len_new = v@.len() as int;
                    assert(len_new >= len_old + 1);
                    let m = 1 + cfg.succs@[cur as int]@.len() as int;
                    assert((len_old - len_new) * m <= -m) by (nonlinear_arith)
                        requires
                            len_old - len_new <= -1,
                            m >= 1,
                    ;
                    assert(post.worklist@.len() == wl_mid.len() + cfg.succs@[cur as int]@.len());
                    assert(count + post.work_bound(*cfg, table) <= old(self).work_bound(
                        *cfg,
                        table,
                    ));
                } else {
                    assert(post.after@ == pre.after@);
                    assert(count + post.work_bound(*cfg, table) <= old(self).work_bound(
                        *cfg,
                        table,
                    ));
                }
                assert forall|b: int, id: StatementId|
                    0 <= b < n && #[trigger] post.before@[b]@.contains(id)
                    implies provenant(*old(self), id) by {
                    if b == cur as int {
                        if !pre.before@[b]@.contains(id) {
                            assert(nb_join.contains(id));
                            assert(mid.join_contains(*cfg, cur as int, id));
                            if cfg.preds@[cur as int]@.len() > 0 {
                                let k2 = choose|k2: int|
                                    0 <= k2 < cfg.preds@[cur as int]@.len()
                                        && mid.after@[#[trigger] cfg.preds@[cur as int]@[k2] as int]@.contains(
                                        id,
                                    );
                                assert(pre.after@[cfg.preds@[cur as int]@[k2] as int]@.contains(id));
                            } else {
                                assert(pre.before@[cur as int]@.contains(id));
                            }
                        }
                    } else {
                        assert(pre.before@[b]@.contains(id));
                    }
                }
                assert forall|b: int, id: StatementId|
                    0 <= b < n && #[trigger] post.after@[b]@.contains(id)
                    implies provenant(*old(self), id) by {
                    if changed && b == cur as int {
                        assert(nb_final.contains(id));
                        assert(mid.transfer_contains(*cfg, table, cur as int, id));
                        if mid.gen@[cur as int]@.contains(id) {
                            assert((cur as int) < old(self).gen@.len() && old(self).gen@[cur as int]@.contains(
                                id,
                            ));
                        } else {
                            assert(mid.join_contains(*cfg, cur as int, id));
                            if cfg.preds@[cur as int]@.len() > 0 {
                                let k2 = choose|k2: int|
                                    0 <= k2 < cfg.preds@[cur as int]@.len()
                                        && mid.after@[#[trigger] cfg.preds@[cur as int]@[k2] as int]@.contains(
                                        id,
                                    );
                                assert(pre.after@[cfg.preds@[cur as int]@[k2] as int]@.contains(id));
                            } else {
                                assert(pre.before@[cur as int]@.contains(id));
                            }
                        }
                    } else {
                        assert(pre.after@[b]@.contains(id));
                    }
                }
                assert forall|b: usize| b < n && !post.worklist@.contains(b)
                    implies post.preds_absorbed(*cfg, b as int) by {
                    assert forall|k2: int, id: StatementId|
                        0 <= k2 < cfg.preds@[b as int]@.len()
                            && #[trigger] post.after@[cfg.preds@[b as int]@[k2] as int]@.contains(id)
                        implies post.before@[b as int]@.contains(id) by {
                        let p2 = cfg.preds@[b as int]@[k2];
                        if changed && p2 == cur {
                            assert(cfg.preds@[b as int]@.contains(cur));
                            assert(cfg.succs@[cur as int]@.contains(b));
                            assert((wl_mid + cfg.succs@[cur as int]@).contains(b));
                            assert(false);
                        }
                        assert(pre.after@[p2 as int]@.contains(id));
                        if b != cur {
                            assert(!wl_mid.contains(b));
                            if pre.worklist@.contains(b) {
                                let ki = choose|ki: int|
                                    0 <= ki < pre.worklist@.len() && pre.worklist@[ki] == b;
                                assert(ki < pre.worklist@.len() - 1);
                                assert(wl_mid[ki] == b);
                                assert(false);
                            }
                            assert(pre.preds_absorbed(*cfg, b as int));
                            assert(pre.before@[b as int]@.contains(id));
                        } else {
                            assert(mid.join_contains(*cfg, cur as int, id));
                            assert(nb_join.contains(id));
                            assert(mid.before@[cur as int]@.contains(id));
                        }
                    }
                }
                assert forall|b: usize| b < n && !post.worklist@.contains(b)
                    implies post.crossings_reported(*cfg, table, b as int, conflict_lock_info@) by {
                    if b != cur {
                        assert(!wl_mid.contains(b));
                        if pre.worklist@.contains(b) {
                            let ki = choose|ki: int|
                                0 <= ki < pre.worklist@.len() && pre.worklist@[ki] == b;
                            assert(ki < pre.worklist@.len() - 1);
                            assert(wl_mid[ki] == b);
                            assert(false);
                        }
                        assert(pre.crossings_reported(*cfg, table, b as int, confl_pre));
                        if changed {
                            assert(!cfg.succs@[cur as int]@.contains(b));
                            assert forall|k2: int| 0 <= k2 < cfg.preds@[b as int]@.len()
                                implies post.after@[#[trigger] cfg.preds@[b as int]@[k2] as int]@
                                    == pre.after@[cfg.preds@[b as int]@[k2] as int]@ by {
                                let p2 = cfg.preds@[b as int]@[k2];
                                if p2 == cur {
                                    assert(cfg.preds@[b as int]@.contains(cur));
                                    assert(cfg.succs@[cur as int]@.contains(b));
                                    assert(false);
                                }
                            }
                        }
                        GenKill::lemma_crossings_frame(
                            pre,
                            post,
                            *cfg,
                            table,
                            b as int,
                            confl_pre,
                            conflict_lock_info@,
                        );
                    } else {
                        assert forall|f: StatementId, s: StatementId|
                            #[trigger] post.join_contains(*cfg, cur as int, f)
                                && !rid_matched(table, post.kill@[cur as int]@, f)
                                && #[trigger] post.gen@[cur as int]@.contains(s)
                                && table.spec_rid(f) != table.spec_rid(s)
                            implies conflict_lock_info@.contains(
                                (OperationSequenceInfo { first: f, second: s }),
                            ) by {
                            if cfg.preds@[cur as int]@.len() > 0 {
                                let k2 = choose|k2: int|
                                    0 <= k2 < cfg.preds@[cur as int]@.len()
                                        && post.after@[#[trigger] cfg.preds@[cur as int]@[k2] as int]@.contains(
                                        f,
                                    );
                                let p2 = cfg.preds@[cur as int]@[k2];
                                if changed && p2 == cur {
                                    assert(cfg.preds@[cur as int]@.contains(cur));
                                    assert(cfg.succs@[cur as int]@.contains(cur));
                                    assert((wl_mid + cfg.succs@[cur as int]@).contains(cur));
                                    assert(false);
                                }
                                assert(mid.after@[p2 as int]@.contains(f));
                                assert(mid.join_contains(*cfg, cur as int, f));
                            } else {
                                assert(mid.join_contains(*cfg, cur as int, f));
                            }
                            assert(nb_join.contains(f));
                            assert(nb_kill.contains(f));
                            assert(confs_seq.contains((OperationSequenceInfo { first: f, second: s })));
                            assert((confl_pre + confs_seq).contains(
                                (OperationSequenceInfo { first: f, second: s }),
                            ));
                        }
                    }
                }
                assert forall|b: usize| b < n && !post.worklist@.contains(b)
                    implies post.rid_fixed_at(*cfg, table, b as int) by {
                    if b != cur {
                        assert(!wl_mid.contains(b));
                        if pre.worklist@.contains(b) {
                            let ki = choose|ki: int|
                                0 <= ki < pre.worklist@.len() && pre.worklist@[ki] == b;
                            assert(ki < pre.worklist@.len() - 1);
                            assert(wl_mid[ki] == b);
                            assert(false);
                        }
                        assert(pre.rid_fixed_at(*cfg, table, b as int));
                        if changed {
                            assert(!cfg.succs@[cur as int]@.contains(b));
                            assert forall|k2: int| 0 <= k2 < cfg.preds@[b as int]@.len()
                                implies post.after@[#[trigger] cfg.preds@[b as int]@[k2] as int]@
                                    == pre.after@[cfg.preds@[b as int]@[k2] as int]@ by {
                                let p2 = cfg.preds@[b as int]@[k2];
                                if p2 == cur {
                                    assert(cfg.preds@[b as int]@.contains(cur));
                                    assert(cfg.succs@[cur as int]@.contains(b));
                                    assert(false);
                                }
                            }
                        }
                        GenKill::lemma_rid_fixed_frame(pre, post, *cfg, table, b as int);
                    } else {
                        // b == cur: its transfer input is unchanged by this
                        // iteration, and after[cur] now matches it by
                        // resource identity.
                        assert forall|id: StatementId|
                            post.transfer_contains(*cfg, table, cur as int, id)
                                <==> mid.transfer_contains(*cfg, table, cur as int, id) by {
                            if cfg.preds@[cur as int]@.len() > 0 {
                                assert forall|k2: int| 0 <= k2 < cfg.preds@[cur as int]@.len()
                                    implies post.after@[#[trigger] cfg.preds@[cur as int]@[k2] as int]@
                                        == mid.after@[cfg.preds@[cur as int]@[k2] as int]@ by {
                                    let p2 = cfg.preds@[cur as int]@[k2];
                                    if changed && p2 == cur {
                                        assert(cfg.preds@[cur as int]@.contains(cur));
                                        assert(cfg.succs@[cur as int]@.contains(cur));
                                        assert((wl_mid + cfg.succs@[cur as int]@).contains(cur));
                                        assert(false);
                                    }
                                }
                                if post.join_contains(*cfg, cur as int, id) {
                                    let k2 = choose|k2: int|
                                        0 <= k2 < cfg.preds@[cur as int]@.len()
                                            && post.after@[#[trigger] cfg.preds@[cur as int]@[k2] as int]@.contains(
                                            id,
                                        );
                                    assert(mid.after@[cfg.preds@[cur as int]@[k2] as int]@.contains(
                                        id,
                                    ));
                                }
                                if mid.join_contains(*cfg, cur as int, id) {
                                    let k2 = choose|k2: int|
                                        0 <= k2 < cfg.preds@[cur as int]@.len()
                                            && mid.after@[#[trigger] cfg.preds@[cur as int]@[k2] as int]@.contains(
                                            id,
                                        );
                                    assert(post.after@[cfg.preds@[cur as int]@[k2] as int]@.contains(
                                        id,
                                    ));
                                }
                            }
                        }
                        if changed {
                            assert(post.after@[cur as int]@ == nb_final);
                            assert forall|id: StatementId| #[trigger] post.after@[cur as int]@.contains(id)
                                implies post.transfer_rid_matched(*cfg, table, cur as int, id) by {
                                assert(post.transfer_contains(*cfg, table, cur as int, id));
                            }
                            assert forall|id: StatementId|
                                #[trigger] post.transfer_contains(*cfg, table, cur as int, id)
                                implies rid_matched(table, post.after@[cur as int]@, id) by {
                                assert(nb_final.contains(id));
                                lemma_contains_rid_matched(table, post.after@[cur as int]@, id);
                            }
                        } else {
                            assert(compare_spec(table, nb_final, post.after@[cur as int]@));
                            assert forall|id: StatementId| #[trigger] post.after@[cur as int]@.contains(id)
                                implies post.transfer_rid_matched(*cfg, table, cur as int, id) by {
                                let ki = choose|ki: int|
                                    0 <= ki < post.after@[cur as int]@.len()
                                        && post.after@[cur as int]@[ki] == id;
                                assert(rid_matched(table, nb_final, post.after@[cur as int]@[ki]));
                                let kj = choose|kj: int|
                                    0 <= kj < nb_final.len() && table.spec_rid(nb_final[kj])
                                        == table.spec_rid(id);
                                assert(nb_final.contains(nb_final[kj]));
                                assert(post.transfer_contains(*cfg, table, cur as int, nb_final[kj]));
                            }
                            assert forall|id: StatementId|
                                #[trigger] post.transfer_contains(*cfg, table, cur as int, id)
                                implies rid_matched(table, post.after@[cur as int]@, id) by {
                                assert(nb_final.contains(id));
                                let ki = choose|ki: int|
                                    0 <= ki < nb_final.len() && nb_final[ki] == id;
                                assert(rid_matched(table, post.after@[cur as int]@, nb_final[ki]));
                            }
                        }
                    }
                }
            }
        }
        proof {
            if self.worklist@.len() > 0 {
                lemma_slack_sum_nonneg(self.after@, cfg.succs@, t_size, n);
                assert(count + self.work_bound(*cfg, table) <= old(self).work_bound(*cfg, table));
                assert(self.work_bound(*cfg, table) >= 0);
                assert(count > RUN_LIMIT);
                assert(old(self).work_bound(*cfg, *crate_lockguards) > RUN_LIMIT);
            }
            if self.worklist@.len() == 0 {
                assert(n == n_blocks);
                assert forall|b: int| 0 <= b < n implies self.rid_fixed_at(*cfg, table, b) by {
                    let bu = b as usize;
                    assert(bu as int == b);
                    assert(!self.worklist@.contains(bu));
                    assert(self.rid_fixed_at(*cfg, table, bu as int));
                }
                assert forall|b: int| 0 <= b < n
                    implies self.crossings_reported(*cfg, table, b, conflict_lock_info@) by {
                    let bu = b as usize;
                    assert(bu as int == b);
                    assert(!self.worklist@.contains(bu));
                    assert(self.crossings_reported(*cfg, table, bu as int, conflict_lock_info@));
                }
                assert forall|b: int| 0 <= b < n implies self.preds_absorbed(*cfg, b) by {
                    let bu = b as usize;
                    assert(bu as int == b);
                    assert(!self.worklist@.contains(bu));
                    assert(self.preds_absorbed(*cfg, bu as int));
                }
            }
        }
        conflict_lock_info
    }
}

/// Kill-before-gen ordering: a guard a block generates leaves that block
/// live even when the same block kills its resource, because kill applies
/// only to the guards arriving at the block's entry and gen adds its guards
/// afterwards.
pub proof fn lemma_kill_before_gen(
    solver: GenKill,
    cfg: Cfg,
    table: LockGuardTable,
    b: int,
    id: StatementId,
)
    requires
        solver.gen@[b]@.contains(id),
    ensures
        solver.transfer_contains(cfg, table, b, id),
{
}

/// Monotonicity carried to resource identities: a set that keeps all of a
/// smaller set's guards also covers every resource identity the smaller set
/// covers. With `analyze`'s guarantee that `before[b]` never loses a guard,
/// this makes `before[b]` non-decreasing by resource-identity-set inclusion
/// across a run.
pub proof fn lemma_rid_set_monotone(
    table: LockGuardTable,
    small: Seq<StatementId>,
    large: Seq<StatementId>,
)
    requires
        forall|id: StatementId| #[trigger] small.contains(id) ==> large.contains(id),
    ensures
        forall|id: StatementId|
            #[trigger] rid_matched(table, small, id) ==> rid_matched(table, large, id),
{
    assert forall|id: StatementId| #[trigger] rid_matched(table, small, id)
        implies rid_matched(table, large, id) by {
        let k = choose|k: int|
            0 <= k < small.len() && table.spec_rid(small[k]) == table.spec_rid(id);
        assert(small.contains(small[k]));
        assert(large.contains(small[k]));
        let j = choose|j: int| 0 <= j < large.len() && large[j] == small[k];
        assert(table.spec_rid(large[j]) == table.spec_rid(id));
    }
}

/// A pair of guards over one lock resource is never among pairs that all
/// satisfy `reported_pair_valid`: re-acquiring an already held resource is
/// not itself reported, whatever the two statement ids.
pub proof fn lemma_same_resource_never_reported(
    table: LockGuardTable,
    gen_sets: Seq<Vec<StatementId>>,
    conflicts: Seq<OperationSequenceInfo>,
    h: StatementId,
    g: StatementId,
)
    requires
        forall|k: int|
            0 <= k < conflicts.len()
                ==> reported_pair_valid(table, gen_sets, #[trigger] conflicts[k]),
        table.spec_rid(h) == table.spec_rid(g),
    ensures
        !conflicts.contains((OperationSequenceInfo { first: h, second: g })),
{
    if conflicts.contains((OperationSequenceInfo { first: h, second: g })) {
        let k = choose|k: int|
            0 <= k < conflicts.len() && conflicts[k] == (OperationSequenceInfo {
                first: h,
                second: g,
            });
        assert(reported_pair_valid(table, gen_sets, conflicts[k]));
    }
}

/// A duplicate-free set of guards the table knows is no larger than the
/// table itself.
proof fn lemma_table_bounds_len(table: LockGuardTable, s: Seq<StatementId>)
    requires
        table.wf(),
        distinct(s),
        forall|id: StatementId| #[trigger] s.contains(id) ==> table.spec_contains(id),
    ensures
        s.len() <= table.entries@.len(),
{
    let ids = table.entries@.map_values(|e: LockGuardEntry| e.id);
    assert(distinct(ids)) by {
        assert forall|i: int, j: int|
            0 <= i < ids.len() && 0 <= j < ids.len() && i != j implies ids[i] != ids[j] by {
            assert(ids[i] == table.entries@[i].id);
            assert(ids[j] == table.entries@[j].id);
        }
    }
    assert forall|id: StatementId| #[trigger] s.contains(id) implies ids.contains(id) by {
        let k = choose|k: int| 0 <= k < table.entries@.len() && table.entries@[k].id == id;
        assert(ids[k] == id);
    }
    lemma_distinct_subset_len(s, ids);
}

/// A set resource-matches each of its own elements.
proof fn lemma_contains_rid_matched(table: LockGuardTable, s: Seq<StatementId>, id: StatementId)
    requires
        s.contains(id),
    ensures
        rid_matched(table, s, id),
{
    let k = choose|k: int| 0 <= k < s.len() && s[k] == id;
    assert(0 <= k < s.len() && table.spec_rid(s[k]) == table.spec_rid(id));
}

} // verus!
