use operation_sequence_analyzer::cfg::Cfg;
use operation_sequence_analyzer::genkill::GenKill;
use operation_sequence_analyzer::genkill::RUN_LIMIT;
use operation_sequence_analyzer::statement::LockGuardEntry;
use operation_sequence_analyzer::statement::LockGuardTable;
use operation_sequence_analyzer::statement::StatementId;
use operation_sequence_analyzer::statement::StatementInfo;

fn sid(fn_id: u64, index: u64) -> StatementId {
    StatementId { fn_id, index }
}

fn guard(
    fn_id: u64,
    index: u64,
    resource_id: u64,
    gen_bbs: Vec<usize>,
    kill_bbs: Vec<usize>,
) -> LockGuardEntry {
    LockGuardEntry {
        id: sid(fn_id, index),
        info: StatementInfo { resource_id, gen_bbs, kill_bbs },
    }
}

fn chain_cfg(n: usize) -> Cfg {
    let mut preds: Vec<Vec<usize>> = Vec::new();
    let mut succs: Vec<Vec<usize>> = Vec::new();
    for b in 0..n {
        preds.push(if b == 0 { vec![] } else { vec![b - 1] });
        succs.push(if b + 1 == n { vec![] } else { vec![b + 1] });
    }
    Cfg { preds, succs }
}

fn ids(set: &[StatementId]) -> Vec<StatementId> {
    let mut v = set.to_vec();
    v.sort_by_key(|s| (s.fn_id, s.index));
    v
}

#[test]
fn straight_line_reports_one_pair() {
    // B0 -> B1 -> B2; L1 gen at B0, killed at B2; L2 (other resource) gen at
    // B1, killed at B2; nothing inherited.
    let cfg = chain_cfg(3);
    let table = LockGuardTable {
        entries: vec![
            guard(1, 0, 100, vec![0], vec![2]),
            guard(1, 1, 200, vec![1], vec![2]),
        ],
    };
    let context: Vec<StatementId> = vec![];
    let mut solver = GenKill::new(1, &cfg, &table, &context);
    let conflicts = solver.analyze(&cfg, &table);
    assert_eq!(conflicts.len(), 1);
    assert_eq!(conflicts[0].first, sid(1, 0));
    assert_eq!(conflicts[0].second, sid(1, 1));
    assert!(solver.worklist.is_empty());
    assert!(solver.after[2].is_empty());
    assert_eq!(ids(&solver.after[1]), vec![sid(1, 0), sid(1, 1)]);
}

#[test]
fn straight_line_live_guard_query() {
    let cfg = chain_cfg(3);
    let table = LockGuardTable {
        entries: vec![
            guard(1, 0, 100, vec![0], vec![2]),
            guard(1, 1, 200, vec![1], vec![2]),
        ],
    };
    let context: Vec<StatementId> = vec![];
    let mut solver = GenKill::new(1, &cfg, &table, &context);
    let _ = solver.analyze(&cfg, &table);
    // Nothing reaches B0's entry, so there is no information for it.
    assert!(solver.get_live_lockguards(0).is_none());
    assert_eq!(solver.get_live_lockguards(1), Some(vec![sid(1, 0)]));
    assert_eq!(
        ids(&solver.get_live_lockguards(2).unwrap()),
        vec![sid(1, 0), sid(1, 1)]
    );
    // A block outside the graph yields no information either.
    assert!(solver.get_live_lockguards(7).is_none());
}

#[test]
fn self_loop_kill_gen_converges() {
    // B0 -> B1, B1 -> B1, B1 -> B2; L1 gen at B0 and never killed; L3 gen
    // and killed at B1 over a resource of its own. The solver converges,
    // L3 leaves B1 alive (kill applies before gen), and the only pairs it
    // can report are (L1, L3), L1 being live whenever B1 generates L3.
    let cfg = Cfg {
        preds: vec![vec![], vec![0, 1], vec![1]],
        succs: vec![vec![1], vec![1, 2], vec![]],
    };
    let table = LockGuardTable {
        entries: vec![
            guard(1, 0, 100, vec![0], vec![]),
            guard(1, 1, 300, vec![1], vec![1]),
        ],
    };
    let context: Vec<StatementId> = vec![];
    let mut solver = GenKill::new(1, &cfg, &table, &context);
    let conflicts = solver.analyze(&cfg, &table);
    assert!(solver.worklist.is_empty());
    assert!(!conflicts.is_empty());
    for c in &conflicts {
        assert_eq!(c.first, sid(1, 0));
        assert_eq!(c.second, sid(1, 1));
    }
    assert_eq!(ids(&solver.after[1]), vec![sid(1, 0), sid(1, 1)]);
    assert_eq!(ids(&solver.after[2]), vec![sid(1, 0), sid(1, 1)]);
}

#[test]
fn cap_exceeded_stops_with_partial_state() {
    // More blocks than the cap allows pops, in one long chain: the run must
    // stop early instead of draining, leaving the blocks it never reached
    // (the chain's head is popped last) with their initial empty state.
    let n = (RUN_LIMIT as usize) + 3;
    let cfg = chain_cfg(n);
    let table = LockGuardTable {
        entries: vec![guard(1, 0, 100, vec![0], vec![])],
    };
    let context: Vec<StatementId> = vec![];
    let mut solver = GenKill::new(1, &cfg, &table, &context);
    let conflicts = solver.analyze(&cfg, &table);
    assert!(conflicts.is_empty());
    assert!(!solver.worklist.is_empty());
    assert!(solver.after[0].is_empty());
}

#[test]
fn kill_then_gen_leaves_guard_live() {
    // One block that both kills and generates guards of one resource: the
    // inherited guard of that resource dies, the block's own guard ends the
    // block live, and no pair is reported between the two.
    let cfg = Cfg { preds: vec![vec![]], succs: vec![vec![]] };
    let table = LockGuardTable {
        entries: vec![
            guard(9, 5, 100, vec![], vec![]),
            guard(1, 0, 100, vec![0], vec![0]),
        ],
    };
    let context = vec![sid(9, 5)];
    let mut solver = GenKill::new(1, &cfg, &table, &context);
    let conflicts = solver.analyze(&cfg, &table);
    assert!(conflicts.is_empty());
    assert_eq!(solver.after[0], vec![sid(1, 0)]);
}

#[test]
fn same_resource_guards_never_conflict() {
    // Two distinct statements over one lock resource, live together at B1:
    // re-acquiring the same resource is not reported.
    let cfg = chain_cfg(2);
    let table = LockGuardTable {
        entries: vec![
            guard(1, 0, 100, vec![0], vec![]),
            guard(1, 1, 100, vec![1], vec![]),
        ],
    };
    let context: Vec<StatementId> = vec![];
    let mut solver = GenKill::new(1, &cfg, &table, &context);
    let conflicts = solver.analyze(&cfg, &table);
    assert!(conflicts.is_empty());
    assert_eq!(ids(&solver.after[1]), vec![sid(1, 0), sid(1, 1)]);
}

#[test]
fn inherited_context_conflicts_with_new_guard() {
    // A guard inherited from the caller is already live when the function's
    // own guard over another resource is generated.
    let cfg = Cfg { preds: vec![vec![]], succs: vec![vec![]] };
    let table = LockGuardTable {
        entries: vec![
            guard(9, 5, 900, vec![], vec![]),
            guard(1, 0, 100, vec![0], vec![]),
        ],
    };
    let context = vec![sid(9, 5)];
    assert!(table.contains(sid(9, 5)));
    assert!(!table.contains(sid(9, 6)));
    let mut solver = GenKill::new(1, &cfg, &table, &context);
    let conflicts = solver.analyze(&cfg, &table);
    assert_eq!(conflicts.len(), 1);
    assert_eq!(conflicts[0].first, sid(9, 5));
    assert_eq!(conflicts[0].second, sid(1, 0));
    assert_eq!(solver.get_live_lockguards(0), Some(vec![sid(9, 5)]));
}

#[test]
fn guards_of_other_functions_are_filtered_out() {
    // A guard belonging to another function, even one naming this
    // function's blocks, never enters the run.
    let cfg = chain_cfg(2);
    let table = LockGuardTable {
        entries: vec![
            guard(1, 0, 100, vec![0], vec![]),
            guard(2, 0, 500, vec![0, 1], vec![]),
        ],
    };
    let context: Vec<StatementId> = vec![];
    let mut solver = GenKill::new(1, &cfg, &table, &context);
    let conflicts = solver.analyze(&cfg, &table);
    assert!(conflicts.is_empty());
    assert_eq!(solver.after[1], vec![sid(1, 0)]);
}

#[test]
fn no_guards_converges_to_nothing() {
    let cfg = chain_cfg(4);
    let table = LockGuardTable { entries: vec![] };
    let context: Vec<StatementId> = vec![];
    let mut solver = GenKill::new(1, &cfg, &table, &context);
    let conflicts = solver.analyze(&cfg, &table);
    assert!(conflicts.is_empty());
    assert!(solver.worklist.is_empty());
    for b in 0..4 {
        assert!(solver.after[b].is_empty());
        assert!(solver.get_live_lockguards(b).is_none());
    }
}

#[test]
fn out_of_graph_gen_site_is_ignored() {
    // A gen site naming a block the graph does not have contributes
    // nothing; the guard's in-graph site still works.
    let cfg = chain_cfg(2);
    let table = LockGuardTable {
        entries: vec![guard(1, 0, 100, vec![7, 1], vec![])],
    };
    let context: Vec<StatementId> = vec![];
    let mut solver = GenKill::new(1, &cfg, &table, &context);
    let conflicts = solver.analyze(&cfg, &table);
    assert!(conflicts.is_empty());
    assert!(solver.after[0].is_empty());
    assert_eq!(solver.after[1], vec![sid(1, 0)]);
}

#[test]
fn before_accumulates_across_merging_paths() {
    // A diamond: B0 branches to B1 and B2, both rejoin at B3. Guards taken
    // on each arm are both live at B3's entry, and the join's entry set
    // keeps everything it ever received.
    let cfg = Cfg {
        preds: vec![vec![], vec![0], vec![0], vec![1, 2]],
        succs: vec![vec![1, 2], vec![3], vec![3], vec![]],
    };
    let table = LockGuardTable {
        entries: vec![
            guard(1, 0, 100, vec![1], vec![]),
            guard(1, 1, 200, vec![2], vec![]),
        ],
    };
    let context: Vec<StatementId> = vec![];
    let mut solver = GenKill::new(1, &cfg, &table, &context);
    let conflicts = solver.analyze(&cfg, &table);
    assert!(conflicts.is_empty());
    assert_eq!(ids(&solver.after[3]), vec![sid(1, 0), sid(1, 1)]);
    assert_eq!(
        ids(&solver.get_live_lockguards(3).unwrap()),
        vec![sid(1, 0), sid(1, 1)]
    );
}
