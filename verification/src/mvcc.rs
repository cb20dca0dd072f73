//! Visibility of rows to transactions.
use std::collections::{BTreeSet, HashMap};
use vstd::prelude::*;

verus! {

broadcast use {vstd::std_specs::hash::group_hash_axioms, vstd::std_specs::btree::group_btree_axioms};

/// What a transaction may see of others.
#[derive(Debug, Clone, Copy, PartialEq, Eq, Structural)]
pub enum IsolationLevel {
    ReadCommitted,
    Snapshot,
    Serializable,
}

/// What visibility is asked for.
#[derive(Debug, Clone, Copy, PartialEq, Eq, Structural)]
pub enum VisibilityProjection {
    /// A query.
    Online,
    /// A compaction, which rewrites all committed rows.
    CompactionRewrite,
}

/// What a transaction sees: the transactions up to its own, without those that
/// were active when it began.
#[derive(Debug)]
pub struct TxnSnapshot {
    pub snapshot_id: u64,
    pub active_txns: BTreeSet<u64>,
    pub isolation: IsolationLevel,
    pub commit_ts_map: HashMap<u64, u64>,
}

/// A snapshot and what it is for.
#[derive(Debug)]
pub struct VisibilityContext {
    pub projection: VisibilityProjection,
    pub snapshot_id: u64,
    pub active_txns: BTreeSet<u64>,
    pub commit_ts_map: HashMap<u64, u64>,
}

impl VisibilityContext {
    /// The context of a snapshot.
    pub fn from_snapshot(snapshot: &TxnSnapshot, projection: VisibilityProjection) -> (r: Self)
        ensures
            r.projection == projection,
            r.snapshot_id == snapshot.snapshot_id,
            r.active_txns@ == snapshot.active_txns@,
            r.commit_ts_map@ == snapshot.commit_ts_map@,
    {
        VisibilityContext {
            projection,
            snapshot_id: snapshot.snapshot_id,
            active_txns: snapshot.active_txns.clone(),
            commit_ts_map: snapshot.commit_ts_map.clone(),
        }
    }

    /// The context of a compaction: the last snapshot, and no active transaction.
    pub fn compaction_rewrite() -> (r: Self)
        ensures
            r.projection == VisibilityProjection::CompactionRewrite,
            r.snapshot_id == u64::MAX,
            r.active_txns@ == Set::<u64>::empty(),
            r.commit_ts_map@ == Map::<u64, u64>::empty(),
    {
        VisibilityContext {
            projection: VisibilityProjection::CompactionRewrite,
            snapshot_id: u64::MAX,
            active_txns: BTreeSet::new(),
            commit_ts_map: HashMap::new(),
        }
    }
}

/// A rule by which rows are visible.
pub trait VisFilter {
    /// Whether a row that one transaction created, and another may have deleted,
    /// is visible to a snapshot.
    spec fn shows(
        &self,
        snapshot_id: u64,
        created_txn: u64,
        deleted_txn: Option<u64>,
        active: Set<u64>,
        commits: Map<u64, u64>,
    ) -> bool;

    fn is_row_visible(
        &self,
        snapshot_id: u64,
        created_txn: u64,
        deleted_txn: Option<u64>,
        active_txns: &BTreeSet<u64>,
        commit_ts_map: &HashMap<u64, u64>,
    ) -> (r: bool)
        ensures
            r == self.shows(
                snapshot_id,
                created_txn,
                deleted_txn,
                active_txns@,
                commit_ts_map@,
            ),
    ;
}

/// Whether the work of a transaction is done for a snapshot: it is not newer, not
/// active, and did not commit after it. A transaction without a commit timestamp
/// is one whose history has been dropped, and counts as done.
pub open spec fn settled(txn: u64, snapshot: u64, active: Set<u64>, commits: Map<u64, u64>) -> bool {
    &&& txn <= snapshot
    &&& !active.contains(txn)
    &&& commits.dom().contains(txn) ==> commits[txn] <= snapshot
}

/// A row is visible when its creation is settled and its deletion is not.
pub open spec fn row_shown(
    snapshot: u64,
    created: u64,
    deleted: Option<u64>,
    active: Set<u64>,
    commits: Map<u64, u64>,
) -> bool {
    &&& settled(created, snapshot, active, commits)
    &&& deleted matches Some(txn) ==> !settled(txn, snapshot, active, commits)
}

/// The rule of snapshots.
#[derive(Debug, Clone, Copy)]
pub struct VisibilityManager {}

impl VisibilityManager {
    pub fn new() -> (r: Self)
        ensures
            r == (VisibilityManager {  }),
    {
        VisibilityManager {  }
    }
}

fn is_settled(txn: u64, snapshot: u64, active: &BTreeSet<u64>, commits: &HashMap<u64, u64>) -> (r:
    bool)
    ensures
        r == settled(txn, snapshot, active@, commits@),
{
    if txn > snapshot {
        return false;
    }
    if active.contains(&txn) {
        return false;
    }
    match commits.get(&txn) {
        Some(ts) => *ts <= snapshot,
        None => true,
    }
}

impl VisFilter for VisibilityManager {
    open spec fn shows(
        &self,
        snapshot_id: u64,
        created_txn: u64,
        deleted_txn: Option<u64>,
        active: Set<u64>,
        commits: Map<u64, u64>,
    ) -> bool {
        row_shown(snapshot_id, created_txn, deleted_txn, active, commits)
    }

    fn is_row_visible(
        &self,
        snapshot_id: u64,
        created_txn: u64,
        deleted_txn: Option<u64>,
        active_txns: &BTreeSet<u64>,
        commit_ts_map: &HashMap<u64, u64>,
    ) -> (r: bool) {
        if !is_settled(created_txn, snapshot_id, active_txns, commit_ts_map) {
            return false;
        }
        match deleted_txn {
            Some(txn) => !is_settled(txn, snapshot_id, active_txns, commit_ts_map),
            None => true,
        }
    }
}

} // verus!
