//! Visibility of the rows of a segment to a snapshot, or to a compaction, for
//! which all committed rows are visible.
use std::collections::{BTreeSet, HashMap};
use vstd::prelude::*;
use crate::mvcc::{
    row_shown, IsolationLevel, TxnSnapshot, VisFilter, VisibilityContext, VisibilityManager,
    VisibilityProjection,
};

verus! {

/// The snapshot of a compaction, unlike that of any query.
pub const COMPACTION_SNAPSHOT_ID: u64 = u64::MAX;

/// A snapshot through which rows are looked at.
#[derive(Debug)]
pub struct SegmentOverlay {
    projection: VisibilityProjection,
    snapshot_id: u64,
    active_txns: BTreeSet<u64>,
    commit_ts_map: HashMap<u64, u64>,
}

/// What an overlay is.
#[verifier::ext_equal]
pub struct OverlayView {
    pub projection: VisibilityProjection,
    pub snapshot_id: u64,
    pub active: Set<u64>,
    pub commits: Map<u64, u64>,
}

impl View for SegmentOverlay {
    type V = OverlayView;

    closed spec fn view(&self) -> OverlayView {
        OverlayView {
            projection: self.projection,
            snapshot_id: self.snapshot_id,
            active: self.active_txns@,
            commits: self.commit_ts_map@,
        }
    }
}

/// The overlay of a compaction.
pub open spec fn compaction_overlay() -> OverlayView {
    OverlayView {
        projection: VisibilityProjection::CompactionRewrite,
        snapshot_id: COMPACTION_SNAPSHOT_ID,
        active: Set::empty(),
        commits: Map::empty(),
    }
}

impl SegmentOverlay {
    /// The overlay of a query.
    pub fn from_snapshot(snapshot: &TxnSnapshot) -> (r: Self)
        ensures
            r@ == (OverlayView {
                projection: VisibilityProjection::Online,
                snapshot_id: snapshot.snapshot_id,
                active: snapshot.active_txns@,
                commits: snapshot.commit_ts_map@,
            }),
    {
        Self::from_context(VisibilityContext::from_snapshot(snapshot, VisibilityProjection::Online))
    }

    /// The overlay of a context.
    pub fn from_context(context: VisibilityContext) -> (r: Self)
        ensures
            r@ == (OverlayView {
                projection: context.projection,
                snapshot_id: context.snapshot_id,
                active: context.active_txns@,
                commits: context.commit_ts_map@,
            }),
    {
        SegmentOverlay {
            projection: context.projection,
            snapshot_id: context.snapshot_id,
            active_txns: context.active_txns,
            commit_ts_map: context.commit_ts_map,
        }
    }

    /// The overlay of a compaction: no active transaction, and the last snapshot.
    pub fn for_compaction_all_visible() -> (r: Self)
        ensures
            r@ == compaction_overlay(),
    {
        Self::from_context(VisibilityContext::compaction_rewrite())
    }

    /// What the overlay is for.
    pub fn projection(&self) -> (r: VisibilityProjection)
        ensures
            r == self@.projection,
    {
        self.projection
    }

    /// Whether a row is visible by a rule.
    pub fn is_row_visible<F: VisFilter + ?Sized>(
        &self,
        filter: &F,
        created_txn: u64,
        deleted_txn: Option<u64>,
    ) -> (r: bool)
        ensures
            r == filter.shows(
                self@.snapshot_id,
                created_txn,
                deleted_txn,
                self@.active,
                self@.commits,
            ),
    {
        filter.is_row_visible(
            self.snapshot_id,
            created_txn,
            deleted_txn,
            &self.active_txns,
            &self.commit_ts_map,
        )
    }

    /// A snapshot that sees what the overlay sees.
    pub fn as_snapshot(&self) -> (r: TxnSnapshot)
        ensures
            r.snapshot_id == self@.snapshot_id,
            r.active_txns@ == self@.active,
            r.isolation == IsolationLevel::Snapshot,
            r.commit_ts_map@ == self@.commits,
    {
        TxnSnapshot {
            snapshot_id: self.snapshot_id,
            active_txns: self.active_txns.clone(),
            isolation: IsolationLevel::Snapshot,
            commit_ts_map: self.commit_ts_map.clone(),
        }
    }

    /// The context of the overlay.
    pub fn as_context(&self) -> (r: VisibilityContext)
        ensures
            r.projection == self@.projection,
            r.snapshot_id == self@.snapshot_id,
            r.active_txns@ == self@.active,
            r.commit_ts_map@ == self@.commits,
    {
        VisibilityContext {
            projection: self.projection,
            snapshot_id: self.snapshot_id,
            active_txns: self.active_txns.clone(),
            commit_ts_map: self.commit_ts_map.clone(),
        }
    }
}

/// The overlay and the rule by which a compaction sees rows.
pub fn compaction_overlay_filter() -> (r: (SegmentOverlay, VisibilityManager))
    ensures
        r.0@ == compaction_overlay(),
{
    (SegmentOverlay::for_compaction_all_visible(), VisibilityManager::new())
}

/// To a compaction every row that no transaction deleted is visible, whichever
/// transaction created it, and no row that one deleted.
pub proof fn law_compaction_sees_all_rows(created: u64, deleted: Option<u64>)
    ensures
        row_shown(
            compaction_overlay().snapshot_id,
            created,
            deleted,
            compaction_overlay().active,
            compaction_overlay().commits,
        ) <==> deleted is None,
{
}

/// A query does not see the rows of a transaction that was active when it began.
pub proof fn law_active_transaction_is_not_seen(
    snapshot: u64,
    created: u64,
    deleted: Option<u64>,
    active: Set<u64>,
    commits: Map<u64, u64>,
)
    requires
        active.contains(created),
    ensures
        !row_shown(snapshot, created, deleted, active, commits),
{
}

/// A deletion by a transaction that was active when a query began leaves the row
/// visible to it.
pub proof fn law_active_deletion_hides_nothing(
    snapshot: u64,
    created: u64,
    deleter: u64,
    active: Set<u64>,
    commits: Map<u64, u64>,
)
    requires
        active.contains(deleter),
    ensures
        row_shown(snapshot, created, Some(deleter), active, commits) == row_shown(
            snapshot,
            created,
            None,
            active,
            commits,
        ),
{
}

} // verus!
