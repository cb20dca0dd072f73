//! Changes of single values of a segment, with what was there before and after,
//! and which of them a reader sees.
use vstd::prelude::*;
use crate::codec::{bytes_copy, bytes_range};
use crate::column::{copy_cell, fits, kind_of, number_width, CellKind, Column, ColumnType, ColumnView};
use crate::error::RockDuckError;
use crate::ipc::cell_view;
use crate::ordmap::{lemma_value_changed, text_before, OrdKey, OrdMap};
use crate::sums::{lemma_sum_empty, lemma_sum_insert, lemma_sum_listed, lemma_sum_part, listed_sum, map_sum};
use crate::text::{all_distinct, is_utf8, lemma_distinct_push, lists_text, text_copy, text_same};
use vstd::utf8::valid_utf8;

verus! {

/// Number of a transaction.
pub type TxnId = u64;

/// Kind of a change.
#[derive(Debug, Clone, Copy, PartialEq, Eq, Structural)]
pub enum DeltaOpType {
    Update,
    Delete,
    Insert,
}

/// A change of one value.
#[derive(Debug)]
pub struct CellDelta {
    pub row: u64,
    pub col: String,
    pub op: DeltaOpType,
    pub before: Option<Vec<u8>>,
    pub after: Option<Vec<u8>>,
    pub txn_id: TxnId,
}

/// What a change says.
#[verifier::ext_equal]
pub struct DeltaView {
    pub row: u64,
    pub col: Seq<char>,
    pub op: DeltaOpType,
    pub before: Option<Seq<u8>>,
    pub after: Option<Seq<u8>>,
    pub txn_id: TxnId,
}

impl View for CellDelta {
    type V = DeltaView;

    open spec fn view(&self) -> DeltaView {
        DeltaView {
            row: self.row,
            col: self.col@,
            op: self.op,
            before: cell_view(self.before),
            after: cell_view(self.after),
            txn_id: self.txn_id,
        }
    }
}

impl Clone for CellDelta {
    fn clone(&self) -> (r: Self)
        ensures
            r@ == self@,
    {
        CellDelta {
            row: self.row,
            col: self.col.clone(),
            op: self.op,
            before: copy_cell(&self.before),
            after: copy_cell(&self.after),
            txn_id: self.txn_id,
        }
    }
}

impl CellDelta {
    pub fn new_update(col: String, row: u64, before: Vec<u8>, after: Vec<u8>, txn_id: TxnId) -> (r: Self)
        ensures
            r@ == (DeltaView {
                row,
                col: col@,
                op: DeltaOpType::Update,
                before: Some(before@),
                after: Some(after@),
                txn_id,
            }),
    {
        CellDelta {
            row,
            col,
            op: DeltaOpType::Update,
            before: Some(before),
            after: Some(after),
            txn_id,
        }
    }

    pub fn new_delete(col: String, row: u64, before: Vec<u8>, txn_id: TxnId) -> (r: Self)
        ensures
            r@ == (DeltaView {
                row,
                col: col@,
                op: DeltaOpType::Delete,
                before: Some(before@),
                after: None,
                txn_id,
            }),
    {
        CellDelta {
            row,
            col,
            op: DeltaOpType::Delete,
            before: Some(before),
            after: None,
            txn_id,
        }
    }

    pub fn new_insert(col: String, row: u64, after: Vec<u8>, txn_id: TxnId) -> (r: Self)
        ensures
            r@ == (DeltaView {
                row,
                col: col@,
                op: DeltaOpType::Insert,
                before: None,
                after: Some(after@),
                txn_id,
            }),
    {
        CellDelta {
            row,
            col,
            op: DeltaOpType::Insert,
            before: None,
            after: Some(after),
            txn_id,
        }
    }
}

/// Transaction, column and row of a change.
pub type DeltaKey = (u64, Seq<char>, u64);

/// What a store holds.
#[verifier::ext_equal]
pub struct StoreView {
    pub deltas: Map<DeltaKey, DeltaView>,
    /// The transactions that have begun or changed something.
    pub txns: Set<u64>,
    pub committed: Set<u64>,
}

/// A store after one more change.
pub open spec fn recorded(s: StoreView, d: DeltaView) -> StoreView {
    StoreView {
        deltas: s.deltas.insert((d.txn_id, d.col, d.row), d),
        txns: s.txns.insert(d.txn_id),
        committed: s.committed,
    }
}

/// Whether a reader sees a change: its transaction is committed, and no later
/// committed one changed the same value.
pub open spec fn sees(s: StoreView, key: DeltaKey) -> bool {
    &&& s.deltas.dom().contains(key)
    &&& s.committed.contains(key.0)
    &&& forall|t: u64|
        #![trigger s.deltas.dom().contains((t, key.1, key.2))]
        t > key.0 && s.committed.contains(t) ==> !s.deltas.dom().contains((t, key.1, key.2))
}

/// Whether some committed transaction changed a value.
pub open spec fn changed(s: StoreView, col: Seq<char>, row: u64) -> bool {
    exists|t: u64| #[trigger]
        s.deltas.dom().contains((t, col, row)) && s.committed.contains(t)
}

/// The change of a value that a reader sees, if there is one.
pub open spec fn is_seen(s: StoreView, col: Seq<char>, row: u64, d: Option<DeltaView>) -> bool {
    match d {
        Some(d) => exists|t: u64| #[trigger]
            sees(s, (t, col, row)) && d == s.deltas[(t, col, row)],
        None => !changed(s, col, row),
    }
}

/// A store once a transaction was committed.
pub open spec fn committed_with(s: StoreView, txn: u64) -> StoreView {
    StoreView { committed: s.committed.insert(txn), ..s }
}

/// A store without the changes of some transaction.
pub open spec fn rolled_back(s: StoreView, txn: u64) -> StoreView {
    StoreView {
        deltas: s.deltas.remove_keys(Set::new(|k: DeltaKey| k.0 == txn)),
        txns: s.txns.remove(txn),
        committed: s.committed.remove(txn),
    }
}

/// A store without the transactions up to one.
pub open spec fn pruned(s: StoreView, cutoff: u64) -> StoreView {
    StoreView {
        deltas: s.deltas.remove_keys(Set::new(|k: DeltaKey| k.0 <= cutoff)),
        txns: s.txns.filter(|t: u64| t > cutoff),
        committed: s.committed.filter(|t: u64| t > cutoff),
    }
}

/// Changes of a segment.
#[derive(Debug)]
pub struct DeltaStore {
    pub seg_id: String,
    deltas: OrdMap<(u64, String, u64), CellDelta>,
    txns: OrdMap<u64, ()>,
    committed: OrdMap<u64, ()>,
}

impl View for DeltaStore {
    type V = StoreView;

    closed spec fn view(&self) -> StoreView {
        StoreView {
            deltas: self.deltas@.map_values(|d: CellDelta| d@),
            txns: self.txns@.dom(),
            committed: self.committed@.dom(),
        }
    }
}

impl DeltaStore {
    /// The segment of the store.
    pub closed spec fn segment(&self) -> Seq<char> {
        self.seg_id@
    }

    /// The changes are in order, each under its transaction, column and row.
    pub closed spec fn wf(&self) -> bool {
        &&& self.deltas.wf()
        &&& self.txns.wf()
        &&& self.committed.wf()
        &&& forall|k: DeltaKey| #[trigger]
            self.deltas@.dom().contains(k) ==> {
                let d = self.deltas@[k]@;
                d.txn_id == k.0 && d.col == k.1 && d.row == k.2
            }
    }

    /// The transactions, columns and rows of the changes, in order.
    pub closed spec fn keys(&self) -> Seq<DeltaKey> {
        self.deltas.keys()
    }

    /// Each change is listed once, and found under its transaction, column and
    /// row.
    pub proof fn lemma_keys(&self)
        requires
            self.wf(),
        ensures
            self.keys().no_duplicates(),
            self.keys().to_set() == self@.deltas.dom(),
            self@.deltas.dom().finite(),
            self@.deltas.dom().len() == self.keys().len(),
            self@.txns.finite(),
            self@.committed.finite(),
            forall|k: DeltaKey| #[trigger]
                self@.deltas.dom().contains(k) ==> {
                    let d = self@.deltas[k];
                    d.txn_id == k.0 && d.col == k.1 && d.row == k.2
                },
    {
        self.deltas.lemma_dom();
        self.txns.lemma_dom();
        self.committed.lemma_dom();
        assert(self@.deltas.dom() =~= self.deltas@.dom());
    }

    /// A store without changes.
    pub fn new(seg_id: String) -> (r: Self)
        ensures
            r.wf(),
            r.segment() == seg_id@,
            r@ == (StoreView { deltas: Map::empty(), txns: Set::empty(), committed: Set::empty() }),
    {
        let r = DeltaStore {
            seg_id,
            deltas: OrdMap::new(),
            txns: OrdMap::new(),
            committed: OrdMap::new(),
        };
        assert(r@ =~= StoreView {
            deltas: Map::empty(),
            txns: Set::empty(),
            committed: Set::empty(),
        });
        r
    }

    /// Begins a transaction.
    pub fn begin_txn(&mut self, txn_id: TxnId)
        requires
            old(self).wf(),
        ensures
            final(self).wf(),
            final(self).segment() == old(self).segment(),
            final(self)@ == (StoreView { txns: old(self)@.txns.insert(txn_id), ..old(self)@ }),
    {
        let ghost before = self@;
        let _ = self.txns.insert(txn_id, ());
        assert(self@.txns =~= before.txns.insert(txn_id));
    }

    /// Takes in a change.
    fn record(&mut self, delta: CellDelta)
        requires
            old(self).wf(),
        ensures
            final(self).wf(),
            final(self).segment() == old(self).segment(),
            final(self)@ == recorded(old(self)@, delta@),
    {
        let ghost before = self@;
        let ghost held = self.deltas@;
        let ghost d = delta;
        let key = (delta.txn_id, delta.col.clone(), delta.row);
        let _ = self.txns.insert(delta.txn_id, ());
        let _ = self.deltas.insert(key, delta);
        proof {
            assert(self@.txns =~= before.txns.insert(d.txn_id));
            assert(self@.deltas =~= before.deltas.insert((d@.txn_id, d@.col, d@.row), d@));
            assert forall|k: DeltaKey| #[trigger] self.deltas@.dom().contains(k) implies {
                let x = self.deltas@[k]@;
                x.txn_id == k.0 && x.col == k.1 && x.row == k.2
            } by {
                if k != key@ {
                    assert(held.dom().contains(k));
                }
            }
        }
    }

    /// Takes in an update.
    pub fn record_update(
        &mut self,
        txn_id: TxnId,
        col: String,
        row: u64,
        before: Vec<u8>,
        after: Vec<u8>,
    )
        requires
            old(self).wf(),
        ensures
            final(self).wf(),
            final(self).segment() == old(self).segment(),
            final(self)@ == recorded(
                old(self)@,
                (DeltaView {
                    row,
                    col: col@,
                    op: DeltaOpType::Update,
                    before: Some(before@),
                    after: Some(after@),
                    txn_id,
                }),
            ),
    {
        self.record(CellDelta::new_update(col, row, before, after, txn_id));
    }

    /// Takes in a deletion.
    pub fn record_delete(&mut self, txn_id: TxnId, col: String, row: u64, before: Vec<u8>)
        requires
            old(self).wf(),
        ensures
            final(self).wf(),
            final(self).segment() == old(self).segment(),
            final(self)@ == recorded(
                old(self)@,
                (DeltaView {
                    row,
                    col: col@,
                    op: DeltaOpType::Delete,
                    before: Some(before@),
                    after: None,
                    txn_id,
                }),
            ),
    {
        self.record(CellDelta::new_delete(col, row, before, txn_id));
    }

    /// Takes in an insertion.
    pub fn record_insert(&mut self, txn_id: TxnId, col: String, row: u64, after: Vec<u8>)
        requires
            old(self).wf(),
        ensures
            final(self).wf(),
            final(self).segment() == old(self).segment(),
            final(self)@ == recorded(
                old(self)@,
                (DeltaView {
                    row,
                    col: col@,
                    op: DeltaOpType::Insert,
                    before: None,
                    after: Some(after@),
                    txn_id,
                }),
            ),
    {
        self.record(CellDelta::new_insert(col, row, after, txn_id));
    }

    /// Commits a transaction.
    pub fn commit_txn(&mut self, txn_id: TxnId)
        requires
            old(self).wf(),
        ensures
            final(self).wf(),
            final(self).segment() == old(self).segment(),
            final(self)@ == committed_with(old(self)@, txn_id),
    {
        let ghost before = self@;
        let _ = self.committed.insert(txn_id, ());
        assert(self@.committed =~= before.committed.insert(txn_id));
    }

    /// Takes back all changes of a transaction.
    pub fn rollback_txn(&mut self, txn_id: TxnId)
        requires
            old(self).wf(),
        ensures
            final(self).wf(),
            final(self).segment() == old(self).segment(),
            final(self)@ == rolled_back(old(self)@, txn_id),
    {
        let ghost before = self@;
        self.remove_where(txn_id, txn_id);
        let _ = self.txns.remove(&txn_id);
        let _ = self.committed.remove(&txn_id);
        proof {
            assert(self@.txns =~= before.txns.remove(txn_id));
            assert(self@.committed =~= before.committed.remove(txn_id));
            assert(self@.deltas =~= rolled_back(before, txn_id).deltas);
        }
    }

    /// Removes the changes of the transactions from one to another.
    fn remove_where(&mut self, from: u64, to: u64)
        requires
            old(self).wf(),
        ensures
            final(self).wf(),
            final(self).segment() == old(self).segment(),
            final(self)@.txns == old(self)@.txns,
            final(self)@.committed == old(self)@.committed,
            final(self)@.deltas == old(self)@.deltas.remove_keys(
                Set::new(|k: DeltaKey| from <= k.0 <= to),
            ),
    {
        let mut kept: OrdMap<(u64, String, u64), CellDelta> = OrdMap::new();
        let ghost all = self.deltas@;
        let ghost keys = self.deltas.keys();
        let ghost gone = Set::new(|k: DeltaKey| from <= k.0 <= to);
        let ghost was = *self;
        let mut i: usize = 0;
        proof {
            self.deltas.lemma_dom();
        }
        while i < self.deltas.len()
            invariant
                *self == was,
                was == *old(self),
                self.deltas.wf(),
                all == self.deltas@,
                keys == self.deltas.keys(),
                i <= keys.len(),
                kept.wf(),
                forall|k: DeltaKey| #[trigger]
                    kept@.dom().contains(k) <==> keys.take(i as int).contains(k) && !(from <= k.0 <= to),
                forall|k: DeltaKey| #[trigger]
                    kept@.dom().contains(k) ==> all.dom().contains(k) && kept@[k]@ == all[k]@,
            decreases keys.len() - i,
        {
            let key = self.deltas.key_at(i);
            let delta = self.deltas.value_at(i);
            let ghost k = keys[i as int];
            let ghost before = kept@;
            proof {
                self.deltas.lemma_index(i as int);
                assert(keys.take(i + 1) =~= keys.take(i as int).push(k));
            }
            if !(from <= key.0 && key.0 <= to) {
                let copy = delta.clone();
                let _ = kept.insert((key.0, key.1.clone(), key.2), copy);
            }
            proof {
                assert forall|x: DeltaKey| #[trigger] kept@.dom().contains(x) <==> keys.take(i + 1).contains(x)
                    && !(from <= x.0 <= to) by {
                    lemma_key_pushed(keys.take(i as int), k, x);
                    assert(before.dom().contains(x) <==> keys.take(i as int).contains(x) && !(from <= x.0
                        <= to));
                }
                assert forall|x: DeltaKey| #[trigger] kept@.dom().contains(x) implies all.dom().contains(x)
                    && kept@[x]@ == all[x]@ by {
                    if x != k {
                        assert(before.dom().contains(x));
                    }
                }
            }
            i = i + 1;
        }
        proof {
            assert(keys.take(i as int) =~= keys);
            assert forall|k: DeltaKey| #[trigger] kept@.dom().contains(k) <==> all.dom().contains(k) && !(from
                <= k.0 <= to) by {
                assert(all.dom().contains(k) <==> keys.to_set().contains(k));
            }
        }
        self.deltas = kept;
        proof {
            assert(self@.deltas =~= old(self)@.deltas.remove_keys(gone));
            assert forall|k: DeltaKey| #[trigger] self.deltas@.dom().contains(k) implies {
                let d = self.deltas@[k]@;
                d.txn_id == k.0 && d.col == k.1 && d.row == k.2
            } by {
                assert(all.dom().contains(k));
            }
        }
    }

    /// The change of a value that a reader sees.
    pub fn get_visible_delta(&self, col: &str, row: u64) -> (r: Option<&CellDelta>)
        requires
            self.wf(),
        ensures
            is_seen(
                self@,
                col@,
                row,
                match r {
                    Some(d) => Some(d@),
                    None => None,
                },
            ),
    {
        let ghost s = self@;
        let ghost txns = self.committed.keys();
        let mut i: usize = self.committed.len();
        proof {
            self.committed.lemma_dom();
        }
        while i > 0
            invariant
                self.wf(),
                s == self@,
                txns == self.committed.keys(),
                self.committed@.dom() == txns.to_set(),
                i <= txns.len(),
                forall|k: int|
                    #![trigger txns[k]]
                    i <= k < txns.len() ==> !s.deltas.dom().contains((txns[k], col@, row)),
            decreases i,
        {
            i = i - 1;
            let txn: u64 = *self.committed.key_at(i);
            let key = (txn, text_copy(col), row);
            match self.deltas.get(&key) {
                Some(d) => {
                    proof {
                        let at = (txn, col@, row);
                        assert(s.deltas[at] == d@);
                        assert forall|t: u64|
                            #![trigger s.deltas.dom().contains((t, at.1, at.2))]
                            t > at.0 && s.committed.contains(t) implies !s.deltas.dom().contains(
                            (t, at.1, at.2),
                        ) by {
                            assert(txns.contains(t));
                            let k = choose|k: int| 0 <= k < txns.len() && txns[k] == t;
                            if k < i {
                                assert(<u64 as OrdKey>::before(txns[k], txns[i as int]));
                            }
                        }
                        assert(txns.contains(txn));
                        assert(sees(s, at));
                    }
                    return Some(d);
                },
                None => {},
            }
        }
        proof {
            if changed(s, col@, row) {
                let t = choose|t: u64| #[trigger]
                    s.deltas.dom().contains((t, col@, row)) && s.committed.contains(t);
                assert(txns.contains(t));
                let k = choose|k: int| 0 <= k < txns.len() && txns[k] == t;
                assert(!s.deltas.dom().contains((txns[k], col@, row)));
            }
        }
        None
    }
}

/// `list` has the seen change of each changed row of a column, by row.
pub open spec fn lists_column(list: Seq<(u64, DeltaView)>, s: StoreView, col: Seq<char>) -> bool {
    &&& forall|i: int, j: int|
        #![trigger list[i], list[j]]
        0 <= i < j < list.len() ==> list[i].0 < list[j].0
    &&& forall|i: int|
        #![trigger list[i]]
        0 <= i < list.len() ==> is_seen(s, col, list[i].0, Some(list[i].1))
    &&& forall|row: u64| #[trigger] changed(s, col, row) ==> has_row(list, row)
}

/// Whether a row is among those of a list.
pub open spec fn has_row(list: Seq<(u64, DeltaView)>, row: u64) -> bool {
    exists|i: int| 0 <= i < list.len() && #[trigger] list[i].0 == row
}

/// Whether a value is among those of a list.
pub open spec fn has_value(list: Seq<(u64, DeltaView)>, col: Seq<char>, row: u64) -> bool {
    exists|i: int| 0 <= i < list.len() && #[trigger] list[i].0 == row && list[i].1.col == col
}

/// `list` has the seen change of each changed value in a range of rows, by row
/// and column.
pub open spec fn lists_range(list: Seq<(u64, DeltaView)>, s: StoreView, start: u64, end: u64) -> bool {
    &&& forall|i: int, j: int|
        #![trigger list[i], list[j]]
        0 <= i < j < list.len() ==> list[i].0 < list[j].0 || list[i].0 == list[j].0 && text_before(
            list[i].1.col,
            list[j].1.col,
        )
    &&& forall|i: int|
        #![trigger list[i]]
        0 <= i < list.len() ==> start <= list[i].0 < end && is_seen(
            s,
            list[i].1.col,
            list[i].0,
            Some(list[i].1),
        )
    &&& forall|col: Seq<char>, row: u64| #[trigger]
        changed(s, col, row) && start <= row < end ==> has_value(list, col, row)
}

/// `index` has, for each changed row and column, the place of the change that a
/// reader sees.
spec fn indexes_seen(index: Map<(u64, Seq<char>), usize>, keys: Seq<DeltaKey>, committed: Set<u64>, n: int) -> bool {
    &&& forall|x: (u64, Seq<char>)| #[trigger]
        index.dom().contains(x) ==> {
            let j = index[x] as int;
            &&& j < n
            &&& keys[j].1 == x.1
            &&& keys[j].2 == x.0
            &&& committed.contains(keys[j].0)
            &&& forall|k: int|
                #![trigger keys[k]]
                j < k < n && keys[k].1 == x.1 && keys[k].2 == x.0 ==> !committed.contains(keys[k].0)
        }
    &&& forall|k: int|
        #![trigger keys[k]]
        0 <= k < n && committed.contains(keys[k].0) ==> index.dom().contains((keys[k].2, keys[k].1))
}

/// The views of some rows and changes.
pub open spec fn rows_view(list: Seq<(u64, CellDelta)>) -> Seq<(u64, DeltaView)> {
    list.map_values(|e: (u64, CellDelta)| (e.0, e.1@))
}

/// The changes that say what was there before, in order.
pub open spec fn with_before(deltas: Map<DeltaKey, DeltaView>, keys: Seq<DeltaKey>) -> Seq<DeltaView>
    decreases keys.len(),
{
    if keys.len() == 0 {
        Seq::empty()
    } else {
        let front = with_before(deltas, keys.drop_last());
        let d = deltas[keys.last()];
        if d.before is Some {
            front.push(d)
        } else {
            front
        }
    }
}

impl DeltaStore {
    /// The places of the changes that a reader sees, by row and column.
    fn seen_index(&self) -> (index: OrdMap<(u64, String), usize>)
        requires
            self.wf(),
        ensures
            index.wf(),
            indexes_seen(index@, self.keys(), self@.committed, self.keys().len() as int),
    {
        let mut index: OrdMap<(u64, String), usize> = OrdMap::new();
        let ghost keys = self.deltas.keys();
        let ghost committed = self@.committed;
        let mut i: usize = 0;
        while i < self.deltas.len()
            invariant
                self.wf(),
                keys == self.deltas.keys(),
                committed == self.committed@.dom(),
                i <= keys.len(),
                index.wf(),
                indexes_seen(index@, keys, committed, i as int),
            decreases keys.len() - i,
        {
            let key = self.deltas.key_at(i);
            let ghost before = index@;
            let ghost k = keys[i as int];
            if self.committed.contains_key(&key.0) {
                let _ = index.insert((key.2, key.1.clone()), i);
            }
            proof {
                assert forall|x: (u64, Seq<char>)| #[trigger] index@.dom().contains(x) implies {
                    let j = index@[x] as int;
                    &&& j < i + 1
                    &&& keys[j].1 == x.1
                    &&& keys[j].2 == x.0
                    &&& committed.contains(keys[j].0)
                    &&& forall|h: int|
                        #![trigger keys[h]]
                        j < h < i + 1 && keys[h].1 == x.1 && keys[h].2 == x.0 ==> !committed.contains(
                            keys[h].0,
                        )
                } by {
                    if before.dom().contains(x) && index@[x] == before[x] {
                    }
                }
            }
            i = i + 1;
        }
        index
    }

    /// What the index of seen changes says of the store.
    proof fn lemma_seen(&self, index: Map<(u64, Seq<char>), usize>, x: (u64, Seq<char>))
        requires
            self.wf(),
            indexes_seen(index, self.keys(), self@.committed, self.keys().len() as int),
        ensures
            index.dom().contains(x) <==> changed(self@, x.1, x.0),
            index.dom().contains(x) ==> {
                let j = index[x] as int;
                &&& 0 <= j < self.keys().len()
                &&& sees(self@, self.keys()[j])
                &&& self.keys()[j].1 == x.1
                &&& self.keys()[j].2 == x.0
                &&& self@.deltas[self.keys()[j]] == self.deltas.value_of(j)@
                &&& is_seen(self@, x.1, x.0, Some(self@.deltas[self.keys()[j]]))
            },
    {
        let s = self@;
        let keys = self.keys();
        self.lemma_keys();
        if index.dom().contains(x) {
            let j = index[x] as int;
            self.deltas.lemma_index(j);
            assert(keys.contains(keys[j]));
            assert(s.deltas.dom().contains(keys[j]));
            assert forall|t: u64|
                #![trigger s.deltas.dom().contains((t, keys[j].1, keys[j].2))]
                t > keys[j].0 && s.committed.contains(t) implies !s.deltas.dom().contains(
                (t, keys[j].1, keys[j].2),
            ) by {
                let o = (t, keys[j].1, keys[j].2);
                if s.deltas.dom().contains(o) {
                    let h = self.deltas.lemma_key(o);
                    assert(keys[h] == o);
                    if h < j {
                        assert(<(u64, String, u64) as OrdKey>::before(keys[h], keys[j]));
                    }
                }
            }
            assert(sees(s, keys[j]));
            assert(sees(s, (keys[j].0, x.1, x.0)));
            assert(s.deltas.dom().contains((keys[j].0, x.1, x.0)) && s.committed.contains(keys[j].0));
        }
        if changed(s, x.1, x.0) {
            let t = choose|t: u64| #[trigger]
                s.deltas.dom().contains((t, x.1, x.0)) && s.committed.contains(t);
            let h = self.deltas.lemma_key((t, x.1, x.0));
            assert(keys[h] == (t, x.1, x.0));
        }
    }

    /// The changes of a column that a reader sees, by row.
    pub fn get_visible_deltas_for_column(&self, col: &str) -> (r: Vec<(u64, CellDelta)>)
        requires
            self.wf(),
        ensures
            lists_column(rows_view(r@), self@, col@),
    {
        let index = self.seen_index();
        let ghost keys = index.keys();
        let ghost s = self@;
        let mut r: Vec<(u64, CellDelta)> = Vec::new();
        let ghost mut places: Seq<int> = Seq::empty();
        let mut i: usize = 0;
        while i < index.len()
            invariant
                self.wf(),
                s == self@,
                index.wf(),
                keys == index.keys(),
                indexes_seen(index@, self.keys(), s.committed, self.keys().len() as int),
                i <= keys.len(),
                takes(rows_view(r@), s, keys, places, i as int),
                forall|x: int| #![trigger places[x]] 0 <= x < places.len() ==> keys[places[x]].1 == col@,
                forall|k: int|
                    #![trigger keys[k]]
                    0 <= k < i && keys[k].1 == col@ ==> places.contains(k),
            decreases keys.len() - i,
        {
            let key = index.key_at(i);
            let at: usize = *index.value_at(i);
            let ghost was = places;
            let ghost list = rows_view(r@);
            proof {
                index.lemma_index(i as int);
                self.lemma_seen(index@, keys[i as int]);
            }
            if text_same(key.1.as_str(), col) {
                let d = self.deltas.value_at(at).clone();
                r.push((key.0, d));
                proof {
                    places = places.push(i as int);
                    assert(rows_view(r@) =~= list.push((key.0, d@)));
                    lemma_takes(list, s, keys, was, i as int, d@);
                }
            }
            proof {
                assert forall|k: int| #![trigger keys[k]] 0 <= k < i + 1 && keys[k].1 == col@ implies places.contains(
                    k,
                ) by {
                    if k < i {
                        let x = choose|x: int| 0 <= x < was.len() && was[x] == k;
                        assert(places[x] == k);
                    } else {
                        assert(places[was.len() as int] == k);
                    }
                }
            }
            i = i + 1;
        }
        proof {
            let list = rows_view(r@);
            assert forall|x: int, y: int| #![trigger list[x], list[y]] 0 <= x < y < list.len() implies list[x].0
                < list[y].0 by {
                assert(<(u64, String) as OrdKey>::before(keys[places[x]], keys[places[y]]));
                crate::codec::lemma_bytes_irreflexive(vstd::utf8::encode_utf8(col@));
            }
            assert forall|x: int| #![trigger list[x]] 0 <= x < list.len() implies is_seen(
                s,
                col@,
                list[x].0,
                Some(list[x].1),
            ) by {
                assert(keys[places[x]].1 == col@);
            }
            assert forall|row: u64| #[trigger] changed(s, col@, row) implies has_row(list, row) by {
                self.lemma_seen(index@, (row, col@));
                let h = index.lemma_key((row, col@));
                assert(keys[h].1 == col@);
                let x = choose|x: int| 0 <= x < places.len() && places[x] == h;
                assert(list[x].0 == row);
            }
        }
        r
    }

    /// The changes in a range of rows that a reader sees, by row and column.
    pub fn scan_deltas_in_range(&self, start_row: u64, end_row: u64) -> (r: Vec<(u64, CellDelta)>)
        requires
            self.wf(),
        ensures
            lists_range(rows_view(r@), self@, start_row, end_row),
    {
        let index = self.seen_index();
        let ghost keys = index.keys();
        let ghost s = self@;
        let mut r: Vec<(u64, CellDelta)> = Vec::new();
        let ghost mut places: Seq<int> = Seq::empty();
        let mut i: usize = 0;
        while i < index.len()
            invariant
                self.wf(),
                s == self@,
                index.wf(),
                keys == index.keys(),
                indexes_seen(index@, self.keys(), s.committed, self.keys().len() as int),
                i <= keys.len(),
                takes(rows_view(r@), s, keys, places, i as int),
                forall|x: int|
                    #![trigger places[x]]
                    0 <= x < places.len() ==> start_row <= keys[places[x]].0 < end_row,
                forall|k: int|
                    #![trigger keys[k]]
                    0 <= k < i && start_row <= keys[k].0 < end_row ==> places.contains(k),
            decreases keys.len() - i,
        {
            let key = index.key_at(i);
            let at: usize = *index.value_at(i);
            let ghost was = places;
            let ghost list = rows_view(r@);
            proof {
                index.lemma_index(i as int);
                self.lemma_seen(index@, keys[i as int]);
            }
            if start_row <= key.0 && key.0 < end_row {
                let d = self.deltas.value_at(at).clone();
                r.push((key.0, d));
                proof {
                    places = places.push(i as int);
                    assert(rows_view(r@) =~= list.push((key.0, d@)));
                    lemma_takes(list, s, keys, was, i as int, d@);
                }
            }
            proof {
                assert forall|k: int| #![trigger keys[k]] 0 <= k < i + 1 && start_row <= keys[k].0 < end_row implies places.contains(
                    k,
                ) by {
                    if k < i {
                        let x = choose|x: int| 0 <= x < was.len() && was[x] == k;
                        assert(places[x] == k);
                    } else {
                        assert(places[was.len() as int] == k);
                    }
                }
            }
            i = i + 1;
        }
        proof {
            let list = rows_view(r@);
            self.lemma_keys();
            assert forall|x: int| #![trigger list[x]] 0 <= x < list.len() implies list[x].1.col
                == keys[places[x]].1 by {
                let p = keys[places[x]];
                assert(is_seen(s, p.1, p.0, Some(list[x].1)));
                let t = choose|t: u64| #[trigger]
                    sees(s, (t, p.1, p.0)) && list[x].1 == s.deltas[(t, p.1, p.0)];
                assert(s.deltas.dom().contains((t, p.1, p.0)));
            }
            assert forall|x: int, y: int| #![trigger list[x], list[y]] 0 <= x < y < list.len() implies list[x].0
                < list[y].0 || list[x].0 == list[y].0 && text_before(list[x].1.col, list[y].1.col) by {
                assert(<(u64, String) as OrdKey>::before(keys[places[x]], keys[places[y]]));
            }
            assert forall|col: Seq<char>, row: u64| #[trigger] changed(s, col, row) && start_row <= row
                < end_row implies has_value(list, col, row) by {
                self.lemma_seen(index@, (row, col));
                let h = index.lemma_key((row, col));
                assert(keys[h].0 == row);
                let x = choose|x: int| 0 <= x < places.len() && places[x] == h;
                assert(list[x].0 == row);
            }
        }
        r
    }

    /// The changes that a reader sees, by column and row.
    pub fn get_all_visible_deltas(&self) -> (r: OrdMap<String, OrdMap<u64, CellDelta>>)
        requires
            self.wf(),
        ensures
            r.wf(),
            groups_seen(r@, self@),
    {
        let index = self.seen_index();
        let ghost keys = index.keys();
        let ghost s = self@;
        let mut r: OrdMap<String, OrdMap<u64, CellDelta>> = OrdMap::new();
        let mut i: usize = 0;
        while i < index.len()
            invariant
                self.wf(),
                s == self@,
                index.wf(),
                keys == index.keys(),
                indexes_seen(index@, self.keys(), s.committed, self.keys().len() as int),
                i <= keys.len(),
                r.wf(),
                groups_part(r@, s, keys.take(i as int)),
            decreases keys.len() - i,
        {
            let key = index.key_at(i);
            let at: usize = *index.value_at(i);
            let ghost k = keys[i as int];
            let ghost before = r@;
            proof {
                index.lemma_index(i as int);
                self.lemma_seen(index@, k);
                assert(keys.take(i + 1) =~= keys.take(i as int).push(k));
            }
            let d = self.deltas.value_at(at).clone();
            let ghost dv = d@;
            match r.find(&key.1) {
                Ok(g) => {
                    let ghost was = r;
                    proof {
                        was.lemma_index(g as int);
                        assert(before.dom().contains(k.1));
                    }
                    let group = r.value_mut(g);
                    let ghost held = *group;
                    let _ = group.insert(key.0, d);
                    proof {
                        lemma_value_changed(was, r, g as int);
                        lemma_groups_step(before, r@, s, keys.take(i as int), k, held@);
                    }
                },
                Err(_) => {
                    let mut group: OrdMap<u64, CellDelta> = OrdMap::new();
                    let ghost held = group@;
                    let _ = group.insert(key.0, d);
                    let _ = r.insert(key.1.clone(), group);
                    proof {
                        lemma_groups_step(before, r@, s, keys.take(i as int), k, held);
                    }
                },
            }
            i = i + 1;
        }
        proof {
            assert(keys.take(i as int) =~= keys);
            assert forall|col: Seq<char>, row: u64| #[trigger] groups_has(r@, col, row) <==> changed(s, col, row) by {
                self.lemma_seen(index@, (row, col));
                if changed(s, col, row) {
                    let h = index.lemma_key((row, col));
                    assert(keys[h] == (row, col));
                    assert(keys.contains((row, col)));
                }
                if keys.contains((row, col)) {
                    let h = choose|h: int| 0 <= h < keys.len() && keys[h] == (row, col);
                    index.lemma_index(h);
                }
                assert(groups_has(r@, col, row) <==> keys.contains((row, col)));
            }
        }
        r
    }

    /// The changes that say what was there before, for taking back a compaction.
    pub fn get_before_images(&self) -> (r: Vec<CellDelta>)
        requires
            self.wf(),
        ensures
            r@.map_values(|d: CellDelta| d@) == with_before(self@.deltas, self.keys()),
    {
        let ghost keys = self.keys();
        let ghost f = |d: CellDelta| d@;
        let mut r: Vec<CellDelta> = Vec::new();
        let mut i: usize = 0;
        proof {
            assert(keys.take(0) =~= Seq::empty());
            assert(r@.map_values(f) =~= Seq::empty());
        }
        while i < self.deltas.len()
            invariant
                self.wf(),
                keys == self.deltas.keys(),
                f == (|d: CellDelta| d@),
                i <= keys.len(),
                r@.map_values(f) == with_before(self@.deltas, keys.take(i as int)),
            decreases keys.len() - i,
        {
            let delta = self.deltas.value_at(i);
            proof {
                self.deltas.lemma_index(i as int);
                assert(self@.deltas[keys[i as int]] == delta@);
                assert(keys.take(i + 1).drop_last() =~= keys.take(i as int));
            }
            if let Some(_) = &delta.before {
                let d = delta.clone();
                assert(r@.push(d).map_values(f) =~= r@.map_values(f).push(d@));
                r.push(d);
            }
            i = i + 1;
        }
        assert(keys.take(i as int) =~= keys);
        r
    }

    /// Whether there are no changes.
    pub fn is_empty(&self) -> (r: bool)
        requires
            self.wf(),
        ensures
            r == (self@.deltas =~= Map::<DeltaKey, DeltaView>::empty()),
    {
        let n: usize = self.deltas.len();
        proof {
            self.lemma_keys();
            if n > 0 {
                assert(self.keys().to_set().contains(self.keys()[0]));
            }
        }
        n == 0
    }

    /// How many changes there are.
    pub fn delta_count(&self) -> (n: usize)
        requires
            self.wf(),
        ensures
            n == self@.deltas.dom().len(),
    {
        proof {
            self.lemma_keys();
        }
        self.deltas.len()
    }

    /// How many transactions are committed.
    pub fn committed_txn_count(&self) -> (n: usize)
        requires
            self.wf(),
        ensures
            n == self@.committed.len(),
    {
        proof {
            self.committed.lemma_dom();
        }
        self.committed.len()
    }

    /// Removes the transactions up to one and gives how many changes went with
    /// them.
    pub fn prune(&mut self, cutoff_txn: TxnId) -> (n: usize)
        requires
            old(self).wf(),
        ensures
            final(self).wf(),
            final(self).segment() == old(self).segment(),
            final(self)@ == pruned(old(self)@, cutoff_txn),
            n == old(self)@.deltas.dom().len() - final(self)@.deltas.dom().len(),
    {
        let ghost before = self@;
        let had: usize = self.delta_count();
        proof {
            self.lemma_keys();
        }
        self.remove_where(0, cutoff_txn);
        keep_above(&mut self.txns, cutoff_txn);
        keep_above(&mut self.committed, cutoff_txn);
        proof {
            assert(self@.deltas =~= pruned(before, cutoff_txn).deltas);
            assert(self@.txns =~= pruned(before, cutoff_txn).txns);
            assert(self@.committed =~= pruned(before, cutoff_txn).committed);
            assert(self@.deltas.dom().subset_of(before.deltas.dom()));
            vstd::set_lib::lemma_len_subset(self@.deltas.dom(), before.deltas.dom());
        }
        had - self.delta_count()
    }
}

/// Removes the transactions up to one.
fn keep_above(txns: &mut OrdMap<u64, ()>, cutoff: u64)
    requires
        old(txns).wf(),
    ensures
        final(txns).wf(),
        final(txns)@.dom() == old(txns)@.dom().filter(|t: u64| t > cutoff),
{
    let mut kept: OrdMap<u64, ()> = OrdMap::new();
    let ghost keys = txns.keys();
    let mut i: usize = 0;
    proof {
        txns.lemma_dom();
    }
    while i < txns.len()
        invariant
            keys == txns.keys(),
            i <= keys.len(),
            kept.wf(),
            forall|t: u64| #[trigger]
                kept@.dom().contains(t) <==> t > cutoff && keys.take(i as int).contains(t),
        decreases keys.len() - i,
    {
        let t: u64 = *txns.key_at(i);
        let ghost before = kept@;
        if t > cutoff {
            let _ = kept.insert(t, ());
        }
        proof {
            let now = keys.take(i as int);
            let next = keys.take(i + 1);
            assert(next =~= now.push(t));
            assert forall|x: u64| #[trigger] kept@.dom().contains(x) <==> x > cutoff && next.contains(x) by {
                assert(before.dom().contains(x) <==> x > cutoff && now.contains(x));
                if now.contains(x) {
                    let k = choose|k: int| 0 <= k < now.len() && now[k] == x;
                    assert(next[k] == x);
                }
                if x == t {
                    assert(next[i as int] == x);
                }
                if next.contains(x) {
                    let k = choose|k: int| 0 <= k < next.len() && next[k] == x;
                    if k < i {
                        assert(now[k] == x);
                    }
                }
            }
        }
        i = i + 1;
    }
    proof {
        assert(keys.take(i as int) =~= keys);
        assert(kept@.dom() =~= txns@.dom().filter(|t: u64| t > cutoff));
    }
    *txns = kept;
}

/// `list` has the seen changes of some places of an index, in order.
spec fn takes(
    list: Seq<(u64, DeltaView)>,
    s: StoreView,
    keys: Seq<(u64, Seq<char>)>,
    places: Seq<int>,
    n: int,
) -> bool {
    &&& list.len() == places.len()
    &&& forall|x: int, y: int|
        #![trigger places[x], places[y]]
        0 <= x < y < places.len() ==> places[x] < places[y]
    &&& forall|x: int|
        #![trigger places[x]]
        0 <= x < places.len() ==> 0 <= places[x] < n && list[x].0 == keys[places[x]].0 && is_seen(
            s,
            keys[places[x]].1,
            keys[places[x]].0,
            Some(list[x].1),
        )
}

proof fn lemma_takes(
    list: Seq<(u64, DeltaView)>,
    s: StoreView,
    keys: Seq<(u64, Seq<char>)>,
    places: Seq<int>,
    n: int,
    d: DeltaView,
)
    requires
        takes(list, s, keys, places, n),
        0 <= n < keys.len(),
        is_seen(s, keys[n].1, keys[n].0, Some(d)),
    ensures
        takes(list.push((keys[n].0, d)), s, keys, places.push(n), n + 1),
{
    let p = places.push(n);
    let l = list.push((keys[n].0, d));
    assert forall|x: int, y: int| #![trigger p[x], p[y]] 0 <= x < y < p.len() implies p[x] < p[y] by {
        assert(p[x] == places[x]);
        if y < places.len() {
            assert(p[y] == places[y]);
        }
    }
    assert forall|x: int| #![trigger p[x]] 0 <= x < p.len() implies 0 <= p[x] < n + 1 && l[x].0
        == keys[p[x]].0 && is_seen(s, keys[p[x]].1, keys[p[x]].0, Some(l[x].1)) by {
        if x < places.len() {
            assert(p[x] == places[x]);
            assert(l[x] == list[x]);
        }
    }
}

/// Whether changes by column and row have one of a value.
pub open spec fn groups_has(groups: Map<Seq<char>, OrdMap<u64, CellDelta>>, col: Seq<char>, row: u64) -> bool {
    groups.dom().contains(col) && groups[col]@.dom().contains(row)
}

/// `groups` has, by column and row, the change of each changed value that a
/// reader sees, and no column without one.
pub open spec fn groups_seen(groups: Map<Seq<char>, OrdMap<u64, CellDelta>>, s: StoreView) -> bool {
    &&& forall|col: Seq<char>, row: u64| #[trigger]
        groups_has(groups, col, row) <==> changed(s, col, row)
    &&& forall|col: Seq<char>, row: u64| #[trigger]
        groups_has(groups, col, row) ==> is_seen(s, col, row, Some(groups[col]@[row]@))
    &&& forall|col: Seq<char>| #[trigger]
        groups.dom().contains(col) ==> groups[col].wf() && groups[col]@.dom().len() > 0
}

spec fn groups_part(
    groups: Map<Seq<char>, OrdMap<u64, CellDelta>>,
    s: StoreView,
    keys: Seq<(u64, Seq<char>)>,
) -> bool {
    &&& forall|col: Seq<char>, row: u64| #[trigger]
        groups_has(groups, col, row) <==> keys.contains((row, col))
    &&& forall|col: Seq<char>, row: u64| #[trigger]
        groups_has(groups, col, row) ==> is_seen(s, col, row, Some(groups[col]@[row]@))
    &&& forall|col: Seq<char>| #[trigger]
        groups.dom().contains(col) ==> groups[col].wf() && groups[col]@.dom().len() > 0
}

proof fn lemma_groups_step(
    before: Map<Seq<char>, OrdMap<u64, CellDelta>>,
    after: Map<Seq<char>, OrdMap<u64, CellDelta>>,
    s: StoreView,
    keys: Seq<(u64, Seq<char>)>,
    k: (u64, Seq<char>),
    held: Map<u64, CellDelta>,
)
    requires
        groups_part(before, s, keys),
        after.dom() =~= before.dom().insert(k.1),
        forall|c: Seq<char>| #![trigger after[c]] c != k.1 && before.dom().contains(c) ==> after[c] == before[c],
        after[k.1].wf(),
        held == if before.dom().contains(k.1) {
            before[k.1]@
        } else {
            Map::empty()
        },
        after[k.1]@.dom() =~= held.dom().insert(k.0),
        forall|r: u64| #![trigger after[k.1]@[r]] r != k.0 && held.dom().contains(r) ==> after[k.1]@[r] == held[r],
        is_seen(s, k.1, k.0, Some(after[k.1]@[k.0]@)),
    ensures
        groups_part(after, s, keys.push(k)),
{
    let next = keys.push(k);
    assert forall|col: Seq<char>, row: u64| #[trigger] groups_has(after, col, row) <==> next.contains((row, col)) by {
        assert(groups_has(before, col, row) <==> keys.contains((row, col)));
        if keys.contains((row, col)) {
            let i = choose|i: int| 0 <= i < keys.len() && keys[i] == (row, col);
            assert(next[i] == (row, col));
        }
        if (row, col) == k {
            assert(next[keys.len() as int] == (row, col));
        }
        if next.contains((row, col)) {
            let i = choose|i: int| 0 <= i < next.len() && next[i] == (row, col);
            if i < keys.len() {
                assert(keys[i] == (row, col));
            }
        }
    }
    assert forall|col: Seq<char>, row: u64| #[trigger] groups_has(after, col, row) implies is_seen(
        s,
        col,
        row,
        Some(after[col]@[row]@),
    ) by {
        if (row, col) != k {
            assert(groups_has(before, col, row));
        }
    }
    assert forall|col: Seq<char>| #[trigger] after.dom().contains(col) implies after[col].wf()
        && after[col]@.dom().len() > 0 by {
        if col != k.1 {
            assert(before.dom().contains(col));
        } else {
            after[k.1].lemma_dom();
            assert(after[k.1]@.dom().contains(k.0));
            if after[k.1]@.dom().len() == 0 {
                assert(after[k.1]@.dom() =~= Set::empty());
            }
        }
    }
}

proof fn lemma_key_pushed(keys: Seq<DeltaKey>, k: DeltaKey, x: DeltaKey)
    ensures
        keys.push(k).contains(x) <==> keys.contains(x) || x == k,
{
    let p = keys.push(k);
    if keys.contains(x) {
        let i = choose|i: int| 0 <= i < keys.len() && keys[i] == x;
        assert(p[i] == x);
    }
    if x == k {
        assert(p[keys.len() as int] == x);
    }
    if p.contains(x) {
        let i = choose|i: int| 0 <= i < p.len() && p[i] == x;
        if i < keys.len() {
            assert(keys[i] == x);
        }
    }
}

/// A stored change: transaction, column, row, kind, and the value before and
/// after.
pub type StoredDelta = (u64, String, u64, u32, Option<Vec<u8>>, Option<Vec<u8>>);

/// What a stored change says.
pub type StoredView = (u64, Seq<char>, u64, u32, Option<Seq<u8>>, Option<Seq<u8>>);

/// A stored store: its segment, its transactions and its changes.
pub type StoredStore = (String, Vec<u64>, Vec<StoredDelta>);

/// What a stored change says.
pub open spec fn stored_view(d: StoredDelta) -> StoredView {
    (d.0, d.1@, d.2, d.3, cell_view(d.4), cell_view(d.5))
}

/// What a stored store says.
pub open spec fn stored_store_view(s: StoredStore) -> (Seq<char>, Seq<u64>, Seq<StoredView>) {
    (s.0@, s.1@, s.2@.map_values(|d: StoredDelta| stored_view(d)))
}

/// The stored store that `postcard` reads from bytes, if it reads one.
pub uninterp spec fn postcard_store(bytes: Seq<u8>) -> Option<(Seq<char>, Seq<u64>, Seq<StoredView>)>;

/// `postcard::to_stdvec`: bytes from which the same is read back. Writing to
/// memory does not fail.
#[verifier::external_body]
fn write_store(s: &StoredStore) -> (r: Result<Vec<u8>, postcard::Error>)
    ensures
        r is Ok,
        r matches Ok(bytes) ==> postcard_store(bytes@) == Some(stored_store_view(*s)),
{
    postcard::to_stdvec(s)
}

/// `postcard::from_bytes`.
#[verifier::external_body]
fn read_store(bytes: &[u8]) -> (r: Result<StoredStore, postcard::Error>)
    ensures
        match r {
            Ok(s) => postcard_store(bytes@) == Some(stored_store_view(s)),
            Err(_) => postcard_store(bytes@) is None,
        },
{
    postcard::from_bytes(bytes)
}

/// The number of a kind of change.
pub open spec fn op_code(op: DeltaOpType) -> u32 {
    match op {
        DeltaOpType::Update => 0,
        DeltaOpType::Delete => 1,
        DeltaOpType::Insert => 2,
    }
}

/// The kind of change with a number.
pub open spec fn op_of(code: u32) -> DeltaOpType {
    if code == 0 {
        DeltaOpType::Update
    } else if code == 1 {
        DeltaOpType::Delete
    } else {
        DeltaOpType::Insert
    }
}

/// The stored form of a change.
pub open spec fn stored_form(d: DeltaView) -> StoredView {
    (d.txn_id, d.col, d.row, op_code(d.op), d.before, d.after)
}

/// The change of a stored form.
pub open spec fn restored_form(d: StoredView) -> DeltaView {
    DeltaView { row: d.2, col: d.1, op: op_of(d.3), before: d.4, after: d.5, txn_id: d.0 }
}

/// The stored forms of some changes, in order.
pub open spec fn stored_forms(deltas: Map<DeltaKey, DeltaView>, keys: Seq<DeltaKey>) -> Seq<StoredView> {
    Seq::new(keys.len(), |i: int| stored_form(deltas[keys[i]]))
}

/// The store of stored changes.
pub open spec fn loaded(entries: Seq<StoredView>) -> StoreView
    decreases entries.len(),
{
    if entries.len() == 0 {
        StoreView { deltas: Map::empty(), txns: Set::empty(), committed: Set::empty() }
    } else {
        recorded(loaded(entries.drop_last()), restored_form(entries.last()))
    }
}

/// Whether all stored changes are of a known kind.
pub open spec fn known_kinds(entries: Seq<StoredView>) -> bool {
    forall|i: int| #![trigger entries[i]] 0 <= i < entries.len() ==> entries[i].3 <= 2
}

impl DeltaStore {
    /// The transactions that have begun or changed something, in order.
    pub closed spec fn txn_list(&self) -> Seq<u64> {
        self.txns.keys()
    }

    /// The stored form of the store. Which transactions are committed is not
    /// stored.
    pub fn to_bytes(&self) -> (r: Result<Vec<u8>, RockDuckError>)
        requires
            self.wf(),
        ensures
            match r {
                Ok(bytes) => postcard_store(bytes@) == Some(
                    (self.segment(), self.txn_list(), stored_forms(self@.deltas, self.keys())),
                ),
                Err(_) => false,
            },
    {
        let ghost keys = self.keys();
        let mut txns: Vec<u64> = Vec::new();
        let mut t: usize = 0;
        while t < self.txns.len()
            invariant
                t <= self.txns.keys().len(),
                txns@ == self.txns.keys().take(t as int),
            decreases self.txns.keys().len() - t,
        {
            txns.push(*self.txns.key_at(t));
            t = t + 1;
            assert(txns@ =~= self.txns.keys().take(t as int));
        }
        let ghost f = |d: StoredDelta| stored_view(d);
        let mut entries: Vec<StoredDelta> = Vec::new();
        let mut i: usize = 0;
        while i < self.deltas.len()
            invariant
                self.wf(),
                keys == self.deltas.keys(),
                f == (|d: StoredDelta| stored_view(d)),
                i <= keys.len(),
                entries@.len() == i,
                forall|k: int|
                    #![trigger entries@[k]]
                    0 <= k < i ==> stored_view(entries@[k]) == stored_form(self@.deltas[keys[k]]),
            decreases keys.len() - i,
        {
            let d = self.deltas.value_at(i);
            proof {
                self.deltas.lemma_index(i as int);
                assert(self@.deltas[keys[i as int]] == d@);
            }
            let code: u32 = match d.op {
                DeltaOpType::Update => 0,
                DeltaOpType::Delete => 1,
                DeltaOpType::Insert => 2,
            };
            let entry = (
                d.txn_id,
                d.col.clone(),
                d.row,
                code,
                copy_cell(&d.before),
                copy_cell(&d.after),
            );
            entries.push(entry);
            i = i + 1;
        }
        let stored = (self.seg_id.clone(), txns, entries);
        proof {
            assert(txns@ =~= self.txn_list());
            assert(entries@.map_values(f) =~= stored_forms(self@.deltas, keys));
            assert(stored_store_view(stored).2 =~= stored_forms(self@.deltas, keys));
        }
        match write_store(&stored) {
            Ok(bytes) => Ok(bytes),
            Err(_) => Err(RockDuckError::Serialization),
        }
    }

    /// Reads a stored store as that of a segment. No transaction counts as
    /// committed.
    pub fn from_bytes(seg_id: String, data: &[u8]) -> (r: Result<Self, RockDuckError>)
        ensures
            match r {
                Ok(store) => store.wf() && store.segment() == seg_id@ && match postcard_store(data@) {
                    Some((_, txns, entries)) => known_kinds(entries) && store@ == (StoreView {
                        txns: loaded(entries).txns.union(txns.to_set()),
                        ..loaded(entries)
                    }),
                    None => false,
                },
                Err(e) => e == RockDuckError::Deserialize && match postcard_store(data@) {
                    Some((_, _, entries)) => !known_kinds(entries),
                    None => true,
                },
            },
    {
        let stored = match read_store(data) {
            Ok(s) => s,
            Err(_) => return Err(RockDuckError::Deserialize),
        };
        let ghost views = stored_store_view(stored).2;
        let ghost list = stored_store_view(stored).1;
        let mut store = DeltaStore::new(seg_id);
        let mut i: usize = 0;
        let entries: &Vec<StoredDelta> = &stored.2;
        assert(views.take(0) =~= Seq::empty());
        while i < entries.len()
            invariant
                i <= entries@.len() == views.len(),
                views == stored_store_view(stored).2,
                *entries == stored.2,
                postcard_store(data@) == Some(stored_store_view(stored)),
                store.wf(),
                store.segment() == seg_id@,
                store@ == loaded(views.take(i as int)),
                forall|k: int| #![trigger views[k]] 0 <= k < i ==> views[k].3 <= 2,
            decreases entries@.len() - i,
        {
            let e: &StoredDelta = &entries[i];
            proof {
                assert(views[i as int] == stored_view(*e));
                assert(views.take(i + 1).drop_last() =~= views.take(i as int));
            }
            let op = if e.3 == 0 {
                DeltaOpType::Update
            } else if e.3 == 1 {
                DeltaOpType::Delete
            } else if e.3 == 2 {
                DeltaOpType::Insert
            } else {
                assert(!known_kinds(views));
                return Err(RockDuckError::Deserialize);
            };
            let delta = CellDelta {
                row: e.2,
                col: e.1.clone(),
                op,
                before: copy_cell(&e.4),
                after: copy_cell(&e.5),
                txn_id: e.0,
            };
            store.record(delta);
            i = i + 1;
        }
        assert(views.take(i as int) =~= views);
        let txns: &Vec<u64> = &stored.1;
        let mut t: usize = 0;
        let ghost base = store@;
        assert(base.txns.union(txns@.take(0).to_set()) =~= base.txns);
        while t < txns.len()
            invariant
                t <= txns@.len(),
                store.wf(),
                store.segment() == seg_id@,
                store@ == (StoreView {
                    txns: base.txns.union(txns@.take(t as int).to_set()),
                    ..base
                }),
            decreases txns@.len() - t,
        {
            store.begin_txn(txns[t]);
            proof {
                let now = txns@.take(t as int);
                let next = txns@.take(t + 1);
                assert(next =~= now.push(txns@[t as int]));
                assert(base.txns.union(next.to_set()) =~= base.txns.union(now.to_set()).insert(
                    txns@[t as int],
                )) by {
                    assert forall|x: u64| next.contains(x) <==> now.contains(x) || x == txns@[t as int] by {
                        if now.contains(x) {
                            let k = choose|k: int| 0 <= k < now.len() && now[k] == x;
                            assert(next[k] == x);
                        }
                        if x == txns@[t as int] {
                            assert(next[t as int] == x);
                        }
                        if next.contains(x) {
                            let k = choose|k: int| 0 <= k < next.len() && next[k] == x;
                            if k < t {
                                assert(now[k] == x);
                            }
                        }
                    }
                }
            }
            t = t + 1;
        }
        assert(txns@.take(t as int) =~= txns@);
        Ok(store)
    }
}

/// What was stored of a store is read back: all its changes, and no transaction
/// as committed.
pub proof fn law_stored_changes_are_read_back(store: DeltaStore)
    requires
        store.wf(),
    ensures
        ({
            let entries = stored_forms(store@.deltas, store.keys());
            &&& known_kinds(entries)
            &&& loaded(entries).deltas == store@.deltas
            &&& loaded(entries).committed == Set::<u64>::empty()
        }),
{
    store.lemma_keys();
    let keys = store.keys();
    assert forall|i: int| #![trigger keys[i]] 0 <= i < keys.len() implies {
        let d = store@.deltas[keys[i]];
        d.txn_id == keys[i].0 && d.col == keys[i].1 && d.row == keys[i].2
    } by {
        assert(keys.to_set().contains(keys[i]));
    }
    lemma_loaded(store@.deltas, keys);
    let l = loaded(stored_forms(store@.deltas, keys)).deltas;
    assert(l =~= store@.deltas) by {
        assert forall|k: DeltaKey| #[trigger] l.dom().contains(k) <==> store@.deltas.dom().contains(k) by {
            assert(keys.contains(k) <==> keys.to_set().contains(k));
        }
    }
}

proof fn lemma_loaded(deltas: Map<DeltaKey, DeltaView>, keys: Seq<DeltaKey>)
    requires
        forall|i: int|
            #![trigger keys[i]]
            0 <= i < keys.len() ==> {
                let d = deltas[keys[i]];
                d.txn_id == keys[i].0 && d.col == keys[i].1 && d.row == keys[i].2
            },
    ensures
        known_kinds(stored_forms(deltas, keys)),
        loaded(stored_forms(deltas, keys)).committed == Set::<u64>::empty(),
        forall|k: DeltaKey| #[trigger]
            loaded(stored_forms(deltas, keys)).deltas.dom().contains(k) <==> keys.contains(k),
        forall|k: DeltaKey| #[trigger]
            loaded(stored_forms(deltas, keys)).deltas.dom().contains(k) ==> loaded(
                stored_forms(deltas, keys),
            ).deltas[k] == deltas[k],
    decreases keys.len(),
{
    let forms = stored_forms(deltas, keys);
    if keys.len() > 0 {
        let front = keys.drop_last();
        assert forall|i: int| #![trigger front[i]] 0 <= i < front.len() implies {
            let d = deltas[front[i]];
            d.txn_id == front[i].0 && d.col == front[i].1 && d.row == front[i].2
        } by {
            assert(front[i] == keys[i]);
        }
        lemma_loaded(deltas, front);
        assert(forms.drop_last() =~= stored_forms(deltas, front));
        let last = keys[keys.len() - 1];
        assert(restored_form(forms.last()) =~= deltas[last]);
        assert forall|k: DeltaKey| #[trigger] loaded(forms).deltas.dom().contains(k) <==> keys.contains(k) by {
            assert(keys =~= front.push(last));
            lemma_key_pushed(front, last, k);
        }
    }
}

/// A reader sees at most one change of a value.
pub proof fn law_one_change_is_seen(s: StoreView, col: Seq<char>, row: u64, a: u64, b: u64)
    requires
        sees(s, (a, col, row)),
        sees(s, (b, col, row)),
    ensures
        a == b,
{
    let x = (a, col, row);
    let y = (b, col, row);
    assert(s.deltas.dom().contains((b, x.1, x.2)));
    assert(s.deltas.dom().contains((a, y.1, y.2)));
}

/// A change of a transaction that is not committed is not seen.
pub proof fn law_uncommitted_change_is_not_seen(s: StoreView, key: DeltaKey)
    requires
        !s.committed.contains(key.0),
    ensures
        !sees(s, key),
{
}

/// After a rollback no change of the transaction is left, and every other change
/// is.
pub proof fn law_rollback_undoes_a_transaction(s: StoreView, txn: u64, key: DeltaKey)
    ensures
        rolled_back(s, txn).deltas.dom().contains(key) <==> s.deltas.dom().contains(key) && key.0 != txn,
        key.0 != txn && s.deltas.dom().contains(key) ==> rolled_back(s, txn).deltas[key]
            == s.deltas[key],
        !sees(rolled_back(s, txn), (txn, key.1, key.2)),
{
}

/// A change that is recorded and committed is seen, unless a later committed
/// transaction changed the same value.
pub proof fn law_committed_change_is_seen(s: StoreView, d: DeltaView)
    requires
        s.committed.contains(d.txn_id),
        forall|t: u64|
            #![trigger s.deltas.dom().contains((t, d.col, d.row))]
            t > d.txn_id && s.committed.contains(t) ==> !s.deltas.dom().contains((t, d.col, d.row)),
    ensures
        sees(recorded(s, d), (d.txn_id, d.col, d.row)),
        recorded(s, d).deltas[(d.txn_id, d.col, d.row)] == d,
{
    let n = recorded(s, d);
    assert forall|t: u64|
        #![trigger n.deltas.dom().contains((t, d.col, d.row))]
        t > d.txn_id && n.committed.contains(t) implies !n.deltas.dom().contains((t, d.col, d.row)) by {
        assert(!s.deltas.dom().contains((t, d.col, d.row)));
    }
}

/// Committing a transaction changes no change and no other transaction: as many
/// changes are held as before, one more transaction is committed the first time
/// and none the second, and its changes are seen where no later committed
/// transaction changed the same value.
pub proof fn law_commit_shows_a_transaction(s: StoreView, txn: u64, key: DeltaKey)
    requires
        s.committed.finite(),
    ensures
        committed_with(s, txn).deltas == s.deltas,
        committed_with(s, txn).txns == s.txns,
        committed_with(s, txn).committed.len() == s.committed.len() + if s.committed.contains(txn) {
            0int
        } else {
            1
        },
        committed_with(committed_with(s, txn), txn) == committed_with(s, txn),
        key.0 == txn && s.deltas.dom().contains(key) && (forall|t: u64|
            #![trigger s.deltas.dom().contains((t, key.1, key.2))]
            t > txn && s.committed.contains(t) ==> !s.deltas.dom().contains((t, key.1, key.2)))
            ==> sees(committed_with(s, txn), key),
        key.0 != txn && !sees(s, key) ==> !sees(committed_with(s, txn), key),
{
    let n = committed_with(s, txn);
    assert(committed_with(n, txn) =~= n);
    if key.0 != txn && sees(n, key) {
        assert(sees(s, key)) by {
            assert forall|t: u64|
                #![trigger s.deltas.dom().contains((t, key.1, key.2))]
                t > key.0 && s.committed.contains(t) implies !s.deltas.dom().contains(
                (t, key.1, key.2),
            ) by {
                assert(n.deltas.dom().contains((t, key.1, key.2)) == s.deltas.dom().contains(
                    (t, key.1, key.2),
                ));
            }
        }
    }
}

/// There are no changes before there are segments. A segment that is removed
/// takes its own changes with it and no others.
pub proof fn law_removed_segment_takes_its_changes(stores: Map<Seq<char>, DeltaStore>, seg_id: Seq<char>)
    requires
        stores.dom().finite(),
    ensures
        total_deltas(Map::empty()) == 0,
        total_deltas(stores.remove(seg_id)) == total_deltas(stores) - if stores.dom().contains(seg_id) {
            stores[seg_id]@.deltas.dom().len() as int
        } else {
            0
        },
{
    lemma_sum_empty::<Seq<char>, DeltaStore>(deltas_in());
    if stores.dom().contains(seg_id) {
        lemma_sum_part(stores, seg_id, deltas_in());
    } else {
        assert(stores.remove(seg_id) =~= stores);
    }
}

/// A change of a value that its transaction had not changed yet raises the number
/// of all changes by one, whether or not the segment had a store before.
pub proof fn law_fresh_change_is_counted(
    stores: Map<Seq<char>, DeltaStore>,
    seg_id: Seq<char>,
    before: StoreView,
    after: DeltaStore,
    d: DeltaView,
)
    requires
        stores.dom().finite(),
        if stores.dom().contains(seg_id) {
            before == stores[seg_id]@
        } else {
            before == (StoreView { deltas: Map::empty(), txns: Set::empty(), committed: Set::empty() })
        },
        before.deltas.dom().finite(),
        after@ == recorded(before, d),
        !before.deltas.dom().contains((d.txn_id, d.col, d.row)),
    ensures
        total_deltas(stores.insert(seg_id, after)) == total_deltas(stores) + 1,
{
    lemma_sum_insert(stores, seg_id, after, deltas_in());
    assert(after@.deltas.dom() =~= before.deltas.dom().insert((d.txn_id, d.col, d.row)));
    assert(Map::<DeltaKey, DeltaView>::empty().dom() =~= Set::empty());
}

/// The stores of some segments.
#[derive(Debug)]
pub struct DeltaStoreManager {
    stores: OrdMap<String, DeltaStore>,
}

impl View for DeltaStoreManager {
    type V = Map<Seq<char>, DeltaStore>;

    closed spec fn view(&self) -> Map<Seq<char>, DeltaStore> {
        self.stores@
    }
}

/// How many changes a store holds.
pub open spec fn deltas_in() -> spec_fn(DeltaStore) -> int {
    |s: DeltaStore| s@.deltas.dom().len() as int
}

/// How many changes the stores of all segments hold.
pub open spec fn total_deltas(stores: Map<Seq<char>, DeltaStore>) -> int {
    map_sum(stores, deltas_in())
}

proof fn lemma_total_deltas(stores: Map<Seq<char>, DeltaStore>, keys: Seq<Seq<char>>, n: int)
    requires
        0 <= n <= keys.len(),
    ensures
        0 <= listed_sum(stores, keys.take(n), deltas_in()) <= listed_sum(stores, keys, deltas_in()),
    decreases keys.len(),
{
    if keys.len() > 0 && n < keys.len() {
        lemma_total_deltas(stores, keys.drop_last(), n);
        assert(keys.drop_last().take(n) =~= keys.take(n));
    } else {
        assert(keys.take(n) =~= keys);
        if keys.len() > 0 {
            lemma_total_deltas(stores, keys.drop_last(), keys.len() - 1);
        }
    }
}

impl DeltaStoreManager {
    /// There are finitely many segments.
    pub proof fn lemma_finite(&self)
        requires
            self.ordered(),
        ensures
            self@.dom().finite(),
    {
        self.stores.lemma_dom();
    }

    pub closed spec fn ordered(&self) -> bool {
        self.stores.wf()
    }

    /// Every store is in order.
    pub open spec fn wf(&self) -> bool {
        self.ordered() && forall|s: Seq<char>| #[trigger]
            self@.dom().contains(s) ==> self@[s].wf()
    }

    pub fn new() -> (r: Self)
        ensures
            r.wf(),
            r@ == Map::<Seq<char>, DeltaStore>::empty(),
    {
        DeltaStoreManager { stores: OrdMap::new() }
    }

    /// What the place of a segment says of a changed store.
    proof fn lemma_store_changed(&self, at: int, seg_id: Seq<char>)
        requires
            self.ordered(),
            0 <= at < self.stores.keys().len(),
            self.stores.keys()[at] == seg_id,
        ensures
            forall|after: OrdMap<String, DeltaStore>|
                #![trigger after.keys()]
                after.keys() == self.stores.keys() && (forall|j: int|
                    0 <= j < self.stores.keys().len() && j != at ==> #[trigger] after.value_of(j)
                        == self.stores.value_of(j)) ==> after.wf() && after@ == self@.insert(
                    seg_id,
                    after.value_of(at),
                ),
    {
        assert forall|after: OrdMap<String, DeltaStore>|
            #![trigger after.keys()]
            after.keys() == self.stores.keys() && (forall|j: int|
                0 <= j < self.stores.keys().len() && j != at ==> #[trigger] after.value_of(j)
                    == self.stores.value_of(j)) implies after.wf() && after@ == self@.insert(
            seg_id,
            after.value_of(at),
        ) by {
            lemma_value_changed(self.stores, after, at);
        }
    }

    /// The store of a segment, an empty one if it had none.
    pub fn get_or_create(&mut self, seg_id: &str) -> (r: &mut DeltaStore)
        requires
            old(self).wf(),
        ensures
            r.wf(),
            if old(self)@.dom().contains(seg_id@) {
                *r == old(self)@[seg_id@]
            } else {
                r.segment() == seg_id@ && r@ == (StoreView {
                    deltas: Map::empty(),
                    txns: Set::empty(),
                    committed: Set::empty(),
                })
            },
            final(self).ordered(),
            final(self)@ == old(self)@.insert(seg_id@, *final(r)),
    {
        let key = text_copy(seg_id);
        let at: usize = match self.stores.find(&key) {
            Ok(i) => i,
            Err(_) => {
                let _ = self.stores.insert(text_copy(seg_id), DeltaStore::new(text_copy(seg_id)));
                match self.stores.find(&key) {
                    Ok(i) => i,
                    Err(_) => 0,
                }
            },
        };
        proof {
            self.lemma_store_changed(at as int, seg_id@);
            self.stores.lemma_index(at as int);
            let mid = self@;
            assert forall|v: DeltaStore| #[trigger] mid.insert(seg_id@, v) == old(self)@.insert(
                seg_id@,
                v,
            ) by {
                assert(mid.insert(seg_id@, v) =~= old(self)@.insert(seg_id@, v));
            }
        }
        self.stores.value_mut(at)
    }

    /// The store of a segment.
    pub fn get(&self, seg_id: &str) -> (r: Option<&DeltaStore>)
        requires
            self.ordered(),
        ensures
            match r {
                Some(s) => self@.dom().contains(seg_id@) && *s == self@[seg_id@],
                None => !self@.dom().contains(seg_id@),
            },
    {
        let key = text_copy(seg_id);
        self.stores.get(&key)
    }

    /// The store of a segment, for changes.
    pub fn get_mut(&mut self, seg_id: &str) -> (r: Option<&mut DeltaStore>)
        requires
            old(self).wf(),
        ensures
            match r {
                Some(s) => old(self)@.dom().contains(seg_id@) && *s == old(self)@[seg_id@]
                    && final(self).ordered() && final(self)@ == old(self)@.insert(
                    seg_id@,
                    *final(s),
                ),
                None => !old(self)@.dom().contains(seg_id@) && *final(self) == *old(self),
            },
    {
        let key = text_copy(seg_id);
        match self.stores.find(&key) {
            Ok(at) => {
                proof {
                    self.lemma_store_changed(at as int, seg_id@);
                    self.stores.lemma_index(at as int);
                }
                Some(self.stores.value_mut(at))
            },
            Err(_) => None,
        }
    }

    /// Removes the store of a segment.
    pub fn remove(&mut self, seg_id: &str)
        requires
            old(self).wf(),
        ensures
            final(self).wf(),
            final(self)@ == old(self)@.remove(seg_id@),
    {
        let key = text_copy(seg_id);
        let _ = self.stores.remove(&key);
        assert forall|s: Seq<char>| #[trigger] self@.dom().contains(s) implies self@[s].wf() by {
            assert(old(self)@.dom().contains(s));
        }
    }

    /// Takes in a store that was read from its stored form.
    pub fn restore(&mut self, seg_id: &str, store: DeltaStore)
        requires
            old(self).wf(),
            store.wf(),
        ensures
            final(self).wf(),
            final(self)@ == old(self)@.insert(seg_id@, store),
    {
        let _ = self.stores.insert(text_copy(seg_id), store);
        assert forall|s: Seq<char>| #[trigger] self@.dom().contains(s) implies self@[s].wf() by {
            if s != seg_id@ {
                assert(old(self)@.dom().contains(s));
            }
        }
    }

    /// Removes, of a segment, the transactions up to one; gives how many changes
    /// went with them.
    pub fn prune_before_txn(&mut self, seg_id: &str, cutoff_txn: TxnId) -> (r: Result<
        usize,
        RockDuckError,
    >)
        requires
            old(self).wf(),
        ensures
            final(self).wf(),
            match r {
                Ok(n) => {
                    &&& old(self)@.dom().contains(seg_id@)
                    &&& final(self)@.dom() == old(self)@.dom()
                    &&& forall|s: Seq<char>|
                        #![trigger final(self)@[s]]
                        s != seg_id@ && old(self)@.dom().contains(s) ==> final(self)@[s]
                            == old(self)@[s]
                    &&& final(self)@[seg_id@].wf()
                    &&& final(self)@[seg_id@]@ == pruned(old(self)@[seg_id@]@, cutoff_txn)
                    &&& final(self)@[seg_id@].segment() == old(self)@[seg_id@].segment()
                    &&& n == old(self)@[seg_id@]@.deltas.dom().len()
                        - final(self)@[seg_id@]@.deltas.dom().len()
                },
                Err(e) => !old(self)@.dom().contains(seg_id@) && *final(self) == *old(self) && e
                    == RockDuckError::Storage,
            },
    {
        let n: usize = match self.get_mut(seg_id) {
            Some(store) => store.prune(cutoff_txn),
            None => return Err(RockDuckError::Storage),
        };
        assert forall|s: Seq<char>| #[trigger] self@.dom().contains(s) implies self@[s].wf() by {
            assert(old(self)@.dom().contains(s));
        }
        Ok(n)
    }

    /// The segments that have changes, in order.
    pub fn segments_with_deltas(&self) -> (r: Vec<String>)
        requires
            self.wf(),
        ensures
            forall|s: Seq<char>| #[trigger]
                lists_text(r@, s) <==> self@.dom().contains(s) && !(self@[s]@.deltas =~= Map::<
                    DeltaKey,
                    DeltaView,
                >::empty()),
            all_distinct(r@),
    {
        let ghost keys = self.stores.keys();
        proof {
            self.stores.lemma_dom();
        }
        let mut r: Vec<String> = Vec::new();
        let mut i: usize = 0;
        while i < self.stores.len()
            invariant
                self.wf(),
                keys == self.stores.keys(),
                i <= keys.len(),
                forall|s: Seq<char>| #[trigger]
                    lists_text(r@, s) <==> keys.take(i as int).contains(s) && !(self@[s]@.deltas
                        =~= Map::<DeltaKey, DeltaView>::empty()),
                keys.no_duplicates(),
                all_distinct(r@),
            decreases keys.len() - i,
        {
            let store = self.stores.value_at(i);
            let ghost k = keys[i as int];
            let ghost was = r@;
            proof {
                self.stores.lemma_index(i as int);
                assert(self@.dom().contains(k));
            }
            let some = !store.is_empty();
            if some {
                r.push(self.stores.key_at(i).clone());
                proof {
                    assert(!keys.take(i as int).contains(k)) by {
                        if keys.take(i as int).contains(k) {
                            let j = choose|j: int| 0 <= j < i && keys.take(i as int)[j] == k;
                            assert(keys[j] == keys[i as int]);
                        }
                    }
                    assert(!lists_text(was, k));
                    lemma_distinct_push(was, r@[was.len() as int]);
                }
            }
            proof {
                let now = keys.take(i as int);
                let next = keys.take(i + 1);
                assert(next =~= now.push(k));
                assert forall|s: Seq<char>| #[trigger] lists_text(r@, s) <==> next.contains(s)
                    && !(self@[s]@.deltas =~= Map::<DeltaKey, DeltaView>::empty()) by {
                    assert(lists_text(was, s) <==> now.contains(s) && !(self@[s]@.deltas =~= Map::<
                        DeltaKey,
                        DeltaView,
                    >::empty()));
                    if some {
                        lemma_text_pushed(was, r@[was.len() as int], s);
                    }
                    if now.contains(s) {
                        let j = choose|j: int| 0 <= j < now.len() && now[j] == s;
                        assert(next[j] == s);
                    }
                    if s == k {
                        assert(next[i as int] == s);
                    }
                    if next.contains(s) {
                        let j = choose|j: int| 0 <= j < next.len() && next[j] == s;
                        if j < i {
                            assert(now[j] == s);
                        }
                    }
                }
            }
            i = i + 1;
        }
        proof {
            assert(keys.take(i as int) =~= keys);
            self.stores.lemma_dom();
            assert forall|s: Seq<char>| #[trigger] lists_text(r@, s) <==> self@.dom().contains(s)
                && !(self@[s]@.deltas =~= Map::<DeltaKey, DeltaView>::empty()) by {
                assert(self@.dom().contains(s) <==> keys.to_set().contains(s));
            }
        }
        r
    }

    /// How many changes there are in all segments.
    pub fn delta_count(&self) -> (n: usize)
        requires
            self.wf(),
            total_deltas(self@) <= usize::MAX,
        ensures
            n == total_deltas(self@),
    {
        let ghost keys = self.stores.keys();
        let mut n: usize = 0;
        let mut i: usize = 0;
        proof {
            self.stores.lemma_dom();
            assert forall|k: Seq<char>| #[trigger] self@.dom().contains(k) <==> keys.contains(k) by {
                assert(keys.to_set().contains(k) == keys.contains(k));
            }
            lemma_sum_listed(self@, keys, deltas_in());
            assert(keys.take(0) =~= Seq::empty());
        }
        while i < self.stores.len()
            invariant
                self.wf(),
                keys == self.stores.keys(),
                i <= keys.len(),
                listed_sum(self@, keys, deltas_in()) <= usize::MAX,
                n == listed_sum(self@, keys.take(i as int), deltas_in()),
            decreases keys.len() - i,
        {
            let store = self.stores.value_at(i);
            proof {
                self.stores.lemma_index(i as int);
                assert(self@.dom().contains(keys[i as int]));
                assert(self@[keys[i as int]] == *store);
                assert(keys.take(i + 1).drop_last() =~= keys.take(i as int));
                lemma_total_deltas(self@, keys, i + 1);
            }
            n = n + store.delta_count();
            i = i + 1;
        }
        assert(keys.take(i as int) =~= keys);
        n
    }

    /// The changes of a segment in a range of rows that a reader sees; none of a
    /// segment without a store.
    pub fn scan_segment_deltas(&self, seg_id: &str, start_row: u64, end_row: u64) -> (r: Vec<
        (u64, CellDelta),
    >)
        requires
            self.wf(),
        ensures
            if self@.dom().contains(seg_id@) {
                lists_range(rows_view(r@), self@[seg_id@]@, start_row, end_row)
            } else {
                r@.len() == 0
            },
    {
        match self.get(seg_id) {
            Some(store) => store.scan_deltas_in_range(start_row, end_row),
            None => Vec::new(),
        }
    }
}

proof fn lemma_text_pushed(list: Seq<String>, t: String, s: Seq<char>)
    ensures
        lists_text(list.push(t), s) <==> lists_text(list, s) || t@ == s,
{
    let p = list.push(t);
    if lists_text(list, s) {
        let i = choose|i: int| 0 <= i < list.len() && (#[trigger] list[i])@ == s;
        assert(p[i]@ == s);
    }
    if t@ == s {
        assert(p[list.len() as int]@ == s);
    }
    if lists_text(p, s) {
        let i = choose|i: int| 0 <= i < p.len() && (#[trigger] p[i])@ == s;
        if i < list.len() {
            assert(list[i]@ == s);
        }
    }
}

impl Default for DeltaStoreManager {
    fn default() -> (r: Self)
        ensures
            r.wf(),
            r@ == Map::<Seq<char>, DeltaStore>::empty(),
    {
        Self::new()
    }
}

impl Default for DeltaStore {
    fn default() -> (r: Self)
        ensures
            r.wf(),
            r@ == (StoreView { deltas: Map::empty(), txns: Set::empty(), committed: Set::empty() }),
    {
        Self::new(String::new())
    }
}

/// The value of a cell under a change: of a number, its leading bytes, or
/// nothing when it is deleted; of a truth value, whether its first byte is not
/// zero; of a text, its bytes, or an empty text when it is deleted or they are no
/// text. A missing value stays missing; an image that is too short changes
/// nothing.
pub open spec fn overlaid(dtype: ColumnType, held: Option<Seq<u8>>, d: DeltaView) -> Option<Seq<u8>> {
    match kind_of(dtype) {
        CellKind::Signed { width } | CellKind::Unsigned { width } | CellKind::Float { width } =>
            match d.op {
                DeltaOpType::Delete => None,
                _ => match (held, d.after) {
                    (Some(h), Some(a)) => if a.len() >= width {
                        Some(a.take(width as int))
                    } else {
                        Some(h)
                    },
                    _ => held,
                },
            },
        CellKind::Truth => match held {
            None => None,
            Some(h) => match (d.op, d.after) {
                (DeltaOpType::Delete, _) => Some(seq![0u8]),
                (_, Some(a)) => Some(
                    seq![
                        if a.len() > 0 && a[0] != 0 {
                            1u8
                        } else {
                            0u8
                        },
                    ],
                ),
                (_, None) => Some(h),
            },
        },
        _ => match held {
            None => None,
            Some(h) => match (d.op, d.after) {
                (DeltaOpType::Delete, _) => Some(Seq::empty()),
                (_, Some(a)) => if valid_utf8(a) {
                    Some(a)
                } else {
                    Some(Seq::empty())
                },
                (_, None) => Some(h),
            },
        },
    }
}

/// Whether changes can be laid over a column of a type.
pub open spec fn takes_overlay(dtype: ColumnType) -> bool {
    match dtype {
        ColumnType::Int8 | ColumnType::Int16 | ColumnType::Int32 | ColumnType::Int64
        | ColumnType::UInt8 | ColumnType::UInt16 | ColumnType::UInt32 | ColumnType::UInt64
        | ColumnType::Float32 | ColumnType::Float64 | ColumnType::Boolean | ColumnType::Utf8
        | ColumnType::LargeUtf8 => true,
        _ => false,
    }
}

/// A column under changes by row.
pub open spec fn overlay(c: ColumnView, deltas: Map<u64, CellDelta>) -> ColumnView {
    ColumnView {
        dtype: c.dtype,
        cells: Seq::new(
            c.cells.len(),
            |i: int|
                if deltas.dom().contains(i as u64) {
                    overlaid(c.dtype, c.cells[i], deltas[i as u64]@)
                } else {
                    c.cells[i]
                },
        ),
    }
}

/// A column with changes laid over it.
pub fn apply_deltas_overlay(
    deltas: &OrdMap<u64, CellDelta>,
    original: &Column,
    _col_name: &str,
) -> (r: Result<
    Column,
    RockDuckError,
>)
    requires
        deltas.wf(),
        original.wf(),
    ensures
        match r {
            Ok(c) => c.wf() && c@ == overlay(original@, deltas@) && (takes_overlay(original@.dtype)
                || deltas@.dom() =~= Set::<u64>::empty()),
            Err(e) => !takes_overlay(original@.dtype) && !(deltas@.dom() =~= Set::<u64>::empty())
                && e == RockDuckError::Query,
        },
{
    let none = deltas.is_empty();
    proof {
        deltas.lemma_dom();
        if !none {
            deltas.lemma_index(0);
        }
    }
    let takes = match original.dtype {
        ColumnType::Int8 | ColumnType::Int16 | ColumnType::Int32 | ColumnType::Int64
        | ColumnType::UInt8 | ColumnType::UInt16 | ColumnType::UInt32 | ColumnType::UInt64
        | ColumnType::Float32 | ColumnType::Float64 | ColumnType::Boolean | ColumnType::Utf8
        | ColumnType::LargeUtf8 => true,
        _ => false,
    };
    if none {
        let r = original.copy();
        assert(r@.cells =~= overlay(original@, deltas@).cells);
        return Ok(r);
    }
    if !takes {
        return Err(RockDuckError::Query);
    }
    let ghost c = original@;
    let mut cells: Vec<Option<Vec<u8>>> = Vec::new();
    let mut i: usize = 0;
    while i < original.cells.len()
        invariant
            deltas.wf(),
            original.wf(),
            takes_overlay(original.dtype),
            c == original@,
            i <= original.cells@.len() == c.cells.len(),
            cells@.len() == i,
            forall|k: int|
                #![trigger cells@[k]]
                0 <= k < i ==> cell_view(cells@[k]) == overlay(c, deltas@).cells[k],
            forall|k: int|
                #![trigger cells@[k]]
                0 <= k < i ==> match cell_view(cells@[k]) {
                    Some(b) => fits(c.dtype, b),
                    None => true,
                },
        decreases original.cells@.len() - i,
    {
        assert(c.cells[i as int] == cell_view(original.cells@[i as int]));
        let row: u64 = i as u64;
        let cell = match deltas.get(&row) {
            Some(d) => overlay_cell(original.dtype, &original.cells[i], d),
            None => copy_cell(&original.cells[i]),
        };
        cells.push(cell);
        i = i + 1;
    }
    let r = Column { dtype: original.dtype, cells };
    proof {
        assert(r@.cells =~= overlay(c, deltas@).cells);
        assert forall|k: int| #![trigger r@.cells[k]] 0 <= k < r@.cells.len() implies match r@.cells[k] {
            Some(b) => fits(c.dtype, b),
            None => true,
        } by {
            assert(r@.cells[k] == cell_view(cells@[k]));
        }
    }
    Ok(r)
}

/// One cell under a change.
fn overlay_cell(dtype: ColumnType, held: &Option<Vec<u8>>, d: &CellDelta) -> (r: Option<Vec<u8>>)
    requires
        takes_overlay(dtype),
        held matches Some(h) ==> fits(dtype, h@),
    ensures
        cell_view(r) == overlaid(dtype, cell_view(*held), d@),
        r matches Some(b) ==> fits(dtype, b@),
{
    let gone = d.op == DeltaOpType::Delete;
    let width: usize = match dtype.kind() {
        CellKind::Signed { width } => width,
        CellKind::Unsigned { width } => width,
        CellKind::Float { width } => width,
        CellKind::Truth => return overlay_truth(held, d),
        _ => return overlay_text(dtype, held, d),
    };
    if gone {
        return None;
    }
    match (held, &d.after) {
        (Some(h), Some(a)) => if a.len() >= width {
            assert(a@.subrange(0, width as int) =~= a@.take(width as int));
            Some(bytes_range(a.as_slice(), 0, width))
        } else {
            Some(bytes_copy(h.as_slice()))
        },
        _ => copy_cell(held),
    }
}

fn overlay_truth(held: &Option<Vec<u8>>, d: &CellDelta) -> (r: Option<Vec<u8>>)
    requires
        held matches Some(h) ==> fits(ColumnType::Boolean, h@),
    ensures
        cell_view(r) == overlaid(ColumnType::Boolean, cell_view(*held), d@),
        r matches Some(b) ==> fits(ColumnType::Boolean, b@),
{
    match held {
        None => None,
        Some(h) => {
            let truth: u8 = if d.op == DeltaOpType::Delete {
                0
            } else {
                match &d.after {
                    Some(a) => if a.len() > 0 && a[0] != 0 {
                        1
                    } else {
                        0
                    },
                    None => return Some(bytes_copy(h.as_slice())),
                }
            };
            let mut r: Vec<u8> = Vec::new();
            r.push(truth);
            assert(r@ =~= seq![truth]);
            Some(r)
        },
    }
}

fn overlay_text(dtype: ColumnType, held: &Option<Vec<u8>>, d: &CellDelta) -> (r: Option<Vec<u8>>)
    requires
        dtype == ColumnType::Utf8 || dtype == ColumnType::LargeUtf8,
        held matches Some(h) ==> fits(dtype, h@),
    ensures
        cell_view(r) == overlaid(dtype, cell_view(*held), d@),
        r matches Some(b) ==> fits(dtype, b@),
{
    let none: Vec<u8> = Vec::new();
    assert(none@ =~= Seq::empty());
    match held {
        None => None,
        Some(h) => if d.op == DeltaOpType::Delete {
            Some(none)
        } else {
            match &d.after {
                Some(a) => if is_utf8(a.as_slice()) {
                    Some(bytes_copy(a.as_slice()))
                } else {
                    Some(none)
                },
                None => Some(bytes_copy(h.as_slice())),
            }
        },
    }
}

/// Changes touch no row of a column that they do not name.
pub proof fn law_overlay_leaves_other_rows(c: ColumnView, deltas: Map<u64, CellDelta>, row: int)
    requires
        0 <= row < c.cells.len(),
        row <= u64::MAX,
        !deltas.dom().contains(row as u64),
    ensures
        overlay(c, deltas).cells[row] == c.cells[row],
        overlay(c, deltas).cells.len() == c.cells.len(),
        overlay(c, deltas).dtype == c.dtype,
{
}

/// What laying changes over a column gives in a row that is changed. A number that is
/// deleted has no value. One that is updated or inserted has the leading bytes of the new
/// image, as many as its type has, if it had a value and the image is long enough; else it
/// stays. A truth value tells whether the first byte of the image is not zero, and is false
/// when it is deleted; a text is the image, if that is a text, and empty when it is deleted.
pub proof fn law_overlay_shows_the_change(
    deltas: &OrdMap<u64, CellDelta>,
    original: &Column,
    col_name: &str,
    r: Column,
    row: int,
)
    requires
        deltas.wf(),
        original.wf(),
        call_ensures(apply_deltas_overlay, (deltas, original, col_name), Ok(r)),
        0 <= row < original@.cells.len(),
        row <= u64::MAX,
        deltas@.dom().contains(row as u64),
    ensures
        r@.dtype == original@.dtype,
        r@.cells.len() == original@.cells.len(),
        ({
            let d = deltas@[row as u64]@;
            let was = original@.cells[row];
            let now = r@.cells[row];
            let gone = d.op == DeltaOpType::Delete;
            match number_width(original@.dtype) {
                Some(width) => {
                    &&& gone ==> now is None
                    &&& !gone && was is Some && d.after is Some && (d.after->0).len() >= width ==> now is Some
                        && (now->0).len() == width && forall|k: int|
                        0 <= k < width ==> #[trigger] (now->0)[k] == (d.after->0)[k]
                    &&& !gone && (was is None || d.after is None || (d.after->0).len() < width) ==> now
                        == was
                },
                None => if was is None {
                    now is None
                } else if original@.dtype == ColumnType::Boolean {
                    &&& gone ==> now == Some(seq![0u8])
                    &&& !gone && d.after is Some && (d.after->0).len() > 0 && (d.after->0)[0] != 0 ==> now
                        == Some(seq![1u8])
                    &&& !gone && d.after is Some && ((d.after->0).len() == 0 || (d.after->0)[0] == 0) ==> now
                        == Some(seq![0u8])
                    &&& !gone && d.after is None ==> now == was
                } else {
                    &&& original@.dtype == ColumnType::Utf8 || original@.dtype == ColumnType::LargeUtf8
                    &&& gone ==> now == Some(Seq::<u8>::empty())
                    &&& !gone && d.after is Some && valid_utf8(d.after->0) ==> now == d.after
                    &&& !gone && d.after is Some && !valid_utf8(d.after->0) ==> now == Some(
                        Seq::<u8>::empty(),
                    )
                    &&& !gone && d.after is None ==> now == was
                },
            }
        }),
{
    assert(deltas@.dom().contains(row as u64));
    let d = deltas@[row as u64]@;
    assert(r@.cells[row] == overlaid(original@.dtype, original@.cells[row], d));
}

/// Changes are laid over a column by row: where there is none, the cell stays.
pub proof fn law_overlay_is_by_row(
    deltas: &OrdMap<u64, CellDelta>,
    original: &Column,
    col_name: &str,
    r: Column,
    row: int,
)
    requires
        deltas.wf(),
        original.wf(),
        call_ensures(apply_deltas_overlay, (deltas, original, col_name), Ok(r)),
        0 <= row < original@.cells.len(),
        row <= u64::MAX,
        !deltas@.dom().contains(row as u64),
    ensures
        r@.dtype == original@.dtype,
        r@.cells.len() == original@.cells.len(),
        r@.cells[row] == original@.cells[row],
{
}

} // verus!
