//! How often columns are written.
use vstd::prelude::*;
use crate::ordmap::OrdMap;
use crate::ratio::Ratio;
use crate::text::text_copy;

verus! {

/// How often a column was written lately.
#[derive(Debug, Clone, Copy, PartialEq, Eq, Structural)]
pub enum ColumnClass {
    /// Often: keep it in memory longer.
    Hot,
    /// As usual.
    Warm,
    /// Rarely: flush it early.
    Cold,
}

/// How eagerly a column is flushed.
#[derive(Debug, Clone, Copy, PartialEq, Eq, Structural)]
pub enum FlushPolicy {
    Normal,
    /// Wait for more bytes.
    Hot,
    /// Do not wait long.
    Cold,
}

/// The last transactions that wrote each column.
#[derive(Debug)]
pub struct ColumnHeatTracker {
    records: OrdMap<String, Vec<u64>>,
    window: u32,
    hot_threshold: Ratio,
    cold_threshold: Ratio,
}

/// How many of the transactions directly follow the one before.
pub open spec fn consecutive(txns: Seq<u64>) -> nat
    decreases txns.len(),
{
    if txns.len() < 2 {
        0
    } else {
        let n = txns.len() as int;
        consecutive(txns.drop_last()) + if txns[n - 1] == txns[n - 2] + 1 {
            1nat
        } else {
            0nat
        }
    }
}

/// The score of a column is the mean of the fraction of directly following
/// transactions and of the filled fraction of the window; both sides of the
/// comparison are multiplied out.
pub open spec fn scores_above(txns: Seq<u64>, window: u32, limit: Ratio) -> bool {
    let n = txns.len() as int;
    (consecutive(txns) * window + n * (n - 1)) * limit.den > 2 * (n - 1) * window * limit.num
}

/// The score is below a limit.
pub open spec fn scores_below(txns: Seq<u64>, window: u32, limit: Ratio) -> bool {
    let n = txns.len() as int;
    (consecutive(txns) * window + n * (n - 1)) * limit.den < 2 * (n - 1) * window * limit.num
}

/// The class of a column by its last transactions; warm below three of them.
pub open spec fn class_of(txns: Seq<u64>, window: u32, hot: Ratio, cold: Ratio) -> ColumnClass {
    if txns.len() < 3 {
        ColumnClass::Warm
    } else if scores_above(txns, window, hot) {
        ColumnClass::Hot
    } else if scores_below(txns, window, cold) {
        ColumnClass::Cold
    } else {
        ColumnClass::Warm
    }
}

/// The flush policy of a class.
pub open spec fn policy_of(class: ColumnClass) -> FlushPolicy {
    match class {
        ColumnClass::Hot => FlushPolicy::Hot,
        ColumnClass::Cold => FlushPolicy::Cold,
        ColumnClass::Warm => FlushPolicy::Normal,
    }
}

/// The last `window` transactions with one more.
pub open spec fn windowed(txns: Seq<u64>, txn: u64, window: u32) -> Seq<u64> {
    let all = txns.push(txn);
    if all.len() > window {
        all.drop_first()
    } else {
        all
    }
}

impl Default for ColumnHeatTracker {
    fn default() -> (r: Self)
        ensures
            r.wf(),
            r.txns() == Map::<Seq<char>, Seq<u64>>::empty(),
            r.window() == 256,
            r.hot_threshold() == (Ratio { num: 7, den: 10 }),
            r.cold_threshold() == (Ratio { num: 1, den: 10 }),
    {
        Self::new(256, Ratio { num: 7, den: 10 }, Ratio { num: 1, den: 10 })
    }
}

impl ColumnHeatTracker {
    /// The last transactions of each column, the newest last.
    pub closed spec fn txns(&self) -> Map<Seq<char>, Seq<u64>> {
        self.records@.map_values(|v: Vec<u64>| v@)
    }

    pub closed spec fn window(&self) -> u32 {
        self.window
    }

    pub closed spec fn hot_threshold(&self) -> Ratio {
        self.hot_threshold
    }

    pub closed spec fn cold_threshold(&self) -> Ratio {
        self.cold_threshold
    }

    /// No column has more transactions than the window.
    pub closed spec fn wf(&self) -> bool {
        &&& self.records.wf()
        &&& self.hot_threshold.den > 0
        &&& self.cold_threshold.den > 0
        &&& forall|c: Seq<char>| #[trigger]
            self.records@.dom().contains(c) ==> self.records@[c]@.len() <= self.window
    }

    pub fn new(window: u32, hot_threshold: Ratio, cold_threshold: Ratio) -> (r: Self)
        requires
            hot_threshold.den > 0,
            cold_threshold.den > 0,
        ensures
            r.wf(),
            r.txns() == Map::<Seq<char>, Seq<u64>>::empty(),
            r.window() == window,
            r.hot_threshold() == hot_threshold,
            r.cold_threshold() == cold_threshold,
    {
        let r = ColumnHeatTracker { records: OrdMap::new(), window, hot_threshold, cold_threshold };
        assert(r.txns() =~= Map::empty());
        r
    }

    /// Notes that a transaction wrote a column.
    pub fn record_write(&mut self, column: &str, txn_id: u64)
        requires
            old(self).wf(),
        ensures
            final(self).wf(),
            final(self).window() == old(self).window(),
            final(self).hot_threshold() == old(self).hot_threshold(),
            final(self).cold_threshold() == old(self).cold_threshold(),
            final(self).txns() == old(self).txns().insert(
                column@,
                windowed(
                    if old(self).txns().dom().contains(column@) {
                        old(self).txns()[column@]
                    } else {
                        Seq::empty()
                    },
                    txn_id,
                    old(self).window(),
                ),
            ),
    {
        let key = text_copy(column);
        let ghost before = self.txns();
        let mut list: Vec<u64> = match self.records.remove(&key) {
            Some(v) => v,
            None => Vec::new(),
        };
        let ghost start = list@;
        assert(start =~= if before.dom().contains(column@) {
            before[column@]
        } else {
            Seq::empty()
        });
        list.push(txn_id);
        if list.len() > self.window as usize {
            let _ = list.remove(0);
            assert(list@ =~= start.push(txn_id).drop_first());
        }
        let ghost end = list@;
        let _ = self.records.insert(key, list);
        assert(self.txns() =~= before.insert(column@, end));
    }

    /// How often a column was written lately.
    pub fn classify(&self, column: &str) -> (r: ColumnClass)
        requires
            self.wf(),
        ensures
            r == if self.txns().dom().contains(column@) {
                class_of(
                    self.txns()[column@],
                    self.window(),
                    self.hot_threshold(),
                    self.cold_threshold(),
                )
            } else {
                ColumnClass::Warm
            },
    {
        let key = text_copy(column);
        let list = match self.records.get(&key) {
            Some(v) => v,
            None => return ColumnClass::Warm,
        };
        let n: usize = list.len();
        if n < 3 {
            return ColumnClass::Warm;
        }
        let mut gaps: u64 = 0;
        let mut i: usize = 1;
        let ghost txns = list@;
        assert(txns.take(1).len() < 2);
        while i < n
            invariant
                1 <= i <= n == list@.len(),
                txns == list@,
                gaps == consecutive(txns.take(i as int)),
                gaps < i,
            decreases n - i,
        {
            assert(txns.take(i + 1).drop_last() =~= txns.take(i as int));
            if list[i - 1] < 0xffff_ffff_ffff_ffff && list[i] == list[i - 1] + 1 {
                gaps = gaps + 1;
            }
            i = i + 1;
        }
        assert(txns.take(i as int) =~= txns);
        let window: u128 = self.window as u128;
        let count: u128 = n as u128;
        let c: u128 = gaps as u128;
        proof {
            lemma_score_fits(c as int, window as int, count as int);
        }
        let total: u128 = c * window + count * (count - 1);
        let half: u128 = (count - 1) * window;
        proof {
            assert(2 * (count - 1) * window == 2 * half) by (nonlinear_arith)
                requires
                    half == (count - 1) * window,
            ;
        }
        if side(total, half, self.hot_threshold) == Side::Above {
            ColumnClass::Hot
        } else if side(total, half, self.cold_threshold) == Side::Below {
            ColumnClass::Cold
        } else {
            ColumnClass::Warm
        }
    }

    /// How eagerly a column is flushed.
    pub fn flush_priority(&self, column: &str) -> (r: FlushPolicy)
        requires
            self.wf(),
        ensures
            r == policy_of(
                if self.txns().dom().contains(column@) {
                    class_of(
                        self.txns()[column@],
                        self.window(),
                        self.hot_threshold(),
                        self.cold_threshold(),
                    )
                } else {
                    ColumnClass::Warm
                },
            ),
    {
        match self.classify(column) {
            ColumnClass::Hot => FlushPolicy::Hot,
            ColumnClass::Cold => FlushPolicy::Cold,
            ColumnClass::Warm => FlushPolicy::Normal,
        }
    }

    /// How many columns were written.
    pub fn num_tracked_columns(&self) -> (n: usize)
        requires
            self.wf(),
        ensures
            n == self.txns().dom().len(),
    {
        proof {
            self.records.lemma_dom();
            assert(self.txns().dom() =~= self.records@.dom());
        }
        self.records.len()
    }
}

/// On which side of a limit a fraction lies.
#[derive(Debug, Clone, Copy, PartialEq, Eq, Structural)]
enum Side {
    Above,
    At,
    Below,
}

/// On which side of a limit `total / (2 * half)` lies, without a product that does not fit.
fn side(total: u128, half: u128, limit: Ratio) -> (r: Side)
    requires
        total < 0x2_0000_0000_0000_0000,
        half < 0x1_0000_0000_0000_0000,
    ensures
        (r == Side::Above) == (total * limit.den > (2 * half) * limit.num),
        (r == Side::Below) == (total * limit.den < (2 * half) * limit.num),
{
    let q: u128 = total / 2;
    let odd: u128 = total % 2;
    let den: u128 = limit.den as u128;
    let num: u128 = limit.num as u128;
    proof {
        lemma_product_fits(q as int, den as int);
        lemma_product_fits(half as int, num as int);
        lemma_halves(total as int, q as int, odd as int, half as int, den as int, num as int);
    }
    let a: u128 = q * den;
    let b: u128 = half * num;
    if odd == 0 {
        if a > b {
            Side::Above
        } else if a < b {
            Side::Below
        } else {
            Side::At
        }
    } else if a > b || (a == b && den > 0) {
        Side::Above
    } else if a == b {
        Side::At
    } else {
        let gap: u128 = b - a;
        if gap >= den {
            Side::Below
        } else if 2 * gap < den {
            Side::Above
        } else if 2 * gap > den {
            Side::Below
        } else {
            Side::At
        }
    }
}

proof fn lemma_product_fits(x: int, y: int)
    requires
        0 <= x < 0x1_0000_0000_0000_0000,
        0 <= y < 0x1_0000_0000_0000_0000,
    ensures
        0 <= x * y <= u128::MAX,
{
    assert(0 <= x * y <= 0xffff_ffff_ffff_ffff * 0xffff_ffff_ffff_ffff) by (nonlinear_arith)
        requires
            0 <= x <= 0xffff_ffff_ffff_ffff,
            0 <= y <= 0xffff_ffff_ffff_ffff,
    ;
}

proof fn lemma_halves(total: int, q: int, odd: int, half: int, den: int, num: int)
    requires
        total == 2 * q + odd,
        odd == 0 || odd == 1,
    ensures
        total * den == 2 * (q * den) + if odd == 1 {
            den
        } else {
            0
        },
        (2 * half) * num == 2 * (half * num),
{
    assert((2 * q + odd) * den == 2 * (q * den) + odd * den) by (nonlinear_arith);
    assert((2 * half) * num == 2 * (half * num)) by (nonlinear_arith);
    assert(odd == 1 ==> odd * den == den) by (nonlinear_arith);
    assert(odd == 0 ==> odd * den == 0) by (nonlinear_arith);
}

proof fn lemma_score_fits(c: int, w: int, n: int)
    requires
        0 <= c < n <= w <= u32::MAX,
        3 <= n,
    ensures
        0 <= c * w <= 0xffff_fffe * 0xffff_ffff,
        0 <= n * (n - 1) <= 0xffff_ffff * 0xffff_fffe,
        0 <= (n - 1) * w <= 0xffff_fffe * 0xffff_ffff,
{
    assert(0 <= c * w <= 0xffff_fffe * 0xffff_ffff) by (nonlinear_arith)
        requires
            0 <= c <= 0xffff_fffe,
            0 <= w <= 0xffff_ffff,
    ;
    assert(0 <= n * (n - 1) <= 0xffff_ffff * 0xffff_fffe) by (nonlinear_arith)
        requires
            3 <= n <= 0xffff_ffff,
    ;
    assert(0 <= (n - 1) * w <= 0xffff_fffe * 0xffff_ffff) by (nonlinear_arith)
        requires
            3 <= n <= 0xffff_ffff,
            0 <= w <= 0xffff_ffff,
    ;
}

} // verus!
