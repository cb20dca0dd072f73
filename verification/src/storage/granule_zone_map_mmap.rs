//! Zone maps of the granules of a column: for each granule the least and the
//! greatest value, cut to a fixed size, so that a scan can skip it.
use vstd::prelude::*;
use vstd::array::array_as_slice;
use vstd::slice::slice_subrange;
use crate::codec::{bytes_before, bytes_less, lemma_bytes_irreflexive, lemma_bytes_total, lemma_bytes_transitive};
use crate::error::RockDuckError;
use crate::segment::meta::GranuleId;
use crate::text::text_copy;

verus! {

/// The bytes that are kept of a value.
pub const MAX_INLINE_BYTES: usize = 32;

/// Rows per granule in a zone map that does not say.
pub const DEFAULT_BLOCK_SIZE: u32 = 8192;

/// A few bytes, in place.
#[derive(Debug, Clone, Copy)]
pub struct InlineBytes {
    pub len: u8,
    pub data: [u8; 32],
}

impl View for InlineBytes {
    type V = Seq<u8>;

    open spec fn view(&self) -> Seq<u8> {
        self.data@.take(self.len as int)
    }
}

/// As much of some bytes as is kept.
pub open spec fn cut(bytes: Seq<u8>) -> Seq<u8> {
    if bytes.len() <= MAX_INLINE_BYTES {
        bytes
    } else {
        bytes.take(MAX_INLINE_BYTES as int)
    }
}

impl InlineBytes {
    pub open spec fn wf(&self) -> bool {
        self.len <= MAX_INLINE_BYTES
    }

    /// No bytes.
    pub fn new() -> (r: Self)
        ensures
            r.wf(),
            r@ == Seq::<u8>::empty(),
    {
        let r = InlineBytes { len: 0, data: [0u8; 32] };
        assert(r@ =~= Seq::<u8>::empty());
        r
    }

    /// The first bytes of a slice.
    pub fn from_slice(slice: &[u8]) -> (r: Self)
        ensures
            r.wf(),
            r@ == cut(slice@),
    {
        let n: usize = if slice.len() < MAX_INLINE_BYTES {
            slice.len()
        } else {
            MAX_INLINE_BYTES
        };
        let mut data: [u8; 32] = [0u8; 32];
        let mut i: usize = 0;
        while i < n
            invariant
                i <= n <= 32,
                n <= slice@.len(),
                data@.len() == 32,
                forall|k: int| #![trigger data@[k]] 0 <= k < i ==> data@[k] == slice@[k],
            decreases n - i,
        {
            data[i] = slice[i];
            i = i + 1;
        }
        let r = InlineBytes { len: n as u8, data };
        assert(r@ =~= cut(slice@));
        r
    }

    /// The bytes.
    pub fn as_slice(&self) -> (r: &[u8])
        requires
            self.wf(),
        ensures
            r@ == self@,
    {
        let all = array_as_slice(&self.data);
        let r = slice_subrange(all, 0, self.len as usize);
        assert(r@ =~= self@);
        r
    }

    pub fn is_empty(&self) -> (r: bool)
        ensures
            r == (self.len == 0),
    {
        self.len == 0
    }

    /// How many bytes there are.
    pub fn len(&self) -> (r: usize)
        ensures
            r == self.len,
            self.wf() ==> r == self@.len(),
    {
        self.len as usize
    }
}

impl Default for InlineBytes {
    fn default() -> (r: Self)
        ensures
            r.wf(),
            r@ == Seq::<u8>::empty(),
    {
        Self::new()
    }
}

/// Statistics of a granule.
#[derive(Debug, Clone, Copy)]
pub struct InlineGranuleStats {
    pub granule_id: GranuleId,
    pub block_size: u32,
    pub row_count: u32,
    pub null_count: u64,
    pub min_value: InlineBytes,
    pub max_value: InlineBytes,
    pub has_min: bool,
    pub has_max: bool,
}

/// What the statistics of a granule say.
#[verifier::ext_equal]
pub struct GranuleView {
    pub granule_id: u32,
    pub block_size: u32,
    pub row_count: u32,
    pub null_count: u64,
    pub min: Option<Seq<u8>>,
    pub max: Option<Seq<u8>>,
}

impl View for InlineGranuleStats {
    type V = GranuleView;

    open spec fn view(&self) -> GranuleView {
        GranuleView {
            granule_id: self.granule_id.0,
            block_size: self.block_size,
            row_count: self.row_count,
            null_count: self.null_count,
            min: if self.has_min {
                Some(self.min_value@)
            } else {
                None
            },
            max: if self.has_max {
                Some(self.max_value@)
            } else {
                None
            },
        }
    }
}

/// The least value after one more, which is compared whole and kept cut.
pub open spec fn min_with(min: Option<Seq<u8>>, value: Seq<u8>) -> Option<Seq<u8>> {
    match min {
        Some(m) => if bytes_before(value, m) {
            Some(cut(value))
        } else {
            min
        },
        None => Some(cut(value)),
    }
}

/// The greatest value after one more, which is compared whole and kept cut.
pub open spec fn max_with(max: Option<Seq<u8>>, value: Seq<u8>) -> Option<Seq<u8>> {
    match max {
        Some(m) => if bytes_before(m, value) {
            Some(cut(value))
        } else {
            max
        },
        None => Some(cut(value)),
    }
}

impl InlineGranuleStats {
    pub open spec fn wf(&self) -> bool {
        self.min_value.wf() && self.max_value.wf()
    }

    /// A granule of which nothing is known.
    pub fn new(granule_id: GranuleId, block_size: u32) -> (r: Self)
        ensures
            r.wf(),
            r@ == (GranuleView {
                granule_id: granule_id.0,
                block_size,
                row_count: 0,
                null_count: 0,
                min: None,
                max: None,
            }),
    {
        InlineGranuleStats {
            granule_id,
            block_size,
            row_count: 0,
            null_count: 0,
            min_value: InlineBytes::new(),
            max_value: InlineBytes::new(),
            has_min: false,
            has_max: false,
        }
    }

    /// Takes a value into the least one.
    pub fn update_min(&mut self, value: &[u8])
        requires
            old(self).wf(),
        ensures
            final(self).wf(),
            final(self)@ == (GranuleView {
                min: min_with(old(self)@.min, value@),
                ..old(self)@
            }),
    {
        if !self.has_min || bytes_less(value, self.min_value.as_slice()) {
            self.min_value = InlineBytes::from_slice(value);
            self.has_min = true;
        }
    }

    /// Takes a value into the greatest one.
    pub fn update_max(&mut self, value: &[u8])
        requires
            old(self).wf(),
        ensures
            final(self).wf(),
            final(self)@ == (GranuleView {
                max: max_with(old(self)@.max, value@),
                ..old(self)@
            }),
    {
        if !self.has_max || bytes_less(self.max_value.as_slice(), value) {
            self.max_value = InlineBytes::from_slice(value);
            self.has_max = true;
        }
    }

    /// Counts rows without a value.
    pub fn update_null_count(&mut self, count: u64)
        requires
            old(self)@.null_count + count <= u64::MAX,
        ensures
            old(self).wf() ==> final(self).wf(),
            final(self)@ == (GranuleView {
                null_count: (old(self)@.null_count + count) as u64,
                ..old(self)@
            }),
    {
        self.null_count = self.null_count + count;
    }

    /// The least value.
    pub fn min_value(&self) -> (r: Option<&[u8]>)
        requires
            self.wf(),
        ensures
            match r {
                Some(v) => self@.min == Some(v@),
                None => self@.min is None,
            },
    {
        if self.has_min {
            Some(self.min_value.as_slice())
        } else {
            None
        }
    }

    /// The greatest value.
    pub fn max_value(&self) -> (r: Option<&[u8]>)
        requires
            self.wf(),
        ensures
            match r {
                Some(v) => self@.max == Some(v@),
                None => self@.max is None,
            },
    {
        if self.has_max {
            Some(self.max_value.as_slice())
        } else {
            None
        }
    }
}

/// Whether a granule may hold a value of a range: unless its greatest value lies
/// below the range or its least one above. An empty value bounds nothing.
pub open spec fn overlaps(g: GranuleView, lo: Seq<u8>, hi: Seq<u8>) -> bool {
    &&& !(g.max matches Some(m) && m.len() > 0 && bytes_before(m, lo))
    &&& !(g.min matches Some(m) && m.len() > 0 && bytes_before(hi, m))
}

/// The zone map of a column.
#[derive(Debug)]
pub struct GranuleZoneMapData {
    pub column_name: String,
    pub num_granules: u32,
    pub block_size: u32,
    pub granules: Vec<InlineGranuleStats>,
}

/// What the zone map of a column says.
#[verifier::ext_equal]
pub struct ZoneMapView {
    pub column_name: Seq<char>,
    pub num_granules: u32,
    pub block_size: u32,
    pub granules: Seq<GranuleView>,
}

/// What the statistics of some granules say.
pub open spec fn granule_views(list: Seq<InlineGranuleStats>) -> Seq<GranuleView> {
    list.map_values(|g: InlineGranuleStats| g@)
}

impl View for GranuleZoneMapData {
    type V = ZoneMapView;

    open spec fn view(&self) -> ZoneMapView {
        ZoneMapView {
            column_name: self.column_name@,
            num_granules: self.num_granules,
            block_size: self.block_size,
            granules: granule_views(self.granules@),
        }
    }
}

/// How many rows some granules have.
pub open spec fn rows_of(list: Seq<GranuleView>) -> nat
    decreases list.len(),
{
    if list.len() == 0 {
        0
    } else {
        rows_of(list.drop_last()) + list.last().row_count as nat
    }
}

/// Whether some granule may hold a value of a range.
pub open spec fn any_overlaps(list: Seq<GranuleView>, lo: Seq<u8>, hi: Seq<u8>) -> bool {
    exists|i: int| #![trigger list[i]] 0 <= i < list.len() && overlaps(list[i], lo, hi)
}

fn may_hold(g: &InlineGranuleStats, pred_min: &[u8], pred_max: &[u8]) -> (r: bool)
    requires
        g.wf(),
    ensures
        r == overlaps(g@, pred_min@, pred_max@),
{
    if g.has_max {
        let gmax = g.max_value.as_slice();
        if gmax.len() > 0 && bytes_less(gmax, pred_min) {
            return false;
        }
    }
    if g.has_min {
        let gmin = g.min_value.as_slice();
        if gmin.len() > 0 && bytes_less(pred_max, gmin) {
            return false;
        }
    }
    true
}

proof fn lemma_rows_grow(list: Seq<GranuleView>, n: int)
    requires
        0 <= n <= list.len(),
    ensures
        rows_of(list.take(n)) <= rows_of(list),
    decreases list.len() - n,
{
    if n < list.len() {
        lemma_rows_grow(list, n + 1);
        assert(list.take(n + 1).drop_last() =~= list.take(n));
    } else {
        assert(list.take(n) =~= list);
    }
}

impl GranuleZoneMapData {
    pub open spec fn wf(&self) -> bool {
        forall|i: int|
            #![trigger self.granules@[i]]
            0 <= i < self.granules@.len() ==> self.granules@[i].wf()
    }

    /// How many rows the granules have.
    pub fn total_rows(&self) -> (r: u64)
        requires
            rows_of(self@.granules) <= u64::MAX,
        ensures
            r == rows_of(self@.granules),
    {
        let mut total: u64 = 0;
        let mut i: usize = 0;
        let ghost list = self@.granules;
        assert(list.take(0) =~= Seq::<GranuleView>::empty());
        while i < self.granules.len()
            invariant
                list == self@.granules,
                rows_of(list) <= u64::MAX,
                i <= self.granules@.len(),
                total == rows_of(list.take(i as int)),
            decreases self.granules@.len() - i,
        {
            proof {
                lemma_rows_grow(list, i + 1);
                assert(list.take(i + 1).drop_last() =~= list.take(i as int));
                assert(list[i as int] == self.granules@[i as int]@);
            }
            total = total + self.granules[i].row_count as u64;
            i = i + 1;
        }
        assert(list.take(i as int) =~= list);
        total
    }

    /// How many granules there are.
    pub fn num_granules(&self) -> (r: usize)
        ensures
            r == self@.granules.len(),
    {
        self.granules.len()
    }

    /// Whether some granule may hold a value between two bounds.
    pub fn may_overlap(&self, pred_min: &[u8], pred_max: &[u8]) -> (r: bool)
        requires
            self.wf(),
        ensures
            r == any_overlaps(self@.granules, pred_min@, pred_max@),
    {
        let mut i: usize = 0;
        while i < self.granules.len()
            invariant
                self.wf(),
                i <= self.granules@.len(),
                forall|k: int|
                    #![trigger self@.granules[k]]
                    0 <= k < i ==> !overlaps(self@.granules[k], pred_min@, pred_max@),
            decreases self.granules@.len() - i,
        {
            assert(self@.granules[i as int] == self.granules@[i as int]@);
            if may_hold(&self.granules[i], pred_min, pred_max) {
                return true;
            }
            i = i + 1;
        }
        false
    }

    /// Whether a granule may hold a value between two bounds; one that is not
    /// known may.
    pub fn granule_may_overlap(&self, granule_idx: usize, pred_min: &[u8], pred_max: &[u8]) -> (r:
        bool)
        requires
            self.wf(),
        ensures
            r == (granule_idx >= self@.granules.len() || overlaps(
                self@.granules[granule_idx as int],
                pred_min@,
                pred_max@,
            )),
    {
        if granule_idx >= self.granules.len() {
            return true;
        }
        may_hold(&self.granules[granule_idx], pred_min, pred_max)
    }
}

/// The statistics of a granule as stored: its number, the rows per block, the
/// rows, the missing values, the two values with their lengths, and whether they
/// are there.
pub type StoredGranule = (u32, u32, u32, u64, (u8, [u8; 32]), (u8, [u8; 32]), bool, bool);

/// The zone map of a column as stored: its name, the number of granules, the rows
/// per block and the granules.
pub type StoredZoneMap = (String, u32, u32, Vec<StoredGranule>);

/// What a stored granule is.
pub open spec fn stored_view(s: StoredGranule) -> (
    u32,
    u32,
    u32,
    u64,
    (u8, Seq<u8>),
    (u8, Seq<u8>),
    bool,
    bool,
) {
    (s.0, s.1, s.2, s.3, ((s.4).0, (s.4).1@), ((s.5).0, (s.5).1@), s.6, s.7)
}

/// What some stored granules are.
pub open spec fn stored_views(list: Seq<StoredGranule>) -> Seq<
    (u32, u32, u32, u64, (u8, Seq<u8>), (u8, Seq<u8>), bool, bool),
> {
    list.map_values(|s: StoredGranule| stored_view(s))
}

/// The zone map that `postcard` reads from bytes, if it reads one.
pub uninterp spec fn postcard_zone_map(bytes: Seq<u8>) -> Option<
    (Seq<char>, u32, u32, Seq<(u32, u32, u32, u64, (u8, Seq<u8>), (u8, Seq<u8>), bool, bool)>),
>;

/// `postcard::to_stdvec` on a zone map: bytes from which the same zone map is
/// read back. Writing to memory does not fail.
#[verifier::external_body]
fn write_zone_map(map: &StoredZoneMap) -> (r: Result<Vec<u8>, postcard::Error>)
    ensures
        r is Ok,
        r matches Ok(bytes) ==> postcard_zone_map(bytes@) == Some(
            (map.0@, map.1, map.2, stored_views(map.3@)),
        ),
{
    postcard::to_stdvec(map)
}

/// `postcard::from_bytes` for a zone map.
#[verifier::external_body]
fn read_zone_map(bytes: &[u8]) -> (r: Result<StoredZoneMap, postcard::Error>)
    ensures
        match r {
            Ok(map) => postcard_zone_map(bytes@) == Some(
                (map.0@, map.1, map.2, stored_views(map.3@)),
            ),
            Err(_) => postcard_zone_map(bytes@) is None,
        },
{
    postcard::from_bytes(bytes)
}

/// What a stored granule says, if its two values are not longer than what is kept.
pub open spec fn unstored(
    s: (u32, u32, u32, u64, (u8, Seq<u8>), (u8, Seq<u8>), bool, bool),
) -> Option<GranuleView> {
    let (id, block, rows, nulls, min, max, has_min, has_max) = s;
    let (min_len, min_data) = min;
    let (max_len, max_data) = max;
    if min_len <= MAX_INLINE_BYTES && max_len <= MAX_INLINE_BYTES {
        Some(
            GranuleView {
                granule_id: id,
                block_size: block,
                row_count: rows,
                null_count: nulls,
                min: if has_min {
                    Some(min_data.take(min_len as int))
                } else {
                    None
                },
                max: if has_max {
                    Some(max_data.take(max_len as int))
                } else {
                    None
                },
            },
        )
    } else {
        None
    }
}

/// The zone map that is stored in bytes, if there is one.
pub open spec fn loaded_zone_map(bytes: Seq<u8>) -> Option<ZoneMapView> {
    match postcard_zone_map(bytes) {
        Some((name, count, block, list)) => if forall|i: int|
            #![trigger list[i]]
            0 <= i < list.len() ==> unstored(list[i]) is Some {
            Some(
                ZoneMapView {
                    column_name: name,
                    num_granules: count,
                    block_size: block,
                    granules: Seq::new(list.len(), |i: int| unstored(list[i])->0),
                },
            )
        } else {
            None
        },
        None => None,
    }
}

/// The zone map of a column, as read from its file.
#[derive(Debug)]
pub struct MmappedZoneMap {
    pub data: GranuleZoneMapData,
}

impl MmappedZoneMap {
    pub open spec fn wf(&self) -> bool {
        self.data.wf()
    }

    /// Reads a zone map from the bytes of its file.
    pub fn from_payload(payload: &[u8]) -> (r: Result<Self, RockDuckError>)
        ensures
            match r {
                Ok(map) => map.wf() && loaded_zone_map(payload@) == Some(map.data@),
                Err(e) => loaded_zone_map(payload@) is None && e == RockDuckError::Codec,
            },
    {
        let (column_name, num_granules, block_size, list) = match read_zone_map(payload) {
            Ok(map) => map,
            Err(_) => {
                return Err(RockDuckError::Codec);
            },
        };
        let mut granules: Vec<InlineGranuleStats> = Vec::new();
        let mut i: usize = 0;
        let ghost stored = stored_views(list@);
        while i < list.len()
            invariant
                stored == stored_views(list@),
                postcard_zone_map(payload@) == Some((column_name@, num_granules, block_size, stored)),
                i <= list@.len(),
                granules@.len() == i,
                forall|k: int|
                    #![trigger stored[k]]
                    0 <= k < i ==> unstored(stored[k]) == Some(granules@[k]@),
                forall|k: int| #![trigger granules@[k]] 0 <= k < i ==> granules@[k].wf(),
            decreases list@.len() - i,
        {
            let s = list[i];
            assert(stored[i as int] == stored_view(s));
            if (s.4).0 as usize > MAX_INLINE_BYTES || (s.5).0 as usize > MAX_INLINE_BYTES {
                assert(unstored(stored[i as int]) is None);
                return Err(RockDuckError::Codec);
            }
            let g = InlineGranuleStats {
                granule_id: GranuleId(s.0),
                block_size: s.1,
                row_count: s.2,
                null_count: s.3,
                min_value: InlineBytes { len: (s.4).0, data: (s.4).1 },
                max_value: InlineBytes { len: (s.5).0, data: (s.5).1 },
                has_min: s.6,
                has_max: s.7,
            };
            granules.push(g);
            i = i + 1;
        }
        let data = GranuleZoneMapData { column_name, num_granules, block_size, granules };
        proof {
            assert forall|k: int| #![trigger stored[k]] 0 <= k < stored.len() implies unstored(
                stored[k],
            ) is Some by {}
            assert(data@.granules =~= Seq::new(stored.len(), |k: int| unstored(stored[k])->0));
        }
        Ok(MmappedZoneMap { data })
    }

    /// Whether some granule may hold a value between two bounds.
    pub fn may_overlap(&self, pred_min: &[u8], pred_max: &[u8]) -> (r: bool)
        requires
            self.wf(),
        ensures
            r == any_overlaps(self.data@.granules, pred_min@, pred_max@),
    {
        self.data.may_overlap(pred_min, pred_max)
    }

    /// Whether a granule may hold a value between two bounds.
    pub fn granule_may_overlap(&self, granule_idx: usize, pred_min: &[u8], pred_max: &[u8]) -> (r:
        bool)
        requires
            self.wf(),
        ensures
            r == (granule_idx >= self.data@.granules.len() || overlaps(
                self.data@.granules[granule_idx as int],
                pred_min@,
                pred_max@,
            )),
    {
        self.data.granule_may_overlap(granule_idx, pred_min, pred_max)
    }

    /// How many granules there are.
    pub fn num_granules(&self) -> (r: usize)
        ensures
            r == self.data@.granules.len(),
    {
        self.data.num_granules()
    }

    /// The least value of a granule.
    pub fn granule_min(&self, granule_idx: usize) -> (r: Option<&[u8]>)
        requires
            self.wf(),
        ensures
            match r {
                Some(v) => granule_idx < self.data@.granules.len()
                    && self.data@.granules[granule_idx as int].min == Some(v@),
                None => granule_idx < self.data@.granules.len()
                    ==> self.data@.granules[granule_idx as int].min is None,
            },
    {
        if granule_idx < self.data.granules.len() {
            self.data.granules[granule_idx].min_value()
        } else {
            None
        }
    }

    /// The greatest value of a granule.
    pub fn granule_max(&self, granule_idx: usize) -> (r: Option<&[u8]>)
        requires
            self.wf(),
        ensures
            match r {
                Some(v) => granule_idx < self.data@.granules.len()
                    && self.data@.granules[granule_idx as int].max == Some(v@),
                None => granule_idx < self.data@.granules.len()
                    ==> self.data@.granules[granule_idx as int].max is None,
            },
    {
        if granule_idx < self.data.granules.len() {
            self.data.granules[granule_idx].max_value()
        } else {
            None
        }
    }

    /// How many rows of a granule have no value.
    pub fn granule_null_count(&self, granule_idx: usize) -> (r: u64)
        ensures
            r == if granule_idx < self.data@.granules.len() {
                self.data@.granules[granule_idx as int].null_count
            } else {
                0
            },
    {
        if granule_idx < self.data.granules.len() {
            self.data.granules[granule_idx].null_count
        } else {
            0
        }
    }

    /// How many rows a granule has.
    pub fn granule_row_count(&self, granule_idx: usize) -> (r: u32)
        ensures
            r == if granule_idx < self.data@.granules.len() {
                self.data@.granules[granule_idx as int].row_count
            } else {
                0
            },
    {
        if granule_idx < self.data.granules.len() {
            self.data.granules[granule_idx].row_count
        } else {
            0
        }
    }
}

impl GranuleZoneMapData {
    /// The bytes of the zone map for its file.
    pub fn to_payload(&self) -> (r: Result<Vec<u8>, RockDuckError>)
        requires
            self.wf(),
        ensures
            match r {
                Ok(bytes) => loaded_zone_map(bytes@) == Some(self@),
                Err(_) => false,
            },
    {
        let mut list: Vec<StoredGranule> = Vec::new();
        let mut i: usize = 0;
        while i < self.granules.len()
            invariant
                self.wf(),
                i <= self.granules@.len(),
                list@.len() == i,
                forall|k: int|
                    #![trigger list@[k]]
                    0 <= k < i ==> unstored(stored_view(list@[k])) == Some(self.granules@[k]@),
            decreases self.granules@.len() - i,
        {
            let g = &self.granules[i];
            let s: StoredGranule = (
                g.granule_id.0,
                g.block_size,
                g.row_count,
                g.null_count,
                (g.min_value.len, g.min_value.data),
                (g.max_value.len, g.max_value.data),
                g.has_min,
                g.has_max,
            );
            assert(unstored(stored_view(s)) =~= Some(g@));
            list.push(s);
            i = i + 1;
        }
        let ghost stored = stored_views(list@);
        let map: StoredZoneMap = (self.column_name.clone(), self.num_granules, self.block_size, list);
        match write_zone_map(&map) {
            Ok(bytes) => {
                proof {
                    assert forall|k: int| #![trigger stored[k]] 0 <= k < stored.len() implies unstored(
                        stored[k],
                    ) == Some(self.granules@[k]@) by {
                        assert(stored[k] == stored_view(list@[k]));
                    }
                    assert(Seq::new(stored.len(), |k: int| unstored(stored[k])->0)
                        =~= self@.granules);
                }
                Ok(bytes)
            },
            Err(_) => Err(RockDuckError::Codec),
        }
    }
}

/// Collects the granules of a column.
#[derive(Debug)]
pub struct GranuleZoneMapBuilder {
    pub column_name: String,
    pub block_size: u32,
    pub granules: Vec<InlineGranuleStats>,
}

impl GranuleZoneMapBuilder {
    pub open spec fn wf(&self) -> bool {
        forall|i: int|
            #![trigger self.granules@[i]]
            0 <= i < self.granules@.len() ==> self.granules@[i].wf()
    }

    /// No granules.
    pub fn new(column_name: String, block_size: u32) -> (r: Self)
        ensures
            r.wf(),
            r.column_name == column_name,
            r.block_size == block_size,
            r.granules@.len() == 0,
    {
        GranuleZoneMapBuilder { column_name, block_size, granules: Vec::new() }
    }

    /// Adds the next granule.
    pub fn add_granule(&mut self, stats: InlineGranuleStats)
        requires
            old(self).wf(),
            stats.wf(),
        ensures
            final(self).wf(),
            final(self).column_name == old(self).column_name,
            final(self).block_size == old(self).block_size,
            final(self).granules@ == old(self).granules@.push(stats),
    {
        self.granules.push(stats);
    }

    /// The zone map of the granules.
    pub fn finalize(self) -> (r: GranuleZoneMapData)
        requires
            self.wf(),
        ensures
            r.wf(),
            r@ == (ZoneMapView {
                column_name: self.column_name@,
                num_granules: self.granules@.len() as u32,
                block_size: self.block_size,
                granules: granule_views(self.granules@),
            }),
    {
        let n: usize = self.granules.len();
        GranuleZoneMapData {
            column_name: self.column_name,
            num_granules: n as u32,
            block_size: self.block_size,
            granules: self.granules,
        }
    }
}

/// The range of a column.
#[derive(Debug)]
pub struct ColumnRange {
    pub min_value: Option<Vec<u8>>,
    pub max_value: Option<Vec<u8>>,
    pub null_count: u32,
}

/// The granule that stands for a range.
pub open spec fn range_granule(c: ColumnRange, i: int) -> GranuleView {
    GranuleView {
        granule_id: i as u32,
        block_size: DEFAULT_BLOCK_SIZE,
        row_count: 0,
        null_count: c.null_count as u64,
        min: match c.min_value {
            Some(v) => Some(cut(v@)),
            None => None,
        },
        max: match c.max_value {
            Some(v) => Some(cut(v@)),
            None => None,
        },
    }
}

impl GranuleZoneMapData {
    /// A zone map with a granule for each range, of a column without a name.
    pub fn from_ranges(columns: &Vec<ColumnRange>) -> (r: Self)
        ensures
            r.wf(),
            r@ == (ZoneMapView {
                column_name: "unknown"@,
                num_granules: columns@.len() as u32,
                block_size: DEFAULT_BLOCK_SIZE,
                granules: Seq::new(columns@.len(), |i: int| range_granule(columns@[i], i)),
            }),
    {
        let mut granules: Vec<InlineGranuleStats> = Vec::new();
        let mut i: usize = 0;
        while i < columns.len()
            invariant
                i <= columns@.len(),
                granules@.len() == i,
                forall|k: int|
                    #![trigger granules@[k]]
                    0 <= k < i ==> granules@[k].wf() && granules@[k]@ == range_granule(columns@[k], k),
            decreases columns@.len() - i,
        {
            let column = &columns[i];
            let mut g = InlineGranuleStats::new(GranuleId::new(i as u32), DEFAULT_BLOCK_SIZE);
            if let Some(min) = &column.min_value {
                g.update_min(min.as_slice());
            }
            if let Some(max) = &column.max_value {
                g.update_max(max.as_slice());
            }
            g.update_null_count(column.null_count as u64);
            granules.push(g);
            i = i + 1;
        }
        let n: usize = granules.len();
        let r = GranuleZoneMapData {
            column_name: text_copy("unknown"),
            num_granules: n as u32,
            block_size: DEFAULT_BLOCK_SIZE,
            granules,
        };
        assert(r@.granules =~= Seq::new(columns@.len(), |k: int| range_granule(columns@[k], k)));
        r
    }
}

/// The statistics of a granule after some values.
pub open spec fn after_values(g: GranuleView, values: Seq<Seq<u8>>) -> GranuleView
    decreases values.len(),
{
    if values.len() == 0 {
        g
    } else {
        let before = after_values(g, values.drop_last());
        GranuleView {
            min: min_with(before.min, values.last()),
            max: max_with(before.max, values.last()),
            ..before
        }
    }
}

proof fn lemma_after_values(g: GranuleView, values: Seq<Seq<u8>>, i: int)
    requires
        forall|k: int| #![trigger values[k]] 0 <= k < values.len() ==> values[k].len() <= MAX_INLINE_BYTES,
        0 <= i < values.len(),
    ensures
        after_values(g, values).min matches Some(m) && !bytes_before(values[i], m),
        after_values(g, values).max matches Some(m) && !bytes_before(m, values[i]),
    decreases values.len(),
{
    let last = values.last();
    let before = after_values(g, values.drop_last());
    assert(values[values.len() - 1] == last);
    lemma_bytes_irreflexive(last);
    if i < values.len() - 1 {
        assert(values.drop_last()[i] == values[i]);
        assert forall|k: int|
            #![trigger values.drop_last()[k]]
            0 <= k < values.len() - 1 implies values.drop_last()[k].len() <= MAX_INLINE_BYTES by {
            assert(values.drop_last()[k] == values[k]);
        }
        lemma_after_values(g, values.drop_last(), i);
        let m = before.min->0;
        let x = before.max->0;
        if bytes_before(last, m) && bytes_before(values[i], last) {
            lemma_bytes_transitive(values[i], last, m);
        }
        if bytes_before(x, last) && bytes_before(last, values[i]) {
            lemma_bytes_transitive(x, last, values[i]);
        }
    }
}

/// A granule is never skipped that holds a value of the range, as long as its
/// values are not longer than what is kept of them.
pub proof fn law_skipped_granule_holds_nothing(
    g: GranuleView,
    values: Seq<Seq<u8>>,
    i: int,
    lo: Seq<u8>,
    hi: Seq<u8>,
)
    requires
        forall|k: int| #![trigger values[k]] 0 <= k < values.len() ==> values[k].len() <= MAX_INLINE_BYTES,
        0 <= i < values.len(),
        !bytes_before(values[i], lo),
        !bytes_before(hi, values[i]),
    ensures
        overlaps(after_values(g, values), lo, hi),
{
    lemma_after_values(g, values, i);
    let s = after_values(g, values);
    let v = values[i];
    let m = s.max->0;
    if bytes_before(m, lo) {
        lemma_bytes_total(v, m);
        if bytes_before(v, m) {
            lemma_bytes_transitive(v, m, lo);
        }
    }
    let n = s.min->0;
    if bytes_before(hi, n) {
        lemma_bytes_total(v, n);
        if bytes_before(n, v) {
            lemma_bytes_transitive(hi, n, v);
        }
    }
}

/// If no granule of a zone map may hold a value of a range, each granule may be
/// skipped by itself.
pub proof fn law_whole_map_skips_each_granule(
    list: Seq<GranuleView>,
    i: int,
    lo: Seq<u8>,
    hi: Seq<u8>,
)
    requires
        0 <= i < list.len(),
        !any_overlaps(list, lo, hi),
    ensures
        !overlaps(list[i], lo, hi),
{
}

} // verus!
