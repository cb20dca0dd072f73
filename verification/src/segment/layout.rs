//! Names and places of the files of a segment.
//!
//! A segment has the directory `{data_dir}/segments/{seg_id}`, a column the file
//! `{column}.vortex` in it.
use vstd::prelude::*;
use crate::error::RockDuckError;
use crate::text::{join_path, joined, text_copy};

verus! {

/// What the id of a segment starts with.
pub const SEG_PREFIX: &'static str = "seg_";

/// What the name of a column file ends with.
pub const COL_SUFFIX: &'static str = ".vortex";

/// Name of the delete mask.
pub const DEL_MASK_NAME: &'static str = "_del.vortex";

/// Name of the metadata file.
pub const META_NAME: &'static str = "_meta.vortex";

/// Name of the zone map.
pub const ZM_NAME: &'static str = "_zm.json";

/// What the name of the zone maps of the blocks of a column ends with.
pub const BLOCK_ZM_SUFFIX: &'static str = "._zm.bin";

/// What the name of the Bloom filters of the blocks of a column ends with.
pub const BLOCK_BF_SUFFIX: &'static str = "._bf.bin";

/// Whether a segment id could lead out of the directory of the segments: it has
/// a slash, a backslash, or two dots in a row.
pub open spec fn leads_out(seg_id: Seq<char>) -> bool {
    exists|i: int|
        #![trigger seg_id[i]]
        0 <= i < seg_id.len() && (seg_id[i] == '/' || seg_id[i] == '\\' || (seg_id[i] == '.' && i + 1
            < seg_id.len() && seg_id[i + 1] == '.'))
}

/// The directory of a segment.
pub open spec fn segment_dir(data_dir: Seq<char>, seg_id: Seq<char>) -> Seq<char> {
    joined(joined(data_dir, "segments"@), seg_id)
}

/// Accepts a segment id that cannot lead out of the directory of the segments.
pub fn validate_seg_id(seg_id: &str, _data_dir: &str) -> (r: Result<(), RockDuckError>)
    ensures
        match r {
            Ok(_) => !leads_out(seg_id@),
            Err(e) => leads_out(seg_id@) && e == RockDuckError::Security,
        },
{
    let n: usize = seg_id.unicode_len();
    let mut i: usize = 0;
    while i < n
        invariant
            n == seg_id@.len(),
            i <= n,
            forall|k: int|
                #![trigger seg_id@[k]]
                0 <= k < i ==> seg_id@[k] != '/' && seg_id@[k] != '\\' && !(seg_id@[k] == '.' && k + 1
                    < n && seg_id@[k + 1] == '.'),
        decreases n - i,
    {
        let c = seg_id.get_char(i);
        if c == '/' || c == '\\' {
            assert(seg_id@[i as int] == c);
            return Err(RockDuckError::Security);
        }
        if c == '.' && i + 1 < n && seg_id.get_char(i + 1) == '.' {
            assert(seg_id@[i as int] == c);
            return Err(RockDuckError::Security);
        }
        i = i + 1;
    }
    Ok(())
}

/// The directory of a segment.
#[derive(Debug)]
pub struct SegmentLayout {
    pub seg_dir: String,
}

/// A name and an ending.
fn named(name: &str, ending: &str) -> (r: String)
    ensures
        r@ == name@ + ending@,
{
    let mut r = text_copy(name);
    r.append(ending);
    r
}

impl SegmentLayout {
    /// The layout of a segment whose id cannot lead out of the directory of the
    /// segments.
    pub fn new(data_dir: &str, seg_id: &str) -> (r: Self)
        requires
            !leads_out(seg_id@),
        ensures
            r.seg_dir@ == segment_dir(data_dir@, seg_id@),
    {
        let segments = join_path(data_dir, "segments");
        SegmentLayout { seg_dir: join_path(segments.as_str(), seg_id) }
    }

    /// The layout of a segment, or an error when its id could lead out of the
    /// directory of the segments.
    pub fn try_new(data_dir: &str, seg_id: &str) -> (r: Result<Self, RockDuckError>)
        ensures
            match r {
                Ok(layout) => !leads_out(seg_id@) && layout.seg_dir@ == segment_dir(
                    data_dir@,
                    seg_id@,
                ),
                Err(e) => leads_out(seg_id@) && e == RockDuckError::Security,
            },
    {
        match validate_seg_id(seg_id, data_dir) {
            Ok(_) => Ok(Self::new(data_dir, seg_id)),
            Err(e) => Err(e),
        }
    }

    /// The file of a column.
    pub fn col_path(&self, col_name: &str) -> (r: String)
        ensures
            r@ == joined(self.seg_dir@, col_name@ + ".vortex"@),
    {
        let name = named(col_name, ".vortex");
        join_path(self.seg_dir.as_str(), name.as_str())
    }

    /// The file of the visibility columns.
    pub fn vis_path(&self) -> (r: String)
        ensures
            r@ == joined(self.seg_dir@, "__vis.vortex"@),
    {
        join_path(self.seg_dir.as_str(), "__vis.vortex")
    }

    /// The log of deletions.
    pub fn deltavis_path(&self) -> (r: String)
        ensures
            r@ == joined(self.seg_dir@, "__vis.vortex.delta"@),
    {
        join_path(self.seg_dir.as_str(), "__vis.vortex.delta")
    }

    /// The file of the delete mask.
    pub fn del_mask_path(&self) -> (r: String)
        ensures
            r@ == joined(self.seg_dir@, "_del.vortex"@),
    {
        join_path(self.seg_dir.as_str(), "_del.vortex")
    }

    /// The file of the update mask of a column.
    pub fn upd_mask_path(&self, col_name: &str) -> (r: String)
        ensures
            r@ == joined(self.seg_dir@, "_upd_"@ + col_name@ + ".vortex"@),
    {
        let name = upd_mask_name(col_name);
        join_path(self.seg_dir.as_str(), name.as_str())
    }

    /// The metadata file.
    pub fn meta_path(&self) -> (r: String)
        ensures
            r@ == joined(self.seg_dir@, "_meta.vortex"@),
    {
        join_path(self.seg_dir.as_str(), "_meta.vortex")
    }

    /// The file of the zone map.
    pub fn zone_map_path(&self) -> (r: String)
        ensures
            r@ == joined(self.seg_dir@, "_zm.json"@),
    {
        join_path(self.seg_dir.as_str(), "_zm.json")
    }

    /// The file of the zone maps of the blocks of a column.
    pub fn block_zm_path(&self, col_name: &str) -> (r: String)
        ensures
            r@ == joined(self.seg_dir@, col_name@ + "._zm.bin"@),
    {
        let name = named(col_name, "._zm.bin");
        join_path(self.seg_dir.as_str(), name.as_str())
    }

    /// The file of the Bloom filters of the blocks of a column.
    pub fn block_bf_path(&self, col_name: &str) -> (r: String)
        ensures
            r@ == joined(self.seg_dir@, col_name@ + "._bf.bin"@),
    {
        let name = named(col_name, "._bf.bin");
        join_path(self.seg_dir.as_str(), name.as_str())
    }

    /// The delta file of a column.
    pub fn delta_path(&self, col_name: &str) -> (r: String)
        ensures
            r@ == joined(joined(self.seg_dir@, "l2"@), col_name@ + ".delta"@),
    {
        let dir = join_path(self.seg_dir.as_str(), "l2");
        let name = named(col_name, ".delta");
        join_path(dir.as_str(), name.as_str())
    }
}

/// The name of the update mask of a column.
pub fn upd_mask_name(col: &str) -> (r: String)
    ensures
        r@ == "_upd_"@ + col@ + ".vortex"@,
{
    let mut r = text_copy("_upd_");
    r.append(col);
    r.append(".vortex");
    r
}

/// `uuid::Uuid::now_v7`, in its form of 32 hexadecimal digits: a number that
/// grows with time and that no other call gives.
#[verifier::external_body]
fn time_ordered_id() -> (r: String)
    ensures
        r@.len() == 32,
        forall|i: int|
            #![trigger r@[i]]
            0 <= i < r@.len() ==> '0' <= r@[i] <= '9' || 'a' <= r@[i] <= 'f',
{
    uuid::Uuid::now_v7().simple().to_string()
}

/// Whether an id is of hexadecimal digits.
pub open spec fn is_hex(id: Seq<char>) -> bool {
    forall|i: int| #![trigger id[i]] 0 <= i < id.len() ==> '0' <= id[i] <= '9' || 'a' <= id[i] <= 'f'
}

/// The segment id made of an id: a prefix, and the id.
pub fn seg_id_from(id: &str) -> (r: String)
    ensures
        r@ == "seg_"@ + id@,
        is_hex(id@) ==> !leads_out(r@),
{
    let mut r = text_copy("seg_");
    r.append(id);
    proof {
        reveal_strlit("seg_");
        if is_hex(id@) {
            assert forall|i: int| #![trigger r@[i]] 0 <= i < r@.len() implies !(r@[i] == '/' || r@[i] == '\\'
                || r@[i] == '.') by {
                if i >= 4 {
                    assert(r@[i] == id@[i - 4]);
                }
            }
        }
    }
    r
}

/// A new segment id: a prefix and 32 hexadecimal digits that grow with time.
pub fn generate_seg_id() -> (r: String)
    ensures
        r@.len() == 36,
        r@.take(4) == "seg_"@,
        is_hex(r@.skip(4)),
        !leads_out(r@),
{
    let id = time_ordered_id();
    let r = seg_id_from(id.as_str());
    proof {
        reveal_strlit("seg_");
        assert(r@.take(4) =~= "seg_"@);
        assert(r@.skip(4) =~= id@);
    }
    r
}

/// The directory of a segment whose id is accepted lies in the directory of the
/// segments: it starts with it, and what follows has no slash.
pub proof fn law_accepted_segment_stays_inside(data_dir: Seq<char>, seg_id: Seq<char>)
    requires
        !leads_out(seg_id),
    ensures
        ({
            let base = joined(data_dir, "segments"@);
            let dir = segment_dir(data_dir, seg_id);
            &&& dir.len() >= base.len()
            &&& dir.take(base.len() as int) == base
            &&& dir == base + seq!['/'] + seg_id
        }),
{
    reveal_strlit("segments");
    let base = joined(data_dir, "segments"@);
    assert(base.last() == 's');
    if seg_id.len() > 0 {
        assert(seg_id[0] != '/');
    }
    assert(segment_dir(data_dir, seg_id).take(base.len() as int) =~= base);
}

/// A new segment id is accepted.
pub proof fn law_hexadecimal_ids_are_accepted(seg_id: Seq<char>)
    requires
        forall|i: int|
            #![trigger seg_id[i]]
            0 <= i < seg_id.len() ==> '0' <= seg_id[i] <= '9' || 'a' <= seg_id[i] <= 'z' || seg_id[i] == '_',
    ensures
        !leads_out(seg_id),
{
}

/// The two ways to a layout agree: an id that is valid may be given to `new`, and `try_new`
/// succeeds on it with the same directory; on every other id `try_new` fails as the test of
/// the id does.
pub proof fn law_layouts_agree(
    data_dir: &str,
    seg_id: &str,
    valid: Result<(), RockDuckError>,
    tried: Result<SegmentLayout, RockDuckError>,
    made: SegmentLayout,
)
    requires
        call_ensures(validate_seg_id, (seg_id, data_dir), valid),
        call_ensures(SegmentLayout::try_new, (data_dir, seg_id), tried),
        valid is Ok ==> call_ensures(SegmentLayout::new, (data_dir, seg_id), made),
    ensures
        valid is Ok ==> call_requires(SegmentLayout::new, (data_dir, seg_id)),
        match (valid, tried) {
            (Ok(_), Ok(layout)) => !leads_out(seg_id@) && layout.seg_dir@ == made.seg_dir@,
            (Err(e), Err(f)) => leads_out(seg_id@) && e == f,
            _ => false,
        },
{
}

} // verus!
