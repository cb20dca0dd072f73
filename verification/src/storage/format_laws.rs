//! What the names of types, the marks of files and the bounds of granules are for.
use vstd::prelude::*;
use crate::buffers::lemma_named_type;
use crate::codec::bytes_before;
use crate::column::{fits, is_nan, value_before, Batch, Column, ColumnType, ColumnView};
use crate::error::RockDuckError;
use crate::ordmap::OrdMap;
use crate::segment::encoding::{lemma_value_irreflexive, lemma_value_transitive};
use crate::storage::fastlanes::EncodingScheme;
use crate::storage::file_manager::{size_of_first, FileHandle};
use crate::storage::granule::{compute_column_stats, further, takes_column, waiting, with_columns, writer_of, BufferView, ColumnStats, WriterView};
use crate::storage::granule_zone_map_mmap::{max_with, min_with, ColumnRange, GranuleZoneMapData, MmappedZoneMap};
use crate::storage::mmap_file::{slice_at, MmapWriter};
use crate::storage::parquet_format::{batch_of, batch_views, file_batches, ipc_batches, places, read_parquet_file_projected};
use crate::storage::vortex::{is_name_of, is_named, looks_like_vortex, ColumnEncoding, Field, FieldType, SchemaField, VortexReader};
use crate::storage::vortex_alp_ext::{decimal_like, decimals_in, used_scheme};

verus! {

/// A field of a schema is read back as it was written: its name, its type and whether a value
/// may be missing.
pub proof fn law_field_is_read_back(field: &Field, text: SchemaField, r: Result<Field, RockDuckError>)
    requires
        field.data_type != FieldType::Column(ColumnType::Other),
        call_ensures(SchemaField::from_field, (field,), text),
        call_ensures(SchemaField::to_field, (&text,), r),
    ensures
        r matches Ok(f) && f.name@ == field.name@ && f.data_type == field.data_type && f.nullable == field.nullable,
{
    assert(is_name_of(field.data_type, text.data_type_str@));
    assert(is_named(text.data_type_str@));
    match r {
        Ok(f) => {
            lemma_names_differ(field.data_type, f.data_type, text.data_type_str@);
        },
        Err(_) => {},
    }
}

/// Two types do not have the same name.
proof fn lemma_names_differ(a: FieldType, b: FieldType, s: Seq<char>)
    requires
        is_name_of(a, s),
        is_name_of(b, s),
    ensures
        a == b,
{
    if let FieldType::Column(c) = a {
        lemma_named_type(c);
    }
    if let FieldType::Column(c) = b {
        lemma_named_type(c);
    }
    reveal_strlit("Null");
    reveal_strlit("Float16");
    reveal_strlit("Boolean");
    reveal_strlit("Int8");
    reveal_strlit("Int16");
    reveal_strlit("Int32");
    reveal_strlit("Int64");
    reveal_strlit("UInt8");
    reveal_strlit("UInt16");
    reveal_strlit("UInt32");
    reveal_strlit("UInt64");
    reveal_strlit("Float32");
    reveal_strlit("Float64");
    reveal_strlit("Timestamp(Second, None)");
    reveal_strlit("Timestamp(Millisecond, None)");
    reveal_strlit("Timestamp(Microsecond, None)");
    reveal_strlit("Timestamp(Nanosecond, None)");
    reveal_strlit("Date32");
    reveal_strlit("Date64");
    reveal_strlit("Binary");
    reveal_strlit("LargeBinary");
    reveal_strlit("Utf8");
    reveal_strlit("LargeUtf8");
    assert("Null"@.len() == 4);
    assert("Float16"@.len() == 7);
    assert("Boolean"@.len() == 7);
    assert("Int8"@.len() == 4);
    assert("Int16"@.len() == 5);
    assert("Int32"@.len() == 5);
    assert("Int64"@.len() == 5);
    assert("UInt8"@.len() == 5);
    assert("UInt16"@.len() == 6);
    assert("UInt32"@.len() == 6);
    assert("UInt64"@.len() == 6);
    assert("Float32"@.len() == 7);
    assert("Float64"@.len() == 7);
    assert("Timestamp(Second, None)"@.len() == 23);
    assert("Timestamp(Millisecond, None)"@.len() == 28);
    assert("Timestamp(Microsecond, None)"@.len() == 28);
    assert("Timestamp(Nanosecond, None)"@.len() == 27);
    assert("Date32"@.len() == 6);
    assert("Date64"@.len() == 6);
    assert("Binary"@.len() == 6);
    assert("LargeBinary"@.len() == 11);
    assert("Utf8"@.len() == 4);
    assert("LargeUtf8"@.len() == 9);
    assert("Null"@[0] == 'N' && "Int8"@[0] == 'I' && "Utf8"@[0] == 'U');
    assert("Float16"@[5] == '1' && "Float32"@[5] == '3' && "Float64"@[5] == '6' && "Boolean"@[5] == 'a');
}

/// A file of one column begins with its four letters.
pub proof fn law_column_files_begin_with_their_mark(head: &[u8], r: bool)
    requires
        call_ensures(looks_like_vortex, (head,), r),
    ensures
        r <==> head@.len() >= 4 && head@[0] == 0x56 && head@[1] == 0x54 && head@[2] == 0x58 && head@[3] == 0x46,
{
    let mark = seq![0x56u8, 0x54u8, 0x58u8, 0x46u8];
    if head@.len() >= 4 {
        let t = head@.take(4);
        assert(t[0] == head@[0] && t[1] == head@[1] && t[2] == head@[2] && t[3] == head@[3]);
        assert(mark[0] == 0x56 && mark[1] == 0x54 && mark[2] == 0x58 && mark[3] == 0x46);
        if head@[0] == 0x56 && head@[1] == 0x54 && head@[2] == 0x58 && head@[3] == 0x46 {
            assert(t =~= mark);
        }
    }
}

/// A file that begins with the mark of one column gives the batch, or the fault, that was read
/// of it; any other is read as an exchange file, whose faults are not told apart.
pub proof fn law_opened_file_has_its_batches(
    bytes: &[u8],
    column: Option<Result<Batch, RockDuckError>>,
    meta: Option<ColumnEncoding>,
    marked: bool,
    r: Result<VortexReader, RockDuckError>,
)
    requires
        call_ensures(looks_like_vortex, (bytes,), marked),
        call_ensures(VortexReader::open, (bytes, column, meta), r),
    ensures
        r matches Ok(reader) ==> reader.encoding_meta == meta,
        marked && column is Some && column->0 is Ok ==> (r matches Ok(reader) && reader.batches@.len() == 1
            && reader.batches@[0]@ == (column->0->Ok_0)@),
        marked && column is Some && column->0 is Err ==> r == Err::<VortexReader, RockDuckError>(column->0->Err_0),
        (!marked || column is None) && r is Err ==> r == Err::<VortexReader, RockDuckError>(RockDuckError::Internal),
{
    if let Ok(reader) = r {
        let views = crate::storage::parquet_format::batch_views(reader.batches@);
        if marked && column is Some && column->0 is Ok {
            assert(views =~= seq![(column->0->Ok_0)@]);
            assert(views.len() == reader.batches@.len());
            assert(views[0] == reader.batches@[0]@);
        }
    }
}

/// The bounds of a granule move only outwards, and only to the value that moves them.
pub proof fn law_bounds_move_outwards(held: Option<Seq<u8>>, value: Seq<u8>)
    requires
        value.len() <= 32,
    ensures
        min_with(held, value) matches Some(m) && (m == value || held == Some(m)) && !bytes_before(value, m) && (
        held matches Some(h) ==> !bytes_before(h, m)),
        max_with(held, value) matches Some(m) && (m == value || held == Some(m)) && !bytes_before(m, value) && (
        held matches Some(h) ==> !bytes_before(m, h)),
{
    crate::codec::lemma_bytes_irreflexive(value);
    if let Some(h) = held {
        crate::codec::lemma_bytes_irreflexive(h);
        if bytes_before(h, value) && bytes_before(value, h) {
            crate::codec::lemma_bytes_transitive(h, value, h);
        }
    }
}

/// The further of two bounds is one of them, and neither lies beyond it.
pub proof fn law_further_bound_is_not_passed(dtype: ColumnType, x: Seq<u8>, y: Seq<u8>)
    requires
        fits(dtype, x),
        fits(dtype, y),
        !is_nan(dtype, x),
        !is_nan(dtype, y),
    ensures
        further(dtype, Some(x), Some(y), true) matches Some(r) && (r == x || r == y) && !value_before(dtype, r, x)
            && !value_before(dtype, r, y),
        further(dtype, Some(x), Some(y), false) matches Some(r) && (r == x || r == y) && !value_before(dtype, x, r)
            && !value_before(dtype, y, r),
        further(dtype, None, Some(y), true) == Some(y) && further(dtype, Some(x), None, true) == Some(x),
        further(dtype, None, Some(y), false) == Some(y) && further(dtype, Some(x), None, false) == Some(x),
{
    lemma_value_irreflexive(dtype, x);
    lemma_value_irreflexive(dtype, y);
    if value_before(dtype, x, y) && value_before(dtype, y, x) {
        lemma_value_transitive(dtype, x, y, x);
    }
}

/// The bounds of columns become granules, one for each column and in their order.
pub proof fn law_ranges_become_granules(columns: &Vec<ColumnRange>, r: GranuleZoneMapData, i: int)
    requires
        columns@.len() <= u32::MAX,
        0 <= i < columns@.len(),
        call_ensures(GranuleZoneMapData::from_ranges, (columns,), r),
    ensures
        r@.num_granules == columns@.len() == r@.granules.len(),
        r@.granules[i].granule_id == i && r@.granules[i].row_count == 0,
        r@.granules[i].null_count == columns@[i].null_count,
        r@.granules[i].min is Some <==> columns@[i].min_value is Some,
        r@.granules[i].max is Some <==> columns@[i].max_value is Some,
        columns@[i].min_value matches Some(v) ==> (r@.granules[i].min->0).is_prefix_of(v@) && (v@.len() <= 32
            ==> r@.granules[i].min->0 == v@),
        columns@[i].max_value matches Some(v) ==> (r@.granules[i].max->0).is_prefix_of(v@) && (v@.len() <= 32
            ==> r@.granules[i].max->0 == v@),
{
}

/// A zone map is read back as it was written.
pub proof fn law_zone_map_is_read_back(
    map: &GranuleZoneMapData,
    bytes: Vec<u8>,
    payload: &[u8],
    r: Result<MmappedZoneMap, RockDuckError>,
)
    requires
        map.wf(),
        call_ensures(GranuleZoneMapData::to_payload, (map,), Ok(bytes)),
        call_ensures(MmappedZoneMap::from_payload, (payload,), r),
        payload@ == bytes@,
    ensures
        r matches Ok(m) && m.data@ == map@,
{
}

/// Of a list of cells, as many are decimals as are each a decimal.
pub proof fn law_decimals_are_counted(dtype: ColumnType, cells: Seq<Option<Seq<u8>>>, i: int)
    ensures
        decimals_in(dtype, cells) <= cells.len(),
        0 <= i < cells.len() && decimal_like(dtype, cells[i]) ==> decimals_in(dtype, cells) > 0,
        0 <= i < cells.len() && !decimal_like(dtype, cells[i]) ==> decimals_in(dtype, cells) < cells.len(),
    decreases cells.len(),
{
    if cells.len() > 0 {
        let front = cells.drop_last();
        law_decimals_are_counted(dtype, front, i);
        if 0 <= i < front.len() {
            assert(front[i] == cells[i]);
        }
    }
}

/// The scheme for plain decimals stands for that with a remainder; every other stays.
pub proof fn law_scheme_stays_but_for_remainders(asked: EncodingScheme)
    ensures
        used_scheme(asked) != EncodingScheme::AlpRD,
        asked != EncodingScheme::AlpRD ==> used_scheme(asked) == asked,
        asked == EncodingScheme::AlpRD ==> used_scheme(asked) == EncodingScheme::Alp,
{
}

/// Columns of numbers, truth values and texts have a range; those of dates, times and bytes
/// have none.
pub proof fn law_bytes_have_no_range(column: &Column, r: ColumnStats)
    requires
        column.wf(),
        column@.dtype == ColumnType::Binary || column@.dtype == ColumnType::LargeBinary || column@.dtype
            == ColumnType::Date32 || column@.dtype == ColumnType::Date64 || column@.dtype
            == ColumnType::TimestampSecond || column@.dtype == ColumnType::TimestampMillis || column@.dtype
            == ColumnType::TimestampMicros || column@.dtype == ColumnType::TimestampNanos || column@.dtype
            == ColumnType::Other,
        call_ensures(compute_column_stats, (column,), r),
    ensures
        r.min is None && r.max is None,
{
}

/// A segment goes on with the granule that it has begun, and begins an empty one at the place
/// that is next otherwise.
pub proof fn law_segment_goes_on_with_its_granule(b: BufferView, seg_id: Seq<char>)
    ensures
        b.writers.dom().contains(seg_id) ==> writer_of(b, seg_id) == b.writers[seg_id] && waiting(b, seg_id)
            == b.writers[seg_id].rows,
        !b.writers.dom().contains(seg_id) ==> waiting(b, seg_id) == 0,
        !b.writers.dom().contains(seg_id) ==> {
            let w = writer_of(b, seg_id);
            w.rows == 0 && w.granule_id == b.granule_id && w.row_offset == b.row_offset && w.columns.dom() =~= Set::<
                Seq<char>,
            >::empty() && w.zone_map.dom() =~= Set::<Seq<char>>::empty()
        },
{
}

/// Columns of equal length are taken together: each stands behind those of its name, the
/// granule has their rows, and a column of another length ends the taking.
pub proof fn law_columns_of_equal_length_are_taken(
    w: WriterView,
    columns: Seq<(Seq<char>, ColumnView)>,
    n: nat,
    rows: u32,
    i: int,
)
    requires
        0 < rows,
        w.rows == 0 || w.rows == rows,
        n <= columns.len(),
        forall|k: int| #![trigger columns[k]] 0 <= k < n ==> columns[k].1.cells.len() == rows,
        forall|a: int, b: int| #![trigger columns[a], columns[b]] 0 <= a < b < n ==> columns[a].0 != columns[b].0,
        0 <= i < n,
    ensures
        with_columns(w, columns, n).1 == n,
        with_columns(w, columns, n).0.rows == rows,
        with_columns(w, columns, n).0.granule_id == w.granule_id && with_columns(w, columns, n).0.row_offset
            == w.row_offset,
        with_columns(w, columns, n).0.columns.dom().contains(columns[i].0),
        w.columns.dom().contains(columns[i].0) ==> with_columns(w, columns, n).0.columns[columns[i].0]
            == w.columns[columns[i].0].push(columns[i].1),
        !w.columns.dom().contains(columns[i].0) ==> with_columns(w, columns, n).0.columns[columns[i].0]
            == seq![columns[i].1],
    decreases n,
{
    let m = (n - 1) as nat;
    let name = columns[n - 1].0;
    lemma_names_before(w, columns, m, name);
    lemma_taken(w, columns, m, rows);
    assert(columns[n - 1].1.cells.len() == rows);
    let (v, k) = with_columns(w, columns, m);
    assert(takes_column(v, columns[n - 1].1));
    if i < n - 1 {
        law_columns_of_equal_length_are_taken(w, columns, m, rows, i);
        assert(columns[i].0 != columns[n - 1].0);
    }
}

/// How many columns of equal length are taken, and what rows the granule has.
proof fn lemma_taken(w: WriterView, columns: Seq<(Seq<char>, ColumnView)>, n: nat, rows: u32)
    requires
        0 < rows,
        w.rows == 0 || w.rows == rows,
        n <= columns.len(),
        forall|k: int| #![trigger columns[k]] 0 <= k < n ==> columns[k].1.cells.len() == rows,
    ensures
        with_columns(w, columns, n).1 == n,
        with_columns(w, columns, n).0.rows == if n == 0 {
            w.rows
        } else {
            rows
        },
        with_columns(w, columns, n).0.granule_id == w.granule_id,
        with_columns(w, columns, n).0.row_offset == w.row_offset,
    decreases n,
{
    if n > 0 {
        lemma_taken(w, columns, (n - 1) as nat, rows);
        assert(columns[n - 1].1.cells.len() == rows);
    }
}

/// Columns of other names leave a name as it was.
proof fn lemma_names_before(w: WriterView, columns: Seq<(Seq<char>, ColumnView)>, n: nat, name: Seq<char>)
    requires
        n <= columns.len(),
        forall|k: int| #![trigger columns[k]] 0 <= k < n ==> columns[k].0 != name,
    ensures
        with_columns(w, columns, n).0.columns.dom().contains(name) == w.columns.dom().contains(name),
        w.columns.dom().contains(name) ==> with_columns(w, columns, n).0.columns[name] == w.columns[name],
    decreases n,
{
    if n > 0 {
        lemma_names_before(w, columns, (n - 1) as nat, name);
        assert(columns[n - 1].0 != name);
    }
}

/// A column of another length than the rows of a granule is not taken.
pub proof fn law_column_of_another_length_is_refused(
    w: WriterView,
    columns: Seq<(Seq<char>, ColumnView)>,
    n: nat,
)
    requires
        0 < n <= columns.len(),
        w.rows != 0,
        columns[0].1.cells.len() <= u32::MAX,
        columns[0].1.cells.len() != w.rows,
    ensures
        with_columns(w, columns, n) == (w, 0nat),
    decreases n,
{
    reveal_with_fuel(with_columns, 2);
    if n > 1 {
        law_column_of_another_length_is_refused(w, columns, (n - 1) as nat);
    }
}

/// The bytes of all open files are those of each: as many as the files have, and as many times
/// as there are files where all have the same.
pub proof fn law_open_files_add_up(handles: OrdMap<String, FileHandle>, n: int, i: int, size: u64)
    requires
        n >= 0,
    ensures
        0 <= i < n ==> size_of_first(handles, n) >= handles.value_of(i).size,
        (forall|k: int| #![trigger handles.value_of(k)] 0 <= k < n ==> handles.value_of(k).size == size)
            ==> size_of_first(handles, n) == n * size,
    decreases n,
{
    if n > 0 {
        law_open_files_add_up(handles, n - 1, i, size);
        let last = handles.value_of(n - 1).size;
        assert((n - 1) * size + size == n * size) by (nonlinear_arith);
    } else {
        assert(n * size == 0) by (nonlinear_arith)
            requires
                n == 0,
        ;
    }
}

/// A projected read gives, for each batch of the file, the columns that were asked for, in the
/// order in which they were.
pub proof fn law_projected_read_asks_for_its_columns(
    bytes: &[u8],
    wanted: &[i32],
    list: Vec<Batch>,
    asked: Seq<usize>,
    raw: Seq<Seq<(Seq<char>, Seq<char>, Seq<bool>, Seq<Seq<u8>>, nat)>>,
    b: int,
    i: int,
)
    requires
        call_ensures(read_parquet_file_projected, (bytes, Some(wanted)), Ok(list)),
        asked.len() == wanted@.len(),
        forall|k: int| #![trigger wanted@[k]] 0 <= k < wanted@.len() ==> wanted@[k] >= 0 && asked[k] == wanted@[k],
        ipc_batches(bytes@, Some(asked)) == Some(raw),
        0 <= b < raw.len(),
        0 <= i < raw[b].len(),
    ensures
        list@.len() == raw.len(),
        list@[b]@.names.len() == raw[b].len() == list@[b]@.columns.len(),
        list@[b]@.names[i] == raw[b][i].0,
{
    let sought = places(Some(wanted@));
    assert(sought =~= asked);
    let views = batch_views(list@);
    assert(file_batches(bytes@, Some(asked))->Ok_0 == views);
    assert(views == Seq::new(raw.len(), |x: int| batch_of(raw[x])));
    assert(views[b] == list@[b]@);
    assert(views[b] == batch_of(raw[b]));
}

/// A range of a mapped file begins where it was asked for and has the length that was asked
/// for, or less where the file ends; it is refused when it begins behind the end.
pub proof fn law_ranges_lie_in_the_file(
    writer: &MmapWriter,
    mapped: usize,
    offset: u64,
    len: u64,
    r: Result<(usize, usize), RockDuckError>,
)
    requires
        offset + len <= usize::MAX,
        call_ensures(slice_at, (mapped, offset, len), r) || (mapped == writer.mapped && call_ensures(
            MmapWriter::slice_at_mut,
            (writer, offset, len),
            r,
        )),
    ensures
        r is Err <==> offset > mapped,
        r matches Ok((start, end)) ==> start == offset && end <= mapped && end - start <= len && (end - start == len
            || end == mapped),
{
}

} // verus!
