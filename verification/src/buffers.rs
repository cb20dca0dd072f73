//! The buffers in which Arrow lays the values of a column.
use vstd::prelude::*;
use crate::codec::{bytes_append, le_bytes, le_value, lemma_le_len, lemma_le_round_trip, lemma_pow256, pow256, put_le};
use crate::column::{fits, kind_of, CellKind, Column, ColumnType, ColumnView};
use crate::error::RockDuckError;
use crate::ipc::{buffer_cells, buffer_value, buffers_view, cell_view, cells_fit, cells_size, lemma_cells_size_mono, named_type, offset_width, reaches};

verus! {

/// The name of a type.
pub open spec fn type_text(dtype: ColumnType) -> Seq<char> {
    match dtype {
        ColumnType::Int8 => "Int8"@,
        ColumnType::Int16 => "Int16"@,
        ColumnType::Int32 => "Int32"@,
        ColumnType::Int64 => "Int64"@,
        ColumnType::UInt8 => "UInt8"@,
        ColumnType::UInt16 => "UInt16"@,
        ColumnType::UInt32 => "UInt32"@,
        ColumnType::UInt64 => "UInt64"@,
        ColumnType::Float32 => "Float32"@,
        ColumnType::Float64 => "Float64"@,
        ColumnType::Boolean => "Boolean"@,
        ColumnType::Date32 => "Date32"@,
        ColumnType::Date64 => "Date64"@,
        ColumnType::TimestampSecond => "Timestamp(Second, None)"@,
        ColumnType::TimestampMillis => "Timestamp(Millisecond, None)"@,
        ColumnType::TimestampMicros => "Timestamp(Microsecond, None)"@,
        ColumnType::TimestampNanos => "Timestamp(Nanosecond, None)"@,
        ColumnType::Utf8 => "Utf8"@,
        ColumnType::LargeUtf8 => "LargeUtf8"@,
        ColumnType::Binary => "Binary"@,
        ColumnType::LargeBinary => "LargeBinary"@,
        ColumnType::Other => ""@,
    }
}

/// Each type is told by its name.
pub proof fn lemma_named_type(dtype: ColumnType)
    ensures
        named_type(type_text(dtype)) == dtype,
{
    reveal_strlit("Int8");
    reveal_strlit("Int16");
    reveal_strlit("Int32");
    reveal_strlit("Int64");
    reveal_strlit("UInt8");
    reveal_strlit("UInt16");
    reveal_strlit("UInt32");
    reveal_strlit("UInt64");
    reveal_strlit("Float32");
    reveal_strlit("Float64");
    reveal_strlit("Boolean");
    reveal_strlit("Date32");
    reveal_strlit("Date64");
    reveal_strlit("Timestamp(Second, None)");
    reveal_strlit("Timestamp(Millisecond, None)");
    reveal_strlit("Timestamp(Microsecond, None)");
    reveal_strlit("Timestamp(Nanosecond, None)");
    reveal_strlit("Utf8");
    reveal_strlit("LargeUtf8");
    reveal_strlit("Binary");
    reveal_strlit("LargeBinary");
    reveal_strlit("");
    assert("Int8"@.len() == 4);
    assert("Int16"@.len() == 5);
    assert("Int32"@.len() == 5);
    assert("Int64"@.len() == 5);
    assert("UInt8"@.len() == 5);
    assert("UInt16"@.len() == 6);
    assert("UInt32"@.len() == 6);
    assert("UInt64"@.len() == 6);
    assert("Float32"@.len() == 7);
    assert("Float64"@.len() == 7);
    assert("Boolean"@.len() == 7);
    assert("Date32"@.len() == 6);
    assert("Date64"@.len() == 6);
    assert("Timestamp(Second, None)"@.len() == 23);
    assert("Timestamp(Millisecond, None)"@.len() == 28);
    assert("Timestamp(Microsecond, None)"@.len() == 28);
    assert("Timestamp(Nanosecond, None)"@.len() == 27);
    assert("Utf8"@.len() == 4);
    assert("LargeUtf8"@.len() == 9);
    assert("Binary"@.len() == 6);
    assert("LargeBinary"@.len() == 11);
    assert(""@.len() == 0);
    assert("Int8"@[0] == 'I' && "Utf8"@[0] == 'U');
    assert("Int16"@[3] == '1' && "Int32"@[3] == '3' && "Int64"@[3] == '6' && "UInt8"@[3] == 't');
    assert("UInt16"@[4] == '1' && "UInt32"@[4] == '3' && "UInt64"@[4] == '6');
    assert("Date32"@[4] == '3' && "Date64"@[4] == '6' && "Binary"@[4] == 'r');
    assert("UInt32"@[0] == 'U' && "UInt64"@[0] == 'U' && "Date32"@[0] == 'D' && "Date64"@[0] == 'D');
    assert("Float32"@[5] == '3' && "Float64"@[5] == '6' && "Boolean"@[5] == 'a');
    assert("Timestamp(Millisecond, None)"@[12] == 'l' && "Timestamp(Microsecond, None)"@[12] == 'c');
}

/// The items of one width in a buffer, after one more was put behind them.
proof fn lemma_item_appended(old_items: Seq<u8>, item: Seq<u8>, n: int, width: int)
    requires
        n >= 0,
        width >= 0,
        old_items.len() == n * width,
        item.len() == width,
    ensures
        (old_items + item).len() == (n + 1) * width,
        (old_items + item).subrange(n * width, n * width + width) == item,
        forall|k: int|
            #![trigger (old_items + item).subrange(k * width, k * width + width)]
            0 <= k < n ==> (old_items + item).subrange(k * width, k * width + width)
                == old_items.subrange(k * width, k * width + width),
{
    assert((n + 1) * width == n * width + width) by (nonlinear_arith);
    assert((old_items + item).subrange(n * width, n * width + width) =~= item);
    assert forall|k: int|
        #![trigger (old_items + item).subrange(k * width, k * width + width)]
        0 <= k < n implies (old_items + item).subrange(k * width, k * width + width)
        == old_items.subrange(k * width, k * width + width) by {
        assert(0 <= k * width && k * width + width <= n * width) by (nonlinear_arith)
            requires
                0 <= k,
                k + 1 <= n,
                width >= 0,
        ;
        assert((old_items + item).subrange(k * width, k * width + width) =~= old_items.subrange(
            k * width,
            k * width + width,
        ));
    }
}

/// The name of a type.
pub fn type_label(dtype: ColumnType) -> (r: &'static str)
    ensures
        r@ == type_text(dtype),
{
    match dtype {
        ColumnType::Int8 => "Int8",
        ColumnType::Int16 => "Int16",
        ColumnType::Int32 => "Int32",
        ColumnType::Int64 => "Int64",
        ColumnType::UInt8 => "UInt8",
        ColumnType::UInt16 => "UInt16",
        ColumnType::UInt32 => "UInt32",
        ColumnType::UInt64 => "UInt64",
        ColumnType::Float32 => "Float32",
        ColumnType::Float64 => "Float64",
        ColumnType::Boolean => "Boolean",
        ColumnType::Date32 => "Date32",
        ColumnType::Date64 => "Date64",
        ColumnType::TimestampSecond => "Timestamp(Second, None)",
        ColumnType::TimestampMillis => "Timestamp(Millisecond, None)",
        ColumnType::TimestampMicros => "Timestamp(Microsecond, None)",
        ColumnType::TimestampNanos => "Timestamp(Nanosecond, None)",
        ColumnType::Utf8 => "Utf8",
        ColumnType::LargeUtf8 => "LargeUtf8",
        ColumnType::Binary => "Binary",
        ColumnType::LargeBinary => "LargeBinary",
        ColumnType::Other => "",
    }
}

/// Why a column cannot be laid in buffers: the values of its type are carried
/// through unread, or they are more than the offsets can address.
pub open spec fn column_fault(c: ColumnView) -> Option<RockDuckError> {
    if c.dtype == ColumnType::Other {
        Some(RockDuckError::Unimplemented)
    } else if (c.dtype == ColumnType::Utf8 || c.dtype == ColumnType::Binary) && cells_size(c.cells)
        > i32::MAX {
        Some(RockDuckError::TooLarge)
    } else if (c.dtype == ColumnType::LargeUtf8 || c.dtype == ColumnType::LargeBinary) && cells_size(
        c.cells,
    ) > i64::MAX {
        Some(RockDuckError::TooLarge)
    } else {
        None
    }
}

/// The offset at a place.
pub open spec fn offset_at(offsets: Seq<u8>, width: int, i: int) -> int {
    le_value(offsets.subrange(i * width, i * width + width)) as int
}

/// Whether buffers hold a place for each row of a column, with a value or without,
/// and nothing else: values of one width; truth values bit by bit; else one offset
/// more than there are rows, from zero on to the end of the bytes, with a value of
/// the type between each two.
pub open spec fn slots_laid(dtype: ColumnType, rows: nat, buffers: Seq<Seq<u8>>) -> bool {
    match kind_of(dtype) {
        CellKind::Signed { width } | CellKind::Unsigned { width } | CellKind::Float { width } =>
            buffers.len() == 1 && buffers[0].len() == rows * width,
        CellKind::Truth => buffers.len() == 1 && buffers[0].len() == (rows + 7) / 8,
        CellKind::Text | CellKind::Bytes => {
            let w = offset_width(dtype);
            &&& buffers.len() == 2
            &&& buffers[0].len() == (rows + 1) * w
            &&& buffers[1].len() <= if w == 4 {
                i32::MAX as int
            } else {
                i64::MAX as int
            }
            &&& offset_at(buffers[0], w, 0) == 0
            &&& offset_at(buffers[0], w, rows as int) == buffers[1].len()
            &&& forall|i: int| 0 <= i < rows ==> (#[trigger] buffer_value(dtype, buffers, i)) is Some
        },
        CellKind::Opaque => false,
    }
}

/// Which rows of a column have a value.
fn column_validity(c: &Column) -> (r: Vec<bool>)
    ensures
        r@ == Seq::new(c@.cells.len(), |i: int| c@.cells[i] is Some),
{
    let mut r: Vec<bool> = Vec::new();
    let mut i: usize = 0;
    while i < c.cells.len()
        invariant
            i <= c.cells@.len(),
            r@ == Seq::new(i as nat, |k: int| c@.cells[k] is Some),
        decreases c.cells@.len() - i,
    {
        assert(c@.cells[i as int] == cell_view(c.cells@[i as int]));
        r.push(c.cells[i].is_some());
        i = i + 1;
    }
    r
}

/// Values of one width, one after the other, zeros where there is none.
fn fixed_buffer(c: &Column, width: usize) -> (r: Vec<u8>)
    requires
        c.wf(),
        width <= 8,
        kind_of(c.dtype) matches CellKind::Signed { width: w } ==> w == width,
        kind_of(c.dtype) matches CellKind::Unsigned { width: w } ==> w == width,
        kind_of(c.dtype) matches CellKind::Float { width: w } ==> w == width,
        kind_of(c.dtype) is Signed || kind_of(c.dtype) is Unsigned || kind_of(c.dtype) is Float,
    ensures
        r@.len() == c@.cells.len() * width,
        forall|i: int|
            #![trigger c@.cells[i]]
            0 <= i < c@.cells.len() ==> (c@.cells[i] matches Some(b) ==> r@.subrange(
                i * width,
                i * width + width,
            ) == b),
{
    let mut r: Vec<u8> = Vec::new();
    let mut i: usize = 0;
    while i < c.cells.len()
        invariant
            c.wf(),
            i <= c.cells@.len(),
            width <= 8,
            kind_of(c.dtype) matches CellKind::Signed { width: w } ==> w == width,
            kind_of(c.dtype) matches CellKind::Unsigned { width: w } ==> w == width,
            kind_of(c.dtype) matches CellKind::Float { width: w } ==> w == width,
            kind_of(c.dtype) is Signed || kind_of(c.dtype) is Unsigned || kind_of(c.dtype) is Float,
            r@.len() == i * width,
            forall|k: int|
                #![trigger c@.cells[k]]
                0 <= k < i ==> (c@.cells[k] matches Some(b) ==> r@.subrange(
                    k * width,
                    k * width + width,
                ) == b),
        decreases c.cells@.len() - i,
    {
        let ghost before = r@;
        assert(c@.cells[i as int] == cell_view(c.cells@[i as int]));
        match &c.cells[i] {
            Some(b) => {
                bytes_append(&mut r, b.as_slice());
                proof {
                    lemma_item_appended(before, b@, i as int, width as int);
                }
            },
            None => {
                put_le(&mut r, 0, width);
                proof {
                    lemma_le_len(0, width as nat);
                    lemma_item_appended(before, le_bytes(0, width as nat), i as int, width as int);
                }
            },
        }
        i = i + 1;
    }
    r
}

/// Setting a clear bit of a byte sets that bit and no other.
proof fn lemma_set_bit(x: u8, v: u8, k: u8)
    requires
        k < 8,
        v <= 1,
        x >> k == 0,
    ensures
        ((x | (v << k)) >> k) & 1 == v,
        forall|m: u8| #![trigger x >> m] m < k ==> ((x | (v << k)) >> m) & 1 == (x >> m) & 1,
        k < 7 ==> (x | (v << k)) >> ((k + 1) as u8) == 0,
{
    assert(((x | (v << k)) >> k) & 1 == v) by (bit_vector)
        requires
            k < 8,
            v <= 1,
            x >> k == 0,
    ;
    assert forall|m: u8| #![trigger x >> m] m < k implies ((x | (v << k)) >> m) & 1 == (x >> m) & 1 by {
        assert(((x | (v << k)) >> m) & 1 == (x >> m) & 1) by (bit_vector)
            requires
                m < k,
                k < 8,
                v <= 1,
        ;
    }
    if k < 7 {
        let n = (k + 1) as u8;
        assert((x | (v << k)) >> n == 0) by (bit_vector)
            requires
                k < 7,
                n == k + 1,
                v <= 1,
                x >> k == 0,
        ;
    }
}

/// Truth values bit by bit, the first in the lowest place of a byte.
fn truth_buffer(c: &Column) -> (r: Vec<u8>)
    requires
        c.wf(),
        kind_of(c.dtype) is Truth,
    ensures
        r@.len() == (c@.cells.len() + 7) / 8,
        forall|i: int|
            #![trigger c@.cells[i]]
            0 <= i < c@.cells.len() ==> (c@.cells[i] matches Some(b) ==> seq![
                (r@[i / 8] >> ((i % 8) as u8)) & 1,
            ] == b),
{
    let mut r: Vec<u8> = Vec::new();
    let mut i: usize = 0;
    while i < c.cells.len()
        invariant
            c.wf(),
            kind_of(c.dtype) is Truth,
            i <= c.cells@.len(),
            r@.len() == (i + 7) / 8,
            i % 8 != 0 ==> r@[i as int / 8] >> ((i % 8) as u8) == 0,
            forall|k: int|
                #![trigger c@.cells[k]]
                0 <= k < i ==> (c@.cells[k] matches Some(b) ==> seq![
                    (r@[k / 8] >> ((k % 8) as u8)) & 1,
                ] == b),
        decreases c.cells@.len() - i,
    {
        assert(c@.cells[i as int] == cell_view(c.cells@[i as int]));
        let bit: u8 = match &c.cells[i] {
            Some(b) => b[0],
            None => 0,
        };
        let place: u8 = (i % 8) as u8;
        if place == 0 {
            r.push(0);
            assert(0u8 >> 0u8 == 0) by (bit_vector);
        }
        let ghost before = r@;
        let at: usize = i / 8;
        let byte: u8 = r[at];
        proof {
            lemma_set_bit(byte, bit, place);
        }
        r.set(at, byte | (bit << place));
        proof {
            assert forall|k: int| #![trigger c@.cells[k]] 0 <= k < i + 1 implies (c@.cells[k] matches Some(
                b,
            ) ==> seq![(r@[k / 8] >> ((k % 8) as u8)) & 1] == b) by {
                if k < i {
                    assert(before[k / 8] == r@[k / 8] || k / 8 == at);
                    if k / 8 == at {
                        assert(k % 8 < place);
                        assert((byte >> ((k % 8) as u8)) & 1 == (r@[k / 8] >> ((k % 8) as u8)) & 1);
                    }
                } else if c@.cells[k] is Some {
                    assert(c@.cells[k]->Some_0 =~= seq![bit]);
                }
            }
        }
        i = i + 1;
    }
    r
}

/// The bytes of a cell, none where there is no value.
pub open spec fn slot_bytes(cell: Option<Seq<u8>>) -> Seq<u8> {
    match cell {
        Some(b) => b,
        None => Seq::empty(),
    }
}

/// Whether the bytes of a cell lie behind those of the cells before it.
spec fn lies_at(cells: Seq<Option<Seq<u8>>>, values: Seq<u8>, k: int) -> bool {
    let from = cells_size(cells.take(k)) as int;
    let to = cells_size(cells.take(k + 1)) as int;
    from <= to <= values.len() && values.subrange(from, to) == slot_bytes(cells[k])
}

/// The bytes of one more cell are put behind those of the others.
proof fn lemma_slot_appended(cells: Seq<Option<Seq<u8>>>, values: Seq<u8>, i: int)
    requires
        0 <= i < cells.len(),
        values.len() == cells_size(cells.take(i)),
        forall|k: int| 0 <= k < i ==> #[trigger] lies_at(cells, values, k),
    ensures
        (values + slot_bytes(cells[i])).len() == cells_size(cells.take(i + 1)),
        forall|k: int| 0 <= k < i + 1 ==> #[trigger] lies_at(cells, values + slot_bytes(cells[i]), k),
{
    let grown = values + slot_bytes(cells[i]);
    assert(cells.take(i + 1).drop_last() =~= cells.take(i));
    assert(cells.take(i + 1).last() == cells[i]);
    assert forall|k: int| 0 <= k < i + 1 implies #[trigger] lies_at(cells, grown, k) by {
        let from = cells_size(cells.take(k)) as int;
        let to = cells_size(cells.take(k + 1)) as int;
        if k < i {
            assert(lies_at(cells, values, k));
            assert(grown.subrange(from, to) =~= values.subrange(from, to));
        } else {
            assert(grown.subrange(from, to) =~= slot_bytes(cells[i]));
        }
    }
}

/// One more offset is put behind the others.
proof fn lemma_offset_appended(cells: Seq<Option<Seq<u8>>>, offsets: Seq<u8>, width: int, i: int)
    requires
        0 <= i < cells.len(),
        width == 4 || width == 8,
        cells_size(cells.take(i + 1)) < pow256(width as nat),
        offsets.len() == (i + 1) * width,
        forall|k: int|
            0 <= k <= i ==> #[trigger] offset_at(offsets, width, k) == cells_size(cells.take(k)),
    ensures
        ({
            let grown = offsets + le_bytes(cells_size(cells.take(i + 1)), width as nat);
            &&& grown.len() == (i + 2) * width
            &&& forall|k: int|
                0 <= k <= i + 1 ==> #[trigger] offset_at(grown, width, k) == cells_size(cells.take(k))
        }),
{
    let item = le_bytes(cells_size(cells.take(i + 1)), width as nat);
    lemma_le_round_trip(cells_size(cells.take(i + 1)), width as nat);
    lemma_le_len(cells_size(cells.take(i + 1)), width as nat);
    lemma_item_appended(offsets, item, i + 1, width);
    let grown = offsets + item;
    assert forall|k: int| 0 <= k <= i + 1 implies #[trigger] offset_at(grown, width, k) == cells_size(
        cells.take(k),
    ) by {
        if k <= i {
            assert(grown.subrange(k * width, k * width + width) == offsets.subrange(
                k * width,
                k * width + width,
            ));
            assert(offset_at(offsets, width, k) == cells_size(cells.take(k)));
        }
    }
}

/// What offsets and bytes say of all cells.
proof fn lemma_slots_laid(cells: Seq<Option<Seq<u8>>>, offsets: Seq<u8>, values: Seq<u8>, width: int)
    requires
        values.len() == cells_size(cells.take(cells.len() as int)),
        forall|k: int|
            0 <= k <= cells.len() ==> #[trigger] offset_at(offsets, width, k) == cells_size(cells.take(k)),
        forall|k: int| 0 <= k < cells.len() ==> #[trigger] lies_at(cells, values, k),
    ensures
        values.len() == cells_size(cells),
        offset_at(offsets, width, 0) == 0,
        offset_at(offsets, width, cells.len() as int) == values.len(),
        forall|i: int|
            #![trigger cells[i]]
            0 <= i < cells.len() ==> {
                let from = offset_at(offsets, width, i);
                let to = offset_at(offsets, width, i + 1);
                from <= to <= values.len() && values.subrange(from, to) == slot_bytes(cells[i])
            },
{
    assert(cells.take(cells.len() as int) =~= cells);
    assert(cells.take(0) =~= Seq::empty());
    assert(offset_at(offsets, width, 0) == cells_size(cells.take(0)));
    assert(offset_at(offsets, width, cells.len() as int) == cells_size(cells));
    assert forall|i: int| #![trigger cells[i]] 0 <= i < cells.len() implies {
        let from = offset_at(offsets, width, i);
        let to = offset_at(offsets, width, i + 1);
        from <= to <= values.len() && values.subrange(from, to) == slot_bytes(cells[i])
    } by {
        assert(lies_at(cells, values, i));
        assert(offset_at(offsets, width, i) == cells_size(cells.take(i)));
        assert(offset_at(offsets, width, i + 1) == cells_size(cells.take(i + 1)));
    }
}

/// The offsets and the bytes of values that differ in length.
fn text_buffers(c: &Column, width: usize) -> (r: (Vec<u8>, Vec<u8>))
    requires
        c.wf(),
        width == offset_width(c.dtype),
        kind_of(c.dtype) is Text || kind_of(c.dtype) is Bytes,
        width == 4 ==> cells_size(c@.cells) <= i32::MAX,
    ensures
        r.0@.len() == (c@.cells.len() + 1) * width,
        r.1@.len() == cells_size(c@.cells),
        offset_at(r.0@, width as int, 0) == 0,
        offset_at(r.0@, width as int, c@.cells.len() as int) == r.1@.len(),
        forall|i: int|
            #![trigger c@.cells[i]]
            0 <= i < c@.cells.len() ==> {
                let from = offset_at(r.0@, width as int, i);
                let to = offset_at(r.0@, width as int, i + 1);
                from <= to <= r.1@.len() && r.1@.subrange(from, to) == slot_bytes(c@.cells[i])
            },
{
    let ghost cells = c@.cells;
    let mut offsets: Vec<u8> = Vec::new();
    let mut values: Vec<u8> = Vec::new();
    put_le(&mut offsets, 0, width);
    proof {
        lemma_pow256();
        lemma_le_round_trip(0, width as nat);
        assert(cells.take(0) =~= Seq::empty());
        assert(offsets@ =~= le_bytes(0, width as nat));
        assert(offsets@.subrange(0, width as int) =~= offsets@);
    }
    let mut i: usize = 0;
    while i < c.cells.len()
        invariant
            cells == c@.cells,
            width == 4 || width == 8,
            width == 4 ==> cells_size(cells) <= i32::MAX,
            i <= c.cells@.len() == cells.len(),
            values@.len() == cells_size(cells.take(i as int)),
            offsets@.len() == (i + 1) * width,
            forall|k: int|
                0 <= k <= i ==> #[trigger] offset_at(offsets@, width as int, k) == cells_size(
                    cells.take(k),
                ),
            forall|k: int| 0 <= k < i ==> #[trigger] lies_at(cells, values@, k),
        decreases c.cells@.len() - i,
    {
        assert(cells[i as int] == cell_view(c.cells@[i as int]));
        let ghost old_values = values@;
        if let Some(b) = &c.cells[i] {
            bytes_append(&mut values, b.as_slice());
        }
        let end: usize = values.len();
        proof {
            assert(values@ =~= old_values + slot_bytes(cells[i as int]));
            lemma_slot_appended(cells, old_values, i as int);
            lemma_cells_size_mono(cells, i + 1);
            lemma_pow256();
            lemma_offset_appended(cells, offsets@, width as int, i as int);
        }
        put_le(&mut offsets, end as u64, width);
        i = i + 1;
    }
    proof {
        lemma_slots_laid(cells, offsets@, values@, width as int);
    }
    (offsets, values)
}

/// Lays a column in buffers: which of its rows have a value, and the buffers,
/// out of which the same column is read.
pub fn write_column(c: &Column) -> (r: Result<(Vec<bool>, Vec<Vec<u8>>), RockDuckError>)
    requires
        c.wf(),
    ensures
        match r {
            Ok((valid, buffers)) => column_fault(c@) is None && reaches(
                c@.dtype,
                valid@,
                buffers_view(buffers@),
                0,
            ) && buffer_cells(c@.dtype, valid@, buffers_view(buffers@), 0) == c@.cells && slots_laid(
                c@.dtype,
                c@.cells.len(),
                buffers_view(buffers@),
            ),
            Err(e) => column_fault(c@) == Some(e),
        },
{
    let valid = column_validity(c);
    let mut buffers: Vec<Vec<u8>> = Vec::new();
    match c.dtype.kind() {
        CellKind::Signed { width } | CellKind::Unsigned { width } | CellKind::Float { width } => {
            buffers.push(fixed_buffer(c, width));
            proof {
                let views = buffers_view(buffers@);
                assert(views[0] == buffers@[0]@);
                assert forall|i: int| #![trigger valid@[i]] 0 <= i < valid@.len() && valid@[i] implies buffer_value(
                    c.dtype,
                    views,
                    0 + i,
                ) == c@.cells[i] by {
                    assert((i + 1) * width <= c@.cells.len() * width) by (nonlinear_arith)
                        requires
                            i + 1 <= c@.cells.len(),
                            width >= 0,
                    ;
                }
            }
        },
        CellKind::Truth => {
            buffers.push(truth_buffer(c));
            proof {
                let views = buffers_view(buffers@);
                assert(views[0] == buffers@[0]@);
                assert forall|i: int| #![trigger valid@[i]] 0 <= i < valid@.len() && valid@[i] implies buffer_value(
                    c.dtype,
                    views,
                    0 + i,
                ) == c@.cells[i] by {
                    assert(c@.cells[i] is Some);
                }
            }
        },
        CellKind::Text | CellKind::Bytes => {
            let width: usize = match c.dtype {
                ColumnType::LargeUtf8 | ColumnType::LargeBinary => 8,
                _ => 4,
            };
            if width == 4 && !cells_fit(&c.cells) {
                return Err(RockDuckError::TooLarge);
            }
            let (offsets, values) = text_buffers(c, width);
            if values.len() as u64 > 0x7fff_ffff_ffff_ffff {
                return Err(RockDuckError::TooLarge);
            }
            buffers.push(offsets);
            buffers.push(values);
            proof {
                let views = buffers_view(buffers@);
                assert(views[0] == buffers@[0]@);
                assert(views[1] == buffers@[1]@);
                assert forall|i: int| 0 <= i < c@.cells.len() implies (#[trigger] buffer_value(
                    c.dtype,
                    views,
                    i,
                )) == Some(slot_bytes(c@.cells[i])) by {
                    assert((i + 2) * width <= (c@.cells.len() + 1) * width) by (nonlinear_arith)
                        requires
                            i + 2 <= c@.cells.len() + 1,
                            width >= 0,
                    ;
                    assert(offset_at(views[0], width as int, i + 1) == le_value(
                        views[0].subrange((i + 1) * width, (i + 1) * width + width),
                    ));
                    assert(fits(c.dtype, Seq::<u8>::empty()));
                }
                assert forall|i: int| #![trigger valid@[i]] 0 <= i < valid@.len() && valid@[i] implies buffer_value(
                    c.dtype,
                    views,
                    0 + i,
                ) == c@.cells[i] by {
                    assert(c@.cells[i] is Some);
                }
            }
        },
        CellKind::Opaque => {
            return Err(RockDuckError::Unimplemented);
        },
    }
    assert(buffer_cells(c@.dtype, valid@, buffers_view(buffers@), 0) =~= c@.cells);
    Ok((valid, buffers))
}

} // verus!
