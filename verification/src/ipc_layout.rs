//! Whether a file in Arrow's form is laid out so that Arrow's reader can follow
//! what it says of itself.
use vstd::prelude::*;
use vstd::slice::slice_subrange;
use crate::codec::{get_le, le_value};

verus! {

/// A column as the footer of a file describes it: the code of its type, what the
/// type adds for a whole number (bits, sign), a float (precision), a date (unit)
/// and a time stamp (unit), and whether its values stand in a dictionary.
pub type FieldParts = (u8, Option<(i32, bool)>, Option<i16>, Option<i16>, Option<i16>, bool);

/// Where a batch stands in a file: its place, the bytes that describe it, and the
/// bytes of its buffers.
pub type BlockParts = (i64, i32, i64);

/// What is said of a batch: of each column the rows and the nulls, the place and
/// the length of each buffer, whether the buffers are compressed, and how many
/// columns have a varying number of buffers.
pub type MessageParts = (Seq<(i64, i64)>, Seq<(i64, i64)>, bool, nat);

/// The columns that `arrow_ipc::root_as_footer` and `Footer::schema` read: nothing
/// when they refuse the bytes or there is no list of columns.
pub uninterp spec fn ipc_fields_in(bytes: Seq<u8>) -> Option<Seq<FieldParts>>;

/// What `Footer::recordBatches`, `Footer::dictionaries` and
/// `Footer::custom_metadata` of `arrow_ipc` read: nothing when the bytes are
/// refused or there is no list of batches; else where the batches stand, and how
/// many dictionaries and entries of other data there are.
pub uninterp spec fn ipc_blocks_in(bytes: Seq<u8>) -> Option<(Seq<BlockParts>, nat, nat)>;

/// What `arrow_ipc::root_as_message` reads: nothing when it refuses the bytes or
/// they describe no batch with its columns and buffers.
pub uninterp spec fn ipc_message_parts(bytes: Seq<u8>) -> Option<MessageParts>;

/// `arrow_ipc::root_as_footer` and `Footer::schema`: the columns, each as it is
/// described there.
#[verifier::external_body]
fn ipc_fields(bytes: &[u8]) -> (r: Option<Vec<FieldParts>>)
    ensures
        match r {
            Some(fields) => ipc_fields_in(bytes@) == Some(fields@),
            None => ipc_fields_in(bytes@) is None,
        },
{
    let footer = arrow_ipc::root_as_footer(bytes).ok()?;
    let fields = footer.schema()?.fields()?.iter().map(|f| {
        let whole = f.type_as_int().map(|t| (t.bitWidth(), t.is_signed()));
        let float = f.type_as_floating_point().map(|t| t.precision().0);
        let date = f.type_as_date().map(|t| t.unit().0);
        let stamp = f.type_as_timestamp().map(|t| t.unit().0);
        (f.type_type().0, whole, float, date, stamp, f.dictionary().is_some())
    });
    Some(fields.collect())
}

/// `arrow_ipc::root_as_footer` and `Footer::recordBatches`, `Footer::dictionaries`
/// and `Footer::custom_metadata`: the places as they stand there, and how long the
/// other lists are.
#[verifier::external_body]
fn ipc_blocks(bytes: &[u8]) -> (r: Option<(Vec<BlockParts>, usize, usize)>)
    ensures
        match r {
            Some((blocks, dictionaries, entries)) => ipc_blocks_in(bytes@) == Some(
                (blocks@, dictionaries as nat, entries as nat),
            ),
            None => ipc_blocks_in(bytes@) is None,
        },
{
    let footer = arrow_ipc::root_as_footer(bytes).ok()?;
    let blocks = footer.recordBatches()?.iter();
    let blocks = blocks.map(|b| (b.offset(), b.metaDataLength(), b.bodyLength())).collect();
    let dictionaries = footer.dictionaries().map_or(0, |d| d.len());
    Some((blocks, dictionaries, footer.custom_metadata().map_or(0, |m| m.len())))
}

/// `arrow_ipc::root_as_message`: the parts of the description of a batch, each as
/// it stands there.
#[verifier::external_body]
fn ipc_message(bytes: &[u8]) -> (r: Option<(Vec<(i64, i64)>, Vec<(i64, i64)>, bool, usize)>)
    ensures
        match r {
            Some((nodes, buffers, compressed, varying)) => ipc_message_parts(bytes@) == Some(
                (nodes@, buffers@, compressed, varying as nat),
            ),
            None => ipc_message_parts(bytes@) is None,
        },
{
    let message = arrow_ipc::root_as_message(bytes).ok()?;
    let batch = message.header_as_record_batch()?;
    let nodes = batch.nodes()?.iter().map(|n| (n.length(), n.null_count())).collect();
    let buffers = batch.buffers()?.iter().map(|b| (b.offset(), b.length())).collect();
    let varying = batch.variadicBufferCounts().map_or(0, |c| c.len());
    Some((nodes, buffers, batch.compression().is_some(), varying))
}

/// How the values of a column lie: the bits of a row, and whether they are
/// offsets between which the values lie in one more buffer. There is no answer
/// for types whose columns hold other columns, and for descriptions that name no
/// type.
#[verifier::opaque]
pub open spec fn row_bits(f: FieldParts) -> Option<(nat, bool)> {
    if f.5 {
        None
    } else if f.0 == 2 {
        match f.1 {
            Some((bits, _)) => if bits == 8 || bits == 16 || bits == 32 || bits == 64 {
                Some((bits as nat, false))
            } else {
                None
            },
            None => None,
        }
    } else if f.0 == 3 {
        match f.2 {
            Some(p) => if p == 0 {
                Some((16, false))
            } else if p == 1 {
                Some((32, false))
            } else if p == 2 {
                Some((64, false))
            } else {
                None
            },
            None => None,
        }
    } else if f.0 == 6 {
        Some((1, false))
    } else if f.0 == 8 {
        match f.3 {
            Some(u) => if u == 0 {
                Some((32, false))
            } else if u == 1 {
                Some((64, false))
            } else {
                None
            },
            None => None,
        }
    } else if f.0 == 10 {
        match f.4 {
            Some(u) => if 0 <= u <= 3 {
                Some((64, false))
            } else {
                None
            },
            None => None,
        }
    } else if f.0 == 4 || f.0 == 5 {
        Some((32, true))
    } else if f.0 == 19 || f.0 == 20 {
        Some((64, true))
    } else {
        None
    }
}

/// How many buffers the columns have: of each, one for the nulls, one for the
/// rows, and one more for values between offsets.
pub open spec fn buffer_count(fields: Seq<FieldParts>) -> nat
    decreases fields.len(),
{
    if fields.len() == 0 {
        0
    } else {
        buffer_count(fields.drop_last()) + column_buffers(fields.last())
    }
}

/// How many buffers a column has.
pub open spec fn column_buffers(f: FieldParts) -> nat {
    match row_bits(f) {
        Some((_, true)) => 3,
        _ => 2,
    }
}

/// Whether the buffers of a column, which start at a place in the list, reach
/// over its rows, and its offsets are whole.
#[verifier::opaque]
pub open spec fn column_laid(
    f: FieldParts,
    node: (i64, i64),
    buffers: Seq<(i64, i64)>,
    at: int,
) -> bool {
    match row_bits(f) {
        None => false,
        Some((bits, between)) => {
            &&& at + column_buffers(f) <= buffers.len()
            &&& 0 <= node.0
            &&& 0 <= node.1
            &&& node.1 == 0 || node.0 <= 8 * buffers[at].1
            &&& node.0 == 0 || (node.0 + if between {
                1int
            } else {
                0
            }) * bits <= 8 * buffers[at + 1].1
            &&& between ==> (8 * buffers[at + 1].1) % (bits as int) == 0
        },
    }
}

/// Whether a batch is described as its columns are, with buffers that lie inside
/// its bytes.
pub open spec fn batch_laid(fields: Seq<FieldParts>, m: MessageParts, size: int) -> bool {
    &&& !m.2
    &&& m.3 == 0
    &&& m.0.len() >= fields.len()
    &&& forall|j: int|
        #![trigger m.1[j]]
        0 <= j < m.1.len() ==> 0 <= m.1[j].0 && 0 <= m.1[j].1 && m.1[j].0 + m.1[j].1 <= size
    &&& forall|i: int|
        #![trigger fields[i]]
        0 <= i < fields.len() ==> column_laid(fields[i], m.0[i], m.1, buffer_count(fields.take(i)) as int)
}

/// The bytes of a block from its description on: four bytes of its length come
/// before, and in newer files four more that mark it.
pub open spec fn message_bytes(block: Seq<u8>) -> Seq<u8> {
    if block[0] == 0xff && block[1] == 0xff && block[2] == 0xff && block[3] == 0xff {
        block.subrange(8, block.len() as int)
    } else {
        block.subrange(4, block.len() as int)
    }
}

/// Whether a batch stands where the footer says, inside the file.
pub open spec fn block_laid(bytes: Seq<u8>, fields: Seq<FieldParts>, b: BlockParts) -> bool {
    &&& 0 <= b.0
    &&& 8 <= b.1
    &&& 0 <= b.2
    &&& b.0 + b.1 + b.2 <= bytes.len()
    &&& match ipc_message_parts(message_bytes(bytes.subrange(b.0 as int, b.0 + b.1 + b.2))) {
        Some(m) => batch_laid(fields, m, b.2 as int),
        None => false,
    }
}

/// The bytes of the footer of a file: its length and a mark of six letters come
/// last.
pub open spec fn footer_bytes(bytes: Seq<u8>) -> Option<Seq<u8>> {
    let n = bytes.len() as int;
    if n < 10 || bytes.subrange(n - 6, n) != seq![65u8, 82, 82, 79, 87, 49] {
        None
    } else {
        let size = le_value(bytes.subrange(n - 10, n - 6)) as int;
        if size <= i32::MAX && size + 10 <= n {
            Some(bytes.subrange(n - 10 - size, n - 10))
        } else {
            None
        }
    }
}

/// Whether the columns are of plain types, and every batch stands where the
/// footer says.
pub open spec fn blocks_laid(bytes: Seq<u8>, fields: Seq<FieldParts>, blocks: Seq<BlockParts>) -> bool {
    &&& forall|i: int| #![trigger fields[i]] 0 <= i < fields.len() ==> row_bits(fields[i]) is Some
    &&& forall|k: int|
        #![trigger blocks[k]]
        0 <= k < blocks.len() ==> block_laid(bytes, fields, blocks[k])
}

/// Whether a file says of itself only what holds of it: where the footer and the
/// batches stand, which columns of plain types they have, and where their buffers
/// lie. Dictionaries and data of other kinds are not among it.
pub open spec fn well_laid(bytes: Seq<u8>) -> bool {
    match footer_bytes(bytes) {
        None => false,
        Some(footer) => match (ipc_fields_in(footer), ipc_blocks_in(footer)) {
            (Some(fields), Some((blocks, dictionaries, entries))) => dictionaries == 0 && entries == 0
                && blocks_laid(bytes, fields, blocks),
            _ => false,
        },
    }
}

/// How the values of a column lie.
fn field_bits(f: &FieldParts) -> (r: Option<(u64, bool)>)
    ensures
        match r {
            Some((bits, between)) => row_bits(*f) == Some((bits as nat, between)) && 1 <= bits <= 64,
            None => row_bits(*f) is None,
        },
{
    reveal(row_bits);
    if f.5 {
        return None;
    }
    match f.0 {
        2 => match f.1 {
            Some((bits, _)) => if bits == 8 || bits == 16 || bits == 32 || bits == 64 {
                Some((bits as u64, false))
            } else {
                None
            },
            None => None,
        },
        3 => match f.2 {
            Some(p) => if p == 0 {
                Some((16, false))
            } else if p == 1 {
                Some((32, false))
            } else if p == 2 {
                Some((64, false))
            } else {
                None
            },
            None => None,
        },
        6 => Some((1, false)),
        8 => match f.3 {
            Some(u) => if u == 0 {
                Some((32, false))
            } else if u == 1 {
                Some((64, false))
            } else {
                None
            },
            None => None,
        },
        10 => match f.4 {
            Some(u) => if 0 <= u && u <= 3 {
                Some((64, false))
            } else {
                None
            },
            None => None,
        },
        4 => Some((32, true)),
        5 => Some((32, true)),
        19 => Some((64, true)),
        20 => Some((64, true)),
        _ => None,
    }
}

/// Whether the rows of a column fit in a buffer.
fn rows_fit(rows: i64, more: u128, bits: u64, length: i64) -> (r: bool)
    requires
        rows >= 0,
        length >= 0,
        more <= 1,
        1 <= bits <= 64,
    ensures
        r == (rows == 0 || (rows + more) * bits <= 8 * length),
{
    if rows == 0 {
        return true;
    }
    assert(0 <= (rows + more) * bits <= 0x8000_0000_0000_0000 * 64) by (nonlinear_arith)
        requires
            0 <= rows <= 0x7fff_ffff_ffff_ffff,
            0 <= more <= 1,
            1 <= bits <= 64,
    ;
    (rows as u128 + more) * (bits as u128) <= 8 * (length as u128)
}

/// The place behind the buffers of a column, if they reach over its rows.
fn column_end(f: &FieldParts, node: (i64, i64), buffers: &Vec<(i64, i64)>, at: usize) -> (r: Option<
    usize,
>)
    requires
        at <= buffers@.len(),
        forall|k: int| #![trigger buffers@[k]] 0 <= k < buffers@.len() ==> 0 <= buffers@[k].1,
    ensures
        match r {
            Some(end) => column_laid(*f, node, buffers@, at as int) && end <= buffers@.len() && end
                == at + column_buffers(*f),
            None => !column_laid(*f, node, buffers@, at as int),
        },
{
    reveal(column_laid);
    let (bits, between) = match field_bits(f) {
        Some(l) => l,
        None => return None,
    };
    let count: usize = if between {
        3
    } else {
        2
    };
    let more: u128 = if between {
        1
    } else {
        0
    };
    if count > buffers.len() - at || node.0 < 0 || node.1 < 0 {
        return None;
    }
    let nulls: bool = node.1 == 0 || node.0 as i128 <= 8 * (buffers[at].1 as i128);
    let rows: bool = rows_fit(node.0, more, bits, buffers[at + 1].1);
    let whole: bool = !between || (8 * (buffers[at + 1].1 as u128)) % (bits as u128) == 0;
    if nulls && rows && whole {
        Some(at + count)
    } else {
        None
    }
}

/// Whether a batch is described as its columns are.
fn is_batch_laid(
    fields: &Vec<FieldParts>,
    nodes: &Vec<(i64, i64)>,
    buffers: &Vec<(i64, i64)>,
    size: i64,
) -> (r: bool)
    requires
        size >= 0,
    ensures
        r == batch_laid(fields@, (nodes@, buffers@, false, 0), size as int),
{
    let ghost m: MessageParts = (nodes@, buffers@, false, 0nat);
    if nodes.len() < fields.len() {
        return false;
    }
    let mut j: usize = 0;
    while j < buffers.len()
        invariant
            j <= buffers@.len(),
            m == (nodes@, buffers@, false, 0nat),
            forall|k: int|
                #![trigger m.1[k]]
                0 <= k < j ==> 0 <= m.1[k].0 && 0 <= m.1[k].1 && m.1[k].0 + m.1[k].1 <= size,
        decreases buffers@.len() - j,
    {
        let b = buffers[j];
        assert(m.1[j as int] == b);
        if b.0 < 0 || b.1 < 0 || b.0 as i128 + b.1 as i128 > size as i128 {
            return false;
        }
        j = j + 1;
    }
    let mut at: usize = 0;
    let mut i: usize = 0;
    assert(fields@.take(0) =~= Seq::empty());
    while i < fields.len()
        invariant
            i <= fields@.len() <= nodes@.len(),
            m == (nodes@, buffers@, false, 0nat),
            forall|k: int| #![trigger m.1[k]] 0 <= k < m.1.len() ==> 0 <= m.1[k].1,
            at == buffer_count(fields@.take(i as int)),
            at <= buffers@.len(),
            forall|k: int|
                #![trigger fields@[k]]
                0 <= k < i ==> column_laid(
                    fields@[k],
                    m.0[k],
                    m.1,
                    buffer_count(fields@.take(k)) as int,
                ),
        decreases fields@.len() - i,
    {
        proof {
            assert(fields@.take(i + 1).drop_last() =~= fields@.take(i as int));
            assert(fields@.take(i + 1).last() == fields@[i as int]);
        }
        match column_end(&fields[i], nodes[i], buffers, at) {
            Some(end) => {
                at = end;
            },
            None => {
                return false;
            },
        }
        i = i + 1;
    }
    true
}

/// Whether a batch stands where the footer says.
fn is_block_laid(bytes: &[u8], fields: &Vec<FieldParts>, b: BlockParts) -> (r: bool)
    ensures
        r == block_laid(bytes@, fields@, b),
{
    if b.0 < 0 || b.1 < 8 || b.2 < 0 {
        return false;
    }
    if b.0 as i128 + b.1 as i128 + b.2 as i128 > bytes.len() as i128 {
        return false;
    }
    let from: usize = b.0 as usize;
    let to: usize = (b.0 as i128 + b.1 as i128 + b.2 as i128) as usize;
    let block = slice_subrange(bytes, from, to);
    let marked: bool = block[0] == 0xff && block[1] == 0xff && block[2] == 0xff && block[3] == 0xff;
    let start: usize = if marked {
        8
    } else {
        4
    };
    let message = slice_subrange(block, start, block.len());
    assert(message@ == message_bytes(block@));
    match ipc_message(message) {
        None => false,
        Some((nodes, buffers, compressed, varying)) => if compressed || varying != 0 {
            false
        } else {
            is_batch_laid(fields, &nodes, &buffers, b.2)
        },
    }
}

/// The place and the length of the footer of a file.
fn footer_range(bytes: &[u8]) -> (r: Option<(usize, usize)>)
    ensures
        match r {
            Some((from, to)) => from <= to <= bytes@.len() && footer_bytes(bytes@) == Some(
                bytes@.subrange(from as int, to as int),
            ),
            None => footer_bytes(bytes@) is None,
        },
{
    let n: usize = bytes.len();
    if n < 10 {
        return None;
    }
    let marked: bool = bytes[n - 6] == 65 && bytes[n - 5] == 82 && bytes[n - 4] == 82 && bytes[n - 3] == 79
        && bytes[n - 2] == 87 && bytes[n - 1] == 49;
    let ghost mark = bytes@.subrange(n - 6, n as int);
    let ghost letters = seq![65u8, 82, 82, 79, 87, 49];
    assert(marked == (mark == letters)) by {
        if marked {
            assert(mark =~= letters);
        } else if mark == letters {
            assert(mark[0] == letters[0] && mark[1] == letters[1] && mark[2] == letters[2] && mark[3]
                == letters[3] && mark[4] == letters[4] && mark[5] == letters[5]);
        }
    }
    if !marked {
        return None;
    }
    let size: u64 = get_le(bytes, n - 10, 4);
    if size > 0x7fff_ffff || size > (n - 10) as u64 {
        return None;
    }
    Some((n - 10 - size as usize, n - 10))
}

/// Whether a file says of itself only what holds of it.
pub fn is_well_laid(bytes: &[u8]) -> (r: bool)
    ensures
        r == well_laid(bytes@),
{
    let (from, to) = match footer_range(bytes) {
        Some(range) => range,
        None => return false,
    };
    let footer = slice_subrange(bytes, from, to);
    let fields = match ipc_fields(footer) {
        Some(fields) => fields,
        None => return false,
    };
    let (blocks, dictionaries, entries) = match ipc_blocks(footer) {
        Some(parts) => parts,
        None => return false,
    };
    if dictionaries != 0 || entries != 0 {
        return false;
    }
    are_blocks_laid(bytes, &fields, &blocks)
}

/// Whether the columns are of plain types, and every batch stands where the
/// footer says.
fn are_blocks_laid(bytes: &[u8], fields: &Vec<FieldParts>, blocks: &Vec<BlockParts>) -> (r: bool)
    ensures
        r == blocks_laid(bytes@, fields@, blocks@),
{
    let mut i: usize = 0;
    while i < fields.len()
        invariant
            i <= fields@.len(),
            forall|k: int| #![trigger fields@[k]] 0 <= k < i ==> row_bits(fields@[k]) is Some,
        decreases fields@.len() - i,
    {
        if field_bits(&fields[i]).is_none() {
            assert(row_bits(fields@[i as int]) is None);
            return false;
        }
        i = i + 1;
    }
    let mut k: usize = 0;
    while k < blocks.len()
        invariant
            k <= blocks@.len(),
            forall|j: int| #![trigger fields@[j]] 0 <= j < fields@.len() ==> row_bits(fields@[j]) is Some,
            forall|j: int| #![trigger blocks@[j]] 0 <= j < k ==> block_laid(bytes@, fields@, blocks@[j]),
        decreases blocks@.len() - k,
    {
        let b = blocks[k];
        if !is_block_laid(bytes, fields, b) {
            assert(blocks@[k as int] == b);
            return false;
        }
        k = k + 1;
    }
    true
}

} // verus!
