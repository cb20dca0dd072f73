//! Projections: columns of a table kept in the order of another key, to find
//! the rows that a predicate on that key selects.
//!
//! A lightweight projection keeps the sort column and the primary key, a full
//! one all columns. It is stored as `{data_dir}/projections/{table}/{proj_id}.vortex`.
use vstd::prelude::*;
use crate::column::{column_fits, is_whole, read_whole_number, whole_number, Column, ColumnType, ColumnView};
use crate::error::RockDuckError;
use crate::numeral::{
    find_first, first_of, parse_decimal, parse_int, parsed_decimal, parsed_int, trim, trimmed,
};
use crate::segment::meta::{ColumnDef, CompareOp, ZoneMapStats};
use crate::text::{join_path, joined, lists_text, text_copy, text_same};

verus! {

/// What a projection keeps.
#[derive(Debug, Clone, Copy, PartialEq, Eq, Structural)]
pub enum ProjectionType {
    /// The sort column and the primary key.
    Lightweight,
    /// All columns.
    Full,
}

impl Default for ProjectionType {
    fn default() -> (r: Self)
        ensures
            r == ProjectionType::Lightweight,
    {
        ProjectionType::Lightweight
    }
}

/// A projection of a table.
#[derive(Debug)]
pub struct ProjectionMeta {
    pub proj_id: String,
    pub table: String,
    pub proj_type: ProjectionType,
    /// The columns it is sorted by.
    pub sort_columns: Vec<String>,
    /// The columns it keeps.
    pub columns: Vec<ColumnDef>,
    pub zone_map: ZoneMapStats,
    pub row_count: u64,
    /// Seconds since the epoch.
    pub created_at: u64,
}

impl ProjectionMeta {
    /// A projection without rows, made at a time in seconds.
    pub fn new(
        proj_id: String,
        table: String,
        proj_type: ProjectionType,
        sort_columns: Vec<String>,
        columns: Vec<ColumnDef>,
        now_secs: u64,
    ) -> (r: Self)
        ensures
            r.proj_id == proj_id,
            r.table == table,
            r.proj_type == proj_type,
            r.sort_columns == sort_columns,
            r.columns == columns,
            r.zone_map.columns@.len() == 0,
            r.row_count == 0,
            r.created_at == now_secs,
    {
        ProjectionMeta {
            proj_id,
            table,
            proj_type,
            sort_columns,
            columns,
            zone_map: ZoneMapStats::new(),
            row_count: 0,
            created_at: now_secs,
        }
    }
}

/// Whether a comparison holds.
pub open spec fn compares(op: CompareOp, a: int, b: int) -> bool {
    match op {
        CompareOp::Eq => a == b,
        CompareOp::Ne => a != b,
        CompareOp::Lt => a < b,
        CompareOp::Le => a <= b,
        CompareOp::Gt => a > b,
        CompareOp::Ge => a >= b,
    }
}

/// The number in a row; a row without a value counts as zero.
pub open spec fn number_at(c: ColumnView, row: int) -> int {
    match c.cells[row] {
        Some(bytes) => whole_number(c.dtype, bytes),
        None => 0,
    }
}

/// The first `n` rows of a column for which a comparison holds, in order.
pub open spec fn selected(c: ColumnView, op: CompareOp, value: int, n: nat) -> Seq<u64>
    decreases n,
{
    if n == 0 {
        Seq::empty()
    } else {
        let before = selected(c, op, value, (n - 1) as nat);
        if compares(op, number_at(c, n - 1), value) {
            before.push((n - 1) as u64)
        } else {
            before
        }
    }
}

/// Whether text starts with another.
pub open spec fn starts(s: Seq<char>, prefix: Seq<char>) -> bool {
    s.len() >= prefix.len() && s.take(prefix.len() as int) == prefix
}

/// Whether text ends with another.
pub open spec fn ends(s: Seq<char>, suffix: Seq<char>) -> bool {
    s.len() >= suffix.len() && s.skip(s.len() - suffix.len()) == suffix
}

/// The number that text without its start writes: whole, or a decimal cut off at
/// the point.
pub open spec fn number_behind(s: Seq<char>, mark: Seq<char>) -> Option<i64> {
    if starts(s, mark) {
        let rest = trimmed(s.skip(mark.len() as int));
        match parsed_int(rest) {
            Some(v) => Some(v),
            None => parsed_decimal(rest),
        }
    } else {
        None
    }
}

/// The whole number that text without its end writes.
pub open spec fn number_before(s: Seq<char>, mark: Seq<char>) -> Option<i64> {
    if ends(s, mark) {
        parsed_int(trimmed(s.take(s.len() - mark.len())))
    } else {
        None
    }
}

/// The number beside a comparison sign, behind it first.
pub open spec fn number_beside(s: Seq<char>, mark: Seq<char>) -> Option<i64> {
    match number_behind(s, mark) {
        Some(v) => Some(v),
        None => number_before(s, mark),
    }
}

/// What a predicate on the sort column says: a comparison sign and a number. The
/// longer signs are tried first.
pub open spec fn parsed_predicate(predicate: Seq<char>) -> Option<(CompareOp, i64)> {
    let s = trimmed(predicate);
    if let Some(v) = number_beside(s, ">="@) {
        Some((CompareOp::Ge, v))
    } else if let Some(v) = number_beside(s, "<="@) {
        Some((CompareOp::Le, v))
    } else if let Some(v) = number_beside(s, ">"@) {
        Some((CompareOp::Gt, v))
    } else if let Some(v) = number_beside(s, "<"@) {
        Some((CompareOp::Lt, v))
    } else if let Some(v) = number_beside(s, "="@) {
        Some((CompareOp::Eq, v))
    } else {
        None
    }
}

/// The text before a separator and the text from it on, if the separator does
/// not come first.
pub open spec fn split_at(s: Seq<char>, separator: char) -> Option<(Seq<char>, Seq<char>)> {
    let at = first_of(s, separator, separator);
    if 0 < at < s.len() {
        Some((trimmed(s.take(at as int)), trimmed(s.skip(at as int))))
    } else {
        None
    }
}

/// The column that a predicate is on, and the rest of it.
pub open spec fn column_of(predicate: Seq<char>) -> Option<(Seq<char>, Seq<char>)> {
    let s = trimmed(predicate);
    if split_at(s, ' ') is Some {
        split_at(s, ' ')
    } else if split_at(s, '=') is Some {
        split_at(s, '=')
    } else if split_at(s, '<') is Some {
        split_at(s, '<')
    } else {
        split_at(s, '>')
    }
}

/// Whether a projection is sorted by a column, possibly among others.
pub open spec fn sorted_by(p: ProjectionMeta, column: Seq<char>) -> bool {
    lists_text(p.sort_columns@, column)
}

/// What a search finds, in columns of equal length.
pub open spec fn found(sort: ColumnView, keys: ColumnView, op: CompareOp, value: int) -> Seq<u64> {
    let rows = selected(sort, op, value, sort.cells.len());
    Seq::new(rows.len(), |i: int| number_at(keys, rows[i] as int) as u64)
}

/// The result of a search in the two columns of a projection, of which each may
/// not be loaded.
pub open spec fn searched(
    sort: Option<ColumnView>,
    keys: Option<ColumnView>,
    predicate: Seq<char>,
) -> Result<Seq<u64>, RockDuckError> {
    match sort {
        None => Err(RockDuckError::Storage),
        Some(sort) => match parsed_predicate(predicate) {
            None => Err(RockDuckError::Query),
            Some((op, value)) => if sort.dtype != ColumnType::Int64 {
                Err(RockDuckError::Query)
            } else {
                match keys {
                    None => Err(RockDuckError::Storage),
                    Some(keys) => if keys.dtype != ColumnType::UInt64 {
                        Err(RockDuckError::Query)
                    } else {
                        Ok(found(sort, keys, op, value as int))
                    },
                }
            },
        },
    }
}

/// A number beside a comparison sign.
fn beside(s: &str, mark: &str) -> (r: Option<i64>)
    ensures
        r == number_beside(s@, mark@),
{
    let n: usize = s.unicode_len();
    let m: usize = mark.unicode_len();
    if n < m {
        return None;
    }
    let head = s.substring_char(0, m);
    assert(head@ =~= s@.take(m as int));
    if text_same(head, mark) {
        let rest = s.substring_char(m, n);
        assert(rest@ =~= s@.skip(m as int));
        let value = trim(rest);
        if let Some(v) = parse_int(value) {
            return Some(v);
        }
        if let Some(v) = parse_decimal(value) {
            return Some(v);
        }
    }
    let tail = s.substring_char(n - m, n);
    assert(tail@ =~= s@.skip(n - m));
    if text_same(tail, mark) {
        let rest = s.substring_char(0, n - m);
        assert(rest@ =~= s@.take(n - m));
        let value = trim(rest);
        return parse_int(value);
    }
    None
}

/// Reads a predicate on the sort column: a comparison sign and a number.
pub fn parse_sort_predicate(predicate: &str) -> (r: Result<(CompareOp, i64), RockDuckError>)
    ensures
        match r {
            Ok(p) => parsed_predicate(predicate@) == Some(p),
            Err(e) => parsed_predicate(predicate@) is None && e == RockDuckError::Query,
        },
{
    let s = trim(predicate);
    if let Some(v) = beside(s, ">=") {
        return Ok((CompareOp::Ge, v));
    }
    if let Some(v) = beside(s, "<=") {
        return Ok((CompareOp::Le, v));
    }
    if let Some(v) = beside(s, ">") {
        return Ok((CompareOp::Gt, v));
    }
    if let Some(v) = beside(s, "<") {
        return Ok((CompareOp::Lt, v));
    }
    if let Some(v) = beside(s, "=") {
        return Ok((CompareOp::Eq, v));
    }
    Err(RockDuckError::Query)
}

fn holds(op: CompareOp, a: i128, b: i128) -> (r: bool)
    ensures
        r == compares(op, a as int, b as int),
{
    match op {
        CompareOp::Eq => a == b,
        CompareOp::Ne => a != b,
        CompareOp::Lt => a < b,
        CompareOp::Le => a <= b,
        CompareOp::Gt => a > b,
        CompareOp::Ge => a >= b,
    }
}

/// The number in a row.
pub fn read_number(c: &Column, row: usize) -> (r: i128)
    requires
        c.wf(),
        is_whole(c.dtype),
        row < c@.cells.len(),
    ensures
        r == number_at(c@, row as int),
        i64::MIN <= r <= u64::MAX,
        c.dtype == ColumnType::UInt64 ==> r >= 0,
{
    assert(c@.cells[row as int] == crate::ipc::cell_view(c.cells@[row as int]));
    match &c.cells[row] {
        Some(bytes) => {
            assert(crate::column::fits(c.dtype, bytes@));
            read_whole_number(c.dtype, bytes.as_slice())
        },
        None => 0,
    }
}

/// The rows of a column of 64-bit integers for which a comparison holds.
pub fn filter_by_comparison(data: &Column, op: &CompareOp, value: i64) -> (r: Result<
    Vec<u64>,
    RockDuckError,
>)
    requires
        data.wf(),
    ensures
        match r {
            Ok(rows) => data.dtype == ColumnType::Int64 && rows@ == selected(
                data@,
                *op,
                value as int,
                data@.cells.len(),
            ),
            Err(e) => data.dtype != ColumnType::Int64 && e == RockDuckError::Query,
        },
{
    match data.dtype {
        ColumnType::Int64 => {},
        _ => {
            return Err(RockDuckError::Query);
        },
    }
    let n: usize = data.len();
    let mut rows: Vec<u64> = Vec::new();
    let mut i: usize = 0;
    while i < n
        invariant
            data.wf(),
            data.dtype == ColumnType::Int64,
            n == data@.cells.len(),
            i <= n,
            rows@ == selected(data@, *op, value as int, i as nat),
        decreases n - i,
    {
        if holds(*op, read_number(data, i), value as i128) {
            rows.push(i as u64);
        }
        i = i + 1;
    }
    Ok(rows)
}

/// The primary keys at some rows.
pub fn extract_at_positions(pk_data: &Column, positions: &[u64]) -> (r: Result<
    Vec<u64>,
    RockDuckError,
>)
    requires
        pk_data.wf(),
        forall|i: int|
            #![trigger positions@[i]]
            0 <= i < positions@.len() ==> positions@[i] < pk_data@.cells.len(),
    ensures
        match r {
            Ok(keys) => pk_data.dtype == ColumnType::UInt64 && keys@ == Seq::new(
                positions@.len(),
                |i: int| number_at(pk_data@, positions@[i] as int) as u64,
            ),
            Err(e) => pk_data.dtype != ColumnType::UInt64 && e == RockDuckError::Query,
        },
{
    match pk_data.dtype {
        ColumnType::UInt64 => {},
        _ => {
            return Err(RockDuckError::Query);
        },
    }
    let mut keys: Vec<u64> = Vec::new();
    let mut i: usize = 0;
    let n: usize = pk_data.len();
    while i < positions.len()
        invariant
            pk_data.wf(),
            pk_data.dtype == ColumnType::UInt64,
            n == pk_data@.cells.len(),
            forall|k: int|
                #![trigger positions@[k]]
                0 <= k < positions@.len() ==> positions@[k] < pk_data@.cells.len(),
            i <= positions@.len(),
            keys@ == Seq::new(i as nat, |k: int| number_at(pk_data@, positions@[k] as int) as u64),
        decreases positions@.len() - i,
    {
        let at: usize = positions[i] as usize;
        let key: i128 = read_number(pk_data, at);
        keys.push(key as u64);
        i = i + 1;
    }
    Ok(keys)
}

/// The places and the order of what a comparison selects.
pub proof fn lemma_selected(c: ColumnView, op: CompareOp, value: int, n: nat)
    requires
        n <= u64::MAX,
    ensures
        forall|i: int|
            #![trigger selected(c, op, value, n)[i]]
            0 <= i < selected(c, op, value, n).len() ==> {
                let row = selected(c, op, value, n)[i] as int;
                row < n && compares(op, number_at(c, row), value)
            },
        forall|row: int|
            #![trigger number_at(c, row)]
            0 <= row < n && compares(op, number_at(c, row), value) ==> selected(
                c,
                op,
                value,
                n,
            ).contains(row as u64),
    decreases n,
{
    if n > 0 {
        let m = (n - 1) as nat;
        lemma_selected(c, op, value, m);
        let before = selected(c, op, value, m);
        let rows = selected(c, op, value, n);
        assert forall|row: int|
            #![trigger number_at(c, row)]
            0 <= row < n && compares(op, number_at(c, row), value) implies rows.contains(
            row as u64,
        ) by {
            if row < m {
                let k = choose|k: int| 0 <= k < before.len() && before[k] == row as u64;
                assert(rows[k] == row as u64);
            } else {
                assert(rows.last() == row as u64);
                assert(rows[rows.len() - 1] == row as u64);
            }
        }
        assert forall|i: int| #![trigger rows[i]] 0 <= i < rows.len() implies {
            let row = rows[i] as int;
            row < n && compares(op, number_at(c, row), value)
        } by {
            if i < before.len() {
                assert(rows[i] == before[i]);
            }
        }
    }
}

/// A projection and the columns of it that are loaded.
pub struct ProjectionReader {
    pub meta: ProjectionMeta,
    pub sort_column_data: Option<Column>,
    pub pk_column_data: Option<Column>,
}

impl ProjectionReader {
    /// The sort column, if it is loaded.
    pub open spec fn sort_column(&self) -> Option<ColumnView> {
        match self.sort_column_data {
            Some(c) => Some(c@),
            None => None,
        }
    }

    /// The primary key, if it is loaded.
    pub open spec fn pk_column(&self) -> Option<ColumnView> {
        match self.pk_column_data {
            Some(c) => Some(c@),
            None => None,
        }
    }

    /// Loaded columns hold values of their types, and the primary key has a row
    /// for each row of the sort column.
    pub open spec fn wf(&self) -> bool {
        &&& self.sort_column() matches Some(sort) ==> column_fits(sort)
        &&& self.pk_column() matches Some(keys) ==> column_fits(keys)
        &&& match (self.sort_column(), self.pk_column()) {
            (Some(sort), Some(keys)) => sort.cells.len() == keys.cells.len(),
            _ => true,
        }
    }

    /// Opens a projection of which the file is there or not; no column is
    /// loaded yet.
    pub fn open(exists: bool, table: &str, proj_id: &str, now_secs: u64) -> (r: Result<
        Self,
        RockDuckError,
    >)
        ensures
            match r {
                Ok(reader) => {
                    &&& exists
                    &&& reader.wf()
                    &&& reader.meta.proj_id@ == proj_id@
                    &&& reader.meta.table@ == table@
                    &&& reader.meta.proj_type == ProjectionType::Lightweight
                    &&& reader.meta.sort_columns@.len() == 0
                    &&& reader.meta.columns@.len() == 0
                    &&& reader.meta.row_count == 0
                    &&& reader.meta.created_at == now_secs
                    &&& reader.sort_column() is None
                    &&& reader.pk_column() is None
                },
                Err(e) => !exists && e == RockDuckError::Storage,
            },
    {
        if !exists {
            return Err(RockDuckError::Storage);
        }
        let meta = ProjectionMeta::new(
            text_copy(proj_id),
            text_copy(table),
            ProjectionType::Lightweight,
            Vec::new(),
            Vec::new(),
            now_secs,
        );
        Ok(ProjectionReader { meta, sort_column_data: None, pk_column_data: None })
    }

    /// The same projection with its columns loaded, or nothing when they do not
    /// have the same rows.
    pub fn loaded(meta: ProjectionMeta, sort: Column, keys: Column) -> (r: Option<Self>)
        ensures
            match r {
                Some(reader) => {
                    &&& reader.wf()
                    &&& reader.meta == meta
                    &&& reader.sort_column() == Some(sort@)
                    &&& reader.pk_column() == Some(keys@)
                    &&& column_fits(sort@) && column_fits(keys@)
                    &&& sort@.cells.len() == keys@.cells.len()
                },
                None => !column_fits(sort@) || !column_fits(keys@) || sort@.cells.len()
                    != keys@.cells.len(),
            },
    {
        if sort.is_fit() && keys.is_fit() && sort.len() == keys.len() {
            Some(ProjectionReader { meta, sort_column_data: Some(sort), pk_column_data: Some(keys) })
        } else {
            None
        }
    }

    /// The primary keys of the rows that a predicate on the sort column selects.
    pub fn search(&self, predicate: &str) -> (r: Result<Vec<u64>, RockDuckError>)
        requires
            self.wf(),
        ensures
            match r {
                Ok(keys) => searched(self.sort_column(), self.pk_column(), predicate@) == Ok::<
                    Seq<u64>,
                    RockDuckError,
                >(keys@),
                Err(e) => searched(self.sort_column(), self.pk_column(), predicate@) == Err::<
                    Seq<u64>,
                    RockDuckError,
                >(e),
            },
    {
        let sort = match &self.sort_column_data {
            Some(c) => c,
            None => {
                return Err(RockDuckError::Storage);
            },
        };
        let (op, value) = match parse_sort_predicate(predicate) {
            Ok(p) => p,
            Err(e) => {
                return Err(e);
            },
        };
        let rows = match filter_by_comparison(sort, &op, value) {
            Ok(rows) => rows,
            Err(e) => {
                return Err(e);
            },
        };
        let keys = match &self.pk_column_data {
            Some(c) => c,
            None => {
                return Err(RockDuckError::Storage);
            },
        };
        let n: usize = sort.len();
        proof {
            lemma_selected(sort@, op, value as int, n as nat);
        }
        match extract_at_positions(keys, rows.as_slice()) {
            Ok(found_keys) => {
                assert(found_keys@ =~= found(sort@, keys@, op, value as int));
                Ok(found_keys)
            },
            Err(e) => Err(e),
        }
    }
}

/// The file of a projection.
pub fn projection_path(data_dir: &str, table: &str, proj_id: &str) -> (r: String)
    ensures
        r@ == joined(joined(joined(data_dir@, "projections"@), table@), proj_id@ + ".vortex"@),
{
    let base = join_path(data_dir, "projections");
    let dir = join_path(base.as_str(), table);
    let mut name = text_copy(proj_id);
    name.append(".vortex");
    join_path(dir.as_str(), name.as_str())
}

/// The directory of the metadata of the projections of a table.
pub fn projection_meta_dir(data_dir: &str, table: &str) -> (r: String)
    ensures
        r@ == joined(joined(joined(data_dir@, "projections"@), table@), "meta"@),
{
    let base = join_path(data_dir, "projections");
    let dir = join_path(base.as_str(), table);
    join_path(dir.as_str(), "meta")
}

/// Whether a list holds a text.
fn holds_text(list: &Vec<String>, s: &str) -> (r: bool)
    ensures
        r == lists_text(list@, s@),
{
    let mut i: usize = 0;
    while i < list.len()
        invariant
            i <= list@.len(),
            forall|k: int| #![trigger list@[k]] 0 <= k < i ==> list@[k]@ != s@,
        decreases list@.len() - i,
    {
        if text_same(list[i].as_str(), s) {
            assert(list@[i as int]@ == s@);
            return true;
        }
        i = i + 1;
    }
    false
}

/// The first projection that is sorted by a column.
pub fn find_applicable_projection<'a>(
    _table: &'a str,
    filter_column: &'a str,
    projections: &'a [ProjectionMeta],
) -> (r: Option<&'a ProjectionMeta>)
    ensures
        match r {
            Some(p) => exists|i: int|
                {
                    &&& 0 <= i < projections@.len()
                    &&& #[trigger] projections@[i] == *p
                    &&& sorted_by(*p, filter_column@)
                    &&& forall|k: int|
                        #![trigger projections@[k]]
                        0 <= k < i ==> !sorted_by(projections@[k], filter_column@)
                },
            None => forall|k: int|
                #![trigger projections@[k]]
                0 <= k < projections@.len() ==> !sorted_by(projections@[k], filter_column@),
        },
{
    let mut i: usize = 0;
    while i < projections.len()
        invariant
            i <= projections@.len(),
            forall|k: int|
                #![trigger projections@[k]]
                0 <= k < i ==> !sorted_by(projections@[k], filter_column@),
        decreases projections@.len() - i,
    {
        if holds_text(&projections[i].sort_columns, filter_column) {
            return Some(&projections[i]);
        }
        i = i + 1;
    }
    None
}

/// Whether a projection is sorted by the column that a predicate is on.
pub fn can_projection_prune(proj: &ProjectionMeta, predicate: &str) -> (r: bool)
    ensures
        r == match column_of(predicate@) {
            Some((column, _)) => sorted_by(*proj, column),
            None => false,
        },
{
    match extract_column_from_predicate(predicate) {
        Some((column, _)) => holds_text(&proj.sort_columns, column.as_str()),
        None => false,
    }
}

/// Text around a separator.
fn split_text(s: &str, separator: char) -> (r: Option<(String, String)>)
    ensures
        match r {
            Some((a, b)) => split_at(s@, separator) == Some((a@, b@)),
            None => split_at(s@, separator) is None,
        },
{
    let n: usize = s.unicode_len();
    let at: usize = find_first(s, separator, separator);
    if at > 0 && at < n {
        let before = s.substring_char(0, at);
        let after = s.substring_char(at, n);
        assert(before@ =~= s@.take(at as int));
        assert(after@ =~= s@.skip(at as int));
        Some((text_copy(trim(before)), text_copy(trim(after))))
    } else {
        None
    }
}

/// The column that a predicate is on, and the rest of it.
pub fn extract_column_from_predicate(predicate: &str) -> (r: Option<(String, String)>)
    ensures
        match r {
            Some((a, b)) => column_of(predicate@) == Some((a@, b@)),
            None => column_of(predicate@) is None,
        },
{
    let s = trim(predicate);
    if let Some(parts) = split_text(s, ' ') {
        return Some(parts);
    }
    if let Some(parts) = split_text(s, '=') {
        return Some(parts);
    }
    if let Some(parts) = split_text(s, '<') {
        return Some(parts);
    }
    split_text(s, '>')
}

/// A search finds a primary key exactly when some row with that key has a sort
/// value for which the comparison of the predicate holds.
pub proof fn law_search_finds_matching_rows(
    sort: ColumnView,
    keys: ColumnView,
    predicate: Seq<char>,
    op: CompareOp,
    value: i64,
    key: u64,
)
    requires
        column_fits(sort),
        column_fits(keys),
        sort.dtype == ColumnType::Int64,
        keys.dtype == ColumnType::UInt64,
        sort.cells.len() == keys.cells.len() <= u64::MAX,
        parsed_predicate(predicate) == Some((op, value)),
    ensures
        searched(Some(sort), Some(keys), predicate) matches Ok(list) && (list.contains(key)
            <==> exists|row: int|
            {
                &&& 0 <= row < sort.cells.len()
                &&& #[trigger] number_at(keys, row) as u64 == key
                &&& compares(op, number_at(sort, row), value as int)
            }),
{
    let rows = selected(sort, op, value as int, sort.cells.len());
    let list = found(sort, keys, op, value as int);
    lemma_selected(sort, op, value as int, sort.cells.len());
    if list.contains(key) {
        let i = choose|i: int| 0 <= i < list.len() && list[i] == key;
        let row = rows[i] as int;
        assert(number_at(keys, row) as u64 == key);
    }
    if exists|row: int|
        {
            &&& 0 <= row < sort.cells.len()
            &&& #[trigger] number_at(keys, row) as u64 == key
            &&& compares(op, number_at(sort, row), value as int)
        } {
        let row = choose|row: int|
            {
                &&& 0 <= row < sort.cells.len()
                &&& #[trigger] number_at(keys, row) as u64 == key
                &&& compares(op, number_at(sort, row), value as int)
            };
        assert(rows.contains(row as u64));
        let i = choose|i: int| 0 <= i < rows.len() && rows[i] == row as u64;
        assert(list[i] == key);
    }
}

} // verus!
