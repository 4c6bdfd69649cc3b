use vstd::prelude::*;
use vstd::utf8::encode_utf8;

use crate::codec::{encodable, encode_value, encodes, is_supported, Cell, CodecError, ColumnType};

verus! {

/// One column of a destination table.
#[derive(Debug)]
pub struct ColumnInfo {
    pub column_name: String,
    pub data_type: ColumnType,
}

/// A table of the database, as its catalog lists it.
#[derive(Debug)]
pub struct TableInfo {
    pub table_schema: String,
    pub table_name: String,
}

/// A destination table with its ordered columns.
pub struct DynamicTable {
    pub table_name: String,
    pub column_info: Vec<ColumnInfo>,
}

/// What went wrong while turning a row's values into cells.
#[derive(Debug, PartialEq)]
pub enum RowError {
    /// No value was given for the named column.
    MissingColumn(String),
    /// The value of the named column could not be encoded.
    Codec(String, CodecError),
}

/// Name and value pairs as texts.
pub open spec fn pairs_view(data: Seq<(String, String)>) -> Seq<(Seq<char>, Seq<char>)> {
    data.map_values(|p: (String, String)| (p.0@, p.1@))
}

/// The value last given for `key` in a list of name and value pairs.
pub open spec fn lookup(data: Seq<(Seq<char>, Seq<char>)>, key: Seq<char>) -> Option<Seq<char>>
    decreases data.len(),
{
    if data.len() == 0 {
        None
    } else if data.last().0 == key {
        Some(data.last().1)
    } else {
        lookup(data.drop_last(), key)
    }
}

/// The value last given for `key` in a list of name and value pairs.
pub open spec fn value_of(data: Seq<(String, String)>, key: Seq<char>) -> Option<Seq<char>> {
    lookup(pairs_view(data), key)
}

/// Whether column `c` gets a cell from `data`.
pub open spec fn column_ok(c: ColumnInfo, data: Seq<(String, String)>) -> bool {
    match value_of(data, c.column_name@) {
        Some(v) => encodable(c.data_type, v),
        None => false,
    }
}

/// The error that column `c` meets with `data`.
pub open spec fn column_error(c: ColumnInfo, data: Seq<(String, String)>, e: RowError) -> bool {
    match value_of(data, c.column_name@) {
        Some(v) => e matches RowError::Codec(n, k) && n@ == c.column_name@ && k == if is_supported(
            c.data_type,
        ) {
            CodecError::InvalidValue
        } else {
            CodecError::UnsupportedType
        },
        None => e matches RowError::MissingColumn(n) && n@ == c.column_name@,
    }
}

proof fn lemma_lookup(data: Seq<(Seq<char>, Seq<char>)>, key: Seq<char>, i: int)
    requires
        0 <= i <= data.len(),
        forall|j: int| i <= j < data.len() ==> data[j].0 != key,
        i == 0 || data[i - 1].0 == key,
    ensures
        lookup(data, key) == if i == 0 {
            None
        } else {
            Some(data[i - 1].1)
        },
    decreases data.len(),
{
    if data.len() > 0 && i < data.len() {
        lemma_lookup(data.drop_last(), key, i);
    }
}

/// Index of the last pair of `data` named `key`.
fn find_last(data: &Vec<(String, String)>, key: &String) -> (r: Option<usize>)
    ensures
        match r {
            Some(i) => i < data@.len() && value_of(data@, key@) == Some(data@[i as int].1@),
            None => value_of(data@, key@) is None,
        },
{
    let mut i: usize = data.len();
    while i > 0 && !(data[i - 1].0 == *key)
        invariant
            i <= data@.len(),
            forall|j: int| i <= j < data@.len() ==> data@[j].0@ != key@,
        decreases i,
    {
        i = i - 1;
    }
    proof {
        lemma_lookup(pairs_view(data@), key@, i as int);
    }
    if i == 0 {
        None
    } else {
        Some(i - 1)
    }
}

/// Whether text `a` sorts no later than `b`: byte-wise lexicographic order,
/// the order of `String`.
pub open spec fn text_le(a: Seq<u8>, b: Seq<u8>) -> bool
    decreases a.len(),
{
    if a.len() == 0 {
        true
    } else if b.len() == 0 {
        false
    } else if a[0] != b[0] {
        a[0] < b[0]
    } else {
        text_le(a.drop_first(), b.drop_first())
    }
}

pub open spec fn name_key(c: ColumnInfo) -> Seq<u8> {
    encode_utf8(c.column_name@)
}

/// Columns are in order of name.
pub open spec fn sorted_by_name(s: Seq<ColumnInfo>) -> bool {
    forall|i: int, j: int| 0 <= i < j < s.len() ==> text_le(name_key(s[i]), name_key(s[j]))
}

proof fn lemma_text_le_total(a: Seq<u8>, b: Seq<u8>)
    ensures
        text_le(a, b) || text_le(b, a),
    decreases a.len(),
{
    if a.len() > 0 && b.len() > 0 && a[0] == b[0] {
        lemma_text_le_total(a.drop_first(), b.drop_first());
    }
}

proof fn lemma_text_le_trans(a: Seq<u8>, b: Seq<u8>, c: Seq<u8>)
    requires
        text_le(a, b),
        text_le(b, c),
    ensures
        text_le(a, c),
    decreases a.len(),
{
    if a.len() > 0 && b.len() > 0 && c.len() > 0 && a[0] == b[0] && b[0] == c[0] {
        lemma_text_le_trans(a.drop_first(), b.drop_first(), c.drop_first());
    }
}

proof fn lemma_text_le_common_prefix(a: Seq<u8>, b: Seq<u8>, i: int)
    requires
        0 <= i <= a.len(),
        i <= b.len(),
        a.take(i) == b.take(i),
    ensures
        text_le(a, b) == text_le(a.skip(i), b.skip(i)),
    decreases i,
{
    if i > 0 {
        assert(a[0] == a.take(i)[0]);
        assert(b[0] == b.take(i)[0]);
        assert(a.drop_first().take(i - 1) =~= a.take(i).drop_first());
        assert(b.drop_first().take(i - 1) =~= b.take(i).drop_first());
        lemma_text_le_common_prefix(a.drop_first(), b.drop_first(), i - 1);
        assert(a.drop_first().skip(i - 1) =~= a.skip(i));
        assert(b.drop_first().skip(i - 1) =~= b.skip(i));
    } else {
        assert(a.skip(0) =~= a);
        assert(b.skip(0) =~= b);
    }
}

/// Whether name `a` sorts no later than name `b`.
fn name_le(a: &String, b: &String) -> (r: bool)
    ensures
        r == text_le(encode_utf8(a@), encode_utf8(b@)),
{
    let x = a.as_str().as_bytes();
    let y = b.as_str().as_bytes();
    let mut i: usize = 0;
    while i < x.len() && i < y.len() && x[i] == y[i]
        invariant
            i <= x@.len(),
            i <= y@.len(),
            x@.take(i as int) == y@.take(i as int),
        decreases x@.len() - i,
    {
        assert(x@.take(i + 1) =~= x@.take(i as int).push(x@[i as int]));
        assert(y@.take(i + 1) =~= y@.take(i as int).push(y@[i as int]));
        i = i + 1;
    }
    proof {
        lemma_text_le_common_prefix(x@, y@, i as int);
        if i < x@.len() {
            assert(x@.skip(i as int)[0] == x@[i as int]);
        }
        if i < y@.len() {
            assert(y@.skip(i as int)[0] == y@[i as int]);
        }
    }
    if i == x.len() {
        true
    } else if i == y.len() {
        false
    } else {
        x[i] < y[i]
    }
}

/// The columns in order of name; columns of equal names keep their order.
pub fn sort_columns(columns: Vec<ColumnInfo>) -> (r: Vec<ColumnInfo>)
    ensures
        sorted_by_name(r@),
        r@.to_multiset() == columns@.to_multiset(),
{
    let ghost all = columns@;
    let mut rest = columns;
    let mut r: Vec<ColumnInfo> = Vec::new();
    let ghost mut done: int = 0;
    assert(all.take(0) =~= Seq::<ColumnInfo>::empty());
    while rest.len() > 0
        invariant
            0 <= done <= all.len(),
            rest@ == all.skip(done),
            sorted_by_name(r@),
            r@.to_multiset() == all.take(done).to_multiset(),
        decreases rest@.len(),
    {
        let x = rest.remove(0);
        assert(x == all[done]);
        assert(rest@ =~= all.skip(done + 1));
        assert(all.take(done + 1) =~= all.take(done).push(x));
        let mut p: usize = r.len();
        while p > 0 && !name_le(&r[p - 1].column_name, &x.column_name)
            invariant
                p <= r@.len(),
                forall|j: int| p <= j < r@.len() ==> !text_le(name_key(r@[j]), name_key(x)),
            decreases p,
        {
            p = p - 1;
        }
        let ghost before = r@;
        r.insert(p, x);
        proof {
            assert(r@ == before.insert(p as int, x));
            vstd::seq_lib::to_multiset_insert(before, p as int, x);
            vstd::seq_lib::to_multiset_build(all.take(done), x);
            assert(before.insert(p as int, x).to_multiset() == before.to_multiset().insert(x));
            assert(all.take(done).push(x).to_multiset() == all.take(done).to_multiset().insert(x));
            assert forall|i: int, j: int| 0 <= i < j < r@.len() implies text_le(
                name_key(r@[i]),
                name_key(r@[j]),
            ) by {
                if j < p {
                    assert(r@[i] == before[i] && r@[j] == before[j]);
                } else if j == p {
                    assert(r@[i] == before[i]);
                    assert(text_le(name_key(before[p - 1]), name_key(x)));
                    if i < p - 1 {
                        lemma_text_le_trans(
                            name_key(before[i]),
                            name_key(before[p - 1]),
                            name_key(x),
                        );
                    }
                } else if i == p {
                    assert(r@[j] == before[j - 1]);
                    lemma_text_le_total(name_key(x), name_key(before[j - 1]));
                } else if i < p {
                    assert(r@[i] == before[i] && r@[j] == before[j - 1]);
                } else {
                    assert(r@[i] == before[i - 1] && r@[j] == before[j - 1]);
                }
            }
            done = done + 1;
        }
    }
    assert(all.take(done) =~= all);
    r
}

impl ColumnInfo {
    pub fn new(column_name: String, data_type: ColumnType) -> (r: ColumnInfo)
        ensures
            r.column_name == column_name,
            r.data_type == data_type,
    {
        ColumnInfo { column_name, data_type }
    }
}

impl DynamicTable {
    pub open spec fn columns(&self) -> Seq<ColumnInfo> {
        self.column_info@
    }

    pub fn new(table_name: &str, column_info: Vec<ColumnInfo>) -> (r: DynamicTable)
        ensures
            r.table_name@ == table_name@,
            r.columns() == column_info@,
    {
        DynamicTable { table_name: table_name.to_owned(), column_info }
    }

    /// The table as the catalog describes it, with its columns sorted by
    /// name so that rows are laid out the same whatever order the catalog
    /// listed them in.
    pub fn from_catalog(table_name: &str, columns: Vec<ColumnInfo>) -> (r: DynamicTable)
        ensures
            r.table_name@ == table_name@,
            sorted_by_name(r.columns()),
            r.columns().to_multiset() == columns@.to_multiset(),
    {
        DynamicTable::new(table_name, sort_columns(columns))
    }

    /// The column names, in order.
    pub fn get_columns(&self) -> (r: Vec<String>)
        ensures
            r@.len() == self.columns().len(),
            forall|i: int| 0 <= i < r@.len() ==> r@[i]@ == self.columns()[i].column_name@,
    {
        let mut r: Vec<String> = Vec::new();
        let mut i: usize = 0;
        while i < self.column_info.len()
            invariant
                i <= self.column_info@.len(),
                r@.len() == i,
                forall|j: int| 0 <= j < i ==> r@[j]@ == self.column_info@[j].column_name@,
            decreases self.column_info@.len() - i,
        {
            r.push(self.column_info[i].column_name.clone());
            i = i + 1;
        }
        r
    }

    /// The first column whose type has no encoding, if any.
    pub fn unsupported_column(&self) -> (r: Option<usize>)
        ensures
            match r {
                Some(i) => i < self.columns().len() && !is_supported(self.columns()[i as int].data_type)
                    && forall|j: int| 0 <= j < i ==> is_supported(self.columns()[j].data_type),
                None => forall|j: int|
                    0 <= j < self.columns().len() ==> is_supported(self.columns()[j].data_type),
            },
    {
        let mut i: usize = 0;
        while i < self.column_info.len()
            invariant
                i <= self.column_info@.len(),
                forall|j: int| 0 <= j < i ==> is_supported(self.column_info@[j].data_type),
            decreases self.column_info@.len() - i,
        {
            if !self.column_info[i].data_type.is_supported() {
                return Some(i);
            }
            i = i + 1;
        }
        None
    }
}

/// The values of one row, by column name, for one table.
pub struct DynamicInsert {
    data: Vec<(String, String)>,
    table_info: DynamicTable,
}

impl DynamicInsert {
    pub closed spec fn data(&self) -> Seq<(String, String)> {
        self.data@
    }

    pub closed spec fn table(&self) -> DynamicTable {
        self.table_info
    }

    /// A row of `table_info` from name and value pairs; where a name comes
    /// twice, the later value counts.
    pub fn new(table_info: DynamicTable, data: Vec<(String, String)>) -> (r: DynamicInsert)
        ensures
            r.data() == data@,
            r.table() == table_info,
    {
        DynamicInsert { table_info, data }
    }

    /// The row's cells, one per column of the table and in its order. Fails
    /// at the first column that has no value or whose value cannot be
    /// encoded.
    pub fn encode(&self) -> (r: Result<Vec<Cell>, RowError>)
        ensures
            row_result(self.table(), self.data(), r),
    {
        encode_row(&self.table_info, &self.data)
    }
}

/// Whether `r` is what encoding the row `data` of `table` gives: the cells
/// of all columns in order, or the error of the first column that has no
/// value or whose value cannot be encoded.
pub open spec fn row_result(
    table: DynamicTable,
    data: Seq<(String, String)>,
    r: Result<Vec<Cell>, RowError>,
) -> bool {
    let cols = table.columns();
    &&& r is Ok <==> forall|i: int| 0 <= i < cols.len() ==> column_ok(cols[i], data)
    &&& r matches Ok(cells) ==> cells@.len() == cols.len() && forall|i: int|
        0 <= i < cells@.len() ==> encodes(
            cols[i].data_type,
            value_of(data, cols[i].column_name@).unwrap(),
            cells@[i],
        )
    &&& r matches Err(e) ==> exists|i: int|
        0 <= i < cols.len() && !column_ok(cols[i], data) && column_error(cols[i], data, e)
            && forall|j: int| 0 <= j < i ==> column_ok(cols[j], data)
}

/// The cells of the row `data` of `table`, one per column and in its order.
pub fn encode_row(table: &DynamicTable, data: &Vec<(String, String)>) -> (r: Result<
    Vec<Cell>,
    RowError,
>)
    ensures
        row_result(*table, data@, r),
{
    let columns = &table.column_info;
    let mut cells: Vec<Cell> = Vec::new();
    let mut i: usize = 0;
    while i < columns.len()
        invariant
            columns@ == table.columns(),
            i <= columns@.len(),
            cells@.len() == i,
            forall|j: int| 0 <= j < i ==> column_ok(columns@[j], data@),
            forall|j: int|
                0 <= j < i ==> encodes(
                    columns@[j].data_type,
                    value_of(data@, columns@[j].column_name@).unwrap(),
                    cells@[j],
                ),
        decreases columns@.len() - i,
    {
        let column = &columns[i];
        match find_last(data, &column.column_name) {
            None => {
                return Err(RowError::MissingColumn(column.column_name.clone()));
            },
            Some(k) => match encode_value(&column.data_type, data[k].1.as_str()) {
                Ok(c) => {
                    cells.push(c);
                },
                Err(e) => {
                    return Err(RowError::Codec(column.column_name.clone(), e));
                },
            },
        }
        i = i + 1;
    }
    Ok(cells)
}

} // verus!
