use vstd::prelude::*;

use crate::block::BlockScopedData;
use crate::changes::{
    changes_view, decode_changes, decoded_changes, grouped, groups_view, row_value, row_values,
    split_table_changes, ChangeView,
};
use crate::codec::{encodable, encodes, is_supported, Cell, CodecError};
use crate::finality::{accept_spec, undo_spec, FinalityBuffer};
use crate::table_info::{
    column_error, column_ok, encode_row, value_of, ColumnInfo, DynamicTable, RowError,
};

verus! {

/// The ways in which loading can fail.
#[derive(Debug, PartialEq)]
pub enum ElricError {
    TokenNotFound,
    PackageFileError,
    PackageDecodeError,
    CursorError,
    LoadSchemaError,
    InsertCursorError,
    InsertRowError,
    CommitError,
    ColumnNotFound(String, String),
    /// A block's payload is not an encoded set of table changes.
    DecodeError,
    /// A change names a table that the schema does not hold.
    TableNotFound(String),
    /// A row's values cannot be turned into cells.
    ParseError(RowError),
    /// A cursor would be stored for a block below the last stored one.
    CursorRegression,
}

/// A stored resume position.
#[derive(Debug)]
pub struct Cursor {
    id: String,
    cursor: String,
    block_num: u64,
    block_id: String,
}

impl Cursor {
    pub closed spec fn spec_id(&self) -> Seq<char> {
        self.id@
    }

    pub closed spec fn spec_cursor(&self) -> Seq<char> {
        self.cursor@
    }

    pub closed spec fn spec_block_num(&self) -> u64 {
        self.block_num
    }

    pub closed spec fn spec_block_id(&self) -> Seq<char> {
        self.block_id@
    }

    pub fn new(id: String, cursor: String, block_num: u64, block_id: String) -> (r: Cursor)
        ensures
            r.spec_id() == id@,
            r.spec_cursor() == cursor@,
            r.spec_block_num() == block_num,
            r.spec_block_id() == block_id@,
    {
        Cursor { id, cursor, block_num, block_id }
    }

    pub fn cursor(&self) -> (r: &String)
        ensures
            r@ == self.spec_cursor(),
    {
        &self.cursor
    }

    pub fn id(&self) -> (r: &String)
        ensures
            r@ == self.spec_id(),
    {
        &self.id
    }

    pub fn block_num(&self) -> (r: u64)
        ensures
            r == self.spec_block_num(),
    {
        self.block_num
    }

    pub fn block_id(&self) -> (r: &String)
        ensures
            r@ == self.spec_block_id(),
    {
        &self.block_id
    }
}

/// The rows of one table that a block writes, in order; the table is
/// committed once after them.
#[derive(Debug)]
pub struct TableBatch {
    pub table: String,
    pub rows: Vec<Vec<Cell>>,
}

/// Index of the first table named `name`, or -1.
pub open spec fn table_index(tables: Seq<DynamicTable>, name: Seq<char>) -> int
    decreases tables.len(),
{
    if tables.len() == 0 {
        -1
    } else {
        let k = table_index(tables.drop_last(), name);
        if k >= 0 {
            k
        } else if tables.last().table_name@ == name {
            tables.len() - 1
        } else {
            -1
        }
    }
}

/// Whether column `c` gets a cell in the row that `change` makes.
pub open spec fn cell_ok(c: ColumnInfo, change: ChangeView) -> bool {
    match row_value(change, c.column_name@) {
        Some(v) => encodable(c.data_type, v),
        None => false,
    }
}

/// Whether every column of `t` gets a cell in the row that `change` makes.
pub open spec fn row_ok(t: DynamicTable, change: ChangeView) -> bool {
    forall|i: int| 0 <= i < t.columns().len() ==> cell_ok(t.columns()[i], change)
}

/// Whether `cells` are the cells of the row that `change` makes in `t`.
pub open spec fn row_encodes(t: DynamicTable, change: ChangeView, cells: Seq<Cell>) -> bool {
    &&& cells.len() == t.columns().len()
    &&& forall|i: int|
        0 <= i < cells.len() ==> encodes(
            t.columns()[i].data_type,
            row_value(change, t.columns()[i].column_name@).unwrap(),
            cells[i],
        )
}

/// Whether a group of changes has a known table and every row encodes.
pub open spec fn group_ok(tables: Seq<DynamicTable>, g: (Seq<char>, Seq<ChangeView>)) -> bool {
    let k = table_index(tables, g.0);
    k >= 0 && forall|j: int| 0 <= j < g.1.len() ==> row_ok(tables[k], g.1[j])
}

/// Whether every group of `s` has a known table and every row encodes.
pub open spec fn changes_ok(tables: Seq<DynamicTable>, s: Seq<ChangeView>) -> bool {
    forall|i: int| 0 <= i < grouped(s).len() ==> group_ok(tables, grouped(s)[i])
}

/// Whether `b` holds, group by group, the encoded rows of the changes `s`.
pub open spec fn batches_match(tables: Seq<DynamicTable>, s: Seq<ChangeView>, b: Seq<TableBatch>) -> bool {
    let g = grouped(s);
    &&& b.len() == g.len()
    &&& forall|i: int|
        #![trigger b[i]]
        0 <= i < b.len() ==> {
            let t = tables[table_index(tables, g[i].0)];
            &&& b[i].table@ == g[i].0
            &&& b[i].rows@.len() == g[i].1.len()
            &&& forall|j: int|
                0 <= j < g[i].1.len() ==> row_encodes(t, g[i].1[j], #[trigger] b[i].rows@[j]@)
        }
}

/// Whether `e` is the error that the first failing column of the row that
/// `change` makes in `t` meets.
pub open spec fn row_error(t: DynamicTable, change: ChangeView, e: RowError) -> bool {
    exists|i: int|
        0 <= i < t.columns().len() && !cell_ok(t.columns()[i], change) && (forall|j: int|
            0 <= j < i ==> cell_ok(t.columns()[j], change)) && match row_value(
                change,
                t.columns()[i].column_name@,
            ) {
                Some(v) => e matches RowError::Codec(n, k) && n@ == t.columns()[i].column_name@
                    && k == if is_supported(t.columns()[i].data_type) {
                    CodecError::InvalidValue
                } else {
                    CodecError::UnsupportedType
                },
                None => e matches RowError::MissingColumn(n) && n@ == t.columns()[i].column_name@,
            }
}

/// Whether `e` is the error that the group `g` meets first: an unknown
/// table, or the first row that does not encode.
pub open spec fn group_error(tables: Seq<DynamicTable>, g: (Seq<char>, Seq<ChangeView>), e: ElricError) -> bool {
    let x = table_index(tables, g.0);
    if x < 0 {
        e matches ElricError::TableNotFound(n) && n@ == g.0
    } else {
        e matches ElricError::ParseError(re) && exists|j: int|
            0 <= j < g.1.len() && (forall|k: int| 0 <= k < j ==> row_ok(tables[x], g.1[k]))
                && !row_ok(tables[x], g.1[j]) && row_error(tables[x], g.1[j], re)
    }
}

proof fn lemma_table_index(tables: Seq<DynamicTable>, name: Seq<char>, i: int)
    requires
        0 <= i <= tables.len(),
        forall|j: int| 0 <= j < i ==> tables[j].table_name@ != name,
        i == tables.len() || tables[i].table_name@ == name,
    ensures
        table_index(tables, name) == if i == tables.len() {
            -1
        } else {
            i
        },
    decreases tables.len(),
{
    if tables.len() > 0 {
        if i == tables.len() {
            lemma_table_index(tables.drop_last(), name, i - 1);
        } else if i < tables.len() - 1 {
            lemma_table_index(tables.drop_last(), name, i);
        } else {
            lemma_table_index(tables.drop_last(), name, i);
        }
    }
}

/// The orchestrator: keeps the finality window, the schema and the last
/// stored cursor, and decides what each block writes.
pub struct DatabaseLoader {
    id: String,
    tables: Vec<DynamicTable>,
    buffer: FinalityBuffer,
    last_block: Option<u64>,
}

impl DatabaseLoader {
    pub closed spec fn spec_id(&self) -> Seq<char> {
        self.id@
    }

    pub closed spec fn tables(&self) -> Seq<DynamicTable> {
        self.tables@
    }

    pub closed spec fn buffered(&self) -> Seq<BlockScopedData> {
        self.buffer@
    }

    /// Block number of the last cursor this loader stored.
    pub closed spec fn last_block(&self) -> Option<u64> {
        self.last_block
    }

    pub closed spec fn wf(&self) -> bool {
        self.buffer.wf()
    }

    /// A loader for worker `id` over `tables`; fails when a column's type
    /// has no encoding, so that this shows at startup and never mid-stream.
    pub fn new(id: String, tables: Vec<DynamicTable>) -> (r: Result<DatabaseLoader, ElricError>)
        ensures
            r is Ok <==> forall|i: int, j: int|
                0 <= i < tables@.len() && 0 <= j < tables@[i].columns().len() ==> is_supported(
                    tables@[i].columns()[j].data_type,
                ),
            r matches Err(e) ==> e is LoadSchemaError,
            r matches Ok(l) ==> l.wf() && l.spec_id() == id@ && l.tables() == tables@
                && l.buffered().len() == 0 && l.last_block() is None,
    {
        let mut i: usize = 0;
        while i < tables.len()
            invariant
                i <= tables@.len(),
                forall|a: int, b: int|
                    0 <= a < i && 0 <= b < tables@[a].columns().len() ==> is_supported(
                        tables@[a].columns()[b].data_type,
                    ),
            decreases tables@.len() - i,
        {
            match tables[i].unsupported_column() {
                Some(_) => {
                    return Err(ElricError::LoadSchemaError);
                },
                None => {},
            }
            i = i + 1;
        }
        Ok(DatabaseLoader { id, tables, buffer: FinalityBuffer::new(), last_block: None })
    }

    /// The same loader with `buffer` as its finality window.
    pub fn with_buffer(self, buffer: FinalityBuffer) -> (r: DatabaseLoader)
        requires
            buffer.wf(),
        ensures
            r.wf(),
            r.buffered() == buffer@,
            r.spec_id() == self.spec_id(),
            r.tables() == self.tables(),
            r.last_block() == self.last_block(),
    {
        DatabaseLoader { buffer, ..self }
    }

    /// The same loader, knowing that the cursor of block `block_num` is the
    /// last one stored, as when work resumes after a restart.
    pub fn resume_after(self, block_num: u64) -> (r: DatabaseLoader)
        ensures
            r.last_block() == Some(block_num),
            r.wf() == self.wf(),
            r.buffered() == self.buffered(),
            r.spec_id() == self.spec_id(),
            r.tables() == self.tables(),
    {
        DatabaseLoader { last_block: Some(block_num), ..self }
    }

    pub fn buffer(&self) -> (r: &FinalityBuffer)
        ensures
            r@ == self.buffered(),
    {
        &self.buffer
    }

    /// The first table named `table_name`.
    pub fn get_table_info(&self, table_name: &String) -> (r: Option<&DynamicTable>)
        ensures
            match r {
                Some(t) => table_index(self.tables(), table_name@) >= 0 && *t == self.tables()[table_index(
                    self.tables(),
                    table_name@,
                )],
                None => table_index(self.tables(), table_name@) < 0,
            },
    {
        let mut i: usize = 0;
        while i < self.tables.len() && !(self.tables[i].table_name == *table_name)
            invariant
                i <= self.tables@.len(),
                forall|j: int| 0 <= j < i ==> self.tables@[j].table_name@ != table_name@,
            decreases self.tables@.len() - i,
        {
            i = i + 1;
        }
        proof {
            lemma_table_index(self.tables@, table_name@, i as int);
        }
        if i < self.tables.len() {
            Some(&self.tables[i])
        } else {
            None
        }
    }

    /// Takes in a new block and returns, oldest first, the blocks that are
    /// now to be written.
    pub fn process_block_scoped_data(&mut self, data: BlockScopedData) -> (r: Vec<BlockScopedData>)
        requires
            old(self).wf(),
        ensures
            final(self).wf(),
            (r@, final(self).buffered()) == accept_spec(old(self).buffered(), data),
            final(self).tables() == old(self).tables(),
            final(self).spec_id() == old(self).spec_id(),
            final(self).last_block() == old(self).last_block(),
    {
        self.buffer.accept(data)
    }

    /// Drops the buffered blocks after the last one numbered `block_num_signal`.
    pub fn process_block_undo_signal(&mut self, block_num_signal: u64)
        requires
            old(self).wf(),
        ensures
            final(self).wf(),
            final(self).buffered() == undo_spec(old(self).buffered(), block_num_signal),
            final(self).tables() == old(self).tables(),
            final(self).spec_id() == old(self).spec_id(),
            final(self).last_block() == old(self).last_block(),
    {
        self.buffer.undo(block_num_signal)
    }

    /// The cursor row to store after block `block_num` was written. Fails,
    /// storing nothing, when a later block's cursor was already stored.
    pub fn persist_cursor(&mut self, cursor: String, block_num: u64, block_id: String) -> (r: Result<
        Cursor,
        ElricError,
    >)
        ensures
            r is Ok <==> (old(self).last_block() matches Some(last) ==> last <= block_num),
            r matches Ok(c) ==> c.spec_id() == old(self).spec_id() && c.spec_cursor() == cursor@
                && c.spec_block_num() == block_num && c.spec_block_id() == block_id@
                && final(self).last_block() == Some(block_num),
            r matches Err(e) ==> e is CursorRegression && final(self).last_block() == old(
                self,
            ).last_block(),
            final(self).tables() == old(self).tables(),
            final(self).buffered() == old(self).buffered(),
            final(self).spec_id() == old(self).spec_id(),
            final(self).wf() == old(self).wf(),
    {
        match self.last_block {
            Some(last) => if block_num < last {
                return Err(ElricError::CursorRegression);
            },
            None => {},
        }
        self.last_block = Some(block_num);
        Ok(Cursor::new(self.id.clone(), cursor, block_num, block_id))
    }
    /// What a final block writes: its table changes grouped by table, each
    /// table's rows encoded in order. Fails when the payload cannot be
    /// decoded, a change names an unknown table, or a row cannot be encoded;
    /// groups and rows are tried in order and the first failure counts.
    pub fn process_final_blocks(&self, data: &BlockScopedData) -> (r: Result<
        Vec<TableBatch>,
        ElricError,
    >)
        ensures
            r is Ok <==> (decoded_changes(data.payload@) matches Some(s) && changes_ok(
                self.tables(),
                s,
            )),
            r matches Ok(b) ==> batches_match(
                self.tables(),
                decoded_changes(data.payload@).unwrap(),
                b@,
            ),
            r matches Err(e) ==> {
                ||| e is DecodeError && decoded_changes(data.payload@) is None
                ||| decoded_changes(data.payload@) matches Some(s) && exists|i: int|
                    0 <= i < grouped(s).len() && (forall|k: int|
                        0 <= k < i ==> group_ok(self.tables(), grouped(s)[k])) && group_error(
                        self.tables(),
                        grouped(s)[i],
                        e,
                    )
            },
    {
        let changes = match decode_changes(data.payload.as_slice()) {
            Some(c) => c,
            None => {
                return Err(ElricError::DecodeError);
            },
        };
        let ghost s = decoded_changes(data.payload@).unwrap();
        assert(decoded_changes(data.payload@) == Some(s));
        let groups = split_table_changes(changes);
        let ghost gs = grouped(s);
        assert(groups_view(groups@).len() == groups@.len());
        let mut batches: Vec<TableBatch> = Vec::new();
        let mut i: usize = 0;
        while i < groups.len()
            invariant
                decoded_changes(data.payload@) == Some(s),
                groups_view(groups@) == gs,
                gs == grouped(s),
                i <= groups@.len(),
                groups@.len() == gs.len(),
                batches@.len() == i,
                forall|k: int| 0 <= k < i ==> group_ok(self.tables(), gs[k]),
                forall|k: int|
                    #![trigger batches@[k]]
                    0 <= k < i ==> {
                        let t = self.tables()[table_index(self.tables(), gs[k].0)];
                        &&& batches@[k].table@ == gs[k].0
                        &&& batches@[k].rows@.len() == gs[k].1.len()
                        &&& forall|j: int|
                            0 <= j < gs[k].1.len() ==> row_encodes(
                                t,
                                gs[k].1[j],
                                #[trigger] batches@[k].rows@[j]@,
                            )
                    },
            decreases groups@.len() - i,
        {
            let group = &groups[i];
            assert(groups_view(groups@)[i as int] == (group.table@, changes_view(group.changes@)));
            let ghost g = gs[i as int];
            let table = match self.get_table_info(&group.table) {
                Some(t) => t,
                None => {
                    let e = ElricError::TableNotFound(group.table.clone());
                    proof {
                        assert(!group_ok(self.tables(), gs[i as int]));
                        assert(group_error(self.tables(), gs[i as int], e));
                        assert(!changes_ok(self.tables(), s));
                    }
                    return Err(e);
                },
            };
            let ghost x = table_index(self.tables(), g.0);
            assert(changes_view(group.changes@).len() == group.changes@.len());
            let mut rows: Vec<Vec<Cell>> = Vec::new();
            let mut j: usize = 0;
            while j < group.changes.len()
                invariant
                    j <= group.changes@.len(),
                    decoded_changes(data.payload@) == Some(s),
                    gs == grouped(s),
                    i < gs.len(),
                    g == gs[i as int],
                    x == table_index(self.tables(), g.0),
                    forall|k: int| 0 <= k < i ==> group_ok(self.tables(), gs[k]),
                    g.1 == changes_view(group.changes@),
                    g.1.len() == group.changes@.len(),
                    x >= 0,
                    *table == self.tables()[x],
                    rows@.len() == j,
                    forall|k: int| 0 <= k < j ==> row_ok(*table, g.1[k]),
                    forall|k: int| 0 <= k < j ==> row_encodes(*table, g.1[k], #[trigger] rows@[k]@),
                decreases group.changes@.len() - j,
            {
                let change = &group.changes[j];
                assert(g.1[j as int] == change@);
                let values = row_values(change);
                let encoded = encode_row(table, &values);
                match encoded {
                    Ok(cells) => {
                        assert(row_ok(*table, change@));
                        assert(row_encodes(*table, change@, cells@));
                        rows.push(cells);
                    },
                    Err(e) => {
                        proof {
                            let cols = table.columns();
                            let c = choose|c: int|
                                0 <= c < cols.len() && !column_ok(cols[c], values@) && column_error(
                                    cols[c],
                                    values@,
                                    e,
                                ) && forall|d: int| 0 <= d < c ==> column_ok(cols[d], values@);
                            let name = cols[c].column_name@;
                            assert(value_of(values@, name) == row_value(change@, name));
                            assert forall|d: int| 0 <= d < c implies cell_ok(cols[d], change@) by {
                                let nd = cols[d].column_name@;
                                assert(value_of(values@, nd) == row_value(change@, nd));
                                assert(column_ok(cols[d], values@));
                            }
                            assert(!cell_ok(cols[c], change@));
                            assert(row_error(*table, change@, e));
                            assert(!row_ok(*table, g.1[j as int]));
                            assert(!group_ok(self.tables(), g));
                            assert(!changes_ok(self.tables(), s));
                        }
                        let err = ElricError::ParseError(e);
                        assert(group_error(self.tables(), g, err));
                        assert(grouped(s)[i as int] == g);
                        assert(exists|k: int|
                            0 <= k < grouped(s).len() && (forall|m: int|
                                0 <= m < k ==> group_ok(self.tables(), grouped(s)[m])) && group_error(
                                self.tables(),
                                grouped(s)[k],
                                err,
                            ));
                        return Err(err);
                    },
                }
                j = j + 1;
            }
            assert(group_ok(self.tables(), g));
            let ghost old_batches = batches@;
            batches.push(TableBatch { table: group.table.clone(), rows });
            assert(batches@[i as int].rows@.len() == g.1.len());
            i = i + 1;
        }
        Ok(batches)
    }
}

} // verus!
