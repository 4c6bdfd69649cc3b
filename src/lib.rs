//! Reorg-aware loading of block-scoped table changes into a columnar database.
//!
//! The library holds the decisions of the loader: which blocks are final,
//! how a block's table changes become rows, how a textual value becomes a
//! typed cell of the database's row format, and which cursor row is stored
//! next. The I/O that carries those decisions out lives with the caller.
mod block;
mod changes;
mod codec;
mod decimal;
mod finality;
mod loader;
mod table_info;

pub use block::{BlockScopedData, Clock};
pub use changes::{
    convert_field_to_hash, row_values, split_table_changes, Field, PrimaryKey, TableChange,
    TableGroup,
};
pub use codec::{encode_value, Cell, CodecError, ColumnType};
pub use decimal::{lemma_decimal_round_trip, parse_int, parse_uint};
pub use finality::{
    lemma_run_emits_prefix, lemma_run_stays_bounded, lemma_undo_drops_later_blocks, FinalityBuffer,
    BUFFER_LEN,
};
pub use loader::{Cursor, DatabaseLoader, ElricError, TableBatch};
pub use table_info::{
    encode_row, sort_columns, ColumnInfo, DynamicInsert, DynamicTable, RowError, TableInfo,
};
