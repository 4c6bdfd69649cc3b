use std::collections::HashMap;

use elric::{
    BlockScopedData, Cell, Clock, ColumnInfo, ColumnType, DatabaseLoader, DynamicTable,
    ElricError, FinalityBuffer, RowError, BUFFER_LEN,
};
use prost::Message;
use substreams_database_change::pb::database::{
    table_change, CompositePrimaryKey, DatabaseChanges, Field, TableChange,
};

fn block(number: u64, final_block_height: u64) -> BlockScopedData {
    BlockScopedData::new(
        Clock::new(format!("id{}", number), number),
        final_block_height,
        format!("cursor{}", number),
        Vec::new(),
    )
}

fn block_with_changes(table_changes: Vec<TableChange>) -> BlockScopedData {
    let payload = DatabaseChanges { table_changes }.encode_to_vec();
    BlockScopedData::new(Clock::new("block0".into(), 0), 0, "c0".into(), payload)
}

fn field(name: &str, value: &str) -> Field {
    Field { name: name.into(), old_value: "0".into(), new_value: value.into() }
}

fn change(table: &str, fields: Vec<Field>) -> TableChange {
    TableChange { table: table.into(), fields, ..Default::default() }
}

fn loader_with(tables: Vec<DynamicTable>) -> DatabaseLoader {
    DatabaseLoader::new("test".into(), tables).unwrap()
}

fn test_table() -> DynamicTable {
    DynamicTable::new(
        "test",
        vec![ColumnInfo { column_name: "test".into(), data_type: ColumnType::UInt64 }],
    )
}

fn seeded_buffer() -> FinalityBuffer {
    FinalityBuffer::from_blocks((0..BUFFER_LEN as u64).map(|i| block(i, 0)).collect())
}

#[test]
fn test_undo_block_signal() {
    let mut loader = loader_with(vec![]).with_buffer(seeded_buffer());
    let v = 8;
    loader.process_block_undo_signal(v);
    let result = loader.buffer().numbers();
    assert_eq!(result, (0..=v).collect::<Vec<_>>());
}

#[test]
fn test_buffer() {
    let mut loader = loader_with(vec![]);
    for i in 0..10 {
        let final_blocks = loader.process_block_scoped_data(block(i, 10));
        assert_eq!(final_blocks.len(), 1);
    }
    for i in 0..BUFFER_LEN {
        let final_blocks = loader.process_block_scoped_data(block((i + 1) as u64, 0));
        assert_eq!(final_blocks.len(), 0);
    }
    let final_blocks = loader.process_block_scoped_data(block((BUFFER_LEN + 2) as u64, 0));
    assert_eq!(final_blocks.len(), 1);
}

#[test]
fn test_process_data() {
    let loader = loader_with(vec![test_table()]);
    let changes = vec![
        change("test", vec![field("test", "1")]),
        change("test", vec![field("test", "2")]),
    ];
    let data = block_with_changes(changes);
    let batches = loader.process_final_blocks(&data).unwrap();
    assert_eq!(batches.len(), 1);
    assert_eq!(batches[0].table, "test");
    assert_eq!(batches[0].rows, vec![vec![Cell::UInt64(1)], vec![Cell::UInt64(2)]]);
}

#[test]
fn buffer_emits_each_final_block_then_the_oldest_under_pressure() {
    let mut buffer = FinalityBuffer::new();
    for i in 0..10 {
        let emitted = buffer.accept(block(i, 10));
        assert_eq!(emitted.len(), 1);
        assert_eq!(emitted[0].clock.number, i);
        assert_eq!(buffer.len(), 0);
    }
    for i in 11..23 {
        assert_eq!(buffer.accept(block(i, 0)).len(), 0);
    }
    let emitted = buffer.accept(block(23, 0));
    assert_eq!(emitted.len(), 1);
    assert_eq!(emitted[0].clock.number, 11);
    assert_eq!(buffer.numbers(), (12..=23).collect::<Vec<_>>());
}

#[test]
fn buffer_emits_every_block_up_to_the_last_final_one() {
    let mut buffer = FinalityBuffer::new();
    for i in 1..=5 {
        buffer.accept(block(i, 0));
    }
    let emitted = buffer.accept(block(6, 3));
    let numbers: Vec<u64> = emitted.iter().map(|b| b.clock.number).collect();
    assert_eq!(numbers, vec![1, 2, 3]);
    assert_eq!(buffer.numbers(), vec![4, 5, 6]);
}

#[test]
fn buffer_emits_in_input_order_and_stays_bounded() {
    let mut buffer = FinalityBuffer::new();
    let mut emitted_numbers = Vec::new();
    for i in 0..40u64 {
        let height = if i % 7 == 0 { i.saturating_sub(3) } else { 0 };
        for b in buffer.accept(block(i, height)) {
            emitted_numbers.push(b.clock.number);
        }
        assert!(buffer.len() <= BUFFER_LEN);
    }
    let mut all = emitted_numbers.clone();
    all.extend(buffer.numbers());
    assert_eq!(all, (0..40).collect::<Vec<_>>());
}

#[test]
fn final_block_is_emitted_by_the_same_call() {
    let mut buffer = FinalityBuffer::new();
    buffer.accept(block(1, 0));
    let emitted = buffer.accept(block(2, 2));
    assert_eq!(emitted.last().unwrap().clock.number, 2);
    assert_eq!(buffer.len(), 0);
}

#[test]
fn undo_within_window_keeps_through_the_valid_block() {
    let mut buffer = seeded_buffer();
    buffer.undo(8);
    assert_eq!(buffer.numbers(), (0..=8).collect::<Vec<_>>());
    assert!(buffer.numbers().iter().all(|n| *n <= 8));
}

#[test]
fn undo_outside_window_changes_nothing() {
    let mut buffer = seeded_buffer();
    buffer.undo(100);
    assert_eq!(buffer.numbers(), (0..12).collect::<Vec<_>>());
}

#[test]
fn composite_key_completes_the_row() {
    let table = DynamicTable::new(
        "t",
        vec![
            ColumnInfo { column_name: "a".into(), data_type: ColumnType::String },
            ColumnInfo { column_name: "b".into(), data_type: ColumnType::String },
        ],
    );
    let mut keys = HashMap::new();
    keys.insert("b".to_string(), "y".to_string());
    let mut c = change("t", vec![field("a", "x")]);
    c.primary_key = Some(table_change::PrimaryKey::CompositePk(CompositePrimaryKey { keys }));
    let loader = loader_with(vec![table]);
    let batches = loader.process_final_blocks(&block_with_changes(vec![c])).unwrap();
    assert_eq!(
        batches[0].rows,
        vec![vec![Cell::String("x".into()), Cell::String("y".into())]]
    );
}

#[test]
fn changes_are_grouped_by_table_in_first_seen_order() {
    let other = DynamicTable::new(
        "other",
        vec![ColumnInfo { column_name: "v".into(), data_type: ColumnType::Int8 }],
    );
    let loader = loader_with(vec![test_table(), other]);
    let changes = vec![
        change("other", vec![field("v", "-1")]),
        change("test", vec![field("test", "5")]),
        change("other", vec![field("v", "2")]),
    ];
    let batches = loader.process_final_blocks(&block_with_changes(changes)).unwrap();
    assert_eq!(batches.len(), 2);
    assert_eq!(batches[0].table, "other");
    assert_eq!(batches[0].rows, vec![vec![Cell::Int8(-1)], vec![Cell::Int8(2)]]);
    assert_eq!(batches[1].table, "test");
    assert_eq!(batches[1].rows, vec![vec![Cell::UInt64(5)]]);
}

#[test]
fn bad_payload_is_a_decode_error() {
    let loader = loader_with(vec![test_table()]);
    let data = BlockScopedData::new(Clock::new("x".into(), 1), 1, "c".into(), vec![0xff, 0xff]);
    assert_eq!(loader.process_final_blocks(&data).unwrap_err(), ElricError::DecodeError);
}

#[test]
fn unknown_table_is_reported() {
    let loader = loader_with(vec![test_table()]);
    let data = block_with_changes(vec![change("missing", vec![field("test", "1")])]);
    assert_eq!(
        loader.process_final_blocks(&data).unwrap_err(),
        ElricError::TableNotFound("missing".into())
    );
}

#[test]
fn row_without_a_column_value_is_refused() {
    let loader = loader_with(vec![test_table()]);
    let data = block_with_changes(vec![change("test", vec![field("other", "1")])]);
    assert_eq!(
        loader.process_final_blocks(&data).unwrap_err(),
        ElricError::ParseError(RowError::MissingColumn("test".into()))
    );
}

#[test]
fn row_with_a_bad_value_is_refused() {
    let loader = loader_with(vec![test_table()]);
    let data = block_with_changes(vec![change("test", vec![field("test", "x1")])]);
    assert_eq!(
        loader.process_final_blocks(&data).unwrap_err(),
        ElricError::ParseError(RowError::Codec("test".into(), elric::CodecError::InvalidValue))
    );
}

#[test]
fn unsupported_column_fails_at_startup() {
    let table = DynamicTable::new(
        "t",
        vec![ColumnInfo { column_name: "d".into(), data_type: ColumnType::Date }],
    );
    assert!(matches!(
        DatabaseLoader::new("w".into(), vec![table]),
        Err(ElricError::LoadSchemaError)
    ));
}

#[test]
fn cursor_is_persisted_for_the_block() {
    let mut loader = loader_with(vec![]);
    let c = loader.persist_cursor("cur".into(), 100, "blk".into()).unwrap();
    assert_eq!(c.id(), "test");
    assert_eq!(c.cursor(), "cur");
    assert_eq!(c.block_num(), 100);
    assert_eq!(c.block_id(), "blk");
}

#[test]
fn cursor_never_moves_back() {
    let mut loader = loader_with(vec![]);
    assert!(loader.persist_cursor("a".into(), 100, "x".into()).is_ok());
    assert!(loader.persist_cursor("b".into(), 100, "x".into()).is_ok());
    assert_eq!(
        loader.persist_cursor("c".into(), 99, "y".into()).unwrap_err(),
        ElricError::CursorRegression
    );
    assert!(loader.persist_cursor("d".into(), 101, "z".into()).is_ok());
}

#[test]
fn restart_replays_the_next_block_and_stores_its_cursor_once() {
    let mut loader = loader_with(vec![]).resume_after(100);
    assert_eq!(
        loader.persist_cursor("old".into(), 99, "x".into()).unwrap_err(),
        ElricError::CursorRegression
    );
    let emitted = loader.process_block_scoped_data(block(101, 101));
    assert_eq!(emitted.len(), 1);
    let c = loader.persist_cursor(emitted[0].cursor.clone(), 101, emitted[0].clock.id.clone());
    assert_eq!(c.unwrap().block_num(), 101);
}
