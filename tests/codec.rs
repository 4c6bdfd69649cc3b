use elric::{
    encode_value, Cell, CodecError, ColumnInfo, ColumnType, DynamicInsert, DynamicTable, RowError,
};

#[test]
fn string_is_kept_as_is() {
    assert_eq!(encode_value(&ColumnType::String, "héllo"), Ok(Cell::String("héllo".into())));
}

#[test]
fn fixed_string_is_cut_or_padded() {
    assert_eq!(
        encode_value(&ColumnType::FixedString(4), "ab"),
        Ok(Cell::FixedString(vec![b'a', b'b', 0, 0]))
    );
    assert_eq!(
        encode_value(&ColumnType::FixedString(2), "abcd"),
        Ok(Cell::FixedString(vec![b'a', b'b']))
    );
    assert_eq!(encode_value(&ColumnType::FixedString(0), "abcd"), Ok(Cell::FixedString(vec![])));
}

#[test]
fn unsigned_integers_parse_within_range() {
    assert_eq!(encode_value(&ColumnType::UInt8, "255"), Ok(Cell::UInt8(255)));
    assert_eq!(encode_value(&ColumnType::UInt8, "256"), Err(CodecError::InvalidValue));
    assert_eq!(encode_value(&ColumnType::UInt16, "+65535"), Ok(Cell::UInt16(65535)));
    assert_eq!(encode_value(&ColumnType::UInt32, "4294967295"), Ok(Cell::UInt32(u32::MAX)));
    assert_eq!(encode_value(&ColumnType::UInt64, "18446744073709551615"), Ok(Cell::UInt64(u64::MAX)));
    assert_eq!(encode_value(&ColumnType::UInt64, "18446744073709551616"), Err(CodecError::InvalidValue));
    assert_eq!(
        encode_value(&ColumnType::UInt128, "340282366920938463463374607431768211455"),
        Ok(Cell::UInt128(u128::MAX))
    );
    assert_eq!(
        encode_value(&ColumnType::UInt128, "340282366920938463463374607431768211456"),
        Err(CodecError::InvalidValue)
    );
    assert_eq!(encode_value(&ColumnType::UInt32, "-0"), Err(CodecError::InvalidValue));
    assert_eq!(encode_value(&ColumnType::UInt32, ""), Err(CodecError::InvalidValue));
    assert_eq!(encode_value(&ColumnType::UInt32, "+"), Err(CodecError::InvalidValue));
    assert_eq!(encode_value(&ColumnType::UInt32, "1 "), Err(CodecError::InvalidValue));
}

#[test]
fn signed_integers_parse_within_range() {
    assert_eq!(encode_value(&ColumnType::Int8, "-128"), Ok(Cell::Int8(-128)));
    assert_eq!(encode_value(&ColumnType::Int8, "127"), Ok(Cell::Int8(127)));
    assert_eq!(encode_value(&ColumnType::Int8, "128"), Err(CodecError::InvalidValue));
    assert_eq!(encode_value(&ColumnType::Int8, "-129"), Err(CodecError::InvalidValue));
    assert_eq!(encode_value(&ColumnType::Int16, "-0"), Ok(Cell::Int16(0)));
    assert_eq!(encode_value(&ColumnType::Int32, "-2147483648"), Ok(Cell::Int32(i32::MIN)));
    assert_eq!(encode_value(&ColumnType::Int64, "-9223372036854775808"), Ok(Cell::Int64(i64::MIN)));
    assert_eq!(
        encode_value(&ColumnType::Int128, "-170141183460469231731687303715884105728"),
        Ok(Cell::Int128(i128::MIN))
    );
    assert_eq!(
        encode_value(&ColumnType::Int128, "170141183460469231731687303715884105728"),
        Err(CodecError::InvalidValue)
    );
    assert_eq!(encode_value(&ColumnType::Int32, "-"), Err(CodecError::InvalidValue));
}

#[test]
fn integers_agree_with_std_parsing() {
    for text in ["0", "42", "+7", "-7", "", "-", "+", "1a", "007", "-0", "99999999999"] {
        assert_eq!(
            encode_value(&ColumnType::UInt32, text).ok(),
            text.parse::<u32>().ok().map(Cell::UInt32)
        );
        assert_eq!(
            encode_value(&ColumnType::Int32, text).ok(),
            text.parse::<i32>().ok().map(Cell::Int32)
        );
    }
}

#[test]
fn wide_integers_become_little_endian_limbs() {
    assert_eq!(encode_value(&ColumnType::UInt256, "100"), Ok(Cell::UInt256([100, 0, 0, 0])));
    assert_eq!(
        encode_value(&ColumnType::UInt256, "18446744073709551616"),
        Ok(Cell::UInt256([0, 1, 0, 0]))
    );
    assert_eq!(encode_value(&ColumnType::Int256, "5"), Ok(Cell::UInt256([5, 0, 0, 0])));
    assert_eq!(encode_value(&ColumnType::UInt256, "-5"), Err(CodecError::InvalidValue));
    let max = "115792089237316195423570985008687907853269984665640564039457584007913129639935";
    assert_eq!(encode_value(&ColumnType::UInt256, max), Ok(Cell::UInt256([u64::MAX; 4])));
    let over = "115792089237316195423570985008687907853269984665640564039457584007913129639936";
    assert_eq!(encode_value(&ColumnType::UInt256, over), Err(CodecError::InvalidValue));
}

#[test]
fn bool_accepts_exactly_true_and_false() {
    assert_eq!(encode_value(&ColumnType::Bool, "true"), Ok(Cell::Bool(true)));
    assert_eq!(encode_value(&ColumnType::Bool, "false"), Ok(Cell::Bool(false)));
    assert_eq!(encode_value(&ColumnType::Bool, "True"), Err(CodecError::InvalidValue));
    assert_eq!(encode_value(&ColumnType::Bool, "1"), Err(CodecError::InvalidValue));
}

#[test]
fn datetime_is_unix_seconds() {
    assert_eq!(
        encode_value(&ColumnType::DateTime, "2023-08-04T13:53:29+00:00"),
        Ok(Cell::DateTime(1691157209))
    );
    assert_eq!(
        encode_value(&ColumnType::DateTime, "2023-08-04T15:53:29+02:00"),
        Ok(Cell::DateTime(1691157209))
    );
    assert_eq!(encode_value(&ColumnType::DateTime, "yesterday"), Err(CodecError::InvalidValue));
}

#[test]
fn floats_keep_their_text() {
    assert_eq!(encode_value(&ColumnType::Float32, "1.5"), Ok(Cell::Float32("1.5".into())));
    assert_eq!(encode_value(&ColumnType::Float64, "-2e3"), Ok(Cell::Float64("-2e3".into())));
}

#[test]
fn unsupported_types_are_refused() {
    for t in [
        ColumnType::Date,
        ColumnType::LowCardinality,
        ColumnType::Decimal,
        ColumnType::Nullable(Box::new(ColumnType::String)),
    ] {
        assert_eq!(encode_value(&t, "1"), Err(CodecError::UnsupportedType));
    }
}

#[test]
fn descriptors_parse_into_types() {
    assert_eq!(ColumnType::parse("UInt64"), Some(ColumnType::UInt64));
    assert_eq!(ColumnType::parse("String"), Some(ColumnType::String));
    assert_eq!(ColumnType::parse("FixedString(40)"), Some(ColumnType::FixedString(40)));
    assert_eq!(ColumnType::parse("FixedString()"), None);
    assert_eq!(ColumnType::parse("FixedString(4"), None);
    assert_eq!(
        ColumnType::parse("Nullable(Int32)"),
        Some(ColumnType::Nullable(Box::new(ColumnType::Int32)))
    );
    assert_eq!(ColumnType::parse("DateTime('UTC')"), Some(ColumnType::DateTime));
    assert_eq!(ColumnType::parse("Decimal(18, 4)"), Some(ColumnType::Decimal));
    assert_eq!(ColumnType::parse("LowCardinality(String)"), Some(ColumnType::LowCardinality));
    assert_eq!(ColumnType::parse("Date"), Some(ColumnType::Date));
    assert_eq!(ColumnType::parse("Int256"), Some(ColumnType::Int256));
    assert_eq!(ColumnType::parse("Array(UInt8)"), None);
    assert_eq!(ColumnType::parse(""), None);
}

#[test]
fn support_is_known_per_type() {
    assert!(ColumnType::UInt8.is_supported());
    assert!(ColumnType::FixedString(3).is_supported());
    assert!(!ColumnType::Date.is_supported());
    assert!(!ColumnType::Nullable(Box::new(ColumnType::UInt8)).is_supported());
}

fn two_column_table() -> DynamicTable {
    DynamicTable::new(
        "t",
        vec![
            ColumnInfo { column_name: "a".into(), data_type: ColumnType::UInt8 },
            ColumnInfo { column_name: "b".into(), data_type: ColumnType::String },
        ],
    )
}

#[test]
fn insert_encodes_columns_in_table_order() {
    let data = vec![("b".to_string(), "x".to_string()), ("a".to_string(), "7".to_string())];
    let row = DynamicInsert::new(two_column_table(), data);
    assert_eq!(row.encode(), Ok(vec![Cell::UInt8(7), Cell::String("x".into())]));
}

#[test]
fn later_value_of_a_name_wins() {
    let data = vec![
        ("a".to_string(), "1".to_string()),
        ("b".to_string(), "x".to_string()),
        ("a".to_string(), "2".to_string()),
    ];
    let row = DynamicInsert::new(two_column_table(), data);
    assert_eq!(row.encode(), Ok(vec![Cell::UInt8(2), Cell::String("x".into())]));
}

#[test]
fn insert_reports_the_first_failing_column() {
    let data = vec![("a".to_string(), "300".to_string())];
    let row = DynamicInsert::new(two_column_table(), data);
    assert_eq!(row.encode(), Err(RowError::Codec("a".into(), CodecError::InvalidValue)));
    let data = vec![("a".to_string(), "3".to_string())];
    let row = DynamicInsert::new(two_column_table(), data);
    assert_eq!(row.encode(), Err(RowError::MissingColumn("b".into())));
}

#[test]
fn table_lists_its_column_names() {
    assert_eq!(two_column_table().get_columns(), vec!["a".to_string(), "b".to_string()]);
}

#[test]
fn catalog_columns_are_sorted_by_name() {
    let table = DynamicTable::from_catalog(
        "t",
        vec![
            ColumnInfo { column_name: "to".into(), data_type: ColumnType::String },
            ColumnInfo { column_name: "from".into(), data_type: ColumnType::String },
            ColumnInfo { column_name: "Value".into(), data_type: ColumnType::UInt256 },
            ColumnInfo { column_name: "evt_index".into(), data_type: ColumnType::UInt32 },
        ],
    );
    assert_eq!(table.table_name, "t");
    assert_eq!(table.get_columns(), vec!["Value", "evt_index", "from", "to"]);
    assert_eq!(table.column_info[0].data_type, ColumnType::UInt256);
}

#[test]
fn sort_keeps_every_column() {
    let sorted = elric::sort_columns(vec![
        ColumnInfo { column_name: "b".into(), data_type: ColumnType::UInt8 },
        ColumnInfo { column_name: "a".into(), data_type: ColumnType::UInt16 },
        ColumnInfo { column_name: "b".into(), data_type: ColumnType::UInt32 },
        ColumnInfo { column_name: "ab".into(), data_type: ColumnType::Bool },
    ]);
    let names: Vec<&str> = sorted.iter().map(|c| c.column_name.as_str()).collect();
    assert_eq!(names, vec!["a", "ab", "b", "b"]);
    assert_eq!(sorted[2].data_type, ColumnType::UInt8);
    assert_eq!(sorted[3].data_type, ColumnType::UInt32);
}

#[test]
fn decimal_text_reads_back_as_its_value() {
    for v in [0u64, 7, 10, 255, 65535, 1 << 40, u64::MAX] {
        assert_eq!(encode_value(&ColumnType::UInt64, &v.to_string()), Ok(Cell::UInt64(v)));
    }
    for v in [0i64, -1, 1, i64::MIN, i64::MAX] {
        assert_eq!(encode_value(&ColumnType::Int64, &v.to_string()), Ok(Cell::Int64(v)));
    }
    assert_eq!(elric::parse_uint(b"300", 255), None);
    assert_eq!(elric::parse_uint(b"255", 255), Some(255));
    assert_eq!(elric::parse_int(b"-300", -128, 127), None);
    assert_eq!(elric::parse_int(b"-128", -128, 127), Some(-128));
}
