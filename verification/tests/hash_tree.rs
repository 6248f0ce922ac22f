//! Reading the blocks of a time series family and putting the hash tree together.
use blake3::Hasher;
use chrono::NaiveDateTime;
use cnosdb::block::{hash_partial_datablock, DataBlock};
use cnosdb::error::{Error, SchemaError};
use cnosdb::family::{finish_hash_tree, get_ts_family_hash_tree, require_ts_family};
use cnosdb::node::{hash_to_string, TableHashTreeNode, TimeRangeHashTreeNode};
use cnosdb::scan::{
    read_from_compact_iterator, CompactingBlock, FieldEntry, FieldHashes, HashScan, NextBlock,
};
use cnosdb::schema::{
    split_id, ColumnNames, ColumnType, FieldId, TableColumn, TableSchema, ValueType,
};
use cnosdb::time::{calc_block_partial_time_range, DatabaseSchema, TimeRange, Timestamp};
use cnosdb::tree::build_hash_tree;
use std::collections::HashMap;

fn parse_nanos(datetime: &str) -> Timestamp {
    NaiveDateTime::parse_from_str(datetime, "%Y-%m-%d %H:%M:%S")
        .unwrap()
        .and_utc()
        .timestamp_nanos_opt()
        .unwrap()
}

fn column(id: u32, name: &str, column_type: ColumnType) -> TableColumn {
    TableColumn { id, name: name.to_string(), column_type }
}

fn table(name: &str, columns: Vec<TableColumn>) -> TableSchema {
    TableSchema { table: name.to_string(), columns: Ok(Some(columns)) }
}

fn field(column_id: u32, series_id: u32) -> FieldId {
    (FieldId::from(column_id) << 32) | FieldId::from(series_id)
}

fn block(field_id: FieldId, data_block: DataBlock) -> NextBlock {
    Ok(CompactingBlock::DataBlock { field_id, data_block })
}

fn numbers(ts: &[Timestamp], val: &[u64]) -> DataBlock {
    DataBlock::U64 { ts: ts.to_vec(), val: val.to_vec() }
}

fn bytes(val: &[u64]) -> Vec<u8> {
    val.iter().flat_map(|v| v.to_be_bytes()).collect()
}

fn hash(input: &[u8]) -> [u8; 32] {
    blake3::hash(input).into()
}

fn failure(reason: &str) -> SchemaError {
    SchemaError { reason: reason.to_string() }
}

/// Two tables: columns 1 and 2 of `a`, column 7 of `b`.
fn two_tables() -> Vec<TableSchema> {
    let any = ColumnType::Field(ValueType::Unsigned);
    vec![
        table(
            "a",
            vec![
                column(0, "time", ColumnType::Time),
                column(1, "x", any),
                column(2, "y", any),
                column(3, "host", ColumnType::Tag),
            ],
        ),
        TableSchema { table: "gone".to_string(), columns: Ok(None) },
        table("b", vec![column(7, "z", any)]),
    ]
}

fn names() -> ColumnNames {
    ColumnNames::from_tables(&two_tables()).unwrap()
}

fn read(blocks: Vec<NextBlock>) -> (FieldHashes, HashMap<u32, usize>) {
    read_from_compact_iterator(&blocks, 1, 100, &names()).unwrap()
}

fn ranges_of(hashes: &FieldHashes, i: usize) -> Vec<(Timestamp, Timestamp, [u8; 32])> {
    hashes.entries()[i].hashes.iter().map(|(r, h)| (r.min_ts, r.max_ts, *h)).collect()
}

fn tree_of(blocks: Vec<NextBlock>) -> Vec<TableHashTreeNode> {
    let (hashes, counts) = read(blocks);
    build_hash_tree(hashes.entries(), counts, names())
}

fn nodes(values: &[TimeRangeHashTreeNode]) -> Vec<(Timestamp, Timestamp, [u8; 32])> {
    values.iter().map(|v| (v.min_ts, v.max_ts, v.hash)).collect()
}

const TIME_COL_NAME: &str = "time";
const U64_COL_NAME: &str = "col_u64";
const I64_COL_NAME: &str = "col_i64";
const F64_COL_NAME: &str = "col_f64";
const STR_COL_NAME: &str = "col_str";
const BOOL_COL_NAME: &str = "col_bool";

fn sample_blocks() -> Vec<DataBlock> {
    let timestamps = vec![
        parse_nanos("2023-01-01 00:01:00"),
        parse_nanos("2023-01-01 00:02:00"),
        parse_nanos("2023-01-01 00:03:00"),
        parse_nanos("2023-02-01 00:01:00"),
        parse_nanos("2023-02-01 00:02:00"),
        parse_nanos("2023-02-01 00:03:00"),
    ];
    let floats: Vec<u64> =
        [1.0, 2.0, 3.0, 4.0, 5.0, 6.0].iter().map(|v: &f64| v.to_bits()).collect();
    let texts: Vec<Vec<u8>> =
        ["1", "2", "3", "4", "5", "6"].iter().map(|v| v.as_bytes().to_vec()).collect();
    vec![
        DataBlock::U64 { ts: timestamps.clone(), val: vec![1, 2, 3, 4, 5, 6] },
        DataBlock::I64 { ts: timestamps.clone(), val: vec![1, 2, 3, 4, 5, 6] },
        DataBlock::F64 { ts: timestamps.clone(), val: floats },
        DataBlock::Str { ts: timestamps.clone(), val: texts },
        DataBlock::Bool { ts: timestamps, val: vec![true, false, true, false, true, false] },
    ]
}

fn data_block_to_hash_tree(
    data_block: &DataBlock,
    time_range_nanosec: i64,
) -> Vec<(TimeRange, [u8; 32])> {
    let mut tr_hashes: Vec<(TimeRange, [u8; 32])> = Vec::new();
    let mut hasher = Hasher::new();
    if let Some(blk_time_range) = data_block.time_range() {
        let (min_ts, max_ts) = calc_block_partial_time_range(
            blk_time_range.0,
            time_range_nanosec,
            time_range_nanosec,
        )
        .unwrap();
        if blk_time_range.1 > max_ts {
            let min_idx = hash_partial_datablock(&mut hasher, data_block, 0, max_ts);
            tr_hashes.push((TimeRange::new(min_ts, max_ts), hasher.finalize().into()));
            hasher.reset();
            hash_partial_datablock(&mut hasher, data_block, min_idx, Timestamp::MIN);
            tr_hashes
                .push((TimeRange::new(max_ts, blk_time_range.1), hasher.finalize().into()));
        } else {
            hash_partial_datablock(&mut hasher, data_block, 0, Timestamp::MIN);
            tr_hashes.push((TimeRange::new(min_ts, max_ts), hasher.finalize().into()));
        }
    }
    tr_hashes.into_iter().map(|(tr, h)| (tr, hash(&h))).collect()
}

#[test]
fn the_tree_of_a_table_with_one_block_per_column() {
    let columns = vec![
        column(0, TIME_COL_NAME, ColumnType::Time),
        column(1, U64_COL_NAME, ColumnType::Field(ValueType::Unsigned)),
        column(2, I64_COL_NAME, ColumnType::Field(ValueType::Integer)),
        column(3, F64_COL_NAME, ColumnType::Field(ValueType::Float)),
        column(4, STR_COL_NAME, ColumnType::Field(ValueType::String)),
        column(5, BOOL_COL_NAME, ColumnType::Field(ValueType::Boolean)),
    ];
    let year = 365 * 24 * 3600 * 1_000_000_000;
    let mut blocks: Vec<NextBlock> = Vec::new();
    let mut column_id = 0;
    for data_block in sample_blocks() {
        column_id += 1;
        blocks.push(block(field(column_id, 1), data_block));
    }
    let trees = get_ts_family_hash_tree(
        Some(1),
        1,
        Ok(vec![table("test_table", columns)]),
        Ok(DatabaseSchema { ttl_nanos: Some(year) }),
        &blocks,
    )
    .unwrap();

    assert_eq!(trees.len(), 1);
    assert_eq!(trees[0].table, "test_table");
    assert_eq!(trees[0].columns.len(), 5);
    let column_names =
        [U64_COL_NAME, I64_COL_NAME, F64_COL_NAME, STR_COL_NAME, BOOL_COL_NAME];
    for (i, data_block) in sample_blocks().iter().enumerate() {
        let col = trees[0].columns.iter().find(|c| c.column == column_names[i]).unwrap();
        let expected = data_block_to_hash_tree(data_block, year / 1000);
        assert_eq!(expected.len(), 2);
        assert_eq!(col.values.len(), expected.len());
        for (a, b) in col.values.iter().zip(expected.iter()) {
            assert_eq!(a.min_ts, b.0.min_ts);
            assert_eq!(a.max_ts, b.0.max_ts);
            assert_eq!(a.hash, b.1);
        }
    }
}

#[test]
fn the_halves_of_a_field_id() {
    assert_eq!(split_id(field(5, 9)), (5, 9));
    assert_eq!(split_id(0), (0, 0));
    assert_eq!(split_id(u64::MAX), (u32::MAX, u32::MAX));
}

#[test]
fn only_fields_have_names() {
    let names = names();
    for id in [1, 2, 7] {
        assert!(names.contains(id));
    }
    for id in [0, 3, 4] {
        assert!(!names.contains(id));
    }
    assert_eq!(names.names[&7].table, "b");
    assert_eq!(names.names[&2].column, "y");
}

#[test]
fn a_later_column_takes_the_place_of_an_earlier_one() {
    let any = ColumnType::Field(ValueType::Boolean);
    let mut names = names();
    names.add_table(&"c".to_string(), &vec![column(7, "w", any), column(1, "t", ColumnType::Tag)]);
    assert_eq!(names.names[&7].table, "c");
    assert_eq!(names.names[&7].column, "w");
    assert_eq!(names.names[&1].table, "a");
}

#[test]
fn the_first_schema_error_counts() {
    let mut tables = two_tables();
    tables.push(TableSchema { table: "p".to_string(), columns: Err(failure("first")) });
    tables.push(TableSchema { table: "q".to_string(), columns: Err(failure("second")) });
    let res = ColumnNames::from_tables(&tables);
    assert!(matches!(res, Err(Error::Schema { source }) if source.reason == "first"));
}

#[test]
fn a_block_within_its_range_gives_one_hash() {
    let (hashes, counts) = read(vec![block(field(1, 1), numbers(&[105, 150], &[8, 9]))]);
    assert_eq!(hashes.entries().len(), 1);
    assert_eq!(hashes.entries()[0].field_id, field(1, 1));
    assert_eq!(ranges_of(&hashes, 0), vec![(100, 200, hash(&bytes(&[8, 9])))]);
    assert_eq!(counts, HashMap::from([(1, 1)]));
}

#[test]
fn a_block_that_ends_where_its_range_ends_is_not_cut() {
    let (hashes, _) = read(vec![block(field(1, 1), numbers(&[105, 200], &[8, 9]))]);
    assert_eq!(ranges_of(&hashes, 0), vec![(100, 200, hash(&bytes(&[8, 9])))]);
}

#[test]
fn a_block_beyond_its_range_is_cut_once() {
    let (hashes, _) =
        read(vec![block(field(1, 1), numbers(&[105, 199, 200, 420], &[1, 2, 3, 4]))]);
    assert_eq!(
        ranges_of(&hashes, 0),
        vec![(100, 200, hash(&bytes(&[1, 2]))), (200, 420, hash(&bytes(&[3, 4])))]
    );
}

#[test]
fn blocks_of_one_range_are_hashed_together() {
    let parts = read(vec![
        block(field(1, 1), numbers(&[105, 106], &[1, 2])),
        block(field(1, 1), numbers(&[107], &[3])),
        block(field(1, 1), numbers(&[160, 200], &[4, 5])),
    ]);
    let whole = read(vec![block(field(1, 1), numbers(&[105, 106, 107, 160, 200], &[1, 2, 3, 4, 5]))]);
    assert_eq!(ranges_of(&parts.0, 0), ranges_of(&whole.0, 0));
    assert_eq!(ranges_of(&parts.0, 0), vec![(100, 200, hash(&bytes(&[1, 2, 3, 4, 5])))]);
    assert_eq!(parts.1, HashMap::from([(1, 3)]));
}

#[test]
fn a_later_block_of_a_field_takes_the_range() {
    let (hashes, _) = read(vec![
        block(field(1, 1), numbers(&[105], &[1])),
        block(field(1, 1), numbers(&[305], &[2])),
    ]);
    assert_eq!(ranges_of(&hashes, 0), vec![(300, 400, hash(&bytes(&[1, 2])))]);
}

#[test]
fn each_field_gets_its_own_hashes() {
    let (hashes, counts) = read(vec![
        block(field(1, 1), numbers(&[105], &[1])),
        block(field(7, 4), numbers(&[110, 230], &[2, 3])),
        block(field(1, 2), numbers(&[120], &[4])),
    ]);
    let fields: Vec<FieldId> = hashes.entries().iter().map(|e| e.field_id).collect();
    assert_eq!(fields, vec![field(1, 1), field(7, 4), field(1, 2)]);
    assert_eq!(ranges_of(&hashes, 0), vec![(100, 200, hash(&bytes(&[1])))]);
    assert_eq!(
        ranges_of(&hashes, 1),
        vec![(100, 200, hash(&bytes(&[2]))), (200, 230, hash(&bytes(&[3])))]
    );
    assert_eq!(ranges_of(&hashes, 2), vec![(100, 200, hash(&bytes(&[4])))]);
    assert_eq!(counts, HashMap::from([(1, 2), (7, 1)]));
}

#[test]
fn blocks_without_a_name_or_undecoded_are_passed_over() {
    let (hashes, counts) = read(vec![
        block(field(3, 1), numbers(&[105], &[1])),
        Ok(CompactingBlock::Raw),
        block(field(2, 1), numbers(&[105], &[1])),
        block(field(99, 1), numbers(&[105], &[1])),
    ]);
    assert_eq!(hashes.entries().len(), 1);
    assert_eq!(hashes.entries()[0].field_id, field(2, 1));
    assert_eq!(counts, HashMap::from([(2, 1)]));
}

#[test]
fn an_empty_block_is_counted_and_stores_what_waits() {
    let (hashes, counts) = read(vec![
        block(field(1, 1), numbers(&[105], &[1])),
        block(field(2, 1), numbers(&[], &[])),
    ]);
    assert_eq!(hashes.entries().len(), 1);
    assert_eq!(
        ranges_of(&hashes, 0),
        vec![(100, 200, hash(&bytes(&[1]))), (100, 200, hash(&[]))]
    );
    assert_eq!(counts, HashMap::from([(1, 1), (2, 1)]));
    assert_eq!(
        hash_to_string(hashes.entries()[0].hashes[1].1),
        "af1349b9f5f9a1a6a0404dea36dcc9499bcb25c9adc112b7cc9a93cae41f3262"
    );
}

#[test]
fn nothing_read_nothing_stored() {
    let (hashes, counts) = HashScan::new(3, 100).finish();
    assert_eq!(hashes.entries().len(), 0);
    assert!(counts.is_empty());
}

#[test]
fn step_by_step_gives_the_same() {
    let blocks = vec![
        block(field(1, 1), numbers(&[105, 250], &[1, 2])),
        block(field(2, 1), numbers(&[110], &[3])),
    ];
    let mut scan = HashScan::new(1, 100);
    for next in &blocks {
        assert!(scan.accepts(next, &names()));
        scan = match scan.step(next, &names()) {
            Ok(scan) => scan,
            Err(e) => panic!("{:?}", e),
        };
    }
    let tables = finish_hash_tree(scan, names());
    assert_eq!(tables.len(), 1);
    let columns: Vec<&str> = tables[0].columns.iter().map(|c| c.column.as_str()).collect();
    assert_eq!(columns, vec!["x", "y"]);

    let mut scan = HashScan::new(1, 100);
    for next in &blocks {
        scan = match scan.step(next, &names()) {
            Ok(scan) => scan,
            Err(e) => panic!("{:?}", e),
        };
    }
    let (hashes, counts) = scan.finish();
    let (expected, expected_counts) = read(blocks);
    assert_eq!(hashes.entries().len(), expected.entries().len());
    for i in 0..hashes.entries().len() {
        assert_eq!(ranges_of(&hashes, i), ranges_of(&expected, i));
    }
    assert_eq!(counts, expected_counts);
}

#[test]
fn a_block_whose_range_overflows_is_not_accepted() {
    let scan = HashScan::new(1, 1_000_000_000);
    let late = block(field(1, 1), numbers(&[i64::MAX], &[1]));
    assert!(!scan.accepts(&late, &names()));
    let unnamed = block(field(3, 1), numbers(&[i64::MAX], &[1]));
    assert!(scan.accepts(&unnamed, &names()));
    let early = block(field(1, 1), numbers(&[-9_223_372_036_000_000_000], &[1]));
    assert!(scan.accepts(&early, &names()));
    assert!(!HashScan::new(1, 7_000_000_001).accepts(&early, &names()));
    assert!(HashScan::new(1, 0).accepts(&late, &names()));
    assert!(scan.accepts(&Err("cut".to_string()), &names()));
}

#[test]
fn the_order_of_the_fields_decides_how_series_are_joined() {
    let entry = |series: u32, value: u64| FieldEntry {
        field_id: field(1, series),
        hashes: vec![(TimeRange::new(100, 200), hash(&bytes(&[value])))],
    };
    let counts = || HashMap::from([(1, 2)]);
    let forward = build_hash_tree(&vec![entry(1, 8), entry(2, 9)], counts(), names());
    let backward = build_hash_tree(&vec![entry(2, 9), entry(1, 8)], counts(), names());
    let joined = [hash(&bytes(&[8])), hash(&bytes(&[9]))].concat();
    assert_eq!(forward[0].columns[0].values[0].hash, hash(&joined));
    let joined = [hash(&bytes(&[9])), hash(&bytes(&[8]))].concat();
    assert_eq!(backward[0].columns[0].values[0].hash, hash(&joined));
}

#[test]
fn the_order_of_the_columns_does_not_matter() {
    let entry = |column: u32, value: u64| FieldEntry {
        field_id: field(column, 1),
        hashes: vec![(TimeRange::new(100, 200), hash(&bytes(&[value])))],
    };
    let counts = || HashMap::from([(1, 1), (2, 1)]);
    let forward = build_hash_tree(&vec![entry(1, 8), entry(2, 9)], counts(), names());
    let backward = build_hash_tree(&vec![entry(2, 9), entry(1, 8)], counts(), names());
    assert_eq!(forward[0].table, backward[0].table);
    for (i, j) in [(0, 1), (1, 0)] {
        let (a, b) = (&forward[0].columns[i], &backward[0].columns[j]);
        assert_eq!(a.column, b.column);
        assert_eq!(nodes(&a.values), nodes(&b.values));
    }
}

#[test]
fn the_first_error_ends_the_reading() {
    let second = 1_000_000_000;
    let blocks = vec![
        block(field(1, 1), numbers(&[105], &[1])),
        Err("Decode { source: Eof }".to_string()),
        block(field(1, 1), numbers(&[-1], &[1])),
    ];
    match read_from_compact_iterator(&blocks, 42, second, &names()) {
        Err(Error::CommonError { reason }) => assert_eq!(
            reason,
            "error getting hashes for ts_family 42 when compacting: Decode { source: Eof }"
        ),
        _ => panic!("the second block cannot be read"),
    }
    let blocks = vec![block(field(1, 1), numbers(&[-1], &[1])), Err("later".to_string())];
    match read_from_compact_iterator(&blocks, 42, second, &names()) {
        Err(Error::Transform { reason }) => {
            assert_eq!(reason, "error parsing timestamp to NaiveDateTime: -1")
        }
        _ => panic!("the first block has no time range"),
    }
}

#[test]
fn tables_come_with_their_columns() {
    let tables = tree_of(vec![
        block(field(7, 1), numbers(&[105], &[1])),
        block(field(1, 1), numbers(&[105], &[2])),
        block(field(2, 1), numbers(&[105], &[3])),
    ]);
    assert_eq!(tables.len(), 2);
    assert_eq!(tables[0].table, "b");
    assert_eq!(tables[0].columns.len(), 1);
    assert_eq!(tables[1].table, "a");
    let columns: Vec<&str> = tables[1].columns.iter().map(|c| c.column.as_str()).collect();
    assert_eq!(columns, vec!["x", "y"]);
    assert_eq!(
        nodes(&tables[1].columns[1].values),
        vec![(100, 200, hash(&hash(&bytes(&[3]))))]
    );
}

#[test]
fn the_series_of_a_column_are_hashed_together_by_range() {
    let tables = tree_of(vec![
        block(field(1, 1), numbers(&[305], &[1])),
        block(field(1, 2), numbers(&[105, 210], &[2, 3])),
        block(field(1, 3), numbers(&[310], &[4])),
    ]);
    assert_eq!(tables.len(), 1);
    let both = [hash(&bytes(&[1])), hash(&bytes(&[4]))].concat();
    assert_eq!(
        nodes(&tables[0].columns[0].values),
        vec![
            (100, 200, hash(&hash(&bytes(&[2])))),
            (200, 210, hash(&hash(&bytes(&[3])))),
            (300, 400, hash(&both)),
        ]
    );
}

#[test]
fn a_column_with_more_blocks_than_fields_gets_no_node() {
    let tables = tree_of(vec![
        block(field(1, 1), numbers(&[105], &[1])),
        block(field(1, 1), numbers(&[106], &[2])),
        block(field(2, 1), numbers(&[105], &[3])),
    ]);
    assert_eq!(tables.len(), 1);
    assert_eq!(tables[0].columns.len(), 1);
    assert_eq!(tables[0].columns[0].column, "y");
}

#[test]
fn a_column_without_a_counter_gets_no_node() {
    let (hashes, _) = read(vec![block(field(1, 1), numbers(&[105], &[1]))]);
    assert_eq!(build_hash_tree(hashes.entries(), HashMap::new(), names()).len(), 0);
}

#[test]
fn what_fails_first_decides_the_error() {
    let schema = || Ok(DatabaseSchema { ttl_nanos: None });
    let blocks: Vec<NextBlock> = vec![Err("cut".to_string())];
    let res = get_ts_family_hash_tree(None, 12, Err(failure("list")), schema(), &blocks);
    assert!(
        matches!(res, Err(Error::InvalidParam { reason }) if reason == "can not find ts_family '12'")
    );
    let res = get_ts_family_hash_tree(Some(12), 12, Err(failure("list")), Err(failure("db")), &blocks);
    assert!(matches!(res, Err(Error::Schema { source }) if source.reason == "list"));
    let mut tables = two_tables();
    tables[2].columns = Err(failure("table"));
    let res = get_ts_family_hash_tree(Some(12), 12, Ok(tables), Err(failure("db")), &blocks);
    assert!(matches!(res, Err(Error::Schema { source }) if source.reason == "table"));
    let res = get_ts_family_hash_tree(Some(12), 12, Ok(two_tables()), Err(failure("db")), &blocks);
    assert!(matches!(res, Err(Error::Schema { source }) if source.reason == "db"));
    let res = get_ts_family_hash_tree(Some(12), 12, Ok(two_tables()), schema(), &blocks);
    assert!(matches!(res, Err(Error::CommonError { .. })));
    let res = get_ts_family_hash_tree(Some(12), 12, Ok(two_tables()), schema(), &vec![]);
    assert_eq!(res.unwrap().len(), 0);
}

#[test]
fn a_family_that_is_found_is_handed_on() {
    assert_eq!(require_ts_family(Some("family"), 4).unwrap(), "family");
    match require_ts_family::<u8>(None, u32::MAX) {
        Err(Error::InvalidParam { reason }) => {
            assert_eq!(reason, "can not find ts_family '4294967295'")
        }
        _ => panic!("there is no family"),
    }
}
