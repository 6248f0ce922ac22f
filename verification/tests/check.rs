//! Time ranges, the search for timestamps, and the hashing of blocks.
use blake3::Hasher;
use chrono::{Duration, NaiveDateTime};
use cnosdb::block::{find_timestamp, hash_partial_datablock, DataBlock};
use cnosdb::error::{Error, SchemaError};
use cnosdb::time::{
    calc_block_partial_time_range, check_time_range_fits, get_default_time_range, trunc_failure,
    DatabaseSchema, TimeRange, Timestamp, TruncError,
};

fn parse_nanos(datetime: &str) -> Timestamp {
    NaiveDateTime::parse_from_str(datetime, "%Y-%m-%d %H:%M:%S")
        .unwrap()
        .and_utc()
        .timestamp_nanos_opt()
        .unwrap()
}

fn get_args(datetime: &str) -> (Timestamp, i64, i64) {
    let timestamp = parse_nanos(datetime);
    let duration = Duration::minutes(30);
    let duration_nanos = duration.num_nanoseconds().unwrap();
    (timestamp, duration_nanos, duration_nanos)
}

#[test]
fn test_calc_blcok_time_range() {
    let (a, b, c) = get_args("2023-01-01 00:29:01");
    assert_eq!(
        (
            parse_nanos("2023-01-01 00:00:00"),
            parse_nanos("2023-01-01 00:30:00")
        ),
        calc_block_partial_time_range(a, b, c).unwrap(),
    );

    let (a, b, c) = get_args("2023-01-01 00:30:01");
    assert_eq!(
        (
            parse_nanos("2023-01-01 00:30:00"),
            parse_nanos("2023-01-01 01:00:00")
        ),
        calc_block_partial_time_range(a, b, c).unwrap(),
    );
}

#[test]
fn test_find_timestamp() {
    let timestamps = vec![
        parse_nanos("2023-01-01 00:01:00"),
        parse_nanos("2023-01-01 00:02:00"),
        parse_nanos("2023-01-01 00:03:00"),
        parse_nanos("2023-01-01 00:04:00"),
        parse_nanos("2023-01-01 00:05:00"),
    ];

    assert_eq!(
        0,
        find_timestamp(&timestamps, parse_nanos("2023-01-01 00:00:00")),
    );
    assert_eq!(
        3,
        find_timestamp(&timestamps, parse_nanos("2023-01-01 00:03:30"))
    );
    assert_eq!(
        3,
        find_timestamp(&timestamps, parse_nanos("2023-01-01 00:04:00"))
    );
    assert_eq!(
        5,
        find_timestamp(&timestamps, parse_nanos("2023-01-01 00:30:00"))
    );
    assert_eq!(5, find_timestamp(&timestamps, Timestamp::MIN),);
}

fn data_block_partial_to_bytes(data_block: &DataBlock, from: usize, to: usize) -> Vec<u8> {
    let mut ret: Vec<u8> = vec![];
    for i in from..to {
        let mut bytes = match data_block {
            DataBlock::U64 { val, .. } => val[i].to_be_bytes().to_vec(),
            DataBlock::I64 { val, .. } => val[i].to_be_bytes().to_vec(),
            DataBlock::F64 { val, .. } => f64::from_bits(val[i]).to_be_bytes().to_vec(),
            DataBlock::Str { val, .. } => val[i].clone(),
            DataBlock::Bool { val, .. } => vec![u8::from(val[i])],
        };
        ret.append(&mut bytes);
    }
    ret
}

fn float_bits(values: &[f64]) -> Vec<u64> {
    values.iter().map(|v| v.to_bits()).collect()
}

fn texts(values: &[&str]) -> Vec<Vec<u8>> {
    values.iter().map(|v| v.as_bytes().to_vec()).collect()
}

#[test]
fn test_hash_partial_datablock() {
    let timestamps = vec![
        parse_nanos("2023-01-01 00:01:00"),
        parse_nanos("2023-01-01 00:02:00"),
        parse_nanos("2023-01-01 00:03:00"),
        parse_nanos("2023-01-01 00:04:00"),
        parse_nanos("2023-01-01 00:05:00"),
        parse_nanos("2023-01-01 00:06:00"),
    ];
    let data_blocks = vec![
        DataBlock::U64 { ts: timestamps.clone(), val: vec![1, 2, 3, 4, 5, 6] },
        DataBlock::I64 { ts: timestamps.clone(), val: vec![1, 2, 3, 4, 5, 6] },
        DataBlock::Str {
            ts: timestamps.clone(),
            val: texts(&["1", "2", "3", "4", "5", "6"]),
        },
        DataBlock::F64 {
            ts: timestamps.clone(),
            val: float_bits(&[1.0, 2.0, 3.0, 4.0, 5.0, 6.0]),
        },
        DataBlock::Bool { ts: timestamps, val: vec![true, false, true, false, true, false] },
    ];

    for data_block in data_blocks {
        let mut hasher_blk = Hasher::new();
        let min_idx = hash_partial_datablock(
            &mut hasher_blk,
            &data_block,
            0,
            parse_nanos("2023-01-01 00:04:00"),
        );
        assert_eq!(3, min_idx);
        let mut hasher_cmp = Hasher::new();
        assert_eq!(
            hasher_cmp
                .update(data_block_partial_to_bytes(&data_block, 0, 3).as_slice())
                .finalize(),
            hasher_blk.finalize()
        );

        let mut hasher_blk = Hasher::new();
        let min_idx =
            hash_partial_datablock(&mut hasher_blk, &data_block, min_idx, Timestamp::MIN);
        assert_eq!(6, min_idx);
        let mut hasher_cmp = Hasher::new();
        assert_eq!(
            hasher_cmp
                .update(data_block_partial_to_bytes(&data_block, 3, 6).as_slice())
                .finalize(),
            hasher_blk.finalize()
        );
    }
}

#[test]
fn the_two_parts_of_a_block_give_its_bytes() {
    let block = DataBlock::I64 { ts: vec![10, 20, 30, 40], val: vec![-1, i64::MIN, 7, 0] };
    let mut parts = Hasher::new();
    let mid = hash_partial_datablock(&mut parts, &block, 0, 25);
    assert_eq!(mid, 2);
    hash_partial_datablock(&mut parts, &block, mid, Timestamp::MIN);
    let mut whole = Hasher::new();
    whole.update(&data_block_partial_to_bytes(&block, 0, 4));
    assert_eq!(parts.finalize(), whole.finalize());
}

#[test]
fn the_limit_counts_values_from_the_start_index() {
    // From position two on, the limit is four, and there are four values to hash.
    let block = DataBlock::U64 { ts: vec![1, 2, 3, 4, 5, 6], val: vec![1, 2, 3, 4, 5, 6] };
    let mut part = Hasher::new();
    assert_eq!(hash_partial_datablock(&mut part, &block, 2, 5), 4);
    let mut expected = Hasher::new();
    expected.update(&data_block_partial_to_bytes(&block, 2, 6));
    assert_eq!(part.finalize(), expected.finalize());
}

#[test]
fn a_block_may_lack_values() {
    let block = DataBlock::Bool { ts: vec![1, 2, 3], val: vec![true] };
    let mut hasher = Hasher::new();
    assert_eq!(hash_partial_datablock(&mut hasher, &block, 2, Timestamp::MIN), 3);
    assert_eq!(hasher.finalize(), Hasher::new().finalize());
    assert_eq!(hash_partial_datablock(&mut hasher, &block, 0, Timestamp::MIN), 3);
    let mut expected = Hasher::new();
    expected.update(&[1]);
    assert_eq!(hasher.finalize(), expected.finalize());
}

#[test]
fn a_hasher_with_a_key_keeps_it() {
    let key = [7u8; 32];
    let block = DataBlock::Str { ts: vec![1], val: texts(&["abc"]) };
    let mut hasher = Hasher::new_keyed(&key);
    hash_partial_datablock(&mut hasher, &block, 0, Timestamp::MIN);
    assert_eq!(hasher.finalize(), blake3::keyed_hash(&key, b"abc"));
}

#[test]
fn find_timestamp_agrees_with_the_standard_search() {
    let lists: Vec<Vec<Timestamp>> = vec![
        vec![],
        vec![5],
        vec![1, 2, 2, 2, 3],
        vec![1, 1, 1, 1],
        vec![-3, 0, 4, 4, 9, 12, 40],
    ];
    for list in lists {
        for target in -5..45 {
            let expected = match list.binary_search(&target) {
                Ok(i) => i,
                Err(i) => i,
            };
            let found = find_timestamp(&list, target);
            assert_eq!(found <= list.len(), true);
            assert_eq!(list.get(found) == Some(&target), list.contains(&target));
            assert_eq!(list[..found].iter().all(|t| *t <= target), true);
            assert_eq!(list[found..].iter().all(|t| *t >= target), true);
            assert_eq!(found, expected);
        }
    }
}

#[test]
fn the_time_range_of_a_block_is_its_first_and_last_timestamp() {
    assert_eq!(DataBlock::U64 { ts: vec![], val: vec![] }.time_range(), None);
    assert_eq!(DataBlock::U64 { ts: vec![3, 5, 9], val: vec![0, 0, 0] }.time_range(), Some((3, 9)));
}

fn reason(res: Result<(Timestamp, Timestamp), Error>) -> String {
    match res {
        Err(Error::Transform { reason }) => reason,
        other => panic!("{:?}", other),
    }
}

#[test]
fn ranges_before_the_epoch() {
    let second = 1_000_000_000;
    assert_eq!(
        calc_block_partial_time_range(-second, 3 * second, 3 * second).unwrap(),
        (-3 * second, 0)
    );
    assert_eq!(
        calc_block_partial_time_range(-3 * second, 3 * second, 5).unwrap(),
        (-3 * second, 5 - 3 * second)
    );
    assert_eq!(
        reason(calc_block_partial_time_range(-1, 3 * second, 3 * second)),
        "error parsing timestamp to NaiveDateTime: -1"
    );
    assert_eq!(
        reason(calc_block_partial_time_range(i64::MIN, second, second)),
        "error parsing timestamp to NaiveDateTime: -9223372036854775808"
    );
}

#[test]
fn a_range_that_is_not_positive_is_an_error() {
    assert_eq!(
        reason(calc_block_partial_time_range(0, 0, 0)),
        "error truncing timestamp 1970-01-01 00:00:00: DurationExceedsLimit"
    );
    assert_eq!(
        reason(calc_block_partial_time_range(1_672_531_741_500_000_000, -5, 5)),
        "error truncing timestamp 2023-01-01 00:09:01.500: DurationExceedsLimit"
    );
}

#[test]
fn why_a_time_could_not_be_cut() {
    let texts = [
        (TruncError::DurationExceedsTimestamp, "DurationExceedsTimestamp"),
        (TruncError::DurationExceedsLimit, "DurationExceedsLimit"),
        (TruncError::TimestampExceedsLimit, "TimestampExceedsLimit"),
    ];
    for (error, name) in texts {
        assert_eq!(
            reason(Err(trunc_failure("2023-01-01 00:00:00", error))),
            format!("error truncing timestamp 2023-01-01 00:00:00: {}", name)
        );
    }
}

#[test]
fn ranges_that_do_not_fit() {
    assert!(check_time_range_fits(305, 100, 100));
    assert!(check_time_range_fits(i64::MAX, 100, 7));
    assert!(!check_time_range_fits(i64::MAX, 100, 8));
    assert!(!check_time_range_fits(i64::MAX, 1, 1));
    assert!(check_time_range_fits(0, 100, i64::MIN));
    assert!(!check_time_range_fits(-1_000_000_000, 3_000_000_000, i64::MIN));
    assert!(check_time_range_fits(-1, 100, i64::MIN));
    assert!(check_time_range_fits(i64::MAX, 0, i64::MAX));
}

#[test]
fn timestamps_of_one_range_share_it() {
    let range = calc_block_partial_time_range(1_000_007, 100, 100).unwrap();
    assert_eq!(range, (1_000_000, 1_000_100));
    for t in [1_000_000, 1_000_001, 1_000_099] {
        assert_eq!(calc_block_partial_time_range(t, 100, 100).unwrap(), range);
    }
    assert_eq!(calc_block_partial_time_range(1_000_100, 100, 100).unwrap(), (1_000_100, 1_000_200));
    assert_eq!(calc_block_partial_time_range(i64::MAX, 1, 0).unwrap(), (i64::MAX, i64::MAX));
}

#[test]
fn default_time_ranges() {
    let with_ttl = |ttl_nanos| get_default_time_range(Ok(DatabaseSchema { ttl_nanos })).unwrap();
    assert_eq!(with_ttl(None), 5 * 60 * 1_000_000_000);
    assert_eq!(with_ttl(Some(31_536_000_000_000_000)), 31_536_000_000_000);
    assert_eq!(with_ttl(Some(1999)), 1);
    assert_eq!(with_ttl(Some(-1999)), -1);
    assert_eq!(with_ttl(Some(i64::MIN)), -9_223_372_036_854_775);
    let failed = get_default_time_range(Err(SchemaError { reason: "no meta".to_string() }));
    assert!(matches!(failed, Err(Error::Schema { source }) if source.reason == "no meta"));
}

#[test]
fn the_order_of_time_ranges() {
    let a = TimeRange::new(1, 5);
    assert_eq!((a.min_ts, a.max_ts), (1, 5));
    assert!(a.is_before(&TimeRange::new(2, 3)));
    assert!(a.is_before(&TimeRange::new(1, 6)));
    assert!(!a.is_before(&a));
    assert!(!a.is_before(&TimeRange::new(1, 4)));
    assert!(!a.is_before(&TimeRange::new(0, 9)));
}
