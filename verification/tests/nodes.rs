//! The nodes of a hash tree and their texts.
use cnosdb::node::{
    hash_to_string, ColumnHashTreeNode, TableHashTreeNode, TimeRangeHashTreeNode,
};
use cnosdb::text::{push_decimal_i64, push_decimal_u64, push_hex_byte};
use cnosdb::time::TimeRange;

fn sample_hash() -> [u8; 32] {
    let mut hash = [0u8; 32];
    hash[0] = 0x0f;
    hash[1] = 0x10;
    hash[2] = 0xab;
    hash[31] = 0xff;
    hash
}

fn sample_text() -> String {
    format!("f10ab{}ff", "0".repeat(28))
}

fn sample_node() -> TimeRangeHashTreeNode {
    TimeRangeHashTreeNode::new(TimeRange::new(-5, 300), sample_hash())
}

#[test]
fn hashes_are_written_without_padding() {
    assert_eq!(hash_to_string(sample_hash()), sample_text());
    assert_eq!(hash_to_string([0; 32]), "0".repeat(32));
    assert_eq!(hash_to_string([0x9c; 32]), "9c".repeat(32));
    let mut expected = String::new();
    let hash: [u8; 32] = std::array::from_fn(|i| (i * 9) as u8);
    for b in hash {
        expected.push_str(&format!("{:x}", b));
    }
    assert_eq!(hash_to_string(hash), expected);
}

#[test]
fn numbers_are_written_as_usual() {
    for n in [0, 7, 10, 99, 100, 12_345, u64::MAX] {
        let mut out = "n=".to_string();
        push_decimal_u64(&mut out, n);
        assert_eq!(out, format!("n={}", n));
    }
    for i in [0, -1, 10, -10, i64::MAX, i64::MIN] {
        let mut out = String::new();
        push_decimal_i64(&mut out, i);
        assert_eq!(out, format!("{}", i));
    }
    for b in 0..=255u8 {
        let mut out = String::new();
        push_hex_byte(&mut out, b);
        assert_eq!(out, format!("{:x}", b));
    }
}

#[test]
fn a_time_range_node() {
    let node = sample_node();
    assert_eq!((node.min_ts, node.max_ts, node.hash), (-5, 300, sample_hash()));
    assert_eq!(
        node.to_string(),
        format!("{{ time_range: (-5, 300), hash: {}}}", sample_text())
    );
}

#[test]
fn a_column_node() {
    let mut node = ColumnHashTreeNode::with_capacity("c".to_string(), 2);
    assert_eq!(node.to_string(), "{ column: c, values: [ ] }");
    node.push(sample_node());
    node.push(TimeRangeHashTreeNode::default());
    assert_eq!(node.values.len(), 2);
    assert_eq!(
        node.to_string(),
        format!(
            "{{ column: c, values: [ {}, {{ time_range: (0, 0), hash: {}}}, ] }}",
            sample_node().to_string(),
            "0".repeat(32)
        )
    );
}

#[test]
fn a_table_node() {
    let mut node = TableHashTreeNode::with_capacity("t".to_string(), 0);
    assert_eq!(node.to_string(), "{ table: t, values: [ ] }");
    node.push(ColumnHashTreeNode::with_capacity("a".to_string(), 0));
    node.push(ColumnHashTreeNode::with_capacity("b".to_string(), 0));
    assert_eq!(node.columns[1].column, "b");
    assert_eq!(
        node.to_string(),
        "{ table: t, values: [ { column: a, values: [ ] }, { column: b, values: [ ] }, ] }"
    );
}
