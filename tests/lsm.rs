use mini_lsm_core::block::{Block, BlockBuilder};
use mini_lsm_core::key::compare_keys;
use mini_lsm_core::merge::{MergeIterator, StorageIterator, VecIterator};
use mini_lsm_core::table::SsTableBuilder;
use mini_lsm_core::LsmError;

fn entry(k: &str, v: &str) -> (Vec<u8>, Vec<u8>) {
    (k.as_bytes().to_vec(), v.as_bytes().to_vec())
}

fn block_keys(b: &Block) -> Vec<Vec<u8>> {
    b.offsets
        .iter()
        .map(|&o| {
            let o = o as usize;
            let len = ((b.data[o] as usize) << 8) | b.data[o + 1] as usize;
            b.data[o + 2..o + 2 + len].to_vec()
        })
        .collect()
}

fn drain(m: &mut MergeIterator<VecIterator>) -> Vec<(Vec<u8>, Vec<u8>)> {
    let mut out = Vec::new();
    while m.is_valid() {
        out.push((m.key().unwrap().to_vec(), m.value().unwrap().to_vec()));
        m.next().unwrap();
    }
    out
}

#[test]
fn block_size_and_round_trip() {
    let mut b = BlockBuilder::new(4096);
    assert!(b.add(b"apple", b"red"));
    assert!(b.add(b"banana", b"yellow"));
    let block = b.build();
    assert_eq!(block.size(), 2 + 2 * 2 + (2 + 5 + 2 + 3 + 2 + 6 + 2 + 6));
    let encoded = block.encode();
    assert_eq!(encoded.len(), block.size());
    let decoded = Block::decode(&encoded).unwrap();
    assert_eq!(decoded.data, block.data);
    assert_eq!(decoded.offsets, block.offsets);
    assert_eq!(block_keys(&decoded), vec![b"apple".to_vec(), b"banana".to_vec()]);
}

#[test]
fn block_encoding_layout() {
    let mut b = BlockBuilder::new(100);
    assert!(b.add(b"k", b"v"));
    assert!(b.add(b"l", b"wx"));
    let block = b.build();
    assert_eq!(block.offsets, vec![0, 6]);
    let encoded = block.encode();
    assert_eq!(
        encoded.to_vec(),
        vec![0, 1, b'k', 0, 1, b'v', 0, 1, b'l', 0, 2, b'w', b'x', 0, 0, 0, 6, 0, 2]
    );
}

#[test]
fn decode_rejects_short_input() {
    assert!(matches!(Block::decode(&[]), Err(LsmError::InvariantViolation)));
    assert!(matches!(Block::decode(&[7]), Err(LsmError::InvariantViolation)));
    // Declares three offsets but holds room for none.
    assert!(matches!(Block::decode(&[0, 3]), Err(LsmError::InvariantViolation)));
    let empty = Block::decode(&[0, 0]).unwrap();
    assert!(empty.data.is_empty() && empty.offsets.is_empty());
}

#[test]
fn oversized_entry_then_full() {
    let mut b = BlockBuilder::new(20);
    assert!(b.add(b"k1", b"v1-long-enough-to-exceed-budget"));
    assert!(!b.add(b"k2", b"v2"));
    assert!(!b.add(b"k", b""));
    let block = b.build();
    assert_eq!(block_keys(&block), vec![b"k1".to_vec()]);
}

#[test]
fn rejected_add_changes_nothing() {
    let mut b = BlockBuilder::new(30);
    assert!(b.add(b"a", b"0123456789"));
    assert!(!b.add(b"b", b"0123456789"));
    assert!(!b.is_empty());
    let block = b.build();
    assert_eq!(block.offsets, vec![0]);
    assert_eq!(block.data.len(), 2 + 1 + 2 + 10);
}

#[test]
fn builder_is_empty() {
    let mut b = BlockBuilder::new(64);
    assert!(b.is_empty());
    assert!(b.add(b"x", b""));
    assert!(!b.is_empty());
}

#[test]
fn table_splits_blocks() {
    let mut t = SsTableBuilder::new(20);
    t.add(b"a", b"1");
    t.add(b"m", b"2");
    assert_eq!(t.estimated_size(), 0);
    t.add(b"z", b"3");
    assert_eq!(t.estimated_size(), 18);
    let (table, bytes) = t.build(7).unwrap();
    assert_eq!(table.block_meta.len(), 2);
    assert_eq!(table.block_meta[0].first_key, b"a".to_vec());
    assert_eq!(table.block_meta[0].last_key, b"m".to_vec());
    assert_eq!(table.block_meta[1].first_key, b"z".to_vec());
    assert_eq!(table.block_meta[1].last_key, b"z".to_vec());
    assert_eq!(table.block_meta[0].offset, 0);
    assert_eq!(table.block_meta[1].offset, 18);
    assert_eq!(table.first_key, b"a".to_vec());
    assert_eq!(table.last_key, b"z".to_vec());
    assert_eq!(table.id, 7);
    assert_eq!(table.max_ts, 0);
    assert_eq!(table.block_meta_offset, 18 + 10);
    let n = bytes.len();
    assert_eq!(&bytes[n - 4..], &[0, 0, 0, 28]);
    // The second block decodes back to its one entry.
    let second = Block::decode(&bytes[18..28]).unwrap();
    assert_eq!(block_keys(&second), vec![b"z".to_vec()]);
    // Metadata: count, then offset, first key and last key of each block.
    assert_eq!(&bytes[28..32], &[0, 0, 0, 2]);
    assert_eq!(&bytes[32..42], &[0, 0, 0, 0, 0, 1, b'a', 0, 1, b'm']);
    assert_eq!(n, 28 + 4 + 2 * 10 + 4);
}

#[test]
fn table_ranges_ascend() {
    let mut t = SsTableBuilder::new(32);
    let keys: Vec<String> = (0..40).map(|i| format!("key{:03}", i)).collect();
    for k in &keys {
        t.add(k.as_bytes(), b"value");
    }
    let (table, _) = t.build(1).unwrap();
    assert!(table.block_meta.len() > 1);
    for m in &table.block_meta {
        assert!(m.first_key <= m.last_key);
    }
    for w in table.block_meta.windows(2) {
        assert!(w[0].last_key < w[1].first_key);
        assert!(w[0].offset < w[1].offset);
    }
    assert_eq!(table.first_key, keys[0].as_bytes().to_vec());
    assert_eq!(table.last_key, keys[39].as_bytes().to_vec());
}

#[test]
fn empty_table_fails() {
    let t = SsTableBuilder::new(4096);
    assert!(matches!(t.build(1), Err(LsmError::InvariantViolation)));
    let t = SsTableBuilder::new(4096);
    assert!(matches!(t.build_for_test(), Err(LsmError::InvariantViolation)));
}

#[test]
fn build_for_test_uses_id_zero() {
    let mut t = SsTableBuilder::new(4096);
    t.add(b"k", b"v");
    let (table, _) = t.build_for_test().unwrap();
    assert_eq!(table.id, 0);
    assert_eq!(table.block_meta.len(), 1);
}

#[test]
fn merge_prefers_lower_index() {
    let s0 = VecIterator::new(vec![entry("k1", "v1"), entry("k3", "v3")]);
    let s1 = VecIterator::new(vec![entry("k1", "v1b"), entry("k2", "v2")]);
    let mut m = MergeIterator::create(vec![Box::new(s0), Box::new(s1)]);
    assert_eq!(
        drain(&mut m),
        vec![entry("k1", "v1"), entry("k2", "v2"), entry("k3", "v3")]
    );
}

#[test]
fn merge_many_sources() {
    let s0 = VecIterator::new(vec![entry("b", "0"), entry("e", "0")]);
    let s1 = VecIterator::new(vec![entry("a", "1"), entry("b", "1"), entry("f", "1")]);
    let s2 = VecIterator::new(vec![]);
    let s3 = VecIterator::new(vec![entry("a", "3"), entry("e", "3"), entry("g", "3")]);
    let mut m = MergeIterator::create(vec![Box::new(s0), Box::new(s1), Box::new(s2), Box::new(s3)]);
    assert_eq!(
        drain(&mut m),
        vec![
            entry("a", "1"),
            entry("b", "0"),
            entry("e", "0"),
            entry("f", "1"),
            entry("g", "3"),
        ]
    );
}

#[test]
fn merge_of_nothing_is_invalid() {
    let mut m: MergeIterator<VecIterator> = MergeIterator::create(vec![]);
    assert!(!m.is_valid());
    assert!(drain(&mut m).is_empty());
    let mut m = MergeIterator::create(vec![
        Box::new(VecIterator::new(vec![])),
        Box::new(VecIterator::new(vec![])),
    ]);
    assert!(!m.is_valid());
    assert!(m.next().is_ok());
    assert!(!m.is_valid());
}

#[test]
fn key_after_exhaustion_fails() {
    let mut m = MergeIterator::create(vec![Box::new(VecIterator::new(vec![entry("a", "1")]))]);
    assert!(m.is_valid());
    m.next().unwrap();
    assert!(!m.is_valid());
    assert!(matches!(m.key(), Err(LsmError::InvariantViolation)));
    assert!(matches!(m.value(), Err(LsmError::InvariantViolation)));
}

struct Failing {
    entries: Vec<(Vec<u8>, Vec<u8>)>,
    pos: usize,
    fail_at: usize,
}

impl StorageIterator for Failing {
    fn remaining(&self) -> vstd::seq::Seq<(vstd::seq::Seq<u8>, vstd::seq::Seq<u8>)> {
        unreachable!()
    }
    fn inv(&self) -> bool {
        unreachable!()
    }
    fn key(&self) -> &[u8] {
        &self.entries[self.pos].0
    }
    fn value(&self) -> &[u8] {
        &self.entries[self.pos].1
    }
    fn is_valid(&self) -> bool {
        self.pos < self.entries.len()
    }
    fn next(&mut self) -> Result<(), LsmError> {
        if self.pos + 1 == self.fail_at {
            return Err(LsmError::Source);
        }
        self.pos += 1;
        Ok(())
    }
}

#[test]
fn source_error_ends_merge() {
    let s0 = Failing { entries: vec![entry("a", "0"), entry("c", "0")], pos: 0, fail_at: 9 };
    let s1 = Failing { entries: vec![entry("a", "1"), entry("b", "1")], pos: 0, fail_at: 1 };
    let mut m = MergeIterator::create(vec![Box::new(s0), Box::new(s1)]);
    assert_eq!(m.key().unwrap(), b"a");
    assert_eq!(m.value().unwrap(), b"0");
    assert!(matches!(m.next(), Err(LsmError::Source)));
    assert!(!m.is_valid());
    assert!(m.next().is_ok());
    assert!(!m.is_valid());
}

#[test]
fn compare_keys_orders_bytes() {
    assert!(compare_keys(b"a", b"b") < 0);
    assert!(compare_keys(b"ab", b"a") > 0);
    assert!(compare_keys(b"", b"a") < 0);
    assert_eq!(compare_keys(b"same", b"same"), 0);
    assert!(compare_keys(&[0xff], &[0x00, 0x01]) > 0);
}

#[test]
fn largest_key_and_value_round_trip() {
    let key = vec![b'k'; 65535];
    let value = vec![b'v'; 65535];
    let mut b = BlockBuilder::new(65535);
    assert!(b.add(&key, &value));
    assert!(!b.add(b"l", b""));
    let block = b.build();
    assert_eq!(block.size(), 2 + 2 + 4 + 65535 * 2);
    let decoded = Block::decode(&block.encode()).unwrap();
    assert_eq!(decoded.data, block.data);
    assert_eq!(block_keys(&decoded), vec![key]);
}

#[test]
fn merge_with_single_source() {
    let s0 = VecIterator::new(vec![entry("a", "1"), entry("b", "2")]);
    let mut m = MergeIterator::create(vec![Box::new(s0)]);
    assert_eq!(drain(&mut m), vec![entry("a", "1"), entry("b", "2")]);
}

#[test]
fn nested_merge() {
    let inner = MergeIterator::create(vec![
        Box::new(VecIterator::new(vec![entry("a", "0"), entry("c", "0")])),
        Box::new(VecIterator::new(vec![entry("a", "1"), entry("b", "1")])),
    ]);
    let other = MergeIterator::create(vec![Box::new(VecIterator::new(vec![
        entry("b", "2"),
        entry("d", "2"),
    ]))]);
    let mut outer = MergeIterator::create(vec![Box::new(inner), Box::new(other)]);
    let mut out = Vec::new();
    while outer.is_valid() {
        out.push((outer.key().unwrap().to_vec(), outer.value().unwrap().to_vec()));
        outer.next().unwrap();
    }
    assert_eq!(
        out,
        vec![entry("a", "0"), entry("b", "1"), entry("c", "0"), entry("d", "2")]
    );
}
