use blob_indexer::indexer::{
    envelope_accepts, envelope_hashes, size_field_matches, Block, Indexer, PollAction, Transaction, TxInput,
};
use blob_indexer::mempool::{content_hash, Mempool};
use blob_indexer::parser::{find_envelope, find_pattern_instructions, Instruction};

const HELLO_SHA256: [u8; 32] = [
    0x2c, 0xf2, 0x4d, 0xba, 0x5f, 0xb0, 0xa3, 0x0e, 0x26, 0xe8, 0x3b, 0x2a, 0xc5, 0xb9, 0xe2,
    0x9e, 0x1b, 0x16, 0x1e, 0x5c, 0x1f, 0xa7, 0x42, 0x5e, 0x73, 0x04, 0x33, 0x62, 0x93, 0x8b,
    0x98, 0x24,
];

fn envelope_script(hash: &[u8], size: &[u8]) -> Vec<u8> {
    assert_eq!(hash.len(), 32);
    let mut s = vec![0x00, 0x63, 0x04, b'b', b'l', b'o', b'b', 0x20];
    s.extend_from_slice(hash);
    s.push(0x00);
    s.push(size.len() as u8);
    s.extend_from_slice(size);
    s.push(0x68);
    s
}

fn envelope_instructions(hash: &[u8], size: &[u8]) -> Vec<Instruction> {
    vec![
        Instruction::PushBytes(vec![]),
        Instruction::Op(0x63),
        Instruction::PushBytes(b"blob".to_vec()),
        Instruction::PushBytes(hash.to_vec()),
        Instruction::PushBytes(vec![]),
        Instruction::PushBytes(size.to_vec()),
        Instruction::Op(0x68),
    ]
}

fn block_of_scripts(scripts: Vec<Option<Vec<u8>>>) -> Block {
    Block {
        transactions: vec![Transaction {
            inputs: scripts
                .into_iter()
                .map(|s| TxInput { witness_script: s })
                .collect(),
        }],
    }
}

#[test]
fn content_hash_is_sha256() {
    assert_eq!(content_hash(b"hello"), HELLO_SHA256.to_vec());
}

#[test]
fn exact_marker_is_found() {
    let h = [7u8; 32];
    let r = find_pattern_instructions(&envelope_instructions(&h, &[5]));
    assert_eq!(r, Some((h.to_vec(), vec![5])));
}

#[test]
fn marker_after_noise_is_found() {
    let h = [9u8; 32];
    let mut s = vec![Instruction::Op(0x51), Instruction::PushBytes(vec![1, 2])];
    s.extend(envelope_instructions(&h, &[1, 0]));
    assert_eq!(find_pattern_instructions(&s), Some((h.to_vec(), vec![1, 0])));
}

#[test]
fn no_marker_no_match() {
    assert_eq!(find_pattern_instructions(&vec![]), None);
    let mut s = envelope_instructions(&[1u8; 32], &[5]);
    s.pop();
    assert_eq!(find_pattern_instructions(&s), None);
    let mut wrong_tag = envelope_instructions(&[1u8; 32], &[5]);
    wrong_tag[2] = Instruction::PushBytes(b"blub".to_vec());
    assert_eq!(find_pattern_instructions(&wrong_tag), None);
    let mut short_hash = envelope_instructions(&[1u8; 31], &[5]);
    short_hash[3] = Instruction::PushBytes(vec![1u8; 31]);
    assert_eq!(find_pattern_instructions(&short_hash), None);
}

#[test]
fn scan_does_not_backtrack() {
    // The second empty push breaks the opening pair and is consumed with it.
    let mut s = vec![Instruction::PushBytes(vec![])];
    s.extend(envelope_instructions(&[3u8; 32], &[5]));
    assert_eq!(find_pattern_instructions(&s), None);
}

#[test]
fn envelope_is_decoded_from_script_bytes() {
    let h = [4u8; 32];
    let script = envelope_script(&h, &[5]);
    assert_eq!(find_envelope(&script), Some((h.to_vec(), vec![5])));
}

#[test]
fn truncated_script_has_no_envelope() {
    let mut script = envelope_script(&[4u8; 32], &[5]);
    script.truncate(20);
    assert_eq!(find_envelope(&script), None);
    assert_eq!(find_envelope(&[]), None);
}

#[test]
fn size_field_is_little_endian() {
    assert!(size_field_matches(&[5], 5));
    assert!(size_field_matches(&[5, 0, 0, 0], 5));
    assert!(size_field_matches(&[0, 1], 256));
    assert!(size_field_matches(&[], 0));
    assert!(!size_field_matches(&[6], 5));
    assert!(!size_field_matches(&[5, 1], 5));
}

#[test]
fn acceptance_needs_matching_digest() {
    assert!(envelope_accepts(&[1, 2], &[3], b"abc", &[1, 2]));
    assert!(!envelope_accepts(&[1, 2], &[3], b"abc", &[1, 3]));
    assert!(!envelope_accepts(&[1, 2], &[4], b"abc", &[1, 2]));
}

#[test]
fn mempool_add_get_remove() {
    let mut m = Mempool::new();
    assert_eq!(m.get_blob(b"k"), None);
    m.add_blob(b"k", b"one", 0);
    m.add_blob(b"k", b"two", 7);
    assert_eq!(m.get_blob(b"k"), Some(b"two".to_vec()));
    m.remove_blob(b"k");
    m.remove_blob(b"k");
    assert_eq!(m.get_blob(b"k"), None);
    m.prune();
}

#[test]
fn hello_gossip_then_block_confirms() {
    let mut m = Mempool::new();
    m.receive_gossip(b"hello");
    let hash = content_hash(b"hello");
    assert_eq!(m.get_blob(&hash), Some(b"hello".to_vec()));
    let mut ix = Indexer::new(0);
    let block = block_of_scripts(vec![Some(envelope_script(&hash, &[5]))]);
    let confirmed = ix.index_block(&mut m, &block, 1);
    assert_eq!(confirmed, vec![(hash.clone(), b"hello".to_vec())]);
    assert_eq!(m.get_blob(&hash), None);
    assert_eq!(ix.get_confirmed(&hash), Some(b"hello".to_vec()));
    assert_eq!(ix.last_block(), 1);
}

#[test]
fn size_mismatch_consumes_and_drops() {
    let mut m = Mempool::new();
    m.receive_gossip(b"hello");
    let hash = content_hash(b"hello");
    let mut ix = Indexer::new(0);
    let block = block_of_scripts(vec![Some(envelope_script(&hash, &[4]))]);
    assert!(ix.index_block(&mut m, &block, 1).is_empty());
    assert_eq!(m.get_blob(&hash), None);
    assert_eq!(ix.get_confirmed(&hash), None);
}

#[test]
fn wrong_hash_binding_is_dropped() {
    let mut m = Mempool::new();
    let fake = [1u8; 32];
    m.add_blob(&fake, b"hello", 0);
    let mut ix = Indexer::new(0);
    let block = block_of_scripts(vec![Some(envelope_script(&fake, &[5]))]);
    assert!(ix.index_block(&mut m, &block, 1).is_empty());
    assert_eq!(m.get_blob(&fake), None);
    assert_eq!(ix.get_confirmed(&fake), None);
}

#[test]
fn unstaged_envelope_and_missing_witness_are_ignored() {
    let mut m = Mempool::new();
    m.receive_gossip(b"other");
    let mut ix = Indexer::new(0);
    let hash = content_hash(b"hello");
    let block = block_of_scripts(vec![None, Some(envelope_script(&hash, &[5]))]);
    assert!(ix.index_block(&mut m, &block, 1).is_empty());
    assert_eq!(m.get_blob(&content_hash(b"other")), Some(b"other".to_vec()));
}

#[test]
fn processing_a_block_twice_is_harmless() {
    let mut m = Mempool::new();
    m.receive_gossip(b"hello");
    let hash = content_hash(b"hello");
    let mut ix = Indexer::new(0);
    let block = block_of_scripts(vec![Some(envelope_script(&hash, &[5]))]);
    ix.index_block(&mut m, &block, 1);
    assert!(ix.index_block(&mut m, &block, 1).is_empty());
    assert_eq!(ix.get_confirmed(&hash), Some(b"hello".to_vec()));
    assert_eq!(ix.last_block(), 1);
}

#[test]
fn checkpoint_reaches_last_height_and_never_drops() {
    let mut m = Mempool::new();
    let mut ix = Indexer::new(3);
    let blocks = vec![block_of_scripts(vec![]), block_of_scripts(vec![None])];
    ix.index_blocks(&mut m, &blocks, 4);
    assert_eq!(ix.last_block(), 5);
    ix.index_block(&mut m, &block_of_scripts(vec![]), 2);
    assert_eq!(ix.last_block(), 5);
}

#[test]
fn poll_decisions() {
    let ix = Indexer::new(3);
    assert_eq!(ix.next_action(Some(7), 0), PollAction::FetchBlocks { from: 4, to: 7 });
    assert_eq!(ix.next_action(Some(3), 0), PollAction::Sleep { seconds: 10 });
    assert_eq!(ix.next_action(None, 0), PollAction::Sleep { seconds: 10 });
    assert_eq!(ix.next_action(None, 2), PollAction::Sleep { seconds: 40 });
    assert_eq!(ix.next_action(None, 5), PollAction::Stop);
}

#[test]
fn envelope_hashes_lists_each_envelope() {
    let a = [1u8; 32];
    let b = [2u8; 32];
    let block = Block {
        transactions: vec![
            Transaction {
                inputs: vec![
                    TxInput { witness_script: Some(envelope_script(&a, &[5])) },
                    TxInput { witness_script: None },
                    TxInput { witness_script: Some(vec![0x51]) },
                ],
            },
            Transaction {
                inputs: vec![TxInput { witness_script: Some(envelope_script(&b, &[1])) }],
            },
        ],
    };
    assert_eq!(envelope_hashes(&block), vec![a.to_vec(), b.to_vec()]);
}
