use task_engine::byron::{
    byron_transaction_rows, ByronBlock, ByronTransactionTask, ByronTx,
};
use task_engine::task::{Era, TaskBuilder};

// Blake2b-256 of the empty byte string.
const BLAKE2B256_EMPTY: [u8; 32] = [
    0x0e, 0x57, 0x51, 0xc0, 0x26, 0xe5, 0x43, 0xb2, 0xe8, 0xab, 0x2e, 0xb0, 0x60, 0x99, 0xda,
    0xa1, 0xd1, 0xe5, 0xdf, 0x47, 0x77, 0x8f, 0x77, 0x87, 0xfa, 0xab, 0x45, 0xcd, 0xf1, 0x2f,
    0xe3, 0xa8,
];

#[test]
fn boundary_block_has_no_rows() {
    let rows = byron_transaction_rows(&ByronBlock::EbBlock, 42);
    assert!(rows.is_empty());
}

#[test]
fn main_block_rows_carry_hash_index_and_payload() {
    let block = ByronBlock::MainBlock {
        tx_payload: vec![
            ByronTx { transaction_bytes: Vec::new(), payload_bytes: vec![9, 9] },
            ByronTx { transaction_bytes: vec![1, 2, 3], payload_bytes: vec![7] },
        ],
    };
    let rows = byron_transaction_rows(&block, 42);
    assert_eq!(rows.len(), 2);
    // The hash is the Blake2b-256 digest of the encoded transaction body,
    // not the body itself.
    assert_eq!(rows[0].hash, BLAKE2B256_EMPTY.to_vec());
    assert_eq!(rows[0].block_id, 42);
    assert_eq!(rows[0].tx_index, 0);
    assert_eq!(rows[0].payload, vec![9, 9]);
    assert!(rows[0].is_valid);
    assert_eq!(rows[1].hash.len(), 32);
    assert_ne!(rows[1].hash, rows[0].hash);
    assert_ne!(rows[1].hash, vec![1, 2, 3]);
    assert_eq!(rows[1].tx_index, 1);
    assert_eq!(rows[1].payload, vec![7]);
}

#[test]
fn hashing_is_deterministic() {
    let block = ByronBlock::MainBlock {
        tx_payload: vec![ByronTx { transaction_bytes: vec![5, 6], payload_bytes: vec![] }],
    };
    let a = byron_transaction_rows(&block, 1);
    let b = byron_transaction_rows(&block, 1);
    assert_eq!(a[0].hash, b[0].hash);
}

#[test]
fn byron_task_descriptor_shape() {
    let d = ByronTransactionTask::descriptor();
    assert_eq!(d.name, "ByronTransactionTask");
    assert!(d.dependencies.is_empty());
    assert!(d.reads.is_empty());
    assert_eq!(d.writes, vec![task_engine::byron::BYRON_TXS_RESOURCE]);
    assert!(matches!(d.era, Era::EarlyEra));
    let task = ByronTransactionTask;
    assert_eq!(task.get_name(), "ByronTransactionTask");
    assert!(task.get_dependencies().is_empty());
}
