//! The early-era transaction task: turns one decoded early-era block into
//! the relational transaction rows to insert. Boundary blocks of that era
//! carry no transactions and produce no rows; a main block produces one row
//! per transaction, hashed over the encoded transaction body.

use vstd::prelude::*;

use crate::task::{Era, ResourceId, TaskBuilder, TaskDescriptor};

verus! {

/// The resource slot holding this block's inserted transaction rows.
pub const BYRON_TXS_RESOURCE: ResourceId = 1;

/// The 32-byte Blake2b-256 digest of a byte string.
pub uninterp spec fn blake2b256_of(bytes: Seq<u8>) -> Seq<u8>;

/// Relies on cryptoxide's unkeyed `hashing::blake2b::Blake2b::<256>`: the
/// digest depends on the input bytes alone and is always 32 bytes long.
#[verifier::external_body]
pub fn blake2b256(bytes: &Vec<u8>) -> (r: Vec<u8>)
    ensures
        r@ == blake2b256_of(bytes@),
        r@.len() == 32,
{
    let context = cryptoxide::hashing::blake2b::Blake2b::<256>::new();
    context.update(bytes.as_slice()).finalize().to_vec()
}

/// One row of the relational transactions table, ready for insertion.
pub struct TransactionRecord {
    pub hash: Vec<u8>,
    pub block_id: i64,
    pub tx_index: i32,
    pub payload: Vec<u8>,
    pub is_valid: bool,
}

/// One transaction of an early-era main block: the encoded transaction body
/// (the part that is hashed) and the encoded full payload with witnesses,
/// both produced by the era's decoder before the engine runs.
pub struct ByronTx {
    pub transaction_bytes: Vec<u8>,
    pub payload_bytes: Vec<u8>,
}

/// The shapes of an early-era block the engine reads: epoch-boundary blocks
/// carry no transactions.
pub enum ByronBlock {
    EbBlock,
    MainBlock { tx_payload: Vec<ByronTx> },
}

fn copy_bytes(v: &Vec<u8>) -> (r: Vec<u8>)
    ensures
        r@ == v@,
{
    let mut out: Vec<u8> = Vec::new();
    let mut k: usize = 0;
    while k < v.len()
        invariant
            k <= v.len(),
            out@ =~= v@.take(k as int),
        decreases v.len() - k,
    {
        out.push(v[k]);
        k = k + 1;
    }
    proof {
        assert(v@.take(v@.len() as int) =~= v@);
    }
    out
}

/// The rows to insert for one early-era block: none for a boundary block;
/// for a main block, one row per transaction in order, with the Blake2b-256
/// hash of the encoded transaction body, the owning block's id, the
/// transaction's position, its full encoded payload, and the validity flag
/// (always true in that era).
pub fn byron_transaction_rows(block: &ByronBlock, block_id: i64) -> (r: Vec<TransactionRecord>)
    requires
        match block {
            ByronBlock::MainBlock { tx_payload } => tx_payload@.len() <= i32::MAX,
            ByronBlock::EbBlock => true,
        },
    ensures
        match block {
            ByronBlock::EbBlock => r@.len() == 0,
            ByronBlock::MainBlock { tx_payload } => {
                &&& r@.len() == tx_payload@.len()
                &&& forall|i: int|
                    0 <= i < r@.len() ==> {
                        &&& (#[trigger] r@[i]).hash@ == blake2b256_of(
                            tx_payload@[i].transaction_bytes@,
                        )
                        &&& r@[i].block_id == block_id
                        &&& r@[i].tx_index == i as i32
                        &&& r@[i].payload@ == tx_payload@[i].payload_bytes@
                        &&& r@[i].is_valid
                    }
            },
        },
{
    match block {
        ByronBlock::EbBlock => Vec::new(),
        ByronBlock::MainBlock { tx_payload } => {
            let mut rows: Vec<TransactionRecord> = Vec::new();
            let mut i: usize = 0;
            while i < tx_payload.len()
                invariant
                    tx_payload@.len() <= i32::MAX,
                    i <= tx_payload@.len(),
                    rows@.len() == i,
                    forall|k: int|
                        0 <= k < i ==> {
                            &&& (#[trigger] rows@[k]).hash@ == blake2b256_of(
                                tx_payload@[k].transaction_bytes@,
                            )
                            &&& rows@[k].block_id == block_id
                            &&& rows@[k].tx_index == k as i32
                            &&& rows@[k].payload@ == tx_payload@[k].payload_bytes@
                            &&& rows@[k].is_valid
                        },
                decreases tx_payload@.len() - i,
            {
                let tx = &tx_payload[i];
                let row = TransactionRecord {
                    hash: blake2b256(&tx.transaction_bytes),
                    block_id,
                    tx_index: i as i32,
                    payload: copy_bytes(&tx.payload_bytes),
                    is_valid: true,
                };
                rows.push(row);
                i = i + 1;
            }
            rows
        },
    }
}

/// The early-era transaction extraction task.
pub struct ByronTransactionTask;

impl ByronTransactionTask {
    /// The task's stable name.
    pub fn name() -> (r: String)
        ensures
            r@ == "ByronTransactionTask"@,
    {
        "ByronTransactionTask".to_string()
    }

    /// The task's descriptor: no upstream dependencies; it writes this
    /// block's transaction-rows resource.
    pub fn descriptor() -> (r: TaskDescriptor)
        ensures
            r@.name == "ByronTransactionTask"@,
            r@.dependencies.len() == 0,
            r@.reads.len() == 0,
            r@.writes =~= seq![BYRON_TXS_RESOURCE],
            r@.era == Era::EarlyEra,
    {
        let mut writes: Vec<ResourceId> = Vec::new();
        writes.push(BYRON_TXS_RESOURCE);
        TaskDescriptor::new(
            ByronTransactionTask::name(),
            Vec::new(),
            Vec::new(),
            writes,
            Era::EarlyEra,
        )
    }
}

impl TaskBuilder for ByronTransactionTask {
    fn get_name(&self) -> String {
        ByronTransactionTask::name()
    }

    fn get_dependencies(&self) -> Vec<String> {
        Vec::new()
    }
}

} // verus!
