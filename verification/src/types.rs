use vstd::prelude::*;
use vstd::string::StringSliceAdditionalSpecFns;

verus! {

/// Identifies a block at a given height on one chain. Two blocks with the
/// same height but different hashes are competing tips of a fork.
#[derive(Clone, Debug, PartialEq, Eq)]
pub struct BlockIdentifier {
    /// The block height.
    pub index: u64,
    pub hash: String,
}

impl BlockIdentifier {
    /// Field-for-field copy, fully specified (a derived clone says nothing
    /// to the verifier about the result).
    pub fn duplicate(&self) -> (r: BlockIdentifier)
        ensures
            r == *self,
    {
        BlockIdentifier { index: self.index, hash: self.hash.clone() }
    }
}

#[derive(Clone, Debug, PartialEq, Eq)]
pub struct TransactionIdentifier {
    pub hash: String,
}

impl TransactionIdentifier {
    pub fn duplicate(&self) -> (r: TransactionIdentifier)
        ensures
            r == *self,
    {
        TransactionIdentifier { hash: self.hash.clone() }
    }
}

/// Record of a contract's deployment, persisted so that later queries can
/// recover the source code without rescanning the chain.
#[derive(Clone, Debug, PartialEq, Eq)]
pub struct ContractInstanciation {
    /// Identifier of the block that carried the deployment.
    pub block_identifier: BlockIdentifier,
    pub tx_identifier: TransactionIdentifier,
    pub code: String,
}

impl ContractInstanciation {
    pub fn duplicate(&self) -> (r: ContractInstanciation)
        ensures
            r == *self,
    {
        ContractInstanciation {
            block_identifier: self.block_identifier.duplicate(),
            tx_identifier: self.tx_identifier.duplicate(),
            code: self.code.clone(),
        }
    }
}

/// Where persistent state lives. Only a filesystem-backed driver is in
/// scope; the interface stays driver-agnostic.
#[derive(Clone, Debug, PartialEq, Eq)]
pub struct FilesystemConfig {
    pub working_dir: String,
}

#[derive(Clone, Debug, PartialEq, Eq)]
pub enum StorageDriver {
    Filesystem(FilesystemConfig),
}

impl StorageDriver {
    pub fn filesystem(working_dir: String) -> (r: StorageDriver)
        ensures
            r == StorageDriver::Filesystem(FilesystemConfig { working_dir }),
    {
        StorageDriver::Filesystem(FilesystemConfig { working_dir })
    }
}

/// One typed contract-mutating event from a transaction receipt.
#[derive(Clone, Debug, PartialEq, Eq)]
pub enum TransactionEvent {
    DataVarSet { contract_identifier: String, var: String, new_value: String },
    DataMapInsert { contract_identifier: String, map: String, inserted_key: String, inserted_value: String },
    DataMapUpdate { contract_identifier: String, map: String, key: String, new_value: String },
    DataMapDelete { contract_identifier: String, map: String, deleted_key: String },
    FTMint { asset_class_identifier: String, recipient: String, amount: u128 },
    FTBurn { asset_class_identifier: String, sender: String, amount: u128 },
    FTTransfer { asset_class_identifier: String, sender: String, recipient: String, amount: u128 },
    NFTMint { asset_class_identifier: String, recipient: String, asset_identifier: String },
    NFTBurn { asset_class_identifier: String, sender: String, asset_identifier: String },
    NFTTransfer { asset_class_identifier: String, sender: String, recipient: String, asset_identifier: String },
}

#[derive(Clone, Debug, PartialEq, Eq)]
pub struct StacksContractDeploymentData {
    pub contract_identifier: String,
    pub code: String,
}

/// Tagged transaction kind with exhaustive handling at the applier.
#[derive(Clone, Debug, PartialEq, Eq)]
pub enum StacksTransactionKind {
    ContractDeployment(StacksContractDeploymentData),
    ContractCall,
    Other,
}

#[derive(Clone, Debug, PartialEq, Eq)]
pub struct StacksTransactionData {
    pub transaction_identifier: TransactionIdentifier,
    pub kind: StacksTransactionKind,
    /// Ordered sequence of typed events from the transaction receipt.
    pub events: Vec<TransactionEvent>,
}

/// Stacks-specific block metadata: anchor to a Bitcoin block and the PoX
/// cycle position.
#[derive(Clone, Debug, PartialEq, Eq)]
pub struct StacksBlockMetadata {
    pub bitcoin_anchor_block_identifier: BlockIdentifier,
    pub pox_cycle_index: u32,
    pub pox_cycle_position: u32,
    pub pox_cycle_length: u32,
}

#[derive(Clone, Debug, PartialEq, Eq)]
pub struct StacksBlockData {
    pub block_identifier: BlockIdentifier,
    pub parent_block_identifier: BlockIdentifier,
    pub timestamp: u64,
    pub transactions: Vec<StacksTransactionData>,
    pub metadata: StacksBlockMetadata,
}

#[derive(Clone, Debug, PartialEq, Eq)]
pub struct BitcoinBlockData {
    pub block_identifier: BlockIdentifier,
    pub parent_block_identifier: BlockIdentifier,
    pub timestamp: u64,
}

/// A decoded block of either chain, as held by the block archive.
#[derive(Clone, Debug, PartialEq, Eq)]
pub enum ChainBlock {
    Bitcoin(BitcoinBlockData),
    Stacks(StacksBlockData),
}

impl ChainBlock {
    pub open spec fn spec_block_identifier(self) -> BlockIdentifier {
        match self {
            ChainBlock::Bitcoin(b) => b.block_identifier,
            ChainBlock::Stacks(b) => b.block_identifier,
        }
    }

    pub fn block_identifier(&self) -> (r: &BlockIdentifier)
        ensures
            *r == self.spec_block_identifier(),
    {
        match self {
            ChainBlock::Bitcoin(b) => &b.block_identifier,
            ChainBlock::Stacks(b) => &b.block_identifier,
        }
    }
}


/// Decides view equality of two string slices, through their UTF-8 bytes
/// (two strings are equal exactly when their encodings are).
pub fn str_eq(a: &str, b: &str) -> (r: bool)
    ensures
        r == (a@ == b@),
{
    proof {
        vstd::utf8::encode_utf8_decode_utf8(a@);
        vstd::utf8::encode_utf8_decode_utf8(b@);
    }
    let ab = a.as_bytes();
    let bb = b.as_bytes();
    let n = ab.len();
    if n != bb.len() {
        return false;
    }
    let mut i: usize = 0;
    while i < n
        invariant
            n == ab@.len(),
            n == bb@.len(),
            i <= n,
            ab@ == a.spec_bytes(),
            bb@ == b.spec_bytes(),
            forall|k: int| 0 <= k < i ==> ab@[k] == bb@[k],
        decreases n - i,
    {
        if ab[i] != bb[i] {
            return false;
        }
        i += 1;
    }
    proof {
        assert(ab@ =~= bb@);
        vstd::utf8::encode_utf8_decode_utf8(a@);
        vstd::utf8::encode_utf8_decode_utf8(b@);
    }
    true
}

/// Messages accepted by the block store worker.
#[derive(Clone, Debug)]
pub enum BlockStoreManagerMessage {
    ArchiveBitcoinBlock(BitcoinBlockData),
    RollbackBitcoinBlocks(Vec<BlockIdentifier>),
    ArchiveStacksBlock(StacksBlockData),
    RollbackStacksBlocks(Vec<BlockIdentifier>),
    Exit,
}

} // verus!
