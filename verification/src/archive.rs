use vstd::prelude::*;

verus! {

use crate::errors::ChainStoreError;
use crate::types::BitcoinBlockData;
use crate::types::BlockIdentifier;
use crate::types::BlockStoreManagerMessage;
use crate::types::ChainBlock;
use crate::types::ContractInstanciation;
use crate::types::StacksBlockData;
use crate::types::StacksTransactionKind;
use crate::types::StorageDriver;
use crate::types::str_eq;

/// Durable, append-only record of raw blocks for one chain: blocks by hash,
/// a height-to-hash index, the deployment records found in archived blocks,
/// and a tip pointer at the highest archived height.
///
/// Deleting a block does not fix the tip by itself; a caller that deletes a
/// batch recomputes the tip from the highest remaining height afterwards,
/// which `delete_blocks` does.
#[derive(Clone, Debug)]
pub struct BlockArchive {
    pub blocks: Vec<(String, ChainBlock)>,
    pub index: Vec<(u64, String)>,
    pub contracts: Vec<(String, ContractInstanciation)>,
    pub tip: Option<BlockIdentifier>,
}

impl BlockArchive {
    pub open spec fn spec_has_block(self, hash: Seq<char>) -> bool {
        exists|i: int| 0 <= i < self.blocks@.len() && (#[trigger] self.blocks@[i]).0@ == hash
    }

    pub open spec fn spec_block_index(self, hash: Seq<char>) -> int {
        choose|i: int| 0 <= i < self.blocks@.len() && (#[trigger] self.blocks@[i]).0@ == hash
    }

    pub open spec fn spec_block_at(self, hash: Seq<char>) -> ChainBlock {
        self.blocks@[self.spec_block_index(hash)].1
    }

    pub open spec fn spec_has_height(self, height: u64) -> bool {
        exists|i: int| 0 <= i < self.index@.len() && (#[trigger] self.index@[i]).0 == height
    }

    pub open spec fn spec_height_index(self, height: u64) -> int {
        choose|i: int| 0 <= i < self.index@.len() && (#[trigger] self.index@[i]).0 == height
    }

    /// The hash the height index maps a height to.
    pub open spec fn spec_hash_at(self, height: u64) -> Seq<char> {
        self.index@[self.spec_height_index(height)].1@
    }

    pub open spec fn spec_has_contract(self, contract_id: Seq<char>) -> bool {
        exists|i: int| 0 <= i < self.contracts@.len() && (#[trigger] self.contracts@[i]).0@
            == contract_id
    }

    pub open spec fn spec_contract_index(self, contract_id: Seq<char>) -> int {
        choose|i: int| 0 <= i < self.contracts@.len() && (#[trigger] self.contracts@[i]).0@
            == contract_id
    }

    pub open spec fn spec_contract_at(self, contract_id: Seq<char>) -> ContractInstanciation {
        self.contracts@[self.spec_contract_index(contract_id)].1
    }

    /// Blocks, index and contracts are consistent: keys are unique, each
    /// block sits under its own hash, and each index entry points at an
    /// archived block of that height.
    pub open spec fn blocks_unique(self) -> bool {
        forall|i: int, j: int|
            0 <= i < self.blocks@.len() && 0 <= j < self.blocks@.len() && i != j ==> (
            #[trigger] self.blocks@[i]).0@ != (#[trigger] self.blocks@[j]).0@
    }

    pub open spec fn index_unique(self) -> bool {
        forall|i: int, j: int|
            0 <= i < self.index@.len() && 0 <= j < self.index@.len() && i != j ==> (
            #[trigger] self.index@[i]).0 != (#[trigger] self.index@[j]).0
    }

    pub open spec fn contracts_unique(self) -> bool {
        forall|i: int, j: int|
            0 <= i < self.contracts@.len() && 0 <= j < self.contracts@.len() && i != j ==> (
            #[trigger] self.contracts@[i]).0@ != (#[trigger] self.contracts@[j]).0@
    }

    pub open spec fn wf_data(self) -> bool {
        &&& self.blocks_unique()
        &&& forall|i: int|
            0 <= i < self.blocks@.len() ==> (#[trigger] self.blocks@[i]).1.spec_block_identifier().hash@
                == self.blocks@[i].0@
        &&& self.index_unique()
        &&& forall|i: int|
            0 <= i < self.index@.len() ==> self.spec_has_block((#[trigger] self.index@[i]).1@)
                && self.spec_block_at(self.index@[i].1@).spec_block_identifier().index
                == self.index@[i].0
        &&& self.contracts_unique()
    }

    /// The tip references an archived block at the highest height the
    /// index holds, or nothing when the index is empty. The tip advances
    /// only when a height exceeds it, so a competing block archived at the
    /// tip's own height supersedes the height index but not the tip; the
    /// tip's block then need not be the one the index names at that
    /// height, but it is still archived at the highest height.
    pub open spec fn wf_tip(self) -> bool {
        match self.tip {
            None => self.index@.len() == 0,
            Some(t) => self.spec_has_block(t.hash@) && self.spec_block_at(
                t.hash@,
            ).spec_block_identifier().index == t.index && self.spec_has_height(t.index)
                && forall|i: int| 0 <= i < self.index@.len() ==> (#[trigger] self.index@[i]).0
                <= t.index,
        }
    }

    pub open spec fn wf(self) -> bool {
        self.wf_data() && self.wf_tip()
    }

    pub fn new() -> (r: BlockArchive)
        ensures
            r.wf(),
            r.blocks@.len() == 0,
            r.index@.len() == 0,
            r.contracts@.len() == 0,
            r.tip is None,
    {
        BlockArchive { blocks: Vec::new(), index: Vec::new(), contracts: Vec::new(), tip: None }
    }

    /// With unique hashes, an index holding `hash` is the one `choose`
    /// picks.
    proof fn lemma_block_index_is(self, hash: Seq<char>, i: int)
        requires
            self.blocks_unique(),
            0 <= i < self.blocks@.len(),
            self.blocks@[i].0@ == hash,
        ensures
            self.spec_has_block(hash),
            self.spec_block_index(hash) == i,
    {
        let j = self.spec_block_index(hash);
    }

    proof fn lemma_height_index_is(self, height: u64, i: int)
        requires
            self.index_unique(),
            0 <= i < self.index@.len(),
            self.index@[i].0 == height,
        ensures
            self.spec_has_height(height),
            self.spec_height_index(height) == i,
    {
        let j = self.spec_height_index(height);
    }

    proof fn lemma_contract_index_is(self, contract_id: Seq<char>, i: int)
        requires
            self.contracts_unique(),
            0 <= i < self.contracts@.len(),
            self.contracts@[i].0@ == contract_id,
        ensures
            self.spec_has_contract(contract_id),
            self.spec_contract_index(contract_id) == i,
    {
        let j = self.spec_contract_index(contract_id);
    }


    /// Block lookups agree between two archives with the same block list.
    proof fn lemma_same_blocks(a: BlockArchive, b: BlockArchive)
        requires
            a.blocks@ == b.blocks@,
            a.blocks_unique(),
        ensures
            forall|h: Seq<char>|
                #![trigger a.spec_has_block(h)]
                #![trigger b.spec_has_block(h)]
                a.spec_has_block(h) == b.spec_has_block(h) && (a.spec_has_block(h)
                    ==> a.spec_block_at(h) == b.spec_block_at(h)),
    {
        assert(b.blocks_unique());
        assert forall|h: Seq<char>|
            #![trigger a.spec_has_block(h)]
            #![trigger b.spec_has_block(h)]
            a.spec_has_block(h) == b.spec_has_block(h) && (a.spec_has_block(h)
                ==> a.spec_block_at(h) == b.spec_block_at(h)) by {
            if a.spec_has_block(h) {
                let q = a.spec_block_index(h);
                a.lemma_block_index_is(h, q);
                b.lemma_block_index_is(h, q);
            }
            if b.spec_has_block(h) {
                let q = b.spec_block_index(h);
                b.lemma_block_index_is(h, q);
                a.lemma_block_index_is(h, q);
            }
        }
    }

    /// Deployment-record lookups agree between two archives with the same
    /// contracts list.
    proof fn lemma_same_contracts(a: BlockArchive, b: BlockArchive)
        requires
            a.contracts@ == b.contracts@,
            a.contracts_unique(),
        ensures
            forall|c: Seq<char>|
                #![trigger a.spec_has_contract(c)]
                #![trigger b.spec_has_contract(c)]
                a.spec_has_contract(c) == b.spec_has_contract(c) && (a.spec_has_contract(c)
                    ==> a.spec_contract_at(c) == b.spec_contract_at(c)),
    {
        assert(b.contracts_unique());
        assert forall|c: Seq<char>|
            #![trigger a.spec_has_contract(c)]
            #![trigger b.spec_has_contract(c)]
            a.spec_has_contract(c) == b.spec_has_contract(c) && (a.spec_has_contract(c)
                ==> a.spec_contract_at(c) == b.spec_contract_at(c)) by {
            if a.spec_has_contract(c) {
                let q = a.spec_contract_index(c);
                a.lemma_contract_index_is(c, q);
                b.lemma_contract_index_is(c, q);
            }
            if b.spec_has_contract(c) {
                let q = b.spec_contract_index(c);
                b.lemma_contract_index_is(c, q);
                a.lemma_contract_index_is(c, q);
            }
        }
    }

    /// Height lookups agree between two archives with the same index.
    proof fn lemma_same_index(a: BlockArchive, b: BlockArchive)
        requires
            a.index@ == b.index@,
            a.index_unique(),
        ensures
            forall|ht: u64|
                #![trigger a.spec_has_height(ht)]
                #![trigger b.spec_has_height(ht)]
                a.spec_has_height(ht) == b.spec_has_height(ht) && (a.spec_has_height(ht)
                    ==> a.spec_hash_at(ht) == b.spec_hash_at(ht)),
    {
        assert(b.index_unique());
        assert forall|ht: u64|
            #![trigger a.spec_has_height(ht)]
            #![trigger b.spec_has_height(ht)]
            a.spec_has_height(ht) == b.spec_has_height(ht) && (a.spec_has_height(ht)
                ==> a.spec_hash_at(ht) == b.spec_hash_at(ht)) by {
            if a.spec_has_height(ht) {
                let q = a.spec_height_index(ht);
                a.lemma_height_index_is(ht, q);
                b.lemma_height_index_is(ht, q);
            }
            if b.spec_has_height(ht) {
                let q = b.spec_height_index(ht);
                b.lemma_height_index_is(ht, q);
                a.lemma_height_index_is(ht, q);
            }
        }
    }

    fn find_block(&self, hash: &str) -> (r: Option<usize>)
        requires
            self.wf_data(),
        ensures
            match r {
                Some(i) => i < self.blocks@.len() && self.blocks@[i as int].0@ == hash@
                    && self.spec_has_block(hash@) && self.spec_block_index(hash@) == i,
                None => !self.spec_has_block(hash@),
            },
    {
        let n = self.blocks.len();
        let mut i: usize = 0;
        while i < n
            invariant
                self.wf_data(),
                n == self.blocks@.len(),
                i <= n,
                forall|k: int| 0 <= k < i ==> (#[trigger] self.blocks@[k]).0@ != hash@,
            decreases n - i,
        {
            if str_eq(self.blocks[i].0.as_str(), hash) {
                proof {
                    self.lemma_block_index_is(hash@, i as int);
                }
                return Some(i);
            }
            i += 1;
        }
        None
    }

    fn find_height(&self, height: u64) -> (r: Option<usize>)
        requires
            self.wf_data(),
        ensures
            match r {
                Some(i) => i < self.index@.len() && self.index@[i as int].0 == height
                    && self.spec_has_height(height) && self.spec_height_index(height) == i,
                None => !self.spec_has_height(height),
            },
    {
        let n = self.index.len();
        let mut i: usize = 0;
        while i < n
            invariant
                self.wf_data(),
                n == self.index@.len(),
                i <= n,
                forall|k: int| 0 <= k < i ==> (#[trigger] self.index@[k]).0 != height,
            decreases n - i,
        {
            if self.index[i].0 == height {
                proof {
                    self.lemma_height_index_is(height, i as int);
                }
                return Some(i);
            }
            i += 1;
        }
        None
    }

    fn find_contract(&self, contract_id: &str) -> (r: Option<usize>)
        requires
            self.contracts_unique(),
        ensures
            match r {
                Some(i) => i < self.contracts@.len() && self.contracts@[i as int].0@
                    == contract_id@ && self.spec_has_contract(contract_id@)
                    && self.spec_contract_index(contract_id@) == i,
                None => !self.spec_has_contract(contract_id@),
            },
    {
        let n = self.contracts.len();
        let mut i: usize = 0;
        while i < n
            invariant
                self.contracts_unique(),
                n == self.contracts@.len(),
                i <= n,
                forall|k: int| 0 <= k < i ==> (#[trigger] self.contracts@[k]).0@ != contract_id@,
            decreases n - i,
        {
            if str_eq(self.contracts[i].0.as_str(), contract_id) {
                proof {
                    self.lemma_contract_index_is(contract_id@, i as int);
                }
                return Some(i);
            }
            i += 1;
        }
        None
    }

    /// Decides, from a block's identifier, whether archiving it would be
    /// rejected: its hash is already archived at a different height, which
    /// re-archiving would corrupt.
    pub fn check_rejects(&self, bid: &BlockIdentifier) -> (r: bool)
        requires
            self.wf_data(),
        ensures
            r == (self.spec_has_block(bid.hash@) && self.spec_block_at(
                bid.hash@,
            ).spec_block_identifier().index != bid.index),
    {
        match self.find_block(bid.hash.as_str()) {
            Some(j) => self.blocks[j].1.block_identifier().index != bid.index,
            None => false,
        }
    }

    /// Point lookup by block hash; absence is a normal result.
    pub fn get_block_by_hash(&self, hash: &str) -> (r: Option<&ChainBlock>)
        requires
            self.wf_data(),
        ensures
            match r {
                Some(b) => self.spec_has_block(hash@) && *b == self.spec_block_at(hash@),
                None => !self.spec_has_block(hash@),
            },
    {
        match self.find_block(hash) {
            Some(i) => Some(&self.blocks[i].1),
            None => None,
        }
    }

    /// Point lookup by height, through the height index.
    pub fn get_block_by_height(&self, height: u64) -> (r: Option<&ChainBlock>)
        requires
            self.wf_data(),
        ensures
            match r {
                Some(b) => self.spec_has_height(height) && *b == self.spec_block_at(
                    self.spec_hash_at(height),
                ),
                None => !self.spec_has_height(height),
            },
    {
        let i = match self.find_height(height) {
            Some(i) => i,
            None => {
                return None;
            },
        };
        match self.find_block(self.index[i].1.as_str()) {
            Some(j) => Some(&self.blocks[j].1),
            None => None,
        }
    }

    /// Reads back a deployment record by contract identifier.
    pub fn read_contract_instanciation(&self, contract_id: &str) -> (r: Option<
        &ContractInstanciation,
    >)
        requires
            self.wf_data(),
        ensures
            match r {
                Some(c) => self.spec_has_contract(contract_id@) && *c == self.spec_contract_at(
                    contract_id@,
                ),
                None => !self.spec_has_contract(contract_id@),
            },
    {
        let n = self.contracts.len();
        let mut i: usize = 0;
        while i < n
            invariant
                self.wf_data(),
                n == self.contracts@.len(),
                i <= n,
                forall|k: int| 0 <= k < i ==> (#[trigger] self.contracts@[k]).0@ != contract_id@,
            decreases n - i,
        {
            if str_eq(self.contracts[i].0.as_str(), contract_id) {
                proof {
                    self.lemma_contract_index_is(contract_id@, i as int);
                }
                return Some(&self.contracts[i].1);
            }
            i += 1;
        }
        None
    }
}


/// A listed identifier matched and removed the index entry at its height:
/// the archived hash at that height was the identifier's own hash.
pub open spec fn spec_removed_height(a: BlockArchive, ids: Seq<BlockIdentifier>, ht: u64) -> bool {
    a.spec_has_height(ht) && exists|k: int|
        0 <= k < ids.len() && (#[trigger] ids[k]).index == ht && ids[k].hash@ == a.spec_hash_at(ht)
}

/// Re-archiving a hash at a different height is corrupt input and is
/// rejected; everything else is accepted.
pub open spec fn spec_archive_rejects(a: BlockArchive, block: ChainBlock) -> bool {
    let bid = block.spec_block_identifier();
    a.spec_has_block(bid.hash@) && a.spec_block_at(bid.hash@).spec_block_identifier().index
        != bid.index
}

/// The full effect of archiving one block: the block sits under its hash,
/// its height maps to its hash, every other block and height entry is
/// untouched, and the tip advanced exactly when the new height reached it.
pub open spec fn spec_block_archived(pre: BlockArchive, post: BlockArchive, block: ChainBlock) -> bool {
    let bid = block.spec_block_identifier();
    &&& post.spec_has_block(bid.hash@)
    &&& post.spec_block_at(bid.hash@) == block
    &&& post.spec_has_height(bid.index)
    &&& post.spec_hash_at(bid.index) == bid.hash@
    &&& forall|h: Seq<char>|
        h != bid.hash@ ==> ((#[trigger] post.spec_has_block(h)) <==> pre.spec_has_block(h)) && (
        pre.spec_has_block(h) ==> post.spec_block_at(h) == pre.spec_block_at(h))
    &&& forall|ht: u64|
        ht != bid.index ==> ((#[trigger] post.spec_has_height(ht)) <==> pre.spec_has_height(ht))
            && (pre.spec_has_height(ht) ==> post.spec_hash_at(ht) == pre.spec_hash_at(ht))
    &&& (post.tip matches Some(t) && t.index >= bid.index && (match pre.tip {
        None => t.index == bid.index && t.hash@ == bid.hash@,
        Some(ot) => if bid.index > ot.index {
            t.index == bid.index && t.hash@ == bid.hash@
        } else {
            t == ot
        },
    }))
}

/// The full effect of deleting a batch of identifiers: every listed
/// matching pair is gone, nothing appears or is altered, nothing else is
/// removed, and the deployment records are untouched. Tip correctness is
/// part of well-formedness.
pub open spec fn spec_blocks_deleted(
    pre: BlockArchive,
    post: BlockArchive,
    ids: Seq<BlockIdentifier>,
) -> bool {
    &&& post.contracts == pre.contracts
    &&& forall|k: int|
        0 <= k < ids.len() ==> !(post.spec_has_height((#[trigger] ids[k]).index)
            && post.spec_hash_at(ids[k].index) == ids[k].hash@)
    &&& forall|ht: u64|
        #[trigger] post.spec_has_height(ht) ==> pre.spec_has_height(ht) && post.spec_hash_at(ht)
            == pre.spec_hash_at(ht)
    &&& forall|h: Seq<char>|
        #[trigger] post.spec_has_block(h) ==> pre.spec_has_block(h) && post.spec_block_at(h)
            == pre.spec_block_at(h)
    &&& forall|ht: u64|
        pre.spec_has_height(ht) && !spec_removed_height(pre, ids, ht)
            ==> #[trigger] post.spec_has_height(ht)
    &&& forall|h: Seq<char>|
        pre.spec_has_block(h) && !spec_removed_hash(pre, ids, h) ==> #[trigger] post.spec_has_block(
            h,
        )
}

/// Transaction `t` of the block deploys the contract named `c`.
pub open spec fn spec_is_deployment_of(block: StacksBlockData, t: int, c: Seq<char>) -> bool {
    0 <= t < block.transactions@.len() && match block.transactions@[t].kind {
        StacksTransactionKind::ContractDeployment(d) => d.contract_identifier@ == c,
        _ => false,
    }
}

/// The deployment record transaction `t` of the block produces.
pub open spec fn spec_deployment_record(block: StacksBlockData, t: int) -> Option<
    ContractInstanciation,
> {
    match block.transactions@[t].kind {
        StacksTransactionKind::ContractDeployment(d) => Some(
            ContractInstanciation {
                block_identifier: block.block_identifier,
                tx_identifier: block.transactions@[t].transaction_identifier,
                code: d.code,
            },
        ),
        _ => None,
    }
}

/// The deployment record of contract `c` is absent from `post` exactly when
/// absent from `pre`, and unchanged where present.
pub open spec fn spec_contract_preserved(pre: BlockArchive, post: BlockArchive, c: Seq<char>) -> bool {
    (post.spec_has_contract(c) <==> pre.spec_has_contract(c)) && (pre.spec_has_contract(c)
        ==> post.spec_contract_at(c) == pre.spec_contract_at(c))
}

/// The archive records for contract `c` the deployment record that one of
/// the block's first `bound` transactions produces.
pub open spec fn spec_block_deployment_recorded(
    a: BlockArchive,
    block: StacksBlockData,
    c: Seq<char>,
    bound: int,
) -> bool {
    a.spec_has_contract(c) && exists|j2: int|
        0 <= j2 < bound && #[trigger] spec_is_deployment_of(block, j2, c) && Some(
            a.spec_contract_at(c),
        ) == spec_deployment_record(block, j2)
}

/// Every contract the block deploys is recorded with the record one of its
/// deployment transactions produces (the last one, when several deploy the
/// same identifier), and no other deployment record is touched.
pub open spec fn spec_deployments_recorded(
    pre: BlockArchive,
    post: BlockArchive,
    block: StacksBlockData,
) -> bool {
    &&& forall|c: Seq<char>|
        (exists|t: int| #[trigger] spec_is_deployment_of(block, t, c))
            ==> #[trigger] spec_block_deployment_recorded(
            post,
            block,
            c,
            block.transactions@.len() as int,
        )
    &&& forall|c: Seq<char>|
        !(exists|t: int| #[trigger] spec_is_deployment_of(block, t, c))
            ==> #[trigger] spec_contract_preserved(pre, post, c)
}

impl BlockArchive {
    /// Stores the block under its hash, maps its height to its hash, and
    /// advances the tip when the height reaches or passes it. Archiving the
    /// identical block twice is a no-op in effect; re-archiving a hash at a
    /// different height is corrupt input and is rejected.
    #[verifier::rlimit(50)]
    pub fn archive_block(&mut self, block: ChainBlock) -> (r: Result<(), ChainStoreError>)
        requires
            old(self).wf(),
        ensures
            final(self).wf(),
            r matches Ok(_) <==> !spec_archive_rejects(*old(self), block),
            r matches Err(e) ==> e == ChainStoreError::DataIntegrityFault && *final(self) == *old(self),
            r matches Ok(_) ==> spec_block_archived(*old(self), *final(self), block),
            final(self).contracts == old(self).contracts,
    {
        let ghost pre = *self;
        let bid = block.block_identifier().duplicate();
        let ghost bh = bid.hash@;
        let ghost bt = bid.index;
        match self.find_block(bid.hash.as_str()) {
            Some(j) => {
                if self.blocks[j].1.block_identifier().index != bid.index {
                    return Err(ChainStoreError::DataIntegrityFault);
                }
                proof {
                    pre.lemma_block_index_is(bh, j as int);
                }
                self.blocks[j].1 = block;
                proof {
                    assert((*self).blocks@ =~= pre.blocks@.update(
                        j as int,
                        (*self).blocks@[j as int],
                    ));
                    assert((*self).blocks@[j as int].0@ == bh);
                    assert((*self).blocks_unique());
                    (*self).lemma_block_index_is(bh, j as int);
                }
            },
            None => {
                let key = bid.hash.clone();
                self.blocks.push((key, block));
                proof {
                    let j = pre.blocks@.len() as int;
                    assert((*self).blocks@ =~= pre.blocks@.push((*self).blocks@[j]));
                    assert((*self).blocks@[j].0@ == bh);
                    assert((*self).blocks_unique());
                    (*self).lemma_block_index_is(bh, j);
                }
            },
        }
        let ghost mid = *self;
        proof {
            // up to here only the block stored under the new hash changed
            assert(mid.spec_has_block(bh) && mid.spec_block_at(bh) == block);
            assert(mid.index@ == pre.index@ && mid.contracts@ == pre.contracts@ && mid.tip
                == pre.tip);
            assert forall|h: Seq<char>| h != bh implies (mid.spec_has_block(h)
                <==> pre.spec_has_block(h)) && (pre.spec_has_block(h) ==> mid.spec_block_at(h)
                == pre.spec_block_at(h)) by {
                if mid.spec_has_block(h) {
                    let q = mid.spec_block_index(h);
                    mid.lemma_block_index_is(h, q);
                    pre.lemma_block_index_is(h, q);
                }
                if pre.spec_has_block(h) {
                    let q = pre.spec_block_index(h);
                    mid.lemma_block_index_is(h, q);
                }
            }
            assert(mid.wf_data()) by {
                BlockArchive::lemma_same_index(pre, mid);
                assert forall|q: int| 0 <= q < mid.index@.len() implies mid.spec_has_block(
                    (#[trigger] mid.index@[q]).1@,
                ) && mid.spec_block_at(mid.index@[q].1@).spec_block_identifier().index
                    == mid.index@[q].0 by {
                    let h2 = pre.index@[q].1@;
                    assert(pre.spec_has_block(h2));
                    if h2 == bh {
                        // an index entry pointing at this hash carried the
                        // height the rejected-input guard pinned
                        assert(pre.spec_block_at(bh).spec_block_identifier().index == bt);
                        assert(mid.index@[q].0 == bt);
                    }
                }
            }
        }
        match self.find_height(bid.index) {
            Some(i) => {
                self.index[i].1 = bid.hash.clone();
                proof {
                    assert((*self).index@ =~= mid.index@.update(
                        i as int,
                        (*self).index@[i as int],
                    ));
                    assert((*self).index@[i as int].0 == bt);
                    assert((*self).index@[i as int].1@ == bh);
                    assert((*self).index_unique());
                    (*self).lemma_height_index_is(bt, i as int);
                }
            },
            None => {
                let key = bid.hash.clone();
                self.index.push((bid.index, key));
                proof {
                    let i = mid.index@.len() as int;
                    assert((*self).index@ =~= mid.index@.push((*self).index@[i]));
                    assert((*self).index@[i].0 == bt);
                    assert((*self).index@[i].1@ == bh);
                    assert((*self).index_unique());
                    (*self).lemma_height_index_is(bt, i);
                }
            },
        }
        let ghost mid2 = *self;
        proof {
            assert(mid2.blocks@ == mid.blocks@);
            assert(mid2.contracts@ == pre.contracts@ && mid2.tip == pre.tip);
            BlockArchive::lemma_same_blocks(mid, mid2);
            assert(mid2.spec_has_height(bt) && mid2.spec_hash_at(bt) == bh);
            assert forall|ht: u64| ht != bt implies (mid2.spec_has_height(ht)
                <==> mid.spec_has_height(ht)) && (mid.spec_has_height(ht) ==> mid2.spec_hash_at(ht)
                == mid.spec_hash_at(ht)) by {
                if mid2.spec_has_height(ht) {
                    let q = mid2.spec_height_index(ht);
                    mid2.lemma_height_index_is(ht, q);
                    mid.lemma_height_index_is(ht, q);
                }
                if mid.spec_has_height(ht) {
                    let q = mid.spec_height_index(ht);
                    mid2.lemma_height_index_is(ht, q);
                }
            }
            assert(mid2.wf_data()) by {
                assert forall|q: int| 0 <= q < mid2.index@.len() implies mid2.spec_has_block(
                    (#[trigger] mid2.index@[q]).1@,
                ) && mid2.spec_block_at(mid2.index@[q].1@).spec_block_identifier().index
                    == mid2.index@[q].0 by {
                    let h2 = mid2.index@[q].1@;
                    if h2 == bh && mid2.index@[q].0 == bt {
                        assert(mid2.spec_has_block(bh));
                    } else {
                        assert(mid.spec_has_block(h2) && mid.spec_block_at(
                            h2,
                        ).spec_block_identifier().index == mid2.index@[q].0) by {
                            // every other entry is one of the old index
                            assert(exists|qq: int|
                                0 <= qq < mid.index@.len() && mid.index@[qq]
                                    == mid2.index@[q]) by {
                                if q < mid.index@.len() && mid2.index@[q] == mid.index@[q] {
                                } else {
                                    assert(mid.index@[q] == mid2.index@[q] || (
                                    mid2.index@[q].0 == bt && mid2.index@[q].1@ == bh));
                                }
                            }
                            let qq = choose|qq: int|
                                0 <= qq < mid.index@.len() && mid.index@[qq] == mid2.index@[q];
                        }
                    }
                }
            }
        }
        let new_tip = match &self.tip {
            None => true,
            Some(t) => bid.index > t.index,
        };
        let ghost old_tip = self.tip;
        if new_tip {
            self.tip = Some(bid);
        }
        proof {
            BlockArchive::lemma_same_blocks(mid2, *self);
            BlockArchive::lemma_same_index(mid2, *self);
            assert((*self).wf_data());
            assert((*self).wf_tip()) by {
                match old_tip {
                    None => {
                        assert(pre.index@.len() == 0);
                        assert((*self).index@.len() == 1);
                        assert((*self).spec_has_block(bh) && (*self).spec_block_at(
                            bh,
                        ).spec_block_identifier().index == bt);
                    },
                    Some(ot) => {
                        if bt > ot.index {
                            assert((*self).spec_has_block(bh) && (*self).spec_block_at(
                                bh,
                            ).spec_block_identifier().index == bt);
                            assert forall|q: int| 0 <= q < (*self).index@.len() implies (
                            #[trigger] (*self).index@[q]).0 <= bt by {
                                if (*self).index@[q].0 != bt {
                                    assert((*self).spec_has_height((*self).index@[q].0)) by {
                                        (*self).lemma_height_index_is((*self).index@[q].0, q);
                                    }
                                    assert(pre.spec_has_height((*self).index@[q].0));
                                    let qq = pre.spec_height_index((*self).index@[q].0);
                                    assert(pre.index@[qq].0 <= ot.index);
                                }
                            }
                        } else {
                            // the tip stays: its block is still archived at
                            // the maximal height, even when a competitor at
                            // that height superseded the index entry
                            assert(pre.spec_has_block(ot.hash@) && pre.spec_block_at(
                                ot.hash@,
                            ).spec_block_identifier().index == ot.index);
                            if ot.hash@ == bh {
                                assert(pre.spec_block_at(bh).spec_block_identifier().index == bt);
                                assert(bt == ot.index);
                                assert((*self).spec_has_block(bh) && (*self).spec_block_at(
                                    bh,
                                ).spec_block_identifier().index == ot.index);
                            } else {
                                assert((*self).spec_has_block(ot.hash@) && (*self).spec_block_at(
                                    ot.hash@,
                                ) == pre.spec_block_at(ot.hash@));
                            }
                            assert((*self).spec_has_height(ot.index)) by {
                                if ot.index == bt {
                                } else {
                                    assert(pre.spec_has_height(ot.index));
                                }
                            }
                            assert forall|q: int| 0 <= q < (*self).index@.len() implies (
                            #[trigger] (*self).index@[q]).0 <= ot.index by {
                                if (*self).index@[q].0 != bt {
                                    (*self).lemma_height_index_is((*self).index@[q].0, q);
                                    assert(pre.spec_has_height((*self).index@[q].0));
                                    let qq = pre.spec_height_index((*self).index@[q].0);
                                    assert(pre.index@[qq].0 <= ot.index);
                                }
                            }
                        }
                    },
                }
            }
        }
        Ok(())
    }

    /// Removes the archived block and index entry for exactly this
    /// identifier, handing the block back. A mismatched hash at that height
    /// means the identifier was already superseded or rolled back: nothing
    /// happens. The tip is left for the caller to recompute after the whole
    /// batch, so only the data part of well-formedness is kept here.
    pub fn take_block(&mut self, id: &BlockIdentifier) -> (r: Option<ChainBlock>)
        requires
            old(self).wf_data(),
        ensures
            final(self).wf_data(),
            final(self).contracts == old(self).contracts,
            final(self).tip == old(self).tip,
            match r {
                None => *final(self) == *old(self) && !(old(self).spec_has_height(id.index) && old(self).spec_hash_at(id.index) == id.hash@),
                Some(b) => {
                    &&& old(self).spec_has_height(id.index)
                    &&& old(self).spec_hash_at(id.index) == id.hash@
                    &&& b == old(self).spec_block_at(id.hash@)
                    &&& !final(self).spec_has_height(id.index)
                    &&& !final(self).spec_has_block(id.hash@)
                    &&& forall|ht: u64|
                        ht != id.index ==> (final(self).spec_has_height(ht) <==> old(self).spec_has_height(ht)) && (old(self).spec_has_height(ht) ==> final(self).spec_hash_at(ht) == old(self).spec_hash_at(ht))
                    &&& forall|h: Seq<char>|
                        h != id.hash@ ==> (final(self).spec_has_block(h) <==> old(self).spec_has_block(h)) && (old(self).spec_has_block(h) ==> final(self).spec_block_at(h) == old(self).spec_block_at(h))
                },
            },
    {
        let ghost pre = *self;
        let i = match self.find_height(id.index) {
            Some(i) => i,
            None => {
                return None;
            },
        };
        if !crate::types::str_eq(self.index[i].1.as_str(), id.hash.as_str()) {
            return None;
        }
        let entry = self.index.remove(i);
        proof {
            assert((*self).index@ =~= pre.index@.remove(i as int));
            assert forall|q: int| 0 <= q < (*self).index@.len() implies #[trigger] (*self).index@[q] == if q < i as int {
                pre.index@[q]
            } else {
                pre.index@[q + 1]
            } by {}
        }
        let ghost mid = *self;
        let j = match self.find_block(entry.1.as_str()) {
            Some(j) => j,
            None => {
                proof {
                    assert(pre.spec_has_block(pre.index@[i as int].1@));
                    let q = pre.spec_block_index(entry.1@);
                    assert(mid.blocks@ == pre.blocks@);
                    mid.lemma_block_index_is(entry.1@, q);
                }
                return None;
            },
        };
        let removed = self.blocks.remove(j);
        proof {
            assert((*self).blocks@ =~= mid.blocks@.remove(j as int));
            assert forall|q: int| 0 <= q < (*self).blocks@.len() implies #[trigger] (*self).blocks@[q] == if q < j as int {
                mid.blocks@[q]
            } else {
                mid.blocks@[q + 1]
            } by {}
            assert((*self).wf_data()) by {
                assert forall|q: int|
                    0 <= q < (*self).index@.len() implies (*self).spec_has_block(
                    (#[trigger] (*self).index@[q]).1@,
                ) && (*self).spec_block_at((*self).index@[q].1@).spec_block_identifier().index
                    == (*self).index@[q].0 by {
                    let qp = if q < i as int { q } else { q + 1 };
                    assert((*self).index@[q] == pre.index@[qp]);
                    assert(pre.spec_has_block(pre.index@[qp].1@));
                    let bq = pre.spec_block_index(pre.index@[qp].1@);
                    // the block a surviving index entry points at is not the
                    // removed one, whose own index entry was the one deleted
                    assert(pre.index@[qp].1@ != pre.index@[i as int].1@) by {
                        if pre.index@[qp].1@ == pre.index@[i as int].1@ {
                            assert(pre.spec_block_at(pre.index@[qp].1@).spec_block_identifier().index
                                == pre.index@[qp].0);
                            assert(pre.spec_block_at(pre.index@[i as int].1@).spec_block_identifier().index
                                == pre.index@[i as int].0);
                        }
                    }
                    assert(bq != j as int) by {
                        mid.lemma_block_index_is(pre.index@[i as int].1@, j as int);
                        if bq == j as int {
                            assert(pre.blocks@[bq].0@ == pre.index@[qp].1@);
                        }
                    }
                    let bq2 = if bq < j as int { bq } else { bq - 1 };
                    assert((*self).blocks@[bq2] == pre.blocks@[bq]);
                    (*self).lemma_block_index_is(pre.index@[qp].1@, bq2);
                }
            }
            assert(!(*self).spec_has_height(id.index)) by {
                if (*self).spec_has_height(id.index) {
                    let q = (*self).spec_height_index(id.index);
                    let qp = if q < i as int { q } else { q + 1 };
                    assert(pre.index@[qp].0 == id.index);
                    pre.lemma_height_index_is(id.index, qp);
                }
            }
            assert(!(*self).spec_has_block(id.hash@)) by {
                if (*self).spec_has_block(id.hash@) {
                    let q = (*self).spec_block_index(id.hash@);
                    let qp = if q < j as int { q } else { q + 1 };
                    assert(pre.blocks@[qp].0@ == id.hash@);
                    pre.lemma_block_index_is(id.hash@, qp);
                    mid.lemma_block_index_is(id.hash@, j as int);
                }
            }
            assert forall|ht: u64| ht != id.index implies ((*self).spec_has_height(ht) <==> pre.spec_has_height(ht))
                && (pre.spec_has_height(ht) ==> (*self).spec_hash_at(ht) == pre.spec_hash_at(ht)) by {
                if (*self).spec_has_height(ht) {
                    let q = (*self).spec_height_index(ht);
                    (*self).lemma_height_index_is(ht, q);
                    let qp = if q < i as int { q } else { q + 1 };
                    pre.lemma_height_index_is(ht, qp);
                }
                if pre.spec_has_height(ht) {
                    let qp = pre.spec_height_index(ht);
                    assert(qp != i as int);
                    let q = if qp < i as int { qp } else { qp - 1 };
                    assert((*self).index@[q] == pre.index@[qp]);
                    (*self).lemma_height_index_is(ht, q);
                }
            }
            assert forall|h: Seq<char>| h != id.hash@ implies ((*self).spec_has_block(h) <==> pre.spec_has_block(h))
                && (pre.spec_has_block(h) ==> (*self).spec_block_at(h) == pre.spec_block_at(h)) by {
                mid.lemma_block_index_is(id.hash@, j as int);
                if (*self).spec_has_block(h) {
                    let q = (*self).spec_block_index(h);
                    (*self).lemma_block_index_is(h, q);
                    let qp = if q < j as int { q } else { q + 1 };
                    pre.lemma_block_index_is(h, qp);
                }
                if pre.spec_has_block(h) {
                    let qp = pre.spec_block_index(h);
                    assert(qp != j as int);
                    let q = if qp < j as int { qp } else { qp - 1 };
                    assert((*self).blocks@[q] == pre.blocks@[qp]);
                    (*self).lemma_block_index_is(h, q);
                }
            }
            pre.lemma_block_index_is(id.hash@, j as int);
        }
        Some(removed.1)
    }

    /// Sets the tip to the highest remaining archived height, or clears it
    /// when nothing remains.
    pub fn recompute_tip(&mut self)
        requires
            old(self).wf_data(),
        ensures
            final(self).wf(),
            final(self).blocks == old(self).blocks,
            final(self).index == old(self).index,
            final(self).contracts == old(self).contracts,
            forall|ht: u64|
                #![trigger final(self).spec_has_height(ht)]
                (final(self).spec_has_height(ht) <==> old(self).spec_has_height(ht)) && (old(self).spec_has_height(ht) ==> final(self).spec_hash_at(ht) == old(self).spec_hash_at(ht)),
            forall|h: Seq<char>|
                #![trigger final(self).spec_has_block(h)]
                (final(self).spec_has_block(h) <==> old(self).spec_has_block(h)) && (old(self).spec_has_block(h) ==> final(self).spec_block_at(h) == old(self).spec_block_at(h)),
    {
        let n = self.index.len();
        let mut best: Option<usize> = None;
        let mut i: usize = 0;
        while i < n
            invariant
                n == self.index@.len(),
                i <= n,
                match best {
                    None => i == 0,
                    Some(b) => b < i && forall|q: int|
                        0 <= q < i ==> (#[trigger] self.index@[q]).0 <= self.index@[b as int].0,
                },
            decreases n - i,
        {
            let better = match best {
                None => true,
                Some(b) => self.index[i].0 > self.index[b].0,
            };
            if better {
                best = Some(i);
            }
            i += 1;
        }
        match best {
            None => {
                self.tip = None;
            },
            Some(b) => {
                let t = BlockIdentifier { index: self.index[b].0, hash: self.index[b].1.clone() };
                proof {
                    self.lemma_height_index_is(self.index@[b as int].0, b as int);
                }
                self.tip = Some(t);
            },
        }
        proof {
            BlockArchive::lemma_same_blocks(*old(self), *self);
            BlockArchive::lemma_same_index(*old(self), *self);
        }
    }

    /// Records (or overwrites) the deployment record of one contract.
    pub fn upsert_contract(&mut self, contract_id: &str, record: ContractInstanciation)
        requires
            old(self).wf(),
        ensures
            final(self).wf(),
            final(self).blocks == old(self).blocks,
            final(self).index == old(self).index,
            final(self).tip == old(self).tip,
            final(self).spec_has_contract(contract_id@),
            final(self).spec_contract_at(contract_id@) == record,
            forall|c: Seq<char>|
                c != contract_id@ ==> (final(self).spec_has_contract(c) <==> old(self).spec_has_contract(c)) && (old(self).spec_has_contract(c) ==> final(self).spec_contract_at(c) == old(self).spec_contract_at(c)),
    {
        let ghost pre = *self;
        match self.find_contract(contract_id) {
            Some(i) => {
                self.contracts[i].1 = record;
                proof {
                    assert((*self).contracts@ =~= pre.contracts@.update(
                        i as int,
                        (*self).contracts@[i as int],
                    ));
                }
            },
            None => {
                let mut owned = String::new();
                owned.append(contract_id);
                self.contracts.push((owned, record));
                proof {
                    let q = pre.contracts@.len() as int;
                    assert((*self).contracts@ =~= pre.contracts@.push((*self).contracts@[q]));
                    assert((*self).contracts@[q].0@ == contract_id@);
                }
            },
        }
        proof {
            assert((*self).contracts_unique());
            assert((*self).wf()) by {
                BlockArchive::lemma_same_blocks(pre, *self);
                BlockArchive::lemma_same_index(pre, *self);
                assert forall|q: int| 0 <= q < (*self).index@.len() implies (*self).spec_has_block(
                    (#[trigger] (*self).index@[q]).1@,
                ) && (*self).spec_block_at((*self).index@[q].1@).spec_block_identifier().index
                    == (*self).index@[q].0 by {
                    assert(pre.spec_has_block(pre.index@[q].1@));
                }
            }
            (*self).lemma_contract_index_is(
                contract_id@,
                choose|q: int|
                    0 <= q < (*self).contracts@.len() && (*self).contracts@[q].0@ == contract_id@,
            );
            assert forall|c: Seq<char>| c != contract_id@ implies ((*self).spec_has_contract(c)
                <==> pre.spec_has_contract(c)) && (pre.spec_has_contract(c)
                ==> (*self).spec_contract_at(c) == pre.spec_contract_at(c)) by {
                if (*self).spec_has_contract(c) {
                    let q = (*self).spec_contract_index(c);
                    (*self).lemma_contract_index_is(c, q);
                    pre.lemma_contract_index_is(c, q);
                }
                if pre.spec_has_contract(c) {
                    let q = pre.spec_contract_index(c);
                    (*self).lemma_contract_index_is(c, q);
                }
            }
        }
    }

    /// Drops the deployment record of one contract, if present.
    pub fn remove_contract(&mut self, contract_id: &str)
        requires
            old(self).wf(),
        ensures
            final(self).wf(),
            final(self).blocks == old(self).blocks,
            final(self).index == old(self).index,
            final(self).tip == old(self).tip,
            !final(self).spec_has_contract(contract_id@),
            forall|c: Seq<char>|
                c != contract_id@ ==> (final(self).spec_has_contract(c) <==> old(self).spec_has_contract(c)) && (old(self).spec_has_contract(c) ==> final(self).spec_contract_at(c) == old(self).spec_contract_at(c)),
            forall|ht: u64|
                #![trigger final(self).spec_has_height(ht)]
                (final(self).spec_has_height(ht) <==> old(self).spec_has_height(ht)) && (old(self).spec_has_height(ht) ==> final(self).spec_hash_at(ht) == old(self).spec_hash_at(ht)),
            forall|h: Seq<char>|
                #![trigger final(self).spec_has_block(h)]
                (final(self).spec_has_block(h) <==> old(self).spec_has_block(h)) && (old(self).spec_has_block(h) ==> final(self).spec_block_at(h) == old(self).spec_block_at(h)),
    {
        let ghost pre = *self;
        let i = match self.find_contract(contract_id) {
            Some(i) => i,
            None => {
                proof {
                    BlockArchive::lemma_same_blocks(pre, *self);
                    BlockArchive::lemma_same_index(pre, *self);
                }
                return ;
            },
        };
        self.contracts.remove(i);
        proof {
            assert((*self).contracts@ =~= pre.contracts@.remove(i as int));
            assert forall|q: int| 0 <= q < (*self).contracts@.len() implies #[trigger] (*self).contracts@[q]
                == if q < i as int {
                pre.contracts@[q]
            } else {
                pre.contracts@[q + 1]
            } by {}
            assert((*self).contracts_unique());
            assert((*self).wf()) by {
                BlockArchive::lemma_same_blocks(pre, *self);
                BlockArchive::lemma_same_index(pre, *self);
                assert forall|q: int| 0 <= q < (*self).index@.len() implies (*self).spec_has_block(
                    (#[trigger] (*self).index@[q]).1@,
                ) && (*self).spec_block_at((*self).index@[q].1@).spec_block_identifier().index
                    == (*self).index@[q].0 by {
                    assert(pre.spec_has_block(pre.index@[q].1@));
                }
            }
            assert(!(*self).spec_has_contract(contract_id@)) by {
                if (*self).spec_has_contract(contract_id@) {
                    let q = (*self).spec_contract_index(contract_id@);
                    let qp = if q < i as int { q } else { q + 1 };
                    pre.lemma_contract_index_is(contract_id@, qp);
                }
            }
            assert forall|c: Seq<char>| c != contract_id@ implies ((*self).spec_has_contract(c)
                <==> pre.spec_has_contract(c)) && (pre.spec_has_contract(c)
                ==> (*self).spec_contract_at(c) == pre.spec_contract_at(c)) by {
                if (*self).spec_has_contract(c) {
                    let q = (*self).spec_contract_index(c);
                    (*self).lemma_contract_index_is(c, q);
                    let qp = if q < i as int { q } else { q + 1 };
                    pre.lemma_contract_index_is(c, qp);
                }
                if pre.spec_has_contract(c) {
                    let qp = pre.spec_contract_index(c);
                    assert(qp != i as int);
                    let q = if qp < i as int { qp } else { qp - 1 };
                    assert((*self).contracts@[q] == pre.contracts@[qp]);
                    (*self).lemma_contract_index_is(c, q);
                }
            }
            BlockArchive::lemma_same_blocks(pre, *self);
            BlockArchive::lemma_same_index(pre, *self);
        }
    }
}

/// A listed identifier matched a block: that block's hash was archived at
/// the identifier's height.
pub open spec fn spec_removed_hash(a: BlockArchive, ids: Seq<BlockIdentifier>, h: Seq<char>) -> bool {
    exists|k: int|
        0 <= k < ids.len() && (#[trigger] ids[k]).hash@ == h && a.spec_has_height(ids[k].index)
            && a.spec_hash_at(ids[k].index) == h
}

impl BlockArchive {
    /// Removes, for each listed identifier, the archived block and index
    /// entry whose height and hash both match; identifiers that match
    /// nothing (never archived, already rolled back, or superseded by a
    /// competing block at the same height) are skipped silently, so a
    /// repeated deletion is a no-op. Afterwards the tip is recomputed from
    /// the highest remaining archived height.
    #[verifier::rlimit(100)]
    pub fn delete_blocks(&mut self, block_ids: &Vec<BlockIdentifier>)
        requires
            old(self).wf(),
        ensures
            final(self).wf(),
            spec_blocks_deleted(*old(self), *final(self), block_ids@),
    {
        let ghost orig = *self;
        let n = block_ids.len();
        let mut k: usize = 0;
        while k < n
            invariant
                n == block_ids@.len(),
                k <= n,
                orig.wf(),
                self.wf_data(),
                self.contracts == orig.contracts,
                forall|ht: u64|
                    #[trigger] self.spec_has_height(ht) ==> orig.spec_has_height(ht)
                        && self.spec_hash_at(ht) == orig.spec_hash_at(ht),
                forall|h: Seq<char>|
                    #[trigger] self.spec_has_block(h) ==> orig.spec_has_block(h)
                        && self.spec_block_at(h) == orig.spec_block_at(h),
                forall|kk: int|
                    0 <= kk < k ==> !(self.spec_has_height((#[trigger] block_ids@[kk]).index)
                        && self.spec_hash_at(block_ids@[kk].index) == block_ids@[kk].hash@),
                forall|ht: u64|
                    orig.spec_has_height(ht) && !spec_removed_height(
                        orig,
                        block_ids@.take(k as int),
                        ht,
                    ) ==> #[trigger] self.spec_has_height(ht),
                forall|h: Seq<char>|
                    orig.spec_has_block(h) && !spec_removed_hash(
                        orig,
                        block_ids@.take(k as int),
                        h,
                    ) ==> #[trigger] self.spec_has_block(h),
            decreases n - k,
        {
            let ghost prev = *self;
            let ghost kk = k as int;
            let taken = self.take_block(&block_ids[k]);
            proof {
                let idk = block_ids@[kk];
                assert(block_ids@.take(kk + 1) =~= block_ids@.take(kk).push(idk));
                assert(forall|m: int|
                    0 <= m < kk ==> #[trigger] block_ids@.take(kk + 1)[m] == block_ids@.take(
                        kk,
                    )[m]);
                assert(block_ids@.take(kk + 1)[kk] == idk);
                if taken is Some {
                    assert(!(*self).spec_has_height(idk.index));
                    assert(!(*self).spec_has_block(idk.hash@));
                    assert forall|kp: int|
                        0 <= kp < kk + 1 implies !((*self).spec_has_height(
                        (#[trigger] block_ids@[kp]).index,
                    ) && (*self).spec_hash_at(block_ids@[kp].index) == block_ids@[kp].hash@) by {
                        if kp < kk && block_ids@[kp].index != idk.index {
                            assert(!(prev.spec_has_height(block_ids@[kp].index)
                                && prev.spec_hash_at(block_ids@[kp].index)
                                == block_ids@[kp].hash@));
                        }
                    }
                    assert forall|ht: u64|
                        orig.spec_has_height(ht) && !spec_removed_height(
                            orig,
                            block_ids@.take(kk + 1),
                            ht,
                        ) implies #[trigger] (*self).spec_has_height(ht) by {
                        assert(!spec_removed_height(orig, block_ids@.take(kk), ht));
                        assert(prev.spec_has_height(ht));
                        if ht == idk.index {
                            assert(prev.spec_hash_at(ht) == orig.spec_hash_at(ht));
                            assert(prev.spec_hash_at(ht) == idk.hash@);
                            assert(spec_removed_height(orig, block_ids@.take(kk + 1), ht));
                        }
                    }
                    assert forall|h: Seq<char>|
                        orig.spec_has_block(h) && !spec_removed_hash(
                            orig,
                            block_ids@.take(kk + 1),
                            h,
                        ) implies #[trigger] (*self).spec_has_block(h) by {
                        assert(!spec_removed_hash(orig, block_ids@.take(kk), h));
                        assert(prev.spec_has_block(h));
                        if h == idk.hash@ {
                            assert(prev.spec_has_height(idk.index) && prev.spec_hash_at(idk.index)
                                == idk.hash@);
                            assert(orig.spec_has_height(idk.index) && orig.spec_hash_at(idk.index)
                                == idk.hash@);
                            assert(spec_removed_hash(orig, block_ids@.take(kk + 1), h));
                        }
                    }
                } else {
                    assert(*self == prev);
                    assert(!(prev.spec_has_height(idk.index) && prev.spec_hash_at(idk.index)
                        == idk.hash@));
                    assert forall|ht: u64|
                        orig.spec_has_height(ht) && !spec_removed_height(
                            orig,
                            block_ids@.take(kk + 1),
                            ht,
                        ) implies #[trigger] (*self).spec_has_height(ht) by {
                        assert(!spec_removed_height(orig, block_ids@.take(kk), ht));
                    }
                    assert forall|h: Seq<char>|
                        orig.spec_has_block(h) && !spec_removed_hash(
                            orig,
                            block_ids@.take(kk + 1),
                            h,
                        ) implies #[trigger] (*self).spec_has_block(h) by {
                        assert(!spec_removed_hash(orig, block_ids@.take(kk), h));
                    }
                }
            }
            k += 1;
        }
        let ghost before_tip = *self;
        self.recompute_tip();
        proof {
            assert(block_ids@.take(n as int) =~= block_ids@);
            BlockArchive::lemma_same_blocks(before_tip, *self);
            BlockArchive::lemma_same_index(before_tip, *self);
        }
    }
}


/// Worker-owned state for the block archives of both chains: one archive
/// per chain, opened once for the worker's lifetime, plus the storage
/// driver describing where a persistence layer would keep them on disk.
#[derive(Clone, Debug)]
pub struct BlockStoreManager {
    pub storage_driver: StorageDriver,
    pub bitcoin: BlockArchive,
    pub stacks: BlockArchive,
}

impl BlockStoreManager {
    pub open spec fn wf(self) -> bool {
        self.bitcoin.wf() && self.stacks.wf()
    }

    pub fn new(storage_driver: StorageDriver) -> (r: BlockStoreManager)
        ensures
            r.wf(),
            r.storage_driver == storage_driver,
            r.bitcoin.blocks@.len() == 0,
            r.bitcoin.index@.len() == 0,
            r.bitcoin.tip is None,
            r.stacks.blocks@.len() == 0,
            r.stacks.index@.len() == 0,
            r.stacks.tip is None,
    {
        BlockStoreManager { storage_driver, bitcoin: BlockArchive::new(), stacks: BlockArchive::new() }
    }

    /// Archives one Bitcoin block: raw block by hash, height-to-hash index
    /// entry, tip update. Succeeds exactly when the hash is not already
    /// archived at a different height, and then has the full effect that
    /// `spec_block_archived` states; a rejected block changes nothing.
    ///
    /// The round-trip reading the block back by hash and by height holds
    /// for every accepted block; a hash already archived at a different
    /// height is corrupt input (on a chain, a hash determines its block)
    /// and is rejected rather than silently re-keyed.
    pub fn store_bitcoin_block(&mut self, block: BitcoinBlockData) -> (r: Result<
        (),
        ChainStoreError,
    >)
        requires
            old(self).wf(),
        ensures
            final(self).wf(),
            final(self).stacks == old(self).stacks,
            final(self).storage_driver == old(self).storage_driver,
            r matches Ok(_) <==> !spec_archive_rejects(old(self).bitcoin, ChainBlock::Bitcoin(block)),
            r matches Err(e) ==> e == ChainStoreError::DataIntegrityFault && *final(self) == *old(self),
            r matches Ok(_) ==> spec_block_archived(
                old(self).bitcoin,
                final(self).bitcoin,
                ChainBlock::Bitcoin(block),
            ),
            final(self).bitcoin.contracts == old(self).bitcoin.contracts,
    {
        self.bitcoin.archive_block(ChainBlock::Bitcoin(block))
    }

    /// Archives one Stacks block and records the deployment record of
    /// every contract-deployment transaction it carries, so that later
    /// queries can recover contract source without rescanning the chain.
    /// Succeeds exactly when the block's hash is not already archived at a
    /// different height, and then has the full `spec_block_archived`
    /// effect with the block's deployments recorded. The block is checked
    /// before anything is written, so a rejected block changes nothing —
    /// no partial write, deployment records included, is ever observable.
    ///
    /// The round-trip reading the block back by hash and by height holds
    /// for every accepted block; a hash already archived at a different
    /// height is corrupt input (on a chain, a hash determines its block)
    /// and is rejected rather than silently re-keyed.
    #[verifier::rlimit(50)]
    pub fn store_stacks_block(&mut self, block: StacksBlockData) -> (r: Result<
        (),
        ChainStoreError,
    >)
        requires
            old(self).wf(),
        ensures
            final(self).wf(),
            final(self).bitcoin == old(self).bitcoin,
            final(self).storage_driver == old(self).storage_driver,
            r matches Ok(_) <==> !spec_archive_rejects(old(self).stacks, ChainBlock::Stacks(block)),
            r matches Err(e) ==> e == ChainStoreError::DataIntegrityFault && *final(self) == *old(self),
            r matches Ok(_) ==> spec_block_archived(
                old(self).stacks,
                final(self).stacks,
                ChainBlock::Stacks(block),
            ),
            r matches Ok(_) ==> spec_deployments_recorded(old(self).stacks, final(self).stacks, block),
    {
        if self.stacks.check_rejects(&block.block_identifier) {
            return Err(ChainStoreError::DataIntegrityFault);
        }
        let n = block.transactions.len();
        let mut t: usize = 0;
        while t < n
            invariant
                old(self).wf(),
                self.wf(),
                n == block.transactions@.len(),
                t <= n,
                self.bitcoin == old(self).bitcoin,
                self.storage_driver == old(self).storage_driver,
                self.stacks.blocks == old(self).stacks.blocks,
                self.stacks.index == old(self).stacks.index,
                self.stacks.tip == old(self).stacks.tip,
                forall|c: Seq<char>|
                    (exists|j: int| 0 <= j < t && #[trigger] spec_is_deployment_of(block, j, c))
                        ==> #[trigger] spec_block_deployment_recorded(
                        self.stacks,
                        block,
                        c,
                        t as int,
                    ),
                forall|c: Seq<char>|
                    !(exists|j: int| 0 <= j < t && #[trigger] spec_is_deployment_of(block, j, c))
                        ==> #[trigger] spec_contract_preserved(old(self).stacks, self.stacks, c),
            decreases n - t,
        {
            let ghost prev = *self;
            let ghost tt = t as int;
            match &block.transactions[t].kind {
                StacksTransactionKind::ContractDeployment(data) => {
                    let record = ContractInstanciation {
                        block_identifier: block.block_identifier.duplicate(),
                        tx_identifier: block.transactions[t].transaction_identifier.duplicate(),
                        code: data.code.clone(),
                    };
                    proof {
                        assert(Some(record) == spec_deployment_record(block, tt));
                    }
                    self.stacks.upsert_contract(data.contract_identifier.as_str(), record);
                    proof {
                        let dc = data.contract_identifier@;
                        assert(spec_is_deployment_of(block, tt, dc));
                        assert forall|c: Seq<char>|
                            (exists|j: int|
                                0 <= j < tt + 1 && #[trigger] spec_is_deployment_of(
                                    block,
                                    j,
                                    c,
                                )) implies #[trigger] spec_block_deployment_recorded(
                            self.stacks,
                            block,
                            c,
                            tt + 1,
                        ) by {
                            if c == dc {
                                assert(Some(self.stacks.spec_contract_at(c))
                                    == spec_deployment_record(block, tt));
                                assert(spec_block_deployment_recorded(
                                    self.stacks,
                                    block,
                                    c,
                                    tt + 1,
                                ));
                            } else {
                                let j = choose|j: int|
                                    0 <= j < tt + 1 && spec_is_deployment_of(block, j, c);
                                assert(0 <= j < tt);
                                assert(exists|j: int|
                                    0 <= j < tt && #[trigger] spec_is_deployment_of(block, j, c));
                                assert(spec_block_deployment_recorded(prev.stacks, block, c, tt));
                                let j2 = choose|j2: int|
                                    0 <= j2 < tt && #[trigger] spec_is_deployment_of(block, j2, c)
                                        && Some(prev.stacks.spec_contract_at(c))
                                        == spec_deployment_record(block, j2);
                                assert(self.stacks.spec_has_contract(c)
                                    && self.stacks.spec_contract_at(c)
                                    == prev.stacks.spec_contract_at(c));
                                assert(spec_block_deployment_recorded(
                                    self.stacks,
                                    block,
                                    c,
                                    tt + 1,
                                ));
                            }
                        }
                        assert forall|c: Seq<char>|
                            !(exists|j: int|
                                0 <= j < tt + 1 && #[trigger] spec_is_deployment_of(
                                    block,
                                    j,
                                    c,
                                )) implies #[trigger] spec_contract_preserved(
                            old(self).stacks,
                            self.stacks,
                            c,
                        ) by {
                            assert(c != dc);
                            assert(!(exists|j: int|
                                0 <= j < tt && #[trigger] spec_is_deployment_of(block, j, c)));
                            assert(spec_contract_preserved(old(self).stacks, prev.stacks, c));
                            assert((self.stacks.spec_has_contract(c)
                                <==> prev.stacks.spec_has_contract(c)) && (
                            prev.stacks.spec_has_contract(c) ==> self.stacks.spec_contract_at(c)
                                == prev.stacks.spec_contract_at(c)));
                            assert(spec_contract_preserved(old(self).stacks, self.stacks, c));
                        }
                    }
                },
                _ => {
                    proof {
                        assert(*self == prev);
                        assert(forall|c: Seq<char>| !spec_is_deployment_of(block, tt, c));
                        assert forall|c: Seq<char>|
                            (exists|j: int|
                                0 <= j < tt + 1 && #[trigger] spec_is_deployment_of(
                                    block,
                                    j,
                                    c,
                                )) implies #[trigger] spec_block_deployment_recorded(
                            self.stacks,
                            block,
                            c,
                            tt + 1,
                        ) by {
                            let j = choose|j: int|
                                0 <= j < tt + 1 && spec_is_deployment_of(block, j, c);
                            assert(0 <= j < tt);
                            assert(exists|j: int|
                                0 <= j < tt && #[trigger] spec_is_deployment_of(block, j, c));
                            assert(spec_block_deployment_recorded(self.stacks, block, c, tt));
                            let j2 = choose|j2: int|
                                0 <= j2 < tt && #[trigger] spec_is_deployment_of(block, j2, c)
                                    && Some(self.stacks.spec_contract_at(c))
                                    == spec_deployment_record(block, j2);
                            assert(spec_block_deployment_recorded(self.stacks, block, c, tt + 1));
                        }
                        assert forall|c: Seq<char>|
                            !(exists|j: int|
                                0 <= j < tt + 1 && #[trigger] spec_is_deployment_of(
                                    block,
                                    j,
                                    c,
                                )) implies #[trigger] spec_contract_preserved(
                            old(self).stacks,
                            self.stacks,
                            c,
                        ) by {
                            assert(!(exists|j: int|
                                0 <= j < tt && #[trigger] spec_is_deployment_of(block, j, c)));
                        }
                    }
                },
            }
            t += 1;
        }
        let ghost mid = *self;
        let r = self.stacks.archive_block(ChainBlock::Stacks(block));
        proof {
            BlockArchive::lemma_same_blocks(old(self).stacks, mid.stacks);
            BlockArchive::lemma_same_index(old(self).stacks, mid.stacks);
            BlockArchive::lemma_same_contracts(mid.stacks, (*self).stacks);
            if r is Ok {
                assert(spec_block_archived(
                    old(self).stacks,
                    (*self).stacks,
                    ChainBlock::Stacks(block),
                )) by {
                    assert(spec_block_archived(
                        mid.stacks,
                        (*self).stacks,
                        ChainBlock::Stacks(block),
                    ));
                    BlockArchive::lemma_same_blocks(old(self).stacks, mid.stacks);
                    BlockArchive::lemma_same_index(old(self).stacks, mid.stacks);
                }
            }
            assert(spec_deployments_recorded(old(self).stacks, (*self).stacks, block)) by {
                BlockArchive::lemma_same_contracts(mid.stacks, (*self).stacks);
                assert forall|c: Seq<char>|
                    (exists|t2: int| #[trigger] spec_is_deployment_of(block, t2, c))
                        implies #[trigger] spec_block_deployment_recorded(
                    (*self).stacks,
                    block,
                    c,
                    n as int,
                ) by {
                    let t2 = choose|t2: int| spec_is_deployment_of(block, t2, c);
                    assert(0 <= t2 < n);
                    assert(exists|j: int|
                        0 <= j < n && #[trigger] spec_is_deployment_of(block, j, c));
                    assert(spec_block_deployment_recorded(mid.stacks, block, c, n as int));
                    let j2 = choose|j2: int|
                        0 <= j2 < n && #[trigger] spec_is_deployment_of(block, j2, c) && Some(
                            mid.stacks.spec_contract_at(c),
                        ) == spec_deployment_record(block, j2);
                    assert((*self).stacks.spec_has_contract(c) && (*self).stacks.spec_contract_at(c)
                        == mid.stacks.spec_contract_at(c));
                    assert(spec_block_deployment_recorded((*self).stacks, block, c, n as int));
                }
                assert forall|c: Seq<char>|
                    !(exists|t2: int| #[trigger] spec_is_deployment_of(block, t2, c))
                        implies #[trigger] spec_contract_preserved(
                    old(self).stacks,
                    (*self).stacks,
                    c,
                ) by {
                    assert(!(exists|j: int|
                        0 <= j < n && #[trigger] spec_is_deployment_of(block, j, c)));
                    assert(spec_contract_preserved(old(self).stacks, mid.stacks, c));
                    assert((mid.stacks.spec_has_contract(c)
                        <==> (*self).stacks.spec_has_contract(c)) && (
                    mid.stacks.spec_has_contract(c) ==> mid.stacks.spec_contract_at(c)
                        == (*self).stacks.spec_contract_at(c)));
                }
            }
        }
        r
    }

    /// Rolls listed Bitcoin blocks out of the archive; unmatched
    /// identifiers are skipped, and the tip is recomputed afterwards.
    pub fn delete_bitcoin_blocks(&mut self, block_ids: Vec<BlockIdentifier>)
        requires
            old(self).wf(),
        ensures
            final(self).wf(),
            final(self).stacks == old(self).stacks,
            final(self).storage_driver == old(self).storage_driver,
            spec_blocks_deleted(old(self).bitcoin, final(self).bitcoin, block_ids@),
    {
        self.bitcoin.delete_blocks(&block_ids);
    }

    /// Rolls listed Stacks blocks out of the archive; unmatched identifiers
    /// are skipped, and the tip is recomputed afterwards.
    pub fn delete_stacks_blocks(&mut self, block_ids: Vec<BlockIdentifier>)
        requires
            old(self).wf(),
        ensures
            final(self).wf(),
            final(self).bitcoin == old(self).bitcoin,
            final(self).storage_driver == old(self).storage_driver,
            spec_blocks_deleted(old(self).stacks, final(self).stacks, block_ids@),
    {
        self.stacks.delete_blocks(&block_ids);
    }

    /// Dispatches one worker message and has, per message, the effect of
    /// the operation it dispatches to; returns whether the worker should
    /// keep running (everything but `Exit`). Archival faults are surfaced
    /// through the per-operation results and do not stop the worker, so
    /// the dispatcher itself discards them; whether an archive message was
    /// accepted is determined by the state alone.
    pub fn handle_message(&mut self, msg: BlockStoreManagerMessage) -> (r: bool)
        requires
            old(self).wf(),
        ensures
            final(self).wf(),
            r == !(msg is Exit),
            final(self).storage_driver == old(self).storage_driver,
            match msg {
                BlockStoreManagerMessage::ArchiveBitcoinBlock(b) => final(self).stacks == old(self).stacks && if spec_archive_rejects(old(self).bitcoin, ChainBlock::Bitcoin(b)) {
                    *final(self) == *old(self)
                } else {
                    spec_block_archived(old(self).bitcoin, final(self).bitcoin, ChainBlock::Bitcoin(b)) && final(self).bitcoin.contracts == old(self).bitcoin.contracts
                },
                BlockStoreManagerMessage::RollbackBitcoinBlocks(ids) => final(self).stacks == old(self).stacks && spec_blocks_deleted(old(self).bitcoin, final(self).bitcoin, ids@),
                BlockStoreManagerMessage::ArchiveStacksBlock(b) => final(self).bitcoin == old(self).bitcoin && if spec_archive_rejects(old(self).stacks, ChainBlock::Stacks(b)) {
                    *final(self) == *old(self)
                } else {
                    spec_block_archived(old(self).stacks, final(self).stacks, ChainBlock::Stacks(b))
                        && spec_deployments_recorded(old(self).stacks, final(self).stacks, b)
                },
                BlockStoreManagerMessage::RollbackStacksBlocks(ids) => final(self).bitcoin == old(self).bitcoin && spec_blocks_deleted(old(self).stacks, final(self).stacks, ids@),
                BlockStoreManagerMessage::Exit => *final(self) == *old(self),
            },
    {
        match msg {
            BlockStoreManagerMessage::ArchiveBitcoinBlock(block) => {
                let _ = self.store_bitcoin_block(block);
                true
            },
            BlockStoreManagerMessage::RollbackBitcoinBlocks(block_ids) => {
                self.delete_bitcoin_blocks(block_ids);
                true
            },
            BlockStoreManagerMessage::ArchiveStacksBlock(block) => {
                let _ = self.store_stacks_block(block);
                true
            },
            BlockStoreManagerMessage::RollbackStacksBlocks(block_ids) => {
                self.delete_stacks_blocks(block_ids);
                true
            },
            BlockStoreManagerMessage::Exit => false,
        }
    }
}


/// Lookups by height and by hash agree.
///
/// In a well-formed archive, the block that the height index leads to is
/// archived under that very hash and carries exactly that height and hash
/// in its own identifier: reading a block back by hash and by height
/// yields the same archived content.
pub proof fn lemma_height_and_hash_lookups_agree(a: BlockArchive, height: u64)
    requires
        a.wf_data(),
        a.spec_has_height(height),
    ensures
        a.spec_has_block(a.spec_hash_at(height)),
        a.spec_block_at(a.spec_hash_at(height)).spec_block_identifier().index == height,
        a.spec_block_at(a.spec_hash_at(height)).spec_block_identifier().hash@ == a.spec_hash_at(
            height,
        ),
{
    let i = a.spec_height_index(height);
    assert(0 <= i < a.index@.len() && a.index@[i].0 == height);
    assert(a.spec_has_block(a.index@[i].1@));
}


} // verus!
