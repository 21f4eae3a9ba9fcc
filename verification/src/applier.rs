use vstd::prelude::*;
use vstd::string::StringSliceAdditionalSpecFns;
use vstd::string::StringExecFns;

verus! {

use crate::errors::ChainStoreError;
use crate::state::ContractStateStore;
use crate::state::addr_eqv;
use crate::state::spec_items_event_total;
use crate::state::spec_log_extended_at;
use crate::state::lemma_log_extended_refl;
use crate::state::lemma_log_extended_push;
use crate::state::lemma_log_extended_trans;
use crate::state::EventLogEntry;
use crate::state::ItemAddress;
use crate::state::StateValue;
use crate::types::ContractInstanciation;
use crate::types::StacksBlockData;
use crate::types::StacksTransactionKind;
use crate::types::TransactionEvent;
use crate::types::str_eq;

/// One fault raised while applying a block, with the position of the
/// transaction that raised it. Malformed events are reported and skipped;
/// the rest of the block is still applied, trading block atomicity for
/// indexer liveness, since the archive keeps the raw block for later
/// reprocessing.
#[derive(Clone, Copy, Debug, PartialEq, Eq, Structural)]
pub struct ApplyFault {
    pub tx_position: usize,
    pub fault: ChainStoreError,
}

/// An asset class identifier belongs to a contract when it is the contract
/// identifier followed by `::` and the asset name, compared by UTF-8 bytes.
pub open spec fn spec_asset_belongs(contract_id: Seq<char>, asset: Seq<char>) -> bool {
    let cb = vstd::utf8::encode_utf8(contract_id);
    let ab = vstd::utf8::encode_utf8(asset);
    ab.len() >= cb.len() + 2 && ab.take(cb.len() as int) == cb && ab[cb.len() as int] == 58u8
        && ab[cb.len() as int + 1] == 58u8
}

/// Decides `spec_asset_belongs`.
fn asset_belongs(contract_id: &str, asset: &str) -> (r: bool)
    ensures
        r == spec_asset_belongs(contract_id@, asset@),
{
    let cb = contract_id.as_bytes();
    let ab = asset.as_bytes();
    let n = cb.len();
    if ab.len() < n || ab.len() - n < 2 {
        return false;
    }
    let mut i: usize = 0;
    while i < n
        invariant
            n == cb@.len(),
            ab@.len() >= n + 2,
            i <= n,
            cb@ == contract_id.spec_bytes(),
            ab@ == asset.spec_bytes(),
            forall|k: int| 0 <= k < i ==> ab@[k] == cb@[k],
        decreases n - i,
    {
        if ab[i] != cb[i] {
            return false;
        }
        i += 1;
    }
    proof {
        assert(ab@.take(n as int) =~= cb@);
    }
    ab[n] == 58u8 && ab[n + 1] == 58u8
}

/// Some known store's contract identifier owns the asset class.
pub open spec fn spec_has_asset_store(s: ContractsState, asset: Seq<char>) -> bool {
    exists|i: int|
        0 <= i < s.stores@.len() && spec_asset_belongs(
            (#[trigger] s.stores@[i]).contract_id@,
            asset,
        )
}

/// The first store, in registration order, whose contract identifier owns
/// the asset class; token events resolve to it.
pub open spec fn spec_asset_store_index(s: ContractsState, asset: Seq<char>) -> int {
    choose|i: int|
        0 <= i < s.stores@.len() && spec_asset_belongs(
            (#[trigger] s.stores@[i]).contract_id@,
            asset,
        ) && forall|k: int|
            0 <= k < i ==> !spec_asset_belongs((#[trigger] s.stores@[k]).contract_id@, asset)
}

/// The first matching position is the index `choose` picks.
proof fn lemma_asset_store_index_is(s: ContractsState, asset: Seq<char>, i: int)
    requires
        0 <= i < s.stores@.len(),
        spec_asset_belongs(s.stores@[i].contract_id@, asset),
        forall|k: int|
            0 <= k < i ==> !spec_asset_belongs((#[trigger] s.stores@[k]).contract_id@, asset),
    ensures
        spec_has_asset_store(s, asset),
        spec_asset_store_index(s, asset) == i,
{
    assert(spec_has_asset_store(s, asset));
    let j = spec_asset_store_index(s, asset);
    assert(0 <= j < s.stores@.len() && spec_asset_belongs(s.stores@[j].contract_id@, asset)
        && forall|k: int|
        0 <= k < j ==> !spec_asset_belongs((#[trigger] s.stores@[k]).contract_id@, asset));
    if i < j {
        assert(!spec_asset_belongs(s.stores@[i].contract_id@, asset));
    }
    if j < i {
        assert(!spec_asset_belongs(s.stores@[j].contract_id@, asset));
    }
}

/// The balance a fungible-token current value carries; an absent item holds
/// nothing.
pub open spec fn spec_balance_of(cur: Option<StateValue>) -> u128 {
    match cur {
        Some(StateValue::Amount(x)) => x,
        _ => 0,
    }
}

/// A mint (or an incoming transfer) is consistent when the item is a
/// balance (or absent) and the new total fits.
pub open spec fn spec_credit_ok(cur: Option<StateValue>, amount: u128) -> bool {
    match cur {
        None => true,
        Some(StateValue::Amount(x)) => amount <= u128::MAX - x,
        Some(StateValue::Text(_)) => false,
    }
}

/// A burn (or an outgoing transfer) is consistent only against an existing
/// balance that covers the amount: burning a token that was never minted is
/// a fault.
pub open spec fn spec_debit_ok(cur: Option<StateValue>, amount: u128) -> bool {
    match cur {
        Some(StateValue::Amount(x)) => x >= amount,
        _ => false,
    }
}

/// The item currently carries this owner.
pub open spec fn spec_owner_is(cur: Option<StateValue>, who: Seq<char>) -> bool {
    match cur {
        Some(StateValue::Text(o)) => o@ == who,
        _ => false,
    }
}

/// The set of per-contract state stores known to the applier: one isolated
/// store per observed contract, keyed by contract identifier.
#[derive(Clone, Debug)]
pub struct ContractsState {
    pub stores: Vec<ContractStateStore>,
}

impl ContractsState {
    pub open spec fn wf(self) -> bool {
        &&& forall|i: int| 0 <= i < self.stores@.len() ==> (#[trigger] self.stores@[i]).wf()
        &&& forall|i: int, j: int|
            0 <= i < self.stores@.len() && 0 <= j < self.stores@.len() && i != j ==> (
            #[trigger] self.stores@[i]).contract_id@ != (#[trigger] self.stores@[j]).contract_id@
    }

    pub open spec fn spec_has_store(self, contract_id: Seq<char>) -> bool {
        exists|i: int|
            0 <= i < self.stores@.len() && (#[trigger] self.stores@[i]).contract_id@ == contract_id
    }

    pub open spec fn spec_store_index(self, contract_id: Seq<char>) -> int {
        choose|i: int|
            0 <= i < self.stores@.len() && (#[trigger] self.stores@[i]).contract_id@ == contract_id
    }

    pub open spec fn spec_store_at(self, contract_id: Seq<char>) -> ContractStateStore {
        self.stores@[self.spec_store_index(contract_id)]
    }

    pub fn new() -> (r: ContractsState)
        ensures
            r.wf(),
            r.stores@.len() == 0,
    {
        ContractsState { stores: Vec::new() }
    }

    proof fn lemma_store_index_is(self, contract_id: Seq<char>, i: int)
        requires
            self.wf(),
            0 <= i < self.stores@.len(),
            self.stores@[i].contract_id@ == contract_id,
        ensures
            self.spec_has_store(contract_id),
            self.spec_store_index(contract_id) == i,
    {
        let j = self.spec_store_index(contract_id);
    }

    fn find_store(&self, contract_id: &str) -> (r: Option<usize>)
        requires
            self.wf(),
        ensures
            match r {
                Some(i) => i < self.stores@.len() && self.stores@[i as int].contract_id@
                    == contract_id@ && self.spec_has_store(contract_id@) && self.spec_store_index(
                    contract_id@,
                ) == i,
                None => !self.spec_has_store(contract_id@),
            },
    {
        let n = self.stores.len();
        let mut i: usize = 0;
        while i < n
            invariant
                self.wf(),
                n == self.stores@.len(),
                i <= n,
                forall|k: int| 0 <= k < i ==> (#[trigger] self.stores@[k]).contract_id@
                    != contract_id@,
            decreases n - i,
        {
            if str_eq(self.stores[i].contract_id.as_str(), contract_id) {
                proof {
                    self.lemma_store_index_is(contract_id@, i as int);
                }
                return Some(i);
            }
            i += 1;
        }
        None
    }

    /// The store whose contract identifier prefixes the asset class
    /// identifier (the chain writes asset classes as
    /// `{contract}::{asset-name}`).
    fn find_store_for_asset(&self, asset: &str) -> (r: Option<usize>)
        requires
            self.wf(),
        ensures
            match r {
                Some(i) => i < self.stores@.len() && spec_has_asset_store(*self, asset@)
                    && spec_asset_store_index(*self, asset@) == i,
                None => !spec_has_asset_store(*self, asset@),
            },
    {
        let n = self.stores.len();
        let mut i: usize = 0;
        while i < n
            invariant
                self.wf(),
                n == self.stores@.len(),
                i <= n,
                forall|k: int|
                    0 <= k < i ==> !spec_asset_belongs(
                        (#[trigger] self.stores@[k]).contract_id@,
                        asset@,
                    ),
            decreases n - i,
        {
            if asset_belongs(self.stores[i].contract_id.as_str(), asset) {
                proof {
                    lemma_asset_store_index_is(*self, asset@, i as int);
                }
                return Some(i);
            }
            i += 1;
        }
        None
    }

    /// Initializes an empty, isolated state-store namespace for a freshly
    /// deployed contract and persists its deployment record. Deploying an
    /// already-deployed contract identifier is a `DataIntegrityFault`.
    pub fn register_contract(&mut self, contract_id: &str, record: ContractInstanciation) -> (r:
        Result<(), ChainStoreError>)
        requires
            old(self).wf(),
        ensures
            final(self).wf(),
            r matches Ok(_) <==> !old(self).spec_has_store(contract_id@),
            r matches Err(e) ==> e == ChainStoreError::DataIntegrityFault && *final(self) == *old(self),
            r matches Ok(_) ==> final(self).spec_has_store(contract_id@) && final(self).spec_store_at(contract_id@).items@.len() == 0 && final(self).spec_store_at(
                contract_id@,
            ).instanciation == Some(record),
            r matches Ok(_) ==> forall|c: Seq<char>|
                c != contract_id@ ==> (final(self).spec_has_store(c) <==> old(self).spec_has_store(
                    c,
                )) && (old(self).spec_has_store(c) ==> final(self).spec_store_at(c) == old(self).spec_store_at(c)),
            r matches Ok(_) ==> final(self).stores@.len() == old(self).stores@.len() + 1
                && forall|k: int|
                0 <= k < old(self).stores@.len() ==> #[trigger] final(self).stores@[k] == old(self).stores@[k],
            spec_state_event_total(final(self).stores@) == spec_state_event_total(
                old(self).stores@,
            ),
    {
        let ghost pre = *self;
        if self.find_store(contract_id).is_some() {
            return Err(ChainStoreError::DataIntegrityFault);
        }
        let mut owned = String::new();
        owned.append(contract_id);
        let mut store = ContractStateStore::new(owned);
        store.store_contract_instanciation(record);
        self.stores.push(store);
        proof {
            let q = pre.stores@.len() as int;
            assert((*self).stores@ =~= pre.stores@.push((*self).stores@[q]));
            assert((*self).stores@[q].contract_id@ == contract_id@);
            lemma_state_total_push(pre.stores@, (*self).stores@[q]);
            (*self).lemma_store_index_is(contract_id@, q);
            assert forall|c: Seq<char>| c != contract_id@ implies ((*self).spec_has_store(c)
                <==> pre.spec_has_store(c)) && (pre.spec_has_store(c) ==> (*self).spec_store_at(c)
                == pre.spec_store_at(c)) by {
                if (*self).spec_has_store(c) {
                    let i = (*self).spec_store_index(c);
                    (*self).lemma_store_index_is(c, i);
                    pre.lemma_store_index_is(c, i);
                }
                if pre.spec_has_store(c) {
                    let i = pre.spec_store_index(c);
                    (*self).lemma_store_index_is(c, i);
                }
            }
        }
        Ok(())
    }

    /// Point lookup across stores: the current value of one item of one
    /// contract, or absence.
    pub fn get_current(&self, contract_id: &str, a: &ItemAddress) -> (r: Option<&StateValue>)
        requires
            self.wf(),
        ensures
            match r {
                Some(v) => self.spec_has_store(contract_id@) && self.spec_store_at(
                    contract_id@,
                ).spec_current(*a) == Some(*v),
                None => !self.spec_has_store(contract_id@) || self.spec_store_at(
                    contract_id@,
                ).spec_current(*a) is None,
            },
    {
        match self.find_store(contract_id) {
            Some(i) => self.stores[i].get_current(a),
            None => None,
        }
    }

    /// Ordered event-log scan across stores, empty for an unknown contract.
    pub fn scan_events(&self, contract_id: &str, a: &ItemAddress, height_bound: Option<u64>) -> (r:
        Vec<EventLogEntry>)
        requires
            self.wf(),
        ensures
            self.spec_has_store(contract_id@) ==> r@ == self.spec_store_at(
                contract_id@,
            ).spec_events(*a).filter(crate::state::height_selected(height_bound)),
            !self.spec_has_store(contract_id@) ==> r@.len() == 0,
            crate::state::events_sorted(r@),
    {
        match self.find_store(contract_id) {
            Some(i) => self.stores[i].scan_events(a, height_bound),
            None => Vec::new(),
        }
    }
}

/// One event log grew by exactly one entry carrying `v`, the current value
/// followed, and every other item of the store kept its log and value.
pub open spec fn spec_store_item_appended(
    pre: ContractStateStore,
    post: ContractStateStore,
    a: ItemAddress,
    height: u64,
    event_index: u32,
    v: Option<StateValue>,
) -> bool {
    &&& post.contract_id == pre.contract_id
    &&& post.instanciation == pre.instanciation
    &&& post.spec_events(a) == pre.spec_events(a).push(
        EventLogEntry { height, event_index, value_after: v },
    )
    &&& post.spec_current(a) == v
    &&& forall|b: ItemAddress|
        !addr_eqv(b, a) ==> post.spec_events(b) == pre.spec_events(b) && post.spec_current(b)
            == pre.spec_current(b)
}

/// Exactly the store at position `i` changed.
pub open spec fn spec_one_store_changed(pre: ContractsState, post: ContractsState, i: int) -> bool {
    &&& 0 <= i < pre.stores@.len()
    &&& post.stores@.len() == pre.stores@.len()
    &&& forall|k: int|
        0 <= k < pre.stores@.len() && k != i ==> #[trigger] post.stores@[k] == pre.stores@[k]
}

/// The event is consistent with prior state: its contract (for variable
/// and map events) or its asset's owning contract (for token events) is
/// known, balances cover debits and credits fit, token ownership matches,
/// and `(height, event_index)` lies above every logged key of the items it
/// touches.
#[verifier::opaque]
pub open spec fn spec_event_admissible(
    s: ContractsState,
    ev: TransactionEvent,
    height: u64,
    event_index: u32,
) -> bool {
    match ev {
        TransactionEvent::DataVarSet { contract_identifier, var, .. } => {
            let a = ItemAddress::Var { name: var };
            s.spec_has_store(contract_identifier@) && s.spec_store_at(
                contract_identifier@,
            ).spec_can_append(a, height, event_index)
        },
        TransactionEvent::DataMapInsert { contract_identifier, map, inserted_key, .. } => {
            let a = ItemAddress::MapEntry { map, entry_key: inserted_key };
            s.spec_has_store(contract_identifier@) && s.spec_store_at(
                contract_identifier@,
            ).spec_can_append(a, height, event_index)
        },
        TransactionEvent::DataMapUpdate { contract_identifier, map, key, .. } => {
            let a = ItemAddress::MapEntry { map, entry_key: key };
            s.spec_has_store(contract_identifier@) && s.spec_store_at(
                contract_identifier@,
            ).spec_can_append(a, height, event_index)
        },
        TransactionEvent::DataMapDelete { contract_identifier, map, deleted_key } => {
            let a = ItemAddress::MapEntry { map, entry_key: deleted_key };
            s.spec_has_store(contract_identifier@) && s.spec_store_at(
                contract_identifier@,
            ).spec_can_append(a, height, event_index)
        },
        TransactionEvent::FTMint { asset_class_identifier, recipient, amount } => {
            let a = ItemAddress::FtBalance { asset: asset_class_identifier, owner: recipient };
            spec_has_asset_store(s, asset_class_identifier@) && {
                let st = s.stores@[spec_asset_store_index(s, asset_class_identifier@)];
                spec_credit_ok(st.spec_current(a), amount) && st.spec_can_append(
                    a,
                    height,
                    event_index,
                )
            }
        },
        TransactionEvent::FTBurn { asset_class_identifier, sender, amount } => {
            let a = ItemAddress::FtBalance { asset: asset_class_identifier, owner: sender };
            spec_has_asset_store(s, asset_class_identifier@) && {
                let st = s.stores@[spec_asset_store_index(s, asset_class_identifier@)];
                spec_debit_ok(st.spec_current(a), amount) && st.spec_can_append(
                    a,
                    height,
                    event_index,
                )
            }
        },
        TransactionEvent::FTTransfer { asset_class_identifier, sender, recipient, amount } => {
            let a_sender = ItemAddress::FtBalance { asset: asset_class_identifier, owner: sender };
            let a_recipient = ItemAddress::FtBalance {
                asset: asset_class_identifier,
                owner: recipient,
            };
            spec_has_asset_store(s, asset_class_identifier@) && {
                let st = s.stores@[spec_asset_store_index(s, asset_class_identifier@)];
                spec_debit_ok(st.spec_current(a_sender), amount) && st.spec_can_append(
                    a_sender,
                    height,
                    event_index,
                ) && (sender@ == recipient@ || (spec_credit_ok(st.spec_current(a_recipient), amount)
                    && st.spec_can_append(a_recipient, height, event_index)))
            }
        },
        TransactionEvent::NFTMint { asset_class_identifier, recipient, asset_identifier } => {
            let a = ItemAddress::NftToken {
                asset: asset_class_identifier,
                token: asset_identifier,
            };
            spec_has_asset_store(s, asset_class_identifier@) && {
                let st = s.stores@[spec_asset_store_index(s, asset_class_identifier@)];
                st.spec_current(a) is None && st.spec_can_append(a, height, event_index)
            }
        },
        TransactionEvent::NFTBurn { asset_class_identifier, sender, asset_identifier } => {
            let a = ItemAddress::NftToken {
                asset: asset_class_identifier,
                token: asset_identifier,
            };
            spec_has_asset_store(s, asset_class_identifier@) && {
                let st = s.stores@[spec_asset_store_index(s, asset_class_identifier@)];
                spec_owner_is(st.spec_current(a), sender@) && st.spec_can_append(
                    a,
                    height,
                    event_index,
                )
            }
        },
        TransactionEvent::NFTTransfer { asset_class_identifier, sender, recipient, asset_identifier } => {
            let a = ItemAddress::NftToken {
                asset: asset_class_identifier,
                token: asset_identifier,
            };
            spec_has_asset_store(s, asset_class_identifier@) && {
                let st = s.stores@[spec_asset_store_index(s, asset_class_identifier@)];
                spec_owner_is(st.spec_current(a), sender@) && st.spec_can_append(
                    a,
                    height,
                    event_index,
                )
            }
        },
    }
}

/// The exact state mutation of one applied event: which store, which item,
/// which appended entry carrying which computed value, with everything else
/// unchanged. A transfer debits the sender and credits the recipient under
/// one event index; a self-transfer nets to nothing and records one entry
/// carrying the unchanged balance.
#[verifier::opaque]
pub open spec fn spec_event_applied(
    pre: ContractsState,
    post: ContractsState,
    ev: TransactionEvent,
    height: u64,
    event_index: u32,
) -> bool {
    match ev {
        TransactionEvent::DataVarSet { contract_identifier, var, new_value } => {
            let i = pre.spec_store_index(contract_identifier@);
            spec_one_store_changed(pre, post, i) && spec_store_item_appended(
                pre.stores@[i],
                post.stores@[i],
                ItemAddress::Var { name: var },
                height,
                event_index,
                Some(StateValue::Text(new_value)),
            )
        },
        TransactionEvent::DataMapInsert { contract_identifier, map, inserted_key, inserted_value } => {
            let i = pre.spec_store_index(contract_identifier@);
            spec_one_store_changed(pre, post, i) && spec_store_item_appended(
                pre.stores@[i],
                post.stores@[i],
                ItemAddress::MapEntry { map, entry_key: inserted_key },
                height,
                event_index,
                Some(StateValue::Text(inserted_value)),
            )
        },
        TransactionEvent::DataMapUpdate { contract_identifier, map, key, new_value } => {
            let i = pre.spec_store_index(contract_identifier@);
            spec_one_store_changed(pre, post, i) && spec_store_item_appended(
                pre.stores@[i],
                post.stores@[i],
                ItemAddress::MapEntry { map, entry_key: key },
                height,
                event_index,
                Some(StateValue::Text(new_value)),
            )
        },
        TransactionEvent::DataMapDelete { contract_identifier, map, deleted_key } => {
            let i = pre.spec_store_index(contract_identifier@);
            spec_one_store_changed(pre, post, i) && spec_store_item_appended(
                pre.stores@[i],
                post.stores@[i],
                ItemAddress::MapEntry { map, entry_key: deleted_key },
                height,
                event_index,
                None,
            )
        },
        TransactionEvent::FTMint { asset_class_identifier, recipient, amount } => {
            let i = spec_asset_store_index(pre, asset_class_identifier@);
            let a = ItemAddress::FtBalance { asset: asset_class_identifier, owner: recipient };
            spec_one_store_changed(pre, post, i) && spec_store_item_appended(
                pre.stores@[i],
                post.stores@[i],
                a,
                height,
                event_index,
                Some(
                    StateValue::Amount(
                        (spec_balance_of(pre.stores@[i].spec_current(a)) + amount) as u128,
                    ),
                ),
            )
        },
        TransactionEvent::FTBurn { asset_class_identifier, sender, amount } => {
            let i = spec_asset_store_index(pre, asset_class_identifier@);
            let a = ItemAddress::FtBalance { asset: asset_class_identifier, owner: sender };
            spec_one_store_changed(pre, post, i) && spec_store_item_appended(
                pre.stores@[i],
                post.stores@[i],
                a,
                height,
                event_index,
                Some(
                    StateValue::Amount(
                        (spec_balance_of(pre.stores@[i].spec_current(a)) - amount) as u128,
                    ),
                ),
            )
        },
        TransactionEvent::FTTransfer { asset_class_identifier, sender, recipient, amount } => {
            let i = spec_asset_store_index(pre, asset_class_identifier@);
            let st = pre.stores@[i];
            let a_sender = ItemAddress::FtBalance { asset: asset_class_identifier, owner: sender };
            let a_recipient = ItemAddress::FtBalance {
                asset: asset_class_identifier,
                owner: recipient,
            };
            if sender@ == recipient@ {
                spec_one_store_changed(pre, post, i) && spec_store_item_appended(
                    st,
                    post.stores@[i],
                    a_sender,
                    height,
                    event_index,
                    Some(StateValue::Amount(spec_balance_of(st.spec_current(a_sender)))),
                )
            } else {
                &&& spec_one_store_changed(pre, post, i)
                &&& post.stores@[i].contract_id == st.contract_id
                &&& post.stores@[i].instanciation == st.instanciation
                &&& post.stores@[i].spec_events(a_sender) == st.spec_events(a_sender).push(
                    EventLogEntry {
                        height,
                        event_index,
                        value_after: Some(
                            StateValue::Amount(
                                (spec_balance_of(st.spec_current(a_sender)) - amount) as u128,
                            ),
                        ),
                    },
                )
                &&& post.stores@[i].spec_current(a_sender) == Some(
                    StateValue::Amount(
                        (spec_balance_of(st.spec_current(a_sender)) - amount) as u128,
                    ),
                )
                &&& post.stores@[i].spec_events(a_recipient) == st.spec_events(a_recipient).push(
                    EventLogEntry {
                        height,
                        event_index,
                        value_after: Some(
                            StateValue::Amount(
                                (spec_balance_of(st.spec_current(a_recipient)) + amount) as u128,
                            ),
                        ),
                    },
                )
                &&& post.stores@[i].spec_current(a_recipient) == Some(
                    StateValue::Amount(
                        (spec_balance_of(st.spec_current(a_recipient)) + amount) as u128,
                    ),
                )
                &&& forall|b: ItemAddress|
                    !addr_eqv(b, a_sender) && !addr_eqv(b, a_recipient)
                        ==> post.stores@[i].spec_events(b) == st.spec_events(b)
                        && post.stores@[i].spec_current(b) == st.spec_current(b)
            }
        },
        TransactionEvent::NFTMint { asset_class_identifier, recipient, asset_identifier } => {
            let i = spec_asset_store_index(pre, asset_class_identifier@);
            spec_one_store_changed(pre, post, i) && spec_store_item_appended(
                pre.stores@[i],
                post.stores@[i],
                ItemAddress::NftToken { asset: asset_class_identifier, token: asset_identifier },
                height,
                event_index,
                Some(StateValue::Text(recipient)),
            )
        },
        TransactionEvent::NFTBurn { asset_class_identifier, sender, asset_identifier } => {
            let i = spec_asset_store_index(pre, asset_class_identifier@);
            spec_one_store_changed(pre, post, i) && spec_store_item_appended(
                pre.stores@[i],
                post.stores@[i],
                ItemAddress::NftToken { asset: asset_class_identifier, token: asset_identifier },
                height,
                event_index,
                None,
            )
        },
        TransactionEvent::NFTTransfer { asset_class_identifier, sender, recipient, asset_identifier } => {
            let i = spec_asset_store_index(pre, asset_class_identifier@);
            spec_one_store_changed(pre, post, i) && spec_store_item_appended(
                pre.stores@[i],
                post.stores@[i],
                ItemAddress::NftToken { asset: asset_class_identifier, token: asset_identifier },
                height,
                event_index,
                Some(StateValue::Text(recipient)),
            )
        },
    }
}

/// One appended entry extends every item's log only at the given height.
proof fn lemma_item_appended_extends(
    pre: ContractStateStore,
    post: ContractStateStore,
    a: ItemAddress,
    height: u64,
    event_index: u32,
    v: Option<StateValue>,
)
    requires
        pre.wf(),
        post.wf(),
        spec_store_item_appended(pre, post, a, height, event_index, v),
    ensures
        forall|b: ItemAddress|
            #![trigger post.spec_events(b)]
            spec_log_extended_at(pre.spec_events(b), post.spec_events(b), height),
{
    assert forall|b: ItemAddress| #![trigger post.spec_events(b)] spec_log_extended_at(
        pre.spec_events(b),
        post.spec_events(b),
        height,
    ) by {
        if addr_eqv(b, a) {
            pre.lemma_events_respect_eqv(a, b);
            post.lemma_events_respect_eqv(a, b);
            lemma_log_extended_push(
                pre.spec_events(b),
                EventLogEntry { height, event_index, value_after: v },
                height,
            );
        } else {
            lemma_log_extended_refl(pre.spec_events(b), height);
        }
    }
}

/// One applied event extends every item's log of every store only at the
/// given height.
proof fn lemma_event_applied_extends(
    pre: ContractsState,
    post: ContractsState,
    ev: TransactionEvent,
    height: u64,
    event_index: u32,
)
    requires
        pre.wf(),
        post.wf(),
        spec_event_applied(pre, post, ev, height, event_index),
    ensures
        post.stores@.len() == pre.stores@.len(),
        forall|k: int, b: ItemAddress|
            #![trigger post.stores@[k].spec_events(b)]
            0 <= k < pre.stores@.len() ==> spec_log_extended_at(
                pre.stores@[k].spec_events(b),
                post.stores@[k].spec_events(b),
                height,
            ),
{
    reveal(spec_event_applied);
    let i: int = match ev {
        TransactionEvent::DataVarSet { contract_identifier, .. } => pre.spec_store_index(
            contract_identifier@,
        ),
        TransactionEvent::DataMapInsert { contract_identifier, .. } => pre.spec_store_index(
            contract_identifier@,
        ),
        TransactionEvent::DataMapUpdate { contract_identifier, .. } => pre.spec_store_index(
            contract_identifier@,
        ),
        TransactionEvent::DataMapDelete { contract_identifier, .. } => pre.spec_store_index(
            contract_identifier@,
        ),
        TransactionEvent::FTMint { asset_class_identifier, .. } => spec_asset_store_index(
            pre,
            asset_class_identifier@,
        ),
        TransactionEvent::FTBurn { asset_class_identifier, .. } => spec_asset_store_index(
            pre,
            asset_class_identifier@,
        ),
        TransactionEvent::FTTransfer { asset_class_identifier, .. } => spec_asset_store_index(
            pre,
            asset_class_identifier@,
        ),
        TransactionEvent::NFTMint { asset_class_identifier, .. } => spec_asset_store_index(
            pre,
            asset_class_identifier@,
        ),
        TransactionEvent::NFTBurn { asset_class_identifier, .. } => spec_asset_store_index(
            pre,
            asset_class_identifier@,
        ),
        TransactionEvent::NFTTransfer { asset_class_identifier, .. } => spec_asset_store_index(
            pre,
            asset_class_identifier@,
        ),
    };
    assert forall|k: int, b: ItemAddress|
        #![trigger post.stores@[k].spec_events(b)]
        0 <= k < pre.stores@.len() implies spec_log_extended_at(
        pre.stores@[k].spec_events(b),
        post.stores@[k].spec_events(b),
        height,
    ) by {
        if k != i {
            lemma_log_extended_refl(pre.stores@[k].spec_events(b), height);
        } else {
            match ev {
                TransactionEvent::FTTransfer { asset_class_identifier, sender, recipient, amount } => {
                    let st = pre.stores@[i];
                    let pst = post.stores@[i];
                    let a_sender = ItemAddress::FtBalance {
                        asset: asset_class_identifier,
                        owner: sender,
                    };
                    let a_recipient = ItemAddress::FtBalance {
                        asset: asset_class_identifier,
                        owner: recipient,
                    };
                    if sender@ == recipient@ {
                        lemma_item_appended_extends(
                            st,
                            pst,
                            a_sender,
                            height,
                            event_index,
                            Some(StateValue::Amount(spec_balance_of(st.spec_current(a_sender)))),
                        );
                    } else {
                        if addr_eqv(b, a_sender) {
                            st.lemma_events_respect_eqv(a_sender, b);
                            pst.lemma_events_respect_eqv(a_sender, b);
                            lemma_log_extended_push(
                                st.spec_events(b),
                                EventLogEntry {
                                    height,
                                    event_index,
                                    value_after: Some(
                                        StateValue::Amount(
                                            (spec_balance_of(st.spec_current(a_sender))
                                                - amount) as u128,
                                        ),
                                    ),
                                },
                                height,
                            );
                        } else if addr_eqv(b, a_recipient) {
                            st.lemma_events_respect_eqv(a_recipient, b);
                            pst.lemma_events_respect_eqv(a_recipient, b);
                            lemma_log_extended_push(
                                st.spec_events(b),
                                EventLogEntry {
                                    height,
                                    event_index,
                                    value_after: Some(
                                        StateValue::Amount(
                                            (spec_balance_of(st.spec_current(a_recipient))
                                                + amount) as u128,
                                        ),
                                    ),
                                },
                                height,
                            );
                        } else {
                            lemma_log_extended_refl(st.spec_events(b), height);
                        }
                    }
                },
                _ => {
                    // every other event appends one entry to one item
                    assert(spec_log_extended_at(
                        pre.stores@[k].spec_events(b),
                        post.stores@[k].spec_events(b),
                        height,
                    )) by {
                        match ev {
                            TransactionEvent::DataVarSet { var, new_value, .. } => {
                                lemma_item_appended_extends(
                                    pre.stores@[i],
                                    post.stores@[i],
                                    ItemAddress::Var { name: var },
                                    height,
                                    event_index,
                                    Some(StateValue::Text(new_value)),
                                );
                            },
                            TransactionEvent::DataMapInsert { map, inserted_key, inserted_value, .. } => {
                                lemma_item_appended_extends(
                                    pre.stores@[i],
                                    post.stores@[i],
                                    ItemAddress::MapEntry { map, entry_key: inserted_key },
                                    height,
                                    event_index,
                                    Some(StateValue::Text(inserted_value)),
                                );
                            },
                            TransactionEvent::DataMapUpdate { map, key, new_value, .. } => {
                                lemma_item_appended_extends(
                                    pre.stores@[i],
                                    post.stores@[i],
                                    ItemAddress::MapEntry { map, entry_key: key },
                                    height,
                                    event_index,
                                    Some(StateValue::Text(new_value)),
                                );
                            },
                            TransactionEvent::DataMapDelete { map, deleted_key, .. } => {
                                lemma_item_appended_extends(
                                    pre.stores@[i],
                                    post.stores@[i],
                                    ItemAddress::MapEntry { map, entry_key: deleted_key },
                                    height,
                                    event_index,
                                    None,
                                );
                            },
                            TransactionEvent::FTMint { asset_class_identifier, recipient, amount } => {
                                let a = ItemAddress::FtBalance {
                                    asset: asset_class_identifier,
                                    owner: recipient,
                                };
                                lemma_item_appended_extends(
                                    pre.stores@[i],
                                    post.stores@[i],
                                    a,
                                    height,
                                    event_index,
                                    Some(
                                        StateValue::Amount(
                                            (spec_balance_of(pre.stores@[i].spec_current(a))
                                                + amount) as u128,
                                        ),
                                    ),
                                );
                            },
                            TransactionEvent::FTBurn { asset_class_identifier, sender, amount } => {
                                let a = ItemAddress::FtBalance {
                                    asset: asset_class_identifier,
                                    owner: sender,
                                };
                                lemma_item_appended_extends(
                                    pre.stores@[i],
                                    post.stores@[i],
                                    a,
                                    height,
                                    event_index,
                                    Some(
                                        StateValue::Amount(
                                            (spec_balance_of(pre.stores@[i].spec_current(a))
                                                - amount) as u128,
                                        ),
                                    ),
                                );
                            },
                            TransactionEvent::NFTMint { asset_class_identifier, recipient, asset_identifier } => {
                                lemma_item_appended_extends(
                                    pre.stores@[i],
                                    post.stores@[i],
                                    ItemAddress::NftToken {
                                        asset: asset_class_identifier,
                                        token: asset_identifier,
                                    },
                                    height,
                                    event_index,
                                    Some(StateValue::Text(recipient)),
                                );
                            },
                            TransactionEvent::NFTBurn { asset_class_identifier, asset_identifier, .. } => {
                                lemma_item_appended_extends(
                                    pre.stores@[i],
                                    post.stores@[i],
                                    ItemAddress::NftToken {
                                        asset: asset_class_identifier,
                                        token: asset_identifier,
                                    },
                                    height,
                                    event_index,
                                    None,
                                );
                            },
                            TransactionEvent::NFTTransfer { asset_class_identifier, recipient, asset_identifier, .. } => {
                                lemma_item_appended_extends(
                                    pre.stores@[i],
                                    post.stores@[i],
                                    ItemAddress::NftToken {
                                        asset: asset_class_identifier,
                                        token: asset_identifier,
                                    },
                                    height,
                                    event_index,
                                    Some(StateValue::Text(recipient)),
                                );
                            },
                            TransactionEvent::FTTransfer { .. } => {},
                        }
                    }
                },
            }
        }
    }
}

/// The total number of event-log entries across all stores.
pub open spec fn spec_state_event_total(stores: Seq<ContractStateStore>) -> int
    decreases stores.len(),
{
    if stores.len() == 0 {
        0
    } else {
        spec_state_event_total(stores.drop_last()) + spec_items_event_total(
            stores.last().items@,
        )
    }
}

proof fn lemma_state_total_update(
    pre: Seq<ContractStateStore>,
    post: Seq<ContractStateStore>,
    i: int,
    d: int,
)
    requires
        pre.len() == post.len(),
        0 <= i < pre.len(),
        forall|k: int| 0 <= k < pre.len() && k != i ==> post[k] == pre[k],
        spec_items_event_total(post[i].items@) == spec_items_event_total(pre[i].items@) + d,
    ensures
        spec_state_event_total(post) == spec_state_event_total(pre) + d,
    decreases pre.len(),
{
    if i == pre.len() - 1 {
        assert(post.drop_last() =~= pre.drop_last());
    } else {
        assert(forall|k: int|
            0 <= k < pre.drop_last().len() && k != i ==> #[trigger] post.drop_last()[k]
                == pre.drop_last()[k]);
        lemma_state_total_update(pre.drop_last(), post.drop_last(), i, d);
        assert(post.last() == pre.last());
    }
}

proof fn lemma_state_total_push(pre: Seq<ContractStateStore>, st: ContractStateStore)
    ensures
        spec_state_event_total(pre.push(st)) == spec_state_event_total(pre)
            + spec_items_event_total(st.items@),
{
    assert(pre.push(st).drop_last() =~= pre);
}

/// How many receipt events the first `t` transactions of a block carry.
pub open spec fn spec_block_event_count_upto(block: StacksBlockData, t: int) -> int
    decreases t,
{
    if t <= 0 {
        0
    } else {
        spec_block_event_count_upto(block, t - 1) + block.transactions@[t - 1].events@.len()
    }
}

/// How many receipt events the whole block carries.
pub open spec fn spec_block_event_count(block: StacksBlockData) -> int {
    spec_block_event_count_upto(block, block.transactions@.len() as int)
}

/// Composes one more applied step into the only-grew-at-height frame.
proof fn lemma_block_extends_step(
    orig: ContractsState,
    prev: ContractsState,
    cur: ContractsState,
    height: u64,
)
    requires
        prev.stores@.len() >= orig.stores@.len(),
        cur.stores@.len() == prev.stores@.len(),
        forall|k: int, b: ItemAddress|
            #![trigger prev.stores@[k].spec_events(b)]
            0 <= k < prev.stores@.len() ==> spec_log_extended_at(
                if k < orig.stores@.len() {
                    orig.stores@[k].spec_events(b)
                } else {
                    Seq::<EventLogEntry>::empty()
                },
                prev.stores@[k].spec_events(b),
                height,
            ),
        forall|k: int, b: ItemAddress|
            #![trigger cur.stores@[k].spec_events(b)]
            0 <= k < prev.stores@.len() ==> spec_log_extended_at(
                prev.stores@[k].spec_events(b),
                cur.stores@[k].spec_events(b),
                height,
            ),
    ensures
        forall|k: int, b: ItemAddress|
            #![trigger cur.stores@[k].spec_events(b)]
            0 <= k < cur.stores@.len() ==> spec_log_extended_at(
                if k < orig.stores@.len() {
                    orig.stores@[k].spec_events(b)
                } else {
                    Seq::<EventLogEntry>::empty()
                },
                cur.stores@[k].spec_events(b),
                height,
            ),
{
    assert forall|k: int, b: ItemAddress|
        #![trigger cur.stores@[k].spec_events(b)]
        0 <= k < cur.stores@.len() implies spec_log_extended_at(
        if k < orig.stores@.len() {
            orig.stores@[k].spec_events(b)
        } else {
            Seq::<EventLogEntry>::empty()
        },
        cur.stores@[k].spec_events(b),
        height,
    ) by {
        let base = if k < orig.stores@.len() {
            orig.stores@[k].spec_events(b)
        } else {
            Seq::<EventLogEntry>::empty()
        };
        lemma_log_extended_trans(
            base,
            prev.stores@[k].spec_events(b),
            cur.stores@[k].spec_events(b),
            height,
        );
    }
}

/// A freshly registered contract extends the frame with an empty log.
proof fn lemma_block_extends_step_register(
    orig: ContractsState,
    prev: ContractsState,
    cur: ContractsState,
    height: u64,
)
    requires
        prev.stores@.len() >= orig.stores@.len(),
        cur.stores@.len() == prev.stores@.len() + 1,
        forall|k: int| 0 <= k < prev.stores@.len() ==> #[trigger] cur.stores@[k] == prev.stores@[k],
        cur.stores@[prev.stores@.len() as int].items@.len() == 0,
        forall|k: int, b: ItemAddress|
            #![trigger prev.stores@[k].spec_events(b)]
            0 <= k < prev.stores@.len() ==> spec_log_extended_at(
                if k < orig.stores@.len() {
                    orig.stores@[k].spec_events(b)
                } else {
                    Seq::<EventLogEntry>::empty()
                },
                prev.stores@[k].spec_events(b),
                height,
            ),
    ensures
        forall|k: int, b: ItemAddress|
            #![trigger cur.stores@[k].spec_events(b)]
            0 <= k < cur.stores@.len() ==> spec_log_extended_at(
                if k < orig.stores@.len() {
                    orig.stores@[k].spec_events(b)
                } else {
                    Seq::<EventLogEntry>::empty()
                },
                cur.stores@[k].spec_events(b),
                height,
            ),
{
    assert forall|k: int, b: ItemAddress|
        #![trigger cur.stores@[k].spec_events(b)]
        0 <= k < cur.stores@.len() implies spec_log_extended_at(
        if k < orig.stores@.len() {
            orig.stores@[k].spec_events(b)
        } else {
            Seq::<EventLogEntry>::empty()
        },
        cur.stores@[k].spec_events(b),
        height,
    ) by {
        if k < prev.stores@.len() {
            assert(cur.stores@[k].spec_events(b) == prev.stores@[k].spec_events(b));
        } else {
            assert(!cur.stores@[k].spec_has_item(b));
            assert(cur.stores@[k].spec_events(b) =~= Seq::<EventLogEntry>::empty());
            lemma_log_extended_refl(Seq::<EventLogEntry>::empty(), height);
        }
    }
}

/// Items whose logs a block left alone keep their current values, since a
/// well-formed store derives every current value from its log.
proof fn lemma_block_untouched_currents(orig: ContractsState, cur: ContractsState)
    requires
        orig.wf(),
        cur.wf(),
        cur.stores@.len() >= orig.stores@.len(),
    ensures
        forall|k: int, b: ItemAddress|
            #![trigger cur.stores@[k].spec_current(b)]
            0 <= k < orig.stores@.len() && cur.stores@[k].spec_events(b)
                == orig.stores@[k].spec_events(b) ==> cur.stores@[k].spec_current(b)
                == orig.stores@[k].spec_current(b),
{
    assert forall|k: int, b: ItemAddress|
        #![trigger cur.stores@[k].spec_current(b)]
        0 <= k < orig.stores@.len() && cur.stores@[k].spec_events(b)
            == orig.stores@[k].spec_events(b) implies cur.stores@[k].spec_current(b)
        == orig.stores@[k].spec_current(b) by {
        orig.stores@[k].lemma_current_matches_latest(b);
        cur.stores@[k].lemma_current_matches_latest(b);
    }
}

impl ContractsState {
    /// Appends one event in the store at a known position, keeping the
    /// store set and every other store untouched.
    fn append_in_store(
        &mut self,
        i: usize,
        a: &ItemAddress,
        height: u64,
        event_index: u32,
        value_after: Option<StateValue>,
    ) -> (r: Result<(), ChainStoreError>)
        requires
            old(self).wf(),
            i < old(self).stores@.len(),
        ensures
            final(self).wf(),
            final(self).stores@.len() == old(self).stores@.len(),
            forall|k: int|
                0 <= k < old(self).stores@.len() ==> (#[trigger] final(self).stores@[k]).contract_id == old(self).stores@[k].contract_id,
            forall|k: int|
                0 <= k < old(self).stores@.len() && k != i ==> #[trigger] final(self).stores@[k]
                    == old(self).stores@[k],
            r matches Ok(_) <==> old(self).stores@[i as int].spec_can_append(
                *a,
                height,
                event_index,
            ),
            r matches Err(e) ==> e == ChainStoreError::DataIntegrityFault && final(self).stores@
                == old(self).stores@,
            r matches Ok(_) ==> spec_store_item_appended(
                old(self).stores@[i as int],
                final(self).stores@[i as int],
                *a,
                height,
                event_index,
                value_after,
            ),
            r matches Ok(_) ==> spec_state_event_total(final(self).stores@)
                == spec_state_event_total(old(self).stores@) + 1,
    {
        let ghost pre = *self;
        let r = self.stores[i].append_event(a, height, event_index, value_after);
        proof {
            assert((*self).stores@ =~= pre.stores@.update(i as int, (*self).stores@[i as int]));
            assert((*self).wf());
            if r is Err {
                assert((*self).stores@ =~= pre.stores@);
            } else {
                lemma_state_total_update(pre.stores@, (*self).stores@, i as int, 1);
            }
        }
        r
    }

    /// Translates one typed transaction event into its state mutation and
    /// applies it with the block height and the per-block event index.
    ///
    /// Succeeds exactly when the event is consistent with prior history
    /// (`spec_event_admissible`), and then the target item's log grows by
    /// exactly one entry carrying the computed value — the new text, the
    /// new balance, the new owner, or a tombstone — with every other item
    /// and store untouched (`spec_event_applied`). A rejected event is a
    /// `DataIntegrityFault` and changes nothing.
    #[verifier::spinoff_prover]
    #[verifier::rlimit(100)]
    pub fn apply_event(&mut self, ev: &TransactionEvent, height: u64, event_index: u32) -> (r:
        Result<(), ChainStoreError>)
        requires
            old(self).wf(),
        ensures
            final(self).wf(),
            final(self).stores@.len() == old(self).stores@.len(),
            forall|k: int|
                0 <= k < old(self).stores@.len() ==> (#[trigger] final(self).stores@[k]).contract_id == old(self).stores@[k].contract_id,
            r matches Ok(_) <==> spec_event_admissible(*old(self), *ev, height, event_index),
            r matches Err(e) ==> e == ChainStoreError::DataIntegrityFault && final(self).stores@
                == old(self).stores@,
            r matches Ok(_) ==> spec_event_applied(*old(self), *final(self), *ev, height, event_index),
            r matches Ok(_) ==> spec_state_event_total(final(self).stores@)
                >= spec_state_event_total(old(self).stores@) + 1,
    {
        proof {
            reveal(spec_event_admissible);
            reveal(spec_event_applied);
        }
        match ev {
            TransactionEvent::DataVarSet { contract_identifier, var, new_value } => {
                let i = match self.find_store(contract_identifier.as_str()) {
                    Some(i) => i,
                    None => {
                        return Err(ChainStoreError::DataIntegrityFault);
                    },
                };
                let a = ItemAddress::Var { name: var.clone() };
                self.append_in_store(
                    i,
                    &a,
                    height,
                    event_index,
                    Some(StateValue::Text(new_value.clone())),
                )
            },
            TransactionEvent::DataMapInsert { contract_identifier, map, inserted_key, inserted_value } => {
                let i = match self.find_store(contract_identifier.as_str()) {
                    Some(i) => i,
                    None => {
                        return Err(ChainStoreError::DataIntegrityFault);
                    },
                };
                let a = ItemAddress::MapEntry { map: map.clone(), entry_key: inserted_key.clone() };
                self.append_in_store(
                    i,
                    &a,
                    height,
                    event_index,
                    Some(StateValue::Text(inserted_value.clone())),
                )
            },
            TransactionEvent::DataMapUpdate { contract_identifier, map, key, new_value } => {
                let i = match self.find_store(contract_identifier.as_str()) {
                    Some(i) => i,
                    None => {
                        return Err(ChainStoreError::DataIntegrityFault);
                    },
                };
                let a = ItemAddress::MapEntry { map: map.clone(), entry_key: key.clone() };
                self.append_in_store(
                    i,
                    &a,
                    height,
                    event_index,
                    Some(StateValue::Text(new_value.clone())),
                )
            },
            TransactionEvent::DataMapDelete { contract_identifier, map, deleted_key } => {
                // a tombstone: the current value goes away while the event
                // stays on record, so history scans see the full lifecycle
                let i = match self.find_store(contract_identifier.as_str()) {
                    Some(i) => i,
                    None => {
                        return Err(ChainStoreError::DataIntegrityFault);
                    },
                };
                let a = ItemAddress::MapEntry { map: map.clone(), entry_key: deleted_key.clone() };
                self.append_in_store(i, &a, height, event_index, None)
            },
            TransactionEvent::FTMint { asset_class_identifier, recipient, amount } => {
                let i = match self.find_store_for_asset(asset_class_identifier.as_str()) {
                    Some(i) => i,
                    None => {
                        return Err(ChainStoreError::DataIntegrityFault);
                    },
                };
                let a = ItemAddress::FtBalance {
                    asset: asset_class_identifier.clone(),
                    owner: recipient.clone(),
                };
                let cur: u128 = match self.stores[i].get_current(&a) {
                    Some(v) => match v {
                        StateValue::Amount(x) => *x,
                        StateValue::Text(_) => {
                            return Err(ChainStoreError::DataIntegrityFault);
                        },
                    },
                    None => 0,
                };
                if *amount > u128::MAX - cur {
                    return Err(ChainStoreError::DataIntegrityFault);
                }
                self.append_in_store(
                    i,
                    &a,
                    height,
                    event_index,
                    Some(StateValue::Amount(cur + *amount)),
                )
            },
            TransactionEvent::FTBurn { asset_class_identifier, sender, amount } => {
                let i = match self.find_store_for_asset(asset_class_identifier.as_str()) {
                    Some(i) => i,
                    None => {
                        return Err(ChainStoreError::DataIntegrityFault);
                    },
                };
                let a = ItemAddress::FtBalance {
                    asset: asset_class_identifier.clone(),
                    owner: sender.clone(),
                };
                let cur: u128 = match self.stores[i].get_current(&a) {
                    Some(v) => match v {
                        StateValue::Amount(x) => *x,
                        StateValue::Text(_) => {
                            return Err(ChainStoreError::DataIntegrityFault);
                        },
                    },
                    None => {
                        // burning a token that was never minted
                        return Err(ChainStoreError::DataIntegrityFault);
                    },
                };
                if cur < *amount {
                    return Err(ChainStoreError::DataIntegrityFault);
                }
                self.append_in_store(
                    i,
                    &a,
                    height,
                    event_index,
                    Some(StateValue::Amount(cur - *amount)),
                )
            },
            TransactionEvent::FTTransfer { asset_class_identifier, sender, recipient, amount } => {
                let i = match self.find_store_for_asset(asset_class_identifier.as_str()) {
                    Some(i) => i,
                    None => {
                        return Err(ChainStoreError::DataIntegrityFault);
                    },
                };
                let a_sender = ItemAddress::FtBalance {
                    asset: asset_class_identifier.clone(),
                    owner: sender.clone(),
                };
                let cur_sender: u128 = match self.stores[i].get_current(&a_sender) {
                    Some(v) => match v {
                        StateValue::Amount(x) => *x,
                        StateValue::Text(_) => {
                            return Err(ChainStoreError::DataIntegrityFault);
                        },
                    },
                    None => {
                        return Err(ChainStoreError::DataIntegrityFault);
                    },
                };
                if cur_sender < *amount {
                    return Err(ChainStoreError::DataIntegrityFault);
                }
                if str_eq(sender.as_str(), recipient.as_str()) {
                    // a self-transfer nets to nothing: one entry records it
                    // and the balance stays what it was
                    return self.append_in_store(
                        i,
                        &a_sender,
                        height,
                        event_index,
                        Some(StateValue::Amount(cur_sender)),
                    );
                }
                let a_recipient = ItemAddress::FtBalance {
                    asset: asset_class_identifier.clone(),
                    owner: recipient.clone(),
                };
                proof {
                    assert(!addr_eqv(a_recipient, a_sender));
                }
                let cur_recipient: u128 = match self.stores[i].get_current(&a_recipient) {
                    Some(v) => match v {
                        StateValue::Amount(x) => *x,
                        StateValue::Text(_) => {
                            return Err(ChainStoreError::DataIntegrityFault);
                        },
                    },
                    None => 0,
                };
                if *amount > u128::MAX - cur_recipient {
                    return Err(ChainStoreError::DataIntegrityFault);
                }
                // both appends must be possible before either happens, so
                // that a rejected transfer leaves no half-applied debit
                if !self.stores[i].can_append_at(&a_recipient, height, event_index) {
                    return Err(ChainStoreError::DataIntegrityFault);
                }
                let r1 = self.append_in_store(
                    i,
                    &a_sender,
                    height,
                    event_index,
                    Some(StateValue::Amount(cur_sender - *amount)),
                );
                if r1.is_err() {
                    return r1;
                }
                let r2 = self.append_in_store(
                    i,
                    &a_recipient,
                    height,
                    event_index,
                    Some(StateValue::Amount(cur_recipient + *amount)),
                );
                r2
            },
            TransactionEvent::NFTMint { asset_class_identifier, recipient, asset_identifier } => {
                let i = match self.find_store_for_asset(asset_class_identifier.as_str()) {
                    Some(i) => i,
                    None => {
                        return Err(ChainStoreError::DataIntegrityFault);
                    },
                };
                let a = ItemAddress::NftToken {
                    asset: asset_class_identifier.clone(),
                    token: asset_identifier.clone(),
                };
                if self.stores[i].get_current(&a).is_some() {
                    // the token already has an owner
                    return Err(ChainStoreError::DataIntegrityFault);
                }
                self.append_in_store(
                    i,
                    &a,
                    height,
                    event_index,
                    Some(StateValue::Text(recipient.clone())),
                )
            },
            TransactionEvent::NFTBurn { asset_class_identifier, sender, asset_identifier } => {
                let i = match self.find_store_for_asset(asset_class_identifier.as_str()) {
                    Some(i) => i,
                    None => {
                        return Err(ChainStoreError::DataIntegrityFault);
                    },
                };
                let a = ItemAddress::NftToken {
                    asset: asset_class_identifier.clone(),
                    token: asset_identifier.clone(),
                };
                let owner_matches = match self.stores[i].get_current(&a) {
                    Some(v) => match v {
                        StateValue::Text(owner) => str_eq(owner.as_str(), sender.as_str()),
                        StateValue::Amount(_) => false,
                    },
                    None => false,
                };
                if !owner_matches {
                    return Err(ChainStoreError::DataIntegrityFault);
                }
                // a tombstone: ownership ends, the burn stays on record
                self.append_in_store(i, &a, height, event_index, None)
            },
            TransactionEvent::NFTTransfer { asset_class_identifier, sender, recipient, asset_identifier } => {
                let i = match self.find_store_for_asset(asset_class_identifier.as_str()) {
                    Some(i) => i,
                    None => {
                        return Err(ChainStoreError::DataIntegrityFault);
                    },
                };
                let a = ItemAddress::NftToken {
                    asset: asset_class_identifier.clone(),
                    token: asset_identifier.clone(),
                };
                let owner_matches = match self.stores[i].get_current(&a) {
                    Some(v) => match v {
                        StateValue::Text(owner) => str_eq(owner.as_str(), sender.as_str()),
                        StateValue::Amount(_) => false,
                    },
                    None => false,
                };
                if !owner_matches {
                    return Err(ChainStoreError::DataIntegrityFault);
                }
                self.append_in_store(
                    i,
                    &a,
                    height,
                    event_index,
                    Some(StateValue::Text(recipient.clone())),
                )
            },
        }
    }

    /// Translates one block's transactions into state mutations, in block
    /// order and then per-transaction event order: deployments initialize
    /// new contract namespaces, and each receipt event is applied under a
    /// monotonically increasing per-block event index. Malformed events are
    /// reported per transaction and skipped; the rest of the block still
    /// applies. Every event log only grows, only with entries at the
    /// block's height, and items the block does not touch keep their
    /// logs and current values.
    ///
    /// The contract below pins the block's shape and its completeness:
    /// deployments registered, growth confined to the block's height,
    /// untouched items preserved, faults typed and positioned, and — when
    /// no fault is reported — at least one appended log entry per receipt
    /// event, so no event is skipped silently. What it does not pin is the
    /// per-event value on a partially faulting block; that per-event
    /// exactness — success exactly when the event is admissible, with the
    /// exact appended entry — is the contract of `apply_event`, which this
    /// loop drives once per event.
    #[verifier::spinoff_prover]
    #[verifier::rlimit(100)]
    pub fn apply_stacks_block(&mut self, block: &StacksBlockData) -> (r: Vec<ApplyFault>)
        requires
            old(self).wf(),
        ensures
            final(self).wf(),
            final(self).stores@.len() >= old(self).stores@.len(),
            forall|k: int|
                0 <= k < old(self).stores@.len() ==> (#[trigger] final(self).stores@[k]).contract_id == old(self).stores@[k].contract_id,
            forall|f: int|
                0 <= f < r@.len() ==> (#[trigger] r@[f]).fault == ChainStoreError::DataIntegrityFault,
            forall|t: int|
                0 <= t < block.transactions@.len() ==> match (#[trigger] block.transactions@[t]).kind {
                    StacksTransactionKind::ContractDeployment(d) => final(self).spec_has_store(d.contract_identifier@),
                    _ => true,
                },
            forall|k: int, b: ItemAddress|
                #![trigger final(self).stores@[k].spec_events(b)]
                0 <= k < final(self).stores@.len() ==> spec_log_extended_at(
                    if k < old(self).stores@.len() {
                        old(self).stores@[k].spec_events(b)
                    } else {
                        Seq::<EventLogEntry>::empty()
                    },
                    final(self).stores@[k].spec_events(b),
                    block.block_identifier.index,
                ),
            forall|k: int, b: ItemAddress|
                #![trigger final(self).stores@[k].spec_current(b)]
                0 <= k < old(self).stores@.len() && final(self).stores@[k].spec_events(b) == old(self).stores@[k].spec_events(b) ==> final(self).stores@[k].spec_current(b) == old(self).stores@[k].spec_current(b),
            // a fault-free application leaves no event silently skipped:
            // every receipt event grew some log by at least one entry
            r@.len() == 0 ==> spec_state_event_total(final(self).stores@)
                >= spec_state_event_total(old(self).stores@) + spec_block_event_count(*block),
    {
        let mut faults: Vec<ApplyFault> = Vec::new();
        let height = block.block_identifier.index;
        let mut event_index: u32 = 0;
        let mut exhausted = false;
        proof {
            assert forall|k: int, b: ItemAddress|
                #![trigger self.stores@[k].spec_events(b)]
                0 <= k < self.stores@.len() implies spec_log_extended_at(
                if k < old(self).stores@.len() {
                    old(self).stores@[k].spec_events(b)
                } else {
                    Seq::<EventLogEntry>::empty()
                },
                self.stores@[k].spec_events(b),
                height,
            ) by {
                lemma_log_extended_refl(self.stores@[k].spec_events(b), height);
            }
        }
        let nt = block.transactions.len();
        let mut t: usize = 0;
        while t < nt
            invariant
                old(self).wf(),
                self.wf(),
                nt == block.transactions@.len(),
                t <= nt,
                height == block.block_identifier.index,
                self.stores@.len() >= old(self).stores@.len(),
                forall|k: int|
                    0 <= k < old(self).stores@.len() ==> (#[trigger] self.stores@[k]).contract_id
                        == old(self).stores@[k].contract_id,
                forall|f: int|
                    0 <= f < faults@.len() ==> (#[trigger] faults@[f]).fault
                        == ChainStoreError::DataIntegrityFault,
                forall|j: int|
                    0 <= j < t ==> match (#[trigger] block.transactions@[j]).kind {
                        StacksTransactionKind::ContractDeployment(d) => self.spec_has_store(d.contract_identifier@),
                        _ => true,
                    },
                forall|k: int, b: ItemAddress|
                    #![trigger self.stores@[k].spec_events(b)]
                    0 <= k < self.stores@.len() ==> spec_log_extended_at(
                        if k < old(self).stores@.len() {
                            old(self).stores@[k].spec_events(b)
                        } else {
                            Seq::<EventLogEntry>::empty()
                        },
                        self.stores@[k].spec_events(b),
                        height,
                    ),
                faults@.len() == 0 ==> spec_state_event_total(self.stores@)
                    >= spec_state_event_total(old(self).stores@) + spec_block_event_count_upto(
                    *block,
                    t as int,
                ),
                faults@.len() == 0 ==> !exhausted,
            decreases nt - t,
        {
            let ghost prev0 = *self;
            match &block.transactions[t].kind {
                StacksTransactionKind::ContractDeployment(data) => {
                    let record = ContractInstanciation {
                        block_identifier: block.block_identifier.duplicate(),
                        tx_identifier: block.transactions[t].transaction_identifier.duplicate(),
                        code: data.code.clone(),
                    };
                    match self.register_contract(data.contract_identifier.as_str(), record) {
                        Ok(_) => {
                            proof {
                                lemma_block_extends_step_register(
                                    *old(self),
                                    prev0,
                                    *self,
                                    height,
                                );
                            }
                        },
                        Err(fault) => {
                            faults.push(ApplyFault { tx_position: t, fault });
                        },
                    }
                },
                _ => {},
            }
            proof {
                assert forall|j: int|
                    0 <= j < t + 1 implies match (#[trigger] block.transactions@[j]).kind {
                    StacksTransactionKind::ContractDeployment(d) => self.spec_has_store(d.contract_identifier@),
                    _ => true,
                } by {
                    match block.transactions@[j].kind {
                        StacksTransactionKind::ContractDeployment(d) => {
                            if j < t {
                                let k = choose|k: int|
                                    0 <= k < prev0.stores@.len() && (#[trigger] prev0.stores@[k]).contract_id@ == d.contract_identifier@;
                                assert(self.stores@[k].contract_id@ == d.contract_identifier@);
                            }
                        },
                        _ => {},
                    }
                }
            }
            let ne = block.transactions[t].events.len();
            if exhausted && ne > 0 {
                // the per-block event index space is spent: report the
                // transaction and skip its events, but keep registering
                // deployments
                faults.push(
                    ApplyFault { tx_position: t, fault: ChainStoreError::DataIntegrityFault },
                );
                t += 1;
                continue ;
            }
            let mut e: usize = 0;
            while e < ne && !exhausted
                invariant
                    old(self).wf(),
                    self.wf(),
                    faults@.len() == 0 ==> !exhausted,
                    t < nt,
                    nt == block.transactions@.len(),
                    ne == block.transactions@[t as int].events@.len(),
                    e <= ne,
                    height == block.block_identifier.index,
                    self.stores@.len() >= old(self).stores@.len(),
                    forall|k: int|
                        0 <= k < old(self).stores@.len() ==> (#[trigger] self.stores@[k]).contract_id == old(self).stores@[k].contract_id,
                    forall|f: int|
                        0 <= f < faults@.len() ==> (#[trigger] faults@[f]).fault
                            == ChainStoreError::DataIntegrityFault,
                    forall|j: int|
                        0 <= j < t + 1 ==> match (#[trigger] block.transactions@[j]).kind {
                            StacksTransactionKind::ContractDeployment(d) => self.spec_has_store(d.contract_identifier@),
                            _ => true,
                        },
                    forall|k: int, b: ItemAddress|
                        #![trigger self.stores@[k].spec_events(b)]
                        0 <= k < self.stores@.len() ==> spec_log_extended_at(
                            if k < old(self).stores@.len() {
                                old(self).stores@[k].spec_events(b)
                            } else {
                                Seq::<EventLogEntry>::empty()
                            },
                            self.stores@[k].spec_events(b),
                            height,
                        ),
                    faults@.len() == 0 ==> spec_state_event_total(self.stores@)
                        >= spec_state_event_total(old(self).stores@)
                        + spec_block_event_count_upto(*block, t as int) + e as int,
                decreases ne - e, (if exhausted { 0int } else { 1int }),
            {
                let ghost prev = *self;
                match self.apply_event(&block.transactions[t].events[e], height, event_index) {
                    Ok(_) => {
                        proof {
                            lemma_event_applied_extends(
                                prev,
                                *self,
                                block.transactions@[t as int].events@[e as int],
                                height,
                                event_index,
                            );
                            lemma_block_extends_step(*old(self), prev, *self, height);
                        }
                    },
                    Err(fault) => {
                        faults.push(ApplyFault { tx_position: t, fault });
                    },
                }
                proof {
                    assert forall|j: int|
                        0 <= j < t + 1 implies match (#[trigger] block.transactions@[j]).kind {
                        StacksTransactionKind::ContractDeployment(d) => self.spec_has_store(d.contract_identifier@),
                        _ => true,
                    } by {
                        match block.transactions@[j].kind {
                            StacksTransactionKind::ContractDeployment(d) => {
                                let k = choose|k: int|
                                    0 <= k < prev.stores@.len() && (#[trigger] prev.stores@[k]).contract_id@ == d.contract_identifier@;
                                assert(self.stores@[k].contract_id@ == d.contract_identifier@);
                            },
                            _ => {},
                        }
                    }
                }
                if event_index == u32::MAX {
                    // no real block carries this many events; stop applying
                    // rather than reuse an index
                    exhausted = true;
                    faults.push(
                        ApplyFault { tx_position: t, fault: ChainStoreError::DataIntegrityFault },
                    );
                } else {
                    event_index += 1;
                    e += 1;
                }
            }
            proof {
                if faults@.len() == 0 {
                    assert(!exhausted);
                    assert(e == ne);
                }
            }
            proof {
                assert(spec_block_event_count_upto(*block, t as int + 1)
                    == spec_block_event_count_upto(*block, t as int)
                    + block.transactions@[t as int].events@.len());
            }
            t += 1;
        }
        proof {
            lemma_block_untouched_currents(*old(self), *self);
        }
        faults
    }

    /// Rolls one height out of every store: every event logged at that
    /// height is deleted and every touched current value is recomputed
    /// from the remaining log.
    pub fn undo_all_at_height(&mut self, height: u64)
        requires
            old(self).wf(),
        ensures
            final(self).wf(),
            final(self).stores@.len() == old(self).stores@.len(),
            forall|k: int|
                0 <= k < old(self).stores@.len() ==> (#[trigger] final(self).stores@[k]).contract_id == old(self).stores@[k].contract_id && final(self).stores@[k].instanciation == old(self).stores@[k].instanciation,
            forall|k: int, b: ItemAddress|
                0 <= k < old(self).stores@.len() ==> #[trigger] final(self).stores@[k].spec_events(
                    b,
                ) == crate::state::spec_remove_height(old(self).stores@[k].spec_events(b), height),
    {
        let ghost orig = *self;
        let n = self.stores.len();
        let mut i: usize = 0;
        while i < n
            invariant
                n == orig.stores@.len(),
                n == self.stores@.len(),
                i <= n,
                orig.wf(),
                self.wf(),
                forall|k: int|
                    0 <= k < n ==> (#[trigger] self.stores@[k]).contract_id
                        == orig.stores@[k].contract_id && self.stores@[k].instanciation
                        == orig.stores@[k].instanciation,
                forall|k: int| i <= k < n ==> #[trigger] self.stores@[k] == orig.stores@[k],
                forall|k: int, b: ItemAddress|
                    0 <= k < i ==> #[trigger] self.stores@[k].spec_events(b)
                        == crate::state::spec_remove_height(orig.stores@[k].spec_events(b), height),
            decreases n - i,
        {
            let ghost prev = *self;
            self.stores[i].undo_block_at_height(height);
            proof {
                assert((*self).stores@ =~= prev.stores@.update(i as int, (*self).stores@[i as int]));
            }
            i += 1;
        }
    }

    /// Wipes the store of a decommissioned contract (its deployment was
    /// rolled back): current values, event logs and deployment record.
    pub fn delete_contract(&mut self, contract_id: &str)
        requires
            old(self).wf(),
        ensures
            final(self).wf(),
            final(self).stores@.len() == old(self).stores@.len(),
            forall|k: int|
                0 <= k < old(self).stores@.len() ==> (#[trigger] final(self).stores@[k]).contract_id == old(self).stores@[k].contract_id,
            old(self).spec_has_store(contract_id@) ==> final(self).spec_store_at(
                contract_id@,
            ).items@.len() == 0 && final(self).spec_store_at(contract_id@).instanciation is None,
            forall|k: int|
                0 <= k < old(self).stores@.len() && (#[trigger] old(self).stores@[k]).contract_id@
                    != contract_id@ ==> final(self).stores@[k] == old(self).stores@[k],
            forall|k: int|
                0 <= k < old(self).stores@.len() ==> #[trigger] final(self).stores@[k] == old(self).stores@[k] || (final(self).stores@[k].items@.len() == 0 && final(self).stores@[k].instanciation is None),
    {
        let ghost pre = *self;
        let i = match self.find_store(contract_id) {
            Some(i) => i,
            None => {
                return ;
            },
        };
        self.stores[i].delete_all();
        proof {
            assert((*self).stores@ =~= pre.stores@.update(i as int, (*self).stores@[i as int]));
            (*self).lemma_store_index_is(contract_id@, i as int);
        }
    }
}


} // verus!
