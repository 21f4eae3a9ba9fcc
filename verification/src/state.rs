use vstd::prelude::*;

verus! {

use crate::errors::ChainStoreError;
use crate::types::ContractInstanciation;

/// Address of one piece of mutable state inside a contract: a variable, a
/// map entry, a fungible-token balance or a non-fungible-token owner.
#[derive(Clone, Debug, PartialEq, Eq)]
pub enum ItemAddress {
    Var { name: String },
    MapEntry { map: String, entry_key: String },
    FtBalance { asset: String, owner: String },
    NftToken { asset: String, token: String },
}

/// Two addresses name the same item exactly when they are the same variant
/// with the same character content.
pub open spec fn addr_eqv(a: ItemAddress, b: ItemAddress) -> bool {
    match (a, b) {
        (ItemAddress::Var { name: n1 }, ItemAddress::Var { name: n2 }) => n1@ == n2@,
        (
            ItemAddress::MapEntry { map: m1, entry_key: k1 },
            ItemAddress::MapEntry { map: m2, entry_key: k2 },
        ) => m1@ == m2@ && k1@ == k2@,
        (
            ItemAddress::FtBalance { asset: a1, owner: o1 },
            ItemAddress::FtBalance { asset: a2, owner: o2 },
        ) => a1@ == a2@ && o1@ == o2@,
        (
            ItemAddress::NftToken { asset: a1, token: t1 },
            ItemAddress::NftToken { asset: a2, token: t2 },
        ) => a1@ == a2@ && t1@ == t2@,
        _ => false,
    }
}

impl ItemAddress {
    pub fn duplicate(&self) -> (r: ItemAddress)
        ensures
            r == *self,
    {
        match self {
            ItemAddress::Var { name } => ItemAddress::Var { name: name.clone() },
            ItemAddress::MapEntry { map, entry_key } => ItemAddress::MapEntry {
                map: map.clone(),
                entry_key: entry_key.clone(),
            },
            ItemAddress::FtBalance { asset, owner } => ItemAddress::FtBalance {
                asset: asset.clone(),
                owner: owner.clone(),
            },
            ItemAddress::NftToken { asset, token } => ItemAddress::NftToken {
                asset: asset.clone(),
                token: token.clone(),
            },
        }
    }

    /// Decides `addr_eqv`.
    pub fn matches(&self, other: &ItemAddress) -> (r: bool)
        ensures
            r == addr_eqv(*self, *other),
    {
        match (self, other) {
            (ItemAddress::Var { name: n1 }, ItemAddress::Var { name: n2 }) => *n1 == *n2,
            (
                ItemAddress::MapEntry { map: m1, entry_key: k1 },
                ItemAddress::MapEntry { map: m2, entry_key: k2 },
            ) => *m1 == *m2 && *k1 == *k2,
            (
                ItemAddress::FtBalance { asset: a1, owner: o1 },
                ItemAddress::FtBalance { asset: a2, owner: o2 },
            ) => *a1 == *a2 && *o1 == *o2,
            (
                ItemAddress::NftToken { asset: a1, token: t1 },
                ItemAddress::NftToken { asset: a2, token: t2 },
            ) => *a1 == *a2 && *t1 == *t2,
            _ => false,
        }
    }
}

/// The current value of an item: text for variables, map entries and token
/// owners, an amount for fungible-token balances.
#[derive(Clone, Debug, PartialEq, Eq)]
pub enum StateValue {
    Text(String),
    Amount(u128),
}

impl StateValue {
    pub fn duplicate(&self) -> (r: StateValue)
        ensures
            r == *self,
    {
        match self {
            StateValue::Text(s) => StateValue::Text(s.clone()),
            StateValue::Amount(a) => StateValue::Amount(*a),
        }
    }
}

pub fn duplicate_value_opt(v: &Option<StateValue>) -> (r: Option<StateValue>)
    ensures
        r == *v,
{
    match v {
        Some(x) => Some(x.duplicate()),
        None => None,
    }
}

/// One immutable record of a mutation to an item. `value_after` is the
/// current value the mutation produced; `None` is a tombstone (a map-entry
/// deletion or a token burn), recorded so that history scans see the full
/// lifecycle.
#[derive(Clone, Debug, PartialEq, Eq)]
pub struct EventLogEntry {
    pub height: u64,
    pub event_index: u32,
    pub value_after: Option<StateValue>,
}

impl EventLogEntry {
    pub fn duplicate(&self) -> (r: EventLogEntry)
        ensures
            r == *self,
    {
        EventLogEntry {
            height: self.height,
            event_index: self.event_index,
            value_after: duplicate_value_opt(&self.value_after),
        }
    }
}

/// Strict order on event-log keys: by height, then by event index.
pub open spec fn event_key_lt(a: EventLogEntry, b: EventLogEntry) -> bool {
    a.height < b.height || (a.height == b.height && a.event_index < b.event_index)
}

/// Strictly increasing `(height, event_index)` keys.
pub open spec fn events_sorted(events: Seq<EventLogEntry>) -> bool {
    forall|i: int, j: int|
        0 <= i < j < events.len() ==> #[trigger] event_key_lt(events[i], events[j])
}

/// One addressable item: its stored current value and its event log.
#[derive(Clone, Debug, PartialEq, Eq)]
pub struct ItemRecord {
    pub addr: ItemAddress,
    pub current: Option<StateValue>,
    pub events: Vec<EventLogEntry>,
}

/// Current-value and event-log storage for one contract, plus the record of
/// the contract's deployment.
///
/// The store is event-sourced: every change to a current value goes through
/// `append_event`, which writes the log entry and the current value as one
/// atomic unit, and rollback recomputes current values from the remaining
/// log entries rather than trusting any cached predecessor.
#[derive(Clone, Debug)]
pub struct ContractStateStore {
    pub contract_id: String,
    pub instanciation: Option<ContractInstanciation>,
    pub items: Vec<ItemRecord>,
}

impl ContractStateStore {
    /// Well-formedness: item addresses are unique; each item holds at least
    /// one event; event keys are strictly increasing; and the stored current
    /// value is the value carried by the last (highest-ordered) event.
    pub open spec fn wf(self) -> bool {
        &&& forall|i: int, j: int|
            0 <= i < self.items@.len() && 0 <= j < self.items@.len() && i != j ==> !#[trigger] addr_eqv(
                self.items@[i].addr,
                self.items@[j].addr,
            )
        &&& forall|i: int|
            0 <= i < self.items@.len() ==> events_sorted(#[trigger] self.items@[i].events@)
        &&& forall|i: int| 0 <= i < self.items@.len() ==> (#[trigger] self.items@[i]).events@.len() > 0
        &&& forall|i: int|
            0 <= i < self.items@.len() ==> (#[trigger] self.items@[i]).current == self.items@[i].events@.last().value_after
    }

    pub open spec fn spec_has_item(self, a: ItemAddress) -> bool {
        exists|i: int| 0 <= i < self.items@.len() && addr_eqv(#[trigger] self.items@[i].addr, a)
    }

    pub open spec fn spec_item_index(self, a: ItemAddress) -> int {
        choose|i: int| 0 <= i < self.items@.len() && addr_eqv(#[trigger] self.items@[i].addr, a)
    }

    /// The item's event log, ordered by `(height, event_index)`; empty when
    /// the item is absent.
    pub open spec fn spec_events(self, a: ItemAddress) -> Seq<EventLogEntry> {
        if self.spec_has_item(a) {
            self.items@[self.spec_item_index(a)].events@
        } else {
            Seq::empty()
        }
    }

    /// The item's queryable current value; `None` when the item is absent or
    /// its latest event is a tombstone.
    pub open spec fn spec_current(self, a: ItemAddress) -> Option<StateValue> {
        if self.spec_has_item(a) {
            self.items@[self.spec_item_index(a)].current
        } else {
            None
        }
    }

    /// An empty store for a freshly deployed contract.
    pub fn new(contract_id: String) -> (r: ContractStateStore)
        ensures
            r.wf(),
            r.contract_id@ == contract_id@,
            r.instanciation is None,
            r.items@.len() == 0,
            forall|b: ItemAddress| r.spec_events(b) == Seq::<EventLogEntry>::empty(),
            forall|b: ItemAddress| r.spec_current(b) is None,
    {
        ContractStateStore { contract_id, instanciation: None, items: Vec::new() }
    }

    /// With unique addresses, an index holding `a` is the index `choose`
    /// picks.
    pub proof fn lemma_index_is_unique(self, a: ItemAddress, i: int)
        requires
            self.wf(),
            0 <= i < self.items@.len(),
            addr_eqv(self.items@[i].addr, a),
        ensures
            self.spec_has_item(a),
            self.spec_item_index(a) == i,
    {
        assert(self.spec_has_item(a));
        let j = self.spec_item_index(a);
        assert(0 <= j < self.items@.len() && addr_eqv(self.items@[j].addr, a));
        if i != j {
            assert(addr_eqv(self.items@[i].addr, self.items@[j].addr));
        }
    }

    fn find_item(&self, a: &ItemAddress) -> (r: Option<usize>)
        requires
            self.wf(),
        ensures
            match r {
                Some(i) => i < self.items@.len() && addr_eqv(self.items@[i as int].addr, *a)
                    && self.spec_has_item(*a) && self.spec_item_index(*a) == i,
                None => !self.spec_has_item(*a),
            },
    {
        let n = self.items.len();
        let mut i: usize = 0;
        while i < n
            invariant
                n == self.items@.len(),
                i <= n,
                self.wf(),
                forall|k: int| 0 <= k < i ==> !addr_eqv(#[trigger] self.items@[k].addr, *a),
            decreases n - i,
        {
            if self.items[i].addr.matches(a) {
                proof {
                    self.lemma_index_is_unique(*a, i as int);
                }
                return Some(i);
            }
            i += 1;
        }
        None
    }

    /// Point lookup of an item's current value. Absence is a normal result,
    /// not a fault.
    pub fn get_current(&self, a: &ItemAddress) -> (r: Option<&StateValue>)
        requires
            self.wf(),
        ensures
            match r {
                Some(v) => self.spec_current(*a) == Some(*v),
                None => self.spec_current(*a) is None,
            },
    {
        match self.find_item(a) {
            Some(i) => match &self.items[i].current {
                Some(v) => Some(v),
                None => None,
            },
            None => None,
        }
    }

    /// The next event for an item must carry a key strictly above every key
    /// already logged; with an ordered log this is a check against the last
    /// entry.
    pub open spec fn spec_can_append(self, a: ItemAddress, height: u64, event_index: u32) -> bool {
        self.spec_events(a).len() == 0 || event_key_lt(
            self.spec_events(a).last(),
            EventLogEntry { height, event_index, value_after: None },
        )
    }

    /// Decides `spec_can_append`: whether `(height, event_index)` lies
    /// strictly above every key the item has logged.
    pub fn can_append_at(&self, a: &ItemAddress, height: u64, event_index: u32) -> (r: bool)
        requires
            self.wf(),
        ensures
            r == self.spec_can_append(*a, height, event_index),
    {
        match self.find_item(a) {
            None => true,
            Some(i) => {
                let last_h = self.items[i].events[self.items[i].events.len() - 1].height;
                let last_e = self.items[i].events[self.items[i].events.len() - 1].event_index;
                last_h < height || (last_h == height && last_e < event_index)
            },
        }
    }

    /// Appends one event-log entry for the item and updates the item's
    /// current value to `value_after`, as one atomic unit.
    ///
    /// Rejected with `DataIntegrityFault` when `(height, event_index)` does
    /// not lie strictly above the item's last logged key, which guards the
    /// ordering invariant of the log.
    pub fn append_event(
        &mut self,
        a: &ItemAddress,
        height: u64,
        event_index: u32,
        value_after: Option<StateValue>,
    ) -> (r: Result<(), ChainStoreError>)
        requires
            old(self).wf(),
        ensures
            final(self).wf(),
            final(self).contract_id == old(self).contract_id,
            final(self).instanciation == old(self).instanciation,
            r matches Ok(_) <==> old(self).spec_can_append(*a, height, event_index),
            r matches Err(e) ==> e == ChainStoreError::DataIntegrityFault && *final(self) == *old(self),
            r matches Ok(_) ==> final(self).spec_events(*a) == old(self).spec_events(*a).push(
                EventLogEntry { height, event_index, value_after },
            ) && final(self).spec_current(*a) == value_after,
            forall|b: ItemAddress|
                !addr_eqv(b, *a) ==> final(self).spec_events(b) == old(self).spec_events(b)
                    && final(self).spec_current(b) == old(self).spec_current(b),
            r matches Ok(_) ==> spec_items_event_total(final(self).items@)
                == spec_items_event_total(old(self).items@) + 1,
    {
        let entry = EventLogEntry {
            height,
            event_index,
            value_after: duplicate_value_opt(&value_after),
        };
        match self.find_item(a) {
            Some(i) => {
                let ghost pre = *self;
                let last_h = self.items[i].events[self.items[i].events.len() - 1].height;
                let last_e = self.items[i].events[self.items[i].events.len() - 1].event_index;
                if last_h < height || (last_h == height && last_e < event_index) {
                    self.items[i].events.push(entry);
                    self.items[i].current = value_after;
                    proof {
                        let ia = i as int;
                        let e = EventLogEntry { height, event_index, value_after };
                        let ev_old = pre.items@[ia].events@;
                        let ev_new = final(self).items@[ia].events@;
                        assert(final(self).items@ =~= pre.items@.update(
                            ia,
                            final(self).items@[ia],
                        ));
                        assert(ev_new =~= ev_old.push(e));
                        assert(event_key_lt(ev_old.last(), e));
                        assert forall|p: int, q: int| 0 <= p < q < ev_new.len() implies
                            #[trigger] event_key_lt(ev_new[p], ev_new[q]) by {
                            if q < ev_old.len() {
                                assert(event_key_lt(ev_old[p], ev_old[q]));
                            } else {
                                if p < ev_old.len() - 1 {
                                    assert(event_key_lt(ev_old[p], ev_old[ev_old.len() - 1]));
                                }
                            }
                        }
                        assert(events_sorted(ev_new));
                        assert(final(self).wf());
                        lemma_items_total_update(pre.items@, final(self).items@, ia, 1);
                        final(self).lemma_index_is_unique(*a, ia);
                        assert forall|b: ItemAddress| !addr_eqv(b, *a) implies
                            final(self).spec_events(b) == pre.spec_events(b)
                            && final(self).spec_current(b) == pre.spec_current(b) by {
                            if pre.spec_has_item(b) {
                                let j = pre.spec_item_index(b);
                                assert(j != ia);
                                final(self).lemma_index_is_unique(b, j);
                            } else {
                                assert(!final(self).spec_has_item(b));
                            }
                        }
                    }
                    Ok(())
                } else {
                    Err(ChainStoreError::DataIntegrityFault)
                }
            },
            None => {
                let ghost pre = *self;
                let mut events: Vec<EventLogEntry> = Vec::new();
                events.push(entry);
                let rec = ItemRecord { addr: a.duplicate(), current: value_after, events };
                self.items.push(rec);
                proof {
                    let ia = pre.items@.len() as int;
                    assert(final(self).items@ == pre.items@.push(final(self).items@[ia]));
                    assert(final(self).wf());
                    lemma_items_total_push(pre.items@, final(self).items@[ia]);
                    final(self).lemma_index_is_unique(*a, ia);
                    assert(final(self).spec_events(*a) =~= pre.spec_events(*a).push(
                        EventLogEntry { height, event_index, value_after },
                    ));
                    assert forall|b: ItemAddress| !addr_eqv(b, *a) implies
                        final(self).spec_events(b) == pre.spec_events(b)
                        && final(self).spec_current(b) == pre.spec_current(b) by {
                        if pre.spec_has_item(b) {
                            let j = pre.spec_item_index(b);
                            final(self).lemma_index_is_unique(b, j);
                        } else {
                            assert(!final(self).spec_has_item(b));
                        }
                    }
                }
                Ok(())
            },
        }
    }
}

/// Keeps the events that do not belong to the given height.
pub open spec fn height_removed(height: u64) -> spec_fn(EventLogEntry) -> bool {
    |e: EventLogEntry| e.height != height
}

/// An event log after rollback of one height.
pub open spec fn spec_remove_height(events: Seq<EventLogEntry>, height: u64) -> Seq<
    EventLogEntry,
> {
    events.filter(height_removed(height))
}

impl ContractStateStore {
    /// Deletes every event-log entry of the item at the given height, then
    /// recomputes the item's current value from the latest remaining entry
    /// (or removes the item when none remain). The recompute scans the
    /// remaining log rather than trusting any cached predecessor, because a
    /// rollback may remove several heights in one call.
    ///
    /// Undoing a height at which the item has no events leaves the store
    /// unchanged, so rollback is idempotent.
    pub fn undo_events_at_height(&mut self, a: &ItemAddress, height: u64)
        requires
            old(self).wf(),
        ensures
            final(self).wf(),
            final(self).contract_id == old(self).contract_id,
            final(self).instanciation == old(self).instanciation,
            final(self).spec_events(*a) == spec_remove_height(old(self).spec_events(*a), height),
            final(self).spec_current(*a) == spec_latest_value(final(self).spec_events(*a)),
            forall|b: ItemAddress|
                !addr_eqv(b, *a) ==> final(self).spec_events(b) == old(self).spec_events(b)
                    && final(self).spec_current(b) == old(self).spec_current(b),
            !spec_has_event_at(old(self).spec_events(*a), height) ==> *final(self) == *old(self),
    {
        let ghost pred = height_removed(height);
        let i = match self.find_item(a) {
            Some(i) => i,
            None => {
                proof {
                    reveal(Seq::filter);
                    assert(old(self).spec_events(*a) =~= Seq::<EventLogEntry>::empty());
                }
                return ;
            },
        };
        let ghost pre = *self;
        let n = self.items[i].events.len();
        let mut any_at: bool = false;
        let mut k: usize = 0;
        while k < n
            invariant
                0 <= i < self.items@.len(),
                n == self.items@[i as int].events@.len(),
                k <= n,
                any_at == exists|j: int|
                    0 <= j < k && #[trigger] self.items@[i as int].events@[j].height == height,
            decreases n - k,
        {
            if self.items[i].events[k].height == height {
                any_at = true;
            }
            k += 1;
        }
        if !any_at {
            proof {
                let ev = pre.items@[i as int].events@;
                assert(!spec_has_event_at(ev, height));
                assert(forall|j: int| 0 <= j < ev.len() ==> pred(#[trigger] ev[j]));
                lemma_filter_retains_all(ev, pred);
            }
            return ;
        }
        let mut kept: Vec<EventLogEntry> = Vec::new();
        let mut k: usize = 0;
        while k < n
            invariant
                0 <= i < self.items@.len(),
                *self == pre,
                n == self.items@[i as int].events@.len(),
                k <= n,
                pred == height_removed(height),
                kept@ == self.items@[i as int].events@.take(k as int).filter(pred),
            decreases n - k,
        {
            let ghost ev = self.items@[i as int].events@;
            let e = self.items[i].events[k].duplicate();
            proof {
                assert(ev.take(k as int + 1) =~= ev.take(k as int).push(ev[k as int]));
                lemma_filter_push(ev.take(k as int), ev[k as int], pred);
            }
            if e.height != height {
                kept.push(e);
            }
            k += 1;
        }
        proof {
            let ev = pre.items@[i as int].events@;
            assert(ev.take(n as int) =~= ev);
            assert(kept@ == ev.filter(pred));
            lemma_filter_sorted(ev, pred);
            lemma_filter_subset(ev, pred);
        }
        if kept.len() == 0 {
            self.items.remove(i);
            proof {
                let ia = i as int;
                assert(final(self).items@ =~= pre.items@.remove(ia));
                assert(final(self).wf()) by {
                    assert(forall|k: int|
                        0 <= k < final(self).items@.len() ==> #[trigger] final(self).items@[k]
                            == if k < ia {
                            pre.items@[k]
                        } else {
                            pre.items@[k + 1]
                        });
                }
                assert(!final(self).spec_has_item(*a)) by {
                    assert forall|k: int| 0 <= k < final(self).items@.len() implies !addr_eqv(
                        #[trigger] final(self).items@[k].addr,
                        *a,
                    ) by {
                        if k < ia {
                            assert(!addr_eqv(pre.items@[k].addr, pre.items@[ia].addr));
                        } else {
                            assert(!addr_eqv(pre.items@[k + 1].addr, pre.items@[ia].addr));
                        }
                    }
                }
                assert(final(self).spec_events(*a) =~= pre.spec_events(*a).filter(pred));
                assert forall|b: ItemAddress| !addr_eqv(b, *a) implies final(self).spec_events(b)
                    == pre.spec_events(b) && final(self).spec_current(b) == pre.spec_current(b) by {
                    if pre.spec_has_item(b) {
                        let j = pre.spec_item_index(b);
                        assert(j != ia);
                        if j < ia {
                            final(self).lemma_index_is_unique(b, j);
                        } else {
                            final(self).lemma_index_is_unique(b, j - 1);
                        }
                    } else {
                        assert(!final(self).spec_has_item(b)) by {
                            assert forall|k: int| 0 <= k < final(self).items@.len() implies
                                !addr_eqv(#[trigger] final(self).items@[k].addr, b) by {
                                if k < ia {
                                    assert(final(self).items@[k] == pre.items@[k]);
                                } else {
                                    assert(final(self).items@[k] == pre.items@[k + 1]);
                                }
                            }
                        }
                    }
                }
            }
        } else {
            let new_current = duplicate_value_opt(&kept[kept.len() - 1].value_after);
            self.items[i].events = kept;
            self.items[i].current = new_current;
            proof {
                let ia = i as int;
                assert(final(self).items@ =~= pre.items@.update(ia, final(self).items@[ia]));
                assert(final(self).items@[ia].addr == pre.items@[ia].addr);
                assert(final(self).items@[ia].events@ == pre.items@[ia].events@.filter(pred));
                assert(final(self).wf());
                final(self).lemma_index_is_unique(*a, ia);
                assert(final(self).spec_events(*a) == pre.spec_events(*a).filter(pred));
                assert forall|b: ItemAddress| !addr_eqv(b, *a) implies final(self).spec_events(b)
                    == pre.spec_events(b) && final(self).spec_current(b) == pre.spec_current(b) by {
                    if pre.spec_has_item(b) {
                        let j = pre.spec_item_index(b);
                        assert(j != ia);
                        final(self).lemma_index_is_unique(b, j);
                    } else {
                        assert(!final(self).spec_has_item(b));
                    }
                }
            }
        }
    }
}

/// The value carried by the last event of an ordered log, or absence for an
/// empty log.
pub open spec fn spec_latest_value(events: Seq<EventLogEntry>) -> Option<StateValue> {
    if events.len() == 0 {
        None
    } else {
        events.last().value_after
    }
}

pub open spec fn spec_has_event_at(events: Seq<EventLogEntry>, height: u64) -> bool {
    exists|j: int| 0 <= j < events.len() && #[trigger] events[j].height == height
}

/// A filter that keeps every element keeps the sequence.
pub proof fn lemma_filter_retains_all(s: Seq<EventLogEntry>, pred: spec_fn(EventLogEntry) -> bool)
    requires
        forall|i: int| 0 <= i < s.len() ==> pred(#[trigger] s[i]),
    ensures
        s.filter(pred) == s,
    decreases s.len(),
{
    reveal(Seq::filter);
    if s.len() == 0 {
        assert(s.filter(pred) =~= s);
    } else {
        assert(forall|i: int| 0 <= i < s.drop_last().len() ==> pred(#[trigger] s.drop_last()[i]))
            by {
            assert(forall|i: int|
                0 <= i < s.drop_last().len() ==> #[trigger] s.drop_last()[i] == s[i]);
        }
        lemma_filter_retains_all(s.drop_last(), pred);
        assert(pred(s.last()));
        assert(s.filter(pred) =~= s);
    }
}

/// Every element of a filtered sequence occurs in the unfiltered one.
pub proof fn lemma_filter_subset(s: Seq<EventLogEntry>, pred: spec_fn(EventLogEntry) -> bool)
    ensures
        forall|i: int| 0 <= i < s.filter(pred).len() ==> s.contains(#[trigger] s.filter(pred)[i]),
    decreases s.len(),
{
    reveal(Seq::filter);
    if s.len() > 0 {
        let d = s.drop_last();
        lemma_filter_subset(d, pred);
        let f = s.filter(pred);
        let fd = d.filter(pred);
        assert forall|i: int| 0 <= i < f.len() implies s.contains(#[trigger] f[i]) by {
            if pred(s.last()) && i == f.len() - 1 {
                assert(f[i] == s.last());
                assert(s[s.len() - 1] == s.last());
            } else {
                assert(f[i] == fd[i]);
                assert(d.contains(fd[i]));
                let j = choose|j: int| 0 <= j < d.len() && d[j] == fd[i];
                assert(s[j] == fd[i]);
            }
        }
    }
}

/// Filtering an ordered event log keeps it ordered.
pub proof fn lemma_filter_sorted(s: Seq<EventLogEntry>, pred: spec_fn(EventLogEntry) -> bool)
    requires
        events_sorted(s),
    ensures
        events_sorted(s.filter(pred)),
    decreases s.len(),
{
    reveal(Seq::filter);
    if s.len() > 0 {
        let d = s.drop_last();
        assert(events_sorted(d)) by {
            assert(forall|i: int| 0 <= i < d.len() ==> #[trigger] d[i] == s[i]);
        }
        lemma_filter_sorted(d, pred);
        lemma_filter_subset(d, pred);
        let f = s.filter(pred);
        let fd = d.filter(pred);
        if pred(s.last()) {
            assert(f == fd.push(s.last()));
            assert forall|p: int, q: int| 0 <= p < q < f.len() implies #[trigger] event_key_lt(
                f[p],
                f[q],
            ) by {
                if q < fd.len() {
                    assert(event_key_lt(fd[p], fd[q]));
                } else {
                    assert(f[q] == s.last());
                    assert(d.contains(fd[p]));
                    let j = choose|j: int| 0 <= j < d.len() && d[j] == fd[p];
                    assert(event_key_lt(s[j], s[s.len() - 1]));
                }
            }
        } else {
            assert(f == fd);
        }
    }
}

/// Unfolds one step of `filter` over `push`.
pub proof fn lemma_filter_push(
    s: Seq<EventLogEntry>,
    e: EventLogEntry,
    pred: spec_fn(EventLogEntry) -> bool,
)
    ensures
        s.push(e).filter(pred) == if pred(e) {
            s.filter(pred).push(e)
        } else {
            s.filter(pred)
        },
{
    reveal(Seq::filter);
    assert(s.push(e).drop_last() =~= s);
    assert(s.push(e).last() == e);
}

/// A filter that keeps no element empties the sequence.
pub proof fn lemma_filter_drops_all(s: Seq<EventLogEntry>, pred: spec_fn(EventLogEntry) -> bool)
    requires
        forall|i: int| 0 <= i < s.len() ==> !pred(#[trigger] s[i]),
    ensures
        s.filter(pred) == Seq::<EventLogEntry>::empty(),
    decreases s.len(),
{
    reveal(Seq::filter);
    if s.len() == 0 {
        assert(s.filter(pred) =~= Seq::<EventLogEntry>::empty());
    } else {
        assert(forall|i: int| 0 <= i < s.drop_last().len() ==> #[trigger] s.drop_last()[i] == s[i]);
        lemma_filter_drops_all(s.drop_last(), pred);
        assert(!pred(s.last()));
    }
}

/// Keeps the events that belong to the bounding height, or all of them when
/// the scan is unbounded.
pub open spec fn height_selected(bound: Option<u64>) -> spec_fn(EventLogEntry) -> bool {
    |e: EventLogEntry| match bound {
        Some(h) => e.height == h,
        None => true,
    }
}

/// Decides `spec_has_event_at`.
fn has_event_at(events: &Vec<EventLogEntry>, height: u64) -> (r: bool)
    ensures
        r == spec_has_event_at(events@, height),
{
    let n = events.len();
    let mut k: usize = 0;
    while k < n
        invariant
            n == events@.len(),
            k <= n,
            forall|j: int| 0 <= j < k ==> #[trigger] events@[j].height != height,
        decreases n - k,
    {
        if events[k].height == height {
            return true;
        }
        k += 1;
    }
    false
}

impl ContractStateStore {
    /// In a well-formed store the stored current value of every item is the
    /// value of the last remaining event, or absence.
    pub proof fn lemma_current_matches_latest(self, b: ItemAddress)
        requires
            self.wf(),
        ensures
            self.spec_current(b) == spec_latest_value(self.spec_events(b)),
    {
    }

    /// Range scan over one item's event log, bounded either to a single
    /// height or to all history. Entries come back ordered by
    /// `(height, event_index)` ascending, whatever order produced them.
    pub fn scan_events(&self, a: &ItemAddress, height_bound: Option<u64>) -> (r: Vec<
        EventLogEntry,
    >)
        requires
            self.wf(),
        ensures
            r@ == self.spec_events(*a).filter(height_selected(height_bound)),
            events_sorted(r@),
            height_bound is None ==> r@ == self.spec_events(*a),
    {
        let ghost pred = height_selected(height_bound);
        let mut r: Vec<EventLogEntry> = Vec::new();
        let i = match self.find_item(a) {
            Some(i) => i,
            None => {
                proof {
                    reveal(Seq::filter);
                    assert(self.spec_events(*a) =~= Seq::<EventLogEntry>::empty());
                }
                return r;
            },
        };
        let n = self.items[i].events.len();
        let mut k: usize = 0;
        while k < n
            invariant
                0 <= i < self.items@.len(),
                n == self.items@[i as int].events@.len(),
                k <= n,
                pred == height_selected(height_bound),
                r@ == self.items@[i as int].events@.take(k as int).filter(pred),
            decreases n - k,
        {
            let ghost ev = self.items@[i as int].events@;
            let e = self.items[i].events[k].duplicate();
            proof {
                assert(ev.take(k as int + 1) =~= ev.take(k as int).push(ev[k as int]));
                lemma_filter_push(ev.take(k as int), ev[k as int], pred);
            }
            let keep = match height_bound {
                Some(h) => e.height == h,
                None => true,
            };
            if keep {
                r.push(e);
            }
            k += 1;
        }
        proof {
            let ev = self.items@[i as int].events@;
            assert(ev.take(n as int) =~= ev);
            lemma_filter_sorted(ev, pred);
            if height_bound is None {
                assert(forall|j: int| 0 <= j < ev.len() ==> pred(#[trigger] ev[j]));
                lemma_filter_retains_all(ev, pred);
            }
        }
        r
    }

    /// The addresses of the items that logged at least one event at the
    /// given height. Every such item appears; an address may be returned
    /// even when a later look finds nothing left, which an idempotent undo
    /// tolerates.
    fn addresses_with_events_at(&self, height: u64) -> (r: Vec<ItemAddress>)
        requires
            self.wf(),
        ensures
            forall|b: ItemAddress|
                spec_has_event_at(self.spec_events(b), height) ==> exists|k: int|
                    0 <= k < r@.len() && addr_eqv(#[trigger] r@[k], b),
    {
        let mut r: Vec<ItemAddress> = Vec::new();
        let n = self.items.len();
        let mut i: usize = 0;
        while i < n
            invariant
                self.wf(),
                n == self.items@.len(),
                i <= n,
                forall|j: int|
                    0 <= j < i && spec_has_event_at(#[trigger] self.items@[j].events@, height)
                        ==> exists|k: int| 0 <= k < r@.len() && addr_eqv(r@[k], self.items@[j].addr),
            decreases n - i,
        {
            let ghost r_old = r@;
            let ghost ii = i as int;
            if has_event_at(&self.items[i].events, height) {
                r.push(self.items[i].addr.duplicate());
            }
            proof {
                assert forall|j: int|
                    0 <= j < ii + 1 && spec_has_event_at(
                        #[trigger] self.items@[j].events@,
                        height,
                    ) implies exists|k: int|
                    0 <= k < r@.len() && addr_eqv(r@[k], self.items@[j].addr) by {
                    if j < ii {
                        let k = choose|k: int|
                            0 <= k < r_old.len() && addr_eqv(r_old[k], self.items@[j].addr);
                        assert(r@[k] == r_old[k]);
                    } else {
                        assert(addr_eqv(r@[r@.len() - 1], self.items@[ii].addr));
                    }
                }
            }
            i += 1;
        }
        proof {
            assert forall|b: ItemAddress|
                spec_has_event_at(self.spec_events(b), height) implies exists|k: int|
                0 <= k < r@.len() && addr_eqv(#[trigger] r@[k], b) by {
                let j = self.spec_item_index(b);
                assert(0 <= j < n && addr_eqv(self.items@[j].addr, b));
                assert(spec_has_event_at(self.items@[j].events@, height));
                let k = choose|k: int| 0 <= k < r@.len() && addr_eqv(r@[k], self.items@[j].addr);
                assert(addr_eqv(r@[k], b));
            }
        }
        r
    }
}


/// One step of rolling a height out of a list of item addresses: after the
/// item named by `addrs[k]` is undone, every address among the first `k + 1`
/// entries is rolled back and every other address is untouched.
proof fn lemma_undo_step(
    orig: ContractStateStore,
    prev: ContractStateStore,
    cur: ContractStateStore,
    addrs: Seq<ItemAddress>,
    k: int,
    height: u64,
)
    requires
        0 <= k < addrs.len(),
        orig.wf(),
        prev.wf(),
        cur.wf(),
        cur.spec_events(addrs[k]) == spec_remove_height(prev.spec_events(addrs[k]), height),
        forall|b: ItemAddress|
            !addr_eqv(b, addrs[k]) ==> cur.spec_events(b) == prev.spec_events(b),
        forall|b: ItemAddress|
            (exists|m: int| 0 <= m < k && addr_eqv(#[trigger] addrs[m], b)) ==> prev.spec_events(b)
                == spec_remove_height(orig.spec_events(b), height),
        forall|b: ItemAddress|
            !(exists|m: int| 0 <= m < k && addr_eqv(#[trigger] addrs[m], b)) ==> prev.spec_events(
                b,
            ) == orig.spec_events(b),
    ensures
        forall|b: ItemAddress|
            (exists|m: int| 0 <= m < k + 1 && addr_eqv(#[trigger] addrs[m], b))
                ==> cur.spec_events(b) == spec_remove_height(orig.spec_events(b), height),
        forall|b: ItemAddress|
            !(exists|m: int| 0 <= m < k + 1 && addr_eqv(#[trigger] addrs[m], b))
                ==> cur.spec_events(b) == orig.spec_events(b),
{
    let a = addrs[k];
    assert forall|b: ItemAddress|
        (exists|m: int| 0 <= m < k + 1 && addr_eqv(#[trigger] addrs[m], b)) implies cur.spec_events(
        b,
    ) == spec_remove_height(orig.spec_events(b), height) by {
        if addr_eqv(a, b) {
            prev.lemma_events_respect_eqv(a, b);
            cur.lemma_events_respect_eqv(a, b);
            if exists|m: int| 0 <= m < k && addr_eqv(#[trigger] addrs[m], b) {
                lemma_remove_height_idempotent(orig.spec_events(b), height);
            }
        } else {
            let m = choose|m: int| 0 <= m < k + 1 && addr_eqv(addrs[m], b);
            assert(0 <= m < k);
        }
    }
    assert forall|b: ItemAddress|
        !(exists|m: int| 0 <= m < k + 1 && addr_eqv(#[trigger] addrs[m], b)) implies
        cur.spec_events(b) == orig.spec_events(b) by {
        assert(!addr_eqv(a, b));
        assert(!(exists|m: int| 0 <= m < k && addr_eqv(#[trigger] addrs[m], b)));
    }
}

impl ContractStateStore {
    /// Addresses that name the same item have the same view of the store.
    pub proof fn lemma_events_respect_eqv(self, a: ItemAddress, b: ItemAddress)
        requires
            self.wf(),
            addr_eqv(a, b),
        ensures
            self.spec_events(a) == self.spec_events(b),
            self.spec_current(a) == self.spec_current(b),
    {
        if self.spec_has_item(a) {
            let i = self.spec_item_index(a);
            assert(addr_eqv(self.items@[i].addr, b));
            self.lemma_index_is_unique(b, i);
        } else {
            if self.spec_has_item(b) {
                let j = self.spec_item_index(b);
                assert(addr_eqv(self.items@[j].addr, a));
            }
        }
    }

    /// Rolls one height out of every item of the store: deletes the event
    /// log entries of that height and recomputes every touched current
    /// value from the remaining log.
    #[verifier::spinoff_prover]
    #[verifier::rlimit(100)]
    pub fn undo_block_at_height(&mut self, height: u64)
        requires
            old(self).wf(),
        ensures
            final(self).wf(),
            final(self).contract_id == old(self).contract_id,
            final(self).instanciation == old(self).instanciation,
            forall|b: ItemAddress|
                #[trigger] final(self).spec_events(b) == spec_remove_height(
                    old(self).spec_events(b),
                    height,
                ),
            forall|b: ItemAddress|
                #[trigger] final(self).spec_current(b) == spec_latest_value(
                    final(self).spec_events(b),
                ),
    {
        let ghost orig = *self;
        let addrs = self.addresses_with_events_at(height);
        let n = addrs.len();
        let mut k: usize = 0;
        while k < n
            invariant
                n == addrs@.len(),
                k <= n,
                self.wf(),
                orig.wf(),
                self.contract_id == orig.contract_id,
                self.instanciation == orig.instanciation,
                forall|b: ItemAddress|
                    spec_has_event_at(orig.spec_events(b), height) ==> exists|m: int|
                        0 <= m < n && addr_eqv(#[trigger] addrs@[m], b),
                forall|b: ItemAddress|
                    (exists|m: int| 0 <= m < k && addr_eqv(#[trigger] addrs@[m], b))
                        ==> self.spec_events(b) == spec_remove_height(
                        orig.spec_events(b),
                        height,
                    ),
                forall|b: ItemAddress|
                    !(exists|m: int| 0 <= m < k && addr_eqv(#[trigger] addrs@[m], b))
                        ==> self.spec_events(b) == orig.spec_events(b),
            decreases n - k,
        {
            let ghost prev = *self;
            let ghost kk = k as int;
            self.undo_events_at_height(&addrs[k], height);
            proof {
                lemma_undo_step(orig, prev, *self, addrs@, kk, height);
            }
            k += 1;
        }
        proof {
            assert forall|b: ItemAddress| #[trigger] final(self).spec_events(b)
                == spec_remove_height(orig.spec_events(b), height) by {
                if !(exists|m: int| 0 <= m < n && addr_eqv(#[trigger] addrs@[m], b)) {
                    assert(!spec_has_event_at(orig.spec_events(b), height));
                    assert(forall|j: int|
                        0 <= j < orig.spec_events(b).len() ==> height_removed(height)(
                            #[trigger] orig.spec_events(b)[j],
                        ));
                    lemma_filter_retains_all(orig.spec_events(b), height_removed(height));
                }
            }
            assert forall|b: ItemAddress| #[trigger] final(self).spec_current(b)
                == spec_latest_value(final(self).spec_events(b)) by {
                final(self).lemma_current_matches_latest(b);
            }
        }
    }

    /// Wipes all storage of a decommissioned contract, current values,
    /// event logs and deployment record alike.
    pub fn delete_all(&mut self)
        ensures
            final(self).wf(),
            final(self).contract_id == old(self).contract_id,
            final(self).instanciation is None,
            final(self).items@.len() == 0,
            forall|b: ItemAddress|
                #[trigger] final(self).spec_events(b) == Seq::<EventLogEntry>::empty(),
            forall|b: ItemAddress| #[trigger] final(self).spec_current(b) is None,
    {
        self.items = Vec::new();
        self.instanciation = None;
    }

    /// Persists the contract's deployment record.
    pub fn store_contract_instanciation(&mut self, record: ContractInstanciation)
        requires
            old(self).wf(),
        ensures
            final(self).wf(),
            final(self).contract_id == old(self).contract_id,
            final(self).instanciation == Some(record),
            final(self).items == old(self).items,
            forall|b: ItemAddress|
                #[trigger] final(self).spec_events(b) == old(self).spec_events(b),
            forall|b: ItemAddress|
                #[trigger] final(self).spec_current(b) == old(self).spec_current(b),
    {
        self.instanciation = Some(record);
    }

    /// Reads back the contract's deployment record.
    pub fn read_contract_instanciation(&self) -> (r: Option<&ContractInstanciation>)
        ensures
            match r {
                Some(c) => self.instanciation == Some(*c),
                None => self.instanciation is None,
            },
    {
        match &self.instanciation {
            Some(c) => Some(c),
            None => None,
        }
    }
}

/// Rolling a height back out of an already rolled-back log changes nothing.
pub proof fn lemma_remove_height_idempotent(events: Seq<EventLogEntry>, height: u64)
    ensures
        spec_remove_height(spec_remove_height(events, height), height) == spec_remove_height(
            events,
            height,
        ),
{
    let pred = height_removed(height);
    let once = events.filter(pred);
    assert forall|i: int| 0 <= i < once.len() implies pred(#[trigger] once[i]) by {
        events.lemma_filter_pred(pred, i);
    }
    lemma_filter_retains_all(once, pred);
}

/// The current value is the latest remaining event.
///
/// For any contract item of a well-formed store, after any sequence of
/// applies and rollbacks, the queryable current value equals the value
/// carried by the highest-ordered remaining event-log entry of that item,
/// and is absent when no entry remains.
pub proof fn lemma_current_is_latest_event(s: ContractStateStore, a: ItemAddress)
    requires
        s.wf(),
    ensures
        s.spec_current(a) == spec_latest_value(s.spec_events(a)),
        s.spec_events(a).len() == 0 ==> s.spec_current(a) is None,
        s.spec_events(a).len() > 0 ==> forall|j: int|
            0 <= j < s.spec_events(a).len() - 1 ==> event_key_lt(
                #[trigger] s.spec_events(a)[j],
                s.spec_events(a).last(),
            ),
{
    s.lemma_current_matches_latest(a);
    if s.spec_events(a).len() > 0 {
        let ev = s.spec_events(a);
        assert forall|j: int| 0 <= j < ev.len() - 1 implies event_key_lt(
            #[trigger] ev[j],
            ev.last(),
        ) by {
            assert(event_key_lt(ev[j], ev[ev.len() - 1]));
        }
    }
}

/// Rollback inverts apply.
///
/// Let `pre` be a well-formed store holding nothing at `height`, `mid` the
/// store after applying a block at `height` (every item's log grew only by
/// entries at that height), and `post` the store after rolling `height`
/// back. Then every item's log and current value in `post` are those of
/// `pre`: the rollback removed exactly the block's entries and restored
/// every touched item to its earlier value.
pub proof fn lemma_rollback_inverts_apply(
    pre: ContractStateStore,
    mid: ContractStateStore,
    post: ContractStateStore,
    height: u64,
)
    requires
        pre.wf(),
        mid.wf(),
        post.wf(),
        forall|b: ItemAddress| !spec_has_event_at(#[trigger] pre.spec_events(b), height),
        forall|b: ItemAddress|
            (#[trigger] mid.spec_events(b)).len() >= pre.spec_events(b).len(),
        forall|b: ItemAddress|
            (#[trigger] mid.spec_events(b)).take(pre.spec_events(b).len() as int)
                == pre.spec_events(b),
        forall|b: ItemAddress, j: int|
            pre.spec_events(b).len() <= j < mid.spec_events(b).len() ==> (#[trigger] mid.spec_events(
                b,
            )[j]).height == height,
        forall|b: ItemAddress|
            #[trigger] post.spec_events(b) == spec_remove_height(mid.spec_events(b), height),
    ensures
        forall|b: ItemAddress| #[trigger] post.spec_events(b) == pre.spec_events(b),
        forall|b: ItemAddress| #[trigger] post.spec_current(b) == pre.spec_current(b),
{
    let pred = height_removed(height);
    assert forall|b: ItemAddress| #[trigger] post.spec_events(b) == pre.spec_events(b) by {
        let pe = pre.spec_events(b);
        let me = mid.spec_events(b);
        let suffix = me.skip(pe.len() as int);
        assert(me =~= pe + suffix);
        Seq::<EventLogEntry>::filter_distributes_over_add(pe, suffix, pred);
        assert(forall|j: int| 0 <= j < pe.len() ==> (#[trigger] pe[j]).height != height);
        assert(forall|j: int| 0 <= j < pe.len() ==> pred(#[trigger] pe[j]));
        lemma_filter_retains_all(pe, pred);
        assert(forall|j: int| 0 <= j < suffix.len() ==> !pred(#[trigger] suffix[j]));
        lemma_filter_drops_all(suffix, pred);
        assert(pe.filter(pred) + suffix.filter(pred) =~= pe);
    }
    assert forall|b: ItemAddress| #[trigger] post.spec_current(b) == pre.spec_current(b) by {
        post.lemma_current_matches_latest(b);
        pre.lemma_current_matches_latest(b);
    }
}

/// Rollback is idempotent.
///
/// A store holding nothing at `height` (because that block was already
/// rolled back, or was never applied) is left unchanged, item for item, by
/// rolling `height` back again.
pub proof fn lemma_rollback_idempotent(s: ContractStateStore, height: u64)
    requires
        s.wf(),
        forall|b: ItemAddress| !spec_has_event_at(#[trigger] s.spec_events(b), height),
    ensures
        forall|b: ItemAddress|
            spec_remove_height(#[trigger] s.spec_events(b), height) == s.spec_events(b),
{
    assert forall|b: ItemAddress| spec_remove_height(#[trigger] s.spec_events(b), height)
        == s.spec_events(b) by {
        assert(forall|j: int|
            0 <= j < s.spec_events(b).len() ==> height_removed(height)(
                #[trigger] s.spec_events(b)[j],
            ));
        lemma_filter_retains_all(s.spec_events(b), height_removed(height));
    }
}


/// Between two snapshots an event log only grew, and every appended entry
/// belongs to the given height: the old log is a prefix of the new one.
pub open spec fn spec_log_extended_at(
    pre: Seq<EventLogEntry>,
    post: Seq<EventLogEntry>,
    height: u64,
) -> bool {
    &&& post.len() >= pre.len()
    &&& post.take(pre.len() as int) == pre
    &&& forall|j: int| pre.len() <= j < post.len() ==> (#[trigger] post[j]).height == height
}

pub proof fn lemma_log_extended_refl(s: Seq<EventLogEntry>, height: u64)
    ensures
        spec_log_extended_at(s, s, height),
{
    assert(s.take(s.len() as int) =~= s);
}

pub proof fn lemma_log_extended_push(s: Seq<EventLogEntry>, e: EventLogEntry, height: u64)
    requires
        e.height == height,
    ensures
        spec_log_extended_at(s, s.push(e), height),
{
    assert(s.push(e).take(s.len() as int) =~= s);
}

pub proof fn lemma_log_extended_trans(
    a: Seq<EventLogEntry>,
    b: Seq<EventLogEntry>,
    c: Seq<EventLogEntry>,
    height: u64,
)
    requires
        spec_log_extended_at(a, b, height),
        spec_log_extended_at(b, c, height),
    ensures
        spec_log_extended_at(a, c, height),
{
    assert(c.take(a.len() as int) =~= a) by {
        assert forall|j: int| 0 <= j < a.len() implies c.take(a.len() as int)[j] == a[j] by {
            assert(c[j] == c.take(b.len() as int)[j]);
            assert(b[j] == b.take(a.len() as int)[j]);
        }
    }
    assert forall|j: int| a.len() <= j < c.len() implies (#[trigger] c[j]).height == height by {
        if j < b.len() {
            assert(c[j] == c.take(b.len() as int)[j]);
            assert(c[j] == b[j]);
        }
    }
}


/// After a height is rolled out of a log, nothing of that height remains.
pub proof fn lemma_remove_height_absent(events: Seq<EventLogEntry>, height: u64)
    ensures
        !spec_has_event_at(spec_remove_height(events, height), height),
{
    let pred = height_removed(height);
    let once = events.filter(pred);
    assert forall|i: int| 0 <= i < once.len() implies (#[trigger] once[i]).height != height by {
        events.lemma_filter_pred(pred, i);
    }
}

/// Rolling out one height cannot bring another height back.
pub proof fn lemma_absent_after_remove(events: Seq<EventLogEntry>, height: u64, other: u64)
    requires
        !spec_has_event_at(events, height),
    ensures
        !spec_has_event_at(spec_remove_height(events, other), height),
{
    let pred = height_removed(other);
    lemma_filter_subset(events, pred);
    let once = events.filter(pred);
    assert forall|i: int| 0 <= i < once.len() implies (#[trigger] once[i]).height != height by {
        assert(events.contains(once[i]));
        let j = choose|j: int| 0 <= j < events.len() && events[j] == once[i];
    }
}

/// The conjunction of two event predicates, as one predicate.
pub open spec fn pred_and(
    p: spec_fn(EventLogEntry) -> bool,
    q: spec_fn(EventLogEntry) -> bool,
) -> spec_fn(EventLogEntry) -> bool {
    |e: EventLogEntry| p(e) && q(e)
}

/// Two filters compose into one filtering on both predicates.
pub proof fn lemma_filter_filter(
    s: Seq<EventLogEntry>,
    p: spec_fn(EventLogEntry) -> bool,
    q: spec_fn(EventLogEntry) -> bool,
)
    ensures
        s.filter(p).filter(q) == s.filter(pred_and(p, q)),
    decreases s.len(),
{
    reveal(Seq::filter);
    let both = pred_and(p, q);
    if s.len() == 0 {
        assert(s.filter(p).filter(q) =~= s.filter(both));
    } else {
        let d = s.drop_last();
        lemma_filter_filter(d, p, q);
        if p(s.last()) {
            assert(s.filter(p) == d.filter(p).push(s.last()));
            lemma_filter_push(d.filter(p), s.last(), q);
        } else {
            assert(s.filter(p) == d.filter(p));
        }
    }
}

/// Filters with predicates that agree on every element agree.
pub proof fn lemma_filter_congruent(
    s: Seq<EventLogEntry>,
    p: spec_fn(EventLogEntry) -> bool,
    q: spec_fn(EventLogEntry) -> bool,
)
    requires
        forall|i: int| 0 <= i < s.len() ==> p(#[trigger] s[i]) == q(s[i]),
    ensures
        s.filter(p) == s.filter(q),
    decreases s.len(),
{
    reveal(Seq::filter);
    if s.len() > 0 {
        assert(forall|i: int|
            0 <= i < s.drop_last().len() ==> #[trigger] s.drop_last()[i] == s[i]);
        lemma_filter_congruent(s.drop_last(), p, q);
        assert(p(s.last()) == q(s.last()));
    }
}

/// The total number of event-log entries a store's items hold.
pub open spec fn spec_items_event_total(items: Seq<ItemRecord>) -> int
    decreases items.len(),
{
    if items.len() == 0 {
        0
    } else {
        spec_items_event_total(items.drop_last()) + items.last().events@.len()
    }
}

proof fn lemma_items_total_update(pre: Seq<ItemRecord>, post: Seq<ItemRecord>, i: int, d: int)
    requires
        pre.len() == post.len(),
        0 <= i < pre.len(),
        forall|k: int| 0 <= k < pre.len() && k != i ==> post[k] == pre[k],
        post[i].events@.len() == pre[i].events@.len() + d,
    ensures
        spec_items_event_total(post) == spec_items_event_total(pre) + d,
    decreases pre.len(),
{
    if i == pre.len() - 1 {
        assert(post.drop_last() =~= pre.drop_last());
    } else {
        assert(forall|k: int|
            0 <= k < pre.drop_last().len() && k != i ==> #[trigger] post.drop_last()[k]
                == pre.drop_last()[k]);
        lemma_items_total_update(pre.drop_last(), post.drop_last(), i, d);
        assert(post.last() == pre.last());
    }
}

proof fn lemma_items_total_push(pre: Seq<ItemRecord>, rec: ItemRecord)
    ensures
        spec_items_event_total(pre.push(rec)) == spec_items_event_total(pre)
            + rec.events@.len(),
{
    assert(pre.push(rec).drop_last() =~= pre);
}

} // verus!
