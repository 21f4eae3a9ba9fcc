use vstd::prelude::*;

verus! {

use crate::applier::ContractsState;
use crate::archive::BlockArchive;
use crate::archive::BlockStoreManager;
use crate::archive::spec_removed_hash;
use crate::archive::spec_removed_height;
use crate::state::EventLogEntry;
use crate::state::ItemAddress;
use crate::state::height_removed;
use crate::state::pred_and;
use crate::state::lemma_absent_after_remove;
use crate::state::lemma_filter_congruent;
use crate::state::lemma_filter_filter;
use crate::state::lemma_filter_retains_all;
use crate::state::lemma_remove_height_absent;
use crate::state::spec_has_event_at;
use crate::state::spec_remove_height;
use crate::types::BlockIdentifier;
use crate::types::ChainBlock;
use crate::types::StacksBlockData;
use crate::types::StacksTransactionKind;

/// The events that survive a rollback batch: events whose height no listed
/// identifier matched in the archive the batch started from.
pub open spec fn spec_surviving(pre: BlockArchive, ids: Seq<BlockIdentifier>) -> spec_fn(
    EventLogEntry,
) -> bool {
    |e: EventLogEntry| !spec_removed_height(pre, ids, e.height)
}

/// An event log after a rollback batch: the old log with exactly the
/// removed heights filtered out.
pub open spec fn spec_rolled_back(
    events: Seq<EventLogEntry>,
    pre: BlockArchive,
    ids: Seq<BlockIdentifier>,
) -> Seq<EventLogEntry> {
    events.filter(spec_surviving(pre, ids))
}

/// The archived block under this hash is a Stacks block whose transaction
/// `t` deploys the contract named `c`.
pub open spec fn spec_stacks_deployment_at(
    pre: BlockArchive,
    h: Seq<char>,
    t: int,
    c: Seq<char>,
) -> bool {
    match pre.spec_block_at(h) {
        ChainBlock::Stacks(sb) => crate::archive::spec_is_deployment_of(sb, t, c),
        ChainBlock::Bitcoin(_) => false,
    }
}

/// The contract named `c` was deployed by a transaction of a block that a
/// listed identifier matched in the archive the batch started from: its
/// deployment is being rolled back, so the contract is decommissioned.
pub open spec fn spec_decommissioned(
    pre: BlockArchive,
    ids: Seq<BlockIdentifier>,
    c: Seq<char>,
) -> bool {
    exists|j: int, t: int|
        0 <= j < ids.len() && pre.spec_has_height(ids[j].index) && pre.spec_hash_at(ids[j].index)
            == ids[j].hash@ && #[trigger] spec_stacks_deployment_at(pre, ids[j].hash@, t, c)
}

/// The block is one that a listed identifier matched in the archive the
/// batch started from.
spec fn spec_removed_block(
    pre: BlockArchive,
    ids: Seq<BlockIdentifier>,
    sb: StacksBlockData,
) -> bool {
    exists|j: int|
        0 <= j < ids.len() && pre.spec_has_height((#[trigger] ids[j]).index) && pre.spec_hash_at(
            ids[j].index,
        ) == ids[j].hash@ && pre.spec_block_at(ids[j].hash@) == ChainBlock::Stacks(sb)
}

/// Mid-batch: an event has survived so far when its height is still
/// archived, or never was.
spec fn spec_still_archived(cur: BlockArchive, pre: BlockArchive) -> spec_fn(
    EventLogEntry,
) -> bool {
    |e: EventLogEntry| cur.spec_has_height(e.height) || !pre.spec_has_height(e.height)
}

/// How many entries of a mask are set.
spec fn count_true(s: Seq<bool>) -> int
    decreases s.len(),
{
    if s.len() == 0 {
        0
    } else {
        count_true(s.drop_last()) + if s.last() {
            1int
        } else {
            0int
        }
    }
}

proof fn lemma_count_true_bound(s: Seq<bool>)
    ensures
        0 <= count_true(s) <= s.len(),
    decreases s.len(),
{
    if s.len() > 0 {
        lemma_count_true_bound(s.drop_last());
    }
}

proof fn lemma_count_true_update(s: Seq<bool>, i: int)
    requires
        0 <= i < s.len(),
        !s[i],
    ensures
        count_true(s.update(i, true)) == count_true(s) + 1,
    decreases s.len(),
{
    let u = s.update(i, true);
    if i == s.len() - 1 {
        assert(u.drop_last() =~= s.drop_last());
    } else {
        assert(u.drop_last() =~= s.drop_last().update(i, true));
        lemma_count_true_update(s.drop_last(), i);
        assert(u.last() == s.last());
    }
}

proof fn lemma_count_true_full(s: Seq<bool>)
    requires
        count_true(s) == s.len(),
    ensures
        forall|i: int| 0 <= i < s.len() ==> s[i],
    decreases s.len(),
{
    if s.len() > 0 {
        lemma_count_true_bound(s.drop_last());
        assert(s.last());
        lemma_count_true_full(s.drop_last());
        assert forall|i: int| 0 <= i < s.len() implies s[i] by {
            if i < s.len() - 1 {
                assert(s.drop_last()[i]);
            }
        }
    }
}

/// Rollback coordinator for a batch of invalidated Stacks blocks.
///
/// Identifiers are processed from the highest height to the lowest, as a
/// reorg walks a fork back to the common ancestor. For each one: the
/// archived hash at that height must match the identifier's hash — a
/// mismatch means a competing block at the same height was canonicalized
/// since, and the identifier is skipped silently, so a repeated rollback
/// is a no-op. A matching block leaves the archive, and every contract
/// item's events at that height are deleted with the current values
/// recomputed from the remaining log. Contracts whose deployment was
/// carried by a removed block are decommissioned afterwards: their
/// deployment record and their whole state namespace are wiped. The
/// archive tip is recomputed from the highest remaining height after the
/// batch.
pub fn rollback_stacks_blocks(
    manager: &mut BlockStoreManager,
    state: &mut ContractsState,
    block_ids: &Vec<BlockIdentifier>,
)
    requires
        old(manager).wf(),
        old(state).wf(),
    ensures
        final(manager).wf(),
        final(state).wf(),
        final(manager).bitcoin == old(manager).bitcoin,
        final(manager).storage_driver == old(manager).storage_driver,
        final(state).stores@.len() == old(state).stores@.len(),
        forall|k: int|
            0 <= k < old(state).stores@.len() ==> (#[trigger] final(state).stores@[k]).contract_id == old(state).stores@[k].contract_id,
        // nothing else is removed from the stacks archive: unmatched
        // entries survive
        forall|ht: u64|
            old(manager).stacks.spec_has_height(ht) && !spec_removed_height(
                old(manager).stacks,
                block_ids@,
                ht,
            ) ==> #[trigger] final(manager).stacks.spec_has_height(ht),
        forall|h: Seq<char>|
            old(manager).stacks.spec_has_block(h) && !spec_removed_hash(
                old(manager).stacks,
                block_ids@,
                h,
            ) ==> #[trigger] final(manager).stacks.spec_has_block(h),
        // every store ends as the old store with exactly the removed
        // heights filtered out of every item's log and its deployment
        // record kept, or it was decommissioned: emptied with its record
        // gone, because its contract's deployment sat in a removed block
        forall|k: int|
            #![trigger final(state).stores@[k]]
            0 <= k < old(state).stores@.len() ==> ((forall|b: ItemAddress|
                #[trigger] final(state).stores@[k].spec_events(b) == spec_rolled_back(
                    old(state).stores@[k].spec_events(b),
                    old(manager).stacks,
                    block_ids@,
                )) && final(state).stores@[k].instanciation == old(state).stores@[k].instanciation)
                || (final(state).stores@[k].items@.len() == 0 && final(state).stores@[k].instanciation is None && spec_decommissioned(
                old(manager).stacks,
                block_ids@,
                final(state).stores@[k].contract_id@,
            )),
        // nothing appears and nothing is altered in the stacks archive
        forall|ht: u64|
            #[trigger] final(manager).stacks.spec_has_height(ht) ==> old(manager).stacks.spec_has_height(ht) && final(manager).stacks.spec_hash_at(ht) == old(manager).stacks.spec_hash_at(ht),
        forall|h: Seq<char>|
            #[trigger] final(manager).stacks.spec_has_block(h) ==> old(manager).stacks.spec_has_block(h) && final(manager).stacks.spec_block_at(h) == old(manager).stacks.spec_block_at(h),
        // every listed (height, hash) pair is gone from the archive
        forall|j: int|
            0 <= j < block_ids@.len() ==> !(final(manager).stacks.spec_has_height(
                (#[trigger] block_ids@[j]).index,
            ) && final(manager).stacks.spec_hash_at(block_ids@[j].index)
                == block_ids@[j].hash@),
        // a height rolled out of the archive carries no state events either
        forall|ht: u64, k: int, b: ItemAddress|
            old(manager).stacks.spec_has_height(ht) && !final(manager).stacks.spec_has_height(ht)
                && 0 <= k < final(state).stores@.len() ==> !#[trigger] spec_has_event_at(
                final(state).stores@[k].spec_events(b),
                ht,
            ),
        // so every listed identifier that matched the archive has all its
        // state events removed
        forall|j: int, k: int, b: ItemAddress|
            0 <= j < block_ids@.len() && 0 <= k < final(state).stores@.len() && old(manager).stacks.spec_has_height((#[trigger] block_ids@[j]).index) && old(manager).stacks.spec_hash_at(block_ids@[j].index) == block_ids@[j].hash@ ==> !#[trigger] spec_has_event_at(
                final(state).stores@[k].spec_events(b),
                block_ids@[j].index,
            ),
{
    let ghost orig = *manager;
    let n = block_ids.len();
    let mut processed: Vec<bool> = Vec::new();
    let mut f: usize = 0;
    while f < n
        invariant
            processed@.len() == f,
            f <= n,
            forall|q: int| 0 <= q < f ==> !processed@[q],
        decreases n - f,
    {
        processed.push(false);
        f += 1;
    }
    proof {
        lemma_count_all_false(processed@);
        assert forall|k: int, b: ItemAddress|
            0 <= k < state.stores@.len() implies #[trigger] state.stores@[k].spec_events(b) == old(state).stores@[k].spec_events(b).filter(
            spec_still_archived(manager.stacks, orig.stacks),
        ) by {
            let ev = state.stores@[k].spec_events(b);
            assert(forall|i: int|
                0 <= i < ev.len() ==> spec_still_archived(manager.stacks, orig.stacks)(
                    #[trigger] ev[i],
                ));
            lemma_filter_retains_all(ev, spec_still_archived(manager.stacks, orig.stacks));
        }
    }
    let mut removed: Vec<StacksBlockData> = Vec::new();
    let mut steps: usize = 0;
    let mut all_done = false;
    while steps < n && !all_done
        invariant
            n == block_ids@.len(),
            processed@.len() == n,
            steps <= n,
            count_true(processed@) == steps,
            orig.wf(),
            orig == *old(manager),
            manager.stacks.wf_data(),
            manager.bitcoin == old(manager).bitcoin,
            manager.storage_driver == old(manager).storage_driver,
            state.wf(),
            state.stores@.len() == old(state).stores@.len(),
            all_done ==> forall|q: int| 0 <= q < n ==> processed@[q],
            forall|ht: u64|
                #[trigger] manager.stacks.spec_has_height(ht) ==> orig.stacks.spec_has_height(ht)
                    && manager.stacks.spec_hash_at(ht) == orig.stacks.spec_hash_at(ht),
            forall|h: Seq<char>|
                #[trigger] manager.stacks.spec_has_block(h) ==> orig.stacks.spec_has_block(h)
                    && manager.stacks.spec_block_at(h) == orig.stacks.spec_block_at(h),
            forall|kk: int|
                0 <= kk < n && processed@[kk] ==> !(manager.stacks.spec_has_height(
                    (#[trigger] block_ids@[kk]).index,
                ) && manager.stacks.spec_hash_at(block_ids@[kk].index) == block_ids@[kk].hash@),
            forall|ht: u64, k: int, b: ItemAddress|
                orig.stacks.spec_has_height(ht) && !manager.stacks.spec_has_height(ht) && 0 <= k
                    < state.stores@.len() ==> !#[trigger] spec_has_event_at(
                    state.stores@[k].spec_events(b),
                    ht,
                ),
            forall|k: int|
                0 <= k < state.stores@.len() ==> (#[trigger] state.stores@[k]).contract_id == old(state).stores@[k].contract_id && state.stores@[k].instanciation == old(state).stores@[k].instanciation,
            forall|ht: u64|
                orig.stacks.spec_has_height(ht) && !spec_removed_height(
                    orig.stacks,
                    block_ids@,
                    ht,
                ) ==> #[trigger] manager.stacks.spec_has_height(ht),
            forall|h: Seq<char>|
                orig.stacks.spec_has_block(h) && !spec_removed_hash(
                    orig.stacks,
                    block_ids@,
                    h,
                ) ==> #[trigger] manager.stacks.spec_has_block(h),
            forall|k: int, b: ItemAddress|
                0 <= k < state.stores@.len() ==> #[trigger] state.stores@[k].spec_events(b)
                    == old(state).stores@[k].spec_events(b).filter(
                    spec_still_archived(manager.stacks, orig.stacks),
                ),
            forall|rr: int|
                0 <= rr < removed@.len() ==> #[trigger] spec_removed_block(orig.stacks, block_ids@, removed@[rr]),
        decreases n - steps, (if all_done { 0int } else { 1int }),
    {
        // pick the unprocessed identifier with the greatest height
        let mut best: Option<usize> = None;
        let mut j: usize = 0;
        while j < n
            invariant
                n == block_ids@.len(),
                processed@.len() == n,
                j <= n,
                match best {
                    None => forall|q: int| 0 <= q < j ==> processed@[q],
                    Some(bj) => bj < n && !processed@[bj as int],
                },
            decreases n - j,
        {
            if !processed[j] {
                let better = match best {
                    None => true,
                    Some(bj) => block_ids[j].index > block_ids[bj].index,
                };
                if better {
                    best = Some(j);
                }
            }
            j += 1;
        }
        let bj = match best {
            None => {
                all_done = true;
                continue ;
            },
            Some(bj) => bj,
        };
        let ghost mask_before = processed@;
        processed[bj] = true;
        proof {
            lemma_count_true_update(mask_before, bj as int);
        }
        let ghost prev_archive = manager.stacks;
        let ghost prev_state = *state;
        match manager.stacks.take_block(&block_ids[bj]) {
            None => {},
            Some(block) => {
                state.undo_all_at_height(block_ids[bj].index);
                proof {
                    let ht0 = block_ids@[bj as int].index;
                    assert forall|ht: u64, k: int, b: ItemAddress|
                        orig.stacks.spec_has_height(ht) && !manager.stacks.spec_has_height(ht) && 0
                            <= k < state.stores@.len() implies !#[trigger] spec_has_event_at(
                        state.stores@[k].spec_events(b),
                        ht,
                    ) by {
                        if ht == ht0 {
                            lemma_remove_height_absent(prev_state.stores@[k].spec_events(b), ht0);
                        } else {
                            assert(!spec_has_event_at(prev_state.stores@[k].spec_events(b), ht));
                            lemma_absent_after_remove(
                                prev_state.stores@[k].spec_events(b),
                                ht,
                                ht0,
                            );
                        }
                    }
                }
                proof {
                    let ht0 = block_ids@[bj as int].index;
                    // the removed pair matched the archive the batch
                    // started from
                    assert(orig.stacks.spec_has_height(ht0) && orig.stacks.spec_hash_at(ht0)
                        == block_ids@[bj as int].hash@);
                    assert(spec_removed_height(orig.stacks, block_ids@, ht0));
                    assert forall|ht: u64|
                        orig.stacks.spec_has_height(ht) && !spec_removed_height(
                            orig.stacks,
                            block_ids@,
                            ht,
                        ) implies #[trigger] manager.stacks.spec_has_height(ht) by {
                        assert(ht != ht0);
                        assert(prev_archive.spec_has_height(ht));
                    }
                    assert forall|h: Seq<char>|
                        orig.stacks.spec_has_block(h) && !spec_removed_hash(
                            orig.stacks,
                            block_ids@,
                            h,
                        ) implies #[trigger] manager.stacks.spec_has_block(h) by {
                        assert(prev_archive.spec_has_block(h));
                        if h == block_ids@[bj as int].hash@ {
                            assert(spec_removed_hash(orig.stacks, block_ids@, h));
                        }
                    }
                    let p_prev = spec_still_archived(prev_archive, orig.stacks);
                    let p_cur = spec_still_archived(manager.stacks, orig.stacks);
                    assert forall|k: int, b: ItemAddress|
                        0 <= k < state.stores@.len() implies #[trigger] state.stores@[k].spec_events(b) == old(state).stores@[k].spec_events(b).filter(p_cur) by {
                        let old_ev = old(state).stores@[k].spec_events(b);
                        assert(state.stores@[k].spec_events(b) == spec_remove_height(
                            prev_state.stores@[k].spec_events(b),
                            ht0,
                        ));
                        assert(prev_state.stores@[k].spec_events(b) == old_ev.filter(p_prev));
                        lemma_filter_filter(old_ev, p_prev, height_removed(ht0));
                        assert forall|i: int|
                            0 <= i < old_ev.len() implies pred_and(p_prev, height_removed(ht0))(
                            #[trigger] old_ev[i],
                        ) == p_cur(old_ev[i]) by {
                            let ht = old_ev[i].height;
                            if ht == ht0 {
                                assert(!manager.stacks.spec_has_height(ht0));
                                assert(orig.stacks.spec_has_height(ht0));
                            } else {
                                assert(manager.stacks.spec_has_height(ht)
                                    <==> prev_archive.spec_has_height(ht));
                            }
                        }
                        lemma_filter_congruent(old_ev, pred_and(p_prev, height_removed(ht0)), p_cur);
                    }
                }
                let ghost removed_before = removed@;
                match block {
                    ChainBlock::Stacks(stacks_block) => {
                        proof {
                            assert(prev_archive.spec_has_block(block_ids@[bj as int].hash@));
                            assert(orig.stacks.spec_block_at(block_ids@[bj as int].hash@)
                                == ChainBlock::Stacks(stacks_block));
                        }
                        removed.push(stacks_block);
                        proof {
                            assert forall|rr: int|
                                0 <= rr < removed@.len() implies #[trigger] spec_removed_block(orig.stacks, block_ids@, removed@[rr]) by {
                                if rr < removed_before.len() {
                                    assert(removed@[rr] == removed_before[rr]);
                                    assert(spec_removed_block(
                                        orig.stacks,
                                        block_ids@,
                                        removed@[rr],
                                    ));
                                } else {
                                    assert(0 <= bj < n && orig.stacks.spec_has_height(
                                        (#[trigger] block_ids@[bj as int]).index,
                                    ) && orig.stacks.spec_hash_at(block_ids@[bj as int].index)
                                        == block_ids@[bj as int].hash@ && orig.stacks.spec_block_at(
                                        block_ids@[bj as int].hash@,
                                    ) == ChainBlock::Stacks(removed@[rr]));
                                    assert(spec_removed_block(
                                        orig.stacks,
                                        block_ids@,
                                        removed@[rr],
                                    ));
                                }
                            }
                        }
                    },
                    ChainBlock::Bitcoin(_) => {},
                }
            },
        }
        steps += 1;
    }
    proof {
        if !all_done {
            lemma_count_true_full(processed@);
        }
        assert(forall|q: int| 0 <= q < n ==> processed@[q]);
        // with every identifier processed, "still archived" is exactly
        // "no listed identifier matched its height"
        let p_end = spec_still_archived(manager.stacks, orig.stacks);
        let surv = spec_surviving(orig.stacks, block_ids@);
        assert forall|k: int, b: ItemAddress|
            0 <= k < state.stores@.len() implies #[trigger] state.stores@[k].spec_events(b)
            == spec_rolled_back(old(state).stores@[k].spec_events(b), orig.stacks, block_ids@) by {
            let old_ev = old(state).stores@[k].spec_events(b);
            assert forall|i: int| 0 <= i < old_ev.len() implies p_end(#[trigger] old_ev[i]) == surv(
                old_ev[i],
            ) by {
                let ht = old_ev[i].height;
                if orig.stacks.spec_has_height(ht) {
                    if manager.stacks.spec_has_height(ht) {
                        if spec_removed_height(orig.stacks, block_ids@, ht) {
                            let jj = choose|jj: int|
                                0 <= jj < block_ids@.len() && (#[trigger] block_ids@[jj]).index
                                    == ht && block_ids@[jj].hash@ == orig.stacks.spec_hash_at(ht);
                            assert(manager.stacks.spec_hash_at(ht) == orig.stacks.spec_hash_at(
                                ht,
                            ));
                            assert(processed@[jj]);
                        }
                    } else {
                        assert(spec_removed_height(orig.stacks, block_ids@, ht));
                    }
                }
            }
            lemma_filter_congruent(old_ev, p_end, surv);
        }
    }
    let ghost before_tip = manager.stacks;
    manager.stacks.recompute_tip();
    // decommission the contracts whose deployment was rolled back
    let nr = removed.len();
    let mut r: usize = 0;
    while r < nr
        invariant
            n == block_ids@.len(),
            nr == removed@.len(),
            orig == *old(manager),
            manager.wf(),
            manager.bitcoin == old(manager).bitcoin,
            manager.storage_driver == old(manager).storage_driver,
            state.wf(),
            state.stores@.len() == old(state).stores@.len(),
            forall|ht: u64|
                #[trigger] manager.stacks.spec_has_height(ht) ==> orig.stacks.spec_has_height(ht)
                    && manager.stacks.spec_hash_at(ht) == orig.stacks.spec_hash_at(ht),
            forall|h: Seq<char>|
                #[trigger] manager.stacks.spec_has_block(h) ==> orig.stacks.spec_has_block(h)
                    && manager.stacks.spec_block_at(h) == orig.stacks.spec_block_at(h),
            forall|kk: int|
                0 <= kk < n ==> !(manager.stacks.spec_has_height(
                    (#[trigger] block_ids@[kk]).index,
                ) && manager.stacks.spec_hash_at(block_ids@[kk].index) == block_ids@[kk].hash@),
            forall|ht: u64, k: int, b: ItemAddress|
                orig.stacks.spec_has_height(ht) && !manager.stacks.spec_has_height(ht) && 0 <= k
                    < state.stores@.len() ==> !#[trigger] spec_has_event_at(
                    state.stores@[k].spec_events(b),
                    ht,
                ),
            forall|k: int|
                0 <= k < state.stores@.len() ==> (#[trigger] state.stores@[k]).contract_id == old(state).stores@[k].contract_id,
            forall|ht: u64|
                orig.stacks.spec_has_height(ht) && !spec_removed_height(
                    orig.stacks,
                    block_ids@,
                    ht,
                ) ==> #[trigger] manager.stacks.spec_has_height(ht),
            forall|h: Seq<char>|
                orig.stacks.spec_has_block(h) && !spec_removed_hash(
                    orig.stacks,
                    block_ids@,
                    h,
                ) ==> #[trigger] manager.stacks.spec_has_block(h),
            forall|k: int|
                #![trigger state.stores@[k]]
                0 <= k < state.stores@.len() ==> ((forall|b: ItemAddress|
                    #[trigger] state.stores@[k].spec_events(b) == spec_rolled_back(
                        old(state).stores@[k].spec_events(b),
                        orig.stacks,
                        block_ids@,
                    )) && state.stores@[k].instanciation == old(state).stores@[k].instanciation)
                    || (state.stores@[k].items@.len() == 0 && state.stores@[k].instanciation is None && spec_decommissioned(
                    orig.stacks,
                    block_ids@,
                    state.stores@[k].contract_id@,
                )),
            forall|rr: int|
                0 <= rr < removed@.len() ==> #[trigger] spec_removed_block(orig.stacks, block_ids@, removed@[rr]),
        decreases nr - r,
    {
        let nt = removed[r].transactions.len();
        let mut t: usize = 0;
        while t < nt
            invariant
                n == block_ids@.len(),
                r < nr,
                nr == removed@.len(),
                nt == removed@[r as int].transactions@.len(),
                t <= nt,
                orig == *old(manager),
                manager.wf(),
                manager.bitcoin == old(manager).bitcoin,
                manager.storage_driver == old(manager).storage_driver,
                state.wf(),
                state.stores@.len() == old(state).stores@.len(),
                forall|ht: u64|
                    #[trigger] manager.stacks.spec_has_height(ht) ==> orig.stacks.spec_has_height(
                        ht,
                    ) && manager.stacks.spec_hash_at(ht) == orig.stacks.spec_hash_at(ht),
                forall|h: Seq<char>|
                    #[trigger] manager.stacks.spec_has_block(h) ==> orig.stacks.spec_has_block(h)
                        && manager.stacks.spec_block_at(h) == orig.stacks.spec_block_at(h),
                forall|kk: int|
                    0 <= kk < n ==> !(manager.stacks.spec_has_height(
                        (#[trigger] block_ids@[kk]).index,
                    ) && manager.stacks.spec_hash_at(block_ids@[kk].index)
                        == block_ids@[kk].hash@),
                forall|ht: u64, k: int, b: ItemAddress|
                    orig.stacks.spec_has_height(ht) && !manager.stacks.spec_has_height(ht) && 0 <= k
                        < state.stores@.len() ==> !#[trigger] spec_has_event_at(
                        state.stores@[k].spec_events(b),
                        ht,
                    ),
                forall|k: int|
                    0 <= k < state.stores@.len() ==> (#[trigger] state.stores@[k]).contract_id == old(state).stores@[k].contract_id,
                forall|ht: u64|
                    orig.stacks.spec_has_height(ht) && !spec_removed_height(
                        orig.stacks,
                        block_ids@,
                        ht,
                    ) ==> #[trigger] manager.stacks.spec_has_height(ht),
                forall|h: Seq<char>|
                    orig.stacks.spec_has_block(h) && !spec_removed_hash(
                        orig.stacks,
                        block_ids@,
                        h,
                    ) ==> #[trigger] manager.stacks.spec_has_block(h),
                forall|k: int|
                    #![trigger state.stores@[k]]
                    0 <= k < state.stores@.len() ==> ((forall|b: ItemAddress|
                        #[trigger] state.stores@[k].spec_events(b) == spec_rolled_back(
                            old(state).stores@[k].spec_events(b),
                            orig.stacks,
                            block_ids@,
                        )) && state.stores@[k].instanciation == old(state).stores@[k].instanciation)
                        || (state.stores@[k].items@.len() == 0 && state.stores@[k].instanciation is None && spec_decommissioned(
                        orig.stacks,
                        block_ids@,
                        state.stores@[k].contract_id@,
                    )),
                forall|rr: int|
                0 <= rr < removed@.len() ==> #[trigger] spec_removed_block(orig.stacks, block_ids@, removed@[rr]),
            decreases nt - t,
        {
            let ghost prev_state = *state;
            match &removed[r].transactions[t].kind {
                StacksTransactionKind::ContractDeployment(data) => {
                    proof {
                        assert(crate::archive::spec_is_deployment_of(
                            removed@[r as int],
                            t as int,
                            data.contract_identifier@,
                        ));
                        assert(spec_removed_block(orig.stacks, block_ids@, removed@[r as int]));
                        let j = choose|j: int|
                            0 <= j < block_ids@.len() && orig.stacks.spec_has_height(
                                (#[trigger] block_ids@[j]).index,
                            ) && orig.stacks.spec_hash_at(block_ids@[j].index)
                                == block_ids@[j].hash@ && orig.stacks.spec_block_at(
                                block_ids@[j].hash@,
                            ) == ChainBlock::Stacks(removed@[r as int]);
                        assert(orig.stacks.spec_block_at(block_ids@[j].hash@)
                            == ChainBlock::Stacks(removed@[r as int]));
                        assert(spec_stacks_deployment_at(
                            orig.stacks,
                            block_ids@[j].hash@,
                            t as int,
                            data.contract_identifier@,
                        ));
                        assert(spec_decommissioned(
                            orig.stacks,
                            block_ids@,
                            data.contract_identifier@,
                        ));
                    }
                    manager.stacks.remove_contract(data.contract_identifier.as_str());
                    state.delete_contract(data.contract_identifier.as_str());
                    proof {
                        assert forall|ht: u64, k: int, b: ItemAddress|
                            orig.stacks.spec_has_height(ht) && !manager.stacks.spec_has_height(ht)
                                && 0 <= k < state.stores@.len() implies !#[trigger] spec_has_event_at(
                            state.stores@[k].spec_events(b),
                            ht,
                        ) by {
                            if state.stores@[k] == prev_state.stores@[k] {
                                assert(!spec_has_event_at(
                                    prev_state.stores@[k].spec_events(b),
                                    ht,
                                ));
                            } else {
                                assert(state.stores@[k].items@.len() == 0);
                                assert(!state.stores@[k].spec_has_item(b));
                                assert(state.stores@[k].spec_events(b)
                                    =~= Seq::<crate::state::EventLogEntry>::empty());
                            }
                        }
                        assert forall|k: int|
                            #![trigger state.stores@[k]]
                            0 <= k < state.stores@.len() implies ((forall|b: ItemAddress|
                            #[trigger] state.stores@[k].spec_events(b) == spec_rolled_back(
                                old(state).stores@[k].spec_events(b),
                                orig.stacks,
                                block_ids@,
                            )) && state.stores@[k].instanciation == old(state).stores@[k].instanciation)
                            || (state.stores@[k].items@.len() == 0 && state.stores@[k].instanciation is None && spec_decommissioned(
                            orig.stacks,
                            block_ids@,
                            state.stores@[k].contract_id@,
                        )) by {
                            if state.stores@[k] == prev_state.stores@[k] {
                            } else {
                                // only the named contract's store changed
                                assert(prev_state.stores@[k].contract_id@
                                    == data.contract_identifier@);
                                assert(state.stores@[k].contract_id@
                                    == data.contract_identifier@);
                                assert(state.stores@[k].items@.len() == 0
                                    && state.stores@[k].instanciation is None);
                            }
                        }
                    }
                },
                _ => {},
            }
            t += 1;
        }
        r += 1;
    }
}

/// A mask of fresh `false` entries has no set entry.
proof fn lemma_count_all_false(s: Seq<bool>)
    requires
        forall|q: int| 0 <= q < s.len() ==> !s[q],
    ensures
        count_true(s) == 0,
    decreases s.len(),
{
    if s.len() > 0 {
        assert(forall|q: int| 0 <= q < s.drop_last().len() ==> !#[trigger] s.drop_last()[q]);
        lemma_count_all_false(s.drop_last());
    }
}

/// Rollback coordinator for a batch of invalidated Bitcoin blocks. No
/// contract state derives from Bitcoin blocks, so only the archive is
/// involved: matching blocks are removed and the tip is recomputed.
pub fn rollback_bitcoin_blocks(manager: &mut BlockStoreManager, block_ids: &Vec<BlockIdentifier>)
    requires
        old(manager).wf(),
    ensures
        final(manager).wf(),
        final(manager).stacks == old(manager).stacks,
        final(manager).storage_driver == old(manager).storage_driver,
        crate::archive::spec_blocks_deleted(
            old(manager).bitcoin,
            final(manager).bitcoin,
            block_ids@,
        ),
{
    manager.bitcoin.delete_blocks(block_ids);
}

} // verus!
