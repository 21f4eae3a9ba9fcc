use clarion::applier::ContractsState;
use clarion::archive::{BlockArchive, BlockStoreManager};
use clarion::errors::ChainStoreError;
use clarion::rollback::{rollback_bitcoin_blocks, rollback_stacks_blocks};
use clarion::state::{ContractStateStore, ItemAddress, StateValue};
use clarion::types::{
    BitcoinBlockData, BlockIdentifier, BlockStoreManagerMessage, ChainBlock, FilesystemConfig,
    StacksBlockData, StacksBlockMetadata, StacksContractDeploymentData, StacksTransactionData,
    StacksTransactionKind, StorageDriver, TransactionEvent, TransactionIdentifier,
};

fn bid(index: u64, hash: &str) -> BlockIdentifier {
    BlockIdentifier { index, hash: hash.to_string() }
}

fn driver() -> StorageDriver {
    StorageDriver::Filesystem(FilesystemConfig { working_dir: "/tmp/clarion".to_string() })
}

fn stacks_block(
    index: u64,
    hash: &str,
    parent: &str,
    transactions: Vec<StacksTransactionData>,
) -> StacksBlockData {
    StacksBlockData {
        block_identifier: bid(index, hash),
        parent_block_identifier: bid(index.saturating_sub(1), parent),
        timestamp: 1000 + index,
        transactions,
        metadata: StacksBlockMetadata {
            bitcoin_anchor_block_identifier: bid(index, "btc-anchor"),
            pox_cycle_index: 0,
            pox_cycle_position: 0,
            pox_cycle_length: 10,
        },
    }
}

fn call_tx(hash: &str, events: Vec<TransactionEvent>) -> StacksTransactionData {
    StacksTransactionData {
        transaction_identifier: TransactionIdentifier { hash: hash.to_string() },
        kind: StacksTransactionKind::ContractCall,
        events,
    }
}

fn deploy_tx(hash: &str, contract_id: &str, code: &str) -> StacksTransactionData {
    StacksTransactionData {
        transaction_identifier: TransactionIdentifier { hash: hash.to_string() },
        kind: StacksTransactionKind::ContractDeployment(StacksContractDeploymentData {
            contract_identifier: contract_id.to_string(),
            code: code.to_string(),
        }),
        events: vec![],
    }
}

#[test]
fn archive_round_trip_by_hash_and_height() {
    // archiving a block then reading it back, by hash and by height, yields
    // content identical to what went in
    let mut manager = BlockStoreManager::new(driver());
    let block = stacks_block(5, "h5", "h4", vec![]);
    manager.store_stacks_block(block.clone()).unwrap();
    let by_hash = manager.stacks.get_block_by_hash("h5").unwrap();
    assert_eq!(*by_hash, ChainBlock::Stacks(block.clone()));
    let by_height = manager.stacks.get_block_by_height(5).unwrap();
    assert_eq!(*by_height, ChainBlock::Stacks(block));

    let btc = BitcoinBlockData {
        block_identifier: bid(9, "b9"),
        parent_block_identifier: bid(8, "b8"),
        timestamp: 99,
    };
    manager.store_bitcoin_block(btc.clone()).unwrap();
    assert_eq!(*manager.bitcoin.get_block_by_hash("b9").unwrap(), ChainBlock::Bitcoin(btc.clone()));
    assert_eq!(*manager.bitcoin.get_block_by_height(9).unwrap(), ChainBlock::Bitcoin(btc));
}

#[test]
fn archive_is_idempotent_and_tracks_tip() {
    let mut archive = BlockArchive::new();
    archive.archive_block(ChainBlock::Stacks(stacks_block(1, "h1", "h0", vec![]))).unwrap();
    archive.archive_block(ChainBlock::Stacks(stacks_block(2, "h2", "h1", vec![]))).unwrap();
    assert_eq!(archive.tip, Some(bid(2, "h2")));
    // archiving the identical block twice is a no-op in effect
    archive.archive_block(ChainBlock::Stacks(stacks_block(2, "h2", "h1", vec![]))).unwrap();
    assert_eq!(archive.tip, Some(bid(2, "h2")));
    assert_eq!(archive.blocks.len(), 2);
    assert_eq!(archive.index.len(), 2);
    // a competing block at the same height supersedes the index entry but
    // the earlier block stays archived under its hash, and the tip only
    // advances when a height exceeds it, so it stays as well
    archive.archive_block(ChainBlock::Stacks(stacks_block(2, "h2-fork", "h1", vec![]))).unwrap();
    assert_eq!(archive.tip, Some(bid(2, "h2")));
    assert_eq!(archive.blocks.len(), 3);
    assert_eq!(archive.index.len(), 2);
    assert!(archive.get_block_by_hash("h2").is_some());
    assert_eq!(
        *archive.get_block_by_height(2).unwrap(),
        ChainBlock::Stacks(stacks_block(2, "h2-fork", "h1", vec![]))
    );
    // re-archiving a hash at a different height is corrupt input
    assert_eq!(
        archive.archive_block(ChainBlock::Stacks(stacks_block(7, "h2", "h6", vec![]))),
        Err(ChainStoreError::DataIntegrityFault)
    );
}

#[test]
fn deployments_are_recorded_with_the_block() {
    let mut manager = BlockStoreManager::new(driver());
    let block = stacks_block(1, "h1", "h0", vec![deploy_tx("t1", "S1G.test", "(print \"hi\")")]);
    manager.store_stacks_block(block).unwrap();
    let record = manager.stacks.read_contract_instanciation("S1G.test").unwrap();
    assert_eq!(record.block_identifier, bid(1, "h1"));
    assert_eq!(record.tx_identifier.hash, "t1");
    assert_eq!(record.code, "(print \"hi\")");
    assert!(manager.stacks.read_contract_instanciation("S1G.other").is_none());
}

#[test]
fn current_value_tracks_latest_event() {
    // the invariant behind every scenario: current == highest remaining event
    let mut store = ContractStateStore::new("S1G.c".to_string());
    let x = ItemAddress::Var { name: "x".to_string() };
    store.append_event(&x, 2, 0, Some(StateValue::Text("1".to_string()))).unwrap();
    store.append_event(&x, 3, 0, Some(StateValue::Text("2".to_string()))).unwrap();
    assert_eq!(store.get_current(&x), Some(&StateValue::Text("2".to_string())));
    // an out-of-order key is rejected, guarding the log's ordering
    assert_eq!(
        store.append_event(&x, 3, 0, Some(StateValue::Text("3".to_string()))),
        Err(ChainStoreError::DataIntegrityFault)
    );
    store.undo_events_at_height(&x, 3);
    assert_eq!(store.get_current(&x), Some(&StateValue::Text("1".to_string())));
    store.undo_events_at_height(&x, 2);
    assert_eq!(store.get_current(&x), None);
}

#[test]
fn scan_returns_events_in_increasing_index_order() {
    // two events in the same block mutating the same item come back in
    // increasing event-index order
    let mut state = ContractsState::new();
    state
        .register_contract(
            "S1G.c",
            clarion::types::ContractInstanciation {
                block_identifier: bid(1, "h1"),
                tx_identifier: TransactionIdentifier { hash: "t0".to_string() },
                code: "".to_string(),
            },
        )
        .unwrap();
    let block = stacks_block(
        2,
        "h2",
        "h1",
        vec![call_tx(
            "t1",
            vec![
                TransactionEvent::DataVarSet {
                    contract_identifier: "S1G.c".to_string(),
                    var: "x".to_string(),
                    new_value: "a".to_string(),
                },
                TransactionEvent::DataVarSet {
                    contract_identifier: "S1G.c".to_string(),
                    var: "x".to_string(),
                    new_value: "b".to_string(),
                },
            ],
        )],
    );
    let faults = state.apply_stacks_block(&block);
    assert!(faults.is_empty());
    let x = ItemAddress::Var { name: "x".to_string() };
    let events = state.scan_events("S1G.c", &x, None);
    assert_eq!(events.len(), 2);
    assert!(events[0].event_index < events[1].event_index);
    assert_eq!(events[0].value_after, Some(StateValue::Text("a".to_string())));
    assert_eq!(events[1].value_after, Some(StateValue::Text("b".to_string())));
    assert_eq!(state.get_current("S1G.c", &x), Some(&StateValue::Text("b".to_string())));
}

#[test]
fn deploy_set_set_rollback_scenario() {
    // deploy C at height 1 with variable x; x=1 at height 2, x=2 at height
    // 3; then roll the heights back one by one and watch current and tip
    let mut manager = BlockStoreManager::new(driver());
    let mut state = ContractsState::new();
    let b1 = stacks_block(1, "h1", "h0", vec![deploy_tx("t1", "S1G.c", "(define-data-var x int 0)")]);
    let b2 = stacks_block(
        2,
        "h2",
        "h1",
        vec![call_tx(
            "t2",
            vec![TransactionEvent::DataVarSet {
                contract_identifier: "S1G.c".to_string(),
                var: "x".to_string(),
                new_value: "1".to_string(),
            }],
        )],
    );
    let b3 = stacks_block(
        3,
        "h3",
        "h2",
        vec![call_tx(
            "t3",
            vec![TransactionEvent::DataVarSet {
                contract_identifier: "S1G.c".to_string(),
                var: "x".to_string(),
                new_value: "2".to_string(),
            }],
        )],
    );
    for b in [&b1, &b2, &b3] {
        manager.store_stacks_block(b.clone()).unwrap();
        assert!(state.apply_stacks_block(b).is_empty());
    }
    let x = ItemAddress::Var { name: "x".to_string() };
    assert_eq!(state.get_current("S1G.c", &x), Some(&StateValue::Text("2".to_string())));
    assert_eq!(manager.stacks.tip, Some(bid(3, "h3")));

    rollback_stacks_blocks(&mut manager, &mut state, &vec![bid(3, "h3")]);
    assert_eq!(state.get_current("S1G.c", &x), Some(&StateValue::Text("1".to_string())));
    assert_eq!(manager.stacks.tip, Some(bid(2, "h2")));

    rollback_stacks_blocks(&mut manager, &mut state, &vec![bid(2, "h2")]);
    assert_eq!(state.get_current("S1G.c", &x), None);
    assert_eq!(manager.stacks.tip, Some(bid(1, "h1")));
    // the contract itself was deployed at height 1 and is still known
    assert!(manager.stacks.read_contract_instanciation("S1G.c").is_some());
}

#[test]
fn rollback_inverts_apply_and_restores_event_count() {
    let mut manager = BlockStoreManager::new(driver());
    let mut state = ContractsState::new();
    let b1 = stacks_block(
        1,
        "h1",
        "h0",
        vec![
            deploy_tx("t1", "S1G.c", ""),
            call_tx(
                "t2",
                vec![
                    TransactionEvent::DataVarSet {
                        contract_identifier: "S1G.c".to_string(),
                        var: "x".to_string(),
                        new_value: "before".to_string(),
                    },
                    TransactionEvent::FTMint {
                        asset_class_identifier: "S1G.c::tok".to_string(),
                        recipient: "A".to_string(),
                        amount: 5,
                    },
                ],
            ),
        ],
    );
    manager.store_stacks_block(b1.clone()).unwrap();
    assert!(state.apply_stacks_block(&b1).is_empty());
    let x = ItemAddress::Var { name: "x".to_string() };
    let ft = ItemAddress::FtBalance { asset: "S1G.c::tok".to_string(), owner: "A".to_string() };
    let events_before_x = state.scan_events("S1G.c", &x, None);
    let events_before_ft = state.scan_events("S1G.c", &ft, None);

    let b2 = stacks_block(
        2,
        "h2",
        "h1",
        vec![call_tx(
            "t3",
            vec![
                TransactionEvent::DataVarSet {
                    contract_identifier: "S1G.c".to_string(),
                    var: "x".to_string(),
                    new_value: "after".to_string(),
                },
                TransactionEvent::FTMint {
                    asset_class_identifier: "S1G.c::tok".to_string(),
                    recipient: "A".to_string(),
                    amount: 7,
                },
            ],
        )],
    );
    manager.store_stacks_block(b2.clone()).unwrap();
    assert!(state.apply_stacks_block(&b2).is_empty());
    assert_eq!(state.get_current("S1G.c", &x), Some(&StateValue::Text("after".to_string())));
    assert_eq!(state.get_current("S1G.c", &ft), Some(&StateValue::Amount(12)));

    // rolling block 2 back restores every touched item to its pre-block
    // value and removes exactly block 2's event-log entries
    rollback_stacks_blocks(&mut manager, &mut state, &vec![bid(2, "h2")]);
    assert_eq!(state.get_current("S1G.c", &x), Some(&StateValue::Text("before".to_string())));
    assert_eq!(state.get_current("S1G.c", &ft), Some(&StateValue::Amount(5)));
    assert_eq!(state.scan_events("S1G.c", &x, None), events_before_x);
    assert_eq!(state.scan_events("S1G.c", &ft, None), events_before_ft);
    assert!(manager.stacks.get_block_by_hash("h2").is_none());
    assert!(manager.stacks.get_block_by_hash("h1").is_some());
}

#[test]
fn rollback_is_idempotent() {
    let mut manager = BlockStoreManager::new(driver());
    let mut state = ContractsState::new();
    let b1 = stacks_block(
        1,
        "h1",
        "h0",
        vec![
            deploy_tx("t1", "S1G.c", ""),
            call_tx(
                "t2",
                vec![TransactionEvent::DataVarSet {
                    contract_identifier: "S1G.c".to_string(),
                    var: "x".to_string(),
                    new_value: "v".to_string(),
                }],
            ),
        ],
    );
    let b2 = stacks_block(
        2,
        "h2",
        "h1",
        vec![call_tx(
            "t3",
            vec![TransactionEvent::DataVarSet {
                contract_identifier: "S1G.c".to_string(),
                var: "x".to_string(),
                new_value: "w".to_string(),
            }],
        )],
    );
    manager.store_stacks_block(b1.clone()).unwrap();
    manager.store_stacks_block(b2.clone()).unwrap();
    assert!(state.apply_stacks_block(&b1).is_empty());
    assert!(state.apply_stacks_block(&b2).is_empty());

    rollback_stacks_blocks(&mut manager, &mut state, &vec![bid(2, "h2")]);
    let x = ItemAddress::Var { name: "x".to_string() };
    let after_first = state.scan_events("S1G.c", &x, None);
    let tip_after_first = manager.stacks.tip.clone();

    // rolling the same identifier back a second time changes nothing
    rollback_stacks_blocks(&mut manager, &mut state, &vec![bid(2, "h2")]);
    assert_eq!(state.scan_events("S1G.c", &x, None), after_first);
    assert_eq!(manager.stacks.tip, tip_after_first);

    // rolling back a never-archived identifier changes nothing either
    rollback_stacks_blocks(&mut manager, &mut state, &vec![bid(40, "never")]);
    assert_eq!(state.scan_events("S1G.c", &x, None), after_first);
    assert_eq!(manager.stacks.tip, tip_after_first);

    // a competing hash at an archived height is skipped silently
    rollback_stacks_blocks(&mut manager, &mut state, &vec![bid(1, "h1-fork")]);
    assert!(manager.stacks.get_block_by_hash("h1").is_some());
    assert_eq!(state.scan_events("S1G.c", &x, None), after_first);
}

#[test]
fn mint_and_transfer_scenario() {
    // mint 100 of T to A at height 5; transfer 40 from A to B at height 6;
    // balances are 60 and 40, and A's item has exactly one entry at height 6
    let mut state = ContractsState::new();
    state
        .register_contract(
            "S1G.c",
            clarion::types::ContractInstanciation {
                block_identifier: bid(1, "h1"),
                tx_identifier: TransactionIdentifier { hash: "t0".to_string() },
                code: "".to_string(),
            },
        )
        .unwrap();
    let b5 = stacks_block(
        5,
        "h5",
        "h4",
        vec![call_tx(
            "t1",
            vec![TransactionEvent::FTMint {
                asset_class_identifier: "S1G.c::T".to_string(),
                recipient: "A".to_string(),
                amount: 100,
            }],
        )],
    );
    let b6 = stacks_block(
        6,
        "h6",
        "h5",
        vec![call_tx(
            "t2",
            vec![TransactionEvent::FTTransfer {
                asset_class_identifier: "S1G.c::T".to_string(),
                sender: "A".to_string(),
                recipient: "B".to_string(),
                amount: 40,
            }],
        )],
    );
    assert!(state.apply_stacks_block(&b5).is_empty());
    assert!(state.apply_stacks_block(&b6).is_empty());
    let a = ItemAddress::FtBalance { asset: "S1G.c::T".to_string(), owner: "A".to_string() };
    let b = ItemAddress::FtBalance { asset: "S1G.c::T".to_string(), owner: "B".to_string() };
    assert_eq!(state.get_current("S1G.c", &a), Some(&StateValue::Amount(60)));
    assert_eq!(state.get_current("S1G.c", &b), Some(&StateValue::Amount(40)));
    let at_six = state.scan_events("S1G.c", &a, Some(6));
    assert_eq!(at_six.len(), 1);
    assert_eq!(at_six[0].height, 6);
    assert_eq!(at_six[0].value_after, Some(StateValue::Amount(60)));
}

#[test]
fn map_and_nft_lifecycle() {
    let mut state = ContractsState::new();
    let cid = "S1G.test";
    state
        .register_contract(
            cid,
            clarion::types::ContractInstanciation {
                block_identifier: bid(1, "h1"),
                tx_identifier: TransactionIdentifier { hash: "t0".to_string() },
                code: "(print \"hello world\")".to_string(),
            },
        )
        .unwrap();
    let asset = format!("{}::ft-token", cid);
    let block = stacks_block(
        2,
        "h2",
        "h1",
        vec![call_tx(
            "t1",
            vec![
                TransactionEvent::DataMapInsert {
                    contract_identifier: cid.to_string(),
                    map: "map-1".to_string(),
                    inserted_key: "k2".to_string(),
                    inserted_value: "v2".to_string(),
                },
                TransactionEvent::DataMapInsert {
                    contract_identifier: cid.to_string(),
                    map: "map-1".to_string(),
                    inserted_key: "k3".to_string(),
                    inserted_value: "v3".to_string(),
                },
                TransactionEvent::DataMapUpdate {
                    contract_identifier: cid.to_string(),
                    map: "map-1".to_string(),
                    key: "k2".to_string(),
                    new_value: "v4".to_string(),
                },
                TransactionEvent::DataMapDelete {
                    contract_identifier: cid.to_string(),
                    map: "map-1".to_string(),
                    deleted_key: "k3".to_string(),
                },
                TransactionEvent::NFTMint {
                    asset_class_identifier: asset.clone(),
                    recipient: "S1G2081040G2081040G2081040G208105NK8P01".to_string(),
                    asset_identifier: "A".to_string(),
                },
                TransactionEvent::NFTTransfer {
                    asset_class_identifier: asset.clone(),
                    sender: "S1G2081040G2081040G2081040G208105NK8P01".to_string(),
                    recipient: "S1G2081040G2081040G2081040G208105NK8P03".to_string(),
                    asset_identifier: "A".to_string(),
                },
            ],
        )],
    );
    let faults = state.apply_stacks_block(&block);
    assert!(faults.is_empty());
    let k2 = ItemAddress::MapEntry { map: "map-1".to_string(), entry_key: "k2".to_string() };
    let k3 = ItemAddress::MapEntry { map: "map-1".to_string(), entry_key: "k3".to_string() };
    assert_eq!(state.get_current(cid, &k2), Some(&StateValue::Text("v4".to_string())));
    // the deletion removed the current value but its event stays on record
    assert_eq!(state.get_current(cid, &k3), None);
    assert_eq!(state.scan_events(cid, &k3, None).len(), 2);
    let token = ItemAddress::NftToken { asset: asset.clone(), token: "A".to_string() };
    assert_eq!(
        state.get_current(cid, &token),
        Some(&StateValue::Text("S1G2081040G2081040G2081040G208105NK8P03".to_string()))
    );
}

#[test]
fn integrity_faults_are_reported_and_do_not_abort_the_block() {
    let mut state = ContractsState::new();
    state
        .register_contract(
            "S1G.c",
            clarion::types::ContractInstanciation {
                block_identifier: bid(1, "h1"),
                tx_identifier: TransactionIdentifier { hash: "t0".to_string() },
                code: "".to_string(),
            },
        )
        .unwrap();
    let block = stacks_block(
        2,
        "h2",
        "h1",
        vec![
            // deploying an already-deployed contract identifier
            deploy_tx("t1", "S1G.c", ""),
            call_tx(
                "t2",
                vec![
                    // burning a token that was never minted
                    TransactionEvent::FTBurn {
                        asset_class_identifier: "S1G.c::T".to_string(),
                        sender: "A".to_string(),
                        amount: 1,
                    },
                    // an event for a contract no store owns
                    TransactionEvent::DataVarSet {
                        contract_identifier: "S1G.unknown".to_string(),
                        var: "x".to_string(),
                        new_value: "1".to_string(),
                    },
                    // a well-formed event after the faults still applies
                    TransactionEvent::DataVarSet {
                        contract_identifier: "S1G.c".to_string(),
                        var: "x".to_string(),
                        new_value: "kept".to_string(),
                    },
                ],
            ),
        ],
    );
    let faults = state.apply_stacks_block(&block);
    assert_eq!(faults.len(), 3);
    assert!(faults.iter().all(|f| f.fault == ChainStoreError::DataIntegrityFault));
    assert_eq!(faults[0].tx_position, 0);
    assert_eq!(faults[1].tx_position, 1);
    let x = ItemAddress::Var { name: "x".to_string() };
    assert_eq!(state.get_current("S1G.c", &x), Some(&StateValue::Text("kept".to_string())));
}

#[test]
fn transfer_exceeding_balance_is_rejected() {
    let mut state = ContractsState::new();
    state
        .register_contract(
            "S1G.c",
            clarion::types::ContractInstanciation {
                block_identifier: bid(1, "h1"),
                tx_identifier: TransactionIdentifier { hash: "t0".to_string() },
                code: "".to_string(),
            },
        )
        .unwrap();
    let ok = state.apply_event(
        &TransactionEvent::FTMint {
            asset_class_identifier: "S1G.c::T".to_string(),
            recipient: "A".to_string(),
            amount: 10,
        },
        1,
        0,
    );
    assert!(ok.is_ok());
    let too_much = state.apply_event(
        &TransactionEvent::FTTransfer {
            asset_class_identifier: "S1G.c::T".to_string(),
            sender: "A".to_string(),
            recipient: "B".to_string(),
            amount: 11,
        },
        1,
        1,
    );
    assert_eq!(too_much, Err(ChainStoreError::DataIntegrityFault));
    let a = ItemAddress::FtBalance { asset: "S1G.c::T".to_string(), owner: "A".to_string() };
    assert_eq!(state.get_current("S1G.c", &a), Some(&StateValue::Amount(10)));
}

#[test]
fn rolled_back_deployment_decommissions_the_contract() {
    let mut manager = BlockStoreManager::new(driver());
    let mut state = ContractsState::new();
    let b1 = stacks_block(
        1,
        "h1",
        "h0",
        vec![
            deploy_tx("t1", "S1G.c", "(code)"),
            call_tx(
                "t2",
                vec![TransactionEvent::DataVarSet {
                    contract_identifier: "S1G.c".to_string(),
                    var: "x".to_string(),
                    new_value: "1".to_string(),
                }],
            ),
        ],
    );
    manager.store_stacks_block(b1.clone()).unwrap();
    assert!(state.apply_stacks_block(&b1).is_empty());
    assert!(manager.stacks.read_contract_instanciation("S1G.c").is_some());

    rollback_stacks_blocks(&mut manager, &mut state, &vec![bid(1, "h1")]);
    assert!(manager.stacks.read_contract_instanciation("S1G.c").is_none());
    let x = ItemAddress::Var { name: "x".to_string() };
    assert_eq!(state.get_current("S1G.c", &x), None);
    assert_eq!(state.scan_events("S1G.c", &x, None).len(), 0);
    assert_eq!(manager.stacks.tip, None);
}

#[test]
fn bitcoin_rollback_removes_matched_blocks_only() {
    let mut manager = BlockStoreManager::new(driver());
    for (h, name) in [(1u64, "b1"), (2, "b2"), (3, "b3")] {
        let block = BitcoinBlockData {
            block_identifier: bid(h, name),
            parent_block_identifier: bid(h.saturating_sub(1), "parent"),
            timestamp: h,
        };
        manager.store_bitcoin_block(block).unwrap();
    }
    rollback_bitcoin_blocks(&mut manager, &vec![bid(3, "b3"), bid(2, "wrong-hash")]);
    assert!(manager.bitcoin.get_block_by_height(3).is_none());
    assert!(manager.bitcoin.get_block_by_height(2).is_some());
    assert_eq!(manager.bitcoin.tip, Some(bid(2, "b2")));
}

#[test]
fn worker_dispatch_handles_each_message() {
    let mut manager = BlockStoreManager::new(driver());
    let btc = BitcoinBlockData {
        block_identifier: bid(1, "b1"),
        parent_block_identifier: bid(0, "b0"),
        timestamp: 1,
    };
    assert!(manager.handle_message(BlockStoreManagerMessage::ArchiveBitcoinBlock(btc)));
    assert!(manager.handle_message(BlockStoreManagerMessage::ArchiveStacksBlock(stacks_block(
        1, "h1", "h0", vec![]
    ))));
    assert!(manager.bitcoin.get_block_by_hash("b1").is_some());
    assert!(manager.stacks.get_block_by_hash("h1").is_some());
    assert!(manager.handle_message(BlockStoreManagerMessage::RollbackBitcoinBlocks(vec![bid(
        1, "b1"
    )])));
    assert!(manager.bitcoin.get_block_by_hash("b1").is_none());
    assert!(manager.handle_message(BlockStoreManagerMessage::RollbackStacksBlocks(vec![bid(
        1, "h1"
    )])));
    assert!(manager.stacks.get_block_by_hash("h1").is_none());
    assert!(!manager.handle_message(BlockStoreManagerMessage::Exit));
}

#[test]
fn self_transfer_applies_as_a_normal_event() {
    // a transfer from an address to itself nets to nothing: the balance is
    // unchanged and one event records it
    let mut state = ContractsState::new();
    state
        .register_contract(
            "S1G.c",
            clarion::types::ContractInstanciation {
                block_identifier: bid(1, "h1"),
                tx_identifier: TransactionIdentifier { hash: "t0".to_string() },
                code: "".to_string(),
            },
        )
        .unwrap();
    let mint = state.apply_event(
        &TransactionEvent::FTMint {
            asset_class_identifier: "S1G.c::T".to_string(),
            recipient: "A".to_string(),
            amount: 10,
        },
        1,
        0,
    );
    assert!(mint.is_ok());
    let this_much = state.apply_event(
        &TransactionEvent::FTTransfer {
            asset_class_identifier: "S1G.c::T".to_string(),
            sender: "A".to_string(),
            recipient: "A".to_string(),
            amount: 10,
        },
        1,
        1,
    );
    assert!(this_much.is_ok());
    let a = ItemAddress::FtBalance { asset: "S1G.c::T".to_string(), owner: "A".to_string() };
    assert_eq!(state.get_current("S1G.c", &a), Some(&StateValue::Amount(10)));
    assert_eq!(state.scan_events("S1G.c", &a, None).len(), 2);
    // a self-transfer beyond the balance is still inconsistent
    let too_much = state.apply_event(
        &TransactionEvent::FTTransfer {
            asset_class_identifier: "S1G.c::T".to_string(),
            sender: "A".to_string(),
            recipient: "A".to_string(),
            amount: 11,
        },
        1,
        2,
    );
    assert_eq!(too_much, Err(ChainStoreError::DataIntegrityFault));
}

#[test]
fn rejected_block_changes_nothing() {
    // a hash re-archived at a different height is rejected before anything
    // is written: no block, no index entry, no deployment record, no tip
    // movement — no partial write is observable
    let mut manager = BlockStoreManager::new(driver());
    manager.store_stacks_block(stacks_block(1, "h1", "h0", vec![])).unwrap();
    let bad = stacks_block(7, "h1", "h6", vec![deploy_tx("t9", "S1G.late", "(code)")]);
    assert_eq!(manager.store_stacks_block(bad), Err(ChainStoreError::DataIntegrityFault));
    assert!(manager.stacks.get_block_by_height(7).is_none());
    assert_eq!(manager.stacks.tip, Some(bid(1, "h1")));
    assert!(manager.stacks.read_contract_instanciation("S1G.late").is_none());
}

#[test]
fn batched_rollback_equals_sequential() {
    // rolling several heights back in one call leaves the same state as
    // rolling them back one identifier per call, highest first
    let build = || {
        let mut manager = BlockStoreManager::new(driver());
        let mut state = ContractsState::new();
        let b1 = stacks_block(1, "h1", "h0", vec![deploy_tx("t1", "S1G.c", "")]);
        let b2 = stacks_block(
            2,
            "h2",
            "h1",
            vec![call_tx(
                "t2",
                vec![TransactionEvent::DataVarSet {
                    contract_identifier: "S1G.c".to_string(),
                    var: "x".to_string(),
                    new_value: "1".to_string(),
                }],
            )],
        );
        let b3 = stacks_block(
            3,
            "h3",
            "h2",
            vec![call_tx(
                "t3",
                vec![TransactionEvent::DataVarSet {
                    contract_identifier: "S1G.c".to_string(),
                    var: "x".to_string(),
                    new_value: "2".to_string(),
                }],
            )],
        );
        for b in [&b1, &b2, &b3] {
            manager.store_stacks_block(b.clone()).unwrap();
            assert!(state.apply_stacks_block(b).is_empty());
        }
        (manager, state)
    };
    let (mut m1, mut s1) = build();
    rollback_stacks_blocks(&mut m1, &mut s1, &vec![bid(2, "h2"), bid(3, "h3")]);
    let (mut m2, mut s2) = build();
    rollback_stacks_blocks(&mut m2, &mut s2, &vec![bid(3, "h3")]);
    rollback_stacks_blocks(&mut m2, &mut s2, &vec![bid(2, "h2")]);
    let x = ItemAddress::Var { name: "x".to_string() };
    assert_eq!(s1.scan_events("S1G.c", &x, None), s2.scan_events("S1G.c", &x, None));
    assert_eq!(s1.get_current("S1G.c", &x), s2.get_current("S1G.c", &x));
    assert_eq!(m1.stacks.tip, m2.stacks.tip);
    assert_eq!(m1.stacks.tip, Some(bid(1, "h1")));
    assert!(m1.stacks.get_block_by_hash("h1").is_some());
    assert!(m1.stacks.get_block_by_hash("h2").is_none());
}
