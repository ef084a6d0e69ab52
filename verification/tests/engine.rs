use chain_head::client::{BlockRecord, ClientModel};
use chain_head::decimal::u64_to_dec_string;
use chain_head::events::{FollowEvent, MethodResponse, RpcError, StorageQueryType, StorageResultType};
use chain_head::follow::{GlobalPins, Subscription};
use chain_head::hexcodec::{hex_decode, hex_string};
use chain_head::storage::{collect_query_window, storage_run, DecodedQuery};

fn block(hash: u64, parent: u64, number: u64) -> BlockRecord {
    BlockRecord {
        hash,
        parent,
        number,
        header: vec![hash as u8],
        body: Vec::new(),
        storage: Vec::new(),
        child_storage: Vec::new(),
        runtime_version: 2,
        runtime_calls: Vec::new(),
    }
}

#[test]
fn hex_round_trip() {
    let bytes: Vec<u8> = vec![0x00, 0x0f, 0xab, 0xff];
    let s = hex_string(&bytes);
    assert_eq!(s, "0x000fabff");
    let back = hex_decode(&s).unwrap();
    assert_eq!(back, bytes);
    assert!(hex_decode("0x0").is_err());
    assert!(hex_decode("0xzz").is_err());
}

#[test]
fn decimal_rendering() {
    assert_eq!(u64_to_dec_string(0), "0");
    assert_eq!(u64_to_dec_string(7), "7");
    assert_eq!(u64_to_dec_string(1234567890), "1234567890");
}

#[test]
fn client_ancestry() {
    let mut client = ClientModel::new(block(100, 0, 0));
    client.import_block(block(101, 100, 1), true);
    client.import_block(block(102, 101, 2), true);
    client.import_block(block(201, 100, 1), false);
    assert!(client.is_ancestor(100, 102));
    assert!(client.is_ancestor(101, 102));
    assert!(!client.is_ancestor(201, 102));
    let path = client.path_between(100, 102);
    assert_eq!(path, vec![101, 102]);
}

#[test]
fn follow_subscription_produces_blocks() {
    let mut client = ClientModel::new(block(100, 0, 0));
    let mut g = GlobalPins { used: 0, cap: 32 };
    let mut sub = Subscription::open(
        u64_to_dec_string(0),
        false,
        16,
        5,
        60,
        &client,
        &mut g,
        0,
    );
    assert_eq!(
        sub.pending,
        vec![FollowEvent::Initialized {
            finalized_hash: 100,
            finalized_runtime: None,
            with_runtime: false
        }]
    );
    sub.pending.clear();
    client.import_block(block(101, 100, 1), true);
    sub.on_import(&client, &mut g, 101, true, 1);
    assert_eq!(
        sub.pending,
        vec![
            FollowEvent::NewBlock {
                hash: 101,
                parent_hash: 100,
                new_runtime: None,
                with_runtime: false
            },
            FollowEvent::BestBlockChanged { hash: 101 },
        ]
    );
}

#[test]
fn follow_generates_initial_blocks() {
    let mut client = ClientModel::new(block(100, 0, 0));
    client.import_block(block(1, 100, 1), true);
    client.import_block(block(2, 1, 2), true);
    client.import_block(block(22, 1, 2), false);
    let mut g = GlobalPins { used: 0, cap: 32 };
    let sub = Subscription::open("0".to_owned(), false, 16, 5, 60, &client, &mut g, 0);
    assert_eq!(
        sub.pending,
        vec![
            FollowEvent::Initialized {
                finalized_hash: 100,
                finalized_runtime: None,
                with_runtime: false
            },
            FollowEvent::NewBlock {
                hash: 1,
                parent_hash: 100,
                new_runtime: None,
                with_runtime: false
            },
            FollowEvent::NewBlock {
                hash: 2,
                parent_hash: 1,
                new_runtime: None,
                with_runtime: false
            },
            FollowEvent::NewBlock {
                hash: 22,
                parent_hash: 1,
                new_runtime: None,
                with_runtime: false
            },
            FollowEvent::BestBlockChanged { hash: 2 },
        ]
    );
}

#[test]
fn follow_with_runtime() {
    let mut client = ClientModel::new(block(100, 0, 0));
    let mut g = GlobalPins { used: 0, cap: 32 };
    let mut sub = Subscription::open("0".to_owned(), true, 16, 5, 60, &client, &mut g, 0);
    assert_eq!(
        sub.pending[0],
        FollowEvent::Initialized {
            finalized_hash: 100,
            finalized_runtime: Some(2),
            with_runtime: true
        }
    );
    sub.pending.clear();
    // A child that rewrites the runtime is announced with the new version.
    let mut b = block(101, 100, 1);
    b.runtime_version = 3;
    client.import_block(b, true);
    sub.on_import(&client, &mut g, 101, true, 1);
    assert_eq!(
        sub.pending[0],
        FollowEvent::NewBlock {
            hash: 101,
            parent_hash: 100,
            new_runtime: Some(3),
            with_runtime: true
        }
    );
}

#[test]
fn follow_exceeding_pinned_blocks() {
    let mut client = ClientModel::new(block(100, 0, 0));
    let mut g = GlobalPins { used: 0, cap: 2 };
    let mut sub = Subscription::open("0".to_owned(), false, 16, 5, 60, &client, &mut g, 0);
    client.import_block(block(1, 100, 1), true);
    sub.on_import(&client, &mut g, 1, true, 1);
    sub.pending.clear();
    client.import_block(block(2, 1, 2), true);
    sub.on_import(&client, &mut g, 2, true, 2);
    assert_eq!(sub.pending, vec![FollowEvent::Stop]);
    assert!(sub.stopped);
    assert_eq!(g.used, 0);
    // Subsequent imports produce no further events.
    sub.pending.clear();
    client.import_block(block(3, 2, 3), true);
    sub.on_import(&client, &mut g, 3, true, 3);
    assert!(sub.pending.is_empty());
}

#[test]
fn duplicate_import_is_ignored() {
    let mut client = ClientModel::new(block(100, 0, 0));
    let mut g = GlobalPins { used: 0, cap: 32 };
    let mut sub = Subscription::open("0".to_owned(), false, 16, 5, 60, &client, &mut g, 0);
    client.import_block(block(1, 100, 1), true);
    sub.on_import(&client, &mut g, 1, true, 1);
    sub.pending.clear();
    sub.on_import(&client, &mut g, 1, true, 2);
    assert!(sub.pending.is_empty());
}

#[test]
fn pin_block_references() {
    let mut client = ClientModel::new(block(100, 0, 0));
    let mut g = GlobalPins { used: 0, cap: 3 };
    let mut sub = Subscription::open("0".to_owned(), false, 16, 5, 60, &client, &mut g, 0);
    assert_eq!(g.used, 1);
    client.import_block(block(1, 100, 1), true);
    sub.on_import(&client, &mut g, 1, true, 1);
    assert_eq!(g.used, 2);
    sub.stop_now(&client, &mut g);
    assert_eq!(g.used, 0);
    assert!(sub.pins.is_empty());
}

#[test]
fn storage_value_and_hash_items() {
    let entries: Vec<(Vec<u8>, Vec<u8>)> = vec![
        (b":m".to_vec(), b"a".to_vec()),
        (b":mo".to_vec(), b"ab".to_vec()),
    ];
    let q = DecodedQuery { key: b":m".to_vec(), query_type: StorageQueryType::Value };
    let (items, total) = collect_query_window(&entries, &q, 0, 10);
    assert_eq!(total, 1);
    assert_eq!(items.len(), 1);
    assert_eq!(items[0].key, hex_string(&b":m".to_vec()));
    assert_eq!(
        items[0].result,
        StorageResultType::Value(hex_string(&b"a".to_vec()))
    );
    // A missing key yields no items.
    let q2 = DecodedQuery { key: b":x".to_vec(), query_type: StorageQueryType::Value };
    let (items2, total2) = collect_query_window(&entries, &q2, 0, 10);
    assert_eq!(total2, 0);
    assert!(items2.is_empty());
}

#[test]
fn get_storage_non_queryable_key() {
    let entries: Vec<(Vec<u8>, Vec<u8>)> =
        vec![(b":child_storage:abc".to_vec(), b"v".to_vec())];
    let q = DecodedQuery {
        key: b":child_storage:abc".to_vec(),
        query_type: StorageQueryType::Value,
    };
    let (items, total) = collect_query_window(&entries, &q, 0, 10);
    assert_eq!(total, 0);
    assert!(items.is_empty());
}

#[test]
fn check_continue_operation() {
    // Items come in raw-byte lexicographic order, one per batch, with a
    // waiting-for-continue pause after each full batch while items remain.
    let entries: Vec<(Vec<u8>, Vec<u8>)> = vec![
        (b":m".to_vec(), b"a".to_vec()),
        (b":mo".to_vec(), b"ab".to_vec()),
        (b":moD".to_vec(), b"abcmoD".to_vec()),
        (b":moc".to_vec(), b"abc".to_vec()),
        (b":mock".to_vec(), b"abcd".to_vec()),
    ];
    let queries = vec![DecodedQuery {
        key: b":m".to_vec(),
        query_type: StorageQueryType::DescendantsValues,
    }];
    let op = "0".to_owned();
    let expected_keys: Vec<&[u8]> = vec![b":m", b":mo", b":moD", b":moc", b":mock"];
    let mut qi = 0usize;
    let mut off = 0usize;
    for (step, key) in expected_keys.iter().enumerate() {
        let (evs, cursor) = storage_run(&entries, &queries, 1, &op, qi, off);
        match &evs[0] {
            FollowEvent::OperationStorageItems { operation_id, items } => {
                assert_eq!(operation_id, "0");
                assert_eq!(items.len(), 1);
                assert_eq!(items[0].key, hex_string(&key.to_vec()));
            }
            other => panic!("unexpected event {:?}", other),
        }
        if step < expected_keys.len() - 1 {
            assert!(matches!(
                evs[1],
                FollowEvent::OperationWaitingForContinue { .. }
            ));
            let (nqi, noff) = cursor.unwrap();
            qi = nqi;
            off = noff;
        } else {
            assert!(matches!(evs[1], FollowEvent::OperationStorageDone { .. }));
            assert!(cursor.is_none());
        }
    }
}

#[test]
fn get_storage_multi_query_iter() {
    let entries: Vec<(Vec<u8>, Vec<u8>)> = vec![(b":mock".to_vec(), b"hello world".to_vec())];
    let queries = vec![
        DecodedQuery { key: b":mock".to_vec(), query_type: StorageQueryType::DescendantsHashes },
        DecodedQuery { key: b":mock".to_vec(), query_type: StorageQueryType::DescendantsValues },
    ];
    let op = "0".to_owned();
    let (evs, cursor) = storage_run(&entries, &queries, 5, &op, 0, 0);
    assert_eq!(evs.len(), 3);
    assert!(matches!(evs[0], FollowEvent::OperationStorageItems { .. }));
    match &evs[1] {
        FollowEvent::OperationStorageItems { items, .. } => {
            assert_eq!(
                items[0].result,
                StorageResultType::Value(hex_string(&b"hello world".to_vec()))
            );
        }
        other => panic!("unexpected event {:?}", other),
    }
    assert!(matches!(evs[2], FollowEvent::OperationStorageDone { .. }));
    assert!(cursor.is_none());
}

#[test]
fn storage_closest_merkle_value() {
    let entries: Vec<(Vec<u8>, Vec<u8>)> = vec![
        (b":AAAA".to_vec(), vec![1; 64]),
        (b":AAAB".to_vec(), vec![2; 64]),
    ];
    let mk = |key: &[u8]| -> Option<String> {
        let q = DecodedQuery {
            key: key.to_vec(),
            query_type: StorageQueryType::ClosestDescendantMerkleValue,
        };
        let (items, total) = collect_query_window(&entries, &q, 0, 10);
        if total == 0 {
            None
        } else {
            match &items[0].result {
                StorageResultType::ClosestDescendantMerkleValue(v) => Some(v.clone()),
                other => panic!("unexpected result {:?}", other),
            }
        }
    };
    let a = mk(b":A").unwrap();
    let aa = mk(b":AA").unwrap();
    let aaaa = mk(b":AAAA").unwrap();
    let aaab = mk(b":AAAB").unwrap();
    // The two leaves differ; a key covering both yields the same value at
    // any depth above the branch, and differs from either leaf.
    assert_ne!(aaaa, aaab);
    assert_eq!(a, aa);
    assert_ne!(a, aaaa);
    assert_ne!(a, aaab);
    // Keys outside the populated keyspace yield nothing.
    assert!(mk(b":AAAAX").is_none());
    assert!(mk(b":AAX").is_none());
}

fn new_head(genesis_hash: u64, cap: usize, max_ops: usize, max_items: usize) -> chain_head::api::ChainHead {
    chain_head::api::ChainHead::new(
        block(genesis_hash, 0, 0),
        chain_head::api::ChainHeadConfig {
            global_max_pinned_blocks: cap,
            subscription_max_pinned_duration: 60,
            subscription_max_ongoing_operations: max_ops,
            operation_max_storage_items: max_items,
        },
    )
}

#[test]
fn follow_finalized_event() {
    // Import a block on genesis, then finalize it: the subscription sees
    // Initialized, NewBlock, BestBlockChanged, Finalized with no pruning.
    let mut head = new_head(100, 32, 16, 5);
    let sub = head.follow(false, 0);
    assert_eq!(head.next_event(&sub).unwrap(), FollowEvent::Initialized {
        finalized_hash: 100,
        finalized_runtime: None,
        with_runtime: false
    });
    head.client_import(block(1, 100, 1), true);
    head.notify_import(1, true, 1);
    assert!(matches!(head.next_event(&sub).unwrap(), FollowEvent::NewBlock { hash: 1, .. }));
    assert_eq!(head.next_event(&sub).unwrap(), FollowEvent::BestBlockChanged { hash: 1 });
    head.client_finalize(1);
    head.notify_finality(1, 2);
    assert_eq!(head.next_event(&sub).unwrap(), FollowEvent::Finalized {
        finalized_hashes: vec![1],
        pruned_hashes: vec![]
    });
    assert!(head.next_event(&sub).is_none());
}

#[test]
fn follow_prune_best_block() {
    // genesis -> 1 -> 2f -> 4 finalized; sibling 1 -> 2 was best: the
    // best switches to the finalized block just before the report, and
    // the stale best is pruned.
    let mut head = new_head(100, 32, 16, 5);
    let sub = head.follow(false, 0);
    head.client_import(block(1, 100, 1), true);
    head.notify_import(1, true, 0);
    head.client_import(block(22, 1, 2), true);
    head.notify_import(22, true, 0);
    head.client_import(block(4, 22, 3), true);
    head.notify_import(4, true, 0);
    head.client_import(block(2, 1, 2), true);
    head.notify_import(2, true, 0);
    for _ in 0..8 {
        head.next_event(&sub).unwrap();
    }
    assert_eq!(head.next_event(&sub).unwrap(), FollowEvent::BestBlockChanged { hash: 2 });
    head.client_finalize(4);
    head.notify_finality(4, 1);
    assert_eq!(head.next_event(&sub).unwrap(), FollowEvent::BestBlockChanged { hash: 4 });
    assert_eq!(head.next_event(&sub).unwrap(), FollowEvent::Finalized {
        finalized_hashes: vec![1, 22, 4],
        pruned_hashes: vec![2]
    });
    // A pruned hash stays a valid unpin target.
    assert!(head.unpin(&sub, &vec![2]).is_ok());
}

#[test]
fn follow_forks_pruned_block() {
    // A fork below the subscription's starting point is never advertised
    // and never reported pruned.
    let mut head = new_head(100, 32, 16, 5);
    head.client_import(block(1, 100, 1), true);
    head.client_import(block(2, 1, 2), true);
    head.client_import(block(3, 2, 3), true);
    head.client_import(block(22, 1, 2), false);
    head.client_import(block(33, 22, 3), false);
    head.client_finalize(3);
    let sub = head.follow(false, 0);
    assert_eq!(head.next_event(&sub).unwrap(), FollowEvent::Initialized {
        finalized_hash: 3,
        finalized_runtime: None,
        with_runtime: false
    });
    head.client_import(block(4, 3, 4), true);
    head.notify_import(4, true, 1);
    head.client_finalize(4);
    head.notify_finality(4, 1);
    assert!(matches!(head.next_event(&sub).unwrap(), FollowEvent::NewBlock { hash: 4, .. }));
    assert_eq!(head.next_event(&sub).unwrap(), FollowEvent::BestBlockChanged { hash: 4 });
    assert_eq!(head.next_event(&sub).unwrap(), FollowEvent::Finalized {
        finalized_hashes: vec![4],
        pruned_hashes: vec![]
    });
}

#[test]
fn follow_report_multiple_pruned_block() {
    let mut head = new_head(100, 32, 16, 5);
    let sub = head.follow(false, 0);
    head.next_event(&sub).unwrap();
    for (h, p, n, best) in [(1, 100, 1, true), (2, 1, 2, true), (3, 2, 3, true), (22, 1, 2, false), (33, 22, 3, false)] {
        head.client_import(block(h, p, n), best);
        head.notify_import(h, best, 0);
    }
    while head.next_event(&sub).is_some() {}
    head.client_finalize(3);
    head.notify_finality(3, 1);
    // Pruning happens once the displaced branch's leaf falls behind.
    assert_eq!(head.next_event(&sub).unwrap(), FollowEvent::Finalized {
        finalized_hashes: vec![1, 2, 3],
        pruned_hashes: vec![]
    });
    head.client_import(block(4, 3, 4), true);
    head.notify_import(4, true, 1);
    head.client_finalize(4);
    head.notify_finality(4, 1);
    assert!(matches!(head.next_event(&sub).unwrap(), FollowEvent::NewBlock { hash: 4, .. }));
    assert_eq!(head.next_event(&sub).unwrap(), FollowEvent::BestBlockChanged { hash: 4 });
    assert_eq!(head.next_event(&sub).unwrap(), FollowEvent::Finalized {
        finalized_hashes: vec![4],
        pruned_hashes: vec![22, 33]
    });
}

#[test]
fn follow_finalized_before_new_block() {
    // Finality delivered before the matching import notification: the
    // handler synthesizes the announcement; a later import is a no-op.
    let mut head = new_head(100, 32, 16, 5);
    let sub = head.follow(false, 0);
    head.next_event(&sub).unwrap();
    head.client_import(block(1, 100, 1), true);
    head.client_finalize(1);
    head.notify_finality(1, 1);
    assert!(matches!(head.next_event(&sub).unwrap(), FollowEvent::NewBlock { hash: 1, .. }));
    assert_eq!(head.next_event(&sub).unwrap(), FollowEvent::BestBlockChanged { hash: 1 });
    assert_eq!(head.next_event(&sub).unwrap(), FollowEvent::Finalized {
        finalized_hashes: vec![1],
        pruned_hashes: vec![]
    });
    head.notify_import(1, true, 2);
    assert!(head.next_event(&sub).is_none());
    head.client_import(block(2, 1, 2), true);
    head.notify_import(2, true, 2);
    assert!(matches!(head.next_event(&sub).unwrap(), FollowEvent::NewBlock { hash: 2, .. }));
}

#[test]
fn get_header() {
    let mut head = new_head(100, 32, 16, 5);
    let sub = head.follow(false, 0);
    // Unknown subscription ids produce no result.
    assert_eq!(head.header(&"invalid_sub_id".to_owned(), 100).unwrap(), None);
    // An unpinned hash is an invalid block.
    assert!(matches!(head.header(&sub, 77), Err(RpcError::InvalidBlock)));
    let got = head.header(&sub, 100).unwrap().unwrap();
    assert_eq!(got, hex_string(&vec![100u8]));
}

#[test]
fn get_body() {
    let mut head = new_head(100, 32, 16, 5);
    let sub = head.follow(false, 0);
    head.next_event(&sub).unwrap();
    let mut b = block(1, 100, 1);
    b.body = vec![vec![0xaa, 0xbb]];
    head.client_import(b, true);
    head.notify_import(1, true, 0);
    assert!(matches!(
        head.body(&"invalid_sub_id".to_owned(), 1).unwrap(),
        MethodResponse::LimitReached
    ));
    assert!(matches!(head.body(&sub, 77), Err(RpcError::InvalidBlock)));
    let resp = head.body(&sub, 1).unwrap();
    let op = match resp {
        MethodResponse::Started { operation_id, discarded_items } => {
            assert!(discarded_items.is_none());
            operation_id
        }
        other => panic!("expected started response, got {:?}", other),
    };
    assert_eq!(op, "0");
    head.next_event(&sub).unwrap();
    head.next_event(&sub).unwrap();
    assert_eq!(
        head.next_event(&sub).unwrap(),
        FollowEvent::OperationBodyDone {
            operation_id: "0".to_owned(),
            value: vec![hex_string(&vec![0xaa, 0xbb])]
        }
    );
}

#[test]
fn call_runtime() {
    let mut head = new_head(100, 32, 16, 5);
    let sub = head.follow(true, 0);
    head.next_event(&sub).unwrap();
    let mut b = block(1, 100, 1);
    b.runtime_calls = vec![
        chain_head::client::RuntimeCallEntry {
            method: "AccountNonceApi_account_nonce".to_owned(),
            args: vec![0x01],
            result: Ok(vec![0, 0, 0, 0, 0, 0, 0, 0]),
        },
        chain_head::client::RuntimeCallEntry {
            method: "BabeApi_current_epoch".to_owned(),
            args: vec![0x00],
            result: Err("Execution failed: input buffer not drained".to_owned()),
        },
    ];
    head.client_import(b, true);
    head.notify_import(1, true, 0);
    head.next_event(&sub).unwrap();
    head.next_event(&sub).unwrap();
    // Malformed hex arguments are an invalid parameter.
    assert!(matches!(
        head.call(&sub, 1, &"X_m".to_owned(), &"0x0".to_owned()),
        Err(RpcError::InvalidParam)
    ));
    let resp = head
        .call(&sub, 1, &"AccountNonceApi_account_nonce".to_owned(), &"0x01".to_owned())
        .unwrap();
    assert!(matches!(resp, MethodResponse::Started { .. }));
    assert_eq!(
        head.next_event(&sub).unwrap(),
        FollowEvent::OperationCallDone {
            operation_id: "0".to_owned(),
            output: "0x0000000000000000".to_owned()
        }
    );
    let _ = head
        .call(&sub, 1, &"BabeApi_current_epoch".to_owned(), &"0x00".to_owned())
        .unwrap();
    match head.next_event(&sub).unwrap() {
        FollowEvent::OperationError { operation_id, error } => {
            assert_eq!(operation_id, "1");
            assert!(error.contains("Execution failed"));
        }
        other => panic!("expected an operation error, got {:?}", other),
    }
}

#[test]
fn call_runtime_without_flag() {
    let mut head = new_head(100, 32, 16, 5);
    let sub = head.follow(false, 0);
    head.next_event(&sub).unwrap();
    assert!(matches!(
        head.call(&sub, 100, &"AccountNonceApi_account_nonce".to_owned(), &"0x00".to_owned()),
        Err(RpcError::InvalidRuntimeCall)
    ));
}

#[test]
fn follow_with_unpin() {
    let mut head = new_head(100, 2, 16, 5);
    let sub = head.follow(false, 0);
    head.next_event(&sub).unwrap();
    head.client_import(block(1, 100, 1), true);
    head.notify_import(1, true, 0);
    // Unknown subscription ids succeed silently.
    assert!(head.unpin(&"invalid_sub_id".to_owned(), &vec![77]).is_ok());
    // An unpinned hash fails, all or nothing.
    assert!(matches!(head.unpin(&sub, &vec![77]), Err(RpcError::InvalidBlock)));
    assert!(head.unpin(&sub, &vec![100]).is_ok());
    assert_eq!(head.pin_refs(100), 0);
    assert_eq!(head.pin_refs(1), 1);
    // With the slot released the next import fits the budget of two.
    head.client_import(block(2, 1, 2), true);
    head.notify_import(2, true, 1);
    head.next_event(&sub).unwrap();
    head.next_event(&sub).unwrap();
    assert!(matches!(head.next_event(&sub).unwrap(), FollowEvent::NewBlock { hash: 2, .. }));
}

#[test]
fn follow_with_multiple_unpin_hashes() {
    let mut head = new_head(100, 32, 16, 5);
    let sub = head.follow(false, 0);
    for (h, p, n) in [(1u64, 100u64, 1u64), (2, 1, 2), (3, 2, 3)] {
        head.client_import(block(h, p, n), true);
        head.notify_import(h, true, 0);
    }
    assert!(head.unpin(&"invalid_sub_id".to_owned(), &vec![77]).is_ok());
    assert!(matches!(head.unpin(&sub, &vec![77]), Err(RpcError::InvalidBlock)));
    assert!(head.unpin(&sub, &vec![1]).is_ok());
    // One hash already released fails the whole batch.
    assert!(matches!(head.unpin(&sub, &vec![1, 2, 3]), Err(RpcError::InvalidBlock)));
    assert!(head.unpin(&sub, &vec![2, 3]).is_ok());
    assert!(matches!(head.unpin(&sub, &vec![2]), Err(RpcError::InvalidBlock)));
    assert!(matches!(head.unpin(&sub, &vec![3]), Err(RpcError::InvalidBlock)));
}

#[test]
fn ensure_operation_limits_works() {
    let mut head = new_head(100, 32, 1, 5);
    let sub = head.follow(true, 0);
    head.next_event(&sub).unwrap();
    let queries = vec![
        DecodedQuery { key: b":m".to_vec(), query_type: StorageQueryType::DescendantsHashes },
        DecodedQuery { key: b":m".to_vec(), query_type: StorageQueryType::DescendantsHashes },
        DecodedQuery { key: b":m".to_vec(), query_type: StorageQueryType::DescendantsValues },
        DecodedQuery { key: b":m".to_vec(), query_type: StorageQueryType::DescendantsValues },
    ];
    let resp = head.storage(&sub, 100, queries, None).unwrap();
    match resp {
        MethodResponse::Started { operation_id, discarded_items } => {
            assert_eq!(discarded_items, Some(3));
            let done = head.next_event(&sub).unwrap();
            assert_eq!(done, FollowEvent::OperationStorageDone { operation_id });
        }
        other => panic!("expected started response, got {:?}", other),
    }
    // The operation finished at once, so the capacity is free again.
    let resp = head.storage(
        &sub,
        100,
        vec![DecodedQuery { key: b":m".to_vec(), query_type: StorageQueryType::Value }],
        None,
    );
    assert!(matches!(resp, Ok(MethodResponse::Started { .. })));
}

#[test]
fn stop_storage_operation() {
    let mut head = new_head(100, 32, 16, 1);
    let sub = head.follow(true, 0);
    head.next_event(&sub).unwrap();
    let mut b = block(1, 100, 1);
    b.storage = vec![(b":m".to_vec(), b"a".to_vec()), (b":mo".to_vec(), b"ab".to_vec())];
    head.client_import(b, true);
    head.notify_import(1, true, 0);
    head.next_event(&sub).unwrap();
    head.next_event(&sub).unwrap();
    // Unknown ids are silent no-ops.
    head.stop_operation(&"invalid_sub_id".to_owned(), &"0".to_owned());
    head.stop_operation(&sub, &"77".to_owned());
    let resp = head
        .storage(
            &sub,
            1,
            vec![DecodedQuery { key: b":m".to_vec(), query_type: StorageQueryType::DescendantsValues }],
            None,
        )
        .unwrap();
    let op = match resp {
        MethodResponse::Started { operation_id, .. } => operation_id,
        other => panic!("expected started response, got {:?}", other),
    };
    assert!(matches!(
        head.next_event(&sub).unwrap(),
        FollowEvent::OperationStorageItems { .. }
    ));
    assert!(matches!(
        head.next_event(&sub).unwrap(),
        FollowEvent::OperationWaitingForContinue { .. }
    ));
    head.stop_operation(&sub, &op);
    assert!(head.next_event(&sub).is_none());
}

#[test]
fn check_continue_operation_via_table() {
    let mut head = new_head(100, 32, 16, 1);
    let sub = head.follow(true, 0);
    head.next_event(&sub).unwrap();
    let mut b = block(1, 100, 1);
    b.storage = vec![(b":m".to_vec(), b"a".to_vec()), (b":mo".to_vec(), b"ab".to_vec())];
    head.client_import(b, true);
    head.notify_import(1, true, 0);
    head.next_event(&sub).unwrap();
    head.next_event(&sub).unwrap();
    // Unknown ids are silent no-ops.
    head.continue_op(&"invalid_sub_id".to_owned(), &"0".to_owned());
    head.continue_op(&sub, &"77".to_owned());
    let resp = head
        .storage(
            &sub,
            1,
            vec![DecodedQuery { key: b":m".to_vec(), query_type: StorageQueryType::DescendantsValues }],
            None,
        )
        .unwrap();
    let op = match resp {
        MethodResponse::Started { operation_id, .. } => operation_id,
        other => panic!("expected started response, got {:?}", other),
    };
    for expected in [b":m".to_vec(), b":mo".to_vec()] {
        match head.next_event(&sub).unwrap() {
            FollowEvent::OperationStorageItems { items, .. } => {
                assert_eq!(items[0].key, hex_string(&expected));
            }
            other => panic!("expected storage items, got {:?}", other),
        }
        match head.next_event(&sub).unwrap() {
            FollowEvent::OperationWaitingForContinue { .. } => {
                head.continue_op(&sub, &op);
            }
            FollowEvent::OperationStorageDone { .. } => {}
            other => panic!("unexpected event {:?}", other),
        }
    }
}

#[test]
fn separate_operation_ids_for_subscriptions() {
    let mut head = new_head(100, 32, 16, 5);
    let sub1 = head.follow(true, 0);
    let sub2 = head.follow(true, 0);
    assert_ne!(sub1, sub2);
    let r1 = head.body(&sub1, 100).unwrap();
    let r2 = head.body(&sub2, 100).unwrap();
    for r in [r1, r2] {
        match r {
            MethodResponse::Started { operation_id, .. } => assert_eq!(operation_id, "0"),
            other => panic!("expected started response, got {:?}", other),
        }
    }
}

#[test]
fn unique_operation_ids() {
    let mut head = new_head(100, 32, 16, 5);
    let sub = head.follow(true, 0);
    let mut seen: Vec<String> = Vec::new();
    for _ in 0..5 {
        let r = head.body(&sub, 100).unwrap();
        match r {
            MethodResponse::Started { operation_id, .. } => {
                assert!(!seen.contains(&operation_id));
                seen.push(operation_id);
            }
            other => panic!("expected started response, got {:?}", other),
        }
    }
}

#[test]
fn sweep_stops_overdue_subscription() {
    let mut head = new_head(100, 32, 16, 5);
    let sub = head.follow(false, 0);
    head.next_event(&sub).unwrap();
    // Well within the allowance nothing happens; past it the
    // subscription stops and releases its pins.
    head.sweep(30);
    assert_eq!(head.pin_refs(100), 1);
    head.sweep(61);
    assert_eq!(head.pin_refs(100), 0);
    assert_eq!(head.next_event(&sub).unwrap(), FollowEvent::Stop);
}
