use hyperscale::hash::Hash32;
use hyperscale::node::observer::BridgeRoutingObserver;
use hyperscale::node::proposal::{
    engagement_held, gather_proposal_inputs, ready_request, QueuedBundle, ReadyTx,
};
use hyperscale::node::provisions::{
    build_provisions, seal_provisions, CellRead, ProvisionsRequest,
};
use hyperscale::node::serve::{requests_for, serve_provision_request, BlockTx};
use hyperscale::shard::{ShardId, ShardTrie};
use hyperscale::sorted::SortedSet;
use hyperscale::storage::state_key::vm_flat_key;
use hyperscale::time::WeightedTimestamp;
use hyperscale::types::{DeclaredKey, SubstateKey, TxHash};

const NEAR: [u8; 16] = [0x11; 16];
const FAR: [u8; 16] = [0x88; 16];

fn cell(owner: [u8; 16], local: u8) -> SubstateKey {
    SubstateKey { owner, local: [local; 16] }
}

fn tx(n: u8) -> TxHash {
    TxHash([n; 32])
}

fn read(key: SubstateKey) -> CellRead {
    match key.local[0] {
        1 => CellRead::Present(vec![1]),
        2 => CellRead::Absent,
        _ => CellRead::Unavailable,
    }
}

#[test]
fn provisions_carry_what_each_cell_holds() {
    let left = ShardId::leaf(1, 0);
    let right = ShardId::leaf(1, 1);
    let requests = vec![
        ProvisionsRequest {
            tx_hash: tx(1),
            targets: vec![right],
            local_keys: vec![cell(NEAR, 1), cell(NEAR, 2)],
        },
        ProvisionsRequest { tx_hash: tx(2), targets: vec![left], local_keys: vec![cell(NEAR, 1)] },
        ProvisionsRequest { tx_hash: tx(3), targets: vec![right], local_keys: vec![] },
    ];
    let staged = build_provisions(right, &requests, &read).unwrap();
    assert_eq!(staged.transactions.len(), 2);
    assert_eq!(staged.transactions[0].0, tx(1));
    // A cell that holds nothing is left out.
    assert_eq!(staged.transactions[0].1.len(), 1);
    assert_eq!(staged.transactions[0].1[0].value, Some(vec![1]));
    // A bundle without entries is evidence all the same.
    assert_eq!(staged.transactions[1].0, tx(3));
    assert!(staged.transactions[1].1.is_empty());
    assert_eq!(staged.storage_keys, vec![vm_flat_key(&cell(NEAR, 1))]);
    let unavailable = vec![ProvisionsRequest {
        tx_hash: tx(1),
        targets: vec![right],
        local_keys: vec![cell(NEAR, 3)],
    }];
    assert_eq!(build_provisions(right, &unavailable, &read), None);
}

#[test]
fn a_bundle_without_keys_needs_no_proof() {
    let left = ShardId::leaf(1, 0);
    let right = ShardId::leaf(1, 1);
    let stage = |keys: Vec<SubstateKey>| {
        build_provisions(
            right,
            &vec![ProvisionsRequest { tx_hash: tx(1), targets: vec![right], local_keys: keys }],
            &read,
        )
        .unwrap()
    };
    let seal = |keys: Vec<SubstateKey>, proof: Option<&'static str>| {
        seal_provisions(
            left,
            right,
            5,
            WeightedTimestamp::from_millis(9),
            Hash32([4; 32]),
            stage(keys),
            "empty",
            proof,
        )
    };
    assert_eq!(seal(vec![], None).unwrap().proof, "empty");
    assert_eq!(seal(vec![cell(NEAR, 1)], Some("proof")).unwrap().proof, "proof");
    assert!(seal(vec![cell(NEAR, 1)], None).is_none());
    let bundle = seal(vec![], None).unwrap();
    assert_eq!((bundle.source_shard, bundle.target_shard), (left, right));
    assert_eq!(bundle.source_block_height, 5);
}

fn block_tx(n: u8, payer: [u8; 16], prefixes: Vec<[u8; 16]>) -> BlockTx {
    BlockTx {
        tx_hash: tx(n),
        provision_keys: vec![
            DeclaredKey::substate(NEAR, [1; 16]),
            DeclaredKey::substate(FAR, [1; 16]),
        ],
        prefixes,
        fee_payer: payer,
    }
}

#[test]
fn a_request_is_served_from_what_the_shard_owns() {
    let trie = ShardTrie::uniform(1);
    let (near, far) = (trie.shard_for_prefix(&NEAR), trie.shard_for_prefix(&FAR));
    let txs = vec![block_tx(1, NEAR, vec![NEAR, FAR])];
    let requests = requests_for(&txs, near, far, &trie);
    assert_eq!(requests.len(), 1);
    assert_eq!(requests[0].targets, vec![far]);
    assert_eq!(requests[0].local_keys, vec![cell(NEAR, 1)]);

    let staged = serve_provision_request(&Some(txs), near, &trie, far, &read).unwrap();
    assert_eq!(staged.transactions[0].0, tx(1));
    assert_eq!(serve_provision_request(&None, near, &trie, far, &read), None);
}

#[test]
fn a_transaction_that_touches_only_this_shard_is_not_served() {
    let trie = ShardTrie::uniform(1);
    let (near, far) = (trie.shard_for_prefix(&NEAR), trie.shard_for_prefix(&FAR));
    let txs = vec![block_tx(1, NEAR, vec![NEAR])];
    assert!(requests_for(&txs, near, far, &trie).is_empty());
}

fn ready(n: u8, payer: [u8; 16], single: bool, keys: Vec<DeclaredKey>) -> ReadyTx {
    ReadyTx {
        tx_hash: tx(n),
        admission_keys: keys,
        single_shard: single,
        fee_payer: payer,
        absorbed: false,
    }
}

#[test]
fn a_leg_engages_once_its_payers_bundle_is_held() {
    let trie = ShardTrie::uniform(1);
    let (near, far) = (trie.shard_for_prefix(&NEAR), trie.shard_for_prefix(&FAR));
    let leg = ready(1, FAR, false, vec![]);
    assert!(!engagement_held(&leg, &vec![], near, &trie));
    let bundle = |source: ShardId, n: u8| QueuedBundle { source_shard: source, transactions: vec![tx(n)] };
    assert!(engagement_held(&leg, &vec![bundle(far, 1)], near, &trie));
    assert!(!engagement_held(&leg, &vec![bundle(far, 2)], near, &trie));
    assert!(!engagement_held(&leg, &vec![bundle(near, 1)], near, &trie));
    assert!(engagement_held(&ready(1, NEAR, false, vec![]), &vec![], near, &trie));
    assert!(engagement_held(&ready(1, FAR, true, vec![]), &vec![], near, &trie));
}

#[test]
fn a_proposal_leaves_out_what_is_in_flight() {
    let trie = ShardTrie::uniform(1);
    let near = trie.shard_for_prefix(&NEAR);
    let key = |n: u8| DeclaredKey::substate(NEAR, [n; 16]);
    let mut in_flight = SortedSet::new();
    in_flight.insert(key(1));
    let kept = gather_proposal_inputs(
        vec![
            ready(1, NEAR, true, vec![key(1)]),
            ready(2, NEAR, true, vec![key(2)]),
            ready(3, FAR, false, vec![key(3)]),
        ],
        &vec![],
        &in_flight,
        near,
        &trie,
    );
    let hashes: Vec<TxHash> = kept.iter().map(|t| t.tx_hash).collect();
    assert_eq!(hashes, vec![tx(2)]);
    assert_eq!(ready_request(100, 7), 107);
}

#[test]
fn an_admission_is_recorded_under_its_digest() {
    let record = BridgeRoutingObserver.on_admitted(tx(4), Hash32([9; 32]));
    assert_eq!(record.tx_hash, tx(4));
    assert_eq!(record.digest, Hash32([9; 32]));
}
