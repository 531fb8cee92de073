use agglayer_storage::smt::{hash_node, read_smt, write_smt};
use agglayer_storage::{
    Digest, Error, ExitTreeKey, LocalExitTree, LocalNetworkStateData, Node, Smt, SmtKey,
    SmtKeyType, SmtValue, StateStore, Table, EXIT_TREE_DEPTH, LOCAL_BALANCE_TREE_DEPTH,
};

fn d(b: u8) -> Digest {
    Digest([b; 32])
}

fn frontier(b: u8) -> Vec<Digest> {
    (0..EXIT_TREE_DEPTH).map(|i| Digest([b.wrapping_add(i as u8); 32])).collect()
}

/// A tree whose root has children `inner` and leaf `seed + 1`; `inner` has
/// leaves `seed + 2` and `seed + 3`. Returns the tree and `inner`'s hash.
fn small_smt_with_inner(seed: u8) -> (Smt, Digest) {
    let inner = Node { left: d(seed + 2), right: d(seed + 3) };
    let inner_hash = hash_node(&inner);
    let top = Node { left: inner_hash, right: d(seed + 1) };
    let root = hash_node(&top);
    let mut tree = Table::new();
    tree.put(root, top);
    tree.put(inner_hash, inner);
    (Smt { root, tree }, inner_hash)
}

fn small_smt(seed: u8) -> Smt {
    small_smt_with_inner(seed).0
}

fn state(leaf_count: u32, f: u8, seed: u8) -> LocalNetworkStateData {
    LocalNetworkStateData {
        exit_tree: LocalExitTree { leaf_count, frontier: frontier(f) },
        balance_tree: small_smt(seed),
        nullifier_tree: small_smt(seed + 100),
    }
}

#[test]
fn exit_tree_appends_contiguously() {
    let mut store = StateStore::new();
    let l0 = vec![d(1), d(2), d(3)];
    let l1 = vec![d(4), d(5)];
    assert_eq!(store.write_leaves(0, 0, &l0, &frontier(20)), Ok(()));
    assert_eq!(store.stored_leaf_count(0), 3);
    assert_eq!(store.write_leaves(0, 3, &l1, &frontier(40)), Ok(()));
    let tree = store.read_local_exit_tree(0).unwrap().unwrap();
    assert_eq!(tree.leaf_count, 5);
    assert_eq!(tree.frontier, frontier(40));
    assert_eq!(store.exit_tree.get(&ExitTreeKey { network_id: 0, layer: 0, index: 4 }), Some(d(5)));
}

#[test]
fn exit_tree_rejects_wrong_start() {
    let mut store = StateStore::new();
    assert_eq!(store.write_leaves(3, 0, &[d(1), d(2)], &frontier(20)), Ok(()));
    let before = store.exit_tree.log_len();
    assert_eq!(
        store.write_leaves(3, 1, &[d(9)], &frontier(60)),
        Err(Error::InconsistentState { network_id: 3 })
    );
    assert_eq!(
        store.write_leaves(3, 3, &[d(9)], &frontier(60)),
        Err(Error::InconsistentState { network_id: 3 })
    );
    assert_eq!(store.exit_tree.log_len(), before);
    let tree = store.read_local_exit_tree(3).unwrap().unwrap();
    assert_eq!(tree.leaf_count, 2);
    assert_eq!(tree.frontier, frontier(20));
}

#[test]
fn exit_tree_of_other_network_is_untouched() {
    let mut store = StateStore::new();
    store.write_leaves(1, 0, &[d(1)], &frontier(20)).unwrap();
    assert!(store.read_local_exit_tree(2).unwrap().is_none());
    assert_eq!(store.stored_leaf_count(2), 0);
}

#[test]
fn missing_frontier_is_reported() {
    let mut store = StateStore::new();
    store.exit_tree.put(ExitTreeKey { network_id: 4, layer: 0, index: 0 }, d(1));
    assert_eq!(store.read_local_exit_tree(4).err(), Some(Error::InconsistentFrontier));
}

#[test]
fn node_hash_is_keccak_of_both_children() {
    let h = hash_node(&Node { left: d(0), right: d(0) });
    assert_eq!(
        h.0,
        [
            0xad, 0x32, 0x28, 0xb6, 0x76, 0xf7, 0xd3, 0xcd, 0x42, 0x84, 0xa5, 0x44, 0x3f, 0x17,
            0xf1, 0x96, 0x2b, 0x36, 0xe4, 0x91, 0xb3, 0x0a, 0x40, 0xb2, 0x40, 0x58, 0x49, 0xe5,
            0x97, 0xba, 0x5f, 0xb5
        ]
    );
    assert_ne!(hash_node(&Node { left: d(1), right: d(2) }), hash_node(&Node { left: d(2), right: d(1) }));
}

#[test]
fn smt_round_trips() {
    let mut table = Table::new();
    let (smt, inner) = small_smt_with_inner(0);
    write_smt(&mut table, 7, &smt);
    assert_eq!(
        table.get(&SmtKey { network_id: 7, key_type: SmtKeyType::Root }),
        Some(SmtValue::Node(inner, d(1)))
    );
    assert_eq!(
        table.get(&SmtKey { network_id: 7, key_type: SmtKeyType::Node(smt.root) }),
        Some(SmtValue::Node(inner, d(1)))
    );
    assert_eq!(table.get(&SmtKey { network_id: 7, key_type: SmtKeyType::Node(d(3)) }), Some(SmtValue::Leaf(d(3))));
    assert_eq!(
        table.get(&SmtKey { network_id: 7, key_type: SmtKeyType::Node(inner) }),
        Some(SmtValue::Node(d(2), d(3)))
    );
    let read = read_smt(&table, 7, LOCAL_BALANCE_TREE_DEPTH).unwrap().unwrap();
    assert_eq!(read.root, smt.root);
    assert_eq!(read.tree.log_len(), 2);
    assert_eq!(read.tree.get(&smt.root), Some(Node { left: inner, right: d(1) }));
    assert_eq!(read.tree.get(&inner), Some(Node { left: d(2), right: d(3) }));
    assert!(read_smt(&table, 8, LOCAL_BALANCE_TREE_DEPTH).unwrap().is_none());
}

#[test]
fn smt_shared_subtrees_are_read_once() {
    let below = Node { left: d(1), right: d(1) };
    let below_hash = hash_node(&below);
    let top = Node { left: below_hash, right: below_hash };
    let root = hash_node(&top);
    let mut tree = Table::new();
    tree.put(root, top);
    tree.put(below_hash, below);
    let smt = Smt { root, tree };
    let mut table = Table::new();
    write_smt(&mut table, 0, &smt);
    let read = read_smt(&table, 0, 4).unwrap().unwrap();
    assert_eq!(read.root, root);
    assert_eq!(read.tree.log_len(), 2);
}

#[test]
fn smt_dangling_reference_is_reported() {
    let top = Node { left: d(1), right: d(2) };
    let root = hash_node(&top);
    let mut table = Table::new();
    table.put(SmtKey { network_id: 0, key_type: SmtKeyType::Root }, SmtValue::Node(d(1), d(2)));
    table.put(SmtKey { network_id: 0, key_type: SmtKeyType::Node(root) }, SmtValue::Node(d(1), d(2)));
    table.put(SmtKey { network_id: 0, key_type: SmtKeyType::Node(d(1)) }, SmtValue::Leaf(d(1)));
    assert_eq!(read_smt(&table, 0, 4).err(), Some(Error::SmtNodeNotFound));
}

#[test]
fn smt_root_holding_a_leaf_is_reported() {
    let mut table = Table::new();
    table.put(SmtKey { network_id: 0, key_type: SmtKeyType::Root }, SmtValue::Leaf(d(1)));
    assert_eq!(read_smt(&table, 0, 4).err(), Some(Error::WrongValueType));
}

#[test]
fn smt_deeper_than_its_depth_is_reported() {
    let mut table = Table::new();
    write_smt(&mut table, 0, &small_smt(0));
    assert_eq!(read_smt(&table, 0, 1).err(), Some(Error::SmtDepthExceeded));
    assert!(read_smt(&table, 0, 2).unwrap().is_some());
}

#[test]
fn untouched_network_reads_as_absent() {
    let store = StateStore::new();
    assert!(matches!(store.read_local_network_state(0), Ok(None)));
}

#[test]
fn can_retrieve_state() {
    let mut store = StateStore::new();
    let leaves: Vec<Digest> = (0..10).map(|_| d(5)).collect();
    let lns = state(10, 30, 0);
    assert_eq!(store.write_local_network_state(&0, &lns, &leaves), Ok(()));
    let read = store.read_local_network_state(0).unwrap().unwrap();
    assert_eq!(read.exit_tree.leaf_count, 10);
    assert_eq!(read.exit_tree.frontier, lns.exit_tree.frontier);
    assert_eq!(read.balance_tree.root, lns.balance_tree.root);
    assert_eq!(read.nullifier_tree.root, lns.nullifier_tree.root);
    let (_, inner) = small_smt_with_inner(100);
    assert_eq!(read.nullifier_tree.tree.get(&inner), Some(Node { left: d(102), right: d(103) }));
}

#[test]
fn can_update_existing_state() {
    let mut store = StateStore::new();
    assert_eq!(store.write_local_network_state(&0, &state(0, 30, 0), &[]), Ok(()));
    assert_eq!(store.write_local_network_state(&0, &state(1, 50, 20), &[d(5)]), Ok(()));
    let read = store.read_local_network_state(0).unwrap().unwrap();
    assert_eq!(read.exit_tree.leaf_count, 1);
    assert_eq!(read.exit_tree.frontier, frontier(50));
    assert_eq!(read.balance_tree.root, small_smt(20).root);
    assert_eq!(read.balance_tree.tree.log_len(), 2);
    assert_eq!(store.write_local_network_state(&0, &state(2, 60, 40), &[d(6)]), Ok(()));
    assert_eq!(store.read_local_network_state(0).unwrap().unwrap().exit_tree.leaf_count, 2);
}

#[test]
fn can_detect_inconsistent_state() {
    let mut store = StateStore::new();
    assert_eq!(store.write_local_network_state(&0, &state(0, 30, 0), &[]), Ok(()));
    assert_eq!(
        store.write_local_network_state(&0, &state(1, 30, 0), &[]),
        Err(Error::InconsistentState { network_id: 0 })
    );
    assert_eq!(
        store.write_local_network_state(&0, &state(1, 30, 0), &[d(1), d(2)]),
        Err(Error::InconsistentState { network_id: 0 })
    );
}

#[test]
fn missing_nullifier_tree_is_inconsistent() {
    let mut store = StateStore::new();
    store.write_leaves(6, 0, &[d(1)], &frontier(20)).unwrap();
    write_smt(&mut store.balance_tree, 6, &small_smt(0));
    assert_eq!(
        store.read_local_network_state(6).err(),
        Some(Error::InconsistentState { network_id: 6 })
    );
}

#[test]
fn trees_without_leaves_are_inconsistent() {
    let mut store = StateStore::new();
    assert_eq!(store.write_local_network_state(&0, &state(0, 30, 0), &[]), Ok(()));
    assert_eq!(
        store.read_local_network_state(0).err(),
        Some(Error::InconsistentState { network_id: 0 })
    );
}
