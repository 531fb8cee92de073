use crate::error::Error;
use crate::table::{lemma_log_map_dom, Table};
use crate::codec::put_digest;
use crate::types::{lemma_digest_eq, Digest, Node, Smt, SmtKey, SmtKeyType, SmtValue};
use vstd::prelude::*;

verus! {

/// The Keccak-256 digest of `data`.
pub uninterp spec fn keccak_of(data: Seq<u8>) -> Seq<u8>;

/// Relies on tiny_keccak::keccak256: the Keccak-256 digest of `data`, which
/// depends on the bytes alone.
#[verifier::external_body]
fn keccak256(data: &[u8]) -> (r: Digest)
    ensures
        r.0@ == keccak_of(data@),
{
    Digest(tiny_keccak::keccak256(data))
}

/// The hash of an internal node: Keccak-256 of its left then right child's hash.
pub open spec fn node_hash(node: Node) -> Seq<u8> {
    keccak_of(node.left.0@ + node.right.0@)
}

pub fn hash_node(node: &Node) -> (r: Digest)
    ensures
        r.0@ == node_hash(*node),
{
    let mut data: Vec<u8> = Vec::new();
    put_digest(&mut data, &node.left);
    put_digest(&mut data, &node.right);
    proof {
        assert(data@ =~= node.left.0@ + node.right.0@);
    }
    keccak256(data.as_slice())
}

/// Network `n`'s root sentinel holds an internal node whose hash is `root`.
pub open spec fn root_holds(m: Map<SmtKey, SmtValue>, n: u32, root: Digest) -> bool {
    &&& m.contains_key(root_key(n))
    &&& m[root_key(n)] is Node
    &&& root.0@ == node_hash(Node { left: m[root_key(n)]->Node_0, right: m[root_key(n)]->Node_1 })
}

pub open spec fn node_key(n: u32, h: Digest) -> SmtKey {
    SmtKey { network_id: n, key_type: SmtKeyType::Node(h) }
}

pub open spec fn root_key(n: u32) -> SmtKey {
    SmtKey { network_id: n, key_type: SmtKeyType::Root }
}

pub open spec fn child_of(node: Node, h: Digest) -> bool {
    node.left == h || node.right == h
}

pub open spec fn internal_value(node: Node) -> SmtValue {
    SmtValue::Node(node.left, node.right)
}

/// Network `n` stores `h` as a leaf.
pub open spec fn leaf_entry(m: Map<SmtKey, SmtValue>, n: u32, h: Digest) -> bool {
    m.contains_key(node_key(n, h)) && m[node_key(n, h)] is Leaf
}

/// `k` is the entry of a node of `t` whose hash is in `done`.
pub open spec fn node_slot(k: SmtKey, n: u32, t: Map<Digest, Node>, done: Set<Digest>) -> bool {
    k.network_id == n && k.key_type is Node && done.contains(k.key_type->Node_0)
        && t.contains_key(k.key_type->Node_0)
}

/// `k` is the entry of a child, outside `t`, of a node of `t` whose hash is in `done`.
pub open spec fn leaf_slot(k: SmtKey, n: u32, t: Map<Digest, Node>, done: Set<Digest>) -> bool {
    k.network_id == n && k.key_type is Node && !t.contains_key(k.key_type->Node_0)
        && exists|p: Digest| done.contains(p) && t.contains_key(p) && #[trigger] child_of(t[p], k.key_type->Node_0)
}

/// `m` with the nodes of `t` whose hash is in `done`, and their children outside `t`, written.
pub open spec fn smt_nodes_written(m: Map<SmtKey, SmtValue>, n: u32, t: Map<Digest, Node>, done: Set<Digest>) -> Map<SmtKey, SmtValue> {
    Map::new(
        |k: SmtKey| m.contains_key(k) || node_slot(k, n, t, done) || leaf_slot(k, n, t, done),
        |k: SmtKey|
            if node_slot(k, n, t, done) {
                internal_value(t[k.key_type->Node_0])
            } else if leaf_slot(k, n, t, done) {
                SmtValue::Leaf(k.key_type->Node_0)
            } else {
                m[k]
            },
    )
}

/// A column after writing the tree `t` with root `root` for network `n`: every
/// node under its hash, every child outside `t` as a leaf, and the root node,
/// when it is one of `t`, under the root sentinel too.
pub open spec fn smt_after_write(m: Map<SmtKey, SmtValue>, n: u32, root: Digest, t: Map<Digest, Node>) -> Map<SmtKey, SmtValue> {
    if t.contains_key(root) {
        smt_nodes_written(m, n, t, t.dom()).insert(root_key(n), internal_value(t[root]))
    } else {
        smt_nodes_written(m, n, t, t.dom())
    }
}

/// `s`, in the order read, is a tree that network `n`'s entries of `m` hold
/// from `root`: each node is stored under its hash, is the root or a child of
/// a node read before it, and each child of a node read is read or a leaf.
pub open spec fn smt_read_ok(m: Map<SmtKey, SmtValue>, n: u32, root: Digest, s: Seq<(Digest, Node)>) -> bool {
    &&& root_holds(m, n, root)
    &&& forall|j: int| 0 <= j < s.len() ==> m.contains_key(node_key(n, #[trigger] s[j].0))
        && m[node_key(n, s[j].0)] == internal_value(s[j].1)
    &&& forall|i: int, j: int| 0 <= i < j < s.len() ==> s[i].0 != s[j].0
    &&& forall|j: int| 0 <= j < s.len() ==> (#[trigger] s[j]).0 == root
        || exists|i: int| 0 <= i < j && child_of(s[i].1, s[j].0)
    &&& forall|j: int, c: Digest| 0 <= j < s.len() && #[trigger] child_of(s[j].1, c)
        ==> leaf_entry(m, n, c) || exists|i: int| 0 <= i < s.len() && s[i].0 == c
    &&& leaf_entry(m, n, root) || exists|i: int| 0 <= i < s.len() && s[i].0 == root
}

/// Writes every node of `smt` under its hash, every child that is not a node
/// as a leaf, and the root node under the root sentinel.
pub fn write_smt(table: &mut Table<SmtKey, SmtValue>, network_id: u32, smt: &Smt)
    ensures
        final(table)@ == smt_after_write(old(table)@, network_id, smt.root, smt.tree@),
{
    let ghost m0 = table@;
    let ghost t = smt.tree@;
    let ghost log = smt.tree.log();
    let len = smt.tree.log_len();
    let mut j: usize = 0;
    while j < len
        invariant
            len == log.len(),
            log == smt.tree.log(),
            t == smt.tree@,
            0 <= j <= len,
            table@ == smt_nodes_written(m0, network_id, t, Set::new(|h: Digest| exists|i: int| 0 <= i < j && #[trigger] log[i].0 == h)),
        decreases len - j,
    {
        let ghost done = Set::new(|h: Digest| exists|i: int| 0 <= i < j && #[trigger] log[i].0 == h);
        let ghost done2 = Set::new(|h: Digest| exists|i: int| 0 <= i < j + 1 && #[trigger] log[i].0 == h);
        let (h, _) = smt.tree.entry_at(j);
        proof {
            lemma_log_map_dom(log, h);
            assert(done2 =~= done.insert(h));
        }
        let node = smt.tree.get(&h).unwrap();
        table.put(SmtKey { network_id, key_type: SmtKeyType::Node(h) }, SmtValue::Node(node.left, node.right));
        let ghost mid = table@;
        if smt.tree.get(&node.left).is_none() {
            table.put(SmtKey { network_id, key_type: SmtKeyType::Node(node.left) }, SmtValue::Leaf(node.left));
        }
        let ghost mid2 = table@;
        if smt.tree.get(&node.right).is_none() {
            table.put(SmtKey { network_id, key_type: SmtKeyType::Node(node.right) }, SmtValue::Leaf(node.right));
        }
        proof {
            let target = smt_nodes_written(m0, network_id, t, done2);
            assert forall|k: SmtKey| #[trigger] table@.contains_key(k) == target.contains_key(k)
                && (table@.contains_key(k) ==> table@[k] == target[k]) by {
                if k.network_id == network_id && k.key_type is Node {
                    let x = k.key_type->Node_0;
                    if !t.contains_key(x) && child_of(t[h], x) {
                        assert(leaf_slot(k, network_id, t, done2));
                    }
                    if leaf_slot(k, network_id, t, done2) && !leaf_slot(k, network_id, t, done) {
                        let p = choose|p: Digest| done2.contains(p) && t.contains_key(p) && #[trigger] child_of(t[p], x);
                        assert(p == h);
                    }
                }
            }
            assert(table@ =~= target);
        }
        j = j + 1;
    }
    proof {
        let done = Set::new(|h: Digest| exists|i: int| 0 <= i < len && #[trigger] log[i].0 == h);
        assert forall|h: Digest| done.contains(h) == t.contains_key(h) by {
            lemma_log_map_dom(log, h);
        }
        assert(done =~= t.dom());
    }
    if let Some(node) = smt.tree.get(&smt.root) {
        table.put(SmtKey { network_id, key_type: SmtKeyType::Root }, SmtValue::Node(node.left, node.right));
    }
}

/// Items of `s` from `pos` on include `h`.
pub open spec fn waiting(s: Seq<Digest>, pos: int, h: Digest) -> bool {
    exists|x: int| pos <= x < s.len() && s[x] == h
}

pub open spec fn listed(lg: Seq<(Digest, Node)>, h: Digest) -> bool {
    exists|i: int| 0 <= i < lg.len() && lg[i].0 == h
}

/// `h` is the root or a child of a node of `lg`.
pub open spec fn reached(lg: Seq<(Digest, Node)>, root: Digest, h: Digest) -> bool {
    h == root || exists|i: int| 0 <= i < lg.len() && child_of(lg[i].1, h)
}

/// The nodes resolved so far are stored, distinct, and each the root or a
/// child of one resolved before it.
#[verifier::opaque]
pub open spec fn log_ok(m: Map<SmtKey, SmtValue>, n: u32, root: Digest, lg: Seq<(Digest, Node)>) -> bool {
    &&& forall|j: int| 0 <= j < lg.len() ==> m.contains_key(node_key(n, #[trigger] lg[j].0))
        && m[node_key(n, lg[j].0)] == internal_value(lg[j].1)
    &&& forall|i: int, j: int| 0 <= i < j < lg.len() ==> lg[i].0 != lg[j].0
    &&& forall|j: int| 0 <= j < lg.len() ==> (#[trigger] lg[j]).0 == root
        || exists|i: int| 0 <= i < j && child_of(lg[i].1, lg[j].0)
}

/// Every hash waiting to be resolved is the root or a child of a resolved node.
#[verifier::opaque]
pub open spec fn pending_ok(root: Digest, lg: Seq<(Digest, Node)>, cur: Seq<Digest>, next: Seq<Digest>) -> bool {
    &&& forall|y: int| 0 <= y < cur.len() ==> reached(lg, root, #[trigger] cur[y])
    &&& forall|y: int| 0 <= y < next.len() ==> reached(lg, root, #[trigger] next[y])
}

/// Every child of a resolved node, and the root, is resolved, a stored leaf, or waiting.
#[verifier::opaque]
pub open spec fn covered(m: Map<SmtKey, SmtValue>, n: u32, root: Digest, lg: Seq<(Digest, Node)>, cur: Seq<Digest>, pos: int, next: Seq<Digest>) -> bool {
    &&& forall|j: int, c: Digest| 0 <= j < lg.len() && #[trigger] child_of(lg[j].1, c)
        ==> leaf_entry(m, n, c) || listed(lg, c) || waiting(cur, pos, c) || waiting(next, 0, c)
    &&& leaf_entry(m, n, root) || listed(lg, root) || waiting(cur, pos, root) || waiting(next, 0, root)
}

/// State of the breadth-first read: nodes `lg` resolved so far, the level
/// `cur` resolved up to `pos`, and the next level `next` gathered so far.
pub open spec fn bfs_inv(
    m: Map<SmtKey, SmtValue>,
    n: u32,
    root: Digest,
    lg: Seq<(Digest, Node)>,
    cur: Seq<Digest>,
    pos: int,
    next: Seq<Digest>,
) -> bool {
    &&& 0 <= pos <= cur.len()
    &&& log_ok(m, n, root, lg)
    &&& pending_ok(root, lg, cur, next)
    &&& covered(m, n, root, lg, cur, pos, next)
}

proof fn lemma_bfs_skip(m: Map<SmtKey, SmtValue>, n: u32, root: Digest, lg: Seq<(Digest, Node)>, cur: Seq<Digest>, pos: int, next: Seq<Digest>)
    requires
        bfs_inv(m, n, root, lg, cur, pos, next),
        pos < cur.len(),
        leaf_entry(m, n, cur[pos]) || listed(lg, cur[pos]),
    ensures
        bfs_inv(m, n, root, lg, cur, pos + 1, next),
{
    reveal(covered);
    assert forall|c: Digest| waiting(cur, pos, c) && !waiting(cur, pos + 1, c) implies c == cur[pos] by {
        let y = choose|y: int| pos <= y < cur.len() && cur[y] == c;
        assert(y == pos);
    }
}

proof fn lemma_reached_grows(root: Digest, lg: Seq<(Digest, Node)>, e: (Digest, Node))
    ensures
        forall|x: Digest| reached(lg, root, x) ==> reached(lg.push(e), root, x),
        forall|x: Digest| listed(lg, x) ==> listed(lg.push(e), x),
        listed(lg.push(e), e.0),
        forall|x: Digest| child_of(e.1, x) ==> reached(lg.push(e), root, x),
{
    let lg2 = lg.push(e);
    assert(lg2[lg.len() as int] == e);
    assert forall|x: Digest| reached(lg, root, x) implies reached(lg2, root, x) by {
        if x != root {
            let i = choose|i: int| 0 <= i < lg.len() && child_of(lg[i].1, x);
            assert(lg2[i] == lg[i]);
        }
    }
    assert forall|x: Digest| listed(lg, x) implies listed(lg2, x) by {
        let i = choose|i: int| 0 <= i < lg.len() && lg[i].0 == x;
        assert(lg2[i] == lg[i]);
    }
}

proof fn lemma_node_log(m: Map<SmtKey, SmtValue>, n: u32, root: Digest, lg: Seq<(Digest, Node)>, h: Digest, node: Node)
    requires
        log_ok(m, n, root, lg),
        reached(lg, root, h),
        !listed(lg, h),
        m.contains_key(node_key(n, h)),
        m[node_key(n, h)] == internal_value(node),
    ensures
        log_ok(m, n, root, lg.push((h, node))),
{
    reveal(log_ok);
    let lg2 = lg.push((h, node));
    let jn = lg.len() as int;
    assert(lg2[jn] == (h, node));
    assert forall|i: int, j: int| 0 <= i < j < lg2.len() implies lg2[i].0 != lg2[j].0 by {
        if j == jn {
            assert(lg2[i] == lg[i]);
        }
    }
    assert forall|j: int| 0 <= j < lg2.len() implies (#[trigger] lg2[j]).0 == root
        || exists|i: int| 0 <= i < j && child_of(lg2[i].1, lg2[j].0) by {
        if j < jn {
            assert(lg2[j] == lg[j]);
            if lg[j].0 != root {
                let i = choose|i: int| 0 <= i < j && child_of(lg[i].1, lg[j].0);
                assert(lg2[i] == lg[i]);
            }
        } else if h != root {
            let i = choose|i: int| 0 <= i < lg.len() && child_of(lg[i].1, h);
            assert(lg2[i] == lg[i]);
        }
    }
}

proof fn lemma_node_pending(root: Digest, lg: Seq<(Digest, Node)>, cur: Seq<Digest>, next: Seq<Digest>, h: Digest, node: Node)
    requires
        pending_ok(root, lg, cur, next),
    ensures
        pending_ok(root, lg.push((h, node)), cur, next.push(node.left).push(node.right)),
{
    reveal(pending_ok);
    let lg2 = lg.push((h, node));
    let jn = lg.len() as int;
    assert(lg2[jn] == (h, node));
    let next2 = next.push(node.left).push(node.right);
    assert forall|x: Digest| reached(lg, root, x) implies reached(lg2, root, x) by {
        if x != root {
            let i = choose|i: int| 0 <= i < lg.len() && child_of(lg[i].1, x);
            assert(lg2[i] == lg[i]);
        }
    }
    assert forall|y: int| 0 <= y < next2.len() implies reached(lg2, root, #[trigger] next2[y]) by {
        if y < next.len() {
            assert(next2[y] == next[y]);
            assert(reached(lg, root, next[y]));
        } else {
            assert(child_of(lg2[jn].1, next2[y]));
        }
    }
    assert forall|y: int| 0 <= y < cur.len() implies reached(lg2, root, #[trigger] cur[y]) by {
        assert(reached(lg, root, cur[y]));
    }
}

proof fn lemma_node_covered(m: Map<SmtKey, SmtValue>, n: u32, root: Digest, lg: Seq<(Digest, Node)>, cur: Seq<Digest>, pos: int, next: Seq<Digest>, node: Node)
    requires
        covered(m, n, root, lg, cur, pos, next),
        0 <= pos < cur.len(),
    ensures
        covered(m, n, root, lg.push((cur[pos], node)), cur, pos + 1, next.push(node.left).push(node.right)),
{
    reveal(covered);
    let h = cur[pos];
    let lg2 = lg.push((h, node));
    let next2 = next.push(node.left).push(node.right);
    let jn = lg.len() as int;
    lemma_reached_grows(root, lg, (h, node));
    assert(next2[next.len() as int] == node.left);
    assert(next2[next.len() as int + 1] == node.right);
    assert forall|x: Digest| waiting(cur, pos, x) implies x == h || waiting(cur, pos + 1, x) by {
        let y = choose|y: int| pos <= y < cur.len() && cur[y] == x;
        if y != pos {
            assert(waiting(cur, pos + 1, x));
        }
    }
    assert forall|x: Digest| waiting(next, 0, x) implies waiting(next2, 0, x) by {
        let y = choose|y: int| 0 <= y < next.len() && next[y] == x;
        assert(next2[y] == x);
    }
    assert forall|j: int, c: Digest| 0 <= j < lg2.len() && #[trigger] child_of(lg2[j].1, c)
        implies leaf_entry(m, n, c) || listed(lg2, c) || waiting(cur, pos + 1, c) || waiting(next2, 0, c) by {
        if j == jn {
            assert(lg2[jn] == (h, node));
            if c == node.left {
                assert(next2[next.len() as int] == c);
            } else {
                assert(next2[next.len() as int + 1] == c);
            }
        } else {
            assert(lg2[j] == lg[j]);
        }
    }
}

proof fn lemma_bfs_node(
    m: Map<SmtKey, SmtValue>,
    n: u32,
    root: Digest,
    lg: Seq<(Digest, Node)>,
    cur: Seq<Digest>,
    pos: int,
    next: Seq<Digest>,
    node: Node,
)
    requires
        bfs_inv(m, n, root, lg, cur, pos, next),
        pos < cur.len(),
        !listed(lg, cur[pos]),
        m.contains_key(node_key(n, cur[pos])),
        m[node_key(n, cur[pos])] == internal_value(node),
    ensures
        bfs_inv(m, n, root, lg.push((cur[pos], node)), cur, pos + 1, next.push(node.left).push(node.right)),
{
    reveal(pending_ok);
    assert(reached(lg, root, cur[pos]));
    lemma_node_log(m, n, root, lg, cur[pos], node);
    lemma_node_pending(root, lg, cur, next, cur[pos], node);
    lemma_node_covered(m, n, root, lg, cur, pos, next, node);
}

proof fn lemma_bfs_level(m: Map<SmtKey, SmtValue>, n: u32, root: Digest, lg: Seq<(Digest, Node)>, cur: Seq<Digest>, next: Seq<Digest>)
    requires
        bfs_inv(m, n, root, lg, cur, cur.len() as int, next),
    ensures
        bfs_inv(m, n, root, lg, next, 0, Seq::empty()),
{
    reveal(pending_ok);
    reveal(covered);
    assert forall|c: Digest| !waiting(cur, cur.len() as int, c) by {}
    assert forall|c: Digest| !waiting(Seq::<Digest>::empty(), 0, c) by {}
}

proof fn lemma_bfs_done(m: Map<SmtKey, SmtValue>, n: u32, root: Digest, lg: Seq<(Digest, Node)>)
    requires
        bfs_inv(m, n, root, lg, Seq::empty(), 0, Seq::empty()),
        root_holds(m, n, root),
    ensures
        smt_read_ok(m, n, root, lg),
{
    reveal(log_ok);
    reveal(covered);
    assert forall|c: Digest| !waiting(Seq::<Digest>::empty(), 0, c) by {}
}

/// `rank` gives each hash it holds its level below `root`: the root is at 0,
/// each hash has an entry, and an internal node stands above `depth` with both
/// children one level lower.
pub open spec fn layered_by(m: Map<SmtKey, SmtValue>, n: u32, root: Digest, depth: int, rank: Map<Digest, nat>) -> bool {
    &&& rank.contains_key(root) && rank[root] == 0
    &&& forall|h: Digest| #[trigger] rank.contains_key(h) ==> m.contains_key(node_key(n, h)) && (m[node_key(n, h)] matches SmtValue::Node(l, r) ==> {
        &&& rank[h] < depth
        &&& rank.contains_key(l) && rank[l] == rank[h] + 1
        &&& rank.contains_key(r) && rank[r] == rank[h] + 1
    })
}

/// Network `n`'s entries hold a complete tree at most `depth` levels of nodes deep.
pub open spec fn smt_layered(m: Map<SmtKey, SmtValue>, n: u32, depth: int) -> bool {
    exists|root: Digest, rank: Map<Digest, nat>| root_holds(m, n, root) && layered_by(m, n, root, depth, rank)
}

/// Every item of `s` has level `level`.
#[verifier::opaque]
pub open spec fn ranked(rank: Map<Digest, nat>, s: Seq<Digest>, level: int) -> bool {
    forall|y: int| 0 <= y < s.len() ==> rank.contains_key(#[trigger] s[y]) && rank[s[y]] == level
}

/// Rebuilds network `network_id`'s tree, breadth first from the hash of the
/// node under the root sentinel. `None` when no root is stored;
/// `WrongValueType` when the sentinel holds a leaf; `SmtNodeNotFound` when a
/// hash met has no entry; `SmtDepthExceeded` when internal nodes lie more than
/// `depth` levels down.
#[verifier::rlimit(50)]
pub fn read_smt(table: &Table<SmtKey, SmtValue>, network_id: u32, depth: usize) -> (r: Result<Option<Smt>, Error>)
    requires
        depth < usize::MAX,
    ensures
        !table@.contains_key(root_key(network_id)) <==> r == Ok::<Option<Smt>, Error>(None),
        table@.contains_key(root_key(network_id)) && table@[root_key(network_id)] is Leaf
            <==> r == Err::<Option<Smt>, Error>(Error::WrongValueType),
        r matches Ok(Some(t)) ==> smt_read_ok(table@, network_id, t.root, t.tree.log()),
        r matches Err(e) ==> e == Error::SmtNodeNotFound || e == Error::WrongValueType || e == Error::SmtDepthExceeded,
        smt_layered(table@, network_id, depth as int) ==> r matches Ok(Some(_)),
{
    let ghost m = table@;
    let root = match table.get(&SmtKey { network_id, key_type: SmtKeyType::Root }) {
        None => return Ok(None),
        Some(SmtValue::Leaf(_)) => return Err(Error::WrongValueType),
        Some(SmtValue::Node(left, right)) => hash_node(&Node { left, right }),
    };
    let ghost good = smt_layered(m, network_id, depth as int);
    let ghost rank = choose|rank: Map<Digest, nat>| layered_by(m, network_id, root, depth as int, rank);
    proof {
        if good {
            let (root2, rank2) = choose|root2: Digest, rank2: Map<Digest, nat>|
                root_holds(m, network_id, root2) && layered_by(m, network_id, root2, depth as int, rank2);
            lemma_digest_eq(root, root2);
            assert(layered_by(m, network_id, root, depth as int, rank2));
        }
    }
    let mut out: Table<Digest, Node> = Table::new();
    let mut current: Vec<Digest> = Vec::new();
    current.push(root);
    proof {
        reveal(ranked);
        assert(current@[0] == root);
        assert(waiting(current@, 0, root));
        reveal(log_ok);
        reveal(pending_ok);
        reveal(covered);
    }
    let mut level: usize = 0;
    while current.len() > 0
        invariant
            m == table@,
            depth < usize::MAX,
            root_holds(m, network_id, root),
            current@.len() > 0 ==> level <= depth,
            bfs_inv(m, network_id, root, out.log(), current@, 0, Seq::empty()),
            good == smt_layered(m, network_id, depth as int),
            good ==> layered_by(m, network_id, root, depth as int, rank) && ranked(rank, current@, level as int),
        decreases depth + 1 - level,
    {
        let mut next: Vec<Digest> = Vec::new();
        proof {
            reveal(ranked);
        }
        let mut x: usize = 0;
        while x < current.len()
            invariant
                m == table@,
                level <= depth,
                root_holds(m, network_id, root),
                level == depth ==> next@.len() == 0,
                x <= current@.len(),
                bfs_inv(m, network_id, root, out.log(), current@, x as int, next@),
                good == smt_layered(m, network_id, depth as int),
                good ==> layered_by(m, network_id, root, depth as int, rank) && ranked(rank, current@, level as int)
                    && ranked(rank, next@, level + 1),
            decreases current@.len() - x,
        {
            let h = current[x];
            proof {
                lemma_log_map_dom(out.log(), h);
            }
            if out.get(&h).is_none() {
                proof {
                    reveal(ranked);
                    if good {
                        assert(rank.contains_key(current@[x as int]));
                        assert(rank[h] == level);
                        assert(m.contains_key(node_key(network_id, h)));
                    }
                }
                match table.get(&SmtKey { network_id, key_type: SmtKeyType::Node(h) }) {
                    None => return Err(Error::SmtNodeNotFound),
                    Some(SmtValue::Leaf(_)) => {
                        proof {
                            lemma_bfs_skip(m, network_id, root, out.log(), current@, x as int, next@);
                        }
                    },
                    Some(SmtValue::Node(left, right)) => {
                        proof {
                            if good {
                                assert(m[node_key(network_id, h)] == SmtValue::Node(left, right));
                                assert(rank.contains_key(h));
                                assert(rank[h] < depth);
                            }
                        }
                        if level == depth {
                            return Err(Error::SmtDepthExceeded);
                        }
                        proof {
                            assert(!listed(out.log(), h));
                            lemma_bfs_node(m, network_id, root, out.log(), current@, x as int, next@, Node { left, right });
                        }
                        let ghost next_old = next@;
                        out.put(h, Node { left, right });
                        next.push(left);
                        next.push(right);
                        proof {
                            reveal(ranked);
                            if good {
                                assert forall|y: int| 0 <= y < next@.len() implies rank.contains_key(#[trigger] next@[y])
                                    && rank[next@[y]] == level + 1 by {
                                    if y < next_old.len() {
                                        assert(next@[y] == next_old[y]);
                                    }
                                }
                            }
                        }
                    },
                }
            } else {
                proof {
                    assert(listed(out.log(), h));
                    lemma_bfs_skip(m, network_id, root, out.log(), current@, x as int, next@);
                }
            }
            x = x + 1;
        }
        proof {
            lemma_bfs_level(m, network_id, root, out.log(), current@, next@);
            if good && level == depth {
                reveal(ranked);
                assert(next@.len() == 0);
            }
        }
        current = next;
        level = level + 1;
    }
    proof {
        assert(current@ =~= Seq::<Digest>::empty());
        lemma_bfs_done(m, network_id, root, out.log());
    }
    Ok(Some(Smt { root, tree: out }))
}

proof fn lemma_read_node_in_tree(m: Map<SmtKey, SmtValue>, n: u32, root: Digest, t: Map<Digest, Node>, s: Seq<(Digest, Node)>, j: int)
    requires
        t.contains_key(root),
        smt_read_ok(smt_after_write(m, n, root, t), n, root, s),
        0 <= j < s.len(),
    ensures
        t.contains_key(s[j].0) && t[s[j].0] == s[j].1,
    decreases j,
{
    let m2 = smt_after_write(m, n, root, t);
    let h = s[j].0;
    let k = node_key(n, h);
    assert(m2.contains_key(k) && m2[k] == internal_value(s[j].1));
    if h != root {
        let i = choose|i: int| 0 <= i < j && child_of(s[i].1, s[j].0);
        lemma_read_node_in_tree(m, n, root, t, s, i);
        if !t.contains_key(h) {
            assert(child_of(t[s[i].0], h));
            assert(leaf_slot(k, n, t, t.dom()));
        }
    }
    assert(node_slot(k, n, t, t.dom()));
}

/// Writing a tree whose root is one of its nodes, keyed by its hash, and
/// reading it back gives the same root, and exactly the nodes of the tree that
/// hang from the root, each with the same children.
pub proof fn law_smt_round_trip(m: Map<SmtKey, SmtValue>, n: u32, root: Digest, t: Map<Digest, Node>, read_root: Digest, s: Seq<(Digest, Node)>)
    requires
        t.contains_key(root),
        root.0@ == node_hash(t[root]),
        smt_read_ok(smt_after_write(m, n, root, t), n, read_root, s),
    ensures
        read_root == root,
        forall|j: int| 0 <= j < s.len() ==> t.contains_key(#[trigger] s[j].0) && t[s[j].0] == s[j].1,
        listed(s, root),
        forall|j: int, c: Digest| 0 <= j < s.len() && #[trigger] child_of(s[j].1, c) && t.contains_key(c) ==> listed(s, c),
{
    let m2 = smt_after_write(m, n, root, t);
    assert(m2[root_key(n)] == internal_value(t[root]));
    lemma_digest_eq(read_root, root);
    assert forall|j: int| 0 <= j < s.len() implies t.contains_key(#[trigger] s[j].0) && t[s[j].0] == s[j].1 by {
        lemma_read_node_in_tree(m, n, root, t, s, j);
    }
    assert(node_slot(node_key(n, root), n, t, t.dom()));
    assert forall|j: int, c: Digest| 0 <= j < s.len() && #[trigger] child_of(s[j].1, c) && t.contains_key(c) implies listed(s, c) by {
        assert(node_slot(node_key(n, c), n, t, t.dom()));
    }
}

/// `h` is a child of some node of `t`.
pub open spec fn child_in(t: Map<Digest, Node>, h: Digest) -> bool {
    exists|p: Digest| t.contains_key(p) && #[trigger] child_of(t[p], h)
}

/// `rank` gives each hash it holds, a node of `t` or a child of one, its level
/// below `root`, a node of `t`: nodes stand above `depth`, their children one
/// level lower.
pub open spec fn tree_layered(t: Map<Digest, Node>, root: Digest, depth: int, rank: Map<Digest, nat>) -> bool {
    &&& t.contains_key(root)
    &&& rank.contains_key(root) && rank[root] == 0
    &&& forall|h: Digest| #[trigger] rank.contains_key(h) ==> t.contains_key(h) || child_in(t, h)
    &&& forall|h: Digest| #[trigger] rank.contains_key(h) && t.contains_key(h) ==> {
        &&& rank[h] < depth
        &&& rank.contains_key(t[h].left) && rank[t[h].left] == rank[h] + 1
        &&& rank.contains_key(t[h].right) && rank[t[h].right] == rank[h] + 1
    }
}

/// Writing a tree whose nodes are layered within `depth` leaves a column from
/// which the tree reads back in full.
pub proof fn law_smt_write_reads_back(m: Map<SmtKey, SmtValue>, n: u32, root: Digest, t: Map<Digest, Node>, depth: int, rank: Map<Digest, nat>)
    requires
        tree_layered(t, root, depth, rank),
        root.0@ == node_hash(t[root]),
    ensures
        smt_layered(smt_after_write(m, n, root, t), n, depth),
{
    let m2 = smt_after_write(m, n, root, t);
    assert(m2[root_key(n)] == internal_value(t[root]));
    assert(root_holds(m2, n, root));
    assert forall|h: Digest| #[trigger] rank.contains_key(h) implies m2.contains_key(node_key(n, h))
        && (m2[node_key(n, h)] matches SmtValue::Node(l, r) ==> {
            &&& rank[h] < depth
            &&& rank.contains_key(l) && rank[l] == rank[h] + 1
            &&& rank.contains_key(r) && rank[r] == rank[h] + 1
        }) by {
        let k = node_key(n, h);
        if t.contains_key(h) {
            assert(node_slot(k, n, t, t.dom()));
        } else {
            let p = choose|p: Digest| t.contains_key(p) && #[trigger] child_of(t[p], h);
            assert(leaf_slot(k, n, t, t.dom()));
        }
    }
    assert(layered_by(m2, n, root, depth, rank));
}

/// `order` lists nodes of `t`, each the root or a child of a node listed before it.
pub open spec fn rooted_order(t: Map<Digest, Node>, root: Digest, order: Seq<Digest>) -> bool {
    forall|k: int| 0 <= k < order.len() ==> t.contains_key(#[trigger] order[k])
        && (order[k] == root || exists|i: int| 0 <= i < k && child_of(t[order[i]], order[k]))
}

/// Every node of `t` hangs from `root`.
pub open spec fn hangs_from_root(t: Map<Digest, Node>, root: Digest) -> bool {
    exists|order: Seq<Digest>| rooted_order(t, root, order) && forall|h: Digest| t.contains_key(h) ==> order.contains(h)
}

proof fn lemma_order_read(m: Map<SmtKey, SmtValue>, n: u32, root: Digest, t: Map<Digest, Node>, s: Seq<(Digest, Node)>, order: Seq<Digest>, k: int)
    requires
        t.contains_key(root),
        root.0@ == node_hash(t[root]),
        smt_read_ok(smt_after_write(m, n, root, t), n, root, s),
        rooted_order(t, root, order),
        0 <= k < order.len(),
    ensures
        listed(s, order[k]),
    decreases k,
{
    law_smt_round_trip(m, n, root, t, root, s);
    if order[k] != root {
        let i = choose|i: int| 0 <= i < k && child_of(t[order[i]], order[k]);
        lemma_order_read(m, n, root, t, s, order, i);
        let j = choose|j: int| 0 <= j < s.len() && s[j].0 == order[i];
        assert(t[s[j].0] == s[j].1);
        assert(child_of(s[j].1, order[k]));
    }
}

/// Writing a tree all of whose nodes hang from its root, keyed by its hash,
/// and reading it back gives exactly the written nodes, each with the same
/// children.
pub proof fn law_smt_read_is_written_tree(m: Map<SmtKey, SmtValue>, n: u32, root: Digest, t: Map<Digest, Node>, read_root: Digest, s: Seq<(Digest, Node)>)
    requires
        t.contains_key(root),
        root.0@ == node_hash(t[root]),
        hangs_from_root(t, root),
        smt_read_ok(smt_after_write(m, n, root, t), n, read_root, s),
    ensures
        read_root == root,
        forall|h: Digest| t.contains_key(h) <==> listed(s, h),
        forall|j: int| 0 <= j < s.len() ==> t[#[trigger] s[j].0] == s[j].1,
{
    law_smt_round_trip(m, n, root, t, read_root, s);
    let order = choose|order: Seq<Digest>| rooted_order(t, root, order) && forall|h: Digest| t.contains_key(h) ==> order.contains(h);
    assert forall|h: Digest| t.contains_key(h) implies listed(s, h) by {
        assert(order.contains(h));
        let k = choose|k: int| 0 <= k < order.len() && order[k] == h;
        lemma_order_read(m, n, root, t, s, order, k);
    }
    assert forall|h: Digest| listed(s, h) implies t.contains_key(h) by {
        let j = choose|j: int| 0 <= j < s.len() && s[j].0 == h;
        assert(t.contains_key(s[j].0));
    }
}

} // verus!
