use crate::error::Error;
use crate::store::StateStore;
use crate::table::lemma_log_map_dom;
use crate::types::{Digest, ExitTreeKey, LocalExitTree, EXIT_TREE_DEPTH};
use vstd::prelude::*;

verus! {

pub open spec fn leaf_key(n: u32, i: u32) -> ExitTreeKey {
    ExitTreeKey { network_id: n, layer: 0, index: i }
}

pub open spec fn frontier_key(n: u32, layer: int) -> ExitTreeKey {
    ExitTreeKey { network_id: n, layer: layer as u8, index: 0 }
}

pub open spec fn has_leaf(m: Map<ExitTreeKey, Digest>, n: u32, i: u32) -> bool {
    m.contains_key(leaf_key(n, i))
}

/// `i` is the highest leaf index stored for network `n`.
pub open spec fn is_top_leaf(m: Map<ExitTreeKey, Digest>, n: u32, i: u32) -> bool {
    has_leaf(m, n, i) && forall|j: u32| has_leaf(m, n, j) ==> j <= i
}

/// The stored leaf count of network `n`: one past its highest leaf index, or 0.
pub open spec fn stored_leaf_count(m: Map<ExitTreeKey, Digest>, n: u32) -> int {
    if exists|i: u32| is_top_leaf(m, n, i) {
        (choose|i: u32| is_top_leaf(m, n, i)) + 1
    } else {
        0
    }
}

pub open spec fn frontier_complete(m: Map<ExitTreeKey, Digest>, n: u32) -> bool {
    forall|l: int| 1 <= l <= EXIT_TREE_DEPTH ==> #[trigger] m.contains_key(frontier_key(n, l))
}

pub open spec fn frontier_seq(m: Map<ExitTreeKey, Digest>, n: u32) -> Seq<Digest> {
    Seq::new(EXIT_TREE_DEPTH as nat, |i: int| m[frontier_key(n, i + 1)])
}

/// What reading the exit tree of network `n` gives: its leaf count and frontier.
pub open spec fn exit_tree_read(m: Map<ExitTreeKey, Digest>, n: u32) -> Result<Option<(int, Seq<Digest>)>, Error> {
    let c = stored_leaf_count(m, n);
    if c == 0 {
        Ok(None)
    } else if c > u32::MAX {
        Err(Error::InconsistentState { network_id: n })
    } else if !frontier_complete(m, n) {
        Err(Error::InconsistentFrontier)
    } else {
        Ok(Some((c, frontier_seq(m, n))))
    }
}

pub open spec fn exit_tree_view(r: Result<Option<LocalExitTree>, Error>) -> Result<Option<(int, Seq<Digest>)>, Error> {
    match r {
        Ok(Some(t)) => Ok(Some((t.leaf_count as int, t.frontier@))),
        Ok(None) => Ok(None),
        Err(e) => Err(e),
    }
}

pub open spec fn new_leaf_slot(k: ExitTreeKey, n: u32, start: int, len: int) -> bool {
    k.network_id == n && k.layer == 0 && start <= k.index < start + len
}

pub open spec fn frontier_slot(k: ExitTreeKey, n: u32, len: int) -> bool {
    k.network_id == n && 1 <= k.layer <= len && k.index == 0
}

/// `m` with `leaves` stored from index `start` on.
pub open spec fn with_leaves(m: Map<ExitTreeKey, Digest>, n: u32, start: int, leaves: Seq<Digest>) -> Map<ExitTreeKey, Digest> {
    Map::new(
        |k: ExitTreeKey| m.contains_key(k) || new_leaf_slot(k, n, start, leaves.len() as int),
        |k: ExitTreeKey| if new_leaf_slot(k, n, start, leaves.len() as int) { leaves[k.index - start] } else { m[k] },
    )
}

/// `m` with the frontier entries of layers 1 to `f.len()` replaced by `f`.
pub open spec fn with_frontier(m: Map<ExitTreeKey, Digest>, n: u32, f: Seq<Digest>) -> Map<ExitTreeKey, Digest> {
    Map::new(
        |k: ExitTreeKey| m.contains_key(k) || frontier_slot(k, n, f.len() as int),
        |k: ExitTreeKey| if frontier_slot(k, n, f.len() as int) { f[k.layer - 1] } else { m[k] },
    )
}

/// The exit tree column after a successful `write_leaves`.
pub open spec fn exit_after_write(m: Map<ExitTreeKey, Digest>, n: u32, start: int, leaves: Seq<Digest>, f: Seq<Digest>) -> Map<ExitTreeKey, Digest> {
    with_frontier(with_leaves(m, n, start, leaves), n, f)
}

pub proof fn lemma_count_is(m: Map<ExitTreeKey, Digest>, n: u32, t: u32)
    requires
        is_top_leaf(m, n, t),
    ensures
        stored_leaf_count(m, n) == t + 1,
{
    let c = choose|i: u32| is_top_leaf(m, n, i);
    assert(is_top_leaf(m, n, c));
    assert(has_leaf(m, n, t) ==> t <= c);
    assert(has_leaf(m, n, c) ==> c <= t);
}

pub proof fn lemma_top_exists(m: Map<ExitTreeKey, Digest>, n: u32, i: u32)
    requires
        has_leaf(m, n, i),
    ensures
        exists|t: u32| is_top_leaf(m, n, t),
    decreases u32::MAX - i,
{
    if !is_top_leaf(m, n, i) {
        let j = choose|j: u32| has_leaf(m, n, j) && !(j <= i);
        lemma_top_exists(m, n, j);
    }
}

/// With no leaf stored the count is 0, and a count of 0 means no leaf is stored.
pub proof fn lemma_count_zero(m: Map<ExitTreeKey, Digest>, n: u32)
    ensures
        stored_leaf_count(m, n) == 0 <==> forall|j: u32| !has_leaf(m, n, j),
{
    if exists|j: u32| has_leaf(m, n, j) {
        let j = choose|j: u32| has_leaf(m, n, j);
        lemma_top_exists(m, n, j);
        let t = choose|t: u32| is_top_leaf(m, n, t);
        lemma_count_is(m, n, t);
    }
}

/// A write from the stored count on leaves the count `start + leaves.len()`.
pub proof fn lemma_count_after_write(m: Map<ExitTreeKey, Digest>, n: u32, start: int, leaves: Seq<Digest>, f: Seq<Digest>)
    requires
        stored_leaf_count(m, n) == start,
        start + leaves.len() <= u32::MAX,
    ensures
        stored_leaf_count(exit_after_write(m, n, start, leaves, f), n) == start + leaves.len(),
{
    let m2 = exit_after_write(m, n, start, leaves, f);
    lemma_count_zero(m, n);
    assert forall|j: u32| has_leaf(m2, n, j) <==> (has_leaf(m, n, j) || (start <= j < start + leaves.len())) by {
        assert(!frontier_slot(leaf_key(n, j), n, f.len() as int));
    }
    if start > 0 {
        let t = choose|t: u32| is_top_leaf(m, n, t);
        lemma_count_is(m, n, t);
        assert(t + 1 == start);
    }
    if leaves.len() > 0 {
        let t = (start + leaves.len() - 1) as u32;
        assert(has_leaf(m2, n, t));
        lemma_count_is(m2, n, t);
    } else if start > 0 {
        let t = (start - 1) as u32;
        lemma_count_is(m, n, t);
        assert(is_top_leaf(m2, n, t));
        lemma_count_is(m2, n, t);
    } else {
        lemma_count_zero(m2, n);
    }
}

/// Appending `l0` and then `l1` to an exit tree that holds no leaves gives a
/// tree of `l0.len() + l1.len()` leaves whose frontier is the last one written.
pub proof fn law_exit_tree_append(
    m: Map<ExitTreeKey, Digest>,
    n: u32,
    l0: Seq<Digest>,
    f0: Seq<Digest>,
    l1: Seq<Digest>,
    f1: Seq<Digest>,
)
    requires
        stored_leaf_count(m, n) == 0,
        f0.len() == EXIT_TREE_DEPTH,
        f1.len() == EXIT_TREE_DEPTH,
        0 < l0.len() + l1.len() <= u32::MAX,
    ensures
        stored_leaf_count(exit_after_write(m, n, 0, l0, f0), n) == l0.len(),
        exit_tree_read(
            exit_after_write(exit_after_write(m, n, 0, l0, f0), n, l0.len() as int, l1, f1),
            n,
        ) == Ok::<Option<(int, Seq<Digest>)>, Error>(Some(((l0.len() + l1.len()) as int, f1))),
{
    let m1 = exit_after_write(m, n, 0, l0, f0);
    lemma_count_after_write(m, n, 0, l0, f0);
    let m2 = exit_after_write(m1, n, l0.len() as int, l1, f1);
    lemma_count_after_write(m1, n, l0.len() as int, l1, f1);
    assert forall|l: int| 1 <= l <= EXIT_TREE_DEPTH implies #[trigger] m2.contains_key(frontier_key(n, l)) by {
        assert(frontier_slot(frontier_key(n, l), n, f1.len() as int));
    }
    assert forall|i: int| 0 <= i < EXIT_TREE_DEPTH implies frontier_seq(m2, n)[i] == f1[i] by {
        assert(frontier_slot(frontier_key(n, i + 1), n, f1.len() as int));
    }
    assert(frontier_seq(m2, n) =~= f1);
}

impl StateStore {
    /// The leaf count of network `n`'s exit tree, as stored.
    pub fn stored_leaf_count(&self, network_id: u32) -> (r: u64)
        ensures
            r == stored_leaf_count(self.exit_tree@, network_id),
    {
        let len = self.exit_tree.log_len();
        let ghost log = self.exit_tree.log();
        let mut found = false;
        let mut top: u32 = 0;
        let mut i: usize = 0;
        while i < len
            invariant
                len == log.len(),
                log == self.exit_tree.log(),
                0 <= i <= len,
                found <==> exists|j: int| 0 <= j < i && (#[trigger] log[j]).0.network_id == network_id && log[j].0.layer == 0,
                found ==> exists|j: int| 0 <= j < i && #[trigger] log[j].0 == leaf_key(network_id, top),
                forall|j: int| 0 <= j < i && (#[trigger] log[j]).0.network_id == network_id && log[j].0.layer == 0
                    ==> log[j].0.index <= top,
            decreases len - i,
        {
            let (k, _) = self.exit_tree.entry_at(i);
            if k.network_id == network_id && k.layer == 0 {
                if !found || k.index > top {
                    top = k.index;
                    proof {
                        assert(log[i as int].0 == leaf_key(network_id, top));
                    }
                }
                found = true;
            }
            i = i + 1;
        }
        let ghost m = self.exit_tree@;
        proof {
            assert forall|j: u32| has_leaf(m, network_id, j) <==> exists|x: int| 0 <= x < len && #[trigger] log[x].0 == leaf_key(network_id, j) by {
                lemma_log_map_dom(log, leaf_key(network_id, j));
            }
        }
        if found {
            proof {
                let x = choose|x: int| 0 <= x < len && #[trigger] log[x].0 == leaf_key(network_id, top);
                assert(has_leaf(m, network_id, top));
                assert forall|j: u32| has_leaf(m, network_id, j) implies j <= top by {
                    let x = choose|x: int| 0 <= x < len && #[trigger] log[x].0 == leaf_key(network_id, j);
                    assert(log[x].0.network_id == network_id && log[x].0.layer == 0);
                }
                lemma_count_is(m, network_id, top);
            }
            top as u64 + 1
        } else {
            proof {
                assert forall|j: u32| !has_leaf(m, network_id, j) by {
                    if has_leaf(m, network_id, j) {
                        let x = choose|x: int| 0 <= x < len && #[trigger] log[x].0 == leaf_key(network_id, j);
                        assert(log[x].0.network_id == network_id && log[x].0.layer == 0);
                    }
                }
                lemma_count_zero(m, network_id);
            }
            0
        }
    }

    /// Rebuilds the exit tree of a network from its highest leaf index and
    /// its frontier; `None` when no leaf is stored.
    pub fn read_local_exit_tree(&self, network_id: u32) -> (r: Result<Option<LocalExitTree>, Error>)
        ensures
            exit_tree_view(r) == exit_tree_read(self.exit_tree@, network_id),
            r matches Ok(Some(t)) ==> t.wf(),
    {
        let count = self.stored_leaf_count(network_id);
        if count == 0 {
            return Ok(None);
        }
        if count > u32::MAX as u64 {
            return Err(Error::InconsistentState { network_id });
        }
        let mut frontier: Vec<Digest> = Vec::new();
        let mut layer: u8 = 1;
        while layer <= 32
            invariant
                1 <= layer <= 33,
                count == stored_leaf_count(self.exit_tree@, network_id),
                0 < count <= u32::MAX,
                frontier@.len() == layer - 1,
                forall|l: int| 1 <= l < layer ==> #[trigger] self.exit_tree@.contains_key(frontier_key(network_id, l)),
                forall|i: int| 0 <= i < layer - 1 ==> frontier@[i] == self.exit_tree@[frontier_key(network_id, i + 1)],
            decreases 33 - layer,
        {
            match self.exit_tree.get(&ExitTreeKey { network_id, layer, index: 0 }) {
                Some(h) => frontier.push(h),
                None => {
                    proof {
                        assert(ExitTreeKey { network_id, layer, index: 0 } == frontier_key(network_id, layer as int));
                        assert(!self.exit_tree@.contains_key(frontier_key(network_id, layer as int)));
                        assert(!frontier_complete(self.exit_tree@, network_id));
                        let c = stored_leaf_count(self.exit_tree@, network_id);
                        assert(c != 0);
                        assert(c <= u32::MAX);
                        assert(exit_tree_read(self.exit_tree@, network_id) == Err::<Option<(int, Seq<Digest>)>, Error>(Error::InconsistentFrontier));
                    }
                    return Err(Error::InconsistentFrontier);
                },
            }
            layer = layer + 1;
        }
        proof {
            assert(frontier@ =~= frontier_seq(self.exit_tree@, network_id));
        }
        Ok(Some(LocalExitTree { leaf_count: count as u32, frontier }))
    }

    /// Appends `leaves` from index `start` on and replaces the frontier.
    /// Fails, writing nothing, unless `start` is the stored leaf count.
    pub fn write_leaves(&mut self, network_id: u32, start: u32, leaves: &[Digest], frontier: &[Digest]) -> (r: Result<(), Error>)
        requires
            frontier@.len() == EXIT_TREE_DEPTH,
            start + leaves@.len() <= u32::MAX,
        ensures
            r is Ok <==> stored_leaf_count(old(self).exit_tree@, network_id) == start,
            r is Err ==> r == Err::<(), Error>(Error::InconsistentState { network_id })
                && final(self).exit_tree@ == old(self).exit_tree@,
            r is Ok ==> final(self).exit_tree@ == exit_after_write(old(self).exit_tree@, network_id, start as int, leaves@, frontier@),
            final(self).balance_tree@ == old(self).balance_tree@,
            final(self).nullifier_tree@ == old(self).nullifier_tree@,
            final(self).same_ledger(old(self)),
    {
        if self.stored_leaf_count(network_id) != start as u64 {
            return Err(Error::InconsistentState { network_id });
        }
        let ghost m0 = self.exit_tree@;
        let mut i: usize = 0;
        while i < leaves.len()
            invariant
                0 <= i <= leaves@.len(),
                start + leaves@.len() <= u32::MAX,
                self.exit_tree@ == with_leaves(m0, network_id, start as int, leaves@.take(i as int)),
                self.balance_tree@ == old(self).balance_tree@,
                self.nullifier_tree@ == old(self).nullifier_tree@,
                self.same_ledger(old(self)),
            decreases leaves@.len() - i,
        {
            let k = ExitTreeKey { network_id, layer: 0, index: start + i as u32 };
            self.exit_tree.put(k, leaves[i]);
            proof {
                assert(self.exit_tree@ =~= with_leaves(m0, network_id, start as int, leaves@.take(i + 1)));
            }
            i = i + 1;
        }
        proof {
            assert(leaves@.take(leaves@.len() as int) =~= leaves@);
        }
        let ghost m1 = self.exit_tree@;
        let mut layer: u8 = 1;
        while layer <= 32
            invariant
                1 <= layer <= 33,
                frontier@.len() == EXIT_TREE_DEPTH,
                self.exit_tree@ == with_frontier(m1, network_id, frontier@.take(layer - 1)),
                self.balance_tree@ == old(self).balance_tree@,
                self.nullifier_tree@ == old(self).nullifier_tree@,
                self.same_ledger(old(self)),
            decreases 33 - layer,
        {
            self.exit_tree.put(ExitTreeKey { network_id, layer, index: 0 }, frontier[layer as usize - 1]);
            proof {
                assert(self.exit_tree@ =~= with_frontier(m1, network_id, frontier@.take(layer as int)));
            }
            layer = layer + 1;
        }
        proof {
            assert(frontier@.take(32) =~= frontier@);
        }
        Ok(())
    }
}

} // verus!
