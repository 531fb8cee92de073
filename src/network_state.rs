use crate::error::Error;
use crate::exit_tree::{
    exit_after_write, exit_tree_read, frontier_slot, lemma_count_after_write, lemma_count_zero,
    stored_leaf_count, frontier_key, frontier_seq,
};
use crate::smt::{
    law_smt_round_trip, law_smt_write_reads_back, node_hash, read_smt, root_key, smt_after_write, smt_layered,
    smt_read_ok, tree_layered, write_smt,
};
use crate::store::StateStore;
use crate::types::{
    Digest, ExitTreeKey, LocalNetworkStateData, NetworkId, Node, SmtKey, SmtKeyType, SmtValue,
    EXIT_TREE_DEPTH, LOCAL_BALANCE_TREE_DEPTH, NULLIFIER_TREE_DEPTH,
};
use vstd::prelude::*;

verus! {

/// Which of network `n`'s trees are stored: `Ok(false)` none, `Ok(true)` all
/// three, `InconsistentState` any other combination.
pub open spec fn state_shape(
    exit: Map<ExitTreeKey, Digest>,
    balance: Map<SmtKey, SmtValue>,
    nullifier: Map<SmtKey, SmtValue>,
    n: NetworkId,
) -> Result<bool, Error> {
    let e = stored_leaf_count(exit, n) > 0;
    let b = balance.contains_key(root_key(n));
    let u = nullifier.contains_key(root_key(n));
    if !e && !b && !u {
        Ok(false)
    } else if e && b && u {
        Ok(true)
    } else {
        Err(Error::InconsistentState { network_id: n })
    }
}

/// An error that reading a sparse Merkle tree gives.
pub open spec fn smt_read_error(e: Error) -> bool {
    e == Error::SmtNodeNotFound || e == Error::WrongValueType || e == Error::SmtDepthExceeded
}

/// `s` is what reading network `n`'s three trees gives.
pub open spec fn state_read_ok(
    exit: Map<ExitTreeKey, Digest>,
    balance: Map<SmtKey, SmtValue>,
    nullifier: Map<SmtKey, SmtValue>,
    n: NetworkId,
    s: LocalNetworkStateData,
) -> bool {
    &&& exit_tree_read(exit, n) == Ok::<Option<(int, Seq<Digest>)>, Error>(Some((s.exit_tree.leaf_count as int, s.exit_tree.frontier@)))
    &&& smt_read_ok(balance, n, s.balance_tree.root, s.balance_tree.tree.log())
    &&& smt_read_ok(nullifier, n, s.nullifier_tree.root, s.nullifier_tree.tree.log())
}

impl StateStore {
    /// Stores a network's new state: the exit tree from its previous leaf
    /// count on, then the balance tree, then the nullifier tree. Fails, writing
    /// nothing, unless the stored leaf count is the new count less the new leaves.
    pub fn write_local_network_state(
        &mut self,
        network_id: &NetworkId,
        new_state: &LocalNetworkStateData,
        new_leaves: &[Digest],
    ) -> (r: Result<(), Error>)
        requires
            new_state.exit_tree.wf(),
        ensures
            r is Err <==> new_leaves@.len() > new_state.exit_tree.leaf_count
                || stored_leaf_count(old(self).exit_tree@, *network_id) != new_state.exit_tree.leaf_count - new_leaves@.len(),
            r is Err ==> r == Err::<(), Error>(Error::InconsistentState { network_id: *network_id })
                && final(self).same_trees(old(self)),
            r is Ok ==> {
                &&& final(self).exit_tree@ == exit_after_write(
                    old(self).exit_tree@,
                    *network_id,
                    new_state.exit_tree.leaf_count - new_leaves@.len(),
                    new_leaves@,
                    new_state.exit_tree.frontier@,
                )
                &&& final(self).balance_tree@ == smt_after_write(
                    old(self).balance_tree@,
                    *network_id,
                    new_state.balance_tree.root,
                    new_state.balance_tree.tree@,
                )
                &&& final(self).nullifier_tree@ == smt_after_write(
                    old(self).nullifier_tree@,
                    *network_id,
                    new_state.nullifier_tree.root,
                    new_state.nullifier_tree.tree@,
                )
            },
            final(self).same_ledger(old(self)),
    {
        let n = *network_id;
        let count = new_state.exit_tree.leaf_count;
        if new_leaves.len() > count as usize {
            return Err(Error::InconsistentState { network_id: n });
        }
        let start = count - new_leaves.len() as u32;
        self.write_leaves(n, start, new_leaves, new_state.exit_tree.frontier.as_slice())?;
        write_smt(&mut self.balance_tree, n, &new_state.balance_tree);
        write_smt(&mut self.nullifier_tree, n, &new_state.nullifier_tree);
        Ok(())
    }

    /// Reads a network's three trees: `None` when none is stored, and
    /// `InconsistentState` when some but not all are.
    pub fn read_local_network_state(&self, network_id: NetworkId) -> (r: Result<Option<LocalNetworkStateData>, Error>)
        ensures
            state_shape(self.exit_tree@, self.balance_tree@, self.nullifier_tree@, network_id) == Ok::<bool, Error>(false)
                <==> r == Ok::<Option<LocalNetworkStateData>, Error>(None),
            state_shape(self.exit_tree@, self.balance_tree@, self.nullifier_tree@, network_id) is Err
                ==> r == Err::<Option<LocalNetworkStateData>, Error>(Error::InconsistentState { network_id }),
            state_shape(self.exit_tree@, self.balance_tree@, self.nullifier_tree@, network_id) == Ok::<bool, Error>(true)
                && exit_tree_read(self.exit_tree@, network_id) is Err ==> (r matches Err(e)
                && exit_tree_read(self.exit_tree@, network_id) == Err::<Option<(int, Seq<Digest>)>, Error>(e)),
            state_shape(self.exit_tree@, self.balance_tree@, self.nullifier_tree@, network_id) == Ok::<bool, Error>(true)
                && exit_tree_read(self.exit_tree@, network_id) is Ok
                && smt_layered(self.balance_tree@, network_id, LOCAL_BALANCE_TREE_DEPTH as int)
                && smt_layered(self.nullifier_tree@, network_id, NULLIFIER_TREE_DEPTH as int)
                ==> r matches Ok(Some(_)),
            state_shape(self.exit_tree@, self.balance_tree@, self.nullifier_tree@, network_id) == Ok::<bool, Error>(true)
                && exit_tree_read(self.exit_tree@, network_id) is Ok ==> (r matches Err(e) ==> smt_read_error(e)),
            r matches Ok(Some(s)) ==> s.exit_tree.wf()
                && state_read_ok(self.exit_tree@, self.balance_tree@, self.nullifier_tree@, network_id, s),
    {
        let has_exit = self.stored_leaf_count(network_id) > 0;
        let has_balance = self.balance_tree.get(&SmtKey { network_id, key_type: SmtKeyType::Root }).is_some();
        let has_nullifier = self.nullifier_tree.get(&SmtKey { network_id, key_type: SmtKeyType::Root }).is_some();
        if !has_exit && !has_balance && !has_nullifier {
            return Ok(None);
        }
        if !(has_exit && has_balance && has_nullifier) {
            return Err(Error::InconsistentState { network_id });
        }
        let exit_tree = match self.read_local_exit_tree(network_id)? {
            Some(t) => t,
            None => return Err(Error::InconsistentState { network_id }),
        };
        let balance_tree = match read_smt(&self.balance_tree, network_id, LOCAL_BALANCE_TREE_DEPTH)? {
            Some(t) => t,
            None => return Err(Error::InconsistentState { network_id }),
        };
        let nullifier_tree = match read_smt(&self.nullifier_tree, network_id, NULLIFIER_TREE_DEPTH)? {
            Some(t) => t,
            None => return Err(Error::InconsistentState { network_id }),
        };
        Ok(Some(LocalNetworkStateData { exit_tree, balance_tree, nullifier_tree }))
    }
}

/// A network with nothing stored reads as absent.
pub proof fn law_untouched_network_absent(
    exit: Map<ExitTreeKey, Digest>,
    balance: Map<SmtKey, SmtValue>,
    nullifier: Map<SmtKey, SmtValue>,
    n: NetworkId,
)
    requires
        forall|k: ExitTreeKey| k.network_id == n ==> !exit.contains_key(k),
        forall|k: SmtKey| k.network_id == n ==> !balance.contains_key(k) && !nullifier.contains_key(k),
    ensures
        state_shape(exit, balance, nullifier, n) == Ok::<bool, Error>(false),
{
    lemma_count_zero(exit, n);
}

/// After a network with nothing stored writes a non-empty exit tree and two
/// layered sparse Merkle trees whose roots are keyed by their hashes, all three are present and read back in full
/// (so `read_local_network_state` succeeds), and what is read has the leaf
/// count, frontier and roots written. After it writes the exit and balance
/// trees alone, reading it is `InconsistentState`.
pub proof fn law_network_state_round_trip(
    exit: Map<ExitTreeKey, Digest>,
    balance: Map<SmtKey, SmtValue>,
    nullifier: Map<SmtKey, SmtValue>,
    n: NetworkId,
    leaves: Seq<Digest>,
    frontier: Seq<Digest>,
    balance_root: Digest,
    balance_nodes: Map<Digest, Node>,
    nullifier_root: Digest,
    nullifier_nodes: Map<Digest, Node>,
    balance_rank: Map<Digest, nat>,
    nullifier_rank: Map<Digest, nat>,
    read: LocalNetworkStateData,
)
    requires
        forall|k: ExitTreeKey| k.network_id == n ==> !exit.contains_key(k),
        forall|k: SmtKey| k.network_id == n ==> !balance.contains_key(k) && !nullifier.contains_key(k),
        0 < leaves.len() <= u32::MAX,
        frontier.len() == EXIT_TREE_DEPTH,
        tree_layered(balance_nodes, balance_root, LOCAL_BALANCE_TREE_DEPTH as int, balance_rank),
        tree_layered(nullifier_nodes, nullifier_root, NULLIFIER_TREE_DEPTH as int, nullifier_rank),
        balance_root.0@ == node_hash(balance_nodes[balance_root]),
        nullifier_root.0@ == node_hash(nullifier_nodes[nullifier_root]),
    ensures
        state_shape(
            exit_after_write(exit, n, 0, leaves, frontier),
            smt_after_write(balance, n, balance_root, balance_nodes),
            smt_after_write(nullifier, n, nullifier_root, nullifier_nodes),
            n,
        ) == Ok::<bool, Error>(true),
        exit_tree_read(exit_after_write(exit, n, 0, leaves, frontier), n)
            == Ok::<Option<(int, Seq<Digest>)>, Error>(Some((leaves.len() as int, frontier))),
        smt_layered(smt_after_write(balance, n, balance_root, balance_nodes), n, LOCAL_BALANCE_TREE_DEPTH as int),
        smt_layered(smt_after_write(nullifier, n, nullifier_root, nullifier_nodes), n, NULLIFIER_TREE_DEPTH as int),
        state_read_ok(
            exit_after_write(exit, n, 0, leaves, frontier),
            smt_after_write(balance, n, balance_root, balance_nodes),
            smt_after_write(nullifier, n, nullifier_root, nullifier_nodes),
            n,
            read,
        ) ==> read.exit_tree.leaf_count == leaves.len() && read.exit_tree.frontier@ == frontier
            && read.balance_tree.root == balance_root && read.nullifier_tree.root == nullifier_root,
        state_shape(
            exit_after_write(exit, n, 0, leaves, frontier),
            smt_after_write(balance, n, balance_root, balance_nodes),
            nullifier,
            n,
        ) == Err::<bool, Error>(Error::InconsistentState { network_id: n }),
{
    let e2 = exit_after_write(exit, n, 0, leaves, frontier);
    lemma_count_zero(exit, n);
    lemma_count_after_write(exit, n, 0, leaves, frontier);
    assert(smt_after_write(balance, n, balance_root, balance_nodes).contains_key(root_key(n)));
    assert(smt_after_write(nullifier, n, nullifier_root, nullifier_nodes).contains_key(root_key(n)));
    assert(!nullifier.contains_key(root_key(n)));
    assert forall|l: int| 1 <= l <= EXIT_TREE_DEPTH implies #[trigger] e2.contains_key(frontier_key(n, l)) by {
        assert(frontier_slot(frontier_key(n, l), n, frontier.len() as int));
    }
    assert forall|i: int| 0 <= i < EXIT_TREE_DEPTH implies frontier_seq(e2, n)[i] == frontier[i] by {
        assert(frontier_slot(frontier_key(n, i + 1), n, frontier.len() as int));
    }
    assert(frontier_seq(e2, n) =~= frontier);
    law_smt_write_reads_back(balance, n, balance_root, balance_nodes, LOCAL_BALANCE_TREE_DEPTH as int, balance_rank);
    law_smt_write_reads_back(nullifier, n, nullifier_root, nullifier_nodes, NULLIFIER_TREE_DEPTH as int, nullifier_rank);
    if state_read_ok(e2, smt_after_write(balance, n, balance_root, balance_nodes),
        smt_after_write(nullifier, n, nullifier_root, nullifier_nodes), n, read) {
        law_smt_round_trip(balance, n, balance_root, balance_nodes, read.balance_tree.root, read.balance_tree.tree.log());
        law_smt_round_trip(nullifier, n, nullifier_root, nullifier_nodes, read.nullifier_tree.root, read.nullifier_tree.tree.log());
    }
}

} // verus!
