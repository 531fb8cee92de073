use crate::table::{Table, TableKey};
use vstd::prelude::*;

verus! {

broadcast use vstd::array::group_array_axioms;

/// Depth of the local exit tree, and number of its frontier entries.
pub const EXIT_TREE_DEPTH: usize = 32;

/// Depth of the local balance tree.
pub const LOCAL_BALANCE_TREE_DEPTH: usize = 192;

/// Depth of the nullifier tree.
pub const NULLIFIER_TREE_DEPTH: usize = 64;

pub type NetworkId = u32;

pub type Height = u64;

pub type EpochNumber = u64;

pub type CertificateIndex = u64;

/// A 32-byte digest.
#[derive(Clone, Copy, Debug, PartialEq, Eq)]
pub struct Digest(pub [u8; 32]);

impl Digest {
    pub open spec fn bytes(&self) -> Seq<u8> {
        self.0@
    }

    pub fn zero() -> (r: Digest)
        ensures
            forall|i: int| 0 <= i < 32 ==> r.0[i] == 0u8,
    {
        Digest([0u8; 32])
    }

    /// Byte-wise comparison.
    pub fn same_as(&self, other: &Digest) -> (r: bool)
        ensures
            r == (*self == *other),
    {
        let mut i: usize = 0;
        while i < 32
            invariant
                0 <= i <= 32,
                forall|j: int| 0 <= j < i ==> self.0[j] == other.0[j],
            decreases 32 - i,
        {
            if self.0[i] != other.0[i] {
                return false;
            }
            i = i + 1;
        }
        proof {
            assert(self.0 =~= other.0);
        }
        true
    }
}

/// Two digests with the same bytes are the same digest.
pub proof fn lemma_digest_eq(a: Digest, b: Digest)
    requires
        a.0@ == b.0@,
    ensures
        a == b,
{
    assert(a.0 =~= b.0) by {
        assert forall|i: int| 0 <= i < 32 implies a.0[i] == b.0[i] by {
            assert(a.0@[i] == b.0@[i]);
        }
    }
}

impl TableKey for Digest {
    fn key_eq(&self, other: &Self) -> (r: bool) {
        self.same_as(other)
    }
}

pub type CertificateId = Digest;

/// Lifecycle of a certificate.
#[derive(Clone, Copy, Debug, PartialEq, Eq, Structural)]
pub enum CertificateStatus {
    Pending,
    Proven,
    Candidate,
    Settled,
}

/// What the ledger reads of a submitted certificate; `id` is its content hash.
#[derive(Clone, Copy, Debug)]
pub struct Certificate {
    pub id: CertificateId,
    pub network_id: NetworkId,
    pub height: Height,
    pub prev_local_exit_root: Digest,
    pub new_local_exit_root: Digest,
    pub metadata: Digest,
}

/// Persisted status and position of a certificate.
#[derive(Clone, Copy, Debug, PartialEq, Eq)]
pub struct CertificateHeader {
    pub network_id: NetworkId,
    pub height: Height,
    pub epoch_number: Option<EpochNumber>,
    pub certificate_index: Option<CertificateIndex>,
    pub certificate_id: CertificateId,
    pub new_local_exit_root: Digest,
    pub metadata: Digest,
    pub tx_hash: Option<Digest>,
    pub status: CertificateStatus,
}

/// Latest settled certificate of a network: id, height, epoch and index in it.
#[derive(Clone, Copy, Debug, PartialEq, Eq)]
pub struct SettledCertificate(pub CertificateId, pub Height, pub EpochNumber, pub CertificateIndex);

/// Key of the exit tree column: layer 0 holds leaves, layers 1.. the frontier.
#[derive(Clone, Copy, Debug, PartialEq, Eq, Structural)]
pub struct ExitTreeKey {
    pub network_id: u32,
    pub layer: u8,
    pub index: u32,
}

impl TableKey for ExitTreeKey {
    fn key_eq(&self, other: &Self) -> (r: bool) {
        *self == *other
    }
}

/// Key of the certificate-per-network index.
#[derive(Clone, Copy, Debug, PartialEq, Eq, Structural)]
pub struct CertificatePerNetworkKey {
    pub network_id: u32,
    pub height: u64,
}

impl TableKey for CertificatePerNetworkKey {
    fn key_eq(&self, other: &Self) -> (r: bool) {
        *self == *other
    }
}

impl TableKey for u32 {
    fn key_eq(&self, other: &Self) -> (r: bool) {
        *self == *other
    }
}

/// Locator of a sparse Merkle tree entry: the root sentinel, or a node's hash.
#[derive(Clone, Copy, Debug, PartialEq, Eq)]
pub enum SmtKeyType {
    Root,
    Node(Digest),
}

#[derive(Clone, Copy, Debug, PartialEq, Eq)]
pub struct SmtKey {
    pub network_id: u32,
    pub key_type: SmtKeyType,
}

impl TableKey for SmtKey {
    fn key_eq(&self, other: &Self) -> (r: bool) {
        if self.network_id != other.network_id {
            return false;
        }
        match (self.key_type, other.key_type) {
            (SmtKeyType::Root, SmtKeyType::Root) => true,
            (SmtKeyType::Node(a), SmtKeyType::Node(b)) => a.same_as(&b),
            _ => false,
        }
    }
}

/// A stored sparse Merkle tree entry: `Node` of an internal node's children,
/// under its hash and, for the root, under the root sentinel too; `Leaf` of a
/// leaf's hash, under that hash.
#[derive(Clone, Copy, Debug, PartialEq, Eq)]
pub enum SmtValue {
    Node(Digest, Digest),
    Leaf(Digest),
}

/// An internal node of a sparse Merkle tree.
#[derive(Clone, Copy, Debug, PartialEq, Eq)]
pub struct Node {
    pub left: Digest,
    pub right: Digest,
}

/// Append-only Merkle tree as its leaf count and frontier.
#[derive(Debug)]
pub struct LocalExitTree {
    pub leaf_count: u32,
    pub frontier: Vec<Digest>,
}

impl LocalExitTree {
    pub open spec fn wf(&self) -> bool {
        self.frontier@.len() == EXIT_TREE_DEPTH
    }
}

/// A sparse Merkle tree as its root hash and the map from hash to internal node.
pub struct Smt {
    pub root: Digest,
    pub tree: Table<Digest, Node>,
}

/// The three trees of one network.
pub struct LocalNetworkStateData {
    pub exit_tree: LocalExitTree,
    pub balance_tree: Smt,
    pub nullifier_tree: Smt,
}

} // verus!
