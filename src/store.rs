use crate::error::Error;
use crate::table::{lemma_log_map_dom, Table};
use crate::types::{
    Certificate, CertificateHeader, CertificateId, CertificateIndex, CertificatePerNetworkKey,
    CertificateStatus, Digest, EpochNumber, ExitTreeKey, Height, NetworkId, SettledCertificate,
    SmtKey, SmtValue,
};
use vstd::prelude::*;

verus! {

/// The state store: one table per column. Every change takes `&mut self`, so
/// a call runs alone: a multi-entry write is seen whole or not at all, and a
/// read-modify-write of a header or a network's trees cannot interleave with
/// another call.
pub struct StateStore {
    /// Exit tree leaves and frontiers, by network, layer and index.
    pub exit_tree: Table<ExitTreeKey, Digest>,
    /// Balance tree nodes, by network and node hash.
    pub balance_tree: Table<SmtKey, SmtValue>,
    /// Nullifier tree nodes, by network and node hash.
    pub nullifier_tree: Table<SmtKey, SmtValue>,
    /// Certificate headers, by certificate id.
    pub headers: Table<CertificateId, CertificateHeader>,
    /// Settled certificate ids, by network and height.
    pub certificate_per_network: Table<CertificatePerNetworkKey, CertificateId>,
    /// Latest settled certificate, by network.
    pub latest_settled: Table<NetworkId, SettledCertificate>,
    /// The latest settled epoch, once one was recorded;
    /// `set_latest_settled_epoch` keeps it increasing.
    pub latest_settled_epoch: Option<u64>,
}

/// The header that submitting `c` at `status` creates.
pub open spec fn header_of(c: Certificate, status: CertificateStatus) -> CertificateHeader {
    CertificateHeader {
        network_id: c.network_id,
        height: c.height,
        epoch_number: None,
        certificate_index: None,
        certificate_id: c.id,
        new_local_exit_root: c.new_local_exit_root,
        metadata: c.metadata,
        tx_hash: None,
        status,
    }
}

/// Index key of a certificate settled by `network_id` at `height`.
pub open spec fn cursor(network_id: NetworkId, height: Height) -> CertificatePerNetworkKey {
    CertificatePerNetworkKey { network_id, height }
}

/// Every key of `m` is the first component of some item of `v`.
pub open spec fn lists_every_key<K, V, W>(v: Seq<(K, W)>, m: Map<K, V>) -> bool {
    forall|k: K| #[trigger] m.contains_key(k) ==> exists|i: int| 0 <= i < v.len() && v[i].0 == k
}

/// The header that the index entry of `network_id` at `height` leads to.
pub open spec fn cursor_lookup(
    headers: Map<CertificateId, CertificateHeader>,
    index: Map<CertificatePerNetworkKey, CertificateId>,
    network_id: NetworkId,
    height: Height,
) -> Option<CertificateHeader> {
    if index.contains_key(cursor(network_id, height)) && headers.contains_key(index[cursor(network_id, height)]) {
        Some(headers[index[cursor(network_id, height)]])
    } else {
        None
    }
}

/// Whether `value` may follow the recorded latest settled epoch.
pub open spec fn epoch_advances(current: Option<u64>, value: u64) -> bool {
    match current {
        Some(c) => c < value,
        None => true,
    }
}

/// Whether `assign_certificate_to_epoch` may act on this header.
pub open spec fn assignable(h: CertificateHeader) -> bool {
    h.epoch_number is None && h.certificate_index is None && h.status == CertificateStatus::Proven
}

/// The header after a successful epoch assignment.
pub open spec fn assigned(h: CertificateHeader, epoch: EpochNumber, index: CertificateIndex) -> CertificateHeader {
    CertificateHeader {
        status: CertificateStatus::Candidate,
        epoch_number: Some(epoch),
        certificate_index: Some(index),
        ..h
    }
}

impl StateStore {
    /// The latest settled epoch recorded, if any.
    pub open spec fn settled_epoch(&self) -> Option<u64> {
        self.latest_settled_epoch
    }

    /// The columns other than the trees are those of `other`.
    pub open spec fn same_ledger(&self, other: &StateStore) -> bool {
        &&& self.headers@ == other.headers@
        &&& self.certificate_per_network@ == other.certificate_per_network@
        &&& self.latest_settled@ == other.latest_settled@
        &&& self.settled_epoch() == other.settled_epoch()
    }

    /// The tree columns are those of `other`.
    pub open spec fn same_trees(&self, other: &StateStore) -> bool {
        &&& self.exit_tree@ == other.exit_tree@
        &&& self.balance_tree@ == other.balance_tree@
        &&& self.nullifier_tree@ == other.nullifier_tree@
    }

    /// An empty store.
    pub fn new() -> (r: StateStore)
        ensures
            r.exit_tree@ == Map::<ExitTreeKey, Digest>::empty(),
            r.balance_tree@ == Map::<SmtKey, SmtValue>::empty(),
            r.nullifier_tree@ == Map::<SmtKey, SmtValue>::empty(),
            r.headers@ == Map::<CertificateId, CertificateHeader>::empty(),
            r.certificate_per_network@ == Map::<CertificatePerNetworkKey, CertificateId>::empty(),
            r.latest_settled@ == Map::<NetworkId, SettledCertificate>::empty(),
            r.settled_epoch() is None,
    {
        StateStore {
            exit_tree: Table::new(),
            balance_tree: Table::new(),
            nullifier_tree: Table::new(),
            headers: Table::new(),
            certificate_per_network: Table::new(),
            latest_settled: Table::new(),
            latest_settled_epoch: None,
        }
    }

    /// Records a submitted certificate at `status`; a settled one is also
    /// indexed by its network and height. A certificate whose header exists
    /// already changes nothing.
    pub fn insert_certificate_header(&mut self, certificate: &Certificate, status: CertificateStatus) -> (r: Result<(), Error>)
        ensures
            r is Ok,
            old(self).headers@.contains_key(certificate.id) ==> final(self).headers@ == old(self).headers@
                && final(self).certificate_per_network@ == old(self).certificate_per_network@,
            !old(self).headers@.contains_key(certificate.id) ==> {
                &&& final(self).headers@ == old(self).headers@.insert(certificate.id, header_of(*certificate, status))
                &&& final(self).certificate_per_network@ == if status == CertificateStatus::Settled {
                    old(self).certificate_per_network@.insert(cursor(certificate.network_id, certificate.height), certificate.id)
                } else {
                    old(self).certificate_per_network@
                }
            },
            final(self).latest_settled@ == old(self).latest_settled@,
            final(self).settled_epoch() == old(self).settled_epoch(),
            final(self).same_trees(old(self)),
    {
        if self.headers.get(&certificate.id).is_some() {
            return Ok(());
        }
        let header = CertificateHeader {
            network_id: certificate.network_id,
            height: certificate.height,
            epoch_number: None,
            certificate_index: None,
            certificate_id: certificate.id,
            new_local_exit_root: certificate.new_local_exit_root,
            metadata: certificate.metadata,
            tx_hash: None,
            status,
        };
        self.headers.put(certificate.id, header);
        if status == CertificateStatus::Settled {
            self.certificate_per_network.put(
                CertificatePerNetworkKey { network_id: certificate.network_id, height: certificate.height },
                certificate.id,
            );
        }
        Ok(())
    }

    /// Overwrites the status of a known certificate; settling one also indexes
    /// it by its recorded network and height. An unknown id changes nothing.
    /// Any status may follow any other: the lifecycle order is kept by the
    /// caller, as `assign_certificate_to_epoch` is the one transition whose
    /// source status this store checks.
    pub fn update_certificate_header_status(&mut self, certificate_id: &CertificateId, status: &CertificateStatus) -> (r: Result<(), Error>)
        ensures
            r is Ok,
            old(self).headers@.contains_key(*certificate_id) ==> {
                let h = old(self).headers@[*certificate_id];
                &&& final(self).headers@ == old(self).headers@.insert(*certificate_id, CertificateHeader { status: *status, ..h })
                &&& final(self).certificate_per_network@ == if *status == CertificateStatus::Settled {
                    old(self).certificate_per_network@.insert(cursor(h.network_id, h.height), h.certificate_id)
                } else {
                    old(self).certificate_per_network@
                }
            },
            !old(self).headers@.contains_key(*certificate_id) ==> final(self).headers@ == old(self).headers@
                && final(self).certificate_per_network@ == old(self).certificate_per_network@,
            final(self).latest_settled@ == old(self).latest_settled@,
            final(self).settled_epoch() == old(self).settled_epoch(),
            final(self).same_trees(old(self)),
    {
        if let Some(mut header) = self.headers.get(certificate_id) {
            header.status = *status;
            self.headers.put(*certificate_id, header);
            if *status == CertificateStatus::Settled {
                self.certificate_per_network.put(
                    CertificatePerNetworkKey { network_id: header.network_id, height: header.height },
                    header.certificate_id,
                );
            }
        }
        Ok(())
    }

    /// Places a proven certificate at `certificate_index` of epoch
    /// `epoch_number` and makes it a candidate. An unknown id changes nothing.
    pub fn assign_certificate_to_epoch(
        &mut self,
        certificate_id: &CertificateId,
        epoch_number: &EpochNumber,
        certificate_index: &CertificateIndex,
    ) -> (r: Result<(), Error>)
        ensures
            old(self).headers@.contains_key(*certificate_id) && !assignable(old(self).headers@[*certificate_id])
                <==> r == Err::<(), Error>(Error::UnprocessedAction),
            r is Ok || r == Err::<(), Error>(Error::UnprocessedAction),
            final(self).headers@ == if r is Ok && old(self).headers@.contains_key(*certificate_id) {
                old(self).headers@.insert(
                    *certificate_id,
                    assigned(old(self).headers@[*certificate_id], *epoch_number, *certificate_index),
                )
            } else {
                old(self).headers@
            },
            final(self).certificate_per_network@ == old(self).certificate_per_network@,
            final(self).latest_settled@ == old(self).latest_settled@,
            final(self).settled_epoch() == old(self).settled_epoch(),
            final(self).same_trees(old(self)),
    {
        if let Some(mut header) = self.headers.get(certificate_id) {
            if header.epoch_number.is_some() || header.certificate_index.is_some() {
                return Err(Error::UnprocessedAction);
            }
            if header.status != CertificateStatus::Proven {
                return Err(Error::UnprocessedAction);
            }
            header.status = CertificateStatus::Candidate;
            header.epoch_number = Some(*epoch_number);
            header.certificate_index = Some(*certificate_index);
            self.headers.put(*certificate_id, header);
        }
        Ok(())
    }

    /// Records the latest settled certificate of a network.
    pub fn set_latest_settled_certificate_for_network(
        &mut self,
        network_id: &NetworkId,
        height: &Height,
        certificate_id: &CertificateId,
        epoch_number: &EpochNumber,
        certificate_index: &CertificateIndex,
    ) -> (r: Result<(), Error>)
        ensures
            r is Ok,
            final(self).latest_settled@ == old(self).latest_settled@.insert(
                *network_id,
                SettledCertificate(*certificate_id, *height, *epoch_number, *certificate_index),
            ),
            final(self).headers@ == old(self).headers@,
            final(self).certificate_per_network@ == old(self).certificate_per_network@,
            final(self).settled_epoch() == old(self).settled_epoch(),
            final(self).same_trees(old(self)),
    {
        self.latest_settled.put(*network_id, SettledCertificate(*certificate_id, *height, *epoch_number, *certificate_index));
        Ok(())
    }

    pub fn get_certificate_header(&self, certificate_id: &CertificateId) -> (r: Result<Option<CertificateHeader>, Error>)
        ensures
            r == Ok::<Option<CertificateHeader>, Error>(
                if self.headers@.contains_key(*certificate_id) {
                    Some(self.headers@[*certificate_id])
                } else {
                    None
                },
            ),
    {
        Ok(self.headers.get(certificate_id))
    }

    /// The header of the certificate that `network_id` settled at `height`. An
    /// index entry whose header is missing reads as not found.
    pub fn get_certificate_header_by_cursor(&self, network_id: NetworkId, height: Height) -> (r: Result<Option<CertificateHeader>, Error>)
        ensures
            r == Ok::<Option<CertificateHeader>, Error>(
                cursor_lookup(self.headers@, self.certificate_per_network@, network_id, height),
            ),
    {
        match self.certificate_per_network.get(&CertificatePerNetworkKey { network_id, height }) {
            Some(certificate_id) => self.get_certificate_header(&certificate_id),
            None => Ok(None),
        }
    }

    pub fn get_latest_settled_certificate_per_network(&self, network_id: &NetworkId) -> (r: Result<Option<(NetworkId, SettledCertificate)>, Error>)
        ensures
            r == Ok::<Option<(NetworkId, SettledCertificate)>, Error>(
                if self.latest_settled@.contains_key(*network_id) {
                    Some((*network_id, self.latest_settled@[*network_id]))
                } else {
                    None
                },
            ),
    {
        match self.latest_settled.get(network_id) {
            Some(s) => Ok(Some((*network_id, s))),
            None => Ok(None),
        }
    }

    /// The networks with a latest settled certificate, each once, in
    /// ascending order.
    pub fn get_active_networks(&self) -> (r: Result<Vec<NetworkId>, Error>)
        ensures
            r is Ok,
            r.unwrap()@.to_set() == self.latest_settled@.dom(),
            r.unwrap()@.no_duplicates(),
            forall|a: int, b: int| 0 <= a < b < r.unwrap()@.len() ==> r.unwrap()@[a] < r.unwrap()@[b],
    {
        let mut out: Vec<NetworkId> = Vec::new();
        let n = self.latest_settled.log_len();
        let mut i: usize = 0;
        while i < n
            invariant
                n == self.latest_settled.log().len(),
                0 <= i <= n,
                forall|a: int, b: int| 0 <= a < b < out@.len() ==> out@[a] < out@[b],
                forall|k: NetworkId| out@.contains(k) <==> exists|j: int| 0 <= j < i && #[trigger] self.latest_settled.log()[j].0 == k,
            decreases n - i,
        {
            let (k, _) = self.latest_settled.entry_at(i);
            let ghost prev = out@;
            let mut pos: usize = 0;
            while pos < out.len() && out[pos] < k
                invariant
                    out@ == prev,
                    0 <= pos <= out@.len(),
                    forall|y: int| 0 <= y < pos ==> out@[y] < k,
                decreases out@.len() - pos,
            {
                pos = pos + 1;
            }
            if pos < out.len() && out[pos] == k {
                proof {
                    assert(prev.contains(k));
                    assert forall|x: NetworkId| out@.contains(x) <==> (prev.contains(x) || x == k) by {}
                }
            } else {
                out.insert(pos, k);
                proof {
                    assert forall|y: int| pos <= y < prev.len() implies prev[y] > k by {
                        if y > pos {
                            assert(prev[pos as int] < prev[y]);
                        }
                    }
                    assert forall|a: int, b: int| 0 <= a < b < out@.len() implies out@[a] < out@[b] by {
                        if a < pos && b > pos {
                            assert(out@[b] == prev[b - 1]);
                        } else if a > pos {
                            assert(out@[a] == prev[a - 1] && out@[b] == prev[b - 1]);
                        } else if b < pos {
                            assert(out@[a] == prev[a] && out@[b] == prev[b]);
                        }
                    }
                    assert forall|x: NetworkId| out@.contains(x) <==> (prev.contains(x) || x == k) by {
                        if out@.contains(x) {
                            let y = choose|y: int| 0 <= y < out@.len() && out@[y] == x;
                            if y < pos {
                                assert(prev[y] == x);
                            } else if y > pos {
                                assert(prev[y - 1] == x);
                            }
                        }
                        if prev.contains(x) {
                            let y = choose|y: int| 0 <= y < prev.len() && prev[y] == x;
                            if y < pos {
                                assert(out@[y] == x);
                            } else {
                                assert(out@[y + 1] == x);
                            }
                        }
                        if x == k {
                            assert(out@[pos as int] == k);
                        }
                    }
                }
            }
            proof {
                assert(self.latest_settled.log()[i as int].0 == k);
                assert forall|x: NetworkId| out@.contains(x) <==> exists|j: int| 0 <= j < i + 1 && #[trigger] self.latest_settled.log()[j].0 == x by {
                    if exists|j: int| 0 <= j < i + 1 && #[trigger] self.latest_settled.log()[j].0 == x {
                        let j0 = choose|j: int| 0 <= j < i + 1 && #[trigger] self.latest_settled.log()[j].0 == x;
                        if j0 < i {
                            assert(exists|j: int| 0 <= j < i && #[trigger] self.latest_settled.log()[j].0 == x);
                            assert(prev.contains(x));
                        }
                    }
                    if prev.contains(x) {
                        let j0 = choose|j: int| 0 <= j < i && #[trigger] self.latest_settled.log()[j].0 == x;
                        assert(self.latest_settled.log()[j0].0 == x);
                    }
                }
            }
            i = i + 1;
        }
        proof {
            assert forall|x: NetworkId| out@.to_set().contains(x) <==> self.latest_settled@.dom().contains(x) by {
                lemma_log_map_dom(self.latest_settled.log(), x);
            }
            assert(out@.to_set() =~= self.latest_settled@.dom());
            assert forall|a: int, b: int| 0 <= a < out@.len() && 0 <= b < out@.len() && a != b implies out@[a] != out@[b] by {
                if a < b {
                    assert(out@[a] < out@[b]);
                } else {
                    assert(out@[b] < out@[a]);
                }
            }
        }
        Ok(out)
    }

    /// Every network's latest settled certificate, each network once, in
    /// ascending order of network.
    pub fn get_current_settled_height(&self) -> (r: Result<Vec<(NetworkId, SettledCertificate)>, Error>)
        ensures
            match r {
                Ok(v) => {
                    &&& forall|i: int| 0 <= i < v@.len() ==> self.latest_settled@.contains_key(#[trigger] v@[i].0)
                        && v@[i].1 == self.latest_settled@[v@[i].0]
                    &&& lists_every_key(v@, self.latest_settled@)
                    &&& forall|i: int, j: int| 0 <= i < j < v@.len() ==> v@[i].0 < v@[j].0
                },
                Err(_) => false,
            },
    {
        let networks = self.get_active_networks().unwrap();
        let mut out: Vec<(NetworkId, SettledCertificate)> = Vec::new();
        let mut i: usize = 0;
        while i < networks.len()
            invariant
                0 <= i <= networks@.len(),
                networks@.no_duplicates(),
                forall|a: int, b: int| 0 <= a < b < networks@.len() ==> networks@[a] < networks@[b],
                networks@.to_set() == self.latest_settled@.dom(),
                out@.len() == i,
                forall|x: int| 0 <= x < i ==> (#[trigger] out@[x]).0 == networks@[x]
                    && self.latest_settled@.contains_key(out@[x].0)
                    && out@[x].1 == self.latest_settled@[out@[x].0],
            decreases networks@.len() - i,
        {
            let k = networks[i];
            assert(networks@.to_set().contains(k));
            let s = self.latest_settled.get(&k).unwrap();
            out.push((k, s));
            i = i + 1;
        }
        proof {
            assert forall|k: NetworkId| #[trigger] self.latest_settled@.dom().contains(k) implies exists|i: int| 0 <= i < out@.len() && out@[i].0 == k by {
                assert(networks@.to_set().contains(k));
                assert(networks@.contains(k));
                let x = choose|x: int| 0 <= x < networks@.len() && networks@[x] == k;
                assert(out@[x].0 == k);
            }
            assert(lists_every_key(out@, self.latest_settled@));
            assert(forall|i: int, j: int| 0 <= i < j < out@.len() ==> out@[i].0 < out@[j].0);
            assert(forall|i: int| 0 <= i < out@.len() ==> self.latest_settled@.contains_key(#[trigger] out@[i].0)
                        && out@[i].1 == self.latest_settled@[out@[i].0]);
        }
        Ok(out)
    }

    /// Records `value` as the latest settled epoch; it must exceed the one
    /// recorded before, if any.
    pub fn set_latest_settled_epoch(&mut self, value: u64) -> (r: Result<(), Error>)
        ensures
            !epoch_advances(old(self).settled_epoch(), value) <==> r == Err::<(), Error>(Error::UnprocessedAction),
            r is Ok || r == Err::<(), Error>(Error::UnprocessedAction),
            final(self).settled_epoch() == if r is Ok {
                Some(value)
            } else {
                old(self).settled_epoch()
            },
            final(self).same_trees(old(self)),
            final(self).headers@ == old(self).headers@,
            final(self).certificate_per_network@ == old(self).certificate_per_network@,
            final(self).latest_settled@ == old(self).latest_settled@,
    {
        if let Some(current) = self.get_latest_settled_epoch()? {
            if current >= value {
                return Err(Error::UnprocessedAction);
            }
        }
        self.latest_settled_epoch = Some(value);
        Ok(())
    }

    pub fn get_latest_settled_epoch(&self) -> (r: Result<Option<u64>, Error>)
        ensures
            r == Ok::<Option<u64>, Error>(self.settled_epoch()),
    {
        Ok(self.latest_settled_epoch)
    }
}

/// A pending certificate cannot be assigned to an epoch; a successful
/// assignment makes it a candidate with the given epoch and index, and a
/// second assignment of it fails.
pub proof fn law_assign_exactly_once(h: CertificateHeader, epoch: EpochNumber, index: CertificateIndex, epoch2: EpochNumber, index2: CertificateIndex)
    ensures
        h.status == CertificateStatus::Pending ==> !assignable(h),
        assignable(h) ==> {
            let a = assigned(h, epoch, index);
            &&& a.status == CertificateStatus::Candidate
            &&& a.epoch_number == Some(epoch)
            &&& a.certificate_index == Some(index)
            &&& !assignable(a)
            &&& !assignable(assigned(a, epoch2, index2))
        },
{
}

/// Once a header stored under its own id is set to settled, the index of its
/// network and height leads back to it.
pub proof fn law_settled_resolves_by_cursor(
    headers: Map<CertificateId, CertificateHeader>,
    index: Map<CertificatePerNetworkKey, CertificateId>,
    id: CertificateId,
)
    requires
        headers.contains_key(id),
        headers[id].certificate_id == id,
    ensures
        ({
            let h = headers[id];
            let headers2 = headers.insert(id, CertificateHeader { status: CertificateStatus::Settled, ..h });
            let index2 = index.insert(cursor(h.network_id, h.height), h.certificate_id);
            cursor_lookup(headers2, index2, h.network_id, h.height) matches Some(found)
                && found.certificate_id == id && found.status == CertificateStatus::Settled
        }),
{
}

/// After `value` is recorded as the latest settled epoch, recording `next`
/// succeeds exactly when `next` exceeds `value`.
pub proof fn law_epoch_strictly_increases(current: Option<u64>, value: u64, next: u64)
    requires
        epoch_advances(current, value),
    ensures
        epoch_advances(Some(value), next) <==> next > value,
{
}

/// Listing the networks after one network's latest settled certificate is
/// recorded in an empty column gives that network alone.
pub proof fn law_one_active_network(v: Seq<NetworkId>, n: NetworkId, s: SettledCertificate)
    requires
        v.to_set() == Map::<NetworkId, SettledCertificate>::empty().insert(n, s).dom(),
        v.no_duplicates(),
    ensures
        v.len() == 1,
        v[0] == n,
{
    assert(v.to_set().contains(n));
    assert(v.contains(n));
    let i = choose|i: int| 0 <= i < v.len() && v[i] == n;
    assert forall|j: int| 0 <= j < v.len() implies v[j] == n by {
        assert(v.to_set().contains(v[j]));
    }
    if v.len() > 1 {
        assert(v[0] == v[1]);
    }
}

} // verus!
