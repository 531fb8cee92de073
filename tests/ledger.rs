use agglayer_storage::{
    Certificate, CertificateStatus, Digest, Error, SettledCertificate, StateStore,
};

fn certificate(id: u8, network_id: u32, height: u64) -> Certificate {
    Certificate {
        id: Digest([id; 32]),
        network_id,
        height,
        prev_local_exit_root: Digest([0; 32]),
        new_local_exit_root: Digest([7; 32]),
        metadata: Digest([8; 32]),
    }
}

#[test]
fn can_retrieve_list_of_network() {
    let mut store = StateStore::new();
    assert!(store.get_active_networks().unwrap().is_empty());
    store
        .set_latest_settled_certificate_for_network(&1, &0, &Digest([0; 32]), &0, &0)
        .expect("Unable to put certificate into storage");
    assert!(store.get_active_networks().unwrap().len() == 1);
}

#[test]
fn active_networks_lists_each_network_once() {
    let mut store = StateStore::new();
    store.set_latest_settled_certificate_for_network(&1, &0, &Digest([0; 32]), &0, &0).unwrap();
    store.set_latest_settled_certificate_for_network(&1, &1, &Digest([1; 32]), &1, &0).unwrap();
    store.set_latest_settled_certificate_for_network(&7, &0, &Digest([2; 32]), &1, &1).unwrap();
    store.set_latest_settled_certificate_for_network(&0, &0, &Digest([3; 32]), &1, &2).unwrap();
    assert_eq!(store.get_active_networks().unwrap(), vec![0, 1, 7]);
    let settled = store.get_current_settled_height().unwrap();
    assert_eq!(settled[0], (0, SettledCertificate(Digest([3; 32]), 0, 1, 2)));
    assert_eq!(settled[1..].to_vec(), vec![
        (1, SettledCertificate(Digest([1; 32]), 1, 1, 0)),
        (7, SettledCertificate(Digest([2; 32]), 0, 1, 1)),
    ]);
    assert_eq!(
        store.get_latest_settled_certificate_per_network(&1).unwrap(),
        Some((1, SettledCertificate(Digest([1; 32]), 1, 1, 0)))
    );
    assert_eq!(store.get_latest_settled_certificate_per_network(&2).unwrap(), None);
}

#[test]
fn one_settled_network_is_listed() {
    let mut store = StateStore::new();
    store.set_latest_settled_certificate_for_network(&1, &3, &Digest([4; 32]), &2, &1).unwrap();
    assert_eq!(store.get_active_networks().unwrap(), vec![1]);
}

#[test]
fn pending_certificate_cannot_be_assigned() {
    let mut store = StateStore::new();
    let c = certificate(1, 1, 0);
    store.insert_certificate_header(&c, CertificateStatus::Pending).unwrap();
    assert_eq!(store.assign_certificate_to_epoch(&c.id, &3, &4), Err(Error::UnprocessedAction));
    let header = store.get_certificate_header(&c.id).unwrap().unwrap();
    assert_eq!(header.status, CertificateStatus::Pending);
    assert_eq!(header.epoch_number, None);
}

#[test]
fn proven_certificate_is_assigned_exactly_once() {
    let mut store = StateStore::new();
    let c = certificate(2, 5, 9);
    store.insert_certificate_header(&c, CertificateStatus::Pending).unwrap();
    store.update_certificate_header_status(&c.id, &CertificateStatus::Proven).unwrap();
    assert_eq!(store.assign_certificate_to_epoch(&c.id, &3, &4), Ok(()));
    let header = store.get_certificate_header(&c.id).unwrap().unwrap();
    assert_eq!(header.status, CertificateStatus::Candidate);
    assert_eq!(header.epoch_number, Some(3));
    assert_eq!(header.certificate_index, Some(4));
    assert_eq!(header.new_local_exit_root, Digest([7; 32]));
    assert_eq!(store.assign_certificate_to_epoch(&c.id, &3, &4), Err(Error::UnprocessedAction));
    assert_eq!(store.assign_certificate_to_epoch(&c.id, &5, &6), Err(Error::UnprocessedAction));
    let again = store.get_certificate_header(&c.id).unwrap().unwrap();
    assert_eq!(again.epoch_number, Some(3));
}

#[test]
fn unknown_certificate_is_left_alone() {
    let mut store = StateStore::new();
    let id = Digest([3; 32]);
    assert_eq!(store.assign_certificate_to_epoch(&id, &1, &1), Ok(()));
    assert_eq!(store.update_certificate_header_status(&id, &CertificateStatus::Settled), Ok(()));
    assert_eq!(store.get_certificate_header(&id).unwrap(), None);
    assert_eq!(store.get_certificate_header_by_cursor(0, 0).unwrap(), None);
}

#[test]
fn settled_certificate_resolves_by_cursor() {
    let mut store = StateStore::new();
    let c = certificate(4, 2, 11);
    store.insert_certificate_header(&c, CertificateStatus::Candidate).unwrap();
    assert_eq!(store.get_certificate_header_by_cursor(2, 11).unwrap(), None);
    store.update_certificate_header_status(&c.id, &CertificateStatus::Settled).unwrap();
    let found = store.get_certificate_header_by_cursor(2, 11).unwrap().unwrap();
    assert_eq!(found.certificate_id, c.id);
    assert_eq!(found.status, CertificateStatus::Settled);
    assert_eq!(store.get_certificate_header_by_cursor(2, 12).unwrap(), None);
}

#[test]
fn settled_insert_is_indexed() {
    let mut store = StateStore::new();
    let c = certificate(5, 3, 1);
    store.insert_certificate_header(&c, CertificateStatus::Settled).unwrap();
    let found = store.get_certificate_header_by_cursor(3, 1).unwrap().unwrap();
    assert_eq!(found.certificate_id, c.id);
    assert_eq!(found.height, 1);
    assert_eq!(found.epoch_number, None);
    assert_eq!(found.tx_hash, None);
}

#[test]
fn dangling_index_entry_reads_as_not_found() {
    let mut store = StateStore::new();
    store.certificate_per_network.put(
        agglayer_storage::CertificatePerNetworkKey { network_id: 1, height: 0 },
        Digest([9; 32]),
    );
    assert_eq!(store.get_certificate_header_by_cursor(1, 0), Ok(None));
}

#[test]
fn latest_settled_epoch_only_increases() {
    let mut store = StateStore::new();
    assert_eq!(store.get_latest_settled_epoch(), Ok(None));
    assert_eq!(store.set_latest_settled_epoch(5), Ok(()));
    assert_eq!(store.set_latest_settled_epoch(5), Err(Error::UnprocessedAction));
    assert_eq!(store.set_latest_settled_epoch(3), Err(Error::UnprocessedAction));
    assert_eq!(store.get_latest_settled_epoch(), Ok(Some(5)));
    assert_eq!(store.set_latest_settled_epoch(6), Ok(()));
    assert_eq!(store.get_latest_settled_epoch(), Ok(Some(6)));
}

#[test]
fn first_epoch_may_be_zero() {
    let mut store = StateStore::new();
    assert_eq!(store.set_latest_settled_epoch(0), Ok(()));
    assert_eq!(store.get_latest_settled_epoch(), Ok(Some(0)));
}

#[test]
fn inserting_a_known_certificate_changes_nothing() {
    let mut store = StateStore::new();
    let c = certificate(6, 1, 4);
    store.insert_certificate_header(&c, CertificateStatus::Proven).unwrap();
    store.assign_certificate_to_epoch(&c.id, &2, &0).unwrap();
    store.insert_certificate_header(&c, CertificateStatus::Settled).unwrap();
    let header = store.get_certificate_header(&c.id).unwrap().unwrap();
    assert_eq!(header.status, CertificateStatus::Candidate);
    assert_eq!(header.epoch_number, Some(2));
    assert_eq!(header.certificate_index, Some(0));
    assert_eq!(store.get_certificate_header_by_cursor(1, 4).unwrap(), None);
}
