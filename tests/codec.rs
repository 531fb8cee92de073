use agglayer_storage::codec::{
    decode_certificate_id, decode_cursor_key, decode_exit_key, decode_header, decode_settled,
    decode_smt_key, decode_smt_value, encode_certificate_id, encode_cursor_key, encode_exit_key,
    encode_header, encode_settled, encode_smt_key, encode_smt_value,
};
use agglayer_storage::{
    CertificateHeader, CertificatePerNetworkKey, CertificateStatus, Digest, Error, ExitTreeKey,
    SettledCertificate, SmtKey, SmtKeyType, SmtValue,
};

fn sample_header() -> CertificateHeader {
    CertificateHeader {
        network_id: 1,
        certificate_id: Digest([1; 32]),
        height: 2,
        epoch_number: Some(3),
        certificate_index: Some(4),
        new_local_exit_root: Digest([5; 32]),
        tx_hash: None,
        status: CertificateStatus::Pending,
        metadata: Digest([6; 32]),
    }
}

#[test]
fn tests_can_parse_key() {
    let key = Digest([1; 32]);
    let encoded = encode_certificate_id(&key);
    let expected_key = decode_certificate_id(&encoded[..]).expect("Unable to decode key");
    assert_eq!(expected_key, key);
}

#[test]
fn tests_can_parse_value() {
    let value = sample_header();
    let encoded = encode_header(&value);
    let expected_value = decode_header(&encoded[..]).expect("Unable to decode value");
    println!("{:?}", encoded);
    assert_eq!(expected_value, value);
    assert_eq!(encoded[..4], [0, 0, 0, 1]);
    assert_eq!(encoded[4..12], [0, 0, 0, 0, 0, 0, 0, 2]);
    assert_eq!(encoded[12..21], [1, 0, 0, 0, 0, 0, 0, 0, 3]);
    assert_eq!(encoded[21..30], [1, 0, 0, 0, 0, 0, 0, 0, 4]);
    assert_eq!(encoded[30..62], [1u8; 32]);
    assert_eq!(encoded[62..94], [5u8; 32]);
    assert_eq!(encoded[94..126], [6u8; 32]);
    assert_eq!(encoded[126..127], [0]);
    assert_eq!(encoded[127..131], [0, 0, 0, 0]);
    assert!(encoded[131..].is_empty());
}

#[test]
fn can_parse_key() {
    let key = CertificatePerNetworkKey { network_id: 1, height: 200 };
    let encoded = encode_cursor_key(&key);
    let expected_key = decode_cursor_key(&encoded[..]).expect("Unable to decode key");
    assert_eq!(expected_key, key);
}

#[test]
fn can_parse_value() {
    let value = CertificateHeader {
        network_id: 1,
        certificate_id: Digest([1; 32]),
        epoch_number: Some(3),
        certificate_index: Some(4),
        height: 0,
        new_local_exit_root: Digest([0; 32]),
        tx_hash: None,
        status: CertificateStatus::Pending,
        metadata: Digest([6; 32]),
    };
    let encoded = encode_header(&value);
    let expected_value = decode_header(&encoded[..]).expect("Unable to decode value");
    assert_eq!(expected_value, value);
    assert_eq!(encoded[..4], [0, 0, 0, 1]);
    assert_eq!(encoded[4..12], [0, 0, 0, 0, 0, 0, 0, 0]);
    assert_eq!(encoded[12..21], [1, 0, 0, 0, 0, 0, 0, 0, 3]);
    assert_eq!(encoded[21..30], [1, 0, 0, 0, 0, 0, 0, 0, 4]);
    assert_eq!(encoded[30..62], [1u8; 32]);
    assert_eq!(encoded[62..94], [0u8; 32]);
    assert_eq!(encoded[94..126], [6u8; 32]);
    assert_eq!(encoded[126..127], [0]);
    assert_eq!(encoded[127..131], [0, 0, 0, 0]);
    assert!(encoded[131..].is_empty());
}

#[test]
fn header_with_tx_hash_and_no_epoch_round_trips() {
    let value = CertificateHeader {
        epoch_number: None,
        certificate_index: None,
        tx_hash: Some(Digest([9; 32])),
        status: CertificateStatus::Settled,
        ..sample_header()
    };
    let encoded = encode_header(&value);
    assert_eq!(encoded.len(), 4 + 8 + 1 + 1 + 96 + 33 + 4);
    assert_eq!(encoded[12], 0);
    assert_eq!(encoded[13], 0);
    assert_eq!(encoded[110], 1);
    assert_eq!(encoded[111..143], [9u8; 32]);
    assert_eq!(encoded[143..147], [0, 0, 0, 3]);
    assert_eq!(decode_header(&encoded[..]), Ok(value));
}

#[test]
fn cursor_key_bytes_are_big_endian() {
    let key = CertificatePerNetworkKey { network_id: 0x01020304, height: 0x0506070809101112 };
    let encoded = encode_cursor_key(&key);
    assert_eq!(encoded, vec![1, 2, 3, 4, 5, 6, 7, 8, 9, 0x10, 0x11, 0x12]);
}

#[test]
fn malformed_bytes_do_not_decode() {
    let mut encoded = encode_header(&sample_header());
    assert_eq!(decode_header(&encoded[..130]), Err(Error::Decode));
    let mut longer = encoded.clone();
    longer.push(0);
    assert_eq!(decode_header(&longer[..]), Err(Error::Decode));
    encoded[12] = 2;
    assert_eq!(decode_header(&encoded[..]), Err(Error::Decode));
    let mut bad_status = encode_header(&sample_header());
    bad_status[130] = 4;
    assert_eq!(decode_header(&bad_status[..]), Err(Error::Decode));
    assert_eq!(decode_cursor_key(&[0u8; 11]), Err(Error::Decode));
    assert_eq!(decode_certificate_id(&[0u8; 31]), Err(Error::Decode));
    assert_eq!(decode_header(&[]), Err(Error::Decode));
}

#[test]
fn settled_certificate_round_trips() {
    let v = SettledCertificate(Digest([2; 32]), 7, 0x0102, 9);
    let encoded = encode_settled(&v);
    assert_eq!(encoded.len(), 56);
    assert_eq!(encoded[..32], [2u8; 32]);
    assert_eq!(encoded[32..40], [0, 0, 0, 0, 0, 0, 0, 7]);
    assert_eq!(encoded[40..48], [0, 0, 0, 0, 0, 0, 1, 2]);
    assert_eq!(encoded[48..56], [0, 0, 0, 0, 0, 0, 0, 9]);
    assert_eq!(decode_settled(&encoded[..]), Ok(v));
    assert_eq!(decode_settled(&encoded[..55]), Err(Error::Decode));
}

#[test]
fn smt_values_round_trip() {
    let node = SmtValue::Node(Digest([1; 32]), Digest([2; 32]));
    let encoded = encode_smt_value(&node);
    assert_eq!(encoded.len(), 68);
    assert_eq!(encoded[..4], [0, 0, 0, 0]);
    assert_eq!(encoded[36..68], [2u8; 32]);
    assert_eq!(decode_smt_value(&encoded[..]), Ok(node));
    let leaf = SmtValue::Leaf(Digest([3; 32]));
    let encoded = encode_smt_value(&leaf);
    assert_eq!(encoded.len(), 36);
    assert_eq!(encoded[..4], [0, 0, 0, 1]);
    assert_eq!(decode_smt_value(&encoded[..]), Ok(leaf));
    let mut wrong_tag = encoded.clone();
    wrong_tag[3] = 0;
    assert_eq!(decode_smt_value(&wrong_tag[..]), Err(Error::Decode));
}

#[test]
fn tree_keys_round_trip() {
    let exit = ExitTreeKey { network_id: 2, layer: 31, index: 0x0a0b };
    let encoded = encode_exit_key(&exit);
    assert_eq!(encoded, vec![0, 0, 0, 2, 31, 0, 0, 0x0a, 0x0b]);
    assert_eq!(decode_exit_key(&encoded[..]), Ok(exit));
    let root = SmtKey { network_id: 5, key_type: SmtKeyType::Root };
    let encoded = encode_smt_key(&root);
    assert_eq!(encoded, vec![0, 0, 0, 5, 0, 0, 0, 0]);
    assert_eq!(decode_smt_key(&encoded[..]), Ok(root));
    let node = SmtKey { network_id: 5, key_type: SmtKeyType::Node(Digest([4; 32])) };
    let encoded = encode_smt_key(&node);
    assert_eq!(encoded.len(), 40);
    assert_eq!(encoded[4..8], [0, 0, 0, 1]);
    assert_eq!(decode_smt_key(&encoded[..]), Ok(node));
    assert_eq!(decode_smt_key(&encoded[..39]), Err(Error::Decode));
}
