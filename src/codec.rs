use crate::error::Error;
use crate::types::{
    CertificateHeader, CertificatePerNetworkKey, CertificateStatus, Digest, ExitTreeKey,
    SettledCertificate, SmtKey, SmtKeyType, SmtValue,
};
use vstd::prelude::*;

verus! {

broadcast use vstd::array::group_array_axioms;

/// Big-endian bytes of a `u32`.
pub open spec fn u32_be(x: u32) -> Seq<u8> {
    seq![(x >> 24u32) as u8, (x >> 16u32) as u8, (x >> 8u32) as u8, x as u8]
}

/// The `u32` whose big-endian bytes start `s`.
pub open spec fn u32_of(s: Seq<u8>) -> u32 {
    ((s[0] as u32) << 24u32) | ((s[1] as u32) << 16u32) | ((s[2] as u32) << 8u32) | (s[3] as u32)
}

/// Big-endian bytes of a `u64`.
pub open spec fn u64_be(x: u64) -> Seq<u8> {
    u32_be((x >> 32u64) as u32) + u32_be(x as u32)
}

/// The `u64` whose big-endian bytes start `s`.
pub open spec fn u64_of(s: Seq<u8>) -> u64 {
    ((u32_of(s) as u64) << 32u64) | (u32_of(s.subrange(4, 8)) as u64)
}

pub proof fn lemma_u32_round_trip(x: u32)
    ensures
        u32_of(u32_be(x)) == x,
{
    let b0 = (x >> 24u32) as u8;
    let b1 = (x >> 16u32) as u8;
    let b2 = (x >> 8u32) as u8;
    let b3 = x as u8;
    assert(((b0 as u32) << 24u32) | ((b1 as u32) << 16u32) | ((b2 as u32) << 8u32) | (b3 as u32) == x) by (bit_vector)
        requires
            b0 == (x >> 24u32) as u8,
            b1 == (x >> 16u32) as u8,
            b2 == (x >> 8u32) as u8,
            b3 == x as u8,
    ;
}

pub proof fn lemma_u32_bytes(s: Seq<u8>)
    requires
        s.len() >= 4,
    ensures
        u32_be(u32_of(s)) == s.subrange(0, 4),
{
    let (b0, b1, b2, b3) = (s[0], s[1], s[2], s[3]);
    let x = u32_of(s);
    assert((x >> 24u32) as u8 == b0 && (x >> 16u32) as u8 == b1 && (x >> 8u32) as u8 == b2 && x as u8 == b3) by (bit_vector)
        requires
            x == ((b0 as u32) << 24u32) | ((b1 as u32) << 16u32) | ((b2 as u32) << 8u32) | (b3 as u32),
    ;
    assert(u32_be(x) =~= s.subrange(0, 4));
}

pub proof fn lemma_u64_round_trip(x: u64)
    ensures
        u64_of(u64_be(x)) == x,
{
    let hi = (x >> 32u64) as u32;
    let lo = x as u32;
    lemma_u32_round_trip(hi);
    lemma_u32_round_trip(lo);
    assert(u64_be(x).subrange(4, 8) =~= u32_be(lo));
    assert(u32_of(u64_be(x)) == u32_of(u32_be(hi)));
    assert(((hi as u64) << 32u64) | (lo as u64) == x) by (bit_vector)
        requires
            hi == (x >> 32u64) as u32,
            lo == x as u32,
    ;
}

pub proof fn lemma_u64_bytes(s: Seq<u8>)
    requires
        s.len() >= 8,
    ensures
        u64_be(u64_of(s)) == s.subrange(0, 8),
{
    let hi = u32_of(s);
    let lo = u32_of(s.subrange(4, 8));
    let x = u64_of(s);
    assert((x >> 32u64) as u32 == hi && x as u32 == lo) by (bit_vector)
        requires
            x == ((hi as u64) << 32u64) | (lo as u64),
    ;
    lemma_u32_bytes(s);
    lemma_u32_bytes(s.subrange(4, 8));
    assert(s.subrange(4, 8).subrange(0, 4) =~= s.subrange(4, 8));
    assert(u64_be(x) =~= s.subrange(0, 8));
}

pub fn put_u32(out: &mut Vec<u8>, x: u32)
    ensures
        final(out)@ == old(out)@ + u32_be(x),
{
    out.push((x >> 24u32) as u8);
    out.push((x >> 16u32) as u8);
    out.push((x >> 8u32) as u8);
    out.push(x as u8);
    proof {
        assert(out@ =~= old(out)@ + u32_be(x));
    }
}

pub fn put_u64(out: &mut Vec<u8>, x: u64)
    ensures
        final(out)@ == old(out)@ + u64_be(x),
{
    put_u32(out, (x >> 32u64) as u32);
    put_u32(out, x as u32);
    proof {
        assert(out@ =~= old(out)@ + u64_be(x));
    }
}

pub fn put_digest(out: &mut Vec<u8>, d: &Digest)
    ensures
        final(out)@ == old(out)@ + d.0@,
{
    let mut i: usize = 0;
    while i < 32
        invariant
            0 <= i <= 32,
            out@ == old(out)@ + d.0@.subrange(0, i as int),
        decreases 32 - i,
    {
        out.push(d.0[i]);
        proof {
            assert(out@ =~= old(out)@ + d.0@.subrange(0, i + 1));
        }
        i = i + 1;
    }
    proof {
        assert(d.0@.subrange(0, 32) =~= d.0@);
    }
}

pub fn get_u32(b: &[u8], p: usize) -> (r: u32)
    requires
        p + 4 <= b@.len(),
    ensures
        r == u32_of(b@.subrange(p as int, b@.len() as int)),
{
    ((b[p] as u32) << 24u32) | ((b[p + 1] as u32) << 16u32) | ((b[p + 2] as u32) << 8u32) | (b[p + 3] as u32)
}

pub fn get_u64(b: &[u8], p: usize) -> (r: u64)
    requires
        p + 8 <= b@.len(),
    ensures
        r == u64_of(b@.subrange(p as int, b@.len() as int)),
{
    let len = b.len();
    assert(p + 8 <= len);
    let hi = get_u32(b, p);
    let lo = get_u32(b, p + 4);
    proof {
        assert(b@.subrange(p as int, b@.len() as int).subrange(4, 8).subrange(0, 4)
            =~= b@.subrange(p + 4, b@.len() as int).subrange(0, 4));
        assert(b@.subrange(p as int, b@.len() as int).subrange(4, 8) =~= b@.subrange(p + 4, p + 8));
    }
    ((hi as u64) << 32u64) | (lo as u64)
}

/// Tag of a status in the persisted header.
pub open spec fn status_tag(s: CertificateStatus) -> u32 {
    match s {
        CertificateStatus::Pending => 0,
        CertificateStatus::Proven => 1,
        CertificateStatus::Candidate => 2,
        CertificateStatus::Settled => 3,
    }
}

pub open spec fn status_of(t: u32) -> Option<CertificateStatus> {
    if t == 0 {
        Some(CertificateStatus::Pending)
    } else if t == 1 {
        Some(CertificateStatus::Proven)
    } else if t == 2 {
        Some(CertificateStatus::Candidate)
    } else if t == 3 {
        Some(CertificateStatus::Settled)
    } else {
        None
    }
}

/// A presence byte, then the value if present.
pub open spec fn opt_u64_bytes(o: Option<u64>) -> Seq<u8> {
    match o {
        None => seq![0u8],
        Some(x) => seq![1u8] + u64_be(x),
    }
}

pub open spec fn opt_digest_bytes(o: Option<Digest>) -> Seq<u8> {
    match o {
        None => seq![0u8],
        Some(d) => seq![1u8] + d.0@,
    }
}

/// The persisted bytes of a certificate header.
pub open spec fn header_bytes(h: CertificateHeader) -> Seq<u8> {
    u32_be(h.network_id) + u64_be(h.height) + opt_u64_bytes(h.epoch_number) + opt_u64_bytes(h.certificate_index)
        + h.certificate_id.0@ + h.new_local_exit_root.0@ + h.metadata.0@ + opt_digest_bytes(h.tx_hash)
        + u32_be(status_tag(h.status))
}

/// The digest whose bytes are the 32 from `p` on.
pub open spec fn digest_at(b: Seq<u8>, p: int) -> Digest {
    choose|d: Digest| d.0@ == b.subrange(p, p + 32)
}

/// An optional `u64` at `p`, and where what follows it starts.
pub open spec fn opt_u64_at(b: Seq<u8>, p: int) -> Option<(Option<u64>, int)> {
    if p + 1 <= b.len() && b[p] == 0 {
        Some((None, p + 1))
    } else if p + 9 <= b.len() && b[p] == 1 {
        Some((Some(u64_of(b.subrange(p + 1, b.len() as int))), p + 9))
    } else {
        None
    }
}

pub open spec fn opt_digest_at(b: Seq<u8>, p: int) -> Option<(Option<Digest>, int)> {
    if p + 1 <= b.len() && b[p] == 0 {
        Some((None, p + 1))
    } else if p + 33 <= b.len() && b[p] == 1 {
        Some((Some(digest_at(b, p + 1)), p + 33))
    } else {
        None
    }
}

/// The header that `b` holds, if it holds exactly one.
pub open spec fn parse_header(b: Seq<u8>) -> Option<CertificateHeader> {
    if b.len() < 12 {
        None
    } else {
        match opt_u64_at(b, 12) {
            None => None,
            Some((e, after_epoch)) => match opt_u64_at(b, after_epoch) {
                None => None,
                Some((i, after_index)) => if after_index + 96 > b.len() {
                    None
                } else {
                    match opt_digest_at(b, after_index + 96) {
                        None => None,
                        Some((tx, after_tx)) => if after_tx + 4 != b.len() {
                            None
                        } else {
                            match status_of(u32_of(b.subrange(after_tx, b.len() as int))) {
                                None => None,
                                Some(st) => Some(CertificateHeader {
                                    network_id: u32_of(b),
                                    height: u64_of(b.subrange(4, b.len() as int)),
                                    epoch_number: e,
                                    certificate_index: i,
                                    certificate_id: digest_at(b, after_index),
                                    new_local_exit_root: digest_at(b, after_index + 32),
                                    metadata: digest_at(b, after_index + 64),
                                    tx_hash: tx,
                                    status: st,
                                }),
                            }
                        },
                    }
                },
            },
        }
    }
}

pub proof fn lemma_digest_at(b: Seq<u8>, p: int, d: Digest)
    requires
        0 <= p,
        p + 32 <= b.len(),
        b.subrange(p, p + 32) == d.0@,
    ensures
        digest_at(b, p) == d,
{
    let c = digest_at(b, p);
    assert(c.0@ == b.subrange(p, p + 32));
    assert(c.0 =~= d.0) by {
        assert forall|i: int| 0 <= i < 32 implies c.0[i] == d.0[i] by {
            assert(c.0@[i] == d.0@[i]);
        }
    }
}

/// Where each field of a header stands in its bytes.
proof fn lemma_header_layout(h: CertificateHeader)
    ensures
        ({
            let b = header_bytes(h);
            let after_epoch = 12 + opt_u64_bytes(h.epoch_number).len() as int;
            let after_index = after_epoch + opt_u64_bytes(h.certificate_index).len() as int;
            let after_tx = after_index + 96 + opt_digest_bytes(h.tx_hash).len() as int;
            &&& b.len() == after_tx + 4
            &&& b.subrange(0, 4) == u32_be(h.network_id)
            &&& b.subrange(4, 12) == u64_be(h.height)
            &&& b.subrange(12, after_epoch) == opt_u64_bytes(h.epoch_number)
            &&& b.subrange(after_epoch, after_index) == opt_u64_bytes(h.certificate_index)
            &&& b.subrange(after_index, after_index + 32) == h.certificate_id.0@
            &&& b.subrange(after_index + 32, after_index + 64) == h.new_local_exit_root.0@
            &&& b.subrange(after_index + 64, after_index + 96) == h.metadata.0@
            &&& b.subrange(after_index + 96, after_tx) == opt_digest_bytes(h.tx_hash)
            &&& b.subrange(after_tx, after_tx + 4) == u32_be(status_tag(h.status))
        }),
{
    let s1 = u32_be(h.network_id);
    let s2 = s1 + u64_be(h.height);
    let s3 = s2 + opt_u64_bytes(h.epoch_number);
    let s4 = s3 + opt_u64_bytes(h.certificate_index);
    let s5 = s4 + h.certificate_id.0@;
    let s6 = s5 + h.new_local_exit_root.0@;
    let s7 = s6 + h.metadata.0@;
    let s8 = s7 + opt_digest_bytes(h.tx_hash);
    let b = s8 + u32_be(status_tag(h.status));
    assert(b == header_bytes(h));
    assert(b.subrange(0, 4) =~= s1);
    assert(b.subrange(4, 12) =~= u64_be(h.height));
    assert(b.subrange(12, s3.len() as int) =~= opt_u64_bytes(h.epoch_number));
    assert(b.subrange(s3.len() as int, s4.len() as int) =~= opt_u64_bytes(h.certificate_index));
    assert(b.subrange(s4.len() as int, s5.len() as int) =~= h.certificate_id.0@);
    assert(b.subrange(s5.len() as int, s6.len() as int) =~= h.new_local_exit_root.0@);
    assert(b.subrange(s6.len() as int, s7.len() as int) =~= h.metadata.0@);
    assert(b.subrange(s7.len() as int, s8.len() as int) =~= opt_digest_bytes(h.tx_hash));
    assert(b.subrange(s8.len() as int, b.len() as int) =~= u32_be(status_tag(h.status)));
}

proof fn lemma_u64_in(b: Seq<u8>, p: int, x: u64)
    requires
        0 <= p,
        p + 8 <= b.len(),
        b.subrange(p, p + 8) == u64_be(x),
    ensures
        u64_of(b.subrange(p, b.len() as int)) == x,
{
    lemma_u64_round_trip(x);
    let t = b.subrange(p, b.len() as int);
    assert(t[0] == u64_be(x)[0] && t[1] == u64_be(x)[1] && t[2] == u64_be(x)[2] && t[3] == u64_be(x)[3]);
    assert(t.subrange(4, 8) =~= u64_be(x).subrange(4, 8));
}

proof fn lemma_opt_u64_in(b: Seq<u8>, p: int, o: Option<u64>)
    requires
        0 <= p,
        p + opt_u64_bytes(o).len() <= b.len(),
        b.subrange(p, p + opt_u64_bytes(o).len()) == opt_u64_bytes(o),
    ensures
        opt_u64_at(b, p) == Some((o, p + opt_u64_bytes(o).len())),
{
    assert(b[p] == b.subrange(p, p + opt_u64_bytes(o).len())[0]);
    if let Some(x) = o {
        assert(b.subrange(p + 1, p + 9) =~= b.subrange(p, p + 9).subrange(1, 9));
        assert(opt_u64_bytes(o).subrange(1, 9) =~= u64_be(x));
        lemma_u64_in(b, p + 1, x);
    }
}

proof fn lemma_opt_digest_in(b: Seq<u8>, p: int, o: Option<Digest>)
    requires
        0 <= p,
        p + opt_digest_bytes(o).len() <= b.len(),
        b.subrange(p, p + opt_digest_bytes(o).len()) == opt_digest_bytes(o),
    ensures
        opt_digest_at(b, p) == Some((o, p + opt_digest_bytes(o).len())),
{
    assert(b[p] == b.subrange(p, p + opt_digest_bytes(o).len())[0]);
    if let Some(d) = o {
        assert(b.subrange(p + 1, p + 33) =~= b.subrange(p, p + 33).subrange(1, 33));
        assert(opt_digest_bytes(o).subrange(1, 33) =~= d.0@);
        lemma_digest_at(b, p + 1, d);
    }
}

/// Decoding the bytes of a header gives that header back.
pub proof fn law_header_round_trip(h: CertificateHeader)
    ensures
        parse_header(header_bytes(h)) == Some(h),
{
    let b = header_bytes(h);
    lemma_header_layout(h);
    let after_epoch = 12 + opt_u64_bytes(h.epoch_number).len() as int;
    let after_index = after_epoch + opt_u64_bytes(h.certificate_index).len() as int;
    let after_tx = after_index + 96 + opt_digest_bytes(h.tx_hash).len() as int;
    lemma_u32_round_trip(h.network_id);
    assert(u32_of(b) == u32_of(u32_be(h.network_id))) by {
        assert(b[0] == b.subrange(0, 4)[0] && b[1] == b.subrange(0, 4)[1]);
        assert(b[2] == b.subrange(0, 4)[2] && b[3] == b.subrange(0, 4)[3]);
    }
    lemma_u64_in(b, 4, h.height);
    lemma_opt_u64_in(b, 12, h.epoch_number);
    lemma_opt_u64_in(b, after_epoch, h.certificate_index);
    lemma_digest_at(b, after_index, h.certificate_id);
    lemma_digest_at(b, after_index + 32, h.new_local_exit_root);
    lemma_digest_at(b, after_index + 64, h.metadata);
    lemma_opt_digest_in(b, after_index + 96, h.tx_hash);
    lemma_u32_round_trip(status_tag(h.status));
    let t = b.subrange(after_tx, b.len() as int);
    assert(t =~= u32_be(status_tag(h.status)));
}

pub fn put_opt_u64(out: &mut Vec<u8>, o: Option<u64>)
    ensures
        final(out)@ == old(out)@ + opt_u64_bytes(o),
{
    match o {
        None => out.push(0u8),
        Some(x) => {
            out.push(1u8);
            put_u64(out, x);
        },
    }
    proof {
        assert(out@ =~= old(out)@ + opt_u64_bytes(o));
    }
}

/// The persisted bytes of a certificate header.
pub fn encode_header(h: &CertificateHeader) -> (r: Vec<u8>)
    ensures
        r@ == header_bytes(*h),
{
    let mut out: Vec<u8> = Vec::new();
    put_u32(&mut out, h.network_id);
    put_u64(&mut out, h.height);
    put_opt_u64(&mut out, h.epoch_number);
    put_opt_u64(&mut out, h.certificate_index);
    put_digest(&mut out, &h.certificate_id);
    put_digest(&mut out, &h.new_local_exit_root);
    put_digest(&mut out, &h.metadata);
    match h.tx_hash {
        None => out.push(0u8),
        Some(d) => {
            out.push(1u8);
            put_digest(&mut out, &d);
        },
    }
    let tag: u32 = match h.status {
        CertificateStatus::Pending => 0,
        CertificateStatus::Proven => 1,
        CertificateStatus::Candidate => 2,
        CertificateStatus::Settled => 3,
    };
    put_u32(&mut out, tag);
    proof {
        assert(out@ =~= header_bytes(*h));
    }
    out
}

pub fn get_digest(b: &[u8], p: usize) -> (r: Digest)
    requires
        p + 32 <= b@.len(),
    ensures
        r == digest_at(b@, p as int),
        r.0@ == b@.subrange(p as int, p + 32),
{
    let len = b.len();
    let mut a = [0u8; 32];
    let mut i: usize = 0;
    while i < 32
        invariant
            0 <= i <= 32,
            len == b@.len(),
            p + 32 <= len,
            forall|j: int| 0 <= j < i ==> a[j] == b@[p + j],
        decreases 32 - i,
    {
        a[i] = b[p + i];
        i = i + 1;
    }
    let d = Digest(a);
    proof {
        assert(d.0@ =~= b@.subrange(p as int, p + 32));
        lemma_digest_at(b@, p as int, d);
    }
    d
}

fn get_opt_u64(b: &[u8], p: usize) -> (r: Option<(Option<u64>, usize)>)
    ensures
        match opt_u64_at(b@, p as int) {
            None => r is None,
            Some((o, q)) => r == Some((o, q as usize)),
        },
{
    let len = b.len();
    if p < len && b[p] == 0 {
        Some((None, p + 1))
    } else if p < len && len - p >= 9 && b[p] == 1 {
        Some((Some(get_u64(b, p + 1)), p + 9))
    } else {
        None
    }
}

/// The header that `b` holds; `Decode` unless `b` is exactly one header's bytes.
pub fn decode_header(b: &[u8]) -> (r: Result<CertificateHeader, Error>)
    ensures
        r == match parse_header(b@) {
            Some(h) => Ok::<CertificateHeader, Error>(h),
            None => Err(Error::Decode),
        },
{
    let len = b.len();
    if len < 12 {
        return Err(Error::Decode);
    }
    let (epoch_number, after_epoch) = match get_opt_u64(b, 12) {
        None => return Err(Error::Decode),
        Some(x) => x,
    };
    let (certificate_index, after_index) = match get_opt_u64(b, after_epoch) {
        None => return Err(Error::Decode),
        Some(x) => x,
    };
    if after_index > len || len - after_index < 96 {
        return Err(Error::Decode);
    }
    let p = after_index + 96;
    let (tx_hash, after_tx) = if p < len && b[p] == 0 {
        (None, p + 1)
    } else if p < len && len - p >= 33 && b[p] == 1 {
        (Some(get_digest(b, p + 1)), p + 33)
    } else {
        return Err(Error::Decode);
    };
    if after_tx > len || len - after_tx != 4 {
        return Err(Error::Decode);
    }
    let tag = get_u32(b, after_tx);
    let status = if tag == 0 {
        CertificateStatus::Pending
    } else if tag == 1 {
        CertificateStatus::Proven
    } else if tag == 2 {
        CertificateStatus::Candidate
    } else if tag == 3 {
        CertificateStatus::Settled
    } else {
        return Err(Error::Decode);
    };
    Ok(CertificateHeader {
        network_id: get_u32(b, 0),
        height: get_u64(b, 4),
        epoch_number,
        certificate_index,
        certificate_id: get_digest(b, after_index),
        new_local_exit_root: get_digest(b, after_index + 32),
        metadata: get_digest(b, after_index + 64),
        tx_hash,
        status,
    })
}

/// The persisted bytes of a certificate-per-network key.
pub open spec fn cursor_key_bytes(k: CertificatePerNetworkKey) -> Seq<u8> {
    u32_be(k.network_id) + u64_be(k.height)
}

/// The key that `b` holds, if it is exactly one key's bytes.
pub open spec fn parse_cursor_key(b: Seq<u8>) -> Option<CertificatePerNetworkKey> {
    if b.len() == 12 {
        Some(CertificatePerNetworkKey { network_id: u32_of(b), height: u64_of(b.subrange(4, 12)) })
    } else {
        None
    }
}

/// Decoding the bytes of a certificate-per-network key gives that key back.
pub proof fn law_cursor_key_round_trip(k: CertificatePerNetworkKey)
    ensures
        parse_cursor_key(cursor_key_bytes(k)) == Some(k),
{
    let b = cursor_key_bytes(k);
    lemma_u32_round_trip(k.network_id);
    assert(b.subrange(0, 4) =~= u32_be(k.network_id));
    assert(u32_of(b) == u32_of(u32_be(k.network_id))) by {
        assert(b[0] == b.subrange(0, 4)[0] && b[1] == b.subrange(0, 4)[1]);
        assert(b[2] == b.subrange(0, 4)[2] && b[3] == b.subrange(0, 4)[3]);
    }
    assert(b.subrange(4, 12) =~= u64_be(k.height));
    lemma_u64_in(b, 4, k.height);
    assert(b.subrange(4, b.len() as int) =~= b.subrange(4, 12));
}

pub fn encode_cursor_key(k: &CertificatePerNetworkKey) -> (r: Vec<u8>)
    ensures
        r@ == cursor_key_bytes(*k),
{
    let mut out: Vec<u8> = Vec::new();
    put_u32(&mut out, k.network_id);
    put_u64(&mut out, k.height);
    proof {
        assert(out@ =~= cursor_key_bytes(*k));
    }
    out
}

/// The key that `b` holds; `Decode` unless `b` is exactly 12 bytes.
pub fn decode_cursor_key(b: &[u8]) -> (r: Result<CertificatePerNetworkKey, Error>)
    ensures
        r == match parse_cursor_key(b@) {
            Some(k) => Ok::<CertificatePerNetworkKey, Error>(k),
            None => Err(Error::Decode),
        },
{
    if b.len() != 12 {
        return Err(Error::Decode);
    }
    let network_id = get_u32(b, 0);
    let height = get_u64(b, 4);
    proof {
        assert(b@.subrange(0, 12) =~= b@);
        assert(b@.subrange(4, 12) =~= b@.subrange(4, b@.len() as int));
        assert(b@.subrange(0, b@.len() as int) =~= b@);
    }
    Ok(CertificatePerNetworkKey { network_id, height })
}

/// The persisted bytes of a certificate id: its 32 bytes.
pub fn encode_certificate_id(id: &Digest) -> (r: Vec<u8>)
    ensures
        r@ == id.0@,
{
    let mut out: Vec<u8> = Vec::new();
    put_digest(&mut out, id);
    proof {
        assert(out@ =~= id.0@);
    }
    out
}

/// The certificate id that `b` holds; `Decode` unless `b` is exactly 32 bytes.
pub fn decode_certificate_id(b: &[u8]) -> (r: Result<Digest, Error>)
    ensures
        b@.len() == 32 <==> r is Ok,
        r matches Ok(d) ==> d.0@ == b@,
        r is Err ==> r == Err::<Digest, Error>(Error::Decode),
{
    if b.len() != 32 {
        return Err(Error::Decode);
    }
    let d = get_digest(b, 0);
    proof {
        assert(b@.subrange(0, 32) =~= b@);
    }
    Ok(d)
}

proof fn lemma_u32_in(b: Seq<u8>, p: int, x: u32)
    requires
        0 <= p,
        p + 4 <= b.len(),
        b.subrange(p, p + 4) == u32_be(x),
    ensures
        u32_of(b.subrange(p, b.len() as int)) == x,
{
    lemma_u32_round_trip(x);
    let t = b.subrange(p, b.len() as int);
    assert(t[0] == u32_be(x)[0] && t[1] == u32_be(x)[1] && t[2] == u32_be(x)[2] && t[3] == u32_be(x)[3]);
}

/// The persisted bytes of a latest settled certificate: id, height, epoch, index.
pub open spec fn settled_bytes(v: SettledCertificate) -> Seq<u8> {
    v.0.0@ + u64_be(v.1) + u64_be(v.2) + u64_be(v.3)
}

pub open spec fn parse_settled(b: Seq<u8>) -> Option<SettledCertificate> {
    if b.len() == 56 {
        Some(SettledCertificate(
            digest_at(b, 0),
            u64_of(b.subrange(32, b.len() as int)),
            u64_of(b.subrange(40, b.len() as int)),
            u64_of(b.subrange(48, b.len() as int)),
        ))
    } else {
        None
    }
}

/// Decoding the bytes of a latest settled certificate gives it back.
pub proof fn law_settled_round_trip(v: SettledCertificate)
    ensures
        parse_settled(settled_bytes(v)) == Some(v),
{
    let b = settled_bytes(v);
    assert(b.subrange(0, 32) =~= v.0.0@);
    assert(b.subrange(32, 40) =~= u64_be(v.1));
    assert(b.subrange(40, 48) =~= u64_be(v.2));
    assert(b.subrange(48, 56) =~= u64_be(v.3));
    lemma_digest_at(b, 0, v.0);
    lemma_u64_in(b, 32, v.1);
    lemma_u64_in(b, 40, v.2);
    lemma_u64_in(b, 48, v.3);
}

pub fn encode_settled(v: &SettledCertificate) -> (r: Vec<u8>)
    ensures
        r@ == settled_bytes(*v),
{
    let mut out: Vec<u8> = Vec::new();
    put_digest(&mut out, &v.0);
    put_u64(&mut out, v.1);
    put_u64(&mut out, v.2);
    put_u64(&mut out, v.3);
    proof {
        assert(out@ =~= settled_bytes(*v));
    }
    out
}

/// The latest settled certificate that `b` holds; `Decode` unless `b` is exactly 56 bytes.
pub fn decode_settled(b: &[u8]) -> (r: Result<SettledCertificate, Error>)
    ensures
        r == match parse_settled(b@) {
            Some(v) => Ok::<SettledCertificate, Error>(v),
            None => Err(Error::Decode),
        },
{
    if b.len() != 56 {
        return Err(Error::Decode);
    }
    Ok(SettledCertificate(get_digest(b, 0), get_u64(b, 32), get_u64(b, 40), get_u64(b, 48)))
}

/// The persisted bytes of a sparse Merkle tree entry: a tag, then the hashes.
pub open spec fn smt_value_bytes(v: SmtValue) -> Seq<u8> {
    match v {
        SmtValue::Node(l, r) => u32_be(0) + l.0@ + r.0@,
        SmtValue::Leaf(h) => u32_be(1) + h.0@,
    }
}

pub open spec fn parse_smt_value(b: Seq<u8>) -> Option<SmtValue> {
    if b.len() == 68 && u32_of(b) == 0 {
        Some(SmtValue::Node(digest_at(b, 4), digest_at(b, 36)))
    } else if b.len() == 36 && u32_of(b) == 1 {
        Some(SmtValue::Leaf(digest_at(b, 4)))
    } else {
        None
    }
}

/// Decoding the bytes of a sparse Merkle tree entry gives it back.
pub proof fn law_smt_value_round_trip(v: SmtValue)
    ensures
        parse_smt_value(smt_value_bytes(v)) == Some(v),
{
    let b = smt_value_bytes(v);
    match v {
        SmtValue::Node(l, r) => {
            assert(b.subrange(0, 4) =~= u32_be(0));
            assert(b.subrange(4, 36) =~= l.0@);
            assert(b.subrange(36, 68) =~= r.0@);
            lemma_u32_in(b, 0, 0);
            assert(b.subrange(0, b.len() as int) =~= b);
            lemma_digest_at(b, 4, l);
            lemma_digest_at(b, 36, r);
        },
        SmtValue::Leaf(h) => {
            assert(b.subrange(0, 4) =~= u32_be(1));
            assert(b.subrange(4, 36) =~= h.0@);
            lemma_u32_in(b, 0, 1);
            assert(b.subrange(0, b.len() as int) =~= b);
            lemma_digest_at(b, 4, h);
        },
    }
}

pub fn encode_smt_value(v: &SmtValue) -> (r: Vec<u8>)
    ensures
        r@ == smt_value_bytes(*v),
{
    let mut out: Vec<u8> = Vec::new();
    match v {
        SmtValue::Node(l, r) => {
            put_u32(&mut out, 0);
            put_digest(&mut out, l);
            put_digest(&mut out, r);
        },
        SmtValue::Leaf(h) => {
            put_u32(&mut out, 1);
            put_digest(&mut out, h);
        },
    }
    proof {
        assert(out@ =~= smt_value_bytes(*v));
    }
    out
}

/// The sparse Merkle tree entry that `b` holds; `Decode` unless `b` is one.
pub fn decode_smt_value(b: &[u8]) -> (r: Result<SmtValue, Error>)
    ensures
        r == match parse_smt_value(b@) {
            Some(v) => Ok::<SmtValue, Error>(v),
            None => Err(Error::Decode),
        },
{
    if b.len() < 4 {
        return Err(Error::Decode);
    }
    let tag = get_u32(b, 0);
    proof {
        assert(b@.subrange(0, b@.len() as int) =~= b@);
    }
    if b.len() == 68 && tag == 0 {
        Ok(SmtValue::Node(get_digest(b, 4), get_digest(b, 36)))
    } else if b.len() == 36 && tag == 1 {
        Ok(SmtValue::Leaf(get_digest(b, 4)))
    } else {
        Err(Error::Decode)
    }
}

/// The persisted bytes of an exit tree key: network, layer, index.
pub open spec fn exit_key_bytes(k: ExitTreeKey) -> Seq<u8> {
    u32_be(k.network_id) + seq![k.layer] + u32_be(k.index)
}

pub open spec fn parse_exit_key(b: Seq<u8>) -> Option<ExitTreeKey> {
    if b.len() == 9 {
        Some(ExitTreeKey { network_id: u32_of(b), layer: b[4], index: u32_of(b.subrange(5, b.len() as int)) })
    } else {
        None
    }
}

/// Decoding the bytes of an exit tree key gives it back.
pub proof fn law_exit_key_round_trip(k: ExitTreeKey)
    ensures
        parse_exit_key(exit_key_bytes(k)) == Some(k),
{
    let b = exit_key_bytes(k);
    assert(b.subrange(0, 4) =~= u32_be(k.network_id));
    assert(b.subrange(5, 9) =~= u32_be(k.index));
    lemma_u32_in(b, 0, k.network_id);
    assert(b.subrange(0, b.len() as int) =~= b);
    lemma_u32_in(b, 5, k.index);
}

pub fn encode_exit_key(k: &ExitTreeKey) -> (r: Vec<u8>)
    ensures
        r@ == exit_key_bytes(*k),
{
    let mut out: Vec<u8> = Vec::new();
    put_u32(&mut out, k.network_id);
    out.push(k.layer);
    put_u32(&mut out, k.index);
    proof {
        assert(out@ =~= exit_key_bytes(*k));
    }
    out
}

/// The exit tree key that `b` holds; `Decode` unless `b` is exactly 9 bytes.
pub fn decode_exit_key(b: &[u8]) -> (r: Result<ExitTreeKey, Error>)
    ensures
        r == match parse_exit_key(b@) {
            Some(k) => Ok::<ExitTreeKey, Error>(k),
            None => Err(Error::Decode),
        },
{
    if b.len() != 9 {
        return Err(Error::Decode);
    }
    let network_id = get_u32(b, 0);
    proof {
        assert(b@.subrange(0, b@.len() as int) =~= b@);
    }
    Ok(ExitTreeKey { network_id, layer: b[4], index: get_u32(b, 5) })
}

/// The persisted bytes of a sparse Merkle tree key: network, then a tag and
/// the node's hash, or the root sentinel's tag alone.
pub open spec fn smt_key_bytes(k: SmtKey) -> Seq<u8> {
    match k.key_type {
        SmtKeyType::Root => u32_be(k.network_id) + u32_be(0),
        SmtKeyType::Node(h) => u32_be(k.network_id) + u32_be(1) + h.0@,
    }
}

pub open spec fn parse_smt_key(b: Seq<u8>) -> Option<SmtKey> {
    if b.len() == 8 && u32_of(b.subrange(4, b.len() as int)) == 0 {
        Some(SmtKey { network_id: u32_of(b), key_type: SmtKeyType::Root })
    } else if b.len() == 40 && u32_of(b.subrange(4, b.len() as int)) == 1 {
        Some(SmtKey { network_id: u32_of(b), key_type: SmtKeyType::Node(digest_at(b, 8)) })
    } else {
        None
    }
}

/// Decoding the bytes of a sparse Merkle tree key gives it back.
pub proof fn law_smt_key_round_trip(k: SmtKey)
    ensures
        parse_smt_key(smt_key_bytes(k)) == Some(k),
{
    let b = smt_key_bytes(k);
    assert(b.subrange(0, 4) =~= u32_be(k.network_id));
    lemma_u32_in(b, 0, k.network_id);
    assert(b.subrange(0, b.len() as int) =~= b);
    match k.key_type {
        SmtKeyType::Root => {
            assert(b.subrange(4, 8) =~= u32_be(0));
            lemma_u32_in(b, 4, 0);
        },
        SmtKeyType::Node(h) => {
            assert(b.subrange(4, 8) =~= u32_be(1));
            assert(b.subrange(8, 40) =~= h.0@);
            lemma_u32_in(b, 4, 1);
            lemma_digest_at(b, 8, h);
        },
    }
}

pub fn encode_smt_key(k: &SmtKey) -> (r: Vec<u8>)
    ensures
        r@ == smt_key_bytes(*k),
{
    let mut out: Vec<u8> = Vec::new();
    put_u32(&mut out, k.network_id);
    match k.key_type {
        SmtKeyType::Root => put_u32(&mut out, 0),
        SmtKeyType::Node(h) => {
            put_u32(&mut out, 1);
            put_digest(&mut out, &h);
        },
    }
    proof {
        assert(out@ =~= smt_key_bytes(*k));
    }
    out
}

/// The sparse Merkle tree key that `b` holds; `Decode` unless `b` is one.
pub fn decode_smt_key(b: &[u8]) -> (r: Result<SmtKey, Error>)
    ensures
        r == match parse_smt_key(b@) {
            Some(k) => Ok::<SmtKey, Error>(k),
            None => Err(Error::Decode),
        },
{
    if b.len() < 8 {
        return Err(Error::Decode);
    }
    let network_id = get_u32(b, 0);
    let tag = get_u32(b, 4);
    proof {
        assert(b@.subrange(0, b@.len() as int) =~= b@);
    }
    if b.len() == 8 && tag == 0 {
        Ok(SmtKey { network_id, key_type: SmtKeyType::Root })
    } else if b.len() == 40 && tag == 1 {
        Ok(SmtKey { network_id, key_type: SmtKeyType::Node(get_digest(b, 8)) })
    } else {
        Err(Error::Decode)
    }
}

} // verus!
