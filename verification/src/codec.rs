//! The wire format: length-framed packets for certificates, armored
//! text around the binary form, and the fingerprint derived from the
//! primary key packet.

use vstd::prelude::*;
use vstd::pervasive::arbitrary;
use crate::cert::{
    Certificate, CertV, KeyPacket, KeyV, SigKind, SigPacket, SigV, SubkeyBundle, UidBundle,
    UidPacket, UidV, wf_cert, wf_sig, wf_sigs, wf_key, wf_uid, wf_bundle_k, wf_bundle_u,
    FIELD_LIMIT,
};
use crate::util::{le16, le16_val, le32, le32_val, le64, le64_val, all_ascii};
use crate::textenc::{b64_encode, b64_decode, lemma_b64_roundtrip, lemma_b64_encode_ascii};
use crate::crypto::sha256_of;

verus! {

/// One packet of the wire form.
pub enum Packet {
    Primary(KeyPacket),
    Subkey(KeyPacket),
    Uid(UidPacket),
    Sig(SigPacket),
}

#[verifier::ext_equal]
pub enum PacketV {
    Primary(KeyV),
    Subkey(KeyV),
    Uid(UidV),
    Sig(SigV),
}

impl View for Packet {
    type V = PacketV;

    open spec fn view(&self) -> PacketV {
        match self {
            Packet::Primary(k) => PacketV::Primary(k@),
            Packet::Subkey(k) => PacketV::Subkey(k@),
            Packet::Uid(u) => PacketV::Uid(u@),
            Packet::Sig(s) => PacketV::Sig(s@),
        }
    }
}

pub open spec fn wf_packet(p: PacketV) -> bool {
    match p {
        PacketV::Primary(k) => wf_key(k),
        PacketV::Subkey(k) => wf_key(k),
        PacketV::Uid(u) => wf_uid(u),
        PacketV::Sig(s) => wf_sig(s),
    }
}

// ---------------------------------------------------------------------
// Serialization
// ---------------------------------------------------------------------
pub open spec fn sig_kind_code(k: SigKind) -> u8 {
    match k {
        SigKind::SelfSig => 0,
        SigKind::SelfRevocation => 1,
        SigKind::ThirdPartyRevocation => 2,
        SigKind::Other => 3,
    }
}

pub open spec fn code_sig_kind(c: u8) -> SigKind {
    if c == 0 {
        SigKind::SelfSig
    } else if c == 1 {
        SigKind::SelfRevocation
    } else if c == 2 {
        SigKind::ThirdPartyRevocation
    } else {
        SigKind::Other
    }
}

pub open spec fn key_body(k: KeyV) -> Seq<u8> {
    seq![k.algorithm] + le16(k.bits) + le64(k.creation) + k.material
}

pub open spec fn sig_body(s: SigV) -> Seq<u8> {
    seq![sig_kind_code(s.kind)] + le64(s.creation) + le64(s.expiry) + s.data
}

pub open spec fn packet_tag(p: PacketV) -> u8 {
    match p {
        PacketV::Primary(_) => 1,
        PacketV::Subkey(_) => 2,
        PacketV::Uid(_) => 3,
        PacketV::Sig(_) => 4,
    }
}

pub open spec fn packet_body(p: PacketV) -> Seq<u8> {
    match p {
        PacketV::Primary(k) => key_body(k),
        PacketV::Subkey(k) => key_body(k),
        PacketV::Uid(u) => u.label,
        PacketV::Sig(s) => sig_body(s),
    }
}

pub open spec fn packet_bytes(p: PacketV) -> Seq<u8> {
    seq![packet_tag(p)] + le32(packet_body(p).len() as u32) + packet_body(p)
}

pub open spec fn ser_packets(ps: Seq<PacketV>) -> Seq<u8>
    decreases ps.len(),
{
    if ps.len() == 0 {
        Seq::empty()
    } else {
        packet_bytes(ps[0]) + ser_packets(ps.drop_first())
    }
}

pub open spec fn sig_packets(sigs: Seq<SigV>) -> Seq<PacketV> {
    sigs.map_values(|s: SigV| PacketV::Sig(s))
}

pub open spec fn flatten_subkeys(sks: Seq<(KeyV, Seq<SigV>)>) -> Seq<PacketV>
    decreases sks.len(),
{
    if sks.len() == 0 {
        Seq::empty()
    } else {
        seq![PacketV::Subkey(sks[0].0)] + sig_packets(sks[0].1) + flatten_subkeys(
            sks.drop_first(),
        )
    }
}

pub open spec fn flatten_uids(uids: Seq<(UidV, Seq<SigV>)>) -> Seq<PacketV>
    decreases uids.len(),
{
    if uids.len() == 0 {
        Seq::empty()
    } else {
        seq![PacketV::Uid(uids[0].0)] + sig_packets(uids[0].1) + flatten_uids(uids.drop_first())
    }
}

/// The packet sequence of a certificate: the primary key block, then
/// each subkey block, then each identity block.
pub open spec fn flatten_cert(c: CertV) -> Seq<PacketV> {
    seq![PacketV::Primary(c.primary)] + sig_packets(c.primary_sigs) + flatten_subkeys(c.subkeys)
        + flatten_uids(c.uids)
}

/// The binary form of a certificate.
pub open spec fn ser_cert(c: CertV) -> Seq<u8> {
    ser_packets(flatten_cert(c))
}

// ---------------------------------------------------------------------
// Parsing
// ---------------------------------------------------------------------
pub open spec fn parse_body(tag: u8, body: Seq<u8>) -> Option<PacketV> {
    if tag == 1 || tag == 2 {
        if body.len() >= 11 && body.len() < FIELD_LIMIT + 11 {
            let k = KeyV {
                algorithm: body[0],
                bits: le16_val(body.subrange(1, 3)),
                creation: le64_val(body.subrange(3, 11)),
                material: body.skip(11),
            };
            if tag == 1 {
                Some(PacketV::Primary(k))
            } else {
                Some(PacketV::Subkey(k))
            }
        } else {
            None
        }
    } else if tag == 3 {
        if 0 < body.len() < FIELD_LIMIT {
            Some(PacketV::Uid(UidV { label: body }))
        } else {
            None
        }
    } else if tag == 4 {
        if body.len() >= 17 && body.len() < FIELD_LIMIT + 17 && body[0] <= 3 {
            Some(
                PacketV::Sig(
                    SigV {
                        kind: code_sig_kind(body[0]),
                        creation: le64_val(body.subrange(1, 9)),
                        expiry: le64_val(body.subrange(9, 17)),
                        data: body.skip(17),
                    },
                ),
            )
        } else {
            None
        }
    } else {
        None
    }
}

pub open spec fn parse_packets(bs: Seq<u8>) -> Option<Seq<PacketV>>
    decreases bs.len(),
{
    if bs.len() == 0 {
        Some(Seq::empty())
    } else if bs.len() < 5 {
        None
    } else {
        let n = le32_val(bs.subrange(1, 5)) as int;
        if 5 + n > bs.len() {
            None
        } else {
            match parse_body(bs[0], bs.subrange(5, 5 + n)) {
                Some(p) => match parse_packets(bs.skip(5 + n)) {
                    Some(ps) => Some(seq![p] + ps),
                    None => None,
                },
                None => None,
            }
        }
    }
}

// ---------------------------------------------------------------------
// Assembling packets into a certificate
// ---------------------------------------------------------------------
pub open spec fn sig_of_packet(p: PacketV) -> SigV {
    match p {
        PacketV::Sig(s) => s,
        _ => arbitrary(),
    }
}

pub open spec fn key_of_packet(p: PacketV) -> KeyV {
    match p {
        PacketV::Primary(k) => k,
        PacketV::Subkey(k) => k,
        _ => arbitrary(),
    }
}

pub open spec fn uid_of_packet(p: PacketV) -> UidV {
    match p {
        PacketV::Uid(u) => u,
        _ => arbitrary(),
    }
}

/// How many signature packets stand at the front.
pub open spec fn leading_sigs(ps: Seq<PacketV>) -> int
    decreases ps.len(),
{
    if ps.len() > 0 && ps[0] is Sig {
        1 + leading_sigs(ps.drop_first())
    } else {
        0
    }
}

pub proof fn lemma_leading_sigs_bounds(ps: Seq<PacketV>)
    ensures
        0 <= leading_sigs(ps) <= ps.len(),
    decreases ps.len(),
{
    if ps.len() > 0 && ps[0] is Sig {
        lemma_leading_sigs_bounds(ps.drop_first());
    }
}

/// The leading count is exactly the scan's stopping point.
pub proof fn lemma_leading_sigs_eq(ps: Seq<PacketV>, n: int)
    requires
        0 <= n <= ps.len(),
        forall|j: int| 0 <= j < n ==> (#[trigger] ps[j]) is Sig,
        n == ps.len() || !(ps[n] is Sig),
    ensures
        leading_sigs(ps) == n,
    decreases ps.len(),
{
    if n == 0 {
    } else {
        assert(ps[0] is Sig);
        let q = ps.drop_first();
        assert(forall|j: int| 0 <= j < n - 1 ==> (#[trigger] q[j]) is Sig) by {
            assert(forall|j: int| 0 <= j < n - 1 ==> q[j] == ps[j + 1]);
        }
        if n - 1 < q.len() {
            assert(q[n - 1] == ps[n]);
        }
        lemma_leading_sigs_eq(q, n - 1);
    }
}

pub open spec fn take_sig_block(ps: Seq<PacketV>) -> (Seq<SigV>, Seq<PacketV>) {
    let n = leading_sigs(ps);
    (ps.take(n).map_values(|p: PacketV| sig_of_packet(p)), ps.skip(n))
}

pub open spec fn parse_subkey_blocks(ps: Seq<PacketV>) -> (Seq<(KeyV, Seq<SigV>)>, Seq<PacketV>)
    decreases ps.len(),
    via parse_subkey_blocks_decreases
{
    if ps.len() > 0 && ps[0] is Subkey {
        let k = key_of_packet(ps[0]);
        let (sigs, r1) = take_sig_block(ps.drop_first());
        let (sks, r2) = parse_subkey_blocks(r1);
        (seq![(k, sigs)] + sks, r2)
    } else {
        (Seq::empty(), ps)
    }
}

#[via_fn]
proof fn parse_subkey_blocks_decreases(ps: Seq<PacketV>) {
    if ps.len() > 0 && ps[0] is Subkey {
        lemma_leading_sigs_bounds(ps.drop_first());
    }
}

pub open spec fn parse_uid_blocks(ps: Seq<PacketV>) -> (Seq<(UidV, Seq<SigV>)>, Seq<PacketV>)
    decreases ps.len(),
    via parse_uid_blocks_decreases
{
    if ps.len() > 0 && ps[0] is Uid {
        let u = uid_of_packet(ps[0]);
        let (sigs, r1) = take_sig_block(ps.drop_first());
        let (uids, r2) = parse_uid_blocks(r1);
        (seq![(u, sigs)] + uids, r2)
    } else {
        (Seq::empty(), ps)
    }
}

#[via_fn]
proof fn parse_uid_blocks_decreases(ps: Seq<PacketV>) {
    if ps.len() > 0 && ps[0] is Uid {
        lemma_leading_sigs_bounds(ps.drop_first());
    }
}

/// A packet sequence as a certificate: a primary key packet, its
/// signatures, then subkey blocks, then identity blocks, nothing else.
pub open spec fn assemble(ps: Seq<PacketV>) -> Option<CertV> {
    if ps.len() > 0 && ps[0] is Primary {
        let (psigs, r1) = take_sig_block(ps.drop_first());
        let (sks, r2) = parse_subkey_blocks(r1);
        let (uids, r3) = parse_uid_blocks(r2);
        if r3.len() == 0 {
            Some(CertV { primary: key_of_packet(ps[0]), primary_sigs: psigs, subkeys: sks, uids })
        } else {
            None
        }
    } else {
        None
    }
}

pub open spec fn parse_bin_spec(bs: Seq<u8>) -> Option<CertV> {
    match parse_packets(bs) {
        Some(ps) => assemble(ps),
        None => None,
    }
}

// ---------------------------------------------------------------------
// Round trip: serialize then parse
// ---------------------------------------------------------------------
pub proof fn lemma_packet_body_roundtrip(p: PacketV)
    requires
        wf_packet(p),
    ensures
        parse_body(packet_tag(p), packet_body(p)) == Some(p),
{
    match p {
        PacketV::Primary(k) => {
            lemma_key_body_roundtrip(k);
        },
        PacketV::Subkey(k) => {
            lemma_key_body_roundtrip(k);
        },
        PacketV::Uid(u) => {
        },
        PacketV::Sig(s) => {
            let b = sig_body(s);
            assert(b[0] == sig_kind_code(s.kind));
            assert(b.subrange(1, 9) =~= le64(s.creation));
            assert(b.subrange(9, 17) =~= le64(s.expiry));
            assert(b.skip(17) =~= s.data);
            crate::util::lemma_le64_roundtrip(s.creation);
            crate::util::lemma_le64_roundtrip(s.expiry);
            assert(code_sig_kind(sig_kind_code(s.kind)) == s.kind);
            assert(parse_body(4, b) == Some(p));
        },
    }
}

proof fn lemma_key_body_roundtrip(k: KeyV)
    requires
        wf_key(k),
    ensures
        parse_body(1, key_body(k)) == Some(PacketV::Primary(k)),
        parse_body(2, key_body(k)) == Some(PacketV::Subkey(k)),
{
    let b = key_body(k);
    assert(b[0] == k.algorithm);
    assert(b.subrange(1, 3) =~= le16(k.bits));
    assert(b.subrange(3, 11) =~= le64(k.creation));
    assert(b.skip(11) =~= k.material);
    crate::util::lemma_le16_roundtrip(k.bits);
    crate::util::lemma_le64_roundtrip(k.creation);
}

pub proof fn lemma_ser_packets_append(ps: Seq<PacketV>, qs: Seq<PacketV>)
    ensures
        ser_packets(ps + qs) == ser_packets(ps) + ser_packets(qs),
    decreases ps.len(),
{
    if ps.len() == 0 {
        assert(ps + qs =~= qs);
        assert(ser_packets(ps) + ser_packets(qs) =~= ser_packets(qs));
    } else {
        lemma_ser_packets_append(ps.drop_first(), qs);
        assert((ps + qs).drop_first() =~= ps.drop_first() + qs);
        assert((ps + qs)[0] == ps[0]);
        assert(packet_bytes(ps[0]) + (ser_packets(ps.drop_first()) + ser_packets(qs)) =~= (
        packet_bytes(ps[0]) + ser_packets(ps.drop_first())) + ser_packets(qs));
    }
}

pub open spec fn wf_packets(ps: Seq<PacketV>) -> bool {
    forall|i: int| 0 <= i < ps.len() ==> wf_packet(#[trigger] ps[i])
}

/// Parsing inverts serialization, packet for packet.
pub proof fn lemma_parse_ser_packets(ps: Seq<PacketV>)
    requires
        wf_packets(ps),
    ensures
        parse_packets(ser_packets(ps)) == Some(ps),
    decreases ps.len(),
{
    if ps.len() == 0 {
    } else {
        let p = ps[0];
        assert(wf_packet(p));
        let body = packet_body(p);
        assert(body.len() < FIELD_LIMIT + 17) by {
            match p {
                PacketV::Primary(k) => {},
                PacketV::Subkey(k) => {},
                PacketV::Uid(u) => {},
                PacketV::Sig(s) => {},
            }
        }
        let u = ser_packets(ps);
        let pb = packet_bytes(p);
        let rest = ser_packets(ps.drop_last()) + Seq::<u8>::empty();
        let tail = ser_packets(ps.drop_first());
        assert(u == pb + tail);
        assert(pb.len() == 5 + body.len());
        assert(u.len() >= 5);
        assert(u[0] == packet_tag(p));
        assert(u.subrange(1, 5) =~= le32(body.len() as u32));
        crate::util::lemma_le32_roundtrip(body.len() as u32);
        let n = le32_val(u.subrange(1, 5)) as int;
        assert(n == body.len());
        assert(5 + n <= u.len());
        assert(u.subrange(5, 5 + n) =~= body);
        lemma_packet_body_roundtrip(p);
        assert(u.skip(5 + n) =~= tail);
        assert(wf_packets(ps.drop_first())) by {
            assert(forall|i: int|
                0 <= i < ps.drop_first().len() ==> #[trigger] ps.drop_first()[i] == ps[i + 1]);
        }
        lemma_parse_ser_packets(ps.drop_first());
        assert(seq![p] + ps.drop_first() =~= ps);
    }
}

// ---------------------------------------------------------------------
// Round trip: flatten then assemble
// ---------------------------------------------------------------------
proof fn lemma_take_sig_block_prefix(sigs: Seq<SigV>, rest: Seq<PacketV>)
    requires
        rest.len() == 0 || !(rest[0] is Sig),
    ensures
        take_sig_block(sig_packets(sigs) + rest) == (sigs, rest),
{
    let ps = sig_packets(sigs) + rest;
    assert forall|j: int| 0 <= j < sigs.len() implies (#[trigger] ps[j]) is Sig by {
        assert(ps[j] == sig_packets(sigs)[j]);
    }
    if sigs.len() < ps.len() {
        assert(ps[sigs.len() as int] == rest[0]);
    }
    lemma_leading_sigs_eq(ps, sigs.len() as int);
    assert(ps.take(sigs.len() as int).map_values(|p: PacketV| sig_of_packet(p)) =~= sigs) by {
        assert(forall|j: int|
            0 <= j < sigs.len() ==> ps.take(sigs.len() as int)[j] == #[trigger] sig_packets(
                sigs,
            )[j]);
    }
    assert(ps.skip(sigs.len() as int) =~= rest);
}

proof fn lemma_parse_subkey_blocks_prefix(sks: Seq<(KeyV, Seq<SigV>)>, rest: Seq<PacketV>)
    requires
        rest.len() == 0 || rest[0] is Uid,
    ensures
        parse_subkey_blocks(flatten_subkeys(sks) + rest) == (sks, rest),
    decreases sks.len(),
{
    let ps = flatten_subkeys(sks) + rest;
    if sks.len() == 0 {
        assert(ps =~= rest);
        assert(parse_subkey_blocks(rest) == (Seq::<(KeyV, Seq<SigV>)>::empty(), rest));
    } else {
        assert(ps[0] == PacketV::Subkey(sks[0].0));
        let mid = flatten_subkeys(sks.drop_first()) + rest;
        assert(ps.drop_first() =~= sig_packets(sks[0].1) + mid);
        assert(mid.len() == 0 || !(mid[0] is Sig)) by {
            if mid.len() > 0 {
                if sks.drop_first().len() > 0 {
                    assert(mid[0] == PacketV::Subkey(sks.drop_first()[0].0));
                } else {
                    assert(flatten_subkeys(sks.drop_first()) =~= Seq::<PacketV>::empty());
                    assert(mid =~= rest);
                }
            }
        }
        lemma_take_sig_block_prefix(sks[0].1, mid);
        lemma_parse_subkey_blocks_prefix(sks.drop_first(), rest);
        assert(seq![(sks[0].0, sks[0].1)] + sks.drop_first() =~= sks);
    }
}

proof fn lemma_parse_uid_blocks_prefix(uids: Seq<(UidV, Seq<SigV>)>, rest: Seq<PacketV>)
    requires
        rest.len() == 0,
    ensures
        parse_uid_blocks(flatten_uids(uids) + rest) == (uids, rest),
    decreases uids.len(),
{
    let ps = flatten_uids(uids) + rest;
    if uids.len() == 0 {
        assert(ps =~= rest);
        assert(parse_uid_blocks(rest) == (Seq::<(UidV, Seq<SigV>)>::empty(), rest));
    } else {
        assert(ps[0] == PacketV::Uid(uids[0].0));
        let mid = flatten_uids(uids.drop_first()) + rest;
        assert(ps.drop_first() =~= sig_packets(uids[0].1) + mid);
        assert(mid.len() == 0 || !(mid[0] is Sig)) by {
            if mid.len() > 0 {
                if uids.drop_first().len() > 0 {
                    assert(mid[0] == PacketV::Uid(uids.drop_first()[0].0));
                } else {
                    assert(flatten_uids(uids.drop_first()) =~= Seq::<PacketV>::empty());
                    assert(mid =~= rest);
                }
            }
        }
        lemma_take_sig_block_prefix(uids[0].1, mid);
        lemma_parse_uid_blocks_prefix(uids.drop_first(), rest);
        assert(seq![(uids[0].0, uids[0].1)] + uids.drop_first() =~= uids);
    }
}

/// Assembling inverts flattening.
pub proof fn lemma_assemble_flatten(c: CertV)
    ensures
        assemble(flatten_cert(c)) == Some(c),
{
    let ps = flatten_cert(c);
    assert(ps[0] == PacketV::Primary(c.primary));
    let r1 = flatten_subkeys(c.subkeys) + flatten_uids(c.uids);
    assert(ps.drop_first() =~= sig_packets(c.primary_sigs) + r1);
    assert(r1.len() == 0 || !(r1[0] is Sig)) by {
        if r1.len() > 0 {
            if c.subkeys.len() > 0 {
                assert(r1[0] == PacketV::Subkey(c.subkeys[0].0));
            } else {
                assert(flatten_subkeys(c.subkeys) =~= Seq::<PacketV>::empty());
                assert(r1 =~= flatten_uids(c.uids));
                assert(c.uids.len() > 0);
                assert(r1[0] == PacketV::Uid(c.uids[0].0));
            }
        }
    }
    lemma_take_sig_block_prefix(c.primary_sigs, r1);
    assert(r1 =~= flatten_subkeys(c.subkeys) + flatten_uids(c.uids));
    assert(flatten_uids(c.uids).len() == 0 || flatten_uids(c.uids)[0] is Uid) by {
        if c.uids.len() > 0 {
            assert(flatten_uids(c.uids)[0] == PacketV::Uid(c.uids[0].0));
        } else {
            assert(flatten_uids(c.uids) =~= Seq::<PacketV>::empty());
        }
    }
    lemma_parse_subkey_blocks_prefix(c.subkeys, flatten_uids(c.uids));
    lemma_parse_uid_blocks_prefix(c.uids, Seq::<PacketV>::empty());
    assert(flatten_uids(c.uids) + Seq::<PacketV>::empty() =~= flatten_uids(c.uids));
    assert(assemble(ps) == Some(CertV {
        primary: c.primary,
        primary_sigs: c.primary_sigs,
        subkeys: c.subkeys,
        uids: c.uids,
    }));
    assert(CertV {
        primary: c.primary,
        primary_sigs: c.primary_sigs,
        subkeys: c.subkeys,
        uids: c.uids,
    } =~= c);
}

/// A certificate within bounds flattens to packets within bounds.
pub proof fn lemma_flatten_wf(c: CertV)
    requires
        wf_cert(c),
    ensures
        wf_packets(flatten_cert(c)),
{
    lemma_flatten_subkeys_wf(c.subkeys);
    lemma_flatten_uids_wf(c.uids);
    assert(wf_key(c.primary));
    let ps = flatten_cert(c);
    assert forall|i: int| 0 <= i < ps.len() implies wf_packet(#[trigger] ps[i]) by {
        let a = seq![PacketV::Primary(c.primary)];
        let b = sig_packets(c.primary_sigs);
        let d = flatten_subkeys(c.subkeys);
        let e = flatten_uids(c.uids);
        if i < 1 {
            assert(ps[i] == a[i]);
        } else if i < 1 + b.len() {
            assert(ps[i] == b[i - 1]);
            assert(b[i - 1] == PacketV::Sig(c.primary_sigs[i - 1]));
        } else if i < 1 + b.len() + d.len() {
            assert(ps[i] == d[i - 1 - b.len()]);
        } else {
            assert(ps[i] == e[i - 1 - b.len() - d.len()]);
        }
    }
}

proof fn lemma_flatten_subkeys_wf(sks: Seq<(KeyV, Seq<SigV>)>)
    requires
        forall|i: int| 0 <= i < sks.len() ==> wf_bundle_k(#[trigger] sks[i]),
    ensures
        wf_packets(flatten_subkeys(sks)),
    decreases sks.len(),
{
    if sks.len() > 0 {
        assert forall|i: int| 0 <= i < sks.drop_first().len() implies wf_bundle_k(
            #[trigger] sks.drop_first()[i],
        ) by {
            assert(sks.drop_first()[i] == sks[i + 1]);
            assert(wf_bundle_k(sks[i + 1]));
        }
        lemma_flatten_subkeys_wf(sks.drop_first());
        let ps = flatten_subkeys(sks);
        assert forall|i: int| 0 <= i < ps.len() implies wf_packet(#[trigger] ps[i]) by {
            let a = seq![PacketV::Subkey(sks[0].0)];
            let b = sig_packets(sks[0].1);
            let d = flatten_subkeys(sks.drop_first());
            assert(wf_bundle_k(sks[0]));
            if i < 1 {
                assert(ps[i] == a[i]);
            } else if i < 1 + b.len() {
                assert(ps[i] == b[i - 1]);
                assert(b[i - 1] == PacketV::Sig(sks[0].1[i - 1]));
            } else {
                assert(ps[i] == d[i - 1 - b.len()]);
            }
        }
    }
}

proof fn lemma_flatten_uids_wf(uids: Seq<(UidV, Seq<SigV>)>)
    requires
        forall|i: int| 0 <= i < uids.len() ==> wf_bundle_u(#[trigger] uids[i]),
    ensures
        wf_packets(flatten_uids(uids)),
    decreases uids.len(),
{
    if uids.len() > 0 {
        assert forall|i: int| 0 <= i < uids.drop_first().len() implies wf_bundle_u(
            #[trigger] uids.drop_first()[i],
        ) by {
            assert(uids.drop_first()[i] == uids[i + 1]);
            assert(wf_bundle_u(uids[i + 1]));
        }
        lemma_flatten_uids_wf(uids.drop_first());
        let ps = flatten_uids(uids);
        assert forall|i: int| 0 <= i < ps.len() implies wf_packet(#[trigger] ps[i]) by {
            let a = seq![PacketV::Uid(uids[0].0)];
            let b = sig_packets(uids[0].1);
            let d = flatten_uids(uids.drop_first());
            assert(wf_bundle_u(uids[0]));
            if i < 1 {
                assert(ps[i] == a[i]);
            } else if i < 1 + b.len() {
                assert(ps[i] == b[i - 1]);
                assert(b[i - 1] == PacketV::Sig(uids[0].1[i - 1]));
            } else {
                assert(ps[i] == d[i - 1 - b.len()]);
            }
        }
    }
}

/// Parsing inverts serialization for certificates within bounds.
pub proof fn lemma_parse_ser_cert(c: CertV)
    requires
        wf_cert(c),
    ensures
        parse_bin_spec(ser_cert(c)) == Some(c),
{
    lemma_flatten_wf(c);
    lemma_parse_ser_packets(flatten_cert(c));
    lemma_assemble_flatten(c);
}


// ---------------------------------------------------------------------
// Parsing yields certificates within bounds
// ---------------------------------------------------------------------
proof fn lemma_parse_body_wf(tag: u8, body: Seq<u8>)
    ensures
        parse_body(tag, body) is Some ==> wf_packet(parse_body(tag, body).unwrap()),
{
}

proof fn lemma_parse_packets_wf(bs: Seq<u8>)
    ensures
        parse_packets(bs) is Some ==> wf_packets(parse_packets(bs).unwrap()),
    decreases bs.len(),
{
    if bs.len() >= 5 {
        let n = le32_val(bs.subrange(1, 5)) as int;
        if 5 + n <= bs.len() {
            lemma_parse_body_wf(bs[0], bs.subrange(5, 5 + n));
            lemma_parse_packets_wf(bs.skip(5 + n));
            if parse_packets(bs) is Some {
                let p = parse_body(bs[0], bs.subrange(5, 5 + n)).unwrap();
                let ps = parse_packets(bs.skip(5 + n)).unwrap();
                let whole = seq![p] + ps;
                assert forall|i: int| 0 <= i < whole.len() implies wf_packet(
                    #[trigger] whole[i],
                ) by {
                    if i >= 1 {
                        assert(whole[i] == ps[i - 1]);
                    }
                }
            }
        }
    }
}

proof fn lemma_leading_sigs_prefix(ps: Seq<PacketV>)
    ensures
        forall|j: int| 0 <= j < leading_sigs(ps) ==> (#[trigger] ps[j]) is Sig,
    decreases ps.len(),
{
    lemma_leading_sigs_bounds(ps);
    if ps.len() > 0 && ps[0] is Sig {
        lemma_leading_sigs_prefix(ps.drop_first());
        lemma_leading_sigs_bounds(ps.drop_first());
        assert forall|j: int| 0 <= j < leading_sigs(ps) implies (#[trigger] ps[j]) is Sig by {
            if j >= 1 {
                assert(ps.drop_first()[j - 1] == ps[j]);
            }
        }
    }
}

proof fn lemma_take_sig_block_wf(ps: Seq<PacketV>)
    requires
        wf_packets(ps),
    ensures
        wf_sigs(take_sig_block(ps).0),
        wf_packets(take_sig_block(ps).1),
{
    let n = leading_sigs(ps);
    lemma_leading_sigs_bounds(ps);
    lemma_leading_sigs_prefix(ps);
    let (sv, rest) = take_sig_block(ps);
    assert forall|i: int| 0 <= i < sv.len() implies wf_sig(#[trigger] sv[i]) by {
        assert(ps.take(n)[i] == ps[i]);
        assert(ps[i] is Sig);
        assert(sv[i] == sig_of_packet(ps[i]));
    }
    assert forall|i: int| 0 <= i < rest.len() implies wf_packet(#[trigger] rest[i]) by {
        assert(rest[i] == ps[n + i]);
    }
}

proof fn lemma_parse_subkey_blocks_wf(ps: Seq<PacketV>)
    requires
        wf_packets(ps),
    ensures
        forall|i: int|
            0 <= i < parse_subkey_blocks(ps).0.len() ==> wf_bundle_k(
                #[trigger] parse_subkey_blocks(ps).0[i],
            ),
        wf_packets(parse_subkey_blocks(ps).1),
    decreases ps.len(),
{
    if ps.len() > 0 && ps[0] is Subkey {
        let (sigs, r1) = take_sig_block(ps.drop_first());
        assert(wf_packets(ps.drop_first())) by {
            assert(forall|i: int|
                0 <= i < ps.drop_first().len() ==> #[trigger] ps.drop_first()[i] == ps[i + 1]);
        }
        lemma_take_sig_block_wf(ps.drop_first());
        lemma_leading_sigs_bounds(ps.drop_first());
        lemma_parse_subkey_blocks_wf(r1);
        let whole = parse_subkey_blocks(ps).0;
        let inner = parse_subkey_blocks(r1).0;
        assert(wf_packet(ps[0]));
        assert forall|i: int| 0 <= i < whole.len() implies wf_bundle_k(#[trigger] whole[i]) by {
            if i >= 1 {
                assert(whole[i] == inner[i - 1]);
                assert(wf_bundle_k(inner[i - 1]));
            }
        }
    }
}

proof fn lemma_parse_uid_blocks_wf(ps: Seq<PacketV>)
    requires
        wf_packets(ps),
    ensures
        forall|i: int|
            0 <= i < parse_uid_blocks(ps).0.len() ==> wf_bundle_u(
                #[trigger] parse_uid_blocks(ps).0[i],
            ),
        wf_packets(parse_uid_blocks(ps).1),
    decreases ps.len(),
{
    if ps.len() > 0 && ps[0] is Uid {
        let (sigs, r1) = take_sig_block(ps.drop_first());
        assert(wf_packets(ps.drop_first())) by {
            assert(forall|i: int|
                0 <= i < ps.drop_first().len() ==> #[trigger] ps.drop_first()[i] == ps[i + 1]);
        }
        lemma_take_sig_block_wf(ps.drop_first());
        lemma_leading_sigs_bounds(ps.drop_first());
        lemma_parse_uid_blocks_wf(r1);
        let whole = parse_uid_blocks(ps).0;
        let inner = parse_uid_blocks(r1).0;
        assert(wf_packet(ps[0]));
        assert forall|i: int| 0 <= i < whole.len() implies wf_bundle_u(#[trigger] whole[i]) by {
            if i >= 1 {
                assert(whole[i] == inner[i - 1]);
                assert(wf_bundle_u(inner[i - 1]));
            }
        }
    }
}

proof fn lemma_assemble_wf(ps: Seq<PacketV>)
    requires
        wf_packets(ps),
        assemble(ps) is Some,
    ensures
        wf_cert(assemble(ps).unwrap()),
{
    assert(wf_packets(ps.drop_first())) by {
        assert(forall|i: int|
            0 <= i < ps.drop_first().len() ==> #[trigger] ps.drop_first()[i] == ps[i + 1]);
    }
    lemma_take_sig_block_wf(ps.drop_first());
    let (psigs, r1) = take_sig_block(ps.drop_first());
    lemma_parse_subkey_blocks_wf(r1);
    let (sks, r2) = parse_subkey_blocks(r1);
    lemma_parse_uid_blocks_wf(r2);
    assert(wf_packet(ps[0]));
}

/// Whatever parses is a certificate within bounds.
pub proof fn lemma_parse_bin_wf(bs: Seq<u8>)
    ensures
        parse_bin_spec(bs) is Some ==> wf_cert(parse_bin_spec(bs).unwrap()),
{
    lemma_parse_packets_wf(bs);
    if parse_bin_spec(bs) is Some {
        lemma_assemble_wf(parse_packets(bs).unwrap());
    }
}

// ---------------------------------------------------------------------
// Armor
// ---------------------------------------------------------------------
/// `-----BEGIN PGP PUBLIC KEY BLOCK-----` and a blank line.
pub open spec fn armor_header() -> Seq<u8> {
    seq![
        45u8, 45, 45, 45, 45, 66, 69, 71, 73, 78, 32, 80, 71, 80, 32, 80, 85, 66, 76, 73, 67, 32,
        75, 69, 89, 32, 66, 76, 79, 67, 75, 45, 45, 45, 45, 45, 10, 10,
    ]
}

/// A line break and `-----END PGP PUBLIC KEY BLOCK-----`.
pub open spec fn armor_footer() -> Seq<u8> {
    seq![
        10u8, 45, 45, 45, 45, 45, 69, 78, 68, 32, 80, 71, 80, 32, 80, 85, 66, 76, 73, 67, 32, 75,
        69, 89, 32, 66, 76, 79, 67, 75, 45, 45, 45, 45, 45, 10,
    ]
}

/// Armored text: header, the binary form in base64, footer.
pub open spec fn armor_bytes(bin: Seq<u8>) -> Seq<u8> {
    armor_header() + b64_encode(bin) + armor_footer()
}

pub open spec fn dearmor(s: Seq<u8>) -> Option<Seq<u8>> {
    let h = armor_header();
    let f = armor_footer();
    if s.len() >= h.len() + f.len() && s.subrange(0, h.len() as int) == h && s.subrange(
        s.len() - f.len(),
        s.len() as int,
    ) == f {
        b64_decode(s.subrange(h.len() as int, s.len() - f.len()))
    } else {
        None
    }
}

/// What a byte string denotes as a certificate: armored text when it
/// opens with a dash, the binary form otherwise.
pub open spec fn parse_spec(bs: Seq<u8>) -> Option<CertV> {
    if bs.len() > 0 && bs[0] == 45 {
        match dearmor(bs) {
            Some(bin) => parse_bin_spec(bin),
            None => None,
        }
    } else {
        parse_bin_spec(bs)
    }
}

pub proof fn lemma_dearmor_roundtrip(bin: Seq<u8>)
    ensures
        dearmor(armor_bytes(bin)) == Some(bin),
{
    let s = armor_bytes(bin);
    let h = armor_header();
    let f = armor_footer();
    let e = b64_encode(bin);
    assert(s.subrange(0, h.len() as int) =~= h);
    assert(s.subrange(s.len() - f.len(), s.len() as int) =~= f);
    assert(s.subrange(h.len() as int, s.len() - f.len()) =~= e);
    lemma_b64_roundtrip(bin);
}

pub proof fn lemma_armor_ascii(bin: Seq<u8>)
    ensures
        all_ascii(armor_bytes(bin)),
{
    lemma_b64_encode_ascii(bin);
    let s = armor_bytes(bin);
    let h = armor_header();
    let e = b64_encode(bin);
    assert forall|i: int| 0 <= i < s.len() implies s[i] < 128 by {
        if i < h.len() {
            assert(s[i] == h[i]);
        } else if i < h.len() + e.len() {
            assert(s[i] == e[i - h.len()]);
        } else {
            assert(s[i] == armor_footer()[i - h.len() - e.len()]);
        }
    }
}

pub proof fn lemma_parse_spec_wf(bs: Seq<u8>)
    ensures
        parse_spec(bs) is Some ==> wf_cert(parse_spec(bs).unwrap()),
{
    if bs.len() > 0 && bs[0] == 45 {
        if dearmor(bs) is Some {
            lemma_parse_bin_wf(dearmor(bs).unwrap());
        }
    } else {
        lemma_parse_bin_wf(bs);
    }
}

// ---------------------------------------------------------------------
// Fingerprint and key identifier
// ---------------------------------------------------------------------
/// The fingerprint: the first twenty bytes of the digest of the primary
/// key packet body.
pub open spec fn fpr_of(c: CertV) -> Seq<u8> {
    sha256_of(key_body(c.primary)).take(20)
}

/// The key identifier: the fingerprint's eight-byte suffix.
pub open spec fn kid_of(c: CertV) -> Seq<u8> {
    fpr_of(c).skip(12)
}

/// The armored round trip: parse, normalize, armor, parse again — the
/// same normalized certificate comes back, its fingerprint unchanged.
pub proof fn lemma_armor_parse_roundtrip(bs: Seq<u8>, c: CertV)
    requires
        parse_spec(bs) == Some(c),
    ensures
        parse_spec(armor_bytes(ser_cert(crate::merge::clean(c)))) == Some(crate::merge::clean(c)),
        fpr_of(crate::merge::clean(c)) == fpr_of(c),
{
    lemma_parse_spec_wf(bs);
    crate::merge::lemma_clean_wf(c);
    let cc = crate::merge::clean(c);
    lemma_parse_ser_cert(cc);
    lemma_dearmor_roundtrip(ser_cert(cc));
    let s = armor_bytes(ser_cert(cc));
    assert(s[0] == 45) by {
        assert(s[0] == armor_header()[0]);
    }
}


// ---------------------------------------------------------------------
// Executable serialization
// ---------------------------------------------------------------------
/// A typed parse failure: rejected input, or a certificate too large
/// for the wire format's length fields.
#[derive(Clone, Copy, PartialEq, Eq, Structural, Debug)]
pub enum PgpError {
    Malformed,
    TooLarge,
}

pub open spec fn pk_views(v: Seq<Packet>) -> Seq<PacketV> {
    v.map_values(|p: Packet| p@)
}

pub fn push_bytes(out: &mut Vec<u8>, src: &Vec<u8>)
    ensures
        final(out)@ == old(out)@ + src@,
{
    let mut i: usize = 0;
    while i < src.len()
        invariant
            i <= src@.len(),
            out@ == old(out)@ + src@.take(i as int),
        decreases src@.len() - i,
    {
        out.push(src[i]);
        proof {
            assert(old(out)@ + src@.take(i + 1) =~= (old(out)@ + src@.take(i as int)).push(
                src@[i as int],
            ));
        }
        i = i + 1;
    }
    proof {
        assert(src@.take(src@.len() as int) =~= src@);
    }
}

fn key_body_exec(k: &KeyPacket) -> (r: Vec<u8>)
    ensures
        r@ == key_body(k@),
{
    let mut out: Vec<u8> = Vec::new();
    out.push(k.algorithm);
    crate::util::push_le16(&mut out, k.bits);
    crate::util::push_le64(&mut out, k.creation);
    push_bytes(&mut out, &k.material);
    proof {
        assert(out@ =~= key_body(k@));
    }
    out
}

fn sig_kind_code_exec(k: SigKind) -> (r: u8)
    ensures
        r == sig_kind_code(k),
{
    match k {
        SigKind::SelfSig => 0,
        SigKind::SelfRevocation => 1,
        SigKind::ThirdPartyRevocation => 2,
        SigKind::Other => 3,
    }
}

fn sig_body_exec(s: &SigPacket) -> (r: Vec<u8>)
    ensures
        r@ == sig_body(s@),
{
    let mut out: Vec<u8> = Vec::new();
    out.push(sig_kind_code_exec(s.kind));
    crate::util::push_le64(&mut out, s.creation);
    crate::util::push_le64(&mut out, s.expiry);
    push_bytes(&mut out, &s.data);
    proof {
        assert(out@ =~= sig_body(s@));
    }
    out
}

fn write_framed(out: &mut Vec<u8>, tag: u8, body: Vec<u8>)
    requires
        body@.len() < 0x20000000,
    ensures
        final(out)@ == old(out)@ + seq![tag] + le32(body@.len() as u32) + body@,
{
    out.push(tag);
    crate::util::push_le32(out, body.len() as u32);
    push_bytes(out, &body);
    proof {
        assert(out@ =~= old(out)@ + seq![tag] + le32(body@.len() as u32) + body@);
    }
}

proof fn lemma_ser_singleton(p: PacketV)
    ensures
        ser_packets(seq![p]) == packet_bytes(p),
{
    let sp = seq![p];
    assert(sp.len() == 1 && sp[0] == p);
    assert(sp.drop_first() =~= Seq::<PacketV>::empty());
    assert(ser_packets(Seq::<PacketV>::empty()) == Seq::<u8>::empty());
    assert(ser_packets(sp) == packet_bytes(p) + Seq::<u8>::empty());
    assert(packet_bytes(p) + Seq::<u8>::empty() =~= packet_bytes(p));
}

fn write_sig_run(out: &mut Vec<u8>, sigs: &Vec<SigPacket>)
    requires
        wf_sigs(crate::cert::sig_views(sigs@)),
    ensures
        final(out)@ == old(out)@ + ser_packets(sig_packets(crate::cert::sig_views(sigs@))),
{
    let ghost sv = crate::cert::sig_views(sigs@);
    let mut i: usize = 0;
    while i < sigs.len()
        invariant
            i <= sigs@.len(),
            sv == crate::cert::sig_views(sigs@),
            wf_sigs(sv),
            out@ == old(out)@ + ser_packets(sig_packets(sv.take(i as int))),
        decreases sigs@.len() - i,
    {
        let ghost pre = out@;
        let body = sig_body_exec(&sigs[i]);
        proof {
            assert(sv[i as int] == sigs@[i as int]@);
            assert(wf_sig(sv[i as int]));
        }
        write_framed(out, 4, body);
        proof {
            let p = PacketV::Sig(sv[i as int]);
            assert(packet_body(p) == sig_body(sv[i as int]));
            assert(out@ =~= pre + packet_bytes(p));
            assert(sig_packets(sv.take(i + 1)) =~= sig_packets(sv.take(i as int)) + seq![p]);
            lemma_ser_packets_append(sig_packets(sv.take(i as int)), seq![p]);
            lemma_ser_singleton(p);
            assert(out@ =~= old(out)@ + ser_packets(sig_packets(sv.take(i + 1))));
        }
        i = i + 1;
    }
    proof {
        assert(sv.take(sigs@.len() as int) =~= sv);
    }
}

proof fn lemma_flatten_subkeys_append_one(sks: Seq<(KeyV, Seq<SigV>)>, b: (KeyV, Seq<SigV>))
    ensures
        flatten_subkeys(sks.push(b)) == flatten_subkeys(sks) + (seq![PacketV::Subkey(b.0)]
            + sig_packets(b.1)),
    decreases sks.len(),
{
    if sks.len() == 0 {
        assert(sks.push(b)[0] == b);
        assert(sks.push(b).drop_first() =~= Seq::<(KeyV, Seq<SigV>)>::empty());
        assert(flatten_subkeys(Seq::<(KeyV, Seq<SigV>)>::empty()) == Seq::<PacketV>::empty());
        assert(flatten_subkeys(sks.push(b)) == seq![PacketV::Subkey(b.0)] + sig_packets(b.1)
            + Seq::<PacketV>::empty());
        assert(flatten_subkeys(sks.push(b)) =~= flatten_subkeys(sks) + (seq![PacketV::Subkey(
            b.0,
        )] + sig_packets(b.1)));
    } else {
        lemma_flatten_subkeys_append_one(sks.drop_first(), b);
        assert(sks.push(b).drop_first() =~= sks.drop_first().push(b));
        assert(sks.push(b)[0] == sks[0]);
        assert(flatten_subkeys(sks.push(b)) =~= flatten_subkeys(sks) + (seq![PacketV::Subkey(
            b.0,
        )] + sig_packets(b.1)));
    }
}

proof fn lemma_flatten_uids_append_one(uids: Seq<(UidV, Seq<SigV>)>, b: (UidV, Seq<SigV>))
    ensures
        flatten_uids(uids.push(b)) == flatten_uids(uids) + (seq![PacketV::Uid(b.0)] + sig_packets(
            b.1,
        )),
    decreases uids.len(),
{
    if uids.len() == 0 {
        assert(uids.push(b)[0] == b);
        assert(uids.push(b).drop_first() =~= Seq::<(UidV, Seq<SigV>)>::empty());
        assert(flatten_uids(Seq::<(UidV, Seq<SigV>)>::empty()) == Seq::<PacketV>::empty());
        assert(flatten_uids(uids.push(b)) == seq![PacketV::Uid(b.0)] + sig_packets(b.1)
            + Seq::<PacketV>::empty());
        assert(flatten_uids(uids.push(b)) =~= flatten_uids(uids) + (seq![PacketV::Uid(b.0)]
            + sig_packets(b.1)));
    } else {
        lemma_flatten_uids_append_one(uids.drop_first(), b);
        assert(uids.push(b).drop_first() =~= uids.drop_first().push(b));
        assert(uids.push(b)[0] == uids[0]);
        assert(flatten_uids(uids.push(b)) =~= flatten_uids(uids) + (seq![PacketV::Uid(b.0)]
            + sig_packets(b.1)));
    }
}

/// The binary form of a certificate within bounds.
pub fn serialize_cert(c: &Certificate) -> (r: Vec<u8>)
    requires
        wf_cert(c@),
    ensures
        r@ == ser_cert(c@),
{
    let mut out: Vec<u8> = Vec::new();
    let body = key_body_exec(&c.primary);
    write_framed(&mut out, 1, body);
    proof {
        let p = PacketV::Primary(c@.primary);
        assert(out@ =~= packet_bytes(p));
        lemma_ser_singleton(p);
    }
    write_sig_run(&mut out, &c.primary_sigs);
    proof {
        lemma_ser_packets_append(
            seq![PacketV::Primary(c@.primary)],
            sig_packets(c@.primary_sigs),
        );
        assert(out@ =~= ser_packets(
            seq![PacketV::Primary(c@.primary)] + sig_packets(c@.primary_sigs),
        ));
    }
    let ghost head = seq![PacketV::Primary(c@.primary)] + sig_packets(c@.primary_sigs);
    let mut i: usize = 0;
    while i < c.subkeys.len()
        invariant
            i <= c.subkeys@.len(),
            wf_cert(c@),
            head == seq![PacketV::Primary(c@.primary)] + sig_packets(c@.primary_sigs),
            out@ == ser_packets(head + flatten_subkeys(c@.subkeys.take(i as int))),
        decreases c.subkeys@.len() - i,
    {
        let ghost pre = out@;
        let ghost bv = c@.subkeys[i as int];
        proof {
            assert(c@.subkeys.len() == c.subkeys@.len());
            assert(c@.subkeys[i as int] == c.subkeys@[i as int]@);
            crate::cert::lemma_wf_cert_subkey(c@, i as int);
            assert(wf_key(bv.0) && wf_sigs(bv.1));
        }
        let body = key_body_exec(&c.subkeys[i].key);
        write_framed(&mut out, 2, body);
        write_sig_run(&mut out, &c.subkeys[i].sigs);
        proof {
            let block = seq![PacketV::Subkey(bv.0)] + sig_packets(bv.1);
            lemma_ser_singleton(PacketV::Subkey(bv.0));
            lemma_ser_packets_append(seq![PacketV::Subkey(bv.0)], sig_packets(bv.1));
            assert(out@ =~= pre + ser_packets(block));
            lemma_flatten_subkeys_append_one(c@.subkeys.take(i as int), bv);
            assert(c@.subkeys.take(i + 1) =~= c@.subkeys.take(i as int).push(bv));
            lemma_ser_packets_append(head + flatten_subkeys(c@.subkeys.take(i as int)), block);
            assert((head + flatten_subkeys(c@.subkeys.take(i as int))) + block =~= head
                + flatten_subkeys(c@.subkeys.take(i + 1)));
        }
        i = i + 1;
    }
    proof {
        assert(c@.subkeys.take(c.subkeys@.len() as int) =~= c@.subkeys);
    }
    let ghost head2 = head + flatten_subkeys(c@.subkeys);
    let mut j: usize = 0;
    while j < c.uids.len()
        invariant
            j <= c.uids@.len(),
            wf_cert(c@),
            head2 == seq![PacketV::Primary(c@.primary)] + sig_packets(c@.primary_sigs)
                + flatten_subkeys(c@.subkeys),
            out@ == ser_packets(head2 + flatten_uids(c@.uids.take(j as int))),
        decreases c.uids@.len() - j,
    {
        let ghost pre = out@;
        let ghost bv = c@.uids[j as int];
        proof {
            assert(c@.uids.len() == c.uids@.len());
            assert(c@.uids[j as int] == c.uids@[j as int]@);
            crate::cert::lemma_wf_cert_uid(c@, j as int);
            assert(wf_uid(bv.0) && wf_sigs(bv.1));
        }
        let mut label: Vec<u8> = Vec::new();
        push_bytes(&mut label, &c.uids[j].uid.label);
        proof {
            assert(label@ =~= bv.0.label);
        }
        write_framed(&mut out, 3, label);
        write_sig_run(&mut out, &c.uids[j].sigs);
        proof {
            let block = seq![PacketV::Uid(bv.0)] + sig_packets(bv.1);
            lemma_ser_singleton(PacketV::Uid(bv.0));
            lemma_ser_packets_append(seq![PacketV::Uid(bv.0)], sig_packets(bv.1));
            assert(out@ =~= pre + ser_packets(block));
            lemma_flatten_uids_append_one(c@.uids.take(j as int), bv);
            assert(c@.uids.take(j + 1) =~= c@.uids.take(j as int).push(bv));
            lemma_ser_packets_append(head2 + flatten_uids(c@.uids.take(j as int)), block);
            assert((head2 + flatten_uids(c@.uids.take(j as int))) + block =~= head2
                + flatten_uids(c@.uids.take(j + 1)));
        }
        j = j + 1;
    }
    proof {
        assert(c@.uids.take(c.uids@.len() as int) =~= c@.uids);
        assert(head2 + flatten_uids(c@.uids) =~= flatten_cert(c@));
    }
    out
}


// ---------------------------------------------------------------------
// Executable parsing
// ---------------------------------------------------------------------
pub fn copy_range(bs: &[u8], from: usize, to: usize) -> (r: Vec<u8>)
    requires
        from <= to <= bs@.len(),
    ensures
        r@ == bs@.subrange(from as int, to as int),
{
    let mut out: Vec<u8> = Vec::new();
    let mut i: usize = from;
    while i < to
        invariant
            from <= i <= to <= bs@.len(),
            out@ == bs@.subrange(from as int, i as int),
        decreases to - i,
    {
        out.push(bs[i]);
        proof {
            assert(bs@.subrange(from as int, i + 1) =~= bs@.subrange(from as int, i as int).push(
                bs@[i as int],
            ));
        }
        i = i + 1;
    }
    out
}

fn parse_body_exec(tag: u8, body: Vec<u8>) -> (r: Option<Packet>)
    ensures
        match r {
            Some(p) => parse_body(tag, body@) == Some(p@),
            None => parse_body(tag, body@) is None,
        },
{
    if tag == 1 || tag == 2 {
        if body.len() >= 11 && body.len() < FIELD_LIMIT + 11 {
            let bits = crate::util::read_le16(body.as_slice(), 1);
            let creation = crate::util::read_le64(body.as_slice(), 3);
            let material = copy_range(body.as_slice(), 11, body.len());
            proof {
                assert(body@.subrange(11, body@.len() as int) =~= body@.skip(11));
            }
            let k = KeyPacket { algorithm: body[0], bits, creation, material };
            proof {
                assert(k@ =~= parse_body(tag, body@).unwrap()->Primary_0 || k@ =~= parse_body(
                    tag,
                    body@,
                ).unwrap()->Subkey_0);
            }
            if tag == 1 {
                Some(Packet::Primary(k))
            } else {
                Some(Packet::Subkey(k))
            }
        } else {
            None
        }
    } else if tag == 3 {
        if 0 < body.len() && body.len() < FIELD_LIMIT {
            Some(Packet::Uid(UidPacket { label: body }))
        } else {
            None
        }
    } else if tag == 4 {
        if body.len() >= 17 && body.len() < FIELD_LIMIT + 17 && body[0] <= 3 {
            let kind = if body[0] == 0 {
                SigKind::SelfSig
            } else if body[0] == 1 {
                SigKind::SelfRevocation
            } else if body[0] == 2 {
                SigKind::ThirdPartyRevocation
            } else {
                SigKind::Other
            };
            assert(kind == code_sig_kind(body@[0]));
            let creation = crate::util::read_le64(body.as_slice(), 1);
            let expiry = crate::util::read_le64(body.as_slice(), 9);
            let data = copy_range(body.as_slice(), 17, body.len());
            proof {
                assert(body@.subrange(17, body@.len() as int) =~= body@.skip(17));
            }
            let p = Packet::Sig(SigPacket { kind, creation, expiry, data });
            proof {
                assert(p@ =~= parse_body(tag, body@).unwrap());
            }
            Some(p)
        } else {
            None
        }
    } else {
        None
    }
}

fn parse_packets_exec(bs: &[u8]) -> (r: Option<Vec<Packet>>)
    ensures
        match r {
            Some(v) => parse_packets(bs@) == Some(pk_views(v@)),
            None => parse_packets(bs@) is None,
        },
{
    let mut out: Vec<Packet> = Vec::new();
    let mut at: usize = 0;
    let n = bs.len();
    proof {
        assert(bs@.skip(0) =~= bs@);
    }
    while at < n
        invariant
            at <= n,
            n == bs@.len(),
            parse_packets(bs@) == match parse_packets(bs@.skip(at as int)) {
                Some(t) => Some(pk_views(out@) + t),
                None => None::<Seq<PacketV>>,
            },
        decreases n - at,
    {
        let ghost rest = bs@.skip(at as int);
        if n - at < 5 {
            proof {
                assert(rest.len() < 5 && rest.len() > 0);
            }
            return None;
        }
        let tag = bs[at];
        let len32 = crate::util::read_le32(bs, at + 1);
        proof {
            assert(rest.subrange(1, 5) =~= bs@.subrange(at + 1, at + 5));
            assert(rest[0] == bs@[at as int]);
        }
        let len = len32 as usize;
        if len > n - at - 5 {
            proof {
                assert(5 + le32_val(rest.subrange(1, 5)) as int > rest.len());
            }
            return None;
        }
        let body = copy_range(bs, at + 5, at + 5 + len);
        proof {
            assert(rest.subrange(5, 5 + len32 as int) =~= bs@.subrange(at + 5, at + 5 + len));
        }
        match parse_body_exec(tag, body) {
            Some(p) => {
                let ghost pre = pk_views(out@);
                out.push(p);
                proof {
                    assert(pk_views(out@) =~= pre.push(p@));
                    assert(rest.skip(5 + len32 as int) =~= bs@.skip(at + 5 + len));
                    match parse_packets(bs@.skip(at + 5 + len)) {
                        Some(t) => {
                            assert(parse_packets(rest) == Some(seq![p@] + t));
                            assert(pre + (seq![p@] + t) =~= pre.push(p@) + t);
                        },
                        None => {
                            assert(parse_packets(rest) is None);
                        },
                    }
                }
                at = at + 5 + len;
            },
            None => {
                return None;
            },
        }
    }
    proof {
        assert(bs@.skip(n as int).len() == 0);
        assert(parse_packets(bs@.skip(n as int)) == Some(Seq::<PacketV>::empty()));
        assert(pk_views(out@) + Seq::<PacketV>::empty() =~= pk_views(out@));
    }
    Some(out)
}

// ---------------------------------------------------------------------
// Executable assembly
// ---------------------------------------------------------------------
proof fn lemma_sig_run_block(pv: Seq<PacketV>, start: int, end: int, sv: Seq<SigV>)
    requires
        0 <= start <= end <= pv.len(),
        forall|j: int| start <= j < end ==> (#[trigger] pv[j]) is Sig,
        end == pv.len() || !(pv[end] is Sig),
        sv == pv.subrange(start, end).map_values(|p: PacketV| sig_of_packet(p)),
    ensures
        take_sig_block(pv.skip(start)) == (sv, pv.skip(end)),
{
    let q = pv.skip(start);
    assert forall|j: int| 0 <= j < end - start implies (#[trigger] q[j]) is Sig by {
        assert(q[j] == pv[j + start]);
    }
    if end - start < q.len() {
        assert(q[end - start] == pv[end]);
    }
    lemma_leading_sigs_eq(q, end - start);
    assert(q.take(end - start) =~= pv.subrange(start, end));
    assert(q.skip(end - start) =~= pv.skip(end));
}

/// Collects the run of signature packets starting at `start`.
fn collect_sig_run(ps: &Vec<Packet>, start: usize) -> (r: (Vec<SigPacket>, usize))
    requires
        start <= ps@.len(),
    ensures
        start <= r.1 <= ps@.len(),
        forall|j: int| start <= j < r.1 ==> (#[trigger] pk_views(ps@)[j]) is Sig,
        r.1 == ps@.len() || !(pk_views(ps@)[r.1 as int] is Sig),
        crate::cert::sig_views(r.0@) == pk_views(ps@).subrange(start as int, r.1 as int).map_values(
            |p: PacketV| sig_of_packet(p),
        ),
{
    let ghost pv = pk_views(ps@);
    let mut out: Vec<SigPacket> = Vec::new();
    let mut i: usize = start;
    while i < ps.len()
        invariant
            start <= i <= ps@.len(),
            pv == pk_views(ps@),
            forall|j: int| start <= j < i ==> (#[trigger] pv[j]) is Sig,
            crate::cert::sig_views(out@) == pv.subrange(start as int, i as int).map_values(
                |p: PacketV| sig_of_packet(p),
            ),
        decreases ps@.len() - i,
    {
        proof {
            assert(pv[i as int] == ps@[i as int]@);
        }
        match &ps[i] {
            Packet::Sig(sp) => {
                let ghost pre = crate::cert::sig_views(out@);
                out.push(crate::cert::copy_sig(sp));
                proof {
                    assert(crate::cert::sig_views(out@) =~= pre.push(sp@));
                    assert(sig_of_packet(pv[i as int]) == sp@);
                    assert(pv.subrange(start as int, i + 1) =~= pv.subrange(
                        start as int,
                        i as int,
                    ).push(pv[i as int]));
                    assert(pv.subrange(start as int, i + 1).map_values(
                        |p: PacketV| sig_of_packet(p),
                    ) =~= pre.push(sp@));
                }
                i = i + 1;
            },
            _ => {
                return (out, i);
            },
        }
    }
    (out, i)
}

/// Builds the certificate a packet sequence denotes, if it has the
/// required shape.
fn assemble_exec(ps: &Vec<Packet>) -> (r: Option<Certificate>)
    ensures
        match r {
            Some(c) => assemble(pk_views(ps@)) == Some(c@),
            None => assemble(pk_views(ps@)) is None,
        },
{
    let ghost pv = pk_views(ps@);
    let n = ps.len();
    if n == 0 {
        return None;
    }
    proof {
        assert(pv[0] == ps@[0]@);
    }
    let primary = match &ps[0] {
        Packet::Primary(k) => crate::cert::copy_key(k),
        _ => {
            return None;
        },
    };
    let (psigs, i1) = collect_sig_run(ps, 1);
    proof {
        lemma_sig_run_block(pv, 1, i1 as int, crate::cert::sig_views(psigs@));
        assert(pv.skip(1) == pv.drop_first());
    }
    let ghost r1 = pv.skip(i1 as int);
    // subkey blocks
    let mut sks: Vec<SubkeyBundle> = Vec::new();
    let mut i: usize = i1;
    while i < n && matches!(&ps[i], Packet::Subkey(_))
        invariant
            i1 <= i <= n,
            n == ps@.len(),
            pv == pk_views(ps@),
            r1 == pv.skip(i1 as int),
            parse_subkey_blocks(r1).0 == crate::cert::sk_views(sks@) + parse_subkey_blocks(
                pv.skip(i as int),
            ).0,
            parse_subkey_blocks(r1).1 == parse_subkey_blocks(pv.skip(i as int)).1,
        decreases n - i,
    {
        proof {
            assert(pv[i as int] == ps@[i as int]@);
        }
        let key = match &ps[i] {
            Packet::Subkey(k) => crate::cert::copy_key(k),
            _ => {
                proof {
                    assert(false);
                }
                return None;
            },
        };
        let (bsigs, i2) = collect_sig_run(ps, i + 1);
        proof {
            lemma_sig_run_block(pv, i + 1, i2 as int, crate::cert::sig_views(bsigs@));
        }
        let ghost pre = crate::cert::sk_views(sks@);
        let b = SubkeyBundle { key, sigs: bsigs };
        proof {
            assert(b@.0 == key_of_packet(pv[i as int]));
            assert(b@.1 == crate::cert::sig_views(bsigs@));
        }
        sks.push(b);
        proof {
            let cur = pv.skip(i as int);
            assert(cur[0] == pv[i as int]);
            assert(cur[0] is Subkey);
            assert(cur.drop_first() =~= pv.skip(i + 1));
            assert(take_sig_block(pv.skip(i + 1)) == (
                crate::cert::sig_views(bsigs@),
                pv.skip(i2 as int),
            ));
            assert(parse_subkey_blocks(cur).0 == seq![b@] + parse_subkey_blocks(
                pv.skip(i2 as int),
            ).0);
            assert(parse_subkey_blocks(cur).1 == parse_subkey_blocks(pv.skip(i2 as int)).1);
            assert(crate::cert::sk_views(sks@) =~= pre.push(b@));
            assert(pre + (seq![b@] + parse_subkey_blocks(pv.skip(i2 as int)).0) =~= pre.push(b@)
                + parse_subkey_blocks(pv.skip(i2 as int)).0);
        }
        i = i2;
    }
    proof {
        let cur = pv.skip(i as int);
        if i < n {
            assert(pv[i as int] == ps@[i as int]@);
            assert(cur[0] == pv[i as int]);
            assert(!(cur[0] is Subkey));
        }
        assert(parse_subkey_blocks(cur) == (Seq::<(KeyV, Seq<SigV>)>::empty(), cur));
        assert(crate::cert::sk_views(sks@) + Seq::<(KeyV, Seq<SigV>)>::empty() =~= crate::cert::sk_views(sks@));
        assert(parse_subkey_blocks(r1).0 == crate::cert::sk_views(sks@));
        assert(parse_subkey_blocks(r1).1 == cur);
    }
    let ghost r2 = pv.skip(i as int);
    // identity blocks
    let mut uids: Vec<UidBundle> = Vec::new();
    while i < n && matches!(&ps[i], Packet::Uid(_))
        invariant
            i <= n,
            n == ps@.len(),
            pv == pk_views(ps@),
            r2 == parse_subkey_blocks(r1).1,
            parse_uid_blocks(r2).0 == crate::cert::uid_views(uids@) + parse_uid_blocks(
                pv.skip(i as int),
            ).0,
            parse_uid_blocks(r2).1 == parse_uid_blocks(pv.skip(i as int)).1,
        decreases n - i,
    {
        proof {
            assert(pv[i as int] == ps@[i as int]@);
        }
        let uid = match &ps[i] {
            Packet::Uid(u) => crate::cert::copy_uid(u),
            _ => {
                proof {
                    assert(false);
                }
                return None;
            },
        };
        let (bsigs, i2) = collect_sig_run(ps, i + 1);
        proof {
            lemma_sig_run_block(pv, i + 1, i2 as int, crate::cert::sig_views(bsigs@));
        }
        let ghost pre = crate::cert::uid_views(uids@);
        let b = UidBundle { uid, sigs: bsigs };
        proof {
            assert(b@.0 == uid_of_packet(pv[i as int]));
            assert(b@.1 == crate::cert::sig_views(bsigs@));
        }
        uids.push(b);
        proof {
            let cur = pv.skip(i as int);
            assert(cur[0] == pv[i as int]);
            assert(cur[0] is Uid);
            assert(cur.drop_first() =~= pv.skip(i + 1));
            assert(take_sig_block(pv.skip(i + 1)) == (
                crate::cert::sig_views(bsigs@),
                pv.skip(i2 as int),
            ));
            assert(parse_uid_blocks(cur).0 == seq![b@] + parse_uid_blocks(pv.skip(i2 as int)).0);
            assert(parse_uid_blocks(cur).1 == parse_uid_blocks(pv.skip(i2 as int)).1);
            assert(crate::cert::uid_views(uids@) =~= pre.push(b@));
            assert(pre + (seq![b@] + parse_uid_blocks(pv.skip(i2 as int)).0) =~= pre.push(b@)
                + parse_uid_blocks(pv.skip(i2 as int)).0);
        }
        i = i2;
    }
    proof {
        let cur = pv.skip(i as int);
        if i < n {
            assert(pv[i as int] == ps@[i as int]@);
            assert(cur[0] == pv[i as int]);
            assert(!(cur[0] is Uid));
        }
        assert(parse_uid_blocks(cur) == (Seq::<(UidV, Seq<SigV>)>::empty(), cur));
        assert(crate::cert::uid_views(uids@) + Seq::<(UidV, Seq<SigV>)>::empty() =~= crate::cert::uid_views(uids@));
        assert(parse_uid_blocks(r2).0 == crate::cert::uid_views(uids@));
        assert(parse_uid_blocks(r2).1 == cur);
    }
    if i < n {
        proof {
            assert(pv.skip(i as int).len() > 0);
        }
        return None;
    }
    let c = Certificate { primary, primary_sigs: psigs, subkeys: sks, uids };
    proof {
        assert(pv.skip(i as int).len() == 0);
        assert(key_of_packet(pv[0]) == c@.primary);
        assert(assemble(pv) == Some(c@)) by {
            assert(assemble(pv).unwrap() =~= c@);
        }
    }
    Some(c)
}

// ---------------------------------------------------------------------
// Parsing entry points, armor, fingerprint
// ---------------------------------------------------------------------
fn parse_bin(bs: &[u8]) -> (r: Result<Certificate, PgpError>)
    ensures
        match r {
            Ok(c) => parse_bin_spec(bs@) == Some(c@),
            Err(e) => parse_bin_spec(bs@) is None && e is Malformed,
        },
{
    match parse_packets_exec(bs) {
        Some(v) => match assemble_exec(&v) {
            Some(c) => Ok(c),
            None => Err(PgpError::Malformed),
        },
        None => Err(PgpError::Malformed),
    }
}

fn armor_header_exec() -> (r: Vec<u8>)
    ensures
        r@ == armor_header(),
{
    let mut out: Vec<u8> = Vec::new();
    let mut i: usize = 0;
    while i < 5
        invariant
            i <= 5,
            out@ =~= Seq::new(i as nat, |j: int| 45u8),
        decreases 5 - i,
    {
        out.push(45);
        i = i + 1;
    }
    out.push(66);
    out.push(69);
    out.push(71);
    out.push(73);
    out.push(78);
    out.push(32);
    out.push(80);
    out.push(71);
    out.push(80);
    out.push(32);
    out.push(80);
    out.push(85);
    out.push(66);
    out.push(76);
    out.push(73);
    out.push(67);
    out.push(32);
    out.push(75);
    out.push(69);
    out.push(89);
    out.push(32);
    out.push(66);
    out.push(76);
    out.push(79);
    out.push(67);
    out.push(75);
    let mut j: usize = 0;
    while j < 5
        invariant
            j <= 5,
            out@ =~= armor_header().take(31 + j as int),
        decreases 5 - j,
    {
        out.push(45);
        proof {
            assert(armor_header().take(31 + j + 1) =~= armor_header().take(31 + j as int).push(
                45u8,
            ));
        }
        j = j + 1;
    }
    out.push(10);
    out.push(10);
    proof {
        assert(out@ =~= armor_header());
    }
    out
}

fn armor_footer_exec() -> (r: Vec<u8>)
    ensures
        r@ == armor_footer(),
{
    let mut out: Vec<u8> = Vec::new();
    out.push(10);
    out.push(45);
    out.push(45);
    out.push(45);
    out.push(45);
    out.push(45);
    out.push(69);
    out.push(78);
    out.push(68);
    out.push(32);
    out.push(80);
    out.push(71);
    out.push(80);
    out.push(32);
    out.push(80);
    out.push(85);
    out.push(66);
    out.push(76);
    out.push(73);
    out.push(67);
    out.push(32);
    out.push(75);
    out.push(69);
    out.push(89);
    out.push(32);
    out.push(66);
    out.push(76);
    out.push(79);
    out.push(67);
    out.push(75);
    out.push(45);
    out.push(45);
    out.push(45);
    out.push(45);
    out.push(45);
    out.push(10);
    proof {
        assert(out@ =~= armor_footer());
    }
    out
}

/// Armors a binary form.
pub fn armor(bin: &[u8]) -> (r: Vec<u8>)
    ensures
        r@ == armor_bytes(bin@),
{
    let mut out = armor_header_exec();
    let e = crate::textenc::b64_encode_exec(bin);
    push_bytes(&mut out, &e);
    let f = armor_footer_exec();
    push_bytes(&mut out, &f);
    proof {
        assert(out@ =~= armor_bytes(bin@));
    }
    out
}

/// Checks that a certificate lies within the wire format's bounds.
pub fn check_wf(c: &Certificate) -> (r: bool)
    ensures
        r == wf_cert(c@),
{
    proof {
        assert(c@.subkeys.len() == c.subkeys@.len());
        assert(c@.uids.len() == c.uids@.len());
    }
    if c.primary.material.len() >= FIELD_LIMIT {
        proof {
            assert(!wf_key(c@.primary));
        }
        return false;
    }
    if !check_sigs_wf(&c.primary_sigs) {
        return false;
    }
    let mut i: usize = 0;
    while i < c.subkeys.len()
        invariant
            i <= c.subkeys@.len(),
            wf_key(c@.primary),
            wf_sigs(c@.primary_sigs),
            forall|j: int| 0 <= j < i ==> wf_bundle_k(#[trigger] c@.subkeys[j]),
        decreases c.subkeys@.len() - i,
    {
        proof {
            assert(c@.subkeys[i as int] == c.subkeys@[i as int]@);
        }
        if c.subkeys[i].key.material.len() >= FIELD_LIMIT {
            proof {
                assert(!wf_bundle_k(c@.subkeys[i as int]));
                assert(!wf_cert(c@));
            }
            return false;
        }
        if !check_sigs_wf(&c.subkeys[i].sigs) {
            proof {
                assert(!wf_bundle_k(c@.subkeys[i as int]));
                assert(!wf_cert(c@));
            }
            return false;
        }
        proof {
            assert(wf_bundle_k(c@.subkeys[i as int]));
        }
        i = i + 1;
    }
    proof {
        assert(c@.subkeys.len() == c.subkeys@.len());
    }
    let mut j: usize = 0;
    while j < c.uids.len()
        invariant
            j <= c.uids@.len(),
            wf_key(c@.primary),
            wf_sigs(c@.primary_sigs),
            forall|k: int| 0 <= k < c@.subkeys.len() ==> wf_bundle_k(#[trigger] c@.subkeys[k]),
            forall|k: int| 0 <= k < j ==> wf_bundle_u(#[trigger] c@.uids[k]),
        decreases c.uids@.len() - j,
    {
        proof {
            assert(c@.uids[j as int] == c.uids@[j as int]@);
        }
        let ln = c.uids[j].uid.label.len();
        if ln == 0 || ln >= FIELD_LIMIT {
            proof {
                assert(!wf_bundle_u(c@.uids[j as int]));
                assert(!wf_cert(c@));
            }
            return false;
        }
        if !check_sigs_wf(&c.uids[j].sigs) {
            proof {
                assert(!wf_bundle_u(c@.uids[j as int]));
                assert(!wf_cert(c@));
            }
            return false;
        }
        proof {
            assert(wf_bundle_u(c@.uids[j as int]));
        }
        j = j + 1;
    }
    true
}

fn check_sigs_wf(sigs: &Vec<SigPacket>) -> (r: bool)
    ensures
        r == wf_sigs(crate::cert::sig_views(sigs@)),
{
    let ghost sv = crate::cert::sig_views(sigs@);
    let mut i: usize = 0;
    while i < sigs.len()
        invariant
            i <= sigs@.len(),
            sv == crate::cert::sig_views(sigs@),
            forall|j: int| 0 <= j < i ==> wf_sig(#[trigger] sv[j]),
        decreases sigs@.len() - i,
    {
        proof {
            assert(sv[i as int] == sigs@[i as int]@);
        }
        if sigs[i].data.len() >= FIELD_LIMIT {
            return false;
        }
        i = i + 1;
    }
    true
}

/// The armored text of a certificate, as the directory serves it.
/// Fails only when the certificate exceeds the wire format's bounds.
pub fn tpk_to_string(tpk: &Certificate) -> (r: Result<Vec<u8>, PgpError>)
    ensures
        match r {
            Ok(v) => wf_cert(tpk@) && v@ == armor_bytes(ser_cert(tpk@)),
            Err(e) => !wf_cert(tpk@) && e is TooLarge,
        },
{
    if !check_wf(tpk) {
        return Err(PgpError::TooLarge);
    }
    let bin = serialize_cert(tpk);
    Ok(armor(bin.as_slice()))
}

/// Reads a certificate from armored text or from the binary form; any
/// input that does not denote a certificate is rejected as malformed.
pub fn parse_cert(bs: &[u8]) -> (r: Result<Certificate, PgpError>)
    ensures
        match r {
            Ok(c) => parse_spec(bs@) == Some(c@) && wf_cert(c@),
            Err(e) => parse_spec(bs@) is None && e is Malformed,
        },
{
    proof {
        lemma_parse_spec_wf(bs@);
    }
    if bs.len() > 0 && bs[0] == 45 {
        let h = armor_header_exec();
        let f = armor_footer_exec();
        if bs.len() < h.len() + f.len() {
            return Err(PgpError::Malformed);
        }
        let head = copy_range(bs, 0, h.len());
        let tail = copy_range(bs, bs.len() - f.len(), bs.len());
        if !crate::util::bytes_eq(head.as_slice(), h.as_slice()) {
            return Err(PgpError::Malformed);
        }
        if !crate::util::bytes_eq(tail.as_slice(), f.as_slice()) {
            return Err(PgpError::Malformed);
        }
        let mid = copy_range(bs, h.len(), bs.len() - f.len());
        match crate::textenc::b64_decode_exec(mid.as_slice()) {
            Some(bin) => parse_bin(bin.as_slice()),
            None => Err(PgpError::Malformed),
        }
    } else {
        parse_bin(bs)
    }
}

/// The fingerprint of a certificate: the truncated digest of its
/// primary key packet.
pub fn fingerprint(c: &Certificate) -> (r: Vec<u8>)
    ensures
        r@ == fpr_of(c@),
        r@.len() == 20,
{
    let kb = key_body_exec(&c.primary);
    let d = crate::crypto::sha256(kb.as_slice());
    let r = copy_range(d.as_slice(), 0, 20);
    proof {
        assert(d@.subrange(0, 20) =~= d@.take(20));
    }
    r
}

/// The key identifier: the fingerprint's eight-byte suffix.
pub fn keyid(c: &Certificate) -> (r: Vec<u8>)
    ensures
        r@ == kid_of(c@),
        r@.len() == 8,
{
    let fpr = fingerprint(c);
    let r = copy_range(fpr.as_slice(), 12, 20);
    proof {
        assert(fpr@.subrange(12, 20) =~= fpr@.skip(12));
    }
    r
}

} // verus!
