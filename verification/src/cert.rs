//! The certificate model: a primary key, subkeys and user identities,
//! each carrying signature packets. Certificates are identified by a
//! fingerprint derived from the primary key packet; a key identifier is
//! the fingerprint's suffix.

use vstd::prelude::*;
use crate::util::bytes_eq;

verus! {

/// Per-packet byte fields are bounded so that every packet body fits a
/// 32-bit length field on any target.
pub const FIELD_LIMIT: usize = 0x10000000;

/// The role a signature packet plays for the component it is bound to.
#[derive(Clone, Copy, PartialEq, Eq, Structural, Debug)]
pub enum SigKind {
    SelfSig,
    SelfRevocation,
    ThirdPartyRevocation,
    Other,
}

/// Derived revocation state of a component, judged from the packets
/// present: a self-revocation is conclusive, a third-party revocation
/// alone is only possible revocation.
#[derive(Clone, Copy, PartialEq, Eq, Structural, Debug)]
pub enum RevocationStatus {
    Revoked,
    CouldBe,
    NotAsFarAsWeKnow,
}

pub fn is_status_revoked(status: RevocationStatus) -> (r: bool)
    ensures
        r == (status is Revoked),
{
    match status {
        RevocationStatus::Revoked => true,
        RevocationStatus::CouldBe => false,
        RevocationStatus::NotAsFarAsWeKnow => false,
    }
}

/// A signature packet. `expiry` of zero means no expiration.
pub struct SigPacket {
    pub kind: SigKind,
    pub creation: u64,
    pub expiry: u64,
    pub data: Vec<u8>,
}

#[verifier::ext_equal]
pub struct SigV {
    pub kind: SigKind,
    pub creation: u64,
    pub expiry: u64,
    pub data: Seq<u8>,
}

impl View for SigPacket {
    type V = SigV;

    open spec fn view(&self) -> SigV {
        SigV { kind: self.kind, creation: self.creation, expiry: self.expiry, data: self.data@ }
    }
}

/// A key packet: the primary key or a subkey.
pub struct KeyPacket {
    pub algorithm: u8,
    pub bits: u16,
    pub creation: u64,
    pub material: Vec<u8>,
}

#[verifier::ext_equal]
pub struct KeyV {
    pub algorithm: u8,
    pub bits: u16,
    pub creation: u64,
    pub material: Seq<u8>,
}

impl View for KeyPacket {
    type V = KeyV;

    open spec fn view(&self) -> KeyV {
        KeyV {
            algorithm: self.algorithm,
            bits: self.bits,
            creation: self.creation,
            material: self.material@,
        }
    }
}

/// A user-identity packet: the raw label, typically an email-bearing
/// string such as `Alice <alice@example.org>`.
pub struct UidPacket {
    pub label: Vec<u8>,
}

#[verifier::ext_equal]
pub struct UidV {
    pub label: Seq<u8>,
}

impl View for UidPacket {
    type V = UidV;

    open spec fn view(&self) -> UidV {
        UidV { label: self.label@ }
    }
}

pub open spec fn sig_views(v: Seq<SigPacket>) -> Seq<SigV> {
    v.map_values(|s: SigPacket| s@)
}

/// A subkey with the signature packets bound to it. Viewed as a pair of
/// the key and its signature list, so that subkey and identity blocks
/// share one grouping theory.
pub struct SubkeyBundle {
    pub key: KeyPacket,
    pub sigs: Vec<SigPacket>,
}

impl View for SubkeyBundle {
    type V = (KeyV, Seq<SigV>);

    open spec fn view(&self) -> (KeyV, Seq<SigV>) {
        (self.key@, sig_views(self.sigs@))
    }
}

pub open spec fn sk_views(v: Seq<SubkeyBundle>) -> Seq<(KeyV, Seq<SigV>)> {
    v.map_values(|b: SubkeyBundle| b@)
}

/// A user identity with the signature packets bound to it.
pub struct UidBundle {
    pub uid: UidPacket,
    pub sigs: Vec<SigPacket>,
}

impl View for UidBundle {
    type V = (UidV, Seq<SigV>);

    open spec fn view(&self) -> (UidV, Seq<SigV>) {
        (self.uid@, sig_views(self.sigs@))
    }
}

pub open spec fn uid_views(v: Seq<UidBundle>) -> Seq<(UidV, Seq<SigV>)> {
    v.map_values(|b: UidBundle| b@)
}

/// A certificate: primary key block, subkeys in encounter order, user
/// identities in encounter order.
pub struct Certificate {
    pub primary: KeyPacket,
    pub primary_sigs: Vec<SigPacket>,
    pub subkeys: Vec<SubkeyBundle>,
    pub uids: Vec<UidBundle>,
}

#[verifier::ext_equal]
pub struct CertV {
    pub primary: KeyV,
    pub primary_sigs: Seq<SigV>,
    pub subkeys: Seq<(KeyV, Seq<SigV>)>,
    pub uids: Seq<(UidV, Seq<SigV>)>,
}

impl View for Certificate {
    type V = CertV;

    open spec fn view(&self) -> CertV {
        CertV {
            primary: self.primary@,
            primary_sigs: sig_views(self.primary_sigs@),
            subkeys: sk_views(self.subkeys@),
            uids: uid_views(self.uids@),
        }
    }
}

pub open spec fn wf_key(k: KeyV) -> bool {
    k.material.len() < FIELD_LIMIT
}

pub open spec fn wf_sig(s: SigV) -> bool {
    s.data.len() < FIELD_LIMIT
}

pub open spec fn wf_sigs(sigs: Seq<SigV>) -> bool {
    forall|i: int| 0 <= i < sigs.len() ==> wf_sig(#[trigger] sigs[i])
}

pub open spec fn wf_uid(u: UidV) -> bool {
    0 < u.label.len() < FIELD_LIMIT
}

pub open spec fn wf_bundle_k(b: (KeyV, Seq<SigV>)) -> bool {
    wf_key(b.0) && wf_sigs(b.1)
}

pub open spec fn wf_bundle_u(b: (UidV, Seq<SigV>)) -> bool {
    wf_uid(b.0) && wf_sigs(b.1)
}

/// Bounds under which a certificate can be serialized.
pub open spec fn wf_cert(c: CertV) -> bool {
    &&& wf_key(c.primary)
    &&& wf_sigs(c.primary_sigs)
    &&& forall|i: int| 0 <= i < c.subkeys.len() ==> wf_bundle_k(#[trigger] c.subkeys[i])
    &&& forall|i: int| 0 <= i < c.uids.len() ==> wf_bundle_u(#[trigger] c.uids[i])
}

pub proof fn lemma_wf_cert_subkey(c: CertV, i: int)
    requires
        wf_cert(c),
        0 <= i < c.subkeys.len(),
    ensures
        wf_key(c.subkeys[i].0),
        wf_sigs(c.subkeys[i].1),
{
    assert(wf_bundle_k(c.subkeys[i]));
}

pub proof fn lemma_wf_cert_uid(c: CertV, i: int)
    requires
        wf_cert(c),
        0 <= i < c.uids.len(),
    ensures
        wf_uid(c.uids[i].0),
        wf_sigs(c.uids[i].1),
{
    assert(wf_bundle_u(c.uids[i]));
}

// ---------------------------------------------------------------------
// Structural equality and deep copies
// ---------------------------------------------------------------------
pub fn sig_eq(a: &SigPacket, b: &SigPacket) -> (r: bool)
    ensures
        r == (a@ == b@),
{
    let r = a.kind == b.kind && a.creation == b.creation && a.expiry == b.expiry && bytes_eq(
        a.data.as_slice(),
        b.data.as_slice(),
    );
    proof {
        if r {
            assert(a@ =~= b@);
        }
    }
    r
}

pub fn key_eq(a: &KeyPacket, b: &KeyPacket) -> (r: bool)
    ensures
        r == (a@ == b@),
{
    let r = a.algorithm == b.algorithm && a.bits == b.bits && a.creation == b.creation && bytes_eq(
        a.material.as_slice(),
        b.material.as_slice(),
    );
    proof {
        if r {
            assert(a@ =~= b@);
        }
    }
    r
}

pub fn uid_eq(a: &UidPacket, b: &UidPacket) -> (r: bool)
    ensures
        r == (a@ == b@),
{
    let r = bytes_eq(a.label.as_slice(), b.label.as_slice());
    proof {
        if r {
            assert(a@ =~= b@);
        }
    }
    r
}

pub fn copy_bytes(v: &Vec<u8>) -> (r: Vec<u8>)
    ensures
        r@ == v@,
{
    let mut out: Vec<u8> = Vec::new();
    let mut i: usize = 0;
    while i < v.len()
        invariant
            i <= v@.len(),
            out@ == v@.take(i as int),
        decreases v@.len() - i,
    {
        out.push(v[i]);
        proof {
            assert(v@.take(i + 1) =~= v@.take(i as int).push(v@[i as int]));
        }
        i = i + 1;
    }
    proof {
        assert(v@.take(v@.len() as int) =~= v@);
    }
    out
}

pub fn copy_sig(s: &SigPacket) -> (r: SigPacket)
    ensures
        r@ == s@,
{
    let r = SigPacket {
        kind: s.kind,
        creation: s.creation,
        expiry: s.expiry,
        data: copy_bytes(&s.data),
    };
    proof {
        assert(r@ =~= s@);
    }
    r
}

pub fn copy_key(k: &KeyPacket) -> (r: KeyPacket)
    ensures
        r@ == k@,
{
    let r = KeyPacket {
        algorithm: k.algorithm,
        bits: k.bits,
        creation: k.creation,
        material: copy_bytes(&k.material),
    };
    proof {
        assert(r@ =~= k@);
    }
    r
}

pub fn copy_uid(u: &UidPacket) -> (r: UidPacket)
    ensures
        r@ == u@,
{
    let r = UidPacket { label: copy_bytes(&u.label) };
    proof {
        assert(r@ =~= u@);
    }
    r
}

pub fn copy_sigs(sigs: &Vec<SigPacket>) -> (r: Vec<SigPacket>)
    ensures
        sig_views(r@) == sig_views(sigs@),
{
    let mut out: Vec<SigPacket> = Vec::new();
    let mut i: usize = 0;
    while i < sigs.len()
        invariant
            i <= sigs@.len(),
            out@.len() == i,
            forall|j: int| 0 <= j < i ==> out@[j]@ == #[trigger] sigs@[j]@,
        decreases sigs@.len() - i,
    {
        out.push(copy_sig(&sigs[i]));
        i = i + 1;
    }
    proof {
        assert(sig_views(out@) =~= sig_views(sigs@));
    }
    out
}

// ---------------------------------------------------------------------
// Revocation status of a component
// ---------------------------------------------------------------------
/// The status a signature list gives its component.
pub open spec fn status_of(sigs: Seq<SigV>) -> RevocationStatus {
    if exists|i: int| 0 <= i < sigs.len() && sigs[i].kind is SelfRevocation {
        RevocationStatus::Revoked
    } else if exists|i: int| 0 <= i < sigs.len() && sigs[i].kind is ThirdPartyRevocation {
        RevocationStatus::CouldBe
    } else {
        RevocationStatus::NotAsFarAsWeKnow
    }
}

pub fn component_status(sigs: &Vec<SigPacket>) -> (r: RevocationStatus)
    ensures
        r == status_of(sig_views(sigs@)),
{
    let ghost sv = sig_views(sigs@);
    let mut has_self_rev = false;
    let mut has_third_rev = false;
    let mut i: usize = 0;
    while i < sigs.len()
        invariant
            i <= sigs@.len(),
            sv == sig_views(sigs@),
            has_self_rev == exists|j: int| 0 <= j < i && sv[j].kind is SelfRevocation,
            has_third_rev == exists|j: int| 0 <= j < i && sv[j].kind is ThirdPartyRevocation,
        decreases sigs@.len() - i,
    {
        match sigs[i].kind {
            SigKind::SelfRevocation => {
                has_self_rev = true;
            },
            SigKind::ThirdPartyRevocation => {
                has_third_rev = true;
            },
            _ => {},
        }
        proof {
            assert(sv[i as int] == sigs@[i as int]@);
        }
        i = i + 1;
    }
    if has_self_rev {
        RevocationStatus::Revoked
    } else if has_third_rev {
        RevocationStatus::CouldBe
    } else {
        RevocationStatus::NotAsFarAsWeKnow
    }
}

// ---------------------------------------------------------------------
// Email addresses and identity labels
// ---------------------------------------------------------------------
/// A validated email address, as plain bytes.
pub struct Email {
    pub addr: Vec<u8>,
}

impl View for Email {
    type V = Seq<u8>;

    open spec fn view(&self) -> Seq<u8> {
        self.addr@
    }
}

/// Index of the first occurrence of `b`, or -1.
pub open spec fn find_byte(s: Seq<u8>, b: u8) -> int
    decreases s.len(),
{
    if s.len() == 0 {
        -1
    } else if s[0] == b {
        0
    } else {
        let r = find_byte(s.drop_first(), b);
        if r < 0 {
            -1
        } else {
            r + 1
        }
    }
}

pub proof fn lemma_find_byte(s: Seq<u8>, b: u8)
    ensures
        find_byte(s, b) == -1 ==> forall|i: int| 0 <= i < s.len() ==> s[i] != b,
        find_byte(s, b) >= 0 ==> find_byte(s, b) < s.len() && s[find_byte(s, b)] == b && forall|
            i: int,
        | 0 <= i < find_byte(s, b) ==> s[i] != b,
    decreases s.len(),
{
    if s.len() > 0 && s[0] != b {
        lemma_find_byte(s.drop_first(), b);
        assert(forall|i: int| 1 <= i < s.len() ==> s[i] == s.drop_first()[i - 1]);
    }
}

pub fn find_byte_exec(s: &[u8], b: u8) -> (r: Option<usize>)
    ensures
        match r {
            Some(i) => 0 <= i < s@.len() && find_byte(s@, b) == i,
            None => find_byte(s@, b) == -1,
        },
{
    let mut i: usize = 0;
    while i < s.len()
        invariant
            i <= s@.len(),
            forall|j: int| 0 <= j < i ==> s@[j] != b,
        decreases s@.len() - i,
    {
        if s[i] == b {
            proof {
                lemma_find_byte(s@, b);
                if find_byte(s@, b) == -1 {
                    assert(false);
                } else {
                    let f = find_byte(s@, b);
                    if f < i {
                        assert(s@[f] == b);
                        assert(false);
                    }
                    if f > i {
                        assert(s@[i as int] != b);
                        assert(false);
                    }
                }
            }
            return Some(i);
        }
        i = i + 1;
    }
    proof {
        lemma_find_byte(s@, b);
        if find_byte(s@, b) >= 0 {
            assert(s@[find_byte(s@, b)] == b);
            assert(false);
        }
    }
    None
}

/// A plausible address: ASCII, exactly one `@`, neither side empty.
pub open spec fn valid_email(s: Seq<u8>) -> bool {
    let a = find_byte(s, 64);
    crate::util::all_ascii(s) && 0 < a < s.len() - 1 && find_byte(s.skip(a + 1), 64) == -1
}

/// The address carried by an identity label: the part between the first
/// `<` and the following `>` when present, else the whole label; valid
/// only if it is a plausible address.
pub open spec fn email_of_label(label: Seq<u8>) -> Option<Seq<u8>> {
    let lt = find_byte(label, 60);
    let cand = if lt >= 0 {
        let rest = label.skip(lt + 1);
        let gt = find_byte(rest, 62);
        if gt >= 0 {
            rest.take(gt)
        } else {
            Seq::empty()
        }
    } else {
        label
    };
    if valid_email(cand) {
        Some(cand)
    } else {
        None
    }
}

pub fn email_from_label(label: &[u8]) -> (r: Option<Email>)
    ensures
        match r {
            Some(e) => email_of_label(label@) == Some(e@),
            None => email_of_label(label@) is None,
        },
{
    let cand: Vec<u8> = match find_byte_exec(label, 60) {
        Some(lt) => {
            let n = label.len();
            assert(lt < n);
            let mut rest: Vec<u8> = Vec::new();
            let mut i: usize = lt + 1;
            while i < label.len()
                invariant
                    lt + 1 <= i <= label@.len(),
                    rest@ == label@.subrange(lt + 1, i as int),
                decreases label@.len() - i,
            {
                rest.push(label[i]);
                proof {
                    assert(label@.subrange(lt + 1, i + 1) =~= label@.subrange(lt + 1, i as int).push(
                        label@[i as int],
                    ));
                }
                i = i + 1;
            }
            proof {
                assert(rest@ =~= label@.skip(lt + 1));
            }
            match find_byte_exec(rest.as_slice(), 62) {
                Some(gt) => {
                    let mut c: Vec<u8> = Vec::new();
                    let mut j: usize = 0;
                    while j < gt
                        invariant
                            j <= gt < rest@.len(),
                            c@ == rest@.take(j as int),
                            gt < rest@.len(),
                        decreases gt - j,
                    {
                        c.push(rest[j]);
                        proof {
                            assert(rest@.take(j + 1) =~= rest@.take(j as int).push(rest@[j as int]));
                        }
                        j = j + 1;
                    }
                    c
                },
                None => Vec::new(),
            }
        },
        None => copy_bytes_slice(label),
    };
    if is_valid_email(cand.as_slice()) {
        Some(Email { addr: cand })
    } else {
        None
    }
}

pub fn copy_bytes_slice(v: &[u8]) -> (r: Vec<u8>)
    ensures
        r@ == v@,
{
    let mut out: Vec<u8> = Vec::new();
    let mut i: usize = 0;
    while i < v.len()
        invariant
            i <= v@.len(),
            out@ == v@.take(i as int),
        decreases v@.len() - i,
    {
        out.push(v[i]);
        proof {
            assert(v@.take(i + 1) =~= v@.take(i as int).push(v@[i as int]));
        }
        i = i + 1;
    }
    proof {
        assert(v@.take(v@.len() as int) =~= v@);
    }
    out
}

pub fn is_valid_email(s: &[u8]) -> (r: bool)
    ensures
        r == valid_email(s@),
{
    let mut ai: usize = 0;
    while ai < s.len()
        invariant
            ai <= s@.len(),
            forall|j: int| 0 <= j < ai ==> s@[j] < 128,
        decreases s@.len() - ai,
    {
        if s[ai] >= 128 {
            return false;
        }
        ai = ai + 1;
    }
    match find_byte_exec(s, 64) {
        Some(a) => {
            let n = s.len();
            assert(a < n);
            if a == 0 || a + 1 >= n {
                return false;
            }
            let mut rest: Vec<u8> = Vec::new();
            let mut i: usize = a + 1;
            while i < s.len()
                invariant
                    a + 1 <= i <= s@.len(),
                    rest@ == s@.subrange(a + 1, i as int),
                decreases s@.len() - i,
            {
                rest.push(s[i]);
                proof {
                    assert(s@.subrange(a + 1, i + 1) =~= s@.subrange(a + 1, i as int).push(
                        s@[i as int],
                    ));
                }
                i = i + 1;
            }
            proof {
                assert(rest@ =~= s@.skip(a + 1));
            }
            match find_byte_exec(rest.as_slice(), 64) {
                Some(_) => false,
                None => true,
            }
        },
        None => false,
    }
}

} // verus!
