//! The certificate store: one record per fingerprint, holding all
//! merged material and the set of published identity addresses. Lookups
//! serve the published projection; publication is gated on verification
//! and keeps each address bound to at most one fingerprint.

use vstd::prelude::*;
use crate::cert::{
    Certificate, CertV, Email, SubkeyBundle, UidBundle, UidV, SigV, copy_key, copy_sigs,
    copy_uid, copy_bytes, email_of_label, email_from_label, component_status, status_of, wf_cert,
    wf_bundle_k, wf_bundle_u, sk_views, uid_views, RevocationStatus,
};
use crate::util::{bytes_eq, ascii_chars};

verus! {

pub open spec fn email_views(v: Seq<Email>) -> Seq<Seq<u8>> {
    v.map_values(|e: Email| e@)
}

/// An address may be published under a certificate when some identity
/// of the certificate carries it and is not revoked.
pub open spec fn published_allowed(c: CertV, e: Seq<u8>) -> bool {
    exists|i: int|
        0 <= i < c.uids.len() && email_of_label((#[trigger] c.uids[i]).0.label) == Some(e) && !(
        status_of(c.uids[i].1) is Revoked)
}

pub fn email_allowed(cert: &Certificate, e: &[u8]) -> (r: bool)
    ensures
        r == published_allowed(cert@, e@),
{
    let mut i: usize = 0;
    while i < cert.uids.len()
        invariant
            i <= cert.uids@.len(),
            forall|j: int|
                0 <= j < i ==> !(email_of_label((#[trigger] cert@.uids[j]).0.label) == Some(e@)
                    && !(status_of(cert@.uids[j].1) is Revoked)),
        decreases cert.uids@.len() - i,
    {
        proof {
            assert(cert@.uids[i as int] == cert.uids@[i as int]@);
        }
        let em = email_from_label(cert.uids[i].uid.label.as_slice());
        match em {
            Some(em) => {
                if bytes_eq(em.addr.as_slice(), e) {
                    let st = component_status(&cert.uids[i].sigs);
                    match st {
                        RevocationStatus::Revoked => {},
                        _ => {
                            proof {
                                assert(email_of_label(cert@.uids[i as int].0.label) == Some(e@));
                                assert(!(status_of(cert@.uids[i as int].1) is Revoked));
                            }
                            return true;
                        },
                    }
                }
            },
            None => {},
        }
        i = i + 1;
    }
    proof {
        if published_allowed(cert@, e@) {
            let j = choose|j: int|
                0 <= j < cert@.uids.len() && email_of_label((#[trigger] cert@.uids[j]).0.label)
                    == Some(e@) && !(status_of(cert@.uids[j].1) is Revoked);
            assert(false);
        }
    }
    false
}

// ---------------------------------------------------------------------
// The published projection
// ---------------------------------------------------------------------
/// The identity blocks kept by the projection: not revoked, and bearing
/// one of the given addresses.
pub open spec fn uid_kept(b: (UidV, Seq<SigV>), emails: Seq<Seq<u8>>) -> bool {
    match email_of_label(b.0.label) {
        Some(e) => emails.contains(e) && !(status_of(b.1) is Revoked),
        None => false,
    }
}

pub open spec fn filter_uids_spec(uids: Seq<(UidV, Seq<SigV>)>, emails: Seq<Seq<u8>>) -> Seq<
    (UidV, Seq<SigV>),
>
    decreases uids.len(),
{
    if uids.len() == 0 {
        Seq::empty()
    } else {
        let init = filter_uids_spec(uids.drop_last(), emails);
        if uid_kept(uids.last(), emails) {
            init.push(uids.last())
        } else {
            init
        }
    }
}

/// The published projection: the certificate with only the identities
/// that match the given addresses and are not revoked.
pub open spec fn filter_spec(c: CertV, emails: Seq<Seq<u8>>) -> CertV {
    CertV {
        primary: c.primary,
        primary_sigs: c.primary_sigs,
        subkeys: c.subkeys,
        uids: filter_uids_spec(c.uids, emails),
    }
}

fn email_in_list(emails: &Vec<Email>, e: &[u8]) -> (r: bool)
    ensures
        r == email_views(emails@).contains(e@),
{
    let mut i: usize = 0;
    while i < emails.len()
        invariant
            i <= emails@.len(),
            forall|j: int| 0 <= j < i ==> email_views(emails@)[j] != e@,
        decreases emails@.len() - i,
    {
        proof {
            assert(email_views(emails@)[i as int] == emails@[i as int]@);
        }
        if bytes_eq(emails[i].addr.as_slice(), e) {
            return true;
        }
        i = i + 1;
    }
    proof {
        if email_views(emails@).contains(e@) {
            let j = choose|j: int|
                0 <= j < email_views(emails@).len() && email_views(emails@)[j] == e@;
            assert(false);
        }
    }
    false
}

/// Filters the certificate, keeping only identities that are not
/// revoked and whose address stands in the given list.
pub fn tpk_filter_alive_emails(tpk: &Certificate, emails: &Vec<Email>) -> (r: Certificate)
    ensures
        r@ == filter_spec(tpk@, email_views(emails@)),
{
    let ghost ev = email_views(emails@);
    let mut uids: Vec<UidBundle> = Vec::new();
    let mut i: usize = 0;
    while i < tpk.uids.len()
        invariant
            i <= tpk.uids@.len(),
            ev == email_views(emails@),
            uid_views(uids@) == filter_uids_spec(tpk@.uids.take(i as int), ev),
        decreases tpk.uids@.len() - i,
    {
        let ghost bv = tpk@.uids[i as int];
        proof {
            assert(tpk@.uids[i as int] == tpk.uids@[i as int]@);
            assert(tpk@.uids.take(i + 1).drop_last() =~= tpk@.uids.take(i as int));
            assert(tpk@.uids.take(i + 1).last() == bv);
        }
        let keep = match email_from_label(tpk.uids[i].uid.label.as_slice()) {
            Some(em) => {
                if email_in_list(emails, em.addr.as_slice()) {
                    let st = component_status(&tpk.uids[i].sigs);
                    match st {
                        RevocationStatus::Revoked => false,
                        _ => true,
                    }
                } else {
                    false
                }
            },
            None => false,
        };
        proof {
            assert(keep == uid_kept(bv, ev));
        }
        if keep {
            let ghost pre = uid_views(uids@);
            let b = UidBundle {
                uid: copy_uid(&tpk.uids[i].uid),
                sigs: copy_sigs(&tpk.uids[i].sigs),
            };
            proof {
                assert(b@ == bv) by {
                    assert(b@.1 =~= bv.1);
                }
            }
            uids.push(b);
            proof {
                assert(uid_views(uids@) =~= pre.push(bv));
            }
        }
        i = i + 1;
    }
    proof {
        assert(tpk@.uids.take(tpk.uids@.len() as int) =~= tpk@.uids);
    }
    let r = Certificate {
        primary: copy_key(&tpk.primary),
        primary_sigs: copy_sigs(&tpk.primary_sigs),
        subkeys: copy_subkeys(&tpk.subkeys),
        uids,
    };
    proof {
        assert(r@ =~= filter_spec(tpk@, ev));
    }
    r
}

fn copy_subkeys(sks: &Vec<SubkeyBundle>) -> (r: Vec<SubkeyBundle>)
    ensures
        sk_views(r@) == sk_views(sks@),
{
    let mut out: Vec<SubkeyBundle> = Vec::new();
    let mut i: usize = 0;
    while i < sks.len()
        invariant
            i <= sks@.len(),
            out@.len() == i,
            forall|j: int| 0 <= j < i ==> sk_views(out@)[j] == #[trigger] sk_views(sks@)[j],
        decreases sks@.len() - i,
    {
        let b = SubkeyBundle { key: copy_key(&sks[i].key), sigs: copy_sigs(&sks[i].sigs) };
        proof {
            assert(b@ == sks@[i as int]@) by {
                assert(b@.1 =~= sks@[i as int]@.1);
            }
        }
        out.push(b);
        proof {
            assert(sk_views(out@)[i as int] == sk_views(sks@)[i as int]);
        }
        i = i + 1;
    }
    proof {
        assert(sk_views(out@) =~= sk_views(sks@));
    }
    out
}

/// The projection of a certificate within bounds is within bounds.
pub proof fn lemma_filter_wf(c: CertV, emails: Seq<Seq<u8>>)
    requires
        wf_cert(c),
    ensures
        wf_cert(filter_spec(c, emails)),
{
    assert forall|i: int| 0 <= i < c.uids.len() implies wf_bundle_u(#[trigger] c.uids[i]) by {}
    lemma_filter_uids_wf(c.uids, emails);
    let fc = filter_spec(c, emails);
    assert(fc.primary == c.primary && fc.primary_sigs == c.primary_sigs && fc.subkeys
        == c.subkeys);
    assert forall|i: int| 0 <= i < fc.subkeys.len() implies wf_bundle_k(
        #[trigger] fc.subkeys[i],
    ) by {
        assert(wf_bundle_k(c.subkeys[i]));
    }
    assert forall|i: int| 0 <= i < fc.uids.len() implies wf_bundle_u(#[trigger] fc.uids[i]) by {
        assert(wf_bundle_u(filter_uids_spec(c.uids, emails)[i]));
    }
}

proof fn lemma_filter_uids_wf(uids: Seq<(UidV, Seq<SigV>)>, emails: Seq<Seq<u8>>)
    requires
        forall|i: int| 0 <= i < uids.len() ==> wf_bundle_u(#[trigger] uids[i]),
    ensures
        forall|i: int|
            0 <= i < filter_uids_spec(uids, emails).len() ==> wf_bundle_u(
                #[trigger] filter_uids_spec(uids, emails)[i],
            ),
    decreases uids.len(),
{
    if uids.len() > 0 {
        assert forall|i: int| 0 <= i < uids.drop_last().len() implies wf_bundle_u(
            #[trigger] uids.drop_last()[i],
        ) by {
            assert(uids.drop_last()[i] == uids[i]);
        }
        lemma_filter_uids_wf(uids.drop_last(), emails);
        assert(wf_bundle_u(uids[uids.len() - 1]));
        let f = filter_uids_spec(uids, emails);
        let init = filter_uids_spec(uids.drop_last(), emails);
        assert forall|i: int| 0 <= i < f.len() implies wf_bundle_u(#[trigger] f[i]) by {
            if uid_kept(uids.last(), emails) {
                assert(f == init.push(uids.last()));
                if i < init.len() {
                    assert(f[i] == init[i]);
                    assert(wf_bundle_u(init[i]));
                } else {
                    assert(f[i] == uids.last());
                }
            } else {
                assert(f == init);
                assert(wf_bundle_u(init[i]));
            }
        }
    }
}


// ---------------------------------------------------------------------
// Records and the store
// ---------------------------------------------------------------------
/// A store failure: no record answers the query.
#[derive(Clone, Copy, PartialEq, Eq, Structural, Debug)]
pub enum StoreError {
    NotFound,
}

/// The per-fingerprint aggregate: the merged certificate and the set of
/// currently published addresses.
pub struct StoredRecord {
    pub fpr: Vec<u8>,
    pub cert: Certificate,
    pub published: Vec<Email>,
}

#[verifier::ext_equal]
pub struct RecordV {
    pub fpr: Seq<u8>,
    pub cert: CertV,
    pub published: Seq<Seq<u8>>,
}

impl View for StoredRecord {
    type V = RecordV;

    open spec fn view(&self) -> RecordV {
        RecordV { fpr: self.fpr@, cert: self.cert@, published: email_views(self.published@) }
    }
}

pub open spec fn rec_views(v: Seq<StoredRecord>) -> Seq<RecordV> {
    v.map_values(|r: StoredRecord| r@)
}

pub struct CertStore {
    pub records: Vec<StoredRecord>,
}

impl View for CertStore {
    type V = Seq<RecordV>;

    open spec fn view(&self) -> Seq<RecordV> {
        rec_views(self.records@)
    }
}

pub open spec fn find_fpr(s: Seq<RecordV>, fpr: Seq<u8>) -> int
    decreases s.len(),
{
    if s.len() == 0 {
        -1
    } else if s[0].fpr == fpr {
        0
    } else {
        let r = find_fpr(s.drop_first(), fpr);
        if r < 0 {
            -1
        } else {
            r + 1
        }
    }
}

pub open spec fn find_kid(s: Seq<RecordV>, kid: Seq<u8>) -> int
    decreases s.len(),
{
    if s.len() == 0 {
        -1
    } else if s[0].fpr.skip(12) == kid {
        0
    } else {
        let r = find_kid(s.drop_first(), kid);
        if r < 0 {
            -1
        } else {
            r + 1
        }
    }
}

pub open spec fn find_email(s: Seq<RecordV>, e: Seq<u8>) -> int
    decreases s.len(),
{
    if s.len() == 0 {
        -1
    } else if s[0].published.contains(e) {
        0
    } else {
        let r = find_email(s.drop_first(), e);
        if r < 0 {
            -1
        } else {
            r + 1
        }
    }
}

pub proof fn lemma_find_fpr(s: Seq<RecordV>, fpr: Seq<u8>)
    ensures
        find_fpr(s, fpr) == -1 ==> forall|i: int|
            0 <= i < s.len() ==> (#[trigger] s[i]).fpr != fpr,
        find_fpr(s, fpr) >= 0 ==> find_fpr(s, fpr) < s.len() && s[find_fpr(s, fpr)].fpr == fpr
            && forall|i: int| 0 <= i < find_fpr(s, fpr) ==> (#[trigger] s[i]).fpr != fpr,
    decreases s.len(),
{
    if s.len() > 0 && s[0].fpr != fpr {
        lemma_find_fpr(s.drop_first(), fpr);
        assert(forall|i: int| 1 <= i < s.len() ==> s[i] == s.drop_first()[i - 1]);
    }
}

pub proof fn lemma_find_fpr_first(s: Seq<RecordV>, fpr: Seq<u8>, i: int)
    requires
        0 <= i < s.len(),
        s[i].fpr == fpr,
        forall|j: int| 0 <= j < i ==> (#[trigger] s[j]).fpr != fpr,
    ensures
        find_fpr(s, fpr) == i,
    decreases s.len(),
{
    if i > 0 {
        let q = s.drop_first();
        assert(q[i - 1] == s[i]);
        assert forall|j: int| 0 <= j < i - 1 implies (#[trigger] q[j]).fpr != fpr by {
            assert(q[j] == s[j + 1]);
        }
        lemma_find_fpr_first(q, fpr, i - 1);
    }
}

pub proof fn lemma_find_kid(s: Seq<RecordV>, kid: Seq<u8>)
    ensures
        find_kid(s, kid) == -1 ==> forall|i: int|
            0 <= i < s.len() ==> (#[trigger] s[i]).fpr.skip(12) != kid,
        find_kid(s, kid) >= 0 ==> find_kid(s, kid) < s.len() && s[find_kid(s, kid)].fpr.skip(12)
            == kid,
    decreases s.len(),
{
    if s.len() > 0 && s[0].fpr.skip(12) != kid {
        lemma_find_kid(s.drop_first(), kid);
        assert(forall|i: int| 1 <= i < s.len() ==> s[i] == s.drop_first()[i - 1]);
    }
}

pub proof fn lemma_find_kid_first(s: Seq<RecordV>, kid: Seq<u8>, i: int)
    requires
        0 <= i < s.len(),
        s[i].fpr.skip(12) == kid,
        forall|j: int| 0 <= j < i ==> (#[trigger] s[j]).fpr.skip(12) != kid,
    ensures
        find_kid(s, kid) == i,
    decreases s.len(),
{
    if i > 0 {
        let q = s.drop_first();
        assert(q[i - 1] == s[i]);
        assert forall|j: int| 0 <= j < i - 1 implies (#[trigger] q[j]).fpr.skip(12) != kid by {
            assert(q[j] == s[j + 1]);
        }
        lemma_find_kid_first(q, kid, i - 1);
    }
}

pub proof fn lemma_find_email(s: Seq<RecordV>, e: Seq<u8>)
    ensures
        find_email(s, e) == -1 ==> forall|i: int|
            0 <= i < s.len() ==> !(#[trigger] s[i]).published.contains(e),
        find_email(s, e) >= 0 ==> find_email(s, e) < s.len() && s[find_email(s, e)].published.contains(e),
    decreases s.len(),
{
    if s.len() > 0 && !s[0].published.contains(e) {
        lemma_find_email(s.drop_first(), e);
        assert(forall|i: int| 1 <= i < s.len() ==> s[i] == s.drop_first()[i - 1]);
    }
}

pub proof fn lemma_find_email_first(s: Seq<RecordV>, e: Seq<u8>, i: int)
    requires
        0 <= i < s.len(),
        s[i].published.contains(e),
        forall|j: int| 0 <= j < i ==> !(#[trigger] s[j]).published.contains(e),
    ensures
        find_email(s, e) == i,
    decreases s.len(),
{
    if i > 0 {
        let q = s.drop_first();
        assert(q[i - 1] == s[i]);
        assert forall|j: int| 0 <= j < i - 1 implies !(#[trigger] q[j]).published.contains(e) by {
            assert(q[j] == s[j + 1]);
        }
        lemma_find_email_first(q, e, i - 1);
    }
}

/// One record is sound: its fingerprint is derived from its normalized,
/// serializable certificate, and everything published is carried by a
/// living identity.
pub open spec fn rec_inv(r: RecordV) -> bool {
    &&& r.fpr.len() == 20
    &&& r.fpr == crate::codec::fpr_of(r.cert)
    &&& wf_cert(r.cert)
    &&& r.cert == crate::merge::clean(r.cert)
    &&& forall|e: Seq<u8>| #[trigger] r.published.contains(e) ==> published_allowed(r.cert, e)
}

/// The store is sound: one record per fingerprint, each sound, and each
/// address published under at most one fingerprint.
pub open spec fn store_inv(s: Seq<RecordV>) -> bool {
    &&& forall|i: int, j: int| #![trigger s[i], s[j]] 0 <= i < j < s.len() ==> s[i].fpr != s[j].fpr
    &&& forall|i: int| 0 <= i < s.len() ==> rec_inv(#[trigger] s[i])
    &&& forall|i: int, j: int, e: Seq<u8>|
        #![trigger s[i].published.contains(e), s[j].published.contains(e)]
        0 <= i < s.len() && 0 <= j < s.len() && i != j ==> !(s[i].published.contains(e)
            && s[j].published.contains(e))
}

// ---------------------------------------------------------------------
// Published set edits
// ---------------------------------------------------------------------
/// The published addresses that the certificate still carries alive.
pub open spec fn keep_allowed_spec(published: Seq<Seq<u8>>, c: CertV) -> Seq<Seq<u8>>
    decreases published.len(),
{
    if published.len() == 0 {
        Seq::empty()
    } else {
        let init = keep_allowed_spec(published.drop_last(), c);
        if published_allowed(c, published.last()) {
            init.push(published.last())
        } else {
            init
        }
    }
}

pub proof fn lemma_keep_allowed_contains(published: Seq<Seq<u8>>, c: CertV, e: Seq<u8>)
    ensures
        keep_allowed_spec(published, c).contains(e) == (published.contains(e) && published_allowed(
            c,
            e,
        )),
    decreases published.len(),
{
    if published.len() > 0 {
        lemma_keep_allowed_contains(published.drop_last(), c, e);
        crate::merge::lemma_contains_drop_last(published, e);
        let init = keep_allowed_spec(published.drop_last(), c);
        if published_allowed(c, published.last()) {
            crate::merge::lemma_contains_drop_last(init.push(published.last()), e);
            assert(init.push(published.last()).drop_last() =~= init);
        }
    }
}

/// The published addresses with one address removed.
pub open spec fn remove_email_spec(published: Seq<Seq<u8>>, e: Seq<u8>) -> Seq<Seq<u8>>
    decreases published.len(),
{
    if published.len() == 0 {
        Seq::empty()
    } else {
        let init = remove_email_spec(published.drop_last(), e);
        if published.last() != e {
            init.push(published.last())
        } else {
            init
        }
    }
}

pub proof fn lemma_remove_email_contains(published: Seq<Seq<u8>>, e: Seq<u8>, x: Seq<u8>)
    ensures
        remove_email_spec(published, e).contains(x) == (published.contains(x) && x != e),
    decreases published.len(),
{
    if published.len() > 0 {
        lemma_remove_email_contains(published.drop_last(), e, x);
        crate::merge::lemma_contains_drop_last(published, x);
        let init = remove_email_spec(published.drop_last(), e);
        if published.last() != e {
            crate::merge::lemma_contains_drop_last(init.push(published.last()), x);
            assert(init.push(published.last()).drop_last() =~= init);
        }
    }
}

fn keep_allowed_exec(published: &Vec<Email>, cert: &Certificate) -> (r: Vec<Email>)
    ensures
        email_views(r@) == keep_allowed_spec(email_views(published@), cert@),
{
    let ghost pv = email_views(published@);
    let mut out: Vec<Email> = Vec::new();
    let mut i: usize = 0;
    while i < published.len()
        invariant
            i <= published@.len(),
            pv == email_views(published@),
            email_views(out@) == keep_allowed_spec(pv.take(i as int), cert@),
        decreases published@.len() - i,
    {
        proof {
            assert(pv[i as int] == published@[i as int]@);
            assert(pv.take(i + 1).drop_last() =~= pv.take(i as int));
            assert(pv.take(i + 1).last() == pv[i as int]);
        }
        if email_allowed(cert, published[i].addr.as_slice()) {
            let ghost pre = email_views(out@);
            out.push(Email { addr: copy_bytes(&published[i].addr) });
            proof {
                assert(email_views(out@) =~= pre.push(pv[i as int]));
            }
        }
        i = i + 1;
    }
    proof {
        assert(pv.take(published@.len() as int) =~= pv);
    }
    out
}

fn remove_email_exec(published: &Vec<Email>, e: &[u8]) -> (r: Vec<Email>)
    ensures
        email_views(r@) == remove_email_spec(email_views(published@), e@),
{
    let ghost pv = email_views(published@);
    let mut out: Vec<Email> = Vec::new();
    let mut i: usize = 0;
    while i < published.len()
        invariant
            i <= published@.len(),
            pv == email_views(published@),
            email_views(out@) == remove_email_spec(pv.take(i as int), e@),
        decreases published@.len() - i,
    {
        proof {
            assert(pv[i as int] == published@[i as int]@);
            assert(pv.take(i + 1).drop_last() =~= pv.take(i as int));
            assert(pv.take(i + 1).last() == pv[i as int]);
        }
        if !bytes_eq(published[i].addr.as_slice(), e) {
            let ghost pre = email_views(out@);
            out.push(Email { addr: copy_bytes(&published[i].addr) });
            proof {
                assert(email_views(out@) =~= pre.push(pv[i as int]));
            }
        }
        i = i + 1;
    }
    proof {
        assert(pv.take(published@.len() as int) =~= pv);
    }
    out
}

/// The addresses of living identities that still await verification:
/// carried by a non-revoked identity, not yet published, each listed
/// once.
pub open spec fn pending_list(uids: Seq<(UidV, Seq<SigV>)>, published: Seq<Seq<u8>>) -> Seq<
    Seq<u8>,
>
    decreases uids.len(),
{
    if uids.len() == 0 {
        Seq::empty()
    } else {
        let init = pending_list(uids.drop_last(), published);
        match email_of_label(uids.last().0.label) {
            Some(e) => {
                if !(status_of(uids.last().1) is Revoked) && !published.contains(e)
                    && !init.contains(e) {
                    init.push(e)
                } else {
                    init
                }
            },
            None => init,
        }
    }
}

fn pending_emails(cert: &Certificate, published: &Vec<Email>) -> (r: Vec<Email>)
    ensures
        email_views(r@) == pending_list(cert@.uids, email_views(published@)),
{
    let ghost pv = email_views(published@);
    let mut out: Vec<Email> = Vec::new();
    let mut i: usize = 0;
    while i < cert.uids.len()
        invariant
            i <= cert.uids@.len(),
            pv == email_views(published@),
            email_views(out@) == pending_list(cert@.uids.take(i as int), pv),
        decreases cert.uids@.len() - i,
    {
        proof {
            assert(cert@.uids[i as int] == cert.uids@[i as int]@);
            assert(cert@.uids.take(i + 1).drop_last() =~= cert@.uids.take(i as int));
            assert(cert@.uids.take(i + 1).last() == cert@.uids[i as int]);
        }
        match email_from_label(cert.uids[i].uid.label.as_slice()) {
            Some(em) => {
                let st = component_status(&cert.uids[i].sigs);
                let revoked = match st {
                    RevocationStatus::Revoked => true,
                    _ => false,
                };
                if !revoked && !email_in_list(published, em.addr.as_slice()) && !email_in_list(
                    &out,
                    em.addr.as_slice(),
                ) {
                    let ghost pre = email_views(out@);
                    out.push(em);
                    proof {
                        assert(email_views(out@) =~= pre.push(
                            email_of_label(cert@.uids[i as int].0.label).unwrap(),
                        ));
                    }
                }
            },
            None => {},
        }
        i = i + 1;
    }
    proof {
        assert(cert@.uids.take(cert.uids@.len() as int) =~= cert@.uids);
    }
    out
}


impl CertStore {
    /// An empty directory.
    pub fn new() -> (r: CertStore)
        ensures
            r@.len() == 0,
            store_inv(r@),
    {
        let r = CertStore { records: Vec::new() };
        proof {
            assert(r@ =~= Seq::<RecordV>::empty());
        }
        r
    }

    pub fn find_record(&self, fpr: &[u8]) -> (r: Option<usize>)
        ensures
            match r {
                Some(i) => 0 <= i < self@.len() && find_fpr(self@, fpr@) == i as int,
                None => find_fpr(self@, fpr@) == -1,
            },
    {
        let mut i: usize = 0;
        while i < self.records.len()
            invariant
                i <= self.records@.len(),
                forall|j: int| 0 <= j < i ==> (#[trigger] self@[j]).fpr != fpr@,
            decreases self.records@.len() - i,
        {
            proof {
                assert(self@[i as int] == self.records@[i as int]@);
            }
            if bytes_eq(self.records[i].fpr.as_slice(), fpr) {
                proof {
                    lemma_find_fpr_first(self@, fpr@, i as int);
                }
                return Some(i);
            }
            i = i + 1;
        }
        proof {
            lemma_find_fpr(self@, fpr@);
            if find_fpr(self@, fpr@) >= 0 {
                assert(false);
            }
        }
        None
    }

    /// Accepts an upload: normalizes the material, merges it with any
    /// stored record for the same fingerprint, drops published
    /// addresses that the merge has revoked, and returns the
    /// fingerprint with the living addresses still awaiting
    /// verification.
    pub fn upload(&mut self, raw: &[u8]) -> (r: Result<
        (Vec<u8>, Vec<Email>),
        crate::codec::PgpError,
    >)
        requires
            store_inv(old(self)@),
        ensures
            store_inv(final(self)@),
            match r {
                Err(e) => crate::codec::parse_spec(raw@) is None && e is Malformed && final(self)@
                    == old(self)@,
                Ok(p) => {
                    let c = crate::codec::parse_spec(raw@).unwrap();
                    let j = find_fpr(old(self)@, crate::codec::fpr_of(c));
                    &&& crate::codec::parse_spec(raw@) is Some
                    &&& p.0@ == crate::codec::fpr_of(c)
                    &&& p.0@.len() == 20
                    &&& (j < 0 ==> final(self)@ == old(self)@.push(
                        RecordV {
                            fpr: crate::codec::fpr_of(c),
                            cert: crate::merge::clean(c),
                            published: Seq::empty(),
                        },
                    ) && email_views(p.1@) == pending_list(
                        crate::merge::clean(c).uids,
                        Seq::empty(),
                    ))
                    &&& (j >= 0 ==> {
                        let m = crate::merge::merge_spec(old(self)@[j].cert, c);
                        let np = keep_allowed_spec(old(self)@[j].published, m);
                        &&& final(self)@ == old(self)@.update(
                            j,
                            RecordV { fpr: old(self)@[j].fpr, cert: m, published: np },
                        )
                        &&& email_views(p.1@) == pending_list(m.uids, np)
                    })
                },
            },
    {
        let cert = match crate::codec::parse_cert(raw) {
            Ok(c) => c,
            Err(e) => {
                return Err(e);
            },
        };
        let fprv = crate::codec::fingerprint(&cert);
        match self.find_record(fprv.as_slice()) {
            None => {
                let merged = crate::merge::merge(None, &cert);
                proof {
                    crate::merge::lemma_clean_wf(cert@);
                    crate::merge::lemma_normalize_idempotent(cert@);
                    assert(crate::merge::clean(cert@).primary == cert@.primary);
                    assert(crate::codec::fpr_of(crate::merge::clean(cert@)) == crate::codec::fpr_of(
                        cert@,
                    ));
                }
                let none_pub: Vec<Email> = Vec::new();
                let pending = pending_emails(&merged, &none_pub);
                proof {
                    assert(email_views(none_pub@) =~= Seq::<Seq<u8>>::empty());
                }
                let fpr2 = copy_bytes(&fprv);
                let ghost pre = self@;
                let ghost newv = RecordV {
                    fpr: crate::codec::fpr_of(cert@),
                    cert: crate::merge::clean(cert@),
                    published: Seq::empty(),
                };
                let newrec = StoredRecord { fpr: fpr2, cert: merged, published: Vec::new() };
                proof {
                    assert(newrec@ =~= newv);
                }
                self.records.push(newrec);
                proof {
                    assert(self@ =~= pre.push(newv));
                    lemma_find_fpr(pre, crate::codec::fpr_of(cert@));
                    let s2 = self@;
                    assert forall|i: int, j: int|
                        #![trigger s2[i], s2[j]]
                        0 <= i < j < s2.len() implies s2[i].fpr != s2[j].fpr by {
                        if j < pre.len() {
                            assert(s2[i] == pre[i] && s2[j] == pre[j]);
                        } else {
                            assert(s2[i] == pre[i] && s2[j] == newv);
                        }
                    }
                    assert forall|i: int| 0 <= i < s2.len() implies rec_inv(#[trigger] s2[i]) by {
                        if i < pre.len() {
                            assert(s2[i] == pre[i]);
                            assert(rec_inv(pre[i]));
                        } else {
                            assert(s2[i] == newv);
                        }
                    }
                    assert forall|i: int, j: int, e: Seq<u8>|
                        #![trigger s2[i].published.contains(e), s2[j].published.contains(e)]
                        0 <= i < s2.len() && 0 <= j < s2.len() && i != j implies !(
                    s2[i].published.contains(e) && s2[j].published.contains(e)) by {
                        if i < pre.len() && j < pre.len() {
                            assert(s2[i] == pre[i] && s2[j] == pre[j]);
                            assert(!(pre[i].published.contains(e) && pre[j].published.contains(
                                e,
                            )));
                        } else {
                            assert(s2[i] == newv || s2[j] == newv);
                        }
                    }
                }
                Ok((fprv, pending))
            },
            Some(j) => {
                let ghost jj = j as int;
                let ghost oldrec = old(self)@[jj];
                proof {
                    assert(oldrec == self.records@[jj]@);
                    assert(rec_inv(oldrec));
                    lemma_find_fpr(old(self)@, fprv@);
                    assert(oldrec.fpr == fprv@);
                }
                let merged = crate::merge::merge(Some(&self.records[j].cert), &cert);
                proof {
                    crate::merge::lemma_merge_wf(oldrec.cert, cert@);
                    crate::merge::lemma_normalize_idempotent(
                        crate::merge::cert_concat(oldrec.cert, cert@),
                    );
                    assert(crate::merge::merge_spec(oldrec.cert, cert@).primary
                        == oldrec.cert.primary);
                    assert(crate::codec::fpr_of(crate::merge::merge_spec(oldrec.cert, cert@))
                        == crate::codec::fpr_of(oldrec.cert));
                }
                let newpub = keep_allowed_exec(&self.records[j].published, &merged);
                let pending = pending_emails(&merged, &newpub);
                let mut rec = self.records.remove(j);
                rec.cert = merged;
                rec.published = newpub;
                let ghost ob = old(self).records@;
                let ghost m = crate::merge::merge_spec(oldrec.cert, cert@);
                let ghost np = keep_allowed_spec(oldrec.published, m);
                let ghost newv = RecordV { fpr: oldrec.fpr, cert: m, published: np };
                proof {
                    assert(rec@ =~= newv);
                }
                self.records.insert(j, rec);
                proof {
                    let ns = self.records@;
                    assert forall|k: int| 0 <= k < ns.len() implies ns[k]@ == old(self)@.update(
                        jj,
                        newv,
                    )[k] by {
                        if k < jj {
                            assert(ns[k] == ob[k]);
                        } else if k == jj {
                        } else {
                            assert(ns[k] == ob[k]);
                        }
                    }
                    assert(self@ =~= old(self)@.update(jj, newv));
                    let s2 = self@;
                    let pre = old(self)@;
                    assert forall|i: int, k: int|
                        #![trigger s2[i], s2[k]]
                        0 <= i < k < s2.len() implies s2[i].fpr != s2[k].fpr by {
                        assert(s2[i].fpr == pre[i].fpr && s2[k].fpr == pre[k].fpr);
                    }
                    assert forall|i: int| 0 <= i < s2.len() implies rec_inv(#[trigger] s2[i]) by {
                        if i != jj {
                            assert(s2[i] == pre[i]);
                            assert(rec_inv(pre[i]));
                        } else {
                            assert(s2[i] == newv);
                            assert forall|e: Seq<u8>| #[trigger] np.contains(e) implies
                                published_allowed(m, e) by {
                                lemma_keep_allowed_contains(oldrec.published, m, e);
                            }
                        }
                    }
                    assert forall|i: int, k: int, e: Seq<u8>|
                        #![trigger s2[i].published.contains(e), s2[k].published.contains(e)]
                        0 <= i < s2.len() && 0 <= k < s2.len() && i != k implies !(
                    s2[i].published.contains(e) && s2[k].published.contains(e)) by {
                        assert(!(pre[i].published.contains(e) && pre[k].published.contains(e)));
                        if i == jj {
                            lemma_keep_allowed_contains(oldrec.published, m, e);
                        }
                        if k == jj {
                            lemma_keep_allowed_contains(oldrec.published, m, e);
                        }
                    }
                }
                Ok((fprv, pending))
            },
        }
    }
}


/// What the published set of record `i` holds after a publish at `j`.
pub open spec fn publish_published(pre: Seq<RecordV>, i: int, j: int, email: Seq<u8>) -> Seq<
    Seq<u8>,
> {
    if i == j {
        if pre[j].published.contains(email) {
            pre[j].published
        } else {
            pre[j].published.push(email)
        }
    } else {
        remove_email_spec(pre[i].published, email)
    }
}

impl CertStore {
    /// Publishes a verified address under a fingerprint: the address
    /// becomes resolvable to that record and to no other; a prior
    /// binding of the same address elsewhere is unpublished. Fails when
    /// the fingerprint is unknown or no living identity of the record
    /// carries the address.
    pub fn publish(&mut self, fpr: &[u8], email: &[u8]) -> (r: Result<(), StoreError>)
        requires
            store_inv(old(self)@),
        ensures
            store_inv(final(self)@),
            match r {
                Err(e) => {
                    &&& e is NotFound
                    &&& final(self)@ == old(self)@
                    &&& (find_fpr(old(self)@, fpr@) < 0 || !published_allowed(
                        old(self)@[find_fpr(old(self)@, fpr@)].cert,
                        email@,
                    ))
                },
                Ok(u) => {
                    let j = find_fpr(old(self)@, fpr@);
                    &&& 0 <= j < old(self)@.len()
                    &&& published_allowed(old(self)@[j].cert, email@)
                    &&& final(self)@.len() == old(self)@.len()
                    &&& forall|i: int|
                        #![trigger final(self)@[i]]
                        0 <= i < old(self)@.len() ==> final(self)@[i].fpr == old(self)@[i].fpr
                            && final(self)@[i].cert == old(self)@[i].cert
                    &&& forall|i: int, e: Seq<u8>|
                        #![trigger final(self)@[i].published.contains(e)]
                        0 <= i < old(self)@.len() ==> final(self)@[i].published.contains(e) == (
                        if e == email@ {
                            i == j
                        } else {
                            old(self)@[i].published.contains(e)
                        })
                },
            },
    {
        let j = match self.find_record(fpr) {
            Some(j) => j,
            None => {
                return Err(StoreError::NotFound);
            },
        };
        if !email_allowed(&self.records[j].cert, email) {
            proof {
                assert(old(self)@[j as int] == self.records@[j as int]@);
            }
            return Err(StoreError::NotFound);
        }
        proof {
            assert(old(self)@[j as int] == self.records@[j as int]@);
        }
        let ghost jj = j as int;
        let ghost pre = old(self)@;
        let n = self.records.len();
        let mut newrecs: Vec<StoredRecord> = Vec::new();
        let mut i: usize = 0;
        while i < n
            invariant
                i <= n,
                n == pre.len(),
                0 <= jj < n,
                jj == j as int,
                pre == old(self)@,
                store_inv(pre),
                self.records@.len() == n - i,
                forall|k: int| 0 <= k < n - i ==> (#[trigger] self.records@[k])@ == pre[k + i],
                newrecs@.len() == i,
                forall|k: int|
                    0 <= k < i ==> (#[trigger] newrecs@[k])@ == (RecordV {
                        fpr: pre[k].fpr,
                        cert: pre[k].cert,
                        published: publish_published(pre, k, jj, email@),
                    }),
            decreases n - i,
        {
            proof {
                assert(self.records@[0]@ == pre[i as int]);
            }
            let ghost entry = self.records@;
            let mut rec = self.records.remove(0);
            proof {
                assert(rec@ == pre[i as int]);
            }
            if i == j {
                let contained = email_in_list(&rec.published, email);
                proof {
                    assert(contained == pre[jj].published.contains(email@));
                }
                if !contained {
                    let ghost pp = email_views(rec.published@);
                    rec.published.push(
                        Email { addr: crate::codec::copy_range(email, 0, email.len()) },
                    );
                    proof {
                        assert(email@.subrange(0, email@.len() as int) =~= email@);
                        assert(email_views(rec.published@) =~= pp.push(email@));
                    }
                }
                proof {
                    assert(email_views(rec.published@) =~= publish_published(
                        pre,
                        i as int,
                        jj,
                        email@,
                    ));
                }
            } else {
                let np = remove_email_exec(&rec.published, email);
                rec.published = np;
                proof {
                    assert(email_views(rec.published@) =~= publish_published(
                        pre,
                        i as int,
                        jj,
                        email@,
                    ));
                }
            }
            proof {
                assert(rec@ =~= (RecordV {
                    fpr: pre[i as int].fpr,
                    cert: pre[i as int].cert,
                    published: publish_published(pre, i as int, jj, email@),
                }));
            }
            newrecs.push(rec);
            proof {
                assert forall|k: int| 0 <= k < n - i - 1 implies (#[trigger] self.records@[k])@
                    == pre[k + i + 1] by {
                    assert(self.records@[k] == entry[k + 1]);
                    assert(entry[k + 1]@ == pre[k + 1 + i]);
                }
            }
            i = i + 1;
        }
        self.records = newrecs;
        proof {
            let s2 = self@;
            assert(s2.len() == pre.len());
            assert forall|k: int| 0 <= k < s2.len() implies #[trigger] s2[k] == (RecordV {
                fpr: pre[k].fpr,
                cert: pre[k].cert,
                published: publish_published(pre, k, jj, email@),
            }) by {
                assert(s2[k] == newrecs@[k]@);
            }
            lemma_find_fpr(pre, fpr@);
            assert(pre[jj].fpr == fpr@);
            // the published sets after the edit
            assert forall|k: int, e: Seq<u8>|
                0 <= k < s2.len() implies (#[trigger] s2[k].published.contains(e)) == (if e
                == email@ {
                k == jj
            } else {
                pre[k].published.contains(e)
            }) by {
                if k == jj {
                    if pre[jj].published.contains(email@) {
                        assert(s2[k].published == pre[jj].published);
                    } else {
                        crate::merge::lemma_contains_drop_last(
                            pre[jj].published.push(email@),
                            e,
                        );
                        assert(pre[jj].published.push(email@).drop_last() =~= pre[jj].published);
                        assert(pre[jj].published.push(email@).last() == email@);
                    }
                } else {
                    lemma_remove_email_contains(pre[k].published, email@, e);
                }
            }
            // soundness of the new state
            assert forall|a: int, b: int| #![trigger s2[a], s2[b]] 0 <= a < b < s2.len() implies
                s2[a].fpr != s2[b].fpr by {
                assert(pre[a].fpr != pre[b].fpr);
            }
            assert forall|k: int| 0 <= k < s2.len() implies rec_inv(#[trigger] s2[k]) by {
                assert(rec_inv(pre[k]));
                assert forall|e: Seq<u8>| #[trigger] s2[k].published.contains(e) implies
                    published_allowed(s2[k].cert, e) by {
                    if e == email@ {
                        assert(k == jj);
                        assert(published_allowed(pre[jj].cert, email@));
                    } else {
                        assert(pre[k].published.contains(e));
                    }
                }
            }
            assert forall|a: int, b: int, e: Seq<u8>|
                #![trigger s2[a].published.contains(e), s2[b].published.contains(e)]
                0 <= a < s2.len() && 0 <= b < s2.len() && a != b implies !(
            s2[a].published.contains(e) && s2[b].published.contains(e)) by {
                if e == email@ {
                } else {
                    assert(!(pre[a].published.contains(e) && pre[b].published.contains(e)));
                }
            }
        }
        Ok(())
    }

    /// Retracts a published address from a record. The signature
    /// material is retained; only the binding's visibility changes.
    pub fn unpublish(&mut self, fpr: &[u8], email: &[u8]) -> (r: Result<(), StoreError>)
        requires
            store_inv(old(self)@),
        ensures
            store_inv(final(self)@),
            match r {
                Err(e) => e is NotFound && final(self)@ == old(self)@ && find_fpr(
                    old(self)@,
                    fpr@,
                ) < 0,
                Ok(u) => {
                    let j = find_fpr(old(self)@, fpr@);
                    &&& 0 <= j < old(self)@.len()
                    &&& final(self)@.len() == old(self)@.len()
                    &&& forall|i: int|
                        0 <= i < old(self)@.len() && i != j ==> #[trigger] final(self)@[i] == old(
                            self,
                        )@[i]
                    &&& final(self)@[j].fpr == old(self)@[j].fpr
                    &&& final(self)@[j].cert == old(self)@[j].cert
                    &&& final(self)@[j].published == remove_email_spec(
                        old(self)@[j].published,
                        email@,
                    )
                },
            },
    {
        let j = match self.find_record(fpr) {
            Some(j) => j,
            None => {
                return Err(StoreError::NotFound);
            },
        };
        let ghost jj = j as int;
        let ghost pre = old(self)@;
        proof {
            assert(pre[jj] == self.records@[jj]@);
        }
        let mut rec = self.records.remove(j);
        let np = remove_email_exec(&rec.published, email);
        rec.published = np;
        let ghost ob = old(self).records@;
        let ghost newv = RecordV {
            fpr: pre[jj].fpr,
            cert: pre[jj].cert,
            published: remove_email_spec(pre[jj].published, email@),
        };
        proof {
            assert(rec@ =~= newv);
        }
        self.records.insert(j, rec);
        proof {
            let ns = self.records@;
            assert forall|k: int| 0 <= k < ns.len() implies ns[k]@ == pre.update(jj, newv)[k] by {
                if k < jj {
                    assert(ns[k] == ob[k]);
                } else if k == jj {
                } else {
                    assert(ns[k] == ob[k]);
                }
            }
            assert(self@ =~= pre.update(jj, newv));
            let s2 = self@;
            assert forall|a: int, b: int| #![trigger s2[a], s2[b]] 0 <= a < b < s2.len() implies
                s2[a].fpr != s2[b].fpr by {
                assert(s2[a].fpr == pre[a].fpr && s2[b].fpr == pre[b].fpr);
                assert(pre[a].fpr != pre[b].fpr);
            }
            assert forall|k: int| 0 <= k < s2.len() implies rec_inv(#[trigger] s2[k]) by {
                assert(rec_inv(pre[k]));
                if k == jj {
                    assert forall|e: Seq<u8>| #[trigger] s2[k].published.contains(e) implies
                        published_allowed(s2[k].cert, e) by {
                        lemma_remove_email_contains(pre[jj].published, email@, e);
                        assert(pre[jj].published.contains(e));
                    }
                }
            }
            assert forall|a: int, b: int, e: Seq<u8>|
                #![trigger s2[a].published.contains(e), s2[b].published.contains(e)]
                0 <= a < s2.len() && 0 <= b < s2.len() && a != b implies !(
            s2[a].published.contains(e) && s2[b].published.contains(e)) by {
                assert(!(pre[a].published.contains(e) && pre[b].published.contains(e)));
                if a == jj {
                    lemma_remove_email_contains(pre[jj].published, email@, e);
                }
                if b == jj {
                    lemma_remove_email_contains(pre[jj].published, email@, e);
                }
            }
        }
        Ok(())
    }

    /// The published projection of the record with this fingerprint, as
    /// armored text.
    pub fn by_fpr(&self, fpr: &[u8]) -> (r: Option<String>)
        requires
            store_inv(self@),
        ensures
            match r {
                None => find_fpr(self@, fpr@) < 0,
                Some(s) => {
                    let j = find_fpr(self@, fpr@);
                    &&& 0 <= j < self@.len()
                    &&& s@ == ascii_chars(
                        crate::codec::armor_bytes(
                            crate::codec::ser_cert(
                                filter_spec(self@[j].cert, self@[j].published),
                            ),
                        ),
                    )
                },
            },
    {
        let j = match self.find_record(fpr) {
            Some(j) => j,
            None => {
                return None;
            },
        };
        proof {
            assert(self@[j as int] == self.records@[j as int]@);
            assert(rec_inv(self@[j as int]));
        }
        Some(self.render_record(j))
    }

    /// The published projection of the record whose fingerprint ends in
    /// this key identifier.
    pub fn by_kid(&self, kid: &[u8]) -> (r: Option<String>)
        requires
            store_inv(self@),
        ensures
            match r {
                None => find_kid(self@, kid@) < 0,
                Some(s) => {
                    let j = find_kid(self@, kid@);
                    &&& 0 <= j < self@.len()
                    &&& s@ == ascii_chars(
                        crate::codec::armor_bytes(
                            crate::codec::ser_cert(
                                filter_spec(self@[j].cert, self@[j].published),
                            ),
                        ),
                    )
                },
            },
    {
        let mut i: usize = 0;
        while i < self.records.len()
            invariant
                i <= self.records@.len(),
                store_inv(self@),
                forall|j: int| 0 <= j < i ==> (#[trigger] self@[j]).fpr.skip(12) != kid@,
            decreases self.records@.len() - i,
        {
            proof {
                assert(self@[i as int] == self.records@[i as int]@);
                assert(rec_inv(self@[i as int]));
            }
            let suffix = crate::codec::copy_range(self.records[i].fpr.as_slice(), 12, 20);
            proof {
                assert(suffix@ =~= self@[i as int].fpr.skip(12));
            }
            if bytes_eq(suffix.as_slice(), kid) {
                proof {
                    lemma_find_kid_first(self@, kid@, i as int);
                }
                return Some(self.render_record(i));
            }
            i = i + 1;
        }
        proof {
            lemma_find_kid(self@, kid@);
            if find_kid(self@, kid@) >= 0 {
                assert(false);
            }
        }
        None
    }

    /// The published projection of the record under which this address
    /// is published, filtered to that one identity.
    pub fn by_email(&self, email: &[u8]) -> (r: Option<String>)
        requires
            store_inv(self@),
        ensures
            match r {
                None => find_email(self@, email@) < 0,
                Some(s) => {
                    let j = find_email(self@, email@);
                    &&& 0 <= j < self@.len()
                    &&& s@ == ascii_chars(
                        crate::codec::armor_bytes(
                            crate::codec::ser_cert(filter_spec(self@[j].cert, seq![email@])),
                        ),
                    )
                },
            },
    {
        let mut i: usize = 0;
        while i < self.records.len()
            invariant
                i <= self.records@.len(),
                store_inv(self@),
                forall|j: int| 0 <= j < i ==> !(#[trigger] self@[j]).published.contains(email@),
            decreases self.records@.len() - i,
        {
            proof {
                assert(self@[i as int] == self.records@[i as int]@);
                assert(rec_inv(self@[i as int]));
            }
            if email_in_list(&self.records[i].published, email) {
                proof {
                    lemma_find_email_first(self@, email@, i as int);
                }
                let one = Email { addr: crate::codec::copy_range(email, 0, email.len()) };
                proof {
                    assert(email@.subrange(0, email@.len() as int) =~= email@);
                }
                let mut list: Vec<Email> = Vec::new();
                list.push(one);
                proof {
                    assert(email_views(list@) =~= seq![email@]);
                }
                let proj = tpk_filter_alive_emails(&self.records[i].cert, &list);
                proof {
                    lemma_filter_wf(self@[i as int].cert, seq![email@]);
                }
                let armored = match crate::codec::tpk_to_string(&proj) {
                    Ok(v) => v,
                    Err(e) => {
                        proof {
                            assert(false);
                        }
                        return None;
                    },
                };
                proof {
                    crate::codec::lemma_armor_ascii(
                        crate::codec::ser_cert(filter_spec(self@[i as int].cert, seq![email@])),
                    );
                }
                return Some(crate::textenc::ascii_to_string(armored));
            }
            i = i + 1;
        }
        proof {
            lemma_find_email(self@, email@);
            if find_email(self@, email@) >= 0 {
                assert(false);
            }
        }
        None
    }

    fn render_record(&self, j: usize) -> (s: String)
        requires
            j < self@.len(),
            rec_inv(self@[j as int]),
        ensures
            s@ == ascii_chars(
                crate::codec::armor_bytes(
                    crate::codec::ser_cert(
                        filter_spec(self@[j as int].cert, self@[j as int].published),
                    ),
                ),
            ),
    {
        proof {
            assert(self@[j as int] == self.records@[j as int]@);
        }
        let proj = tpk_filter_alive_emails(&self.records[j].cert, &self.records[j].published);
        proof {
            lemma_filter_wf(self@[j as int].cert, self@[j as int].published);
        }
        let armored = match crate::codec::tpk_to_string(&proj) {
            Ok(v) => v,
            Err(e) => {
                proof {
                    assert(false);
                }
                return String::new();
            },
        };
        proof {
            crate::codec::lemma_armor_ascii(
                crate::codec::ser_cert(
                    filter_spec(self@[j as int].cert, self@[j as int].published),
                ),
            );
        }
        crate::textenc::ascii_to_string(armored)
    }
}

/// The publish law: once an address is published under a fingerprint,
/// looking the address up resolves to that record and to no other.
pub proof fn lemma_publish_resolves(s: Seq<RecordV>, j: int, e: Seq<u8>)
    requires
        0 <= j < s.len(),
        forall|i: int|
            0 <= i < s.len() ==> (#[trigger] s[i].published.contains(e)) == (i == j),
    ensures
        find_email(s, e) == j,
{
    lemma_find_email_first(s, e, j);
}


impl CertStore {
    /// The published addresses of one record, as values.
    pub fn published_of(&self, j: usize) -> (r: Vec<Email>)
        requires
            j < self@.len(),
        ensures
            email_views(r@) == self@[j as int].published,
    {
        proof {
            assert(self@[j as int] == self.records@[j as int]@);
        }
        let src = &self.records[j].published;
        let mut out: Vec<Email> = Vec::new();
        let mut i: usize = 0;
        while i < src.len()
            invariant
                i <= src@.len(),
                email_views(out@) == email_views(src@).take(i as int),
            decreases src@.len() - i,
        {
            proof {
                assert(email_views(src@)[i as int] == src@[i as int]@);
            }
            let ghost pre = email_views(out@);
            out.push(Email { addr: copy_bytes(&src[i].addr) });
            proof {
                assert(email_views(out@) =~= pre.push(email_views(src@)[i as int]));
                assert(email_views(src@).take(i + 1) =~= email_views(src@).take(i as int).push(
                    email_views(src@)[i as int],
                ));
            }
            i = i + 1;
        }
        proof {
            assert(email_views(src@).take(src@.len() as int) =~= email_views(src@));
        }
        out
    }

    /// Retracts every published address of the record with this
    /// fingerprint; the stored material is untouched.
    pub fn unpublish_all(&mut self, fpr: &[u8])
        requires
            store_inv(old(self)@),
        ensures
            store_inv(final(self)@),
            find_fpr(old(self)@, fpr@) < 0 ==> final(self)@ == old(self)@,
            find_fpr(old(self)@, fpr@) >= 0 ==> {
                let j = find_fpr(old(self)@, fpr@);
                &&& final(self)@.len() == old(self)@.len()
                &&& forall|i: int|
                    0 <= i < old(self)@.len() && i != j ==> #[trigger] final(self)@[i] == old(
                        self,
                    )@[i]
                &&& final(self)@[j].fpr == old(self)@[j].fpr
                &&& final(self)@[j].cert == old(self)@[j].cert
                &&& final(self)@[j].published.len() == 0
            },
    {
        let j = match self.find_record(fpr) {
            Some(j) => j,
            None => {
                return ;
            },
        };
        let ghost jj = j as int;
        let ghost pre = old(self)@;
        proof {
            assert(pre[jj] == self.records@[jj]@);
        }
        let mut rec = self.records.remove(j);
        rec.published = Vec::new();
        let ghost ob = old(self).records@;
        let ghost newv = RecordV { fpr: pre[jj].fpr, cert: pre[jj].cert, published: Seq::empty() };
        proof {
            assert(rec@ =~= newv);
        }
        self.records.insert(j, rec);
        proof {
            let ns = self.records@;
            assert forall|k: int| 0 <= k < ns.len() implies ns[k]@ == pre.update(jj, newv)[k] by {
                if k < jj {
                    assert(ns[k] == ob[k]);
                } else if k == jj {
                } else {
                    assert(ns[k] == ob[k]);
                }
            }
            assert(self@ =~= pre.update(jj, newv));
            let s2 = self@;
            assert forall|a: int, b: int| #![trigger s2[a], s2[b]] 0 <= a < b < s2.len() implies
                s2[a].fpr != s2[b].fpr by {
                assert(s2[a].fpr == pre[a].fpr && s2[b].fpr == pre[b].fpr);
                assert(pre[a].fpr != pre[b].fpr);
            }
            assert forall|k: int| 0 <= k < s2.len() implies rec_inv(#[trigger] s2[k]) by {
                assert(rec_inv(pre[k]));
            }
            assert forall|a: int, b: int, e: Seq<u8>|
                #![trigger s2[a].published.contains(e), s2[b].published.contains(e)]
                0 <= a < s2.len() && 0 <= b < s2.len() && a != b implies !(
            s2[a].published.contains(e) && s2[b].published.contains(e)) by {
                assert(!(pre[a].published.contains(e) && pre[b].published.contains(e)));
            }
        }
    }
}

} // verus!
