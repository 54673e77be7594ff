use hagrid::cert::{Certificate, Email, KeyPacket, SigKind, SigPacket, UidBundle, UidPacket};
use hagrid::codec::{fingerprint, parse_cert, serialize_cert, tpk_to_string, PgpError};
use hagrid::merge::{merge, tpk_clean};
use hagrid::ratelimit::RateLimiter;
use hagrid::store::{CertStore, StoreError};
use hagrid::token::{Purpose, TokenError, TokenService};
use hagrid::cert::{component_status, is_status_revoked, RevocationStatus};
use hagrid::store::tpk_filter_alive_emails;
use sha2::Digest;

fn sig(kind: SigKind, creation: u64, expiry: u64, data: &[u8]) -> SigPacket {
    SigPacket { kind, creation, expiry, data: data.to_vec() }
}

fn uid(label: &str, sigs: Vec<SigPacket>) -> UidBundle {
    UidBundle { uid: UidPacket { label: label.as_bytes().to_vec() }, sigs }
}

fn primary() -> KeyPacket {
    KeyPacket { algorithm: 1, bits: 256, creation: 1000, material: vec![9, 9, 9, 9] }
}

fn cert_one_uid() -> Certificate {
    Certificate {
        primary: primary(),
        primary_sigs: vec![sig(SigKind::SelfSig, 500, 0, b"p")],
        subkeys: vec![],
        uids: vec![uid("alice@example.org", vec![sig(SigKind::SelfSig, 600, 0, b"u")])],
    }
}

fn armored(c: &Certificate) -> Vec<u8> {
    tpk_to_string(c).expect("within bounds")
}

#[test]
fn normalize_is_idempotent() {
    let mut c = cert_one_uid();
    // duplicate and irrelevant packets disappear once and stay gone
    c.primary_sigs.push(sig(SigKind::SelfSig, 500, 0, b"p"));
    c.primary_sigs.push(sig(SigKind::Other, 1, 0, b"x"));
    let once = tpk_clean(&c);
    let twice = tpk_clean(&once);
    assert_eq!(armored(&once), armored(&twice));
    assert_eq!(once.primary_sigs.len(), 1);
}

#[test]
fn merge_with_itself_is_normalization() {
    let mut c = cert_one_uid();
    c.primary_sigs.push(sig(SigKind::Other, 1, 0, b"x"));
    let merged = merge(Some(&c), &c);
    let cleaned = tpk_clean(&c);
    assert_eq!(armored(&merged), armored(&cleaned));
}

#[test]
fn merge_is_order_independent_in_packets() {
    let mut a = cert_one_uid();
    a.primary_sigs.push(sig(SigKind::SelfRevocation, 700, 0, b"ra"));
    let mut b = cert_one_uid();
    b.uids.push(uid("bob@example.org", vec![sig(SigKind::SelfSig, 650, 0, b"ub")]));
    let ab = merge(Some(&tpk_clean(&a)), &b);
    let ba = merge(Some(&tpk_clean(&b)), &a);
    // the same primary signatures, as sets
    assert_eq!(ab.primary_sigs.len(), ba.primary_sigs.len());
    for s in &ab.primary_sigs {
        assert!(ba.primary_sigs.iter().any(|t| t.kind == s.kind && t.creation == s.creation
            && t.expiry == s.expiry && t.data == s.data));
    }
    // the same identities, each with the same signature sets
    assert_eq!(ab.uids.len(), ba.uids.len());
    for u in &ab.uids {
        let m = ba.uids.iter().find(|v| v.uid.label == u.uid.label).expect("identity kept");
        assert_eq!(m.sigs.len(), u.sigs.len());
        for s in &u.sigs {
            assert!(m.sigs.iter().any(|t| t.kind == s.kind && t.creation == s.creation
                && t.expiry == s.expiry && t.data == s.data));
        }
    }
}

#[test]
fn revocation_survives_further_merges() {
    let mut revoked = cert_one_uid();
    revoked.uids[0].sigs.push(sig(SigKind::SelfRevocation, 700, 0, b"rv"));
    let merged_in = merge(None, &revoked);
    // a later upload without the revocation does not clear it
    let after = merge(Some(&merged_in), &cert_one_uid());
    let u = &after.uids[0];
    assert!(u.sigs.iter().any(|s| s.kind == SigKind::SelfRevocation));
}

#[test]
fn parse_rejects_garbage() {
    assert!(matches!(parse_cert(b"not a certificate"), Err(PgpError::Malformed)));
    assert!(matches!(parse_cert(b""), Err(PgpError::Malformed)));
    // armored framing with corrupted base64 is rejected too
    let mut a = armored(&cert_one_uid());
    let mid = a.len() / 2;
    a[mid] = b'\x01';
    assert!(parse_cert(&a).is_err());
}

#[test]
fn armor_roundtrip_preserves_fingerprint() {
    let x = serialize_cert(&cert_one_uid());
    let parsed = parse_cert(&x).expect("parses");
    let re_armored = armored(&tpk_clean(&parsed));
    let reparsed = parse_cert(&re_armored).expect("parses again");
    assert_eq!(fingerprint(&reparsed), fingerprint(&parsed));
    assert_eq!(fingerprint(&reparsed).len(), 20);
}

#[test]
fn fingerprint_is_derived_from_the_primary_key() {
    // cross-check the digest against an independent computation
    let c = cert_one_uid();
    let mut body = vec![c.primary.algorithm];
    body.extend_from_slice(&c.primary.bits.to_le_bytes());
    body.extend_from_slice(&c.primary.creation.to_le_bytes());
    body.extend_from_slice(&c.primary.material);
    let digest = sha2::Sha256::digest(&body);
    assert_eq!(fingerprint(&c), digest[..20].to_vec());
}

#[test]
fn upload_then_lookup_by_fingerprint() {
    let mut store = CertStore::new();
    let raw = serialize_cert(&cert_one_uid());
    let (fpr, pending) = store.upload(&raw).expect("valid upload");
    assert_eq!(fpr.len(), 20);
    assert_eq!(pending.len(), 1);
    assert_eq!(pending[0].addr, b"alice@example.org".to_vec());
    assert!(store.by_fpr(&fpr).is_some());
    assert!(matches!(store.upload(b"junk"), Err(PgpError::Malformed)));
}

#[test]
fn publish_moves_the_binding() {
    let mut store = CertStore::new();
    let raw1 = serialize_cert(&cert_one_uid());
    let (fpr1, _) = store.upload(&raw1).expect("valid");
    // a second certificate claiming the same address
    let mut other = cert_one_uid();
    other.primary.material = vec![7, 7];
    let raw2 = serialize_cert(&other);
    let (fpr2, _) = store.upload(&raw2).expect("valid");
    assert_ne!(fpr1, fpr2);

    store.publish(&fpr1, b"alice@example.org").expect("published");
    let hit = store.by_email(b"alice@example.org").expect("resolvable");
    assert!(hit.contains("BEGIN PGP PUBLIC KEY BLOCK"));
    // publishing elsewhere unbinds the first record
    store.publish(&fpr2, b"alice@example.org").expect("published elsewhere");
    let c2 = parse_cert(store.by_email(b"alice@example.org").unwrap().as_bytes()).unwrap();
    assert_eq!(fingerprint(&c2), fpr2);
    // the first record no longer serves the address
    let c1 = parse_cert(store.by_fpr(&fpr1).unwrap().as_bytes()).unwrap();
    assert!(c1.uids.is_empty());
}

#[test]
fn publish_rejects_unknown_requests() {
    let mut store = CertStore::new();
    let raw = serialize_cert(&cert_one_uid());
    let (fpr, _) = store.upload(&raw).expect("valid");
    assert_eq!(store.publish(&[0u8; 20], b"alice@example.org").unwrap_err(), StoreError::NotFound);
    assert_eq!(store.publish(&fpr, b"nobody@example.org").unwrap_err(), StoreError::NotFound);
}

#[test]
fn unpublish_retracts_but_retains() {
    let mut store = CertStore::new();
    let raw = serialize_cert(&cert_one_uid());
    let (fpr, _) = store.upload(&raw).expect("valid");
    store.publish(&fpr, b"alice@example.org").expect("published");
    assert!(store.by_email(b"alice@example.org").is_some());
    store.unpublish(&fpr, b"alice@example.org").expect("unpublished");
    assert!(store.by_email(b"alice@example.org").is_none());
    // the record itself is still there
    assert!(store.by_fpr(&fpr).is_some());
}

#[test]
fn token_lifecycle() {
    let mut svc = TokenService::new(b"a test secret".to_vec());
    let fpr = vec![5u8; 20];
    let email = b"alice@example.org".to_vec();
    let token = svc.issue(&fpr, &email, Purpose::Verify, 100, 1000);

    // wrong purpose
    assert_eq!(
        svc.redeem(&token, Purpose::Delete, 1050).unwrap_err(),
        TokenError::WrongPurpose
    );
    // expired
    assert_eq!(svc.redeem(&token, Purpose::Verify, 1101).unwrap_err(), TokenError::Expired);
    // in time: succeeds, and returns the sealed pair
    let (f, e) = svc.redeem(&token, Purpose::Verify, 1100).expect("redeemable");
    assert_eq!(f, fpr);
    assert_eq!(e, email);
    // replay is invalid
    assert_eq!(svc.redeem(&token, Purpose::Verify, 1100).unwrap_err(), TokenError::Invalid);
}

#[test]
fn token_tampering_is_invalid() {
    let mut svc = TokenService::new(b"a test secret".to_vec());
    let fpr = vec![5u8; 20];
    let token = svc.issue(&fpr, &b"a@b.co".to_vec(), Purpose::Verify, 100, 1000);
    let bytes = token.into_bytes();
    for i in 0..bytes.len() {
        let mut t = bytes.clone();
        t[i] = if t[i] == b'A' { b'B' } else { b'A' };
        let altered = String::from_utf8(t).unwrap();
        assert!(svc.redeem(&altered, Purpose::Verify, 1000).is_err());
    }
}

#[test]
fn rate_limit_window() {
    let mut rl = RateLimiter::new(3, 60);
    let key = b"10.0.0.1";
    assert!(rl.check_and_consume(key, 100));
    assert!(rl.check_and_consume(key, 110));
    assert!(rl.check_and_consume(key, 120));
    // the fourth attempt within the window is denied
    assert!(!rl.check_and_consume(key, 130));
    // and denial consumed nothing: still denied, not double-counted
    assert!(!rl.check_and_consume(key, 140));
    // another client is unaffected
    assert!(rl.check_and_consume(b"10.0.0.2", 140));
    // after the window elapses the counter resets
    assert!(rl.check_and_consume(key, 160));
}

#[test]
fn end_to_end_verification_flow() {
    let mut store = CertStore::new();
    let mut svc = TokenService::new(b"a test secret".to_vec());
    let raw = serialize_cert(&cert_one_uid());
    let (fpr, pending) = store.upload(&raw).expect("valid");
    assert_eq!(pending.len(), 1);
    // before verification the address does not resolve
    assert!(store.by_email(b"alice@example.org").is_none());
    let token = svc.issue(&fpr, &pending[0].addr, Purpose::Verify, 100, 1000);
    let published =
        hagrid::web::verify_link(&mut store, &mut svc, &token, 1050).expect("verified");
    assert_eq!(published.0, fpr);
    // now it resolves, to a record carrying exactly that identity
    let c = parse_cert(store.by_email(b"alice@example.org").unwrap().as_bytes()).unwrap();
    assert_eq!(c.uids.len(), 1);
    assert_eq!(c.uids[0].uid.label, b"alice@example.org".to_vec());
}

#[test]
fn revocation_update_swaps_published_identities() {
    let mut store = CertStore::new();
    let mut svc = TokenService::new(b"a test secret".to_vec());
    let raw1 = serialize_cert(&cert_one_uid());
    let (fpr, _) = store.upload(&raw1).expect("valid");
    store.publish(&fpr, b"alice@example.org").expect("published");

    // a newer version: the first identity revoked, a second one added
    let mut v2 = cert_one_uid();
    v2.uids[0].sigs.push(sig(SigKind::SelfRevocation, 700, 0, b"rv"));
    v2.uids.push(uid("bob@example.org", vec![sig(SigKind::SelfSig, 650, 0, b"ub")]));
    let raw2 = serialize_cert(&v2);
    let (fpr2, pending) = store.upload(&raw2).expect("valid");
    assert_eq!(fpr2, fpr);
    // only the new identity awaits verification
    assert_eq!(pending.len(), 1);
    assert_eq!(pending[0].addr, b"bob@example.org".to_vec());
    // the revoked identity lost its publication
    assert!(store.by_email(b"alice@example.org").is_none());
    let token = svc.issue(&fpr, &pending[0].addr, Purpose::Verify, 100, 1000);
    hagrid::web::verify_link(&mut store, &mut svc, &token, 1000).expect("verified");
    let c = parse_cert(store.by_fpr(&fpr).unwrap().as_bytes()).unwrap();
    let labels: Vec<&[u8]> = c.uids.iter().map(|u| u.uid.label.as_slice()).collect();
    assert!(labels.contains(&b"bob@example.org".as_slice()));
    assert!(!labels.contains(&b"alice@example.org".as_slice()));
}

#[test]
fn deletion_flow() {
    let mut store = CertStore::new();
    let mut svc = TokenService::new(b"a test secret".to_vec());
    let raw = serialize_cert(&cert_one_uid());
    let (fpr, pending) = store.upload(&raw).expect("valid");
    let vt = svc.issue(&fpr, &pending[0].addr, Purpose::Verify, 100, 1000);
    hagrid::web::verify_link(&mut store, &mut svc, &vt, 1000).expect("verified");
    assert!(store.by_email(b"alice@example.org").is_some());

    let (dt, uids) =
        hagrid::web::request_deletion(&store, &svc, &fpr, 100, 1000).expect("record exists");
    assert_eq!(uids.len(), 1);
    assert!(hagrid::web::confirm_deletion(&mut store, &mut svc, &dt, 1050));
    // the binding is gone, the material is kept
    assert!(store.by_email(b"alice@example.org").is_none());
    assert!(store.by_fpr(&fpr).is_some());
    // a deletion token does not confirm twice
    assert!(!hagrid::web::confirm_deletion(&mut store, &mut svc, &dt, 1050));
}

#[test]
fn serialization_bounds_are_enforced() {
    let mut c = cert_one_uid();
    c.uids[0].sigs[0].data = vec![0u8; 0x10000000];
    assert!(matches!(tpk_to_string(&c), Err(PgpError::TooLarge)));
}

#[test]
fn status_helpers() {
    assert!(is_status_revoked(RevocationStatus::Revoked));
    assert!(!is_status_revoked(RevocationStatus::CouldBe));
    assert!(!is_status_revoked(RevocationStatus::NotAsFarAsWeKnow));
    let sigs = vec![sig(SigKind::SelfSig, 1, 0, b"a"), sig(SigKind::ThirdPartyRevocation, 2, 0, b"b")];
    assert_eq!(component_status(&sigs), RevocationStatus::CouldBe);
    let sigs2 = vec![sig(SigKind::SelfRevocation, 3, 0, b"c")];
    assert_eq!(component_status(&sigs2), RevocationStatus::Revoked);
}

#[test]
fn filter_keeps_only_living_listed_identities() {
    let mut c = cert_one_uid();
    c.uids.push(uid("bob@example.org", vec![sig(SigKind::SelfSig, 1, 0, b"b")]));
    c.uids.push(uid(
        "carol@example.org",
        vec![sig(SigKind::SelfSig, 1, 0, b"c"), sig(SigKind::SelfRevocation, 2, 0, b"r")],
    ));
    let emails = vec![
        Email { addr: b"bob@example.org".to_vec() },
        Email { addr: b"carol@example.org".to_vec() },
    ];
    let f = tpk_filter_alive_emails(&c, &emails);
    assert_eq!(f.uids.len(), 1);
    assert_eq!(f.uids[0].uid.label, b"bob@example.org".to_vec());
}
