use hagrid::cert::{Certificate, KeyPacket, SigKind, SigPacket, UidBundle, UidPacket};
use hagrid::codec::serialize_cert;
use hagrid::hkp::{key_to_hkp_index, lookup, parse_lookup_query, query_bytes, Hkp, LookupOutcome};
use hagrid::store::CertStore;
use hagrid::web::{error_from_flash, files, rocket};
use sha2::Digest;

fn sig(kind: SigKind, creation: u64, expiry: u64, data: &[u8]) -> SigPacket {
    SigPacket { kind, creation, expiry, data: data.to_vec() }
}

fn sample_cert() -> Certificate {
    Certificate {
        primary: KeyPacket { algorithm: 1, bits: 256, creation: 1000, material: vec![9, 9, 9, 9] },
        primary_sigs: vec![sig(SigKind::SelfSig, 500, 0, b"p")],
        subkeys: vec![],
        uids: vec![UidBundle {
            uid: UidPacket { label: b"alice@example.org".to_vec() },
            sigs: vec![sig(SigKind::SelfSig, 600, 0, b"u")],
        }],
    }
}

#[test]
fn index_listing_has_the_exact_format() {
    let c = sample_cert();
    let mut body = vec![1u8];
    body.extend_from_slice(&256u16.to_le_bytes());
    body.extend_from_slice(&1000u64.to_le_bytes());
    body.extend_from_slice(&[9, 9, 9, 9]);
    let digest = sha2::Sha256::digest(&body);
    let mut fprhex = String::new();
    for b in &digest[..20] {
        fprhex.push_str(&format!("{:02X}", b));
    }
    let expected = format!(
        "info:1:1\r\npub:{}:1:256:500::\r\nuid:alice%40example.org:600::\r\n",
        fprhex
    );
    assert_eq!(key_to_hkp_index(&c, 2000), expected);
}

#[test]
fn index_listing_flags() {
    let mut c = sample_cert();
    // an expiring primary signature and a revoked identity
    c.primary_sigs = vec![sig(SigKind::SelfSig, 500, 1500, b"p")];
    c.uids[0].sigs.push(sig(SigKind::SelfRevocation, 700, 0, b"r"));
    let out = key_to_hkp_index(&c, 2000);
    let lines: Vec<&str> = out.split("\r\n").collect();
    assert!(lines[1].starts_with("pub:"));
    assert!(lines[1].ends_with(":500:1500:e"));
    assert!(lines[2].ends_with(":600::r"));
}

#[test]
fn query_parsing() {
    // a well-formed machine-readable get by fingerprint
    let fpr_hex = "0123456789ABCDEF0123456789ABCDEF01234567";
    let q = format!("op=get&options=mr&search={}", fpr_hex);
    match parse_lookup_query(q.as_bytes()) {
        Some(Hkp::Fingerprint { index, machine_readable, fpr }) => {
            assert!(!index);
            assert!(machine_readable);
            assert_eq!(fpr.bytes.len(), 20);
            assert_eq!(fpr.bytes[0], 0x01);
        },
        other => panic!("wrong parse: {:?}", other.map(|h| query_bytes(&h))),
    }
    // an index query by key identifier
    match parse_lookup_query(b"op=index&search=0123456789ABCDEF") {
        Some(Hkp::KeyID { index, keyid, .. }) => {
            assert!(index);
            assert_eq!(keyid.bytes.len(), 8);
        },
        _ => panic!("wrong parse"),
    }
    // an address search, with percent decoding
    match parse_lookup_query(b"op=get&search=alice%40example.org") {
        Some(Hkp::Email { email, .. }) => {
            assert_eq!(email.addr, b"alice@example.org".to_vec());
        },
        _ => panic!("wrong parse"),
    }
    // an unparseable search falls through to invalid
    match parse_lookup_query(b"op=get&search=not+a+key") {
        Some(Hkp::Invalid { query }) => assert_eq!(query, b"not a key".to_vec()),
        _ => panic!("wrong parse"),
    }
    // fewer than two fields, or an unknown op, is no query at all
    assert!(parse_lookup_query(b"op=get").is_none());
    assert!(parse_lookup_query(b"op=frob&search=x").is_none());
}

#[test]
fn lookup_dispatch() {
    let mut store = CertStore::new();
    let raw = serialize_cert(&sample_cert());
    let (fpr, pending) = store.upload(&raw).expect("valid");
    store.publish(&fpr, &pending[0].addr).expect("published");

    let domain = String::from("example.org");
    let commit = String::from("deadbeef");
    let version = String::from("1.0");
    let mut fpr_hex = String::new();
    for b in &fpr {
        fpr_hex.push_str(&format!("{:02X}", b));
    }
    let q = format!("op=get&options=mr&search={}", fpr_hex);
    let parsed = parse_lookup_query(q.as_bytes()).expect("parses");
    match lookup(&store, Some(&parsed), &domain, 2000, &commit, &version) {
        LookupOutcome::MachineReadable(s) => {
            assert!(s.contains("BEGIN PGP PUBLIC KEY BLOCK"));
        },
        _ => panic!("expected the armored block"),
    }
    let q2 = format!("op=index&search={}", fpr_hex);
    let parsed2 = parse_lookup_query(q2.as_bytes()).expect("parses");
    match lookup(&store, Some(&parsed2), &domain, 2000, &commit, &version) {
        LookupOutcome::IndexText(s) => {
            assert!(s.starts_with("info:1:1\r\n"));
            assert!(s.contains("alice%40example.org"));
        },
        _ => panic!("expected the index listing"),
    }
    // a miss under op=index answers with the no-match marker
    let q3 = "op=index&search=0000000000000000000000000000000000000000";
    let parsed3 = parse_lookup_query(q3.as_bytes()).expect("parses");
    match lookup(&store, Some(&parsed3), &domain, 2000, &commit, &version) {
        LookupOutcome::IndexText(s) => assert_eq!(s, "info:1:0\r\n"),
        _ => panic!("expected the no-match marker"),
    }
    // a plain page query renders the search context
    let q4 = format!("op=get&search={}", fpr_hex);
    let parsed4 = parse_lookup_query(q4.as_bytes()).expect("parses");
    match lookup(&store, Some(&parsed4), &domain, 2000, &commit, &version) {
        LookupOutcome::Web(w) => {
            assert_eq!(w.fpr, Some(fpr_hex.clone()));
            assert_eq!(w.domain, Some(domain.clone()));
            assert!(w.armored.unwrap().contains("BEGIN PGP"));
        },
        _ => panic!("expected the page context"),
    }
    // an address query renders the page context with the address as query
    let q5 = "op=get&search=alice%40example.org";
    let parsed5 = parse_lookup_query(q5.as_bytes()).expect("parses");
    match lookup(&store, Some(&parsed5), &domain, 2000, &commit, &version) {
        LookupOutcome::Web(w) => {
            assert_eq!(w.query, "alice@example.org");
            assert_eq!(w.fpr, Some(fpr_hex.clone()));
        },
        _ => panic!("expected the page context"),
    }
    // no query at all
    match lookup(&store, None, &domain, 2000, &commit, &version) {
        LookupOutcome::NotFound => {},
        _ => panic!("expected nothing"),
    }
}

#[test]
fn server_config_assembly() {
    let cfg = rocket(
        &String::from("127.0.0.1:8090"),
        &String::from("/srv/hagrid"),
        &String::from("example.org"),
        &String::from("noreply@example.org"),
    );
    assert_eq!(cfg.address, "127.0.0.1");
    assert_eq!(cfg.port, 8090);
    assert_eq!(cfg.template_dir, "/srv/hagrid/templates");
    assert_eq!(cfg.static_dir, "/srv/hagrid/public");
    assert_eq!(cfg.domain, "example.org");
    assert_eq!(cfg.from_address, "noreply@example.org");

    let bare = rocket(
        &String::from("localhost"),
        &String::from("/b"),
        &String::from("d"),
        &String::from("f"),
    );
    assert_eq!(bare.address, "localhost");
    assert_eq!(bare.port, 8080);

    let trailing = rocket(
        &String::from("host:"),
        &String::from("/b"),
        &String::from("d"),
        &String::from("f"),
    );
    assert_eq!(trailing.address, "host");
    assert_eq!(trailing.port, 8080);

    let bad_port = rocket(
        &String::from("host:notaport"),
        &String::from("/b"),
        &String::from("d"),
        &String::from("f"),
    );
    assert_eq!(bad_port.port, 8080);
}

#[test]
fn asset_paths_and_flashes() {
    assert_eq!(
        files(&String::from("/srv/public"), &String::from("logo.png")),
        "/srv/public/assets/logo.png"
    );
    assert_eq!(
        error_from_flash(&String::from("error"), &String::from("Key not found")),
        Some(String::from("Key not found"))
    );
    assert_eq!(error_from_flash(&String::from("notice"), &String::from("hi")), None);
}
