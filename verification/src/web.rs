//! The boundary layer's data and decisions: the page context records a
//! renderer consumes, server configuration assembly, and the
//! token-gated verification and deletion flows over the store.

use vstd::prelude::*;
use vstd::string::{StrSliceExecFns, StringExecFns};
use crate::store::{CertStore, store_inv, find_fpr, email_views, published_allowed};
use crate::token::{TokenService, Purpose, TokenError, redeem_view};
use crate::cert::Email;
use crate::util::ascii_chars;
use crate::textenc::ascii_to_string;

verus! {

/// Context of the verification result page.
pub struct Verify {
    pub verified: bool,
    pub userid: String,
    pub fpr: String,
    pub domain: String,
    pub commit: String,
    pub version: String,
}

/// Context of the deletion-request page.
pub struct Delete {
    pub token: String,
    pub fpr: String,
    pub commit: String,
    pub version: String,
}

/// Context of the search result page.
pub struct Search {
    pub query: String,
    pub fpr: Option<String>,
    pub armored: Option<String>,
    pub domain: Option<String>,
    pub commit: String,
    pub version: String,
}

/// Context of the deletion-confirmation page.
pub struct Confirm {
    pub deleted: bool,
    pub commit: String,
    pub version: String,
}

/// Context of the error page.
pub struct FiveHundred {
    pub error: String,
    pub commit: String,
    pub version: String,
}

/// Context of the landing page.
pub struct Index {
    pub error: Option<String>,
    pub commit: String,
    pub version: String,
}

/// Context of plain informational pages.
pub struct General {
    pub commit: String,
    pub version: String,
}

/// The domain this directory serves under.
pub struct Domain(pub String);

/// The sender address outgoing verification mail is sent under.
pub struct From(pub String);

/// Everything the serving process is configured with.
pub struct ServerConfig {
    pub address: String,
    pub port: u16,
    pub template_dir: String,
    pub static_dir: String,
    pub domain: String,
    pub from_address: String,
}

/// Index of the first `:`, or -1.
pub open spec fn find_colon(cs: Seq<char>) -> int
    decreases cs.len(),
{
    if cs.len() == 0 {
        -1
    } else if cs[0] == ':' {
        0
    } else {
        let r = find_colon(cs.drop_first());
        if r < 0 {
            -1
        } else {
            r + 1
        }
    }
}

proof fn lemma_find_colon(cs: Seq<char>)
    ensures
        find_colon(cs) == -1 ==> forall|i: int| 0 <= i < cs.len() ==> cs[i] != ':',
        find_colon(cs) >= 0 ==> find_colon(cs) < cs.len() && cs[find_colon(cs)] == ':' && forall|
            i: int,
        | 0 <= i < find_colon(cs) ==> cs[i] != ':',
    decreases cs.len(),
{
    if cs.len() > 0 && cs[0] != ':' {
        lemma_find_colon(cs.drop_first());
        assert(forall|i: int| 1 <= i < cs.len() ==> cs[i] == cs.drop_first()[i - 1]);
    }
}

/// A decimal port number, read left to right onto an accumulator.
pub open spec fn parse_u16_from(cs: Seq<char>, acc: int) -> Option<u16>
    decreases cs.len(),
{
    if cs.len() == 0 {
        if 0 <= acc <= 65535 {
            Some(acc as u16)
        } else {
            None
        }
    } else if '0' <= cs[0] && cs[0] <= '9' {
        let acc2 = acc * 10 + (cs[0] as int - 48);
        if acc2 > 65535 {
            None
        } else {
            parse_u16_from(cs.drop_first(), acc2)
        }
    } else {
        None
    }
}

/// What a listen string configures: the part before the first `:` as
/// the address, what follows as the port when it reads as one, and
/// otherwise the default port.
pub open spec fn listen_spec(cs: Seq<char>) -> (Seq<char>, u16) {
    let p = find_colon(cs);
    if p < 0 {
        (cs, 8080)
    } else {
        let addr = cs.take(p);
        let port = if p < cs.len() - 1 {
            match parse_u16_from(cs.skip(p + 1), 0) {
                Some(v) => v,
                None => 8080,
            }
        } else {
            8080
        };
        (addr, port)
    }
}

/// Assembles the serving configuration: the listen address and port,
/// and the template and asset directories under the base path.
pub fn rocket(listen: &String, base: &String, domain: &String, from_address: &String) -> (r:
    ServerConfig)
    ensures
        r.address@ == listen_spec(listen@).0,
        r.port == listen_spec(listen@).1,
        r.template_dir@ == base@ + "/templates"@,
        r.static_dir@ == base@ + "/public"@,
        r.domain@ == domain@,
        r.from_address@ == from_address@,
{
    let s = listen.as_str();
    let n = s.unicode_len();
    let mut p: usize = 0;
    let mut found = false;
    while p < n && !found
        invariant
            p <= n,
            n == s@.len(),
            found ==> p < n && s@[p as int] == ':',
            forall|i: int| 0 <= i < p ==> s@[i] != ':',
        decreases n - p + if found {
            0int
        } else {
            1int
        },
    {
        if s.get_char(p) == ':' {
            found = true;
        } else {
            p = p + 1;
        }
    }
    let (address, port) = if !found {
        proof {
            lemma_find_colon(s@);
            if find_colon(s@) >= 0 {
                assert(false);
            }
        }
        (listen.clone(), 8080u16)
    } else {
        proof {
            lemma_find_colon_first(s@, p as int);
        }
        let addr = s.substring_char(0, p).to_owned();
        let port = if p + 1 < n {
            parse_port(s, p + 1, n)
        } else {
            8080
        };
        (addr, port)
    };
    let template_dir = base.clone().concat("/templates");
    let static_dir = base.clone().concat("/public");
    ServerConfig {
        address,
        port,
        template_dir,
        static_dir,
        domain: domain.clone(),
        from_address: from_address.clone(),
    }
}

proof fn lemma_find_colon_first(cs: Seq<char>, p: int)
    requires
        0 <= p < cs.len(),
        cs[p] == ':',
        forall|i: int| 0 <= i < p ==> cs[i] != ':',
    ensures
        find_colon(cs) == p,
    decreases cs.len(),
{
    if p > 0 {
        let q = cs.drop_first();
        assert(q[p - 1] == cs[p]);
        assert forall|i: int| 0 <= i < p - 1 implies q[i] != ':' by {
            assert(q[i] == cs[i + 1]);
        }
        lemma_find_colon_first(q, p - 1);
    }
}

fn parse_port(s: &str, from: usize, n: usize) -> (r: u16)
    requires
        from < n,
        n == s@.len(),
    ensures
        r == (match parse_u16_from(s@.skip(from as int), 0) {
            Some(v) => v,
            None => 8080u16,
        }),
{
    let mut acc: u32 = 0;
    let mut i: usize = from;
    while i < n
        invariant
            from <= i <= n,
            n == s@.len(),
            acc <= 65535,
            parse_u16_from(s@.skip(from as int), 0) == parse_u16_from(
                s@.skip(i as int),
                acc as int,
            ),
        decreases n - i,
    {
        let c = s.get_char(i);
        proof {
            assert(s@.skip(i as int)[0] == s@[i as int]);
            assert(s@.skip(i as int).drop_first() =~= s@.skip(i + 1));
        }
        if c < '0' || c > '9' {
            proof {
                assert(parse_u16_from(s@.skip(i as int), acc as int) is None);
            }
            return 8080;
        }
        let d = (c as u32) - 48;
        assert(d <= 9);
        let acc2 = acc * 10 + d;
        if acc2 > 65535 {
            proof {
                assert(parse_u16_from(s@.skip(i as int), acc as int) is None);
            }
            return 8080;
        }
        acc = acc2;
        i = i + 1;
    }
    proof {
        assert(s@.skip(n as int).len() == 0);
        assert(parse_u16_from(s@.skip(n as int), acc as int) == Some(acc as u16));
    }
    acc as u16
}

/// The on-disk path an asset request maps to, under the static
/// directory.
pub fn files(static_dir: &String, file: &String) -> (r: String)
    ensures
        r@ == static_dir@ + "/assets/"@ + file@,
{
    static_dir.clone().concat("/assets/").concat(file.as_str())
}

/// The error text a flash message carries, if it is an error flash.
pub fn error_from_flash(name: &String, msg: &String) -> (r: Option<String>)
    ensures
        match r {
            Some(s) => name@ == "error"@ && s@ == msg@,
            None => name@ != "error"@,
        },
{
    let e = String::from_str("error");
    if name.eq(&e) {
        Some(msg.clone())
    } else {
        None
    }
}

// ---------------------------------------------------------------------
// Token-gated flows
// ---------------------------------------------------------------------
/// Redeems a verification token and, on success, publishes the sealed
/// identity under the sealed fingerprint. Succeeds exactly when the
/// token redeems and the sealed record accepts the address; the store's
/// records keep their fingerprints and certificates, only published
/// sets move.
pub fn verify_link(store: &mut CertStore, svc: &mut TokenService, token: &str, now: u64) -> (r:
    Option<(Vec<u8>, Vec<u8>)>)
    requires
        store_inv(old(store)@),
    ensures
        store_inv(final(store)@),
        (match redeem_view(old(svc)@, token@, Purpose::Verify, now) {
            Ok(q) => {
                let j = find_fpr(old(store)@, q.0);
                (0 <= j < old(store)@.len() && published_allowed(old(store)@[j].cert, q.1))
                    ==> (r matches Some(p) && p.0@ == q.0 && p.1@ == q.1)
            },
            Err(e) => r is None,
        }),
        match r {
            Some(p) => {
                &&& redeem_view(old(svc)@, token@, Purpose::Verify, now) == Ok::<
                    (Seq<u8>, Seq<u8>),
                    TokenError,
                >((p.0@, p.1@))
                &&& {
                    let j = find_fpr(old(store)@, p.0@);
                    &&& 0 <= j < old(store)@.len()
                    &&& final(store)@.len() == old(store)@.len()
                    &&& forall|i: int|
                        #![trigger final(store)@[i]]
                        0 <= i < old(store)@.len() ==> final(store)@[i].fpr == old(store)@[i].fpr
                            && final(store)@[i].cert == old(store)@[i].cert
                    &&& forall|i: int|
                        #![trigger final(store)@[i].published.contains(p.1@)]
                        0 <= i < final(store)@.len() ==> final(store)@[i].published.contains(p.1@)
                            == (i == j)
                    &&& forall|i: int, e: Seq<u8>|
                        #![trigger final(store)@[i].published.contains(e)]
                        0 <= i < old(store)@.len() && e != p.1@
                            ==> final(store)@[i].published.contains(e) == old(
                            store,
                        )@[i].published.contains(e)
                }
            },
            None => final(store)@ == old(store)@,
        },
{
    let (fpr, email) = match svc.redeem(token, Purpose::Verify, now) {
        Ok(p) => p,
        Err(e) => {
            return None;
        },
    };
    match store.publish(fpr.as_slice(), email.as_slice()) {
        Ok(u) => Some((fpr, email)),
        Err(e) => None,
    }
}

/// Starts a deletion: issues a sealed deletion token for the
/// fingerprint and returns it with the published addresses to notify.
pub fn request_deletion(
    store: &CertStore,
    svc: &TokenService,
    fpr: &Vec<u8>,
    ttl: u64,
    now: u64,
) -> (r: Option<(String, Vec<Email>)>)
    requires
        store_inv(store@),
        fpr@.len() == 20,
        now + ttl <= u64::MAX,
    ensures
        match r {
            Some(p) => {
                &&& 0 <= find_fpr(store@, fpr@) < store@.len()
                &&& p.0@ == ascii_chars(
                    crate::token::token_bytes(
                        svc@.secret,
                        fpr@,
                        Purpose::Delete,
                        (now + ttl) as u64,
                        Seq::empty(),
                    ),
                )
                &&& email_views(p.1@) == store@[find_fpr(store@, fpr@)].published
            },
            None => find_fpr(store@, fpr@) < 0,
        },
{
    let j = match store.find_record(fpr.as_slice()) {
        Some(j) => j,
        None => {
            return None;
        },
    };
    let none_email: Vec<u8> = Vec::new();
    let token = svc.issue(fpr, &none_email, Purpose::Delete, ttl, now);
    proof {
        assert(none_email@ =~= Seq::<u8>::empty());
    }
    let uids = store.published_of(j);
    Some((token, uids))
}

/// Confirms a deletion: redeems the deletion token and retracts every
/// published address of the sealed fingerprint. The signature material
/// stays stored.
pub fn confirm_deletion(store: &mut CertStore, svc: &mut TokenService, token: &str, now: u64) -> (r:
    bool)
    requires
        store_inv(old(store)@),
    ensures
        store_inv(final(store)@),
        r == (redeem_view(old(svc)@, token@, Purpose::Delete, now) is Ok),
        r ==> {
            let j = find_fpr(
                old(store)@,
                redeem_view(old(svc)@, token@, Purpose::Delete, now).unwrap().0,
            );
            &&& (j < 0 ==> final(store)@ == old(store)@)
            &&& (j >= 0 ==> {
                &&& final(store)@.len() == old(store)@.len()
                &&& forall|i: int|
                    0 <= i < old(store)@.len() && i != j ==> #[trigger] final(store)@[i] == old(
                        store,
                    )@[i]
                &&& final(store)@[j].fpr == old(store)@[j].fpr
                &&& final(store)@[j].cert == old(store)@[j].cert
                &&& final(store)@[j].published.len() == 0
            })
        },
        !r ==> final(store)@ == old(store)@,
{
    let (fpr, _email) = match svc.redeem(token, Purpose::Delete, now) {
        Ok(p) => p,
        Err(e) => {
            return false;
        },
    };
    store.unpublish_all(fpr.as_slice());
    true
}

} // verus!
