//! The HKP-style lookup adapter: query parsing, the machine-readable
//! index listing, and dispatch of a lookup against the store.

use vstd::prelude::*;
use crate::cert::{
    Certificate, CertV, Email, SigV, UidV, find_byte,
    find_byte_exec, component_status, status_of, copy_bytes_slice, RevocationStatus, SigKind,
};
use crate::util::{
    bytes_eq, hex_val_of, hex_val, hex_bytes, dec_digits, u64_to_dec, to_hex, ascii_chars,
    all_ascii,
};
use crate::merge::dedup;
use crate::store::{CertStore, store_inv, find_fpr, find_kid, find_email, filter_spec, rec_inv};
use crate::web::Search;
use crate::textenc::{urlencode, urlencoded, ascii_to_string, lemma_urlencoded_ascii};
use vstd::string::StringSliceAdditionalSpecFns;

verus! {

// ---------------------------------------------------------------------
// Fingerprints and key identifiers as text
// ---------------------------------------------------------------------
/// A fingerprint parsed from its forty-digit hexadecimal form.
pub struct Fingerprint {
    pub bytes: Vec<u8>,
}

impl View for Fingerprint {
    type V = Seq<u8>;

    open spec fn view(&self) -> Seq<u8> {
        self.bytes@
    }
}

/// A key identifier parsed from its sixteen-digit hexadecimal form.
pub struct KeyID {
    pub bytes: Vec<u8>,
}

impl View for KeyID {
    type V = Seq<u8>;

    open spec fn view(&self) -> Seq<u8> {
        self.bytes@
    }
}

/// The bytes a run of hexadecimal digit pairs denotes.
pub open spec fn hex_pairs(s: Seq<u8>) -> Option<Seq<u8>>
    decreases s.len(),
{
    if s.len() == 0 {
        Some(Seq::empty())
    } else if s.len() == 1 {
        None
    } else {
        match (hex_val_of(s[0]), hex_val_of(s[1])) {
            (Some(h), Some(l)) => match hex_pairs(s.skip(2)) {
                Some(r) => Some(seq![(h * 16 + l) as u8] + r),
                None => None,
            },
            _ => None,
        }
    }
}

pub proof fn lemma_hex_pairs_len(s: Seq<u8>)
    ensures
        hex_pairs(s) is Some ==> hex_pairs(s).unwrap().len() * 2 == s.len(),
    decreases s.len(),
{
    if s.len() > 1 {
        lemma_hex_pairs_len(s.skip(2));
    }
}

pub fn parse_hex(s: &[u8]) -> (r: Option<Vec<u8>>)
    ensures
        match r {
            Some(v) => hex_pairs(s@) == Some(v@),
            None => hex_pairs(s@) is None,
        },
{
    let n = s.len();
    if n % 2 != 0 {
        proof {
            lemma_hex_pairs_len(s@);
        }
        return None;
    }
    let mut out: Vec<u8> = Vec::new();
    let mut i: usize = 0;
    proof {
        assert(s@.skip(0) =~= s@);
    }
    while i < n
        invariant
            i <= n,
            n == s@.len(),
            i % 2 == 0,
            n % 2 == 0,
            hex_pairs(s@) == match hex_pairs(s@.skip(i as int)) {
                Some(t) => Some(out@ + t),
                None => None::<Seq<u8>>,
            },
        decreases n - i,
    {
        let ghost rest = s@.skip(i as int);
        proof {
            assert(rest.len() >= 2);
            assert(rest[0] == s@[i as int] && rest[1] == s@[i + 1]);
            assert(rest.skip(2) =~= s@.skip(i + 2));
        }
        let h = match hex_val(s[i]) {
            Some(h) => h,
            None => {
                return None;
            },
        };
        let l = match hex_val(s[i + 1]) {
            Some(l) => l,
            None => {
                return None;
            },
        };
        assert(h < 16 && l < 16);
        let ghost pre = out@;
        out.push(h * 16 + l);
        proof {
            match hex_pairs(s@.skip(i + 2)) {
                Some(t) => {
                    assert(hex_pairs(rest) == Some(seq![(h * 16 + l) as u8] + t));
                    assert(pre + (seq![(h * 16 + l) as u8] + t) =~= out@ + t);
                },
                None => {
                    assert(hex_pairs(rest) is None);
                },
            }
        }
        i = i + 2;
    }
    proof {
        assert(s@.skip(n as int).len() == 0);
        assert(out@ + Seq::<u8>::empty() =~= out@);
    }
    Some(out)
}

/// A fingerprint's text form: exactly forty hexadecimal digits.
pub open spec fn fingerprint_of_text(s: Seq<u8>) -> Option<Seq<u8>> {
    if s.len() == 40 {
        hex_pairs(s)
    } else {
        None
    }
}

pub fn fingerprint_from_text(s: &[u8]) -> (r: Option<Fingerprint>)
    ensures
        match r {
            Some(f) => fingerprint_of_text(s@) == Some(f@) && f@.len() == 20,
            None => fingerprint_of_text(s@) is None,
        },
{
    if s.len() != 40 {
        return None;
    }
    match parse_hex(s) {
        Some(v) => {
            proof {
                lemma_hex_pairs_len(s@);
            }
            Some(Fingerprint { bytes: v })
        },
        None => None,
    }
}

/// A key identifier's text form: exactly sixteen hexadecimal digits.
pub open spec fn keyid_of_text(s: Seq<u8>) -> Option<Seq<u8>> {
    if s.len() == 16 {
        hex_pairs(s)
    } else {
        None
    }
}

pub fn keyid_from_text(s: &[u8]) -> (r: Option<KeyID>)
    ensures
        match r {
            Some(k) => keyid_of_text(s@) == Some(k@) && k@.len() == 8,
            None => keyid_of_text(s@) is None,
        },
{
    if s.len() != 16 {
        return None;
    }
    match parse_hex(s) {
        Some(v) => {
            proof {
                lemma_hex_pairs_len(s@);
            }
            Some(KeyID { bytes: v })
        },
        None => None,
    }
}

// ---------------------------------------------------------------------
// Form decoding
// ---------------------------------------------------------------------
/// Percent- and plus-decoding of one form field; a malformed percent
/// escape fails the field.
pub open spec fn url_decoded(s: Seq<u8>) -> Option<Seq<u8>>
    decreases s.len(),
{
    if s.len() == 0 {
        Some(Seq::empty())
    } else if s[0] == 37 {
        if s.len() >= 3 {
            match (hex_val_of(s[1]), hex_val_of(s[2])) {
                (Some(h), Some(l)) => match url_decoded(s.skip(3)) {
                    Some(r) => Some(seq![(h * 16 + l) as u8] + r),
                    None => None,
                },
                _ => None,
            }
        } else {
            None
        }
    } else {
        let b: u8 = if s[0] == 43 {
            32
        } else {
            s[0]
        };
        match url_decoded(s.drop_first()) {
            Some(r) => Some(seq![b] + r),
            None => None,
        }
    }
}

/// The decoded field, an empty field standing in for a failed one.
pub open spec fn url_decode_or_empty(s: Seq<u8>) -> Seq<u8> {
    match url_decoded(s) {
        Some(r) => r,
        None => Seq::empty(),
    }
}

pub fn url_decode_exec(s: &[u8]) -> (r: Vec<u8>)
    ensures
        r@ == url_decode_or_empty(s@),
{
    let n = s.len();
    let mut out: Vec<u8> = Vec::new();
    let mut i: usize = 0;
    proof {
        assert(s@.skip(0) =~= s@);
    }
    while i < n
        invariant
            i <= n,
            n == s@.len(),
            url_decoded(s@) == match url_decoded(s@.skip(i as int)) {
                Some(t) => Some(out@ + t),
                None => None::<Seq<u8>>,
            },
        decreases n - i,
    {
        let ghost rest = s@.skip(i as int);
        proof {
            assert(rest.len() > 0);
            assert(rest[0] == s@[i as int]);
        }
        if s[i] == 37 {
            if n - i < 3 {
                proof {
                    assert(url_decoded(rest) is None);
                    assert(url_decode_or_empty(s@) =~= Seq::<u8>::empty());
                }
                return Vec::new();
            }
            proof {
                assert(rest[1] == s@[i + 1] && rest[2] == s@[i + 2]);
                assert(rest.skip(3) =~= s@.skip(i + 3));
            }
            let h = match hex_val(s[i + 1]) {
                Some(h) => h,
                None => {
                    proof {
                        assert(url_decoded(rest) is None);
                        assert(url_decode_or_empty(s@) =~= Seq::<u8>::empty());
                    }
                    return Vec::new();
                },
            };
            let l = match hex_val(s[i + 2]) {
                Some(l) => l,
                None => {
                    proof {
                        assert(url_decoded(rest) is None);
                        assert(url_decode_or_empty(s@) =~= Seq::<u8>::empty());
                    }
                    return Vec::new();
                },
            };
            assert(h < 16 && l < 16);
            let ghost pre = out@;
            out.push(h * 16 + l);
            proof {
                match url_decoded(s@.skip(i + 3)) {
                    Some(t) => {
                        assert(url_decoded(rest) == Some(seq![(h * 16 + l) as u8] + t));
                        assert(pre + (seq![(h * 16 + l) as u8] + t) =~= out@ + t);
                    },
                    None => {
                        assert(url_decoded(rest) is None);
                    },
                }
            }
            i = i + 3;
        } else {
            let b: u8 = if s[i] == 43 {
                32
            } else {
                s[i]
            };
            let ghost pre = out@;
            out.push(b);
            proof {
                assert(rest.drop_first() =~= s@.skip(i + 1));
                match url_decoded(s@.skip(i + 1)) {
                    Some(t) => {
                        assert(url_decoded(rest) == Some(seq![b] + t));
                        assert(pre + (seq![b] + t) =~= out@ + t);
                    },
                    None => {
                        assert(url_decoded(rest) is None);
                    },
                }
            }
            i = i + 1;
        }
    }
    proof {
        assert(s@.skip(n as int).len() == 0);
        assert(out@ + Seq::<u8>::empty() =~= out@);
    }
    out
}

/// The query string's fields, split on `&`.
pub open spec fn split_amp(s: Seq<u8>) -> Seq<Seq<u8>>
    decreases s.len(),
    via split_amp_decreases
{
    let a = find_byte(s, 38);
    if a < 0 {
        seq![s]
    } else {
        seq![s.take(a)] + split_amp(s.skip(a + 1))
    }
}

#[via_fn]
proof fn split_amp_decreases(s: Seq<u8>) {
    crate::cert::lemma_find_byte(s, 38);
}

/// The part of a field before the first `=`.
pub open spec fn item_key(item: Seq<u8>) -> Seq<u8> {
    let e = find_byte(item, 61);
    if e < 0 {
        item
    } else {
        item.take(e)
    }
}

/// The part of a field after the first `=`.
pub open spec fn item_val(item: Seq<u8>) -> Seq<u8> {
    let e = find_byte(item, 61);
    if e < 0 {
        Seq::empty()
    } else {
        item.skip(e + 1)
    }
}

fn split_amp_exec(s: &[u8]) -> (r: Vec<Vec<u8>>)
    ensures
        r@.map_values(|v: Vec<u8>| v@) == split_amp(s@),
{
    let mut out: Vec<Vec<u8>> = Vec::new();
    let mut remaining = copy_bytes_slice(s);
    let ghost whole = s@;
    proof {
        assert(split_amp(whole) =~= out@.map_values(|v: Vec<u8>| v@) + split_amp(remaining@));
    }
    loop
        invariant
            whole == s@,
            split_amp(whole) == out@.map_values(|v: Vec<u8>| v@) + split_amp(remaining@),
        decreases remaining@.len(),
    {
        match find_byte_exec(remaining.as_slice(), 38) {
            Some(a) => {
                let rlen = remaining.len();
                assert(a < rlen);
                let head = crate::codec::copy_range(remaining.as_slice(), 0, a);
                let tail = crate::codec::copy_range(remaining.as_slice(), a + 1, rlen);
                proof {
                    assert(head@ =~= remaining@.take(a as int));
                    assert(tail@ =~= remaining@.skip(a + 1));
                }
                let ghost pre = out@.map_values(|v: Vec<u8>| v@);
                let ghost remv = remaining@;
                out.push(head);
                proof {
                    assert(out@.map_values(|v: Vec<u8>| v@) =~= pre.push(remv.take(a as int)));
                    assert(split_amp(remv) == seq![remv.take(a as int)] + split_amp(
                        remv.skip(a + 1),
                    ));
                    assert(pre + (seq![remv.take(a as int)] + split_amp(remv.skip(a + 1))) =~= (
                    pre.push(remv.take(a as int))) + split_amp(remv.skip(a + 1)));
                }
                remaining = tail;
            },
            None => {
                let ghost pre = out@.map_values(|v: Vec<u8>| v@);
                let ghost remv = remaining@;
                out.push(remaining);
                proof {
                    assert(split_amp(remv) == seq![remv]);
                    assert(out@.map_values(|v: Vec<u8>| v@) =~= pre.push(remv));
                    assert(pre + seq![remv] =~= pre.push(remv));
                    assert(out@.map_values(|v: Vec<u8>| v@) =~= split_amp(whole));
                }
                return out;
            },
        }
    }
}

fn item_key_exec(item: &[u8]) -> (r: Vec<u8>)
    ensures
        r@ == item_key(item@),
{
    match find_byte_exec(item, 61) {
        Some(e) => {
            let r = crate::codec::copy_range(item, 0, e);
            proof {
                assert(r@ =~= item@.take(find_byte(item@, 61)));
            }
            r
        },
        None => copy_bytes_slice(item),
    }
}

fn item_val_exec(item: &[u8]) -> (r: Vec<u8>)
    ensures
        r@ == item_val(item@),
{
    match find_byte_exec(item, 61) {
        Some(e) => {
            let n = item.len();
            assert(e < n);
            let r = crate::codec::copy_range(item, e + 1, n);
            proof {
                assert(r@ =~= item@.skip(find_byte(item@, 61) + 1));
            }
            r
        },
        None => Vec::new(),
    }
}


// ---------------------------------------------------------------------
// The query language
// ---------------------------------------------------------------------
/// A lookup query: a fingerprint, key identifier or address search,
/// with the index and machine-readable switches, or an invalid search.
pub enum Hkp {
    Fingerprint { fpr: Fingerprint, index: bool, machine_readable: bool },
    KeyID { keyid: KeyID, index: bool, machine_readable: bool },
    Email { email: Email, index: bool },
    Invalid { query: Vec<u8> },
}

#[verifier::ext_equal]
pub enum HkpV {
    Fingerprint { fpr: Seq<u8>, index: bool, machine_readable: bool },
    KeyID { keyid: Seq<u8>, index: bool, machine_readable: bool },
    Email { email: Seq<u8>, index: bool },
    Invalid { query: Seq<u8> },
}

impl View for Hkp {
    type V = HkpV;

    open spec fn view(&self) -> HkpV {
        match self {
            Hkp::Fingerprint { fpr, index, machine_readable } => HkpV::Fingerprint {
                fpr: fpr@,
                index: *index,
                machine_readable: *machine_readable,
            },
            Hkp::KeyID { keyid, index, machine_readable } => HkpV::KeyID {
                keyid: keyid@,
                index: *index,
                machine_readable: *machine_readable,
            },
            Hkp::Email { email, index } => HkpV::Email { email: email@, index: *index },
            Hkp::Invalid { query } => HkpV::Invalid { query: query@ },
        }
    }
}

pub open spec fn op_key() -> Seq<u8> {
    seq![111u8, 112]
}

pub open spec fn search_key() -> Seq<u8> {
    seq![115u8, 101, 97, 114, 99, 104]
}

pub open spec fn options_key() -> Seq<u8> {
    seq![111u8, 112, 116, 105, 111, 110, 115]
}

pub open spec fn get_word() -> Seq<u8> {
    seq![103u8, 101, 116]
}

pub open spec fn index_word() -> Seq<u8> {
    seq![105u8, 110, 100, 101, 120]
}

/// The decoded value of the last field with the given decoded key.
pub open spec fn last_value(items: Seq<Seq<u8>>, key: Seq<u8>) -> Option<Seq<u8>>
    decreases items.len(),
{
    if items.len() == 0 {
        None
    } else if url_decode_or_empty(item_key(items.last())) == key {
        Some(url_decode_or_empty(item_val(items.last())))
    } else {
        last_value(items.drop_last(), key)
    }
}

/// Whether the options field asks for machine-readable output.
pub open spec fn has_mr(o: Seq<u8>) -> bool {
    exists|i: int| 0 <= i && i + 2 <= o.len() && (#[trigger] o[i]) == 109 && o[i + 1] == 114
}

/// How a raw query string resolves: fields decoded, at least two
/// distinct keys, an `op` of `get` or `index`; the search is tried as a
/// fingerprint, then as a key identifier, then as an address.
pub open spec fn parse_hkp(q: Seq<u8>) -> Option<HkpV> {
    let items = split_amp(q);
    let keys = items.map_values(|it: Seq<u8>| url_decode_or_empty(item_key(it)));
    let op = last_value(items, op_key());
    if dedup(keys).len() >= 2 && (op == Some(get_word()) || op == Some(index_word())) {
        let index = op == Some(index_word());
        let mr = match last_value(items, options_key()) {
            Some(o) => has_mr(o),
            None => false,
        };
        let search = match last_value(items, search_key()) {
            Some(x) => x,
            None => Seq::empty(),
        };
        match fingerprint_of_text(search) {
            Some(f) => Some(HkpV::Fingerprint { fpr: f, index, machine_readable: mr }),
            None => match keyid_of_text(search) {
                Some(k) => Some(HkpV::KeyID { keyid: k, index, machine_readable: mr }),
                None => {
                    if crate::cert::valid_email(search) {
                        Some(HkpV::Email { email: search, index })
                    } else {
                        Some(HkpV::Invalid { query: search })
                    }
                },
            },
        }
    } else {
        None
    }
}

fn key_bytes_op() -> (r: Vec<u8>)
    ensures
        r@ == op_key(),
{
    let mut v: Vec<u8> = Vec::new();
    v.push(111);
    v.push(112);
    proof {
        assert(v@ =~= op_key());
    }
    v
}

fn key_bytes_search() -> (r: Vec<u8>)
    ensures
        r@ == search_key(),
{
    let mut v: Vec<u8> = Vec::new();
    v.push(115);
    v.push(101);
    v.push(97);
    v.push(114);
    v.push(99);
    v.push(104);
    proof {
        assert(v@ =~= search_key());
    }
    v
}

fn key_bytes_options() -> (r: Vec<u8>)
    ensures
        r@ == options_key(),
{
    let mut v: Vec<u8> = Vec::new();
    v.push(111);
    v.push(112);
    v.push(116);
    v.push(105);
    v.push(111);
    v.push(110);
    v.push(115);
    proof {
        assert(v@ =~= options_key());
    }
    v
}

fn word_get() -> (r: Vec<u8>)
    ensures
        r@ == get_word(),
{
    let mut v: Vec<u8> = Vec::new();
    v.push(103);
    v.push(101);
    v.push(116);
    proof {
        assert(v@ =~= get_word());
    }
    v
}

fn word_index() -> (r: Vec<u8>)
    ensures
        r@ == index_word(),
{
    let mut v: Vec<u8> = Vec::new();
    v.push(105);
    v.push(110);
    v.push(100);
    v.push(101);
    v.push(120);
    proof {
        assert(v@ =~= index_word());
    }
    v
}

fn has_mr_exec(o: &[u8]) -> (r: bool)
    ensures
        r == has_mr(o@),
{
    let n = o.len();
    if n < 2 {
        // no room for the two-byte marker

        proof {
            if has_mr(o@) {
                let i = choose|i: int|
                    0 <= i && i + 2 <= o@.len() && (#[trigger] o@[i]) == 109 && o@[i + 1] == 114;
                assert(false);
            }
        }
        return false;
    }
    let mut i: usize = 0;
    while i < n && n - i >= 2
        invariant
            i <= n,
            n == o@.len(),
            n >= 2,
            forall|j: int| 0 <= j < i ==> !((#[trigger] o@[j]) == 109 && o@[j + 1] == 114),
        decreases n - i,
    {
        if o[i] == 109 && o[i + 1] == 114 {
            return true;
        }
        i = i + 1;
    }
    proof {
        if has_mr(o@) {
            let j = choose|j: int|
                0 <= j && j + 2 <= o@.len() && (#[trigger] o@[j]) == 109 && o@[j + 1] == 114;
            assert(false);
        }
    }
    false
}

fn list_contains(list: &Vec<Vec<u8>>, x: &[u8]) -> (r: bool)
    ensures
        r == list@.map_values(|v: Vec<u8>| v@).contains(x@),
{
    let ghost lv = list@.map_values(|v: Vec<u8>| v@);
    let mut i: usize = 0;
    while i < list.len()
        invariant
            i <= list@.len(),
            lv == list@.map_values(|v: Vec<u8>| v@),
            forall|j: int| 0 <= j < i ==> lv[j] != x@,
        decreases list@.len() - i,
    {
        proof {
            assert(lv[i as int] == list@[i as int]@);
        }
        if bytes_eq(list[i].as_slice(), x) {
            return true;
        }
        i = i + 1;
    }
    proof {
        if lv.contains(x@) {
            let j = choose|j: int| 0 <= j < lv.len() && lv[j] == x@;
            assert(false);
        }
    }
    false
}

/// Parses the raw query string of a lookup request.
pub fn parse_lookup_query(q: &[u8]) -> (r: Option<Hkp>)
    ensures
        match r {
            Some(h) => parse_hkp(q@) == Some(h@),
            None => parse_hkp(q@) is None,
        },
{
    let items = split_amp_exec(q);
    let ghost itemsv = split_amp(q@);
    let ghost keysv = itemsv.map_values(|it: Seq<u8>| url_decode_or_empty(item_key(it)));
    let kop = key_bytes_op();
    let ksearch = key_bytes_search();
    let koptions = key_bytes_options();
    let mut op: Option<Vec<u8>> = None;
    let mut search: Option<Vec<u8>> = None;
    let mut options: Option<Vec<u8>> = None;
    let mut keys: Vec<Vec<u8>> = Vec::new();
    let mut i: usize = 0;
    while i < items.len()
        invariant
            i <= items@.len(),
            itemsv == items@.map_values(|v: Vec<u8>| v@),
            keysv == itemsv.map_values(|it: Seq<u8>| url_decode_or_empty(item_key(it))),
            kop@ == op_key(),
            ksearch@ == search_key(),
            koptions@ == options_key(),
            keys@.map_values(|v: Vec<u8>| v@) == keysv.take(i as int),
            (match op {
                Some(v) => last_value(itemsv.take(i as int), op_key()) == Some(v@),
                None => last_value(itemsv.take(i as int), op_key()) is None,
            }),
            (match search {
                Some(v) => last_value(itemsv.take(i as int), search_key()) == Some(v@),
                None => last_value(itemsv.take(i as int), search_key()) is None,
            }),
            (match options {
                Some(v) => last_value(itemsv.take(i as int), options_key()) == Some(v@),
                None => last_value(itemsv.take(i as int), options_key()) is None,
            }),
        decreases items@.len() - i,
    {
        proof {
            assert(itemsv[i as int] == items@[i as int]@);
            assert(itemsv.take(i + 1).drop_last() =~= itemsv.take(i as int));
            assert(itemsv.take(i + 1).last() == itemsv[i as int]);
            assert(keysv.take(i + 1) =~= keysv.take(i as int).push(keysv[i as int]));
            assert(keysv[i as int] == url_decode_or_empty(item_key(itemsv[i as int])));
            assert(op_key().len() == 2 && search_key().len() == 6 && options_key().len() == 7);
            assert(op_key() != search_key() && op_key() != options_key() && search_key()
                != options_key());
        }
        let k = item_key_exec(items[i].as_slice());
        let dk = url_decode_exec(k.as_slice());
        let v = item_val_exec(items[i].as_slice());
        let dv = url_decode_exec(v.as_slice());
        let ghost pre = keys@.map_values(|kk: Vec<u8>| kk@);
        if bytes_eq(dk.as_slice(), kop.as_slice()) {
            op = Some(dv);
        } else if bytes_eq(dk.as_slice(), ksearch.as_slice()) {
            search = Some(dv);
        } else if bytes_eq(dk.as_slice(), koptions.as_slice()) {
            options = Some(dv);
        }
        keys.push(dk);
        proof {
            assert(keys@.map_values(|kk: Vec<u8>| kk@) =~= pre.push(keysv[i as int]));
        }
        i = i + 1;
    }
    proof {
        assert(itemsv.take(items@.len() as int) =~= itemsv);
        assert(keysv.take(items@.len() as int) =~= keysv);
    }
    // count the distinct decoded keys
    let mut distinct: Vec<Vec<u8>> = Vec::new();
    let mut j: usize = 0;
    while j < keys.len()
        invariant
            j <= keys@.len(),
            keysv == keys@.map_values(|v: Vec<u8>| v@),
            distinct@.map_values(|v: Vec<u8>| v@) == dedup(keysv.take(j as int)),
        decreases keys@.len() - j,
    {
        proof {
            assert(keysv[j as int] == keys@[j as int]@);
            assert(keysv.take(j + 1).drop_last() =~= keysv.take(j as int));
            assert(keysv.take(j + 1).last() == keysv[j as int]);
        }
        if !list_contains(&distinct, keys[j].as_slice()) {
            let ghost pre = distinct@.map_values(|v: Vec<u8>| v@);
            let copy = copy_bytes_slice(keys[j].as_slice());
            distinct.push(copy);
            proof {
                assert(distinct@.map_values(|v: Vec<u8>| v@) =~= pre.push(keysv[j as int]));
            }
        }
        j = j + 1;
    }
    proof {
        assert(keysv.take(keys@.len() as int) =~= keysv);
    }
    let opv = match op {
        Some(v) => v,
        None => {
            return None;
        },
    };
    let is_get = bytes_eq(opv.as_slice(), word_get().as_slice());
    let is_index = bytes_eq(opv.as_slice(), word_index().as_slice());
    if distinct.len() < 2 || (!is_get && !is_index) {
        return None;
    }
    let mr = match &options {
        Some(o) => has_mr_exec(o.as_slice()),
        None => false,
    };
    let searchv = match search {
        Some(v) => v,
        None => Vec::new(),
    };
    proof {
        assert(dedup(keysv).len() >= 2);
    }
    match fingerprint_from_text(searchv.as_slice()) {
        Some(f) => Some(Hkp::Fingerprint { fpr: f, index: is_index, machine_readable: mr }),
        None => match keyid_from_text(searchv.as_slice()) {
            Some(k) => Some(Hkp::KeyID { keyid: k, index: is_index, machine_readable: mr }),
            None => {
                if crate::cert::is_valid_email(searchv.as_slice()) {
                    Some(Hkp::Email { email: Email { addr: searchv }, index: is_index })
                } else {
                    Some(Hkp::Invalid { query: searchv })
                }
            },
        },
    }
}


// ---------------------------------------------------------------------
// The index listing
// ---------------------------------------------------------------------
pub open spec fn crlf() -> Seq<u8> {
    seq![13u8, 10]
}

pub open spec fn colon() -> Seq<u8> {
    seq![58u8]
}

/// `info:1:1` — one match follows.
pub open spec fn info_found() -> Seq<u8> {
    seq![105u8, 110, 102, 111, 58, 49, 58, 49, 13, 10]
}

/// `info:1:0` — no match.
pub open spec fn info_none() -> Seq<u8> {
    seq![105u8, 110, 102, 111, 58, 49, 58, 48, 13, 10]
}

/// The governing self-signature: the latest one, later packets winning
/// ties.
pub open spec fn latest_self_sig(sigs: Seq<SigV>) -> Option<SigV>
    decreases sigs.len(),
{
    if sigs.len() == 0 {
        None
    } else {
        let rest = latest_self_sig(sigs.drop_last());
        if !(sigs.last().kind is SelfSig) {
            rest
        } else {
            match rest {
                None => Some(sigs.last()),
                Some(b) => {
                    if sigs.last().creation >= b.creation {
                        Some(sigs.last())
                    } else {
                        Some(b)
                    }
                },
            }
        }
    }
}

pub open spec fn ctime_text(o: Option<SigV>) -> Seq<u8> {
    match o {
        None => Seq::empty(),
        Some(s) => dec_digits(s.creation as nat),
    }
}

pub open spec fn extime_text(o: Option<SigV>) -> Seq<u8> {
    match o {
        None => Seq::empty(),
        Some(s) => if s.expiry == 0 {
            Seq::empty()
        } else {
            dec_digits(s.expiry as nat)
        },
    }
}

/// `e` when the governing signature has expired by `now`.
pub open spec fn exp_flag(o: Option<SigV>, now: u64) -> Seq<u8> {
    match o {
        Some(s) => if s.expiry != 0 && s.expiry <= now {
            seq![101u8]
        } else {
            Seq::empty()
        },
        None => Seq::empty(),
    }
}

/// `r` when the component's packets leave it revoked or possibly so.
pub open spec fn rev_flag(sigs: Seq<SigV>) -> Seq<u8> {
    if !(status_of(sigs) is NotAsFarAsWeKnow) {
        seq![114u8]
    } else {
        Seq::empty()
    }
}

/// The `pub` line of the listing.
pub open spec fn pub_line(c: CertV, fpr: Seq<u8>, now: u64) -> Seq<u8> {
    let ls = latest_self_sig(c.primary_sigs);
    seq![112u8, 117, 98, 58] + hex_bytes(fpr) + colon() + dec_digits(c.primary.algorithm as nat)
        + colon() + dec_digits(c.primary.bits as nat) + colon() + ctime_text(ls) + colon()
        + extime_text(ls) + colon() + exp_flag(ls, now) + rev_flag(c.primary_sigs) + crlf()
}

/// One `uid` line of the listing.
pub open spec fn uid_line(b: (UidV, Seq<SigV>), now: u64) -> Seq<u8> {
    let ls = latest_self_sig(b.1);
    seq![117u8, 105, 100, 58] + urlencoded(b.0.label) + colon() + ctime_text(ls) + colon()
        + extime_text(ls) + colon() + exp_flag(ls, now) + rev_flag(b.1) + crlf()
}

pub open spec fn uid_lines(uids: Seq<(UidV, Seq<SigV>)>, now: u64) -> Seq<u8>
    decreases uids.len(),
{
    if uids.len() == 0 {
        Seq::empty()
    } else {
        uid_line(uids[0], now) + uid_lines(uids.drop_first(), now)
    }
}

/// The whole machine-readable index listing for one matched
/// certificate.
pub open spec fn index_spec(c: CertV, fpr: Seq<u8>, now: u64) -> Seq<u8> {
    info_found() + pub_line(c, fpr, now) + uid_lines(c.uids, now)
}

pub proof fn lemma_ascii_append(a: Seq<u8>, b: Seq<u8>)
    requires
        all_ascii(a),
        all_ascii(b),
    ensures
        all_ascii(a + b),
{
    assert forall|i: int| 0 <= i < (a + b).len() implies (a + b)[i] < 128 by {
        if i < a.len() {
            assert((a + b)[i] == a[i]);
        } else {
            assert((a + b)[i] == b[i - a.len()]);
        }
    }
}

pub proof fn lemma_dec_digits_ascii(n: nat)
    ensures
        all_ascii(dec_digits(n)),
    decreases n,
{
    if n >= 10 {
        lemma_dec_digits_ascii(n / 10);
        assert forall|i: int| 0 <= i < dec_digits(n).len() implies dec_digits(n)[i] < 128 by {
            if i < dec_digits(n / 10).len() {
                assert(dec_digits(n)[i] == dec_digits(n / 10)[i]);
            }
        }
    }
}

pub proof fn lemma_hex_bytes_ascii(bs: Seq<u8>)
    ensures
        all_ascii(hex_bytes(bs)),
{
}

proof fn lemma_line_parts_ascii(c: CertV, fpr: Seq<u8>, now: u64)
    ensures
        all_ascii(pub_line(c, fpr, now)),
{
    let ls = latest_self_sig(c.primary_sigs);
    lemma_hex_bytes_ascii(fpr);
    lemma_dec_digits_ascii(c.primary.algorithm as nat);
    lemma_dec_digits_ascii(c.primary.bits as nat);
    lemma_opt_texts_ascii(ls);
    lemma_ascii_append(seq![112u8, 117, 98, 58], hex_bytes(fpr));
    lemma_ascii_append(seq![112u8, 117, 98, 58] + hex_bytes(fpr), colon());
    lemma_ascii_append(
        seq![112u8, 117, 98, 58] + hex_bytes(fpr) + colon(),
        dec_digits(c.primary.algorithm as nat),
    );
    lemma_ascii_append(
        seq![112u8, 117, 98, 58] + hex_bytes(fpr) + colon() + dec_digits(
            c.primary.algorithm as nat,
        ),
        colon(),
    );
    lemma_ascii_append(
        seq![112u8, 117, 98, 58] + hex_bytes(fpr) + colon() + dec_digits(
            c.primary.algorithm as nat,
        ) + colon(),
        dec_digits(c.primary.bits as nat),
    );
    let p5 = seq![112u8, 117, 98, 58] + hex_bytes(fpr) + colon() + dec_digits(
        c.primary.algorithm as nat,
    ) + colon() + dec_digits(c.primary.bits as nat);
    lemma_ascii_append(p5, colon());
    lemma_ascii_append(p5 + colon(), ctime_text(ls));
    lemma_ascii_append(p5 + colon() + ctime_text(ls), colon());
    lemma_ascii_append(p5 + colon() + ctime_text(ls) + colon(), extime_text(ls));
    let p9 = p5 + colon() + ctime_text(ls) + colon() + extime_text(ls);
    lemma_ascii_append(p9, colon());
    lemma_ascii_append(p9 + colon(), exp_flag(ls, now));
    lemma_ascii_append(p9 + colon() + exp_flag(ls, now), rev_flag(c.primary_sigs));
    lemma_ascii_append(p9 + colon() + exp_flag(ls, now) + rev_flag(c.primary_sigs), crlf());
}

proof fn lemma_opt_texts_ascii(o: Option<SigV>)
    ensures
        all_ascii(ctime_text(o)),
        all_ascii(extime_text(o)),
{
    match o {
        None => {},
        Some(s) => {
            lemma_dec_digits_ascii(s.creation as nat);
            lemma_dec_digits_ascii(s.expiry as nat);
        },
    }
}

proof fn lemma_uid_line_ascii(b: (UidV, Seq<SigV>), now: u64)
    ensures
        all_ascii(uid_line(b, now)),
{
    let ls = latest_self_sig(b.1);
    lemma_urlencoded_ascii(b.0.label);
    lemma_opt_texts_ascii(ls);
    lemma_ascii_append(seq![117u8, 105, 100, 58], urlencoded(b.0.label));
    let p1 = seq![117u8, 105, 100, 58] + urlencoded(b.0.label);
    lemma_ascii_append(p1, colon());
    lemma_ascii_append(p1 + colon(), ctime_text(ls));
    lemma_ascii_append(p1 + colon() + ctime_text(ls), colon());
    lemma_ascii_append(p1 + colon() + ctime_text(ls) + colon(), extime_text(ls));
    let p5 = p1 + colon() + ctime_text(ls) + colon() + extime_text(ls);
    lemma_ascii_append(p5, colon());
    lemma_ascii_append(p5 + colon(), exp_flag(ls, now));
    lemma_ascii_append(p5 + colon() + exp_flag(ls, now), rev_flag(b.1));
    lemma_ascii_append(p5 + colon() + exp_flag(ls, now) + rev_flag(b.1), crlf());
}

proof fn lemma_uid_lines_ascii(uids: Seq<(UidV, Seq<SigV>)>, now: u64)
    ensures
        all_ascii(uid_lines(uids, now)),
    decreases uids.len(),
{
    if uids.len() > 0 {
        lemma_uid_line_ascii(uids[0], now);
        lemma_uid_lines_ascii(uids.drop_first(), now);
        lemma_ascii_append(uid_line(uids[0], now), uid_lines(uids.drop_first(), now));
    }
}

pub proof fn lemma_index_ascii(c: CertV, fpr: Seq<u8>, now: u64)
    ensures
        all_ascii(index_spec(c, fpr, now)),
{
    lemma_line_parts_ascii(c, fpr, now);
    lemma_uid_lines_ascii(c.uids, now);
    lemma_ascii_append(info_found(), pub_line(c, fpr, now));
    lemma_ascii_append(info_found() + pub_line(c, fpr, now), uid_lines(c.uids, now));
}

proof fn lemma_uid_lines_append_one(uids: Seq<(UidV, Seq<SigV>)>, b: (UidV, Seq<SigV>), now: u64)
    ensures
        uid_lines(uids.push(b), now) == uid_lines(uids, now) + uid_line(b, now),
    decreases uids.len(),
{
    if uids.len() == 0 {
        assert(uids.push(b)[0] == b);
        assert(uids.push(b).drop_first() =~= Seq::<(UidV, Seq<SigV>)>::empty());
        assert(uid_lines(Seq::<(UidV, Seq<SigV>)>::empty(), now) == Seq::<u8>::empty());
        assert(uid_lines(uids.push(b), now) == uid_line(b, now) + Seq::<u8>::empty());
        assert(uid_lines(uids, now) == Seq::<u8>::empty());
        assert(uid_lines(uids.push(b), now) =~= uid_lines(uids, now) + uid_line(b, now));
    } else {
        lemma_uid_lines_append_one(uids.drop_first(), b, now);
        assert(uids.push(b).drop_first() =~= uids.drop_first().push(b));
        assert(uids.push(b)[0] == uids[0]);
        assert(uid_lines(uids.push(b), now) =~= uid_lines(uids, now) + uid_line(b, now));
    }
}

fn latest_self_sig_exec(sigs: &Vec<crate::cert::SigPacket>) -> (r: Option<crate::cert::SigPacket>)
    ensures
        match r {
            Some(s) => latest_self_sig(crate::cert::sig_views(sigs@)) == Some(s@),
            None => latest_self_sig(crate::cert::sig_views(sigs@)) is None,
        },
{
    let ghost sv = crate::cert::sig_views(sigs@);
    let mut best: Option<crate::cert::SigPacket> = None;
    let mut i: usize = 0;
    while i < sigs.len()
        invariant
            i <= sigs@.len(),
            sv == crate::cert::sig_views(sigs@),
            (match best {
                Some(b) => latest_self_sig(sv.take(i as int)) == Some(b@),
                None => latest_self_sig(sv.take(i as int)) is None,
            }),
        decreases sigs@.len() - i,
    {
        proof {
            assert(sv[i as int] == sigs@[i as int]@);
            assert(sv.take(i + 1).drop_last() =~= sv.take(i as int));
            assert(sv.take(i + 1).last() == sv[i as int]);
        }
        let is_self = match sigs[i].kind {
            SigKind::SelfSig => true,
            _ => false,
        };
        if is_self {
            let replace = match &best {
                None => true,
                Some(b) => sigs[i].creation >= b.creation,
            };
            if replace {
                best = Some(crate::cert::copy_sig(&sigs[i]));
            }
        }
        i = i + 1;
    }
    proof {
        assert(sv.take(sigs@.len() as int) =~= sv);
    }
    best
}

fn push_sig_fields(out: &mut Vec<u8>, ls: &Option<crate::cert::SigPacket>, now: u64)
    ensures
        final(out)@ == old(out)@ + ctime_text(sig_opt_view(*ls)) + colon() + extime_text(
            sig_opt_view(*ls),
        ) + colon() + exp_flag(sig_opt_view(*ls), now),
{
    match ls {
        None => {
            out.push(58);
            out.push(58);
            proof {
                assert(out@ =~= old(out)@ + ctime_text(None) + colon() + extime_text(None)
                    + colon() + exp_flag(None, now));
            }
        },
        Some(s) => {
            let ghost base = out@;
            let ct = u64_to_dec(s.creation);
            crate::codec::push_bytes(out, &ct);
            out.push(58);
            if s.expiry != 0 {
                let et = u64_to_dec(s.expiry);
                crate::codec::push_bytes(out, &et);
            }
            out.push(58);
            if s.expiry != 0 && s.expiry <= now {
                out.push(101);
            }
            proof {
                assert(out@ =~= base + ctime_text(sig_opt_view(*ls)) + colon() + extime_text(
                    sig_opt_view(*ls),
                ) + colon() + exp_flag(sig_opt_view(*ls), now));
            }
        },
    }
}

pub open spec fn sig_opt_view(o: Option<crate::cert::SigPacket>) -> Option<SigV> {
    match o {
        Some(s) => Some(s@),
        None => None,
    }
}

/// Renders the machine-readable index listing for a certificate: the
/// found marker, the `pub` line, and one `uid` line per identity.
#[verifier::rlimit(100)]
pub fn key_to_hkp_index(cert: &Certificate, now: u64) -> (r: String)
    ensures
        r@ == ascii_chars(index_spec(cert@, crate::codec::fpr_of(cert@), now)),
{
    let fpr = crate::codec::fingerprint(cert);
    let mut out: Vec<u8> = Vec::new();
    out.push(105);
    out.push(110);
    out.push(102);
    out.push(111);
    out.push(58);
    out.push(49);
    out.push(58);
    out.push(49);
    out.push(13);
    out.push(10);
    proof {
        assert(out@ =~= info_found());
    }
    // the pub line
    out.push(112);
    out.push(117);
    out.push(98);
    out.push(58);
    let fh = to_hex(fpr.as_slice());
    crate::codec::push_bytes(&mut out, &fh);
    out.push(58);
    let alg = u64_to_dec(cert.primary.algorithm as u64);
    crate::codec::push_bytes(&mut out, &alg);
    out.push(58);
    let bits = u64_to_dec(cert.primary.bits as u64);
    crate::codec::push_bytes(&mut out, &bits);
    out.push(58);
    let ls = latest_self_sig_exec(&cert.primary_sigs);
    push_sig_fields(&mut out, &ls, now);
    let st = component_status(&cert.primary_sigs);
    let revoked_some = match st {
        RevocationStatus::NotAsFarAsWeKnow => false,
        _ => true,
    };
    if revoked_some {
        out.push(114);
    }
    out.push(13);
    out.push(10);
    proof {
        assert(dec_digits((cert.primary.algorithm as u64) as nat) == dec_digits(
            cert@.primary.algorithm as nat,
        ));
        assert(dec_digits((cert.primary.bits as u64) as nat) == dec_digits(
            cert@.primary.bits as nat,
        ));
        assert(out@ =~= info_found() + pub_line(cert@, crate::codec::fpr_of(cert@), now));
    }
    // the uid lines
    let ghost head = info_found() + pub_line(cert@, crate::codec::fpr_of(cert@), now);
    let mut i: usize = 0;
    while i < cert.uids.len()
        invariant
            i <= cert.uids@.len(),
            head == info_found() + pub_line(cert@, crate::codec::fpr_of(cert@), now),
            out@ == head + uid_lines(cert@.uids.take(i as int), now),
        decreases cert.uids@.len() - i,
    {
        let ghost bv = cert@.uids[i as int];
        let ghost pre = out@;
        proof {
            assert(cert@.uids[i as int] == cert.uids@[i as int]@);
        }
        out.push(117);
        out.push(105);
        out.push(100);
        out.push(58);
        let enc = urlencode(cert.uids[i].uid.label.as_slice());
        crate::codec::push_bytes(&mut out, &enc);
        out.push(58);
        let ls = latest_self_sig_exec(&cert.uids[i].sigs);
        push_sig_fields(&mut out, &ls, now);
        let st = component_status(&cert.uids[i].sigs);
        let revoked_some = match st {
            RevocationStatus::NotAsFarAsWeKnow => false,
            _ => true,
        };
        if revoked_some {
            out.push(114);
        }
        out.push(13);
        out.push(10);
        proof {
            assert(out@ =~= pre + uid_line(bv, now));
            lemma_uid_lines_append_one(cert@.uids.take(i as int), bv, now);
            assert(cert@.uids.take(i + 1) =~= cert@.uids.take(i as int).push(bv));
            assert(out@ =~= head + uid_lines(cert@.uids.take(i + 1), now));
        }
        i = i + 1;
    }
    proof {
        assert(cert@.uids.take(cert.uids@.len() as int) =~= cert@.uids);
        lemma_index_ascii(cert@, crate::codec::fpr_of(cert@), now);
    }
    ascii_to_string(out)
}


// ---------------------------------------------------------------------
// Lookup dispatch
// ---------------------------------------------------------------------
/// What a lookup yields: the armored block verbatim, the index
/// listing, a page context, or nothing.
pub enum LookupOutcome {
    MachineReadable(String),
    IndexText(String),
    Web(Search),
    NotFound,
}

/// The search text a query displays as.
pub fn query_bytes(query: &Hkp) -> (r: Vec<u8>)
    ensures
        r@ == (match query@ {
            HkpV::Fingerprint { fpr, .. } => hex_bytes(fpr),
            HkpV::KeyID { keyid, .. } => hex_bytes(keyid),
            HkpV::Email { email, .. } => email,
            HkpV::Invalid { query: q } => q,
        }),
{
    match query {
        Hkp::Fingerprint { fpr, .. } => to_hex(fpr.bytes.as_slice()),
        Hkp::KeyID { keyid, .. } => to_hex(keyid.bytes.as_slice()),
        Hkp::Email { email, .. } => crate::cert::copy_bytes(&email.addr),
        Hkp::Invalid { query: q } => crate::cert::copy_bytes(q),
    }
}

fn info_none_text() -> (r: String)
    ensures
        r@ == ascii_chars(info_none()),
{
    let mut out: Vec<u8> = Vec::new();
    out.push(105);
    out.push(110);
    out.push(102);
    out.push(111);
    out.push(58);
    out.push(49);
    out.push(58);
    out.push(48);
    out.push(13);
    out.push(10);
    proof {
        assert(out@ =~= info_none());
    }
    ascii_to_string(out)
}

/// Reads a served armored block back into its certificate. The store's
/// contracts guarantee this succeeds on anything a lookup returned.
fn reparse_served(armored: &String, ghost_proj: Ghost<CertV>) -> (r: Certificate)
    requires
        crate::cert::wf_cert(ghost_proj@),
        armored@ == ascii_chars(
            crate::codec::armor_bytes(crate::codec::ser_cert(ghost_proj@)),
        ),
    ensures
        r@ == ghost_proj@,
{
    let ghost ab = crate::codec::armor_bytes(crate::codec::ser_cert(ghost_proj@));
    let astr = armored.as_str();
    let bytes = astr.as_bytes();
    proof {
        crate::codec::lemma_armor_ascii(crate::codec::ser_cert(ghost_proj@));
        crate::textenc::lemma_ascii_roundtrip(ab);
        assert(bytes@ == vstd::utf8::encode_utf8(astr@));
        assert(bytes@ == ab);
        crate::codec::lemma_parse_ser_cert(ghost_proj@);
        crate::codec::lemma_dearmor_roundtrip(crate::codec::ser_cert(ghost_proj@));
        assert(ab[0] == 45) by {
            assert(ab[0] == crate::codec::armor_header()[0]);
        }
    }
    match crate::codec::parse_cert(bytes) {
        Ok(c) => c,
        Err(e) => {
            proof {
                assert(false);
            }
            Certificate {
                primary: crate::cert::KeyPacket {
                    algorithm: 0,
                    bits: 0,
                    creation: 0,
                    material: Vec::new(),
                },
                primary_sigs: Vec::new(),
                subkeys: Vec::new(),
                uids: Vec::new(),
            }
        },
    }
}

/// Turns a matched armored block into the response: verbatim when
/// machine-readable output was asked for, else the search page context.
pub fn key_to_response(
    query: String,
    domain: &String,
    armored: String,
    machine_readable: bool,
    ghost_proj: Ghost<CertV>,
    commit: &String,
    version: &String,
) -> (r: LookupOutcome)
    requires
        crate::cert::wf_cert(ghost_proj@),
        armored@ == ascii_chars(
            crate::codec::armor_bytes(crate::codec::ser_cert(ghost_proj@)),
        ),
    ensures
        (match r {
            LookupOutcome::MachineReadable(s) => machine_readable && s@ == armored@,
            LookupOutcome::Web(w) => {
                &&& !machine_readable
                &&& w.query@ == query@
                &&& (match w.fpr {
                    Some(h) => h@ == ascii_chars(hex_bytes(crate::codec::fpr_of(ghost_proj@))),
                    None => false,
                })
                &&& (match w.armored {
                    Some(a) => a@ == armored@,
                    None => false,
                })
                &&& (match w.domain {
                    Some(d) => d@ == domain@,
                    None => false,
                })
                &&& w.commit@ == commit@
                &&& w.version@ == version@
            },
            _ => false,
        }),
{
    if machine_readable {
        return LookupOutcome::MachineReadable(armored);
    }
    let cert = reparse_served(&armored, ghost_proj);
    let fpr = crate::codec::fingerprint(&cert);
    let fh = to_hex(fpr.as_slice());
    proof {
        crate::util::lemma_hex_ascii(fpr@);
    }
    let fpr_text = ascii_to_string(fh);
    LookupOutcome::Web(
        Search {
            query,
            fpr: Some(fpr_text),
            armored: Some(armored),
            domain: Some(domain.clone()),
            commit: commit.clone(),
            version: version.clone(),
        },
    )
}

fn ascii_or_empty(b: &[u8]) -> (r: String)
    ensures
        r@ == if all_ascii(b@) {
            ascii_chars(b@)
        } else {
            Seq::<char>::empty()
        },
{
    let mut i: usize = 0;
    while i < b.len()
        invariant
            i <= b@.len(),
            forall|j: int| 0 <= j < i ==> b@[j] < 128,
        decreases b@.len() - i,
    {
        if b[i] >= 128 {
            proof {
                assert(!all_ascii(b@));
            }
            return String::new();
        }
        i = i + 1;
    }
    ascii_to_string(copy_bytes_slice(b))
}

/// The response owed on a match when no index listing was asked for:
/// the armored block verbatim under machine-readable output, else the
/// search page context over the served projection.
pub open spec fn plain_hit_response(
    r: LookupOutcome,
    proj: CertV,
    query_text: Seq<char>,
    domain: Seq<char>,
    mr: bool,
    commit: Seq<char>,
    version: Seq<char>,
) -> bool {
    let armored_chars = ascii_chars(
        crate::codec::armor_bytes(crate::codec::ser_cert(proj)),
    );
    if mr {
        match r {
            LookupOutcome::MachineReadable(s) => s@ == armored_chars,
            _ => false,
        }
    } else {
        match r {
            LookupOutcome::Web(w) => {
                &&& w.query@ == query_text
                &&& (match w.fpr {
                    Some(h) => h@ == ascii_chars(hex_bytes(crate::codec::fpr_of(proj))),
                    None => false,
                })
                &&& (match w.armored {
                    Some(a) => a@ == armored_chars,
                    None => false,
                })
                &&& (match w.domain {
                    Some(d) => d@ == domain,
                    None => false,
                })
                &&& w.commit@ == commit
                &&& w.version@ == version
            },
            _ => false,
        }
    }
}

/// Dispatches a parsed lookup against the store: resolves the search,
/// and renders the index listing, the armored block, or the page
/// context, as the query asked.
pub fn lookup(
    store: &CertStore,
    query: Option<&Hkp>,
    domain: &String,
    now: u64,
    commit: &String,
    version: &String,
) -> (r: LookupOutcome)
    requires
        store_inv(store@),
    ensures
        (match query {
            None => r is NotFound,
            Some(q) => match q@ {
                HkpV::Invalid { .. } => r is NotFound,
                HkpV::Fingerprint { fpr, index, machine_readable } => {
                    let j = find_fpr(store@, fpr);
                    &&& (j < 0 && index ==> (r matches LookupOutcome::IndexText(s) && s@
                        == ascii_chars(info_none())))
                    &&& (j < 0 && !index ==> r is NotFound)
                    &&& (j >= 0 && index ==> {
                        let proj = filter_spec(store@[j].cert, store@[j].published);
                        (r matches LookupOutcome::IndexText(s) && s@ == ascii_chars(
                            index_spec(proj, crate::codec::fpr_of(proj), now),
                        ))
                    })
                    &&& (j >= 0 && !index ==> plain_hit_response(
                        r,
                        filter_spec(store@[j].cert, store@[j].published),
                        ascii_chars(hex_bytes(fpr)),
                        domain@,
                        machine_readable,
                        commit@,
                        version@,
                    ))
                },
                HkpV::KeyID { keyid, index, machine_readable } => {
                    let j = find_kid(store@, keyid);
                    &&& (j < 0 && index ==> (r matches LookupOutcome::IndexText(s) && s@
                        == ascii_chars(info_none())))
                    &&& (j < 0 && !index ==> r is NotFound)
                    &&& (j >= 0 && index ==> {
                        let proj = filter_spec(store@[j].cert, store@[j].published);
                        (r matches LookupOutcome::IndexText(s) && s@ == ascii_chars(
                            index_spec(proj, crate::codec::fpr_of(proj), now),
                        ))
                    })
                    &&& (j >= 0 && !index ==> plain_hit_response(
                        r,
                        filter_spec(store@[j].cert, store@[j].published),
                        ascii_chars(hex_bytes(keyid)),
                        domain@,
                        machine_readable,
                        commit@,
                        version@,
                    ))
                },
                HkpV::Email { email, index } => {
                    let j = find_email(store@, email);
                    &&& (j < 0 && index ==> (r matches LookupOutcome::IndexText(s) && s@
                        == ascii_chars(info_none())))
                    &&& (j < 0 && !index ==> r is NotFound)
                    &&& (j >= 0 && index ==> {
                        let proj = filter_spec(store@[j].cert, seq![email]);
                        (r matches LookupOutcome::IndexText(s) && s@ == ascii_chars(
                            index_spec(proj, crate::codec::fpr_of(proj), now),
                        ))
                    })
                    &&& (j >= 0 && !index ==> plain_hit_response(
                        r,
                        filter_spec(store@[j].cert, seq![email]),
                        if all_ascii(email) {
                            ascii_chars(email)
                        } else {
                            Seq::<char>::empty()
                        },
                        domain@,
                        false,
                        commit@,
                        version@,
                    ))
                },
            },
        }),
{
    let q = match query {
        Some(q) => q,
        None => {
            return LookupOutcome::NotFound;
        },
    };
    match q {
        Hkp::Invalid { .. } => LookupOutcome::NotFound,
        Hkp::Fingerprint { fpr, index, machine_readable } => {
            let armored = store.by_fpr(fpr.bytes.as_slice());
            let ghost j = find_fpr(store@, fpr@);
            match armored {
                None => {
                    if *index {
                        LookupOutcome::IndexText(info_none_text())
                    } else {
                        LookupOutcome::NotFound
                    }
                },
                Some(a) => {
                    let ghost proj = filter_spec(store@[j].cert, store@[j].published);
                    proof {
                        assert(rec_inv(store@[j]));
                        crate::store::lemma_filter_wf(store@[j].cert, store@[j].published);
                    }
                    if *index {
                        let cert = reparse_served(&a, Ghost(proj));
                        LookupOutcome::IndexText(key_to_hkp_index(&cert, now))
                    } else {
                        let qb = to_hex(fpr.bytes.as_slice());
                        proof {
                            crate::util::lemma_hex_ascii(fpr@);
                        }
                        let qs = ascii_to_string(qb);
                        key_to_response(qs, domain, a, *machine_readable, Ghost(proj), commit, version)
                    }
                },
            }
        },
        Hkp::KeyID { keyid, index, machine_readable } => {
            let armored = store.by_kid(keyid.bytes.as_slice());
            let ghost j = find_kid(store@, keyid@);
            match armored {
                None => {
                    if *index {
                        LookupOutcome::IndexText(info_none_text())
                    } else {
                        LookupOutcome::NotFound
                    }
                },
                Some(a) => {
                    let ghost proj = filter_spec(store@[j].cert, store@[j].published);
                    proof {
                        assert(rec_inv(store@[j]));
                        crate::store::lemma_filter_wf(store@[j].cert, store@[j].published);
                    }
                    if *index {
                        let cert = reparse_served(&a, Ghost(proj));
                        LookupOutcome::IndexText(key_to_hkp_index(&cert, now))
                    } else {
                        let qb = to_hex(keyid.bytes.as_slice());
                        proof {
                            crate::util::lemma_hex_ascii(keyid@);
                        }
                        let qs = ascii_to_string(qb);
                        key_to_response(qs, domain, a, *machine_readable, Ghost(proj), commit, version)
                    }
                },
            }
        },
        Hkp::Email { email, index } => {
            let armored = store.by_email(email.addr.as_slice());
            let ghost j = find_email(store@, email@);
            match armored {
                None => {
                    if *index {
                        LookupOutcome::IndexText(info_none_text())
                    } else {
                        LookupOutcome::NotFound
                    }
                },
                Some(a) => {
                    let ghost proj = filter_spec(store@[j].cert, seq![email@]);
                    proof {
                        assert(rec_inv(store@[j]));
                        crate::store::lemma_filter_wf(store@[j].cert, seq![email@]);
                    }
                    if *index {
                        let cert = reparse_served(&a, Ghost(proj));
                        LookupOutcome::IndexText(key_to_hkp_index(&cert, now))
                    } else {
                        let qs = ascii_or_empty(email.addr.as_slice());
                        key_to_response(qs, domain, a, false, Ghost(proj), commit, version)
                    }
                },
            }
        },
    }
}

} // verus!
