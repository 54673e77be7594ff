//! Normalization and merging of certificates. Normalizing keeps, for
//! every component, only its bound signatures and revocations, drops
//! duplicates, and leaves components in encounter order; merging takes
//! the union of two certificates' packets and normalizes the result.

use vstd::prelude::*;
use crate::cert::{
    Certificate, CertV, KeyPacket, KeyV, SigKind, SigPacket, SigV, SubkeyBundle, UidBundle,
    UidPacket, UidV, copy_key, copy_sig, copy_uid, copy_sigs, sig_eq, key_eq, uid_eq, wf_cert,
    wf_sig, wf_sigs, wf_bundle_k, wf_bundle_u, sig_views, sk_views, uid_views, status_of,
};

verus! {

// ---------------------------------------------------------------------
// Deduplication, keeping the first occurrence
// ---------------------------------------------------------------------
pub open spec fn dedup<A>(s: Seq<A>) -> Seq<A>
    decreases s.len(),
{
    if s.len() == 0 {
        Seq::empty()
    } else {
        let init = dedup(s.drop_last());
        if init.contains(s.last()) {
            init
        } else {
            init.push(s.last())
        }
    }
}

pub proof fn lemma_contains_drop_last<A>(s: Seq<A>, x: A)
    requires
        s.len() > 0,
    ensures
        s.contains(x) == (s.drop_last().contains(x) || s.last() == x),
{
    if s.contains(x) {
        let i = choose|i: int| 0 <= i < s.len() && s[i] == x;
        if i < s.len() - 1 {
            assert(s.drop_last()[i] == x);
            assert(s.drop_last().contains(x));
        }
    }
    if s.drop_last().contains(x) {
        let i = choose|i: int| 0 <= i < s.drop_last().len() && s.drop_last()[i] == x;
        assert(s[i] == x);
    }
    if s.last() == x {
        assert(s[s.len() - 1] == x);
    }
}

pub proof fn lemma_contains_append<A>(s: Seq<A>, t: Seq<A>, x: A)
    ensures
        (s + t).contains(x) == (s.contains(x) || t.contains(x)),
{
    if (s + t).contains(x) {
        let i = choose|i: int| 0 <= i < (s + t).len() && (s + t)[i] == x;
        if i < s.len() {
            assert(s[i] == x);
        } else {
            assert(t[i - s.len()] == x);
        }
    }
    if s.contains(x) {
        let i = choose|i: int| 0 <= i < s.len() && s[i] == x;
        assert((s + t)[i] == x);
    }
    if t.contains(x) {
        let i = choose|i: int| 0 <= i < t.len() && t[i] == x;
        assert((s + t)[s.len() + i] == x);
    }
}

pub proof fn lemma_dedup_contains<A>(s: Seq<A>, x: A)
    ensures
        dedup(s).contains(x) == s.contains(x),
    decreases s.len(),
{
    if s.len() > 0 {
        lemma_dedup_contains(s.drop_last(), x);
        lemma_contains_drop_last(s, x);
        let init = dedup(s.drop_last());
        if !init.contains(s.last()) {
            lemma_contains_drop_last(init.push(s.last()), x);
            assert(init.push(s.last()).drop_last() =~= init);
        }
    }
}

/// No element occurs twice.
pub open spec fn distinct<A>(s: Seq<A>) -> bool {
    forall|i: int, j: int| #![trigger s[i], s[j]] 0 <= i < j < s.len() ==> s[i] != s[j]
}

pub proof fn lemma_dedup_distinct<A>(s: Seq<A>)
    ensures
        distinct(dedup(s)),
    decreases s.len(),
{
    if s.len() > 0 {
        lemma_dedup_distinct(s.drop_last());
        let init = dedup(s.drop_last());
        if !init.contains(s.last()) {
            let d = init.push(s.last());
            assert forall|i: int, j: int| #![trigger d[i], d[j]] 0 <= i < j < d.len() implies d[i]
                != d[j] by {
                if j < d.len() - 1 {
                    assert(init[i] != init[j]);
                } else {
                    if d[i] == d[j] {
                        assert(init[i] == s.last());
                        assert(init.contains(s.last()));
                    }
                }
            }
        }
    }
}

pub proof fn lemma_dedup_of_distinct<A>(s: Seq<A>)
    requires
        distinct(s),
    ensures
        dedup(s) == s,
    decreases s.len(),
{
    if s.len() > 0 {
        assert(distinct(s.drop_last())) by {
            assert forall|i: int, j: int|
                #![trigger s.drop_last()[i], s.drop_last()[j]]
                0 <= i < j < s.drop_last().len() implies s.drop_last()[i] != s.drop_last()[j] by {
                assert(s[i] == s.drop_last()[i] && s[j] == s.drop_last()[j]);
            }
        }
        lemma_dedup_of_distinct(s.drop_last());
        if s.drop_last().contains(s.last()) {
            let i = choose|i: int|
                0 <= i < s.drop_last().len() && s.drop_last()[i] == s.last();
            assert(s[i] == s[s.len() - 1]);
            assert(false);
        }
        assert(dedup(s) =~= s);
    }
}

pub proof fn lemma_dedup_idempotent<A>(s: Seq<A>)
    ensures
        dedup(dedup(s)) == dedup(s),
{
    lemma_dedup_distinct(s);
    lemma_dedup_of_distinct(dedup(s));
}

/// Appending elements already present changes nothing.
pub proof fn lemma_dedup_absorb<A>(s: Seq<A>, t: Seq<A>)
    requires
        forall|i: int| 0 <= i < t.len() ==> s.contains(#[trigger] t[i]),
    ensures
        dedup(s + t) == dedup(s),
    decreases t.len(),
{
    if t.len() == 0 {
        assert(s + t =~= s);
    } else {
        assert(forall|i: int| 0 <= i < t.drop_last().len() ==> s.contains(#[trigger] t.drop_last()[i]));
        lemma_dedup_absorb(s, t.drop_last());
        let u = s + t;
        assert(u.len() > 0);
        assert(u.drop_last() =~= s + t.drop_last());
        assert(u.last() == t.last());
        assert(s.contains(t.last()));
        lemma_dedup_contains(s + t.drop_last(), t.last());
        lemma_contains_append(s, t.drop_last(), t.last());
    }
}

pub proof fn lemma_dedup_self_append<A>(s: Seq<A>)
    ensures
        dedup(s + s) == dedup(s),
{
    lemma_dedup_absorb(s, s);
}

/// Every element of the result occurs in the input.
pub proof fn lemma_dedup_elements<A>(s: Seq<A>)
    ensures
        forall|i: int| 0 <= i < dedup(s).len() ==> s.contains(#[trigger] dedup(s)[i]),
{
    assert forall|i: int| 0 <= i < dedup(s).len() implies s.contains(#[trigger] dedup(s)[i]) by {
        assert(dedup(s).contains(dedup(s)[i]));
        lemma_dedup_contains(s, dedup(s)[i]);
    }
}

// ---------------------------------------------------------------------
// Retention of signature packets
// ---------------------------------------------------------------------
/// A signature packet the normalizer retains: a self-signature, a
/// self-revocation or a third-party revocation of its component.
pub open spec fn relevant(s: SigV) -> bool {
    !(s.kind is Other)
}

pub open spec fn keep_relevant(s: Seq<SigV>) -> Seq<SigV>
    decreases s.len(),
{
    if s.len() == 0 {
        Seq::empty()
    } else {
        let init = keep_relevant(s.drop_last());
        if relevant(s.last()) {
            init.push(s.last())
        } else {
            init
        }
    }
}

pub proof fn lemma_keep_contains(s: Seq<SigV>, x: SigV)
    ensures
        keep_relevant(s).contains(x) == (s.contains(x) && relevant(x)),
    decreases s.len(),
{
    if s.len() > 0 {
        lemma_keep_contains(s.drop_last(), x);
        lemma_contains_drop_last(s, x);
        let init = keep_relevant(s.drop_last());
        if relevant(s.last()) {
            lemma_contains_drop_last(init.push(s.last()), x);
            assert(init.push(s.last()).drop_last() =~= init);
        }
    }
}

pub proof fn lemma_keep_all_relevant(s: Seq<SigV>)
    requires
        forall|i: int| 0 <= i < s.len() ==> relevant(#[trigger] s[i]),
    ensures
        keep_relevant(s) == s,
    decreases s.len(),
{
    if s.len() > 0 {
        assert(forall|i: int|
            0 <= i < s.drop_last().len() ==> relevant(#[trigger] s.drop_last()[i]));
        lemma_keep_all_relevant(s.drop_last());
        assert(relevant(s[s.len() - 1]));
        assert(keep_relevant(s) =~= s);
    }
}

pub proof fn lemma_keep_elements(s: Seq<SigV>)
    ensures
        forall|i: int|
            0 <= i < keep_relevant(s).len() ==> relevant(#[trigger] keep_relevant(s)[i])
                && s.contains(keep_relevant(s)[i]),
{
    assert forall|i: int| 0 <= i < keep_relevant(s).len() implies relevant(
        #[trigger] keep_relevant(s)[i],
    ) && s.contains(keep_relevant(s)[i]) by {
        assert(keep_relevant(s).contains(keep_relevant(s)[i]));
        lemma_keep_contains(s, keep_relevant(s)[i]);
    }
}

pub proof fn lemma_keep_append(s: Seq<SigV>, t: Seq<SigV>)
    ensures
        keep_relevant(s + t) == keep_relevant(s) + keep_relevant(t),
    decreases t.len(),
{
    if t.len() == 0 {
        assert(s + t =~= s);
        assert(keep_relevant(s) + keep_relevant(t) =~= keep_relevant(s));
    } else {
        lemma_keep_append(s, t.drop_last());
        let u = s + t;
        assert(u.drop_last() =~= s + t.drop_last());
        assert(u.last() == t.last());
        if relevant(t.last()) {
            assert(keep_relevant(s) + keep_relevant(t) =~= (keep_relevant(s) + keep_relevant(
                t.drop_last(),
            )).push(t.last()));
        } else {
            assert(keep_relevant(s) + keep_relevant(t) =~= keep_relevant(s) + keep_relevant(
                t.drop_last(),
            ));
        }
    }
}

/// Retained signatures: relevant packets only, first occurrences only.
pub open spec fn cs(s: Seq<SigV>) -> Seq<SigV> {
    dedup(keep_relevant(s))
}

pub proof fn lemma_cs_contains(s: Seq<SigV>, x: SigV)
    ensures
        cs(s).contains(x) == (s.contains(x) && relevant(x)),
{
    lemma_dedup_contains(keep_relevant(s), x);
    lemma_keep_contains(s, x);
}

pub proof fn lemma_cs_elements(s: Seq<SigV>)
    ensures
        forall|i: int|
            0 <= i < cs(s).len() ==> relevant(#[trigger] cs(s)[i]) && s.contains(cs(s)[i]),
{
    assert forall|i: int| 0 <= i < cs(s).len() implies relevant(#[trigger] cs(s)[i]) && s.contains(
        cs(s)[i],
    ) by {
        assert(cs(s).contains(cs(s)[i]));
        lemma_cs_contains(s, cs(s)[i]);
    }
}

pub proof fn lemma_cs_idempotent(s: Seq<SigV>)
    ensures
        cs(cs(s)) == cs(s),
{
    lemma_cs_elements(s);
    lemma_keep_all_relevant(cs(s));
    lemma_dedup_distinct(keep_relevant(s));
    lemma_dedup_of_distinct(cs(s));
}

pub proof fn lemma_cs_self_append(s: Seq<SigV>)
    ensures
        cs(s + s) == cs(s),
{
    lemma_keep_append(s, s);
    lemma_keep_elements(s);
    let k = keep_relevant(s);
    assert forall|i: int| 0 <= i < k.len() implies k.contains(#[trigger] k[i]) by {}
    lemma_dedup_absorb(k, k);
}

/// One step of retention, matching one loop iteration.
pub proof fn lemma_cs_push(s: Seq<SigV>, x: SigV)
    ensures
        cs(s.push(x)) == if relevant(x) && !cs(s).contains(x) {
            cs(s).push(x)
        } else {
            cs(s)
        },
{
    assert(s.push(x).drop_last() =~= s);
    assert(s.push(x).last() == x);
    if relevant(x) {
        assert(keep_relevant(s.push(x)) == keep_relevant(s).push(x));
        assert(keep_relevant(s).push(x).drop_last() =~= keep_relevant(s));
    }
}

pub proof fn lemma_cs_wf(s: Seq<SigV>)
    requires
        wf_sigs(s),
    ensures
        wf_sigs(cs(s)),
{
    lemma_cs_elements(s);
    assert forall|i: int| 0 <= i < cs(s).len() implies wf_sig(#[trigger] cs(s)[i]) by {
        let x = cs(s)[i];
        assert(s.contains(x));
        let j = choose|j: int| 0 <= j < s.len() && s[j] == x;
        assert(wf_sig(s[j]));
    }
}

// ---------------------------------------------------------------------
// Grouping of keyed bundles
// ---------------------------------------------------------------------
pub open spec fn pair_keys<K>(s: Seq<(K, Seq<SigV>)>) -> Seq<K> {
    s.map_values(|b: (K, Seq<SigV>)| b.0)
}

/// All signatures the bundles bind to key `k`, in encounter order.
pub open spec fn sigs_for<K>(s: Seq<(K, Seq<SigV>)>, k: K) -> Seq<SigV>
    decreases s.len(),
{
    if s.len() == 0 {
        Seq::empty()
    } else {
        sigs_for(s.drop_last(), k) + if s.last().0 == k {
            s.last().1
        } else {
            Seq::empty()
        }
    }
}

/// One bundle per distinct key, in encounter order of the keys, each
/// holding the retained union of the signatures bound to that key.
pub open spec fn group<K>(s: Seq<(K, Seq<SigV>)>) -> Seq<(K, Seq<SigV>)> {
    dedup(pair_keys(s)).map_values(|k: K| (k, cs(sigs_for(s, k))))
}

pub proof fn lemma_pair_keys_append<K>(s: Seq<(K, Seq<SigV>)>, t: Seq<(K, Seq<SigV>)>)
    ensures
        pair_keys(s + t) == pair_keys(s) + pair_keys(t),
{
    assert(pair_keys(s + t) =~= pair_keys(s) + pair_keys(t));
}

pub proof fn lemma_sigs_for_append<K>(s: Seq<(K, Seq<SigV>)>, t: Seq<(K, Seq<SigV>)>, k: K)
    ensures
        sigs_for(s + t, k) == sigs_for(s, k) + sigs_for(t, k),
    decreases t.len(),
{
    if t.len() == 0 {
        assert(s + t =~= s);
        assert(sigs_for(s, k) + sigs_for(t, k) =~= sigs_for(s, k));
    } else {
        lemma_sigs_for_append(s, t.drop_last(), k);
        let u = s + t;
        assert(u.drop_last() =~= s + t.drop_last());
        assert(u.last() == t.last());
        assert(sigs_for(s, k) + sigs_for(t, k) =~= (sigs_for(s, k) + sigs_for(t.drop_last(), k))
            + if t.last().0 == k {
            t.last().1
        } else {
            Seq::empty()
        });
    }
}

/// A key that no bundle carries collects no signatures.
pub proof fn lemma_sigs_for_absent<K>(s: Seq<(K, Seq<SigV>)>, k: K)
    requires
        !pair_keys(s).contains(k),
    ensures
        sigs_for(s, k) == Seq::<SigV>::empty(),
    decreases s.len(),
{
    if s.len() > 0 {
        assert forall|i: int| 0 <= i < s.drop_last().len() implies pair_keys(s.drop_last())[i]
            != k by {
            assert(pair_keys(s)[i] == pair_keys(s.drop_last())[i]);
            if pair_keys(s)[i] == k {
                assert(pair_keys(s).contains(k));
            }
        }
        if pair_keys(s.drop_last()).contains(k) {
            let i = choose|i: int|
                0 <= i < pair_keys(s.drop_last()).len() && pair_keys(s.drop_last())[i] == k;
            assert(false);
        }
        lemma_sigs_for_absent(s.drop_last(), k);
        assert(pair_keys(s)[s.len() - 1] == s.last().0);
        if s.last().0 == k {
            assert(pair_keys(s).contains(k));
        }
        assert(sigs_for(s, k) =~= Seq::<SigV>::empty());
    }
}

/// With distinct keys, the key's own bundle is the only contributor.
pub proof fn lemma_sigs_for_single<K>(s: Seq<(K, Seq<SigV>)>, i: int)
    requires
        distinct(pair_keys(s)),
        0 <= i < s.len(),
    ensures
        sigs_for(s, s[i].0) == s[i].1,
    decreases s.len(),
{
    let k = s[i].0;
    if i == s.len() - 1 {
        if pair_keys(s.drop_last()).contains(k) {
            let j = choose|j: int|
                0 <= j < pair_keys(s.drop_last()).len() && pair_keys(s.drop_last())[j] == k;
            assert(pair_keys(s)[j] == k);
            assert(pair_keys(s)[s.len() - 1] == k);
            assert(false);
        }
        lemma_sigs_for_absent(s.drop_last(), k);
        assert(sigs_for(s, k) =~= s[i].1);
    } else {
        assert(distinct(pair_keys(s.drop_last()))) by {
            let pk = pair_keys(s.drop_last());
            assert forall|a: int, b: int| #![trigger pk[a], pk[b]] 0 <= a < b < pk.len() implies
                pk[a] != pk[b] by {
                assert(pk[a] == pair_keys(s)[a] && pk[b] == pair_keys(s)[b]);
            }
        }
        assert(s.drop_last()[i] == s[i]);
        lemma_sigs_for_single(s.drop_last(), i);
        assert(pair_keys(s)[i] == k && pair_keys(s)[s.len() - 1] == s.last().0);
        assert(s.last().0 != k);
        assert(sigs_for(s, k) =~= s[i].1);
    }
}

pub proof fn lemma_group_keys<K>(s: Seq<(K, Seq<SigV>)>)
    ensures
        pair_keys(group(s)) == dedup(pair_keys(s)),
{
    assert(pair_keys(group(s)) =~= dedup(pair_keys(s)));
}

/// What the grouped bundles bind to `k`: the retained union, or nothing
/// if `k` never occurs.
pub proof fn lemma_sigs_for_group<K>(s: Seq<(K, Seq<SigV>)>, k: K)
    ensures
        sigs_for(group(s), k) == if pair_keys(s).contains(k) {
            cs(sigs_for(s, k))
        } else {
            Seq::<SigV>::empty()
        },
{
    let g = group(s);
    lemma_group_keys(s);
    lemma_dedup_distinct(pair_keys(s));
    lemma_dedup_contains(pair_keys(s), k);
    if pair_keys(s).contains(k) {
        let dk = dedup(pair_keys(s));
        let i = choose|i: int| 0 <= i < dk.len() && dk[i] == k;
        assert(g[i] == (k, cs(sigs_for(s, k))));
        assert(g[i].0 == k);
        assert(distinct(pair_keys(g)));
        lemma_sigs_for_single(g, i);
    } else {
        if pair_keys(g).contains(k) {
            let i = choose|i: int| 0 <= i < pair_keys(g).len() && pair_keys(g)[i] == k;
            assert(dedup(pair_keys(s)).contains(k)) by {
                assert(dedup(pair_keys(s))[i] == pair_keys(g)[i]);
            }
            assert(false);
        }
        lemma_sigs_for_absent(g, k);
    }
}

pub proof fn lemma_group_idempotent<K>(s: Seq<(K, Seq<SigV>)>)
    ensures
        group(group(s)) == group(s),
{
    let g = group(s);
    lemma_group_keys(s);
    lemma_dedup_distinct(pair_keys(s));
    lemma_dedup_idempotent(pair_keys(s));
    lemma_dedup_of_distinct(dedup(pair_keys(s)));
    let dk = dedup(pair_keys(s));
    assert(pair_keys(g) == dk);
    assert forall|i: int| 0 <= i < dk.len() implies group(g)[i] == #[trigger] g[i] by {
        let k = dk[i];
        assert(group(g)[i] == (k, cs(sigs_for(g, k))));
        lemma_sigs_for_group(s, k);
        lemma_dedup_contains(pair_keys(s), k);
        assert(dk.contains(k)) by {
            assert(dk[i] == k);
        }
        assert(pair_keys(s).contains(k));
        assert(sigs_for(g, k) == cs(sigs_for(s, k)));
        lemma_cs_idempotent(sigs_for(s, k));
        assert(g[i] == (k, cs(sigs_for(s, k))));
    }
    assert(group(g) =~= g);
}

pub proof fn lemma_group_self_append<K>(s: Seq<(K, Seq<SigV>)>)
    ensures
        group(s + s) == group(s),
{
    lemma_pair_keys_append(s, s);
    lemma_dedup_self_append(pair_keys(s));
    let dk = dedup(pair_keys(s));
    assert forall|i: int| 0 <= i < dk.len() implies group(s + s)[i] == #[trigger] group(s)[i] by {
        let k = dk[i];
        lemma_sigs_for_append(s, s, k);
        lemma_cs_self_append(sigs_for(s, k));
    }
    assert(group(s + s) =~= group(s));
}


// ---------------------------------------------------------------------
// Normalization and merge, as specifications
// ---------------------------------------------------------------------
/// The normalized form of a certificate: retained signatures only, one
/// bundle per distinct subkey and per distinct identity, encounter
/// order kept.
pub open spec fn clean(c: CertV) -> CertV {
    CertV {
        primary: c.primary,
        primary_sigs: cs(c.primary_sigs),
        subkeys: group(c.subkeys),
        uids: group(c.uids),
    }
}

/// Both certificates' packets, the first one's primary key standing for
/// both (they agree whenever the two share a fingerprint).
pub open spec fn cert_concat(a: CertV, b: CertV) -> CertV {
    CertV {
        primary: a.primary,
        primary_sigs: a.primary_sigs + b.primary_sigs,
        subkeys: a.subkeys + b.subkeys,
        uids: a.uids + b.uids,
    }
}

pub open spec fn merge_spec(a: CertV, b: CertV) -> CertV {
    clean(cert_concat(a, b))
}

/// Normalizing is idempotent: a normalized certificate re-normalizes to
/// itself.
pub proof fn lemma_normalize_idempotent(c: CertV)
    ensures
        clean(clean(c)) == clean(c),
{
    lemma_cs_idempotent(c.primary_sigs);
    lemma_group_idempotent(c.subkeys);
    lemma_group_idempotent(c.uids);
    assert(clean(clean(c)) =~= clean(c));
}

/// Merging a certificate with itself is the same as normalizing it.
pub proof fn lemma_merge_idempotent(c: CertV)
    ensures
        merge_spec(c, c) == clean(c),
{
    lemma_cs_self_append(c.primary_sigs);
    lemma_group_self_append(c.subkeys);
    lemma_group_self_append(c.uids);
    assert(merge_spec(c, c) =~= clean(c));
}

// ---------------------------------------------------------------------
// Packet-set equivalence, and order independence of merging
// ---------------------------------------------------------------------
/// Two certificates carrying the same packets: the same primary key,
/// the same retained signature sets per component, the same component
/// sets. Component order may differ.
pub open spec fn cert_same_content(x: CertV, y: CertV) -> bool {
    &&& x.primary == y.primary
    &&& forall|s: SigV| #[trigger] x.primary_sigs.contains(s) == y.primary_sigs.contains(s)
    &&& forall|k: KeyV|
        #[trigger] pair_keys(x.subkeys).contains(k) == pair_keys(y.subkeys).contains(k)
    &&& forall|k: KeyV, s: SigV|
        #[trigger] sigs_for(x.subkeys, k).contains(s) == sigs_for(y.subkeys, k).contains(s)
    &&& forall|u: UidV| #[trigger] pair_keys(x.uids).contains(u) == pair_keys(y.uids).contains(u)
    &&& forall|u: UidV, s: SigV|
        #[trigger] sigs_for(x.uids, u).contains(s) == sigs_for(y.uids, u).contains(s)
}

proof fn lemma_merge_side_keys<K>(x: Seq<(K, Seq<SigV>)>, y: Seq<(K, Seq<SigV>)>, k: K)
    ensures
        pair_keys(group(group(x) + y)).contains(k) == (pair_keys(x).contains(k) || pair_keys(
            y,
        ).contains(k)),
{
    let u = group(x) + y;
    lemma_group_keys(u);
    lemma_dedup_contains(pair_keys(u), k);
    lemma_pair_keys_append(group(x), y);
    lemma_contains_append(pair_keys(group(x)), pair_keys(y), k);
    lemma_group_keys(x);
    lemma_dedup_contains(pair_keys(x), k);
}

proof fn lemma_merge_side_sigs<K>(x: Seq<(K, Seq<SigV>)>, y: Seq<(K, Seq<SigV>)>, k: K, s: SigV)
    ensures
        sigs_for(group(group(x) + y), k).contains(s) == (relevant(s) && (sigs_for(x, k).contains(
            s,
        ) || sigs_for(y, k).contains(s))),
{
    let g = group(x);
    let u = g + y;
    lemma_sigs_for_group(u, k);
    lemma_pair_keys_append(g, y);
    lemma_contains_append(pair_keys(g), pair_keys(y), k);
    lemma_group_keys(x);
    lemma_dedup_contains(pair_keys(x), k);
    lemma_sigs_for_append(g, y, k);
    lemma_sigs_for_group(x, k);
    if pair_keys(u).contains(k) {
        lemma_cs_contains(sigs_for(u, k), s);
        lemma_contains_append(sigs_for(g, k), sigs_for(y, k), s);
        if pair_keys(x).contains(k) {
            lemma_cs_contains(sigs_for(x, k), s);
        } else {
            lemma_sigs_for_absent(x, k);
        }
    } else {
        lemma_sigs_for_absent(x, k);
        lemma_sigs_for_absent(y, k);
    }
}

/// Merging is order-independent in the resulting packet sets: feeding
/// two certificates to an empty record in either order yields records
/// with the same packets.
pub proof fn lemma_merge_order_independent(a: CertV, b: CertV)
    requires
        a.primary == b.primary,
    ensures
        cert_same_content(merge_spec(clean(a), b), merge_spec(clean(b), a)),
{
    let m1 = merge_spec(clean(a), b);
    let m2 = merge_spec(clean(b), a);
    assert forall|s: SigV| #[trigger] m1.primary_sigs.contains(s) == m2.primary_sigs.contains(
        s,
    ) by {
        lemma_cs_contains(cs(a.primary_sigs) + b.primary_sigs, s);
        lemma_contains_append(cs(a.primary_sigs), b.primary_sigs, s);
        lemma_cs_contains(a.primary_sigs, s);
        lemma_cs_contains(cs(b.primary_sigs) + a.primary_sigs, s);
        lemma_contains_append(cs(b.primary_sigs), a.primary_sigs, s);
        lemma_cs_contains(b.primary_sigs, s);
    }
    assert forall|k: KeyV| #[trigger] pair_keys(m1.subkeys).contains(k) == pair_keys(
        m2.subkeys,
    ).contains(k) by {
        lemma_merge_side_keys(a.subkeys, b.subkeys, k);
        lemma_merge_side_keys(b.subkeys, a.subkeys, k);
    }
    assert forall|k: KeyV, s: SigV| #[trigger] sigs_for(m1.subkeys, k).contains(s) == sigs_for(
        m2.subkeys,
        k,
    ).contains(s) by {
        lemma_merge_side_sigs(a.subkeys, b.subkeys, k, s);
        lemma_merge_side_sigs(b.subkeys, a.subkeys, k, s);
    }
    assert forall|u: UidV| #[trigger] pair_keys(m1.uids).contains(u) == pair_keys(
        m2.uids,
    ).contains(u) by {
        lemma_merge_side_keys(a.uids, b.uids, u);
        lemma_merge_side_keys(b.uids, a.uids, u);
    }
    assert forall|u: UidV, s: SigV| #[trigger] sigs_for(m1.uids, u).contains(s) == sigs_for(
        m2.uids,
        u,
    ).contains(s) by {
        lemma_merge_side_sigs(a.uids, b.uids, u, s);
        lemma_merge_side_sigs(b.uids, a.uids, u, s);
    }
}

// ---------------------------------------------------------------------
// Monotonic revocation
// ---------------------------------------------------------------------
/// The identity carries a self-revocation packet.
pub open spec fn uid_has_self_revocation(c: CertV, u: UidV) -> bool {
    exists|s: SigV| #[trigger] sigs_for(c.uids, u).contains(s) && s.kind is SelfRevocation
}

/// A revocation conclusively revokes: the status test and the packet
/// test agree.
pub proof fn lemma_status_revoked_iff(sigs: Seq<SigV>)
    ensures
        (status_of(sigs) is Revoked) == exists|s: SigV|
            #[trigger] sigs.contains(s) && s.kind is SelfRevocation,
{
    if status_of(sigs) is Revoked {
        let i = choose|i: int| 0 <= i < sigs.len() && sigs[i].kind is SelfRevocation;
        assert(sigs.contains(sigs[i]) && sigs[i].kind is SelfRevocation);
    }
    if exists|s: SigV| #[trigger] sigs.contains(s) && s.kind is SelfRevocation {
        let s = choose|s: SigV| #[trigger] sigs.contains(s) && s.kind is SelfRevocation;
        let i = choose|i: int| 0 <= i < sigs.len() && sigs[i] == s;
        assert(0 <= i < sigs.len() && sigs[i].kind is SelfRevocation);
    }
}

/// Normalizing never drops a revocation.
pub proof fn lemma_clean_keeps_revocation(c: CertV, u: UidV)
    ensures
        uid_has_self_revocation(c, u) ==> uid_has_self_revocation(clean(c), u),
{
    if uid_has_self_revocation(c, u) {
        let s = choose|s: SigV| #[trigger] sigs_for(c.uids, u).contains(s) && s.kind
            is SelfRevocation;
        lemma_sigs_for_group(c.uids, u);
        if !pair_keys(c.uids).contains(u) {
            lemma_sigs_for_absent(c.uids, u);
            assert(false);
        }
        lemma_cs_contains(sigs_for(c.uids, u), s);
        assert(sigs_for(clean(c).uids, u).contains(s));
    }
}

/// Once an identity's revocation has been merged into a record, no
/// further merge removes its revoked status.
pub proof fn lemma_merge_keeps_revocation(a: CertV, b: CertV, u: UidV)
    ensures
        uid_has_self_revocation(a, u) ==> uid_has_self_revocation(merge_spec(a, b), u),
{
    if uid_has_self_revocation(a, u) {
        let s = choose|s: SigV| #[trigger] sigs_for(a.uids, u).contains(s) && s.kind
            is SelfRevocation;
        lemma_sigs_for_group(a.uids + b.uids, u);
        lemma_pair_keys_append(a.uids, b.uids);
        lemma_contains_append(pair_keys(a.uids), pair_keys(b.uids), u);
        if !pair_keys(a.uids).contains(u) {
            lemma_sigs_for_absent(a.uids, u);
            assert(false);
        }
        lemma_sigs_for_append(a.uids, b.uids, u);
        lemma_cs_contains(sigs_for(a.uids + b.uids, u), s);
        lemma_contains_append(sigs_for(a.uids, u), sigs_for(b.uids, u), s);
        assert(sigs_for(merge_spec(a, b).uids, u).contains(s));
    }
}

// ---------------------------------------------------------------------
// Bounds are preserved
// ---------------------------------------------------------------------
proof fn lemma_sigs_for_wf<K>(s: Seq<(K, Seq<SigV>)>, k: K)
    requires
        forall|i: int| 0 <= i < s.len() ==> wf_sigs((#[trigger] s[i]).1),
    ensures
        wf_sigs(sigs_for(s, k)),
    decreases s.len(),
{
    if s.len() > 0 {
        assert forall|i: int| 0 <= i < s.drop_last().len() implies wf_sigs(
            (#[trigger] s.drop_last()[i]).1,
        ) by {
            assert(s.drop_last()[i] == s[i]);
        }
        lemma_sigs_for_wf(s.drop_last(), k);
        assert(wf_sigs(s[s.len() - 1].1));
        let tail = if s.last().0 == k { s.last().1 } else { Seq::<SigV>::empty() };
        assert forall|i: int| 0 <= i < sigs_for(s, k).len() implies wf_sig(
            #[trigger] sigs_for(s, k)[i],
        ) by {
            if i < sigs_for(s.drop_last(), k).len() {
                assert(sigs_for(s, k)[i] == sigs_for(s.drop_last(), k)[i]);
            } else {
                assert(sigs_for(s, k)[i] == tail[i - sigs_for(s.drop_last(), k).len()]);
            }
        }
    }
}

proof fn lemma_group_wf_keys<K>(s: Seq<(K, Seq<SigV>)>, i: int)
    requires
        0 <= i < group(s).len(),
    ensures
        exists|j: int| 0 <= j < s.len() && #[trigger] s[j].0 == group(s)[i].0,
{
    lemma_dedup_elements(pair_keys(s));
    assert(pair_keys(s).contains(dedup(pair_keys(s))[i]));
    let j = choose|j: int| 0 <= j < pair_keys(s).len() && pair_keys(s)[j] == dedup(pair_keys(s))[i];
    assert(s[j].0 == group(s)[i].0);
}

/// A normalized certificate stays within serialization bounds.
pub proof fn lemma_clean_wf(c: CertV)
    requires
        wf_cert(c),
    ensures
        wf_cert(clean(c)),
{
    lemma_cs_wf(c.primary_sigs);
    assert forall|j: int| 0 <= j < c.subkeys.len() implies wf_sigs((#[trigger] c.subkeys[j]).1) by {
        assert(wf_bundle_k(c.subkeys[j]));
    }
    assert forall|j: int| 0 <= j < c.uids.len() implies wf_sigs((#[trigger] c.uids[j]).1) by {
        assert(wf_bundle_u(c.uids[j]));
    }
    assert forall|i: int| 0 <= i < clean(c).subkeys.len() implies wf_bundle_k(
        #[trigger] clean(c).subkeys[i],
    ) by {
        lemma_group_wf_keys(c.subkeys, i);
        let j = choose|j: int| 0 <= j < c.subkeys.len() && #[trigger] c.subkeys[j].0 == group(
            c.subkeys,
        )[i].0;
        assert(wf_bundle_k(c.subkeys[j]));
        let k = group(c.subkeys)[i].0;
        lemma_sigs_for_wf(c.subkeys, k);
        lemma_cs_wf(sigs_for(c.subkeys, k));
        assert(group(c.subkeys)[i].1 == cs(sigs_for(c.subkeys, k)));
    }
    assert forall|i: int| 0 <= i < clean(c).uids.len() implies wf_bundle_u(
        #[trigger] clean(c).uids[i],
    ) by {
        lemma_group_wf_keys(c.uids, i);
        let j = choose|j: int| 0 <= j < c.uids.len() && #[trigger] c.uids[j].0 == group(
            c.uids,
        )[i].0;
        assert(wf_bundle_u(c.uids[j]));
        let u = group(c.uids)[i].0;
        lemma_sigs_for_wf(c.uids, u);
        lemma_cs_wf(sigs_for(c.uids, u));
        assert(group(c.uids)[i].1 == cs(sigs_for(c.uids, u)));
    }
}

/// Merging certificates that are within bounds stays within bounds.
pub proof fn lemma_merge_wf(a: CertV, b: CertV)
    requires
        wf_cert(a),
        wf_cert(b),
    ensures
        wf_cert(merge_spec(a, b)),
{
    let u = cert_concat(a, b);
    assert(wf_cert(u)) by {
        assert forall|i: int| 0 <= i < u.primary_sigs.len() implies wf_sig(
            #[trigger] u.primary_sigs[i],
        ) by {
            if i < a.primary_sigs.len() {
                assert(u.primary_sigs[i] == a.primary_sigs[i]);
            } else {
                assert(u.primary_sigs[i] == b.primary_sigs[i - a.primary_sigs.len()]);
            }
        }
        assert forall|i: int| 0 <= i < u.subkeys.len() implies wf_bundle_k(
            #[trigger] u.subkeys[i],
        ) by {
            if i < a.subkeys.len() {
                assert(u.subkeys[i] == a.subkeys[i]);
                assert(wf_bundle_k(a.subkeys[i]));
            } else {
                assert(u.subkeys[i] == b.subkeys[i - a.subkeys.len()]);
                assert(wf_bundle_k(b.subkeys[i - a.subkeys.len()]));
            }
        }
        assert forall|i: int| 0 <= i < u.uids.len() implies wf_bundle_u(#[trigger] u.uids[i]) by {
            if i < a.uids.len() {
                assert(u.uids[i] == a.uids[i]);
                assert(wf_bundle_u(a.uids[i]));
            } else {
                assert(u.uids[i] == b.uids[i - a.uids.len()]);
                assert(wf_bundle_u(b.uids[i - a.uids.len()]));
            }
        }
    }
    lemma_clean_wf(u);
}


// ---------------------------------------------------------------------
// Executable normalization and merge
// ---------------------------------------------------------------------
fn sigs_contain(v: &Vec<SigPacket>, s: &SigPacket) -> (r: bool)
    ensures
        r == sig_views(v@).contains(s@),
{
    let mut i: usize = 0;
    while i < v.len()
        invariant
            i <= v@.len(),
            forall|j: int| 0 <= j < i ==> sig_views(v@)[j] != s@,
        decreases v@.len() - i,
    {
        if sig_eq(&v[i], s) {
            assert(sig_views(v@)[i as int] == s@);
            return true;
        }
        assert(sig_views(v@)[i as int] == v@[i as int]@);
        i = i + 1;
    }
    proof {
        if sig_views(v@).contains(s@) {
            let j = choose|j: int| 0 <= j < sig_views(v@).len() && sig_views(v@)[j] == s@;
            assert(false);
        }
    }
    false
}

/// Retains the relevant signatures of one component, dropping
/// duplicates, first occurrences winning.
fn clean_sigs(sigs: &Vec<SigPacket>) -> (r: Vec<SigPacket>)
    ensures
        sig_views(r@) == cs(sig_views(sigs@)),
{
    let ghost sv = sig_views(sigs@);
    let mut out: Vec<SigPacket> = Vec::new();
    let mut i: usize = 0;
    while i < sigs.len()
        invariant
            i <= sigs@.len(),
            sv == sig_views(sigs@),
            sig_views(out@) == cs(sv.take(i as int)),
        decreases sigs@.len() - i,
    {
        let s = &sigs[i];
        proof {
            assert(sv[i as int] == sigs@[i as int]@);
            lemma_cs_push(sv.take(i as int), sv[i as int]);
            assert(sv.take(i + 1) =~= sv.take(i as int).push(sv[i as int]));
        }
        let is_other = match s.kind {
            SigKind::Other => true,
            _ => false,
        };
        if !is_other && !sigs_contain(&out, s) {
            let ghost pre = sig_views(out@);
            out.push(copy_sig(s));
            proof {
                assert(sig_views(out@) =~= pre.push(s@));
            }
        }
        i = i + 1;
    }
    proof {
        assert(sv.take(sigs@.len() as int) =~= sv);
    }
    out
}

fn find_key(out: &Vec<SubkeyBundle>, k: &KeyPacket) -> (r: Option<usize>)
    ensures
        match r {
            Some(j) => j < out@.len() && sk_views(out@)[j as int].0 == k@,
            None => !pair_keys(sk_views(out@)).contains(k@),
        },
{
    let mut i: usize = 0;
    while i < out.len()
        invariant
            i <= out@.len(),
            forall|j: int| 0 <= j < i ==> sk_views(out@)[j].0 != k@,
        decreases out@.len() - i,
    {
        if key_eq(&out[i].key, k) {
            assert(sk_views(out@)[i as int] == out@[i as int]@);
            return Some(i);
        }
        assert(sk_views(out@)[i as int] == out@[i as int]@);
        i = i + 1;
    }
    proof {
        if pair_keys(sk_views(out@)).contains(k@) {
            let j = choose|j: int|
                0 <= j < pair_keys(sk_views(out@)).len() && pair_keys(sk_views(out@))[j] == k@;
            assert(pair_keys(sk_views(out@))[j] == sk_views(out@)[j].0);
            assert(false);
        }
    }
    None
}

fn find_uid(out: &Vec<UidBundle>, u: &UidPacket) -> (r: Option<usize>)
    ensures
        match r {
            Some(j) => j < out@.len() && uid_views(out@)[j as int].0 == u@,
            None => !pair_keys(uid_views(out@)).contains(u@),
        },
{
    let mut i: usize = 0;
    while i < out.len()
        invariant
            i <= out@.len(),
            forall|j: int| 0 <= j < i ==> uid_views(out@)[j].0 != u@,
        decreases out@.len() - i,
    {
        if uid_eq(&out[i].uid, u) {
            assert(uid_views(out@)[i as int] == out@[i as int]@);
            return Some(i);
        }
        assert(uid_views(out@)[i as int] == out@[i as int]@);
        i = i + 1;
    }
    proof {
        if pair_keys(uid_views(out@)).contains(u@) {
            let j = choose|j: int|
                0 <= j < pair_keys(uid_views(out@)).len() && pair_keys(uid_views(out@))[j] == u@;
            assert(pair_keys(uid_views(out@))[j] == uid_views(out@)[j].0);
            assert(false);
        }
    }
    None
}

/// Collects the retained union of every signature the bundles bind to
/// the given subkey.
fn collect_subkey_sigs(sks: &Vec<SubkeyBundle>, k: &KeyPacket) -> (r: Vec<SigPacket>)
    ensures
        sig_views(r@) == cs(sigs_for(sk_views(sks@), k@)),
{
    let ghost sv = sk_views(sks@);
    let mut out: Vec<SigPacket> = Vec::new();
    let mut j: usize = 0;
    while j < sks.len()
        invariant
            j <= sks@.len(),
            sv == sk_views(sks@),
            sig_views(out@) == cs(sigs_for(sv.take(j as int), k@)),
        decreases sks@.len() - j,
    {
        let ghost w = sigs_for(sv.take(j as int), k@);
        proof {
            assert(sv[j as int] == sks@[j as int]@);
            assert(sv.take(j + 1).drop_last() =~= sv.take(j as int));
            assert(sv.take(j + 1).last() == sv[j as int]);
        }
        if key_eq(&sks[j].key, k) {
            let bsigs = &sks[j].sigs;
            let ghost bv = sig_views(bsigs@);
            assert(sv[j as int].1 == bv);
            let mut x: usize = 0;
            while x < bsigs.len()
                invariant
                    x <= bsigs@.len(),
                    bv == sig_views(bsigs@),
                    sig_views(out@) == cs(w + bv.take(x as int)),
                decreases bsigs@.len() - x,
            {
                let s = &bsigs[x];
                proof {
                    assert(bv[x as int] == bsigs@[x as int]@);
                    lemma_cs_push(w + bv.take(x as int), bv[x as int]);
                    assert(w + bv.take(x + 1) =~= (w + bv.take(x as int)).push(bv[x as int]));
                }
                let is_other = match s.kind {
                    SigKind::Other => true,
                    _ => false,
                };
                if !is_other && !sigs_contain(&out, s) {
                    let ghost pre = sig_views(out@);
                    out.push(copy_sig(s));
                    proof {
                        assert(sig_views(out@) =~= pre.push(s@));
                    }
                }
                x = x + 1;
            }
            proof {
                assert(bv.take(bsigs@.len() as int) =~= bv);
                assert(sigs_for(sv.take(j + 1), k@) == w + bv);
            }
        } else {
            proof {
                assert(sigs_for(sv.take(j + 1), k@) == w + Seq::<SigV>::empty());
                assert(w + Seq::<SigV>::empty() =~= w);
            }
        }
        j = j + 1;
    }
    proof {
        assert(sv.take(sks@.len() as int) =~= sv);
    }
    out
}

fn collect_uid_sigs(us: &Vec<UidBundle>, u: &UidPacket) -> (r: Vec<SigPacket>)
    ensures
        sig_views(r@) == cs(sigs_for(uid_views(us@), u@)),
{
    let ghost sv = uid_views(us@);
    let mut out: Vec<SigPacket> = Vec::new();
    let mut j: usize = 0;
    while j < us.len()
        invariant
            j <= us@.len(),
            sv == uid_views(us@),
            sig_views(out@) == cs(sigs_for(sv.take(j as int), u@)),
        decreases us@.len() - j,
    {
        let ghost w = sigs_for(sv.take(j as int), u@);
        proof {
            assert(sv[j as int] == us@[j as int]@);
            assert(sv.take(j + 1).drop_last() =~= sv.take(j as int));
            assert(sv.take(j + 1).last() == sv[j as int]);
        }
        if uid_eq(&us[j].uid, u) {
            let bsigs = &us[j].sigs;
            let ghost bv = sig_views(bsigs@);
            assert(sv[j as int].1 == bv);
            let mut x: usize = 0;
            while x < bsigs.len()
                invariant
                    x <= bsigs@.len(),
                    bv == sig_views(bsigs@),
                    sig_views(out@) == cs(w + bv.take(x as int)),
                decreases bsigs@.len() - x,
            {
                let s = &bsigs[x];
                proof {
                    assert(bv[x as int] == bsigs@[x as int]@);
                    lemma_cs_push(w + bv.take(x as int), bv[x as int]);
                    assert(w + bv.take(x + 1) =~= (w + bv.take(x as int)).push(bv[x as int]));
                }
                let is_other = match s.kind {
                    SigKind::Other => true,
                    _ => false,
                };
                if !is_other && !sigs_contain(&out, s) {
                    let ghost pre = sig_views(out@);
                    out.push(copy_sig(s));
                    proof {
                        assert(sig_views(out@) =~= pre.push(s@));
                    }
                }
                x = x + 1;
            }
            proof {
                assert(bv.take(bsigs@.len() as int) =~= bv);
                assert(sigs_for(sv.take(j + 1), u@) == w + bv);
            }
        } else {
            proof {
                assert(sigs_for(sv.take(j + 1), u@) == w + Seq::<SigV>::empty());
                assert(w + Seq::<SigV>::empty() =~= w);
            }
        }
        j = j + 1;
    }
    proof {
        assert(sv.take(us@.len() as int) =~= sv);
    }
    out
}

fn clean_subkeys(sks: &Vec<SubkeyBundle>) -> (r: Vec<SubkeyBundle>)
    ensures
        sk_views(r@) == group(sk_views(sks@)),
{
    let ghost sv = sk_views(sks@);
    let mut out: Vec<SubkeyBundle> = Vec::new();
    let mut i: usize = 0;
    while i < sks.len()
        invariant
            i <= sks@.len(),
            sv == sk_views(sks@),
            sk_views(out@) == dedup(pair_keys(sv.take(i as int))).map_values(
                |k: KeyV| (k, cs(sigs_for(sv, k))),
            ),
        decreases sks@.len() - i,
    {
        let ghost pk = pair_keys(sv.take(i as int));
        proof {
            assert(sv[i as int] == sks@[i as int]@);
            assert(pair_keys(sv.take(i + 1)) =~= pk.push(sv[i as int].0));
            assert(pk.push(sv[i as int].0).drop_last() =~= pk);
            assert(pair_keys(sk_views(out@)) =~= dedup(pk));
        }
        match find_key(&out, &sks[i].key) {
            Some(_) => {
                proof {
                    assert(dedup(pk).contains(sv[i as int].0));
                    lemma_dedup_contains(pk, sv[i as int].0);
                    assert(dedup(pair_keys(sv.take(i + 1))) == dedup(pk));
                }
            },
            None => {
                let ghost pre = sk_views(out@);
                let b = SubkeyBundle {
                    key: copy_key(&sks[i].key),
                    sigs: collect_subkey_sigs(sks, &sks[i].key),
                };
                assert(b@.0 == sv[i as int].0 && b@.1 == cs(sigs_for(sv, sv[i as int].0)));
                out.push(b);
                proof {
                    assert(!dedup(pk).contains(sv[i as int].0));
                    assert(dedup(pair_keys(sv.take(i + 1))) == dedup(pk).push(sv[i as int].0));
                    assert(sk_views(out@) =~= pre.push(b@));
                    assert(sk_views(out@) =~= dedup(pair_keys(sv.take(i + 1))).map_values(
                        |k: KeyV| (k, cs(sigs_for(sv, k))),
                    ));
                }
            },
        }
        proof {
            assert(sk_views(out@) =~= dedup(pair_keys(sv.take(i + 1))).map_values(
                |k: KeyV| (k, cs(sigs_for(sv, k))),
            ));
        }
        i = i + 1;
    }
    proof {
        assert(sv.take(sks@.len() as int) =~= sv);
    }
    out
}

fn clean_uids(us: &Vec<UidBundle>) -> (r: Vec<UidBundle>)
    ensures
        uid_views(r@) == group(uid_views(us@)),
{
    let ghost sv = uid_views(us@);
    let mut out: Vec<UidBundle> = Vec::new();
    let mut i: usize = 0;
    while i < us.len()
        invariant
            i <= us@.len(),
            sv == uid_views(us@),
            uid_views(out@) == dedup(pair_keys(sv.take(i as int))).map_values(
                |u: UidV| (u, cs(sigs_for(sv, u))),
            ),
        decreases us@.len() - i,
    {
        let ghost pk = pair_keys(sv.take(i as int));
        proof {
            assert(sv[i as int] == us@[i as int]@);
            assert(pair_keys(sv.take(i + 1)) =~= pk.push(sv[i as int].0));
            assert(pk.push(sv[i as int].0).drop_last() =~= pk);
            assert(pair_keys(uid_views(out@)) =~= dedup(pk));
        }
        match find_uid(&out, &us[i].uid) {
            Some(_) => {
                proof {
                    assert(dedup(pk).contains(sv[i as int].0));
                    lemma_dedup_contains(pk, sv[i as int].0);
                    assert(dedup(pair_keys(sv.take(i + 1))) == dedup(pk));
                }
            },
            None => {
                let ghost pre = uid_views(out@);
                let b = UidBundle {
                    uid: copy_uid(&us[i].uid),
                    sigs: collect_uid_sigs(us, &us[i].uid),
                };
                assert(b@.0 == sv[i as int].0 && b@.1 == cs(sigs_for(sv, sv[i as int].0)));
                out.push(b);
                proof {
                    assert(!dedup(pk).contains(sv[i as int].0));
                    assert(dedup(pair_keys(sv.take(i + 1))) == dedup(pk).push(sv[i as int].0));
                    assert(uid_views(out@) =~= pre.push(b@));
                    assert(uid_views(out@) =~= dedup(pair_keys(sv.take(i + 1))).map_values(
                        |u: UidV| (u, cs(sigs_for(sv, u))),
                    ));
                }
            },
        }
        proof {
            assert(uid_views(out@) =~= dedup(pair_keys(sv.take(i + 1))).map_values(
                |u: UidV| (u, cs(sigs_for(sv, u))),
            ));
        }
        i = i + 1;
    }
    proof {
        assert(sv.take(us@.len() as int) =~= sv);
    }
    out
}

/// Normalizes a parsed certificate: for every component only its bound
/// signatures and revocations remain, without duplicates, components in
/// encounter order. Re-normalizing a normalized certificate is a no-op.
pub fn tpk_clean(tpk: &Certificate) -> (r: Certificate)
    ensures
        r@ == clean(tpk@),
{
    let r = Certificate {
        primary: copy_key(&tpk.primary),
        primary_sigs: clean_sigs(&tpk.primary_sigs),
        subkeys: clean_subkeys(&tpk.subkeys),
        uids: clean_uids(&tpk.uids),
    };
    proof {
        assert(r@ =~= clean(tpk@));
    }
    r
}

fn append_sigs(out: &mut Vec<SigPacket>, src: &Vec<SigPacket>)
    ensures
        sig_views(final(out)@) == sig_views(old(out)@) + sig_views(src@),
{
    let mut i: usize = 0;
    while i < src.len()
        invariant
            i <= src@.len(),
            sig_views(out@) == sig_views(old(out)@) + sig_views(src@).take(i as int),
        decreases src@.len() - i,
    {
        let ghost pre = sig_views(out@);
        out.push(copy_sig(&src[i]));
        proof {
            assert(sig_views(out@) =~= pre.push(src@[i as int]@));
            assert(sig_views(src@)[i as int] == src@[i as int]@);
            assert(sig_views(old(out)@) + sig_views(src@).take(i + 1) =~= pre.push(
                src@[i as int]@,
            ));
        }
        i = i + 1;
    }
    proof {
        assert(sig_views(src@).take(src@.len() as int) =~= sig_views(src@));
    }
}

fn append_subkeys(out: &mut Vec<SubkeyBundle>, src: &Vec<SubkeyBundle>)
    ensures
        sk_views(final(out)@) == sk_views(old(out)@) + sk_views(src@),
{
    let mut i: usize = 0;
    while i < src.len()
        invariant
            i <= src@.len(),
            sk_views(out@) == sk_views(old(out)@) + sk_views(src@).take(i as int),
        decreases src@.len() - i,
    {
        let ghost pre = sk_views(out@);
        let b = SubkeyBundle { key: copy_key(&src[i].key), sigs: copy_sigs(&src[i].sigs) };
        proof {
            assert(b@ == src@[i as int]@) by {
                assert(b@.1 =~= src@[i as int]@.1);
            }
        }
        out.push(b);
        proof {
            assert(sk_views(out@) =~= pre.push(src@[i as int]@));
            assert(sk_views(src@)[i as int] == src@[i as int]@);
            assert(sk_views(old(out)@) + sk_views(src@).take(i + 1) =~= pre.push(src@[i as int]@));
        }
        i = i + 1;
    }
    proof {
        assert(sk_views(src@).take(src@.len() as int) =~= sk_views(src@));
    }
}

fn append_uids(out: &mut Vec<UidBundle>, src: &Vec<UidBundle>)
    ensures
        uid_views(final(out)@) == uid_views(old(out)@) + uid_views(src@),
{
    let mut i: usize = 0;
    while i < src.len()
        invariant
            i <= src@.len(),
            uid_views(out@) == uid_views(old(out)@) + uid_views(src@).take(i as int),
        decreases src@.len() - i,
    {
        let ghost pre = uid_views(out@);
        let b = UidBundle { uid: copy_uid(&src[i].uid), sigs: copy_sigs(&src[i].sigs) };
        proof {
            assert(b@ == src@[i as int]@) by {
                assert(b@.1 =~= src@[i as int]@.1);
            }
        }
        out.push(b);
        proof {
            assert(uid_views(out@) =~= pre.push(src@[i as int]@));
            assert(uid_views(src@)[i as int] == src@[i as int]@);
            assert(uid_views(old(out)@) + uid_views(src@).take(i + 1) =~= pre.push(
                src@[i as int]@,
            ));
        }
        i = i + 1;
    }
    proof {
        assert(uid_views(src@).take(src@.len() as int) =~= uid_views(src@));
    }
}

/// Merges a newly uploaded certificate into the stored one, if any: the
/// union of both packet sets, normalized. With no stored certificate
/// this is plain normalization.
pub fn merge(existing: Option<&Certificate>, incoming: &Certificate) -> (r: Certificate)
    ensures
        match existing {
            Some(e) => r@ == merge_spec(e@, incoming@),
            None => r@ == clean(incoming@),
        },
{
    match existing {
        None => tpk_clean(incoming),
        Some(e) => {
            let mut psigs = copy_sigs(&e.primary_sigs);
            append_sigs(&mut psigs, &incoming.primary_sigs);
            let mut sks: Vec<SubkeyBundle> = Vec::new();
            append_subkeys(&mut sks, &e.subkeys);
            append_subkeys(&mut sks, &incoming.subkeys);
            let mut us: Vec<UidBundle> = Vec::new();
            append_uids(&mut us, &e.uids);
            append_uids(&mut us, &incoming.uids);
            let combined = Certificate {
                primary: copy_key(&e.primary),
                primary_sigs: psigs,
                subkeys: sks,
                uids: us,
            };
            proof {
                assert(sk_views(Seq::<SubkeyBundle>::empty()) =~= Seq::<
                    (KeyV, Seq<SigV>),
                >::empty());
                assert(uid_views(Seq::<UidBundle>::empty()) =~= Seq::<(UidV, Seq<SigV>)>::empty());
                assert(combined@ =~= cert_concat(e@, incoming@)) by {
                    assert(combined@.primary_sigs =~= e@.primary_sigs + incoming@.primary_sigs);
                    assert(combined@.subkeys =~= e@.subkeys + incoming@.subkeys);
                    assert(combined@.uids =~= e@.uids + incoming@.uids);
                }
            }
            tpk_clean(&combined)
        },
    }
}

} // verus!
