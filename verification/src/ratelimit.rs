//! The rate limiter: a fixed window per client identity. Attempts
//! within a window are counted up to the limit; denied attempts consume
//! nothing; an elapsed window resets the counter.

use vstd::prelude::*;
use crate::util::bytes_eq;

verus! {

/// One client's window: its key, the window's start, and the attempts
/// consumed in it.
pub struct Bucket {
    pub key: Vec<u8>,
    pub start: u64,
    pub count: u64,
}

impl View for Bucket {
    type V = (Seq<u8>, u64, u64);

    open spec fn view(&self) -> (Seq<u8>, u64, u64) {
        (self.key@, self.start, self.count)
    }
}

pub open spec fn bucket_views(v: Seq<Bucket>) -> Seq<(Seq<u8>, u64, u64)> {
    v.map_values(|b: Bucket| b@)
}

pub struct RateLimiter {
    pub limit: u64,
    pub window: u64,
    pub buckets: Vec<Bucket>,
}

#[verifier::ext_equal]
pub struct RateLimiterV {
    pub limit: u64,
    pub window: u64,
    pub buckets: Seq<(Seq<u8>, u64, u64)>,
}

impl View for RateLimiter {
    type V = RateLimiterV;

    open spec fn view(&self) -> RateLimiterV {
        RateLimiterV { limit: self.limit, window: self.window, buckets: bucket_views(self.buckets@) }
    }
}

/// Index of the client's bucket, or -1.
pub open spec fn bucket_index(bs: Seq<(Seq<u8>, u64, u64)>, key: Seq<u8>) -> int
    decreases bs.len(),
{
    if bs.len() == 0 {
        -1
    } else if bs[0].0 == key {
        0
    } else {
        let r = bucket_index(bs.drop_first(), key);
        if r < 0 {
            -1
        } else {
            r + 1
        }
    }
}

pub proof fn lemma_bucket_index(bs: Seq<(Seq<u8>, u64, u64)>, key: Seq<u8>)
    ensures
        bucket_index(bs, key) == -1 ==> forall|i: int| 0 <= i < bs.len() ==> (#[trigger] bs[i]).0
            != key,
        bucket_index(bs, key) >= 0 ==> bucket_index(bs, key) < bs.len() && bs[bucket_index(
            bs,
            key,
        )].0 == key,
    decreases bs.len(),
{
    if bs.len() > 0 && bs[0].0 != key {
        lemma_bucket_index(bs.drop_first(), key);
        assert(forall|i: int| 1 <= i < bs.len() ==> bs[i] == bs.drop_first()[i - 1]);
    }
}

/// Whether an attempt is admitted: a fresh or elapsed window admits one
/// whenever the limit is positive; within a window the count must still
/// be under the limit.
pub open spec fn rl_allowed(v: RateLimiterV, key: Seq<u8>, now: u64) -> bool {
    let i = bucket_index(v.buckets, key);
    if i < 0 {
        v.limit >= 1
    } else if now >= v.buckets[i].1 + v.window {
        v.limit >= 1
    } else {
        v.buckets[i].2 < v.limit
    }
}

/// The state after one attempt: an admitted attempt in a fresh or
/// elapsed window opens the window with one consumed; an admitted
/// attempt within the window consumes one more; a denied attempt
/// changes nothing.
pub open spec fn rl_step(v: RateLimiterV, key: Seq<u8>, now: u64) -> RateLimiterV {
    let i = bucket_index(v.buckets, key);
    if !rl_allowed(v, key, now) {
        v
    } else if i < 0 {
        RateLimiterV { buckets: v.buckets.push((key, now, 1)), ..v }
    } else if now >= v.buckets[i].1 + v.window {
        RateLimiterV { buckets: v.buckets.update(i, (key, now, 1)), ..v }
    } else {
        RateLimiterV {
            buckets: v.buckets.update(i, (key, v.buckets[i].1, (v.buckets[i].2 + 1) as u64)),
            ..v
        }
    }
}

impl RateLimiter {
    /// A limiter admitting `limit` attempts per window of `window`
    /// seconds, per client.
    pub fn new(limit: u64, window: u64) -> (r: RateLimiter)
        ensures
            r@.limit == limit,
            r@.window == window,
            r@.buckets.len() == 0,
    {
        let r = RateLimiter { limit, window, buckets: Vec::new() };
        proof {
            assert(r@.buckets =~= Seq::<(Seq<u8>, u64, u64)>::empty());
        }
        r
    }

    fn find_bucket(&self, key: &[u8]) -> (r: Option<usize>)
        ensures
            match r {
                Some(i) => 0 <= i < self@.buckets.len() && bucket_index(self@.buckets, key@)
                    == i as int,
                None => bucket_index(self@.buckets, key@) == -1,
            },
    {
        let mut i: usize = 0;
        while i < self.buckets.len()
            invariant
                i <= self.buckets@.len(),
                forall|j: int| 0 <= j < i ==> (#[trigger] self@.buckets[j]).0 != key@,
            decreases self.buckets@.len() - i,
        {
            proof {
                assert(self@.buckets[i as int] == self.buckets@[i as int]@);
            }
            if bytes_eq(self.buckets[i].key.as_slice(), key) {
                proof {
                    lemma_bucket_index(self@.buckets, key@);
                    let f = bucket_index(self@.buckets, key@);
                    if f == -1 {
                        assert(false);
                    }
                    if f < i {
                        assert(self@.buckets[f].0 == key@);
                        assert(false);
                    }
                    if f > i {
                        lemma_bucket_index_first(self@.buckets, key@, i as int);
                    }
                }
                return Some(i);
            }
            i = i + 1;
        }
        proof {
            lemma_bucket_index(self@.buckets, key@);
            if bucket_index(self@.buckets, key@) >= 0 {
                assert(false);
            }
        }
        None
    }

    /// Admits or denies one attempt by the client, consuming quota only
    /// when admitted.
    pub fn check_and_consume(&mut self, key: &[u8], now: u64) -> (r: bool)
        ensures
            r == rl_allowed(old(self)@, key@, now),
            final(self)@ == rl_step(old(self)@, key@, now),
    {
        let found = self.find_bucket(key);
        match found {
            None => {
                if self.limit >= 1 {
                    let mut kv: Vec<u8> = Vec::new();
                    let mut i: usize = 0;
                    while i < key.len()
                        invariant
                            i <= key@.len(),
                            kv@ == key@.take(i as int),
                        decreases key@.len() - i,
                    {
                        kv.push(key[i]);
                        proof {
                            assert(key@.take(i + 1) =~= key@.take(i as int).push(key@[i as int]));
                        }
                        i = i + 1;
                    }
                    proof {
                        assert(kv@ =~= key@);
                    }
                    let ghost pre = self@.buckets;
                    self.buckets.push(Bucket { key: kv, start: now, count: 1 });
                    proof {
                        assert(self@.buckets =~= pre.push((key@, now, 1u64)));
                        assert(self@ =~= rl_step(old(self)@, key@, now));
                    }
                    true
                } else {
                    proof {
                        assert(self@ =~= rl_step(old(self)@, key@, now));
                    }
                    false
                }
            },
            Some(i) => {
                proof {
                    assert(self@.buckets[i as int] == self.buckets@[i as int]@);
                }
                let fresh = now >= self.buckets[i].start && now - self.buckets[i].start
                    >= self.window;
                proof {
                    assert(fresh == (now >= old(self)@.buckets[i as int].1 + old(
                        self,
                    )@.window));
                }
                if fresh {
                    if self.limit >= 1 {
                        let mut b = self.buckets.remove(i);
                        b.start = now;
                        b.count = 1;
                        let ghost pre = old(self)@.buckets;
                        let ghost ob = old(self).buckets@;
                        self.buckets.insert(i, b);
                        proof {
                            lemma_bucket_index(pre, key@);
                            assert(pre[i as int].0 == key@);
                            assert(b@ == (key@, now, 1u64));
                            let ns = self.buckets@;
                            assert forall|j: int| 0 <= j < ns.len() implies ns[j]@ == pre.update(
                                i as int,
                                (key@, now, 1u64),
                            )[j] by {
                                if j < i {
                                    assert(ns[j] == ob[j]);
                                } else if j == i {
                                } else {
                                    assert(ns[j] == ob[j]);
                                }
                            }
                            assert(self@.buckets =~= pre.update(i as int, (key@, now, 1u64)));
                            assert(self@ =~= rl_step(old(self)@, key@, now));
                        }
                        true
                    } else {
                        proof {
                            assert(self@ =~= rl_step(old(self)@, key@, now));
                        }
                        false
                    }
                } else {
                    if self.buckets[i].count < self.limit {
                        let mut b = self.buckets.remove(i);
                        b.count = b.count + 1;
                        let ghost pre = old(self)@.buckets;
                        let ghost ob = old(self).buckets@;
                        self.buckets.insert(i, b);
                        proof {
                            lemma_bucket_index(pre, key@);
                            assert(pre[i as int].0 == key@);
                            assert(b@ == (key@, pre[i as int].1, (pre[i as int].2 + 1) as u64));
                            let ns = self.buckets@;
                            assert forall|j: int| 0 <= j < ns.len() implies ns[j]@ == pre.update(
                                i as int,
                                (key@, pre[i as int].1, (pre[i as int].2 + 1) as u64),
                            )[j] by {
                                if j < i {
                                    assert(ns[j] == ob[j]);
                                } else if j == i {
                                } else {
                                    assert(ns[j] == ob[j]);
                                }
                            }
                            assert(self@.buckets =~= pre.update(
                                i as int,
                                (key@, pre[i as int].1, (pre[i as int].2 + 1) as u64),
                            ));
                            assert(self@ =~= rl_step(old(self)@, key@, now));
                        }
                        true
                    } else {
                        proof {
                            assert(self@ =~= rl_step(old(self)@, key@, now));
                        }
                        false
                    }
                }
            },
        }
    }
}

proof fn lemma_bucket_index_first(bs: Seq<(Seq<u8>, u64, u64)>, key: Seq<u8>, i: int)
    requires
        0 <= i < bs.len(),
        bs[i].0 == key,
        forall|j: int| 0 <= j < i ==> (#[trigger] bs[j]).0 != key,
    ensures
        bucket_index(bs, key) == i,
    decreases bs.len(),
{
    if i > 0 {
        assert(bs[0].0 != key);
        let q = bs.drop_first();
        assert(q[i - 1] == bs[i]);
        assert forall|j: int| 0 <= j < i - 1 implies (#[trigger] q[j]).0 != key by {
            assert(q[j] == bs[j + 1]);
        }
        lemma_bucket_index_first(q, key, i - 1);
    }
}

/// Repeated attempts by one client at one instant.
pub open spec fn rl_iter(v: RateLimiterV, key: Seq<u8>, now: u64, n: nat) -> RateLimiterV
    decreases n,
{
    if n == 0 {
        v
    } else {
        rl_step(rl_iter(v, key, now, (n - 1) as nat), key, now)
    }
}

proof fn lemma_rl_iter_state(v: RateLimiterV, key: Seq<u8>, now: u64, n: nat)
    requires
        bucket_index(v.buckets, key) == -1,
        1 <= n <= v.limit,
        v.window >= 1,
        now + v.window <= u64::MAX,
    ensures
        ({
            let w = rl_iter(v, key, now, n);
            &&& w.limit == v.limit
            &&& w.window == v.window
            &&& w.buckets.len() == v.buckets.len() + 1
            &&& bucket_index(w.buckets, key) == v.buckets.len()
            &&& w.buckets[v.buckets.len() as int] == (key, now, n as u64)
        }),
    decreases n,
{
    let len = v.buckets.len() as int;
    if n == 1 {
        assert(rl_iter(v, key, now, 0) == v);
        assert(rl_iter(v, key, now, 1) == rl_step(rl_iter(v, key, now, 0), key, now));
        assert(rl_iter(v, key, now, 1) == rl_step(v, key, now));
        assert(rl_allowed(v, key, now));
        let w = rl_step(v, key, now);
        assert(w.buckets == v.buckets.push((key, now, 1u64)));
        lemma_bucket_index(v.buckets, key);
        lemma_bucket_index_first(w.buckets, key, len);
    } else {
        lemma_rl_iter_state(v, key, now, (n - 1) as nat);
        let w = rl_iter(v, key, now, (n - 1) as nat);
        let i = bucket_index(w.buckets, key);
        assert(i == len && w.buckets[i] == (key, now, (n - 1) as u64));
        assert(now < w.buckets[i].1 + w.window);
        assert(w.buckets[i].2 < w.limit);
        assert(rl_allowed(w, key, now));
        let w2 = rl_step(w, key, now);
        assert(w2.buckets == w.buckets.update(i, (key, now, n as u64)));
        assert forall|j: int| 0 <= j < len implies (#[trigger] w2.buckets[j]).0 != key by {
            assert(w2.buckets[j] == w.buckets[j]);
            lemma_bucket_index_keys(w.buckets, key, j);
        }
        lemma_bucket_index_first(w2.buckets, key, len);
    }
}

proof fn lemma_bucket_index_keys(bs: Seq<(Seq<u8>, u64, u64)>, key: Seq<u8>, j: int)
    requires
        0 <= j < bucket_index(bs, key),
    ensures
        bs[j].0 != key,
    decreases bs.len(),
{
    lemma_bucket_index(bs, key);
    if bs.len() > 0 && bs[0].0 != key {
        if j > 0 {
            lemma_bucket_index_keys(bs.drop_first(), key, j - 1);
            lemma_bucket_index(bs.drop_first(), key);
            assert(bs.drop_first()[j - 1] == bs[j]);
        }
    }
}

/// The window law: starting from no standing bucket, each of the first
/// `limit` attempts in a window is admitted, the next one is denied,
/// and once the window has elapsed the next attempt is admitted again.
pub proof fn lemma_rate_limit_window(v: RateLimiterV, key: Seq<u8>, now: u64, later: u64)
    requires
        bucket_index(v.buckets, key) == -1,
        v.limit >= 1,
        v.window >= 1,
        now + v.window <= u64::MAX,
        later >= now + v.window,
    ensures
        forall|n: nat|
            n < v.limit ==> rl_allowed(#[trigger] rl_iter(v, key, now, n), key, now),
        !rl_allowed(rl_iter(v, key, now, v.limit as nat), key, now),
        rl_allowed(rl_iter(v, key, now, v.limit as nat), key, later),
{
    assert forall|n: nat| n < v.limit implies rl_allowed(
        #[trigger] rl_iter(v, key, now, n),
        key,
        now,
    ) by {
        if n == 0 {
            assert(rl_iter(v, key, now, 0) == v);
        } else {
            lemma_rl_iter_state(v, key, now, n);
            let w = rl_iter(v, key, now, n);
            let i = bucket_index(w.buckets, key);
            assert(w.buckets[i].2 == n as u64);
        }
    }
    lemma_rl_iter_state(v, key, now, v.limit as nat);
    let w = rl_iter(v, key, now, v.limit as nat);
    let i = bucket_index(w.buckets, key);
    assert(w.buckets[i].2 == v.limit);
    assert(now < w.buckets[i].1 + w.window);
    assert(later >= w.buckets[i].1 + w.window);
}

} // verus!
