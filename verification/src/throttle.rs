//! Counting login attempts per key, in fixed windows.
//!
//! **The key is what one tries to guess.** A success may only reset the
//! counter of the thing whose knowledge it proves: a single counter reset by
//! any successful login would let a pupil, logged into his own account, wipe
//! the quota that protects the teacher's password.
//!
//! The quota is reserved before the check: counting afterwards would let
//! through as many tries as simultaneous requests.
use crate::net::Address;
use std::time::{Duration, Instant};
use vstd::prelude::*;

verus! {

/// What a throttle counts by: compared and copied by its view.
pub trait ThrottleKey: View + Sized {
    fn same_key(&self, other: &Self) -> (r: bool)
        ensures
            r == (self@ == other@);

    fn copy_key(&self) -> (r: Self)
        ensures
            r@ == self@;
}

impl ThrottleKey for Address {
    fn same_key(&self, other: &Self) -> (r: bool) {
        match (self, other) {
            (Address::V4(a), Address::V4(b)) => *a == *b,
            (Address::V6(a), Address::V6(b)) => *a == *b,
            _ => false,
        }
    }

    fn copy_key(&self) -> (r: Self) {
        *self
    }
}

/// A pupil's token together with the address it is tried from.
impl ThrottleKey for (String, Address) {
    fn same_key(&self, other: &Self) -> (r: bool) {
        self.0 == other.0 && self.1.same_key(&other.1)
    }

    fn copy_key(&self) -> (r: Self) {
        (self.0.clone(), self.1)
    }
}

#[verifier::external_type_specification]
#[verifier::external_body]
pub struct ExInstant(Instant);

/// `Instant::now`: a reading of the monotonic clock. Nothing is promised of it.
#[verifier::external_body]
fn instant_now() -> (r: Instant) {
    Instant::now()
}

/// `Instant::saturating_duration_since`: the time from `earlier` to `later`,
/// zero when `later` comes first. Nothing is stated of it: an `Instant` is
/// opaque here.
#[verifier::external_body]
fn since(earlier: &Instant, later: &Instant) -> (r: Duration) {
    later.saturating_duration_since(*earlier)
}

/// The longest length a `Duration` can hold, in nanoseconds: `u64::MAX`
/// whole seconds (`Duration::as_secs` is a `u64`) and 999 999 999 more
/// (`Duration::subsec_nanos` is always under a billion).
pub const MAX_DURATION_NANOS: u128 = 18_446_744_073_709_551_615_999_999_999;

/// `Duration::as_nanos`: the whole length in nanoseconds, that is
/// `as_secs() * 1_000_000_000 + subsec_nanos()`.
///
/// Claimed: the result is at most `MAX_DURATION_NANOS`. Which length, the
/// `Duration` being opaque here, is left unsaid.
#[verifier::external_body]
fn duration_nanos(d: Duration) -> (r: u128)
    ensures
        r <= MAX_DURATION_NANOS,
{
    d.as_nanos()
}

/// Time from `start` to `now`, zero when `now` comes first
/// (`Instant::duration_since` saturates).
pub open spec fn elapsed(start: u128, now: u128) -> nat {
    if now >= start {
        (now - start) as nat
    } else {
        0
    }
}

/// The counters of a throttle: per key, the number of tries and the start of
/// its window, in nanoseconds since the throttle was made.
pub open spec fn model<K: View>(s: Seq<(K, u32, u128)>) -> Map<K::V, (u32, u128)>
    decreases s.len(),
{
    if s.len() == 0 {
        Map::empty()
    } else {
        model(s.drop_last()).insert(s.last().0@, (s.last().1, s.last().2))
    }
}

pub open spec fn keys_unique<K: View>(s: Seq<(K, u32, u128)>) -> bool {
    forall|i: int, j: int| 0 <= i < j < s.len() ==> s[i].0@ != s[j].0@
}

/// The counters whose window is still running at `now`.
pub open spec fn live<KV>(m: Map<KV, (u32, u128)>, now: u128, window: u128) -> Map<KV, (u32, u128)> {
    m.restrict(Set::new(|k: KV| m.contains_key(k) && elapsed(m[k].1, now) < window))
}

pub struct Throttle<K> {
    hits: Vec<(K, u32, u128)>,
    max: u32,
    window: u128,
    origin: Instant,
}

impl<K: ThrottleKey> Throttle<K> {
    pub closed spec fn view(&self) -> Map<K::V, (u32, u128)> {
        model(self.hits@)
    }

    pub closed spec fn wf(&self) -> bool {
        keys_unique(self.hits@)
    }

    /// Tries allowed per window.
    pub closed spec fn quota(&self) -> u32 {
        self.max
    }

    /// Length of a window, in nanoseconds.
    pub closed spec fn window(&self) -> u128 {
        self.window
    }
}

proof fn lemma_model_has<K: View>(s: Seq<(K, u32, u128)>, i: int)
    requires
        keys_unique(s),
        0 <= i < s.len(),
    ensures
        model(s).contains_key(s[i].0@),
        model(s)[s[i].0@] == (s[i].1, s[i].2),
    decreases s.len(),
{
    if i < s.len() - 1 {
        lemma_model_has(s.drop_last(), i);
    }
}

proof fn lemma_model_keys<K: View>(s: Seq<(K, u32, u128)>, k: K::V)
    ensures
        model(s).contains_key(k) <==> exists|i: int| 0 <= i < s.len() && #[trigger] s[i].0@ == k,
    decreases s.len(),
{
    if s.len() > 0 {
        lemma_model_keys(s.drop_last(), k);
        if model(s.drop_last()).contains_key(k) {
            let i = choose|i: int| 0 <= i < s.drop_last().len() && #[trigger] s.drop_last()[i].0@ == k;
            assert(s[i].0@ == k);
        }
        if exists|i: int| 0 <= i < s.len() && #[trigger] s[i].0@ == k {
            let i = choose|i: int| 0 <= i < s.len() && #[trigger] s[i].0@ == k;
            if i < s.len() - 1 {
                assert(s.drop_last()[i].0@ == k);
            }
        }
    }
}

proof fn lemma_model_update<K: View>(s: Seq<(K, u32, u128)>, i: int, e: (K, u32, u128))
    requires
        keys_unique(s),
        0 <= i < s.len(),
        e.0@ == s[i].0@,
    ensures
        keys_unique(s.update(i, e)),
        model(s.update(i, e)) == model(s).insert(e.0@, (e.1, e.2)),
    decreases s.len(),
{
    let t = s.update(i, e);
    assert forall|a: int, b: int| 0 <= a < b < t.len() implies t[a].0@ != t[b].0@ by {
        assert(s[a].0@ != s[b].0@);
    }
    if i == s.len() - 1 {
        assert(t.drop_last() == s.drop_last());
        assert(model(t) =~= model(s).insert(e.0@, (e.1, e.2)));
    } else {
        lemma_model_update(s.drop_last(), i, e);
        assert(t.drop_last() == s.drop_last().update(i, e));
        assert(s.last().0@ != e.0@);
        assert(model(t) =~= model(s).insert(e.0@, (e.1, e.2)));
    }
}

proof fn lemma_model_remove<K: View>(s: Seq<(K, u32, u128)>, i: int)
    requires
        keys_unique(s),
        0 <= i < s.len(),
    ensures
        keys_unique(s.remove(i)),
        model(s.remove(i)) == model(s).remove(s[i].0@),
    decreases s.len(),
{
    let t = s.remove(i);
    let k = s[i].0@;
    assert forall|a: int, b: int| 0 <= a < b < t.len() implies t[a].0@ != t[b].0@ by {
        let a2 = if a < i { a } else { a + 1 };
        let b2 = if b < i { b } else { b + 1 };
        assert(t[a] == s[a2]);
        assert(t[b] == s[b2]);
    }
    if i == s.len() - 1 {
        assert(t == s.drop_last());
        lemma_model_keys(s.drop_last(), k);
        assert forall|j: int| 0 <= j < s.drop_last().len() implies #[trigger] s.drop_last()[j].0@ != k by {
            assert(s[j].0@ != s[i].0@);
        }
        assert(model(t) =~= model(s).remove(k));
    } else {
        lemma_model_remove(s.drop_last(), i);
        assert(t.drop_last() == s.drop_last().remove(i));
        assert(s.last().0@ != k);
        assert(model(t) =~= model(s).remove(k));
    }
}

/// The counter a try on `key` at `now` starts from: the live one, or a
/// fresh window opened at `now`.
pub open spec fn entry_at<KV>(m: Map<KV, (u32, u128)>, key: KV, now: u128, window: u128) -> (u32, u128) {
    let l = live(m, now, window);
    if l.contains_key(key) {
        l[key]
    } else {
        (0u32, now)
    }
}

/// A try on `key` at `now`: whether it is admitted, and the counters after.
///
/// Expired windows are dropped; the key's counter is opened when missing; the
/// try is admitted and counted only while the quota is not reached. A refusal
/// changes neither the count nor the start of the window.
pub open spec fn admit_spec<KV>(m: Map<KV, (u32, u128)>, key: KV, now: u128, max: u32, window: u128) -> (bool, Map<KV, (u32, u128)>) {
    let l = live(m, now, window);
    let (count, start) = entry_at(m, key, now, window);
    if count >= max {
        (false, l.insert(key, (count, start)))
    } else {
        (true, l.insert(key, ((count + 1) as u32, start)))
    }
}

/// A failed try on `key` at `now`, counted without looking at the quota.
pub open spec fn record_spec<KV>(m: Map<KV, (u32, u128)>, key: KV, now: u128, window: u128) -> Map<KV, (u32, u128)> {
    let l = live(m, now, window);
    let (count, start) = entry_at(m, key, now, window);
    l.insert(key, (if count == u32::MAX { count } else { (count + 1) as u32 }, start))
}

/// The key's quota is reached within a running window.
pub open spec fn blocked_spec<KV>(m: Map<KV, (u32, u128)>, key: KV, now: u128, max: u32, window: u128) -> bool {
    m.contains_key(key) && elapsed(m[key].1, now) < window && m[key].0 >= max
}

impl<K: ThrottleKey> Throttle<K> {
    /// A throttle allowing `max` tries per key in each `window`.
    pub fn new(max: u32, window: Duration) -> (t: Self)
        ensures
            t.wf(),
            t@ == Map::<K::V, (u32, u128)>::empty(),
            t.quota() == max,
            t.window() <= MAX_DURATION_NANOS,
    {
        Self::with_window(max, duration_nanos(window))
    }

    /// A throttle allowing `max` tries per key in each window of `window`
    /// nanoseconds.
    pub fn with_window(max: u32, window: u128) -> (t: Self)
        ensures
            t.wf(),
            t@ == Map::<K::V, (u32, u128)>::empty(),
            t.quota() == max,
            t.window() == window,
    {
        let t = Throttle { hits: Vec::new(), max, window, origin: instant_now() };
        assert(t@ =~= Map::<K::V, (u32, u128)>::empty());
        t
    }

    /// Drops the counters whose window is over at `now`.
    fn retain_live(&mut self, now: u128)
        requires
            old(self).wf(),
        ensures
            final(self).wf(),
            final(self)@ == live(old(self)@, now, old(self).window()),
            final(self).max == old(self).max,
            final(self).window == old(self).window,
    {
        let mut kept: Vec<(K, u32, u128)> = Vec::new();
        let mut i: usize = 0;
        while i < self.hits.len()
            invariant
                i <= self.hits@.len(),
                keys_unique(self.hits@),
                keys_unique(kept@),
                model(kept@) == live(model(self.hits@.take(i as int)), now, self.window),
            decreases self.hits@.len() - i,
        {
            let ghost prefix = self.hits@.take(i as int);
            let ghost next = self.hits@.take(i + 1);
            let ghost before = kept@;
            let ghost k = self.hits@[i as int].0@;
            proof {
                assert(next.drop_last() == prefix);
                assert(next.last() == self.hits@[i as int]);
                lemma_model_keys(prefix, k);
                assert forall|j: int| 0 <= j < prefix.len() implies #[trigger] prefix[j].0@ != k by {
                    assert(prefix[j] == self.hits@[j]);
                }
            }
            let start = self.hits[i].2;
            let is_live = if now >= start { now - start < self.window } else { 0 < self.window };
            if is_live {
                let key = self.hits[i].0.copy_key();
                kept.push((key, self.hits[i].1, start));
                proof {
                    assert(kept@.drop_last() == before);
                    assert forall|a: int, b: int| 0 <= a < b < kept@.len() implies kept@[a].0@ != kept@[b].0@ by {
                        if b == kept@.len() - 1 {
                            lemma_model_has(before, a);
                        } else {
                            assert(before[a].0@ != before[b].0@);
                        }
                    }
                }
            }
            proof {
                assert(model(kept@) =~= live(model(next), now, self.window));
            }
            i = i + 1;
        }
        proof {
            assert(self.hits@.take(self.hits@.len() as int) == self.hits@);
        }
        self.hits = kept;
    }

    /// Position of the key's counter, if it has one.
    fn find(&self, key: &K) -> (r: Option<usize>)
        ensures
            match r {
                Some(i) => i < self.hits@.len() && self.hits@[i as int].0@ == key@,
                None => forall|i: int| 0 <= i < self.hits@.len() ==> #[trigger] self.hits@[i].0@ != key@,
            },
    {
        let mut i: usize = 0;
        while i < self.hits.len()
            invariant
                i <= self.hits@.len(),
                forall|k: int| 0 <= k < i ==> #[trigger] self.hits@[k].0@ != key@,
            decreases self.hits@.len() - i,
        {
            if self.hits[i].0.same_key(key) {
                return Some(i);
            }
            i = i + 1;
        }
        None
    }
}


impl<K: ThrottleKey> Throttle<K> {
    /// Nanoseconds from the making of the throttle to now: a reading of the
    /// monotonic clock, of which only the bound of a `Duration` is known.
    fn now_offset(&self) -> (r: u128)
        ensures
            r <= MAX_DURATION_NANOS,
    {
        let now = instant_now();
        duration_nanos(since(&self.origin, &now))
    }

    /// Reserves a try on `key` at `now` (nanoseconds since the throttle was
    /// made); `false` when the key's quota is used up.
    pub fn admit_at_offset(&mut self, key: &K, now: u128) -> (admitted: bool)
        requires
            old(self).wf(),
        ensures
            final(self).wf(),
            (admitted, final(self)@) == admit_spec(old(self)@, key@, now, old(self).quota(), old(self).window()),
            final(self).quota() == old(self).quota(),
            final(self).window() == old(self).window(),
    {
        self.retain_live(now);
        let ghost l = self@;
        match self.find(key) {
            Some(i) => {
                proof {
                    lemma_model_has(self.hits@, i as int);
                }
                let count = self.hits[i].1;
                let start = self.hits[i].2;
                if count >= self.max {
                    assert(l.insert(key@, (count, start)) =~= l);
                    false
                } else {
                    let e = (key.copy_key(), count + 1, start);
                    proof {
                        lemma_model_update(self.hits@, i as int, e);
                    }
                    self.hits.set(i, e);
                    true
                }
            },
            None => {
                proof {
                    lemma_model_keys(self.hits@, key@);
                }
                let admitted = 0 < self.max;
                let count: u32 = if admitted { 1 } else { 0 };
                let ghost before = self.hits@;
                self.hits.push((key.copy_key(), count, now));
                proof {
                    assert(self.hits@.drop_last() == before);
                    assert forall|a: int, b: int| 0 <= a < b < self.hits@.len() implies self.hits@[a].0@ != self.hits@[b].0@ by {
                        if b < before.len() {
                            assert(before[a].0@ != before[b].0@);
                        }
                    }
                }
                admitted
            },
        }
    }

    /// Counts a try on `key` at `now` (nanoseconds since the throttle was
    /// made) without looking at the quota; the count stops at `u32::MAX`.
    pub fn record_at_offset(&mut self, key: K, now: u128)
        requires
            old(self).wf(),
        ensures
            final(self).wf(),
            final(self)@ == record_spec(old(self)@, key@, now, old(self).window()),
            final(self).quota() == old(self).quota(),
            final(self).window() == old(self).window(),
    {
        self.retain_live(now);
        let ghost l = self@;
        match self.find(&key) {
            Some(i) => {
                proof {
                    lemma_model_has(self.hits@, i as int);
                }
                let count = self.hits[i].1;
                let start = self.hits[i].2;
                let next = if count == u32::MAX { count } else { count + 1 };
                let e = (key, next, start);
                proof {
                    lemma_model_update(self.hits@, i as int, e);
                }
                self.hits.set(i, e);
            },
            None => {
                proof {
                    lemma_model_keys(self.hits@, key@);
                }
                let ghost before = self.hits@;
                self.hits.push((key, 1, now));
                proof {
                    assert(self.hits@.drop_last() == before);
                    assert forall|a: int, b: int| 0 <= a < b < self.hits@.len() implies self.hits@[a].0@ != self.hits@[b].0@ by {
                        if b < before.len() {
                            assert(before[a].0@ != before[b].0@);
                        }
                    }
                }
            },
        }
    }

    /// Whether the quota of `key` is used up within a window running at
    /// `now` (nanoseconds since the throttle was made). Changes nothing.
    pub fn blocked_at_offset(&self, key: &K, now: u128) -> (blocked: bool)
        requires
            self.wf(),
        ensures
            blocked == blocked_spec(self@, key@, now, self.quota(), self.window()),
    {
        match self.find(key) {
            Some(i) => {
                proof {
                    lemma_model_has(self.hits@, i as int);
                }
                let count = self.hits[i].1;
                let start = self.hits[i].2;
                let running = if now >= start { now - start < self.window } else { 0 < self.window };
                running && count >= self.max
            },
            None => {
                proof {
                    lemma_model_keys(self.hits@, key@);
                }
                false
            },
        }
    }

    /// Resets the counter of `key`. Only a success that proves knowledge of
    /// this key's own secret may call it.
    pub fn clear(&mut self, key: &K)
        requires
            old(self).wf(),
        ensures
            final(self).wf(),
            final(self)@ == old(self)@.remove(key@),
            final(self).quota() == old(self).quota(),
            final(self).window() == old(self).window(),
    {
        match self.find(key) {
            Some(i) => {
                proof {
                    lemma_model_remove(self.hits@, i as int);
                }
                self.hits.remove(i);
            },
            None => {
                proof {
                    lemma_model_keys(self.hits@, key@);
                }
                assert(self@ =~= self@.remove(key@));
            },
        }
    }

    /// Reserves a try on `key` now; `false` when the key's quota is used up.
    /// A refusal does not extend the window.
    pub fn admit_now(&mut self, key: &K) -> (admitted: bool)
        requires
            old(self).wf(),
        ensures
            final(self).wf(),
            exists|now: u128|
                #[trigger] admit_spec(old(self)@, key@, now, old(self).quota(), old(self).window())
                    == (admitted, final(self)@),
            final(self).quota() == old(self).quota(),
            final(self).window() == old(self).window(),
    {
        let now = self.now_offset();
        self.admit_at_offset(key, now)
    }

    /// Reserves a try on `key` at the instant `now`.
    pub fn admit_at(&mut self, key: &K, now: Instant) -> (admitted: bool)
        requires
            old(self).wf(),
        ensures
            final(self).wf(),
            exists|t: u128|
                #[trigger] admit_spec(old(self)@, key@, t, old(self).quota(), old(self).window())
                    == (admitted, final(self)@),
            final(self).quota() == old(self).quota(),
            final(self).window() == old(self).window(),
    {
        let t = duration_nanos(since(&self.origin, &now));
        self.admit_at_offset(key, t)
    }

    /// Whether the quota of `key` is used up now. Changes nothing.
    pub fn blocked(&self, key: &K) -> (blocked: bool)
        requires
            self.wf(),
        ensures
            exists|now: u128|
                #[trigger] blocked_spec(self@, key@, now, self.quota(), self.window()) == blocked,
    {
        let now = self.now_offset();
        self.blocked_at_offset(key, now)
    }

    /// Counts a try on `key` now without looking at the quota: for counters
    /// of failures only, consulted beforehand with `blocked`.
    pub fn record(&mut self, key: K)
        requires
            old(self).wf(),
        ensures
            final(self).wf(),
            exists|now: u128| #[trigger] record_spec(old(self)@, key@, now, old(self).window()) == final(self)@,
            final(self).quota() == old(self).quota(),
            final(self).window() == old(self).window(),
    {
        let now = self.now_offset();
        self.record_at_offset(key, now)
    }
}

/// Tries allowed per key and window on the login counters.
pub const LOGIN_TRIES: u32 = 10;

/// Length of a login window: fifteen minutes, in nanoseconds.
pub const LOGIN_WINDOW_NANOS: u128 = 900_000_000_000;

/// The login counters, with keys of distinct types: the teacher's quota cannot
/// be reset from the pupils' path, nor the other way round.
///
/// There is deliberately no counter on unknown tokens: a token identifies
/// without authenticating, and such a counter, per address, would let one
/// pupil lock the whole class behind the same address.
pub struct Throttles {
    /// Tries on the teacher's password, per address: a third party cannot
    /// lock the teacher out of the tool.
    pub teacher: Throttle<Address>,
    /// Tries on a participant's secret, per (token, address).
    pub student: Throttle<(String, Address)>,
}

impl Throttles {
    /// Both counters empty, each with `LOGIN_TRIES` tries per fifteen minutes.
    pub fn new() -> (t: Self)
        ensures
            t.teacher.wf(),
            t.teacher@ == Map::<Address, (u32, u128)>::empty(),
            t.teacher.quota() == LOGIN_TRIES,
            t.teacher.window() == LOGIN_WINDOW_NANOS,
            t.student.wf(),
            t.student@ == Map::<(Seq<char>, Address), (u32, u128)>::empty(),
            t.student.quota() == LOGIN_TRIES,
            t.student.window() == LOGIN_WINDOW_NANOS,
    {
        Throttles {
            teacher: Throttle::with_window(LOGIN_TRIES, LOGIN_WINDOW_NANOS),
            student: Throttle::with_window(LOGIN_TRIES, LOGIN_WINDOW_NANOS),
        }
    }
}

impl Default for Throttles {
    fn default() -> (t: Self)
        ensures
            t.teacher.wf(),
            t.teacher@ == Map::<Address, (u32, u128)>::empty(),
            t.teacher.quota() == LOGIN_TRIES,
            t.teacher.window() == LOGIN_WINDOW_NANOS,
            t.student.wf(),
            t.student@ == Map::<(Seq<char>, Address), (u32, u128)>::empty(),
            t.student.quota() == LOGIN_TRIES,
            t.student.window() == LOGIN_WINDOW_NANOS,
    {
        Self::new()
    }
}

/// `n` tries on `key`, all at `now`: how many were admitted, and the
/// counters after.
pub open spec fn admit_repeatedly<KV>(
    m: Map<KV, (u32, u128)>,
    key: KV,
    now: u128,
    max: u32,
    window: u128,
    n: nat,
) -> (nat, Map<KV, (u32, u128)>)
    decreases n,
{
    if n == 0 {
        (0, m)
    } else {
        let (admitted, m1) = admit_repeatedly(m, key, now, max, window, (n - 1) as nat);
        let (ok, m2) = admit_spec(m1, key, now, max, window);
        (if ok { admitted + 1 } else { admitted }, m2)
    }
}

pub open spec fn min_nat(a: nat, b: nat) -> nat {
    if a <= b { a } else { b }
}

/// A try is admitted exactly when the key's running count is under the quota,
/// and an admitted try leaves the count within the quota.
pub proof fn lemma_quota_never_exceeded<KV>(m: Map<KV, (u32, u128)>, key: KV, now: u128, max: u32, window: u128)
    ensures
        admit_spec(m, key, now, max, window).0 <==> entry_at(m, key, now, window).0 < max,
        admit_spec(m, key, now, max, window).1.contains_key(key),
        admit_spec(m, key, now, max, window).0 ==> admit_spec(m, key, now, max, window).1[key].0 <= max,
{
}

/// Of `n` tries on a key with no running window, all made while its window
/// runs, exactly `min(n, max)` are admitted, however many come at once.
pub proof fn lemma_exactly_quota_admitted<KV>(
    m: Map<KV, (u32, u128)>,
    key: KV,
    now: u128,
    max: u32,
    window: u128,
    n: nat,
)
    requires
        window > 0,
        !live(m, now, window).contains_key(key),
    ensures
        admit_repeatedly(m, key, now, max, window, n).0 == min_nat(n, max as nat),
        n > 0 ==> admit_repeatedly(m, key, now, max, window, n).1.contains_key(key),
        n > 0 ==> admit_repeatedly(m, key, now, max, window, n).1[key] == (min_nat(n, max as nat) as u32, now),
    decreases n,
{
    if n > 0 {
        lemma_exactly_quota_admitted(m, key, now, max, window, (n - 1) as nat);
        let m1 = admit_repeatedly(m, key, now, max, window, (n - 1) as nat).1;
        if n > 1 {
            assert(live(m1, now, window).contains_key(key));
        }
    }
}

/// A refused try changes nothing but the dropping of expired windows: the
/// count and the start of the key's running window stay, so hammering a full
/// counter does not delay its release.
pub proof fn lemma_refusal_keeps_window<KV>(m: Map<KV, (u32, u128)>, key: KV, now: u128, max: u32, window: u128)
    requires
        live(m, now, window).contains_key(key),
        !admit_spec(m, key, now, max, window).0,
    ensures
        admit_spec(m, key, now, max, window).1 == live(m, now, window),
        admit_spec(m, key, now, max, window).1[key] == m[key],
{
    assert(admit_spec(m, key, now, max, window).1 =~= live(m, now, window));
}

/// Once the window of a key is over, its next try opens a fresh window at
/// that instant and is admitted whenever the quota is not zero.
pub proof fn lemma_window_expires<KV>(m: Map<KV, (u32, u128)>, key: KV, now: u128, max: u32, window: u128)
    requires
        m.contains_key(key),
        elapsed(m[key].1, now) >= window,
        max > 0,
    ensures
        admit_spec(m, key, now, max, window).0,
        admit_spec(m, key, now, max, window).1[key] == (1u32, now),
{
}

/// Trying, counting or clearing one key leaves every other key's running
/// counter as it was.
pub proof fn lemma_keys_isolated<KV>(m: Map<KV, (u32, u128)>, key: KV, other: KV, now: u128, max: u32, window: u128)
    requires
        key != other,
    ensures
        admit_spec(m, key, now, max, window).1.contains_key(other) == live(m, now, window).contains_key(other),
        live(m, now, window).contains_key(other) ==> admit_spec(m, key, now, max, window).1[other] == m[other],
        record_spec(m, key, now, window).contains_key(other) == live(m, now, window).contains_key(other),
        live(m, now, window).contains_key(other) ==> record_spec(m, key, now, window)[other] == m[other],
        m.remove(key).contains_key(other) == m.contains_key(other),
        m.contains_key(other) ==> m.remove(key)[other] == m[other],
{
}

/// After its counter is cleared, a key is admitted again whenever the quota
/// is not zero.
pub proof fn lemma_clear_frees_key<KV>(m: Map<KV, (u32, u128)>, key: KV, now: u128, max: u32, window: u128)
    requires
        max > 0,
    ensures
        admit_spec(m.remove(key), key, now, max, window).0,
{
}

/// Asking whether a key is blocked tells in advance how a try would end: with
/// a quota of at least one, a key is blocked at `now` exactly when a try on it
/// at `now` would be refused. (`blocked` takes the throttle by shared
/// reference: asking changes nothing.)
pub proof fn lemma_blocked_is_refusal<KV>(m: Map<KV, (u32, u128)>, key: KV, now: u128, max: u32, window: u128)
    requires
        max > 0,
    ensures
        blocked_spec(m, key, now, max, window) <==> !admit_spec(m, key, now, max, window).0,
{
    let l = live(m, now, window);
    if m.contains_key(key) && elapsed(m[key].1, now) < window {
        assert(l.contains_key(key));
        assert(l[key] == m[key]);
    } else {
        assert(!l.contains_key(key));
    }
}

/// Counting a failure blocks the key exactly when the running count, one
/// more, reaches the quota.
pub proof fn lemma_record_then_blocked<KV>(m: Map<KV, (u32, u128)>, key: KV, now: u128, max: u32, window: u128)
    requires
        window > 0,
    ensures
        blocked_spec(record_spec(m, key, now, window), key, now, max, window)
            <==> (if entry_at(m, key, now, window).0 == u32::MAX { u32::MAX as int } else { entry_at(m, key, now, window).0 + 1 }) >= max,
{
}

} // verus!
