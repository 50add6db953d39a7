use vstd::prelude::*;
use crate::announce::{decoded, parse_announce_packet};
use crate::common::{CDJDevice, DeviceView, Ipv4Addr, key_of};

verus! {

#[verifier::external_type_specification]
#[verifier::external_body]
pub struct ExInstant(std::time::Instant);

/// Relies on `Instant::now`: a reading of the monotonic clock. Nothing is
/// promised of the value.
pub assume_specification[ std::time::Instant::now ]() -> std::time::Instant;

/// Relies on `Instant::elapsed`: the time since the instant, zero if the clock
/// reads earlier. Nothing is promised of the value.
pub assume_specification[ std::time::Instant::elapsed ](i: &std::time::Instant) -> std::time::Duration;

/// Relies on `Duration::as_nanos`: the whole nanoseconds of a duration.
pub assume_specification[ core::time::Duration::as_nanos ](d: &core::time::Duration) -> u128;

/// How long a sighting stays current, in nanoseconds (ten seconds).
pub const TTL_NANOS: u128 = 10_000_000_000;

/// Time from `then` to `now`, zero when `now` is earlier.
pub open spec fn age(now: u128, then: u128) -> int {
    if now >= then {
        now - then
    } else {
        0
    }
}

/// A tracked device and the time it was last seen, in nanoseconds.
pub struct EntryView {
    pub device: DeviceView,
    pub last_seen: u128,
}

/// Whether an entry is still current at `now`.
pub open spec fn unexpired(now: u128) -> spec_fn(EntryView) -> bool {
    |e: EntryView| age(now, e.last_seen) <= TTL_NANOS
}

/// At most one entry per key.
pub open spec fn keys_unique(s: Seq<EntryView>) -> bool {
    forall|i: int, j: int|
        0 <= i < s.len() && 0 <= j < s.len() && i != j ==> key_of(s[i].device) != key_of(
            s[j].device,
        )
}

/// The index of the entry with key `k`, if there is one.
pub open spec fn position(s: Seq<EntryView>, k: (Ipv4Addr, u8)) -> Option<int> {
    if exists|i: int| 0 <= i < s.len() && key_of(s[i].device) == k {
        Some(choose|i: int| 0 <= i < s.len() && key_of(s[i].device) == k)
    } else {
        None
    }
}

/// A sighting of `d` at `now`: whether it is fresh, and the entries after it.
/// A new key is appended; a known key whose entry is older than the TTL gets
/// the new record; otherwise only the timestamp moves.
pub open spec fn upserted(s: Seq<EntryView>, d: DeviceView, now: u128) -> (bool, Seq<EntryView>) {
    match position(s, key_of(d)) {
        None => (true, s.push(EntryView { device: d, last_seen: now })),
        Some(i) => if age(now, s[i].last_seen) > TTL_NANOS {
            (true, s.update(i, EntryView { device: d, last_seen: now }))
        } else {
            (false, s.update(i, EntryView { device: s[i].device, last_seen: now }))
        },
    }
}

/// The entries still current at `now`, in their order.
pub open spec fn purged(s: Seq<EntryView>, now: u128) -> Seq<EntryView> {
    s.filter(unexpired(now))
}

struct Cached {
    device: CDJDevice,
    last_seen: u128,
}

impl View for Cached {
    type V = EntryView;

    closed spec fn view(&self) -> EntryView {
        EntryView { device: self.device@, last_seen: self.last_seen }
    }
}

/// Tracks devices by (address, id) so that only fresh sightings are passed on.
pub struct DeviceStore {
    cache: Vec<Cached>,
    origin: std::time::Instant,
}

impl View for DeviceStore {
    type V = Seq<EntryView>;

    closed spec fn view(&self) -> Seq<EntryView> {
        self.cache@.map_values(|c: Cached| c@)
    }
}

proof fn lemma_position_is(s: Seq<EntryView>, k: (Ipv4Addr, u8), i: int)
    requires
        keys_unique(s),
        0 <= i < s.len(),
        key_of(s[i].device) == k,
    ensures
        position(s, k) == Some(i),
{
}

/// Sightings keep at most one entry per key.
pub proof fn lemma_upsert_keeps_keys_unique(s: Seq<EntryView>, d: DeviceView, now: u128)
    requires
        keys_unique(s),
    ensures
        keys_unique(upserted(s, d, now).1),
{
}

proof fn lemma_purge_last(s: Seq<EntryView>, now: u128)
    requires
        s.len() > 0,
    ensures
        purged(s, now) == if unexpired(now)(s.last()) {
            purged(s.drop_last(), now).push(s.last())
        } else {
            purged(s.drop_last(), now)
        },
{
    reveal(Seq::filter);
}

/// Dropping expired entries keeps at most one entry per key.
pub proof fn lemma_purge_keeps_keys_unique(s: Seq<EntryView>, now: u128)
    requires
        keys_unique(s),
    ensures
        keys_unique(purged(s, now)),
    decreases s.len(),
{
    if s.len() > 0 {
        let p = s.drop_last();
        lemma_purge_keeps_keys_unique(p, now);
        lemma_purge_last(s, now);
        let fp = purged(p, now);
        if unexpired(now)(s.last()) {
            assert forall|k: int| 0 <= k < fp.len() implies key_of(fp[k].device) != key_of(
                s.last().device,
            ) by {
                assert(fp.contains(fp[k]));
                p.lemma_filter_contains_rev(unexpired(now), fp[k]);
                let m = choose|m: int| 0 <= m < p.len() && p[m] == fp[k];
                assert(s[m] == fp[k]);
            }
        }
    }
}

proof fn lemma_purge_prefix(s: Seq<EntryView>, j: int, now: u128)
    requires
        0 <= j < s.len(),
    ensures
        purged(s.subrange(0, j + 1), now) == if unexpired(now)(s[j]) {
            purged(s.subrange(0, j), now).push(s[j])
        } else {
            purged(s.subrange(0, j), now)
        },
{
    let t = s.subrange(0, j + 1);
    assert(t.drop_last() =~= s.subrange(0, j));
    lemma_purge_last(t, now);
}

/// Dropping expired entries twice at one time is the same as doing it once.
pub proof fn lemma_purge_idempotent(s: Seq<EntryView>, now: u128)
    ensures
        purged(purged(s, now), now) == purged(s, now),
    decreases s.len(),
{
    if s.len() > 0 {
        let p = s.drop_last();
        lemma_purge_idempotent(p, now);
        lemma_purge_last(s, now);
        if unexpired(now)(s.last()) {
            let q = purged(s, now);
            assert(q.drop_last() =~= purged(p, now));
            lemma_purge_last(q, now);
        }
    }
}

/// An entry survives dropping at `now` exactly when it was tracked and is
/// still current; nothing else is touched.
pub proof fn lemma_purge_members(s: Seq<EntryView>, now: u128, e: EntryView)
    ensures
        purged(s, now).contains(e) <==> (s.contains(e) && age(now, e.last_seen) <= TTL_NANOS),
{
    let f = purged(s, now);
    if f.contains(e) {
        let k = choose|k: int| 0 <= k < f.len() && f[k] == e;
        s.lemma_filter_pred(unexpired(now), k);
        s.lemma_filter_contains_rev(unexpired(now), e);
    }
    if s.contains(e) && age(now, e.last_seen) <= TTL_NANOS {
        let k = choose|k: int| 0 <= k < s.len() && s[k] == e;
        s.lemma_filter_contains(unexpired(now), k);
    }
}

/// A sighting of a key that is not tracked is fresh.
pub proof fn lemma_new_key_is_fresh(s: Seq<EntryView>, d: DeviceView, now: u128)
    requires
        forall|i: int| 0 <= i < s.len() ==> key_of(s[i].device) != key_of(d),
    ensures
        upserted(s, d, now).0,
{
}

/// Two sightings of one key, the second no more than the TTL after the first:
/// the first is fresh where the key was not tracked, the second is not fresh.
pub proof fn lemma_repeat_within_ttl_is_duplicate(
    s: Seq<EntryView>,
    d1: DeviceView,
    d2: DeviceView,
    t1: u128,
    t2: u128,
)
    requires
        keys_unique(s),
        key_of(d1) == key_of(d2),
        t1 <= t2,
        t2 - t1 <= TTL_NANOS,
    ensures
        position(s, key_of(d1)) is None ==> upserted(s, d1, t1).0,
        !upserted(upserted(s, d1, t1).1, d2, t2).0,
{
    let s1 = upserted(s, d1, t1).1;
    lemma_upsert_keeps_keys_unique(s, d1, t1);
    let i = match position(s, key_of(d1)) {
        None => s.len() as int,
        Some(i) => i,
    };
    assert(s1[i].last_seen == t1 && key_of(s1[i].device) == key_of(d2));
    lemma_position_is(s1, key_of(d2), i);
}

/// A sighting of a key whose entry is older than the TTL is fresh again, and
/// the entry takes the new record.
pub proof fn lemma_expired_key_is_fresh(s: Seq<EntryView>, d: DeviceView, now: u128, i: int)
    requires
        keys_unique(s),
        0 <= i < s.len(),
        key_of(s[i].device) == key_of(d),
        age(now, s[i].last_seen) > TTL_NANOS,
    ensures
        upserted(s, d, now).0,
        upserted(s, d, now).1[i] == (EntryView { device: d, last_seen: now }),
{
    lemma_position_is(s, key_of(d), i);
}

impl DeviceStore {
    /// The store's invariant: one entry per key.
    pub closed spec fn wf(&self) -> bool {
        keys_unique(self@)
    }

    /// An empty store.
    pub fn new() -> (r: DeviceStore)
        ensures
            r.wf(),
            r@ == Seq::<EntryView>::empty(),
    {
        let r = DeviceStore { cache: Vec::new(), origin: std::time::Instant::now() };
        assert(r@ =~= Seq::<EntryView>::empty());
        r
    }

    /// Records a sighting of `device` at time `now` (nanoseconds). Returns
    /// whether it is fresh: a key not yet tracked, or one last seen more than
    /// the TTL before `now`.
    pub fn upsert_at(&mut self, device: CDJDevice, now: u128) -> (r: bool)
        requires
            old(self).wf(),
        ensures
            final(self).wf(),
            (r, final(self)@) == upserted(old(self)@, device@, now),
    {
        let ghost s0 = self@;
        let mut i: usize = 0;
        while i < self.cache.len() && !self.cache[i].device.same_key(&device)
            invariant
                self@ == s0,
                keys_unique(s0),
                0 <= i <= s0.len(),
                forall|j: int| 0 <= j < i ==> key_of(s0[j].device) != key_of(device@),
            decreases self.cache.len() - i,
        {
            i += 1;
        }
        if i < self.cache.len() {
            proof {
                lemma_position_is(s0, key_of(device@), i as int);
            }
            let last = self.cache[i].last_seen;
            let elapsed: u128 = if now >= last {
                now - last
            } else {
                0
            };
            if elapsed > TTL_NANOS {
                self.cache.set(i, Cached { device, last_seen: now });
                assert(self@ =~= upserted(s0, device@, now).1);
                true
            } else {
                let kept = self.cache[i].device.duplicate();
                self.cache.set(i, Cached { device: kept, last_seen: now });
                assert(self@ =~= upserted(s0, device@, now).1);
                false
            }
        } else {
            proof {
                assert(position(s0, key_of(device@)) is None);
            }
            self.cache.push(Cached { device, last_seen: now });
            assert(self@ =~= upserted(s0, device@, now).1);
            true
        }
    }
    /// Drops every entry last seen more than the TTL before `now`
    /// (nanoseconds); the others stay, in their order.
    pub fn purge_stale_at(&mut self, now: u128)
        requires
            old(self).wf(),
        ensures
            final(self).wf(),
            final(self)@ == purged(old(self)@, now),
    {
        let ghost s0 = self@;
        let ghost n = s0.len() as int;
        let ghost mut j: int = 0;
        let mut i: usize = 0;
        while i < self.cache.len()
            invariant
                0 <= j <= n,
                i == purged(s0.subrange(0, j), now).len(),
                self@ == purged(s0.subrange(0, j), now) + s0.subrange(j, n),
                n == s0.len(),
            decreases self.cache.len() - i,
        {
            let ghost before = self@;
            assert(before[i as int] == s0[j]);
            let last = self.cache[i].last_seen;
            let elapsed: u128 = if now >= last {
                now - last
            } else {
                0
            };
            proof {
                lemma_purge_prefix(s0, j, now);
                assert(s0.subrange(j, n) =~= seq![s0[j]] + s0.subrange(j + 1, n));
            }
            if elapsed > TTL_NANOS {
                self.cache.remove(i);
                assert(self@ =~= before.remove(i as int));
                assert(self@ =~= purged(s0.subrange(0, j + 1), now) + s0.subrange(j + 1, n));
            } else {
                i += 1;
                assert(self@ =~= purged(s0.subrange(0, j + 1), now) + s0.subrange(j + 1, n));
            }
            proof {
                j = j + 1;
            }
        }
        proof {
            assert(s0.subrange(0, n) =~= s0);
            lemma_purge_keeps_keys_unique(s0, now);
        }
    }
    /// Nanoseconds since this store was made, read from the monotonic clock.
    fn now_nanos(&self) -> u128 {
        self.origin.elapsed().as_nanos()
    }

    /// Records a sighting of `device` now. Returns whether it is fresh; a key
    /// that is not tracked is always fresh.
    pub fn upsert(&mut self, device: CDJDevice) -> (r: bool)
        requires
            old(self).wf(),
        ensures
            final(self).wf(),
            exists|t: u128| #[trigger] upserted(old(self)@, device@, t) == (r, final(self)@),
            position(old(self)@, key_of(device@)) is None ==> r,
    {
        let now = self.now_nanos();
        let r = self.upsert_at(device, now);
        assert(upserted(old(self)@, device@, now) == (r, self@));
        r
    }

    /// Drops every entry last seen more than the TTL ago.
    pub fn purge_stale(&mut self)
        requires
            old(self).wf(),
        ensures
            final(self).wf(),
            exists|t: u128| #[trigger] purged(old(self)@, t) == final(self)@,
    {
        let now = self.now_nanos();
        self.purge_stale_at(now);
        assert(purged(old(self)@, now) == self@);
    }

    /// Handles one datagram received at `now` (nanoseconds): decodes it,
    /// records the sighting, then drops expired entries. Returns the record to
    /// pass on where the sighting is fresh; a payload that is not an
    /// announcement only triggers the drop.
    pub fn handle_packet_at(&mut self, payload: &[u8], now: u128) -> (r: Option<CDJDevice>)
        requires
            old(self).wf(),
        ensures
            final(self).wf(),
            match decoded(payload@) {
                None => r is None && final(self)@ == purged(old(self)@, now),
                Some(d) => {
                    &&& final(self)@ == purged(upserted(old(self)@, d, now).1, now)
                    &&& (r is Some <==> upserted(old(self)@, d, now).0)
                    &&& (r matches Some(x) ==> x@ == d)
                },
            },
    {
        let forward = match parse_announce_packet(payload) {
            None => None,
            Some(device) => {
                let copy = device.duplicate();
                if self.upsert_at(device, now) {
                    Some(copy)
                } else {
                    None
                }
            },
        };
        self.purge_stale_at(now);
        forward
    }

    /// Handles one datagram received now; see `handle_packet_at`.
    pub fn handle_packet(&mut self, payload: &[u8]) -> (r: Option<CDJDevice>)
        requires
            old(self).wf(),
        ensures
            final(self).wf(),
            decoded(payload@) is None ==> r is None,
            r matches Some(x) ==> decoded(payload@) == Some(x@),
            exists|t: u128|
                #![trigger purged(old(self)@, t)]
                #![trigger upserted(old(self)@, decoded(payload@)->Some_0, t)]
                match decoded(payload@) {
                    None => final(self)@ == purged(old(self)@, t),
                    Some(d) => {
                        &&& final(self)@ == purged(upserted(old(self)@, d, t).1, t)
                        &&& (r is Some <==> upserted(old(self)@, d, t).0)
                    },
                },
    {
        let now = self.now_nanos();
        let r = self.handle_packet_at(payload, now);
        r
    }

    /// Number of tracked devices.
    pub fn len(&self) -> (r: usize)
        ensures
            r == self@.len(),
    {
        self.cache.len()
    }

    /// Whether a device with address `ip` and id `id` is tracked.
    pub fn contains(&self, ip: Ipv4Addr, id: u8) -> (r: bool)
        ensures
            r == (position(self@, (ip, id)) is Some),
    {
        let mut i: usize = 0;
        while i < self.cache.len()
            invariant
                0 <= i <= self@.len(),
                forall|j: int| 0 <= j < i ==> key_of(self@[j].device) != (ip, id),
            decreases self.cache.len() - i,
        {
            if self.cache[i].device.ip == ip && self.cache[i].device.id == id {
                assert(key_of(self@[i as int].device) == (ip, id));
                return true;
            }
            i += 1;
        }
        false
    }
}

} // verus!
