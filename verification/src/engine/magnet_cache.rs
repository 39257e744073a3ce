//! Metadata that was resolved from magnet links: kept for a while, resolved once at a time, and
//! dropped when the route of peer traffic changes.

use vstd::prelude::*;

use crate::assoc::{under, Table};
use crate::meta::hash::Id20;
use crate::net::SocketAddr;

verus! {

/// How long metadata is kept, in milliseconds.
pub const MAGNET_META_CACHE_TTL_MS: u64 = 120_000;

/// What a resolution that is out of date is answered.
pub const MAGNET_ROUTE_CHANGED: &'static str = "P2P proxy profile changed; magnet resolution cancelled";

/// What was resolved: the torrent file, and the peers that were found on the way.
#[derive(Debug)]
pub struct ResolvedMagnetMeta {
    pub bytes: Vec<u8>,
    pub peers: Vec<SocketAddr>,
    pub tracker_peers: Vec<SocketAddr>,
}

/// The mathematical value of a [`ResolvedMagnetMeta`].
#[verifier::ext_equal]
pub struct MetaParts {
    pub bytes: Seq<u8>,
    pub peers: Seq<SocketAddr>,
    pub tracker_peers: Seq<SocketAddr>,
}

impl View for ResolvedMagnetMeta {
    type V = MetaParts;

    open spec fn view(&self) -> MetaParts {
        MetaParts {
            bytes: self.bytes@,
            peers: self.peers@,
            tracker_peers: self.tracker_peers@,
        }
    }
}

/// Metadata, and until when it is kept.
#[derive(Debug)]
pub struct CachedMagnetMeta {
    pub meta: ResolvedMagnetMeta,
    pub expires_at: u128,
}

/// The state of the cache: what is kept, and which resolution is under way under which
/// generation of the route.
#[verifier::ext_equal]
pub struct CacheModel {
    pub completed: Map<Id20, (MetaParts, int)>,
    pub in_flight: Map<Id20, u64>,
    pub generation: u64,
}

/// What a caller does.
#[derive(Debug)]
pub enum CacheLookup {
    /// The metadata is kept.
    Hit(ResolvedMagnetMeta),
    /// A resolution is under way: wait for its result.
    Join,
    /// Resolve the link, and report the result under this generation.
    Start(u64),
}

#[derive(Debug)]
pub struct MagnetMetaCache {
    completed: Table<Id20, CachedMagnetMeta>,
    in_flight: Table<Id20, u64>,
    generation: u64,
}

/// The mathematical values of what is kept.
pub open spec fn completed_model(m: Map<Id20, CachedMagnetMeta>) -> Map<Id20, (MetaParts, int)> {
    m.map_values(|e: CachedMagnetMeta| (e.meta@, e.expires_at as int))
}

impl View for MagnetMetaCache {
    type V = CacheModel;

    closed spec fn view(&self) -> CacheModel {
        CacheModel {
            completed: completed_model(self.completed@),
            in_flight: self.in_flight@,
            generation: self.generation,
        }
    }
}

/// What is still kept.
pub open spec fn unexpired(m: Map<Id20, (MetaParts, int)>, now: u64) -> Map<Id20, (MetaParts, int)> {
    Map::new(|k: Id20| m.contains_key(k) && m[k].1 > now, |k: Id20| m[k])
}

/// The cache after a caller asked for a link.
pub open spec fn after_lookup(m: CacheModel, key: Id20, now: u64) -> CacheModel {
    let kept = unexpired(m.completed, now);
    CacheModel {
        completed: kept,
        in_flight: if kept.contains_key(key) || m.in_flight.contains_key(key) {
            m.in_flight
        } else {
            m.in_flight.insert(key, m.generation)
        },
        ..m
    }
}

/// True when `r` is what a caller that asked for a link does.
pub open spec fn lookup_gives(m: CacheModel, key: Id20, now: u64, r: CacheLookup) -> bool {
    match under(unexpired(m.completed, now), key) {
        Some((parts, _)) => r matches CacheLookup::Hit(meta) && meta@ == parts,
        None => if m.in_flight.contains_key(key) {
            r is Join
        } else {
            r == CacheLookup::Start(m.generation)
        },
    }
}

/// The cache after a resolution ended: one that belongs to an older generation changes nothing.
pub open spec fn after_finish(
    m: CacheModel,
    key: Id20,
    generation: u64,
    result: Option<MetaParts>,
    expires_at: int,
) -> CacheModel {
    if generation != m.generation {
        m
    } else {
        CacheModel {
            completed: match result {
                Some(parts) => m.completed.insert(key, (parts, expires_at)),
                None => m.completed,
            },
            in_flight: if under(m.in_flight, key) == Some(generation) {
                m.in_flight.remove(key)
            } else {
                m.in_flight
            },
            ..m
        }
    }
}

/// The cache after the route changed.
pub open spec fn invalidated(m: CacheModel) -> CacheModel {
    CacheModel {
        completed: Map::empty(),
        in_flight: Map::empty(),
        generation: m.generation.wrapping_add(1),
    }
}

fn copy_bytes(v: &Vec<u8>) -> (r: Vec<u8>)
    ensures
        r@ == v@,
{
    let r = crate::bencode::copy_range(v.as_slice(), 0, v.len());
    assert(r@ =~= v@);
    r
}

fn copy_addrs(v: &Vec<SocketAddr>) -> (r: Vec<SocketAddr>)
    ensures
        r@ == v@,
{
    let mut out: Vec<SocketAddr> = Vec::new();
    let mut i: usize = 0;
    while i < v.len()
        invariant
            i <= v.len(),
            out@ == v@.take(i as int),
        decreases v.len() - i,
    {
        out.push(v[i]);
        assert(out@ =~= v@.take(i + 1));
        i += 1;
    }
    assert(v@.take(i as int) =~= v@);
    out
}

impl Clone for ResolvedMagnetMeta {
    fn clone(&self) -> (r: Self)
        ensures
            r@ == self@,
    {
        ResolvedMagnetMeta {
            bytes: copy_bytes(&self.bytes),
            peers: copy_addrs(&self.peers),
            tracker_peers: copy_addrs(&self.tracker_peers),
        }
    }
}

impl MagnetMetaCache {
    pub fn new() -> (r: Self)
        ensures
            r@ == (CacheModel {
                completed: Map::empty(),
                in_flight: Map::empty(),
                generation: 0,
            }),
    {
        let r = MagnetMetaCache { completed: Table::new(), in_flight: Table::new(), generation: 0 };
        assert(r@.completed =~= Map::empty());
        r
    }

    fn drop_expired(&mut self, now: u64)
        ensures
            final(self)@ == (CacheModel {
                completed: unexpired(old(self)@.completed, now),
                ..old(self)@
            }),
    {
        let keys = self.completed.keys();
        let ghost start = self@;
        let ghost all = self.completed@;
        let mut i: usize = 0;
        assert(self@.completed =~= Map::new(
            |k: Id20|
                start.completed.contains_key(k) && !(keys@.take(0).contains(k)
                    && start.completed[k].1 <= now),
            |k: Id20| start.completed[k],
        ));
        while i < keys.len()
            invariant
                i <= keys.len(),
                forall|k: Id20| #[trigger] keys@.contains(k) <==> start.completed.contains_key(k),
                keys@.no_duplicates(),
                self@.in_flight == start.in_flight,
                self@.generation == start.generation,
                self@.completed == Map::new(
                    |k: Id20|
                        start.completed.contains_key(k) && !(keys@.take(i as int).contains(k)
                            && start.completed[k].1 <= now),
                    |k: Id20| start.completed[k],
                ),
            decreases keys.len() - i,
        {
            let key = keys[i];
            let ghost before = self@.completed;
            let ghost table = self.completed@;
            let late = match self.completed.get(&key) {
                Some(e) => e.expires_at <= now as u128,
                None => false,
            };
            proof {
                assert(keys@.contains(key));
                assert(!keys@.take(i as int).contains(key)) by {
                    if keys@.take(i as int).contains(key) {
                        let j = choose|j: int| 0 <= j < i && keys@.take(i as int)[j] == key;
                        assert(keys@[j] == keys@[i as int]);
                    }
                }
                assert(before.contains_key(key));
                assert(before[key] == start.completed[key]);
                assert(table.contains_key(key));
                assert(before[key] == (table[key].meta@, table[key].expires_at as int));
            }
            if late {
                self.completed.remove(&key);
                assert(self@.completed =~= before.remove(key));
            }
            proof {
                assert forall|k: Id20| #[trigger] keys@.take(i + 1).contains(k) <==> (keys@.take(
                    i as int,
                ).contains(k) || k == key) by {
                    lemma_taken(keys@, i as int, k);
                }
                assert(self@.completed =~= Map::new(
                    |k: Id20|
                        start.completed.contains_key(k) && !(keys@.take(i + 1).contains(k)
                            && start.completed[k].1 <= now),
                    |k: Id20| start.completed[k],
                ));
            }
            i += 1;
        }
        proof {
            assert(keys@.take(i as int) =~= keys@);
            assert(self@.completed =~= unexpired(start.completed, now));
        }
    }

    /// Ask for the metadata of a link: it is kept, or its resolution is under way, or the caller
    /// is the one to start it.
    pub fn get_or_resolve(&mut self, key: Id20, now: u64) -> (r: CacheLookup)
        ensures
            lookup_gives(old(self)@, key, now, r),
            final(self)@ == after_lookup(old(self)@, key, now),
    {
        self.drop_expired(now);
        if let Some(e) = self.completed.get(&key) {
            assert(self@.completed.contains_key(key));
            return CacheLookup::Hit(e.meta.clone());
        }
        assert(!self@.completed.contains_key(key));
        if self.in_flight.contains_key(&key) {
            return CacheLookup::Join;
        }
        let generation: u64 = self.generation;
        self.in_flight.insert(key, generation);
        CacheLookup::Start(generation)
    }

    /// A resolution has ended. Returns what those who wait for it are told: its own result, or
    /// that the route has changed meanwhile.
    pub fn finish(
        &mut self,
        key: Id20,
        generation: u64,
        result: Result<ResolvedMagnetMeta, String>,
        now: u64,
    ) -> (r: Result<ResolvedMagnetMeta, String>)
        ensures
            final(self)@ == after_finish(
                old(self)@,
                key,
                generation,
                match result {
                    Ok(m) => Some(m@),
                    Err(_) => None,
                },
                now + MAGNET_META_CACHE_TTL_MS,
            ),
            generation != old(self)@.generation ==> (r matches Err(e) && e@
                == MAGNET_ROUTE_CHANGED@),
            generation == old(self)@.generation ==> match result {
                Ok(m) => r matches Ok(x) && x@ == m@,
                Err(e) => r matches Err(x) && x@ == e@,
            },
    {
        if self.generation != generation {
            return Err(MAGNET_ROUTE_CHANGED.to_string());
        }
        let ghost before = self@;
        let expires_at: u128 = now as u128 + MAGNET_META_CACHE_TTL_MS as u128;
        if let Ok(meta) = &result {
            let meta = meta.clone();
            let ghost parts = meta@;
            self.completed.insert(key, CachedMagnetMeta { meta, expires_at });
            assert(self@.completed =~= before.completed.insert(
                key,
                (parts, expires_at as int),
            ));
        }
        let held = match self.in_flight.get(&key) {
            Some(g) => *g == generation,
            None => false,
        };
        if held {
            self.in_flight.remove(&key);
        }
        result
    }

    /// The current generation of the route.
    pub fn route_snapshot(&self) -> (r: u64)
        ensures
            r == self@.generation,
    {
        self.generation
    }

    /// True when a resolution that was started under a generation may still go on.
    pub fn is_current(&self, generation: u64) -> (r: bool)
        ensures
            r == (generation == self@.generation),
    {
        self.generation == generation
    }

    /// The current generation, where it is the expected one.
    pub fn route_snapshot_for(&self, expected_generation: u64) -> (r: Result<u64, String>)
        ensures
            if expected_generation == self@.generation {
                r == Ok::<u64, String>(expected_generation)
            } else {
                r matches Err(e) && e@ == MAGNET_ROUTE_CHANGED@
            },
    {
        if self.generation != expected_generation {
            return Err(MAGNET_ROUTE_CHANGED.to_string());
        }
        Ok(self.generation)
    }

    /// The route has changed: drop everything. Returns the links whose resolution was under way;
    /// those who wait for them are told that the route has changed.
    pub fn invalidate(&mut self) -> (r: Vec<Id20>)
        ensures
            final(self)@ == invalidated(old(self)@),
            forall|k: Id20| #[trigger] r@.contains(k) <==> old(self)@.in_flight.contains_key(k),
            r@.no_duplicates(),
    {
        let waiting = self.in_flight.keys();
        self.generation = self.generation.wrapping_add(1);
        self.completed = Table::new();
        self.in_flight = Table::new();
        assert(self@.completed =~= Map::empty());
        waiting
    }
}

proof fn lemma_taken<T>(s: Seq<T>, i: int, x: T)
    requires
        0 <= i < s.len(),
    ensures
        s.take(i + 1).contains(x) <==> (s.take(i).contains(x) || x == s[i]),
{
    let t = s.take(i + 1);
    assert(t =~= s.take(i).push(s[i]));
    if t.contains(x) {
        let j = choose|j: int| 0 <= j < t.len() && t[j] == x;
        if j < i {
            assert(s.take(i)[j] == x);
        }
    }
    if s.take(i).contains(x) {
        let j = choose|j: int| 0 <= j < i && s.take(i)[j] == x;
        assert(t[j] == x);
    }
    assert(t[i] == s[i]);
}

/// What happens to the cache between two changes of the route.
pub enum CacheEvent {
    /// A caller asks for a link.
    Asked { key: Id20, now: u64 },
    /// A resolution ends.
    Finished { key: Id20, generation: u64, result: Option<MetaParts>, now: u64 },
}

impl CacheEvent {
    /// The link that an event is about.
    pub open spec fn key(self) -> Id20 {
        match self {
            CacheEvent::Asked { key, .. } => key,
            CacheEvent::Finished { key, .. } => key,
        }
    }

    /// When an event happens.
    pub open spec fn now(self) -> u64 {
        match self {
            CacheEvent::Asked { now, .. } => now,
            CacheEvent::Finished { now, .. } => now,
        }
    }
}

/// The cache after an event.
pub open spec fn after_event(m: CacheModel, e: CacheEvent) -> CacheModel {
    match e {
        CacheEvent::Asked { key, now } => after_lookup(m, key, now),
        CacheEvent::Finished { key, generation, result, now } => after_finish(
            m,
            key,
            generation,
            result,
            now + MAGNET_META_CACHE_TTL_MS,
        ),
    }
}

/// The cache after events, one behind the other.
pub open spec fn after_events(m: CacheModel, events: Seq<CacheEvent>) -> CacheModel
    decreases events.len(),
{
    if events.len() == 0 {
        m
    } else {
        after_event(after_events(m, events.drop_last()), events.last())
    }
}

/// True when no resolution of a link ends.
pub open spec fn none_finishes(events: Seq<CacheEvent>, key: Id20) -> bool {
    forall|i: int|
        0 <= i < events.len() ==> !(#[trigger] events[i] is Finished && events[i].key() == key)
}

proof fn lemma_under_way(m: CacheModel, key: Id20, events: Seq<CacheEvent>)
    requires
        !m.completed.contains_key(key),
        under(m.in_flight, key) == Some(m.generation),
        none_finishes(events, key),
    ensures
        after_events(m, events).generation == m.generation,
        !after_events(m, events).completed.contains_key(key),
        under(after_events(m, events).in_flight, key) == Some(m.generation),
    decreases events.len(),
{
    if events.len() > 0 {
        let front = events.drop_last();
        assert forall|i: int| 0 <= i < front.len() implies !(#[trigger] front[i] is Finished
            && front[i].key() == key) by {
            assert(front[i] == events[i]);
        }
        lemma_under_way(m, key, front);
        assert(events.last() == events[events.len() - 1]);
    }
}

proof fn lemma_kept(m: CacheModel, key: Id20, until: int, events: Seq<CacheEvent>)
    requires
        m.completed.contains_key(key),
        m.completed[key].1 == until,
        none_finishes(events, key),
        forall|i: int| 0 <= i < events.len() ==> (#[trigger] events[i]).now() < until,
    ensures
        after_events(m, events).completed.contains_key(key),
        after_events(m, events).completed[key] == m.completed[key],
    decreases events.len(),
{
    if events.len() > 0 {
        let front = events.drop_last();
        assert forall|i: int| 0 <= i < front.len() implies !(#[trigger] front[i] is Finished
            && front[i].key() == key) && front[i].now() < until by {
            assert(front[i] == events[i]);
        }
        lemma_kept(m, key, until, front);
        assert(events.last() == events[events.len() - 1]);
    }
}

proof fn lemma_not_started(m: CacheModel, key: Id20, until: int, events: Seq<CacheEvent>)
    requires
        m.completed.contains_key(key),
        m.completed[key].1 == until,
        !m.in_flight.contains_key(key),
        none_finishes(events, key),
        forall|i: int| 0 <= i < events.len() ==> (#[trigger] events[i]).now() < until,
    ensures
        after_events(m, events).generation == m.generation,
        !after_events(m, events).in_flight.contains_key(key),
    decreases events.len(),
{
    if events.len() > 0 {
        let front = events.drop_last();
        assert forall|i: int| 0 <= i < front.len() implies !(#[trigger] front[i] is Finished
            && front[i].key() == key) && front[i].now() < until by {
            assert(front[i] == events[i]);
        }
        lemma_kept(m, key, until, front);
        lemma_not_started(m, key, until, front);
        assert(events.last() == events[events.len() - 1]);
    }
}

proof fn lemma_untouched(m: CacheModel, key: Id20, events: Seq<CacheEvent>)
    requires
        !m.completed.contains_key(key),
        !m.in_flight.contains_key(key),
        forall|i: int| 0 <= i < events.len() ==> (#[trigger] events[i]).key() != key,
    ensures
        after_events(m, events).generation == m.generation,
        !after_events(m, events).completed.contains_key(key),
        !after_events(m, events).in_flight.contains_key(key),
    decreases events.len(),
{
    if events.len() > 0 {
        let front = events.drop_last();
        assert forall|i: int| 0 <= i < front.len() implies (#[trigger] front[i]).key() != key by {
            assert(front[i] == events[i]);
        }
        lemma_untouched(m, key, front);
        assert(events.last() == events[events.len() - 1]);
    }
}

/// However many callers ask for a link, it is resolved once: the first of them starts, those who
/// ask while the resolution is under way wait for it, and for as long as its result is kept
/// everybody else is given that, whatever is asked and found of other links meanwhile.
pub proof fn links_are_resolved_once(
    m: CacheModel,
    key: Id20,
    asked_at: u64,
    meanwhile: Seq<CacheEvent>,
    parts: MetaParts,
    finished_at: u64,
    since: Seq<CacheEvent>,
    later: u64,
    r: CacheLookup,
)
    requires
        !unexpired(m.completed, asked_at).contains_key(key),
        !m.in_flight.contains_key(key),
        none_finishes(meanwhile, key),
        none_finishes(since, key),
        forall|i: int|
            0 <= i < since.len() ==> (#[trigger] since[i]).now() < finished_at
                + MAGNET_META_CACHE_TTL_MS,
        later < finished_at + MAGNET_META_CACHE_TTL_MS,
    ensures
        lookup_gives(m, key, asked_at, r) ==> r == CacheLookup::Start(m.generation),
        ({
            let under_way = after_events(after_lookup(m, key, asked_at), meanwhile);
            let done = after_event(
                under_way,
                CacheEvent::Finished {
                    key,
                    generation: m.generation,
                    result: Some(parts),
                    now: finished_at,
                },
            );
            &&& lookup_gives(under_way, key, later, r) ==> r is Join
            &&& lookup_gives(after_events(done, since), key, later, r) ==> (
            r matches CacheLookup::Hit(x) && x@ == parts)
        }),
{
    let asked = after_lookup(m, key, asked_at);
    lemma_under_way(asked, key, meanwhile);
    let under_way = after_events(asked, meanwhile);
    let done = after_finish(
        under_way,
        key,
        m.generation,
        Some(parts),
        finished_at + MAGNET_META_CACHE_TTL_MS,
    );
    lemma_kept(done, key, finished_at + MAGNET_META_CACHE_TTL_MS, since);
}

/// What was found is kept for its time from when it was found, however often it is asked for
/// meanwhile: being given it does not renew it, and the first to ask after that time resolves the
/// link again.
pub proof fn hits_do_not_renew(
    m: CacheModel,
    key: Id20,
    parts: MetaParts,
    finished_at: u64,
    since: Seq<CacheEvent>,
    later: u64,
    r: CacheLookup,
)
    requires
        under(m.in_flight, key) == Some(m.generation),
        none_finishes(since, key),
        forall|i: int|
            0 <= i < since.len() ==> (#[trigger] since[i]).now() < finished_at
                + MAGNET_META_CACHE_TTL_MS,
        later >= finished_at + MAGNET_META_CACHE_TTL_MS,
    ensures
        ({
            let done = after_event(
                m,
                CacheEvent::Finished {
                    key,
                    generation: m.generation,
                    result: Some(parts),
                    now: finished_at,
                },
            );
            lookup_gives(after_events(done, since), key, later, r) ==> r == CacheLookup::Start(
                m.generation,
            )
        }),
{
    let until = finished_at + MAGNET_META_CACHE_TTL_MS;
    let done = after_finish(m, key, m.generation, Some(parts), until);
    lemma_kept(done, key, until, since);
    lemma_not_started(done, key, until, since);
}

/// A failure is not kept: the next caller resolves the link again, whatever is asked and found of
/// other links meanwhile.
pub proof fn failures_are_not_kept(
    m: CacheModel,
    key: Id20,
    asked_at: u64,
    meanwhile: Seq<CacheEvent>,
    finished_at: u64,
    since: Seq<CacheEvent>,
    later: u64,
    r: CacheLookup,
)
    requires
        !unexpired(m.completed, asked_at).contains_key(key),
        !m.in_flight.contains_key(key),
        none_finishes(meanwhile, key),
        forall|i: int| 0 <= i < since.len() ==> (#[trigger] since[i]).key() != key,
    ensures
        ({
            let under_way = after_events(after_lookup(m, key, asked_at), meanwhile);
            let done = after_event(
                under_way,
                CacheEvent::Finished {
                    key,
                    generation: m.generation,
                    result: None,
                    now: finished_at,
                },
            );
            lookup_gives(after_events(done, since), key, later, r) ==> r == CacheLookup::Start(
                m.generation,
            )
        }),
{
    let asked = after_lookup(m, key, asked_at);
    lemma_under_way(asked, key, meanwhile);
    let under_way = after_events(asked, meanwhile);
    let done = after_finish(
        under_way,
        key,
        m.generation,
        None,
        finished_at + MAGNET_META_CACHE_TTL_MS,
    );
    lemma_untouched(done, key, since);
}

/// A resolution that was started before the route changed cannot reach the cache after it: it
/// changes nothing, its generation is refused, and the next caller starts anew.
pub proof fn old_resolutions_are_refused(
    m: CacheModel,
    key: Id20,
    parts: Option<MetaParts>,
    expires_at: int,
    now: u64,
    r: CacheLookup,
)
    ensures
        invalidated(m).generation != m.generation,
        after_finish(invalidated(m), key, m.generation, parts, expires_at) == invalidated(m),
        lookup_gives(invalidated(m), key, now, r) ==> r == CacheLookup::Start(
            invalidated(m).generation,
        ),
{
    assert(!unexpired(invalidated(m).completed, now).contains_key(key));
}

} // verus!
