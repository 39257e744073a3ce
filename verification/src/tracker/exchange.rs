//! The course of an exchange with a tracker: a connection, a request, and what is sent again.

use vstd::prelude::*;

use crate::be::{of_be32, of_be64};
use crate::meta::hash::Id20;
use crate::net::SocketAddr;
use crate::tracker::udp::{
    announce_body, announce_bytes, announce_response_buffer_len, answer_room, answers_announce, connect_body, connect_bytes, connect_verdict,
    counts_in, how_a_connection_is_asked_for, how_an_announcement_is_written, how_counts_are_asked_for,
    judge_announce, judge_connect, judge_scrape, lossy_text, patience,
    retransmit_timeout, says, scrape_body, scrape_bytes, when_a_connection_is_open, ConnectVerdict, Verdict, ACTION_ERROR,
    ACTION_SCRAPE, CONNECTION_TTL_MS, RETRANSMIT_ATTEMPTS,
};
use crate::tracker::{
    AnnounceRequest, AnnounceResponse, ScrapeResponse, TrackerError, TrackerFault,
};

verus! {

/// Which tracker, and from which of our addresses.
#[derive(Debug, Clone, Copy)]
pub struct ConnectionCacheKey {
    pub target: SocketAddr,
    pub source: SocketAddr,
}

/// A connection that was opened: its number, and when.
#[derive(Debug, Clone, Copy)]
pub struct CachedConnection {
    pub key: ConnectionCacheKey,
    pub id: u64,
    pub created: u64,
}

/// The connections that are still good.
pub open spec fn still_good(s: Seq<CachedConnection>, now: u64) -> Seq<CachedConnection>
    decreases s.len(),
{
    if s.len() == 0 {
        seq![]
    } else {
        let front = still_good(s.drop_last(), now);
        if now - s.last().created < CONNECTION_TTL_MS {
            front.push(s.last())
        } else {
            front
        }
    }
}

/// The connections but for the one under `key`.
pub open spec fn without_key(s: Seq<CachedConnection>, key: ConnectionCacheKey) -> Seq<
    CachedConnection,
>
    decreases s.len(),
{
    if s.len() == 0 {
        seq![]
    } else {
        let front = without_key(s.drop_last(), key);
        if s.last().key == key {
            front
        } else {
            front.push(s.last())
        }
    }
}

/// The number of the connection under `key`.
pub open spec fn id_under(s: Seq<CachedConnection>, key: ConnectionCacheKey) -> Option<u64>
    decreases s.len(),
{
    if s.len() == 0 {
        None
    } else if s.last().key == key {
        Some(s.last().id)
    } else {
        id_under(s.drop_last(), key)
    }
}

/// The connections that were opened lately.
#[derive(Debug)]
pub struct ConnectionCache {
    entries: Vec<CachedConnection>,
}

fn same_key(a: &ConnectionCacheKey, b: &ConnectionCacheKey) -> (r: bool)
    ensures
        r == (*a == *b),
{
    a.target == b.target && a.source == b.source
}

impl View for ConnectionCache {
    type V = Seq<CachedConnection>;

    closed spec fn view(&self) -> Seq<CachedConnection> {
        self.entries@
    }
}

impl ConnectionCache {
    pub fn new() -> (r: Self)
        ensures
            r@ == Seq::<CachedConnection>::empty(),
    {
        ConnectionCache { entries: Vec::new() }
    }

    fn drop_old(&mut self, now: u64)
        ensures
            final(self)@ == still_good(old(self)@, now),
    {
        let ghost all = self.entries@;
        let mut out: Vec<CachedConnection> = Vec::new();
        let mut i: usize = 0;
        assert(all.take(0) =~= seq![]);
        while i < self.entries.len()
            invariant
                i <= self.entries.len(),
                self.entries@ == all,
                out@ == still_good(all.take(i as int), now),
            decreases self.entries.len() - i,
        {
            assert(all.take(i + 1).drop_last() =~= all.take(i as int));
            let e = self.entries[i];
            if now < e.created || now - e.created < CONNECTION_TTL_MS {
                out.push(e);
            }
            i += 1;
        }
        assert(all.take(i as int) =~= all);
        self.entries = out;
    }

    pub fn cached_connection(&mut self, key: &ConnectionCacheKey, now: u64) -> (r: Option<u64>)
        ensures
            final(self)@ == still_good(old(self)@, now),
            r == id_under(final(self)@, *key),
    {
        self.drop_old(now);
        let ghost all = self.entries@;
        let mut n: usize = self.entries.len();
        assert(all.take(n as int) =~= all);
        while n > 0
            invariant
                n <= self.entries.len(),
                self.entries@ == all,
                all == still_good(old(self)@, now),
                id_under(all, *key) == id_under(all.take(n as int), *key),
            decreases n,
        {
            assert(all.take(n as int).drop_last() =~= all.take(n - 1));
            if same_key(&self.entries[n - 1].key, key) {
                return Some(self.entries[n - 1].id);
            }
            n -= 1;
        }
        None
    }

    pub fn invalidate_connection(&mut self, key: &ConnectionCacheKey)
        ensures
            final(self)@ == without_key(old(self)@, *key),
    {
        let ghost all = self.entries@;
        let mut out: Vec<CachedConnection> = Vec::new();
        let mut i: usize = 0;
        assert(all.take(0) =~= seq![]);
        while i < self.entries.len()
            invariant
                i <= self.entries.len(),
                self.entries@ == all,
                out@ == without_key(all.take(i as int), *key),
            decreases self.entries.len() - i,
        {
            assert(all.take(i + 1).drop_last() =~= all.take(i as int));
            if !same_key(&self.entries[i].key, key) {
                out.push(self.entries[i]);
            }
            i += 1;
        }
        assert(all.take(i as int) =~= all);
        self.entries = out;
    }

    pub fn cache_connection(&mut self, key: ConnectionCacheKey, id: u64, now: u64)
        ensures
            final(self)@ == without_key(still_good(old(self)@, now), key).push(
                CachedConnection { key, id, created: now },
            ),
    {
        self.drop_old(now);
        self.invalidate_connection(&key);
        self.entries.push(CachedConnection { key, id, created: now });
    }
}

/// A connection is found again under its own key for as long as it is good, and not after that;
/// storing it, or forgetting it, does not change what is found under another key.
pub proof fn connections_are_kept_apart(
    s: Seq<CachedConnection>,
    key: ConnectionCacheKey,
    id: u64,
    now: u64,
    later: u64,
    other: ConnectionCacheKey,
)
    requires
        key != other,
        now <= later,
    ensures
        ({
            let stored = without_key(s, key).push(CachedConnection { key, id, created: now });
            &&& id_under(still_good(stored, later), key) == (if later - now < CONNECTION_TTL_MS {
                Some(id)
            } else {
                None
            })
            &&& id_under(stored, other) == id_under(s, other)
        }),
        id_under(without_key(s, key), key) is None,
        id_under(without_key(s, key), other) == id_under(s, other),
{
    let rest = without_key(s, key);
    let entry = CachedConnection { key, id, created: now };
    let stored = rest.push(entry);
    assert(stored.drop_last() =~= rest);
    lemma_without_key(s, key, other);
    lemma_still_absent(rest, key, later);
    let kept = still_good(rest, later);
    assert(kept.push(entry).drop_last() =~= kept);
}

proof fn lemma_still_absent(s: Seq<CachedConnection>, key: ConnectionCacheKey, now: u64)
    requires
        id_under(s, key) is None,
    ensures
        id_under(still_good(s, now), key) is None,
    decreases s.len(),
{
    if s.len() > 0 {
        lemma_still_absent(s.drop_last(), key, now);
        let front = still_good(s.drop_last(), now);
        assert(front.push(s.last()).drop_last() =~= front);
    }
}

proof fn lemma_without_key(
    s: Seq<CachedConnection>,
    key: ConnectionCacheKey,
    other: ConnectionCacheKey,
)
    requires
        key != other,
    ensures
        id_under(without_key(s, key), other) == id_under(s, other),
        id_under(without_key(s, key), key) is None,
    decreases s.len(),
{
    if s.len() > 0 {
        lemma_without_key(s.drop_last(), key, other);
        let front = without_key(s.drop_last(), key);
        assert(front.push(s.last()).drop_last() =~= front);
    }
}

/// What a tracker is asked.
#[derive(Debug)]
pub enum Request {
    Announce(AnnounceRequest),
    Scrape(Vec<Id20>),
}

/// The mathematical value of a [`Request`].
pub enum RequestModel {
    Announce(AnnounceRequest),
    Scrape(Seq<Id20>),
}

impl View for Request {
    type V = RequestModel;

    open spec fn view(&self) -> RequestModel {
        match *self {
            Request::Announce(a) => RequestModel::Announce(a),
            Request::Scrape(h) => RequestModel::Scrape(h@),
        }
    }
}

/// What a tracker answered.
#[derive(Debug)]
pub enum Answer {
    Announce(AnnounceResponse),
    Scrape(Vec<ScrapeResponse>),
}

/// How far an exchange has come.
#[derive(Debug, Clone, Copy, PartialEq, Eq, Structural)]
pub enum Phase {
    Connecting { txn: u32, attempt: u32 },
    Asking { conn_id: u64, txn: u32, attempt: u32 },
}

/// The state of an exchange.
#[verifier::ext_equal]
pub struct ExchangeModel {
    pub request: RequestModel,
    pub is_ipv6: bool,
    pub reconnects: bool,
    pub phase: Phase,
}

/// What is to be done next.
#[derive(Debug)]
pub enum Next {
    /// Send a datagram, and wait for an answer for so many seconds.
    Send { bytes: Vec<u8>, wait: u64 },
    /// The exchange is over.
    Done(Result<Answer, TrackerError>),
}

/// What an event leads to: a connection to remember, whether one is to be forgotten, and what
/// comes next.
#[derive(Debug)]
pub struct Turn {
    pub connected: Option<u64>,
    pub forget: bool,
    pub next: Next,
}

/// The datagram of a phase.
pub open spec fn datagram_of(request: RequestModel, phase: Phase) -> Seq<u8> {
    match phase {
        Phase::Connecting { txn, .. } => connect_bytes(txn),
        Phase::Asking { conn_id, txn, .. } => match request {
            RequestModel::Announce(a) => announce_bytes(conn_id, txn, a),
            RequestModel::Scrape(h) => scrape_bytes(conn_id, txn, h),
        },
    }
}

/// The attempt of a phase.
pub open spec fn attempt_of(phase: Phase) -> u32 {
    match phase {
        Phase::Connecting { attempt, .. } => attempt,
        Phase::Asking { attempt, .. } => attempt,
    }
}

/// How many bytes the answer to a datagram is given room for; what is longer is cut off.
pub open spec fn room_for(m: ExchangeModel) -> int {
    match m.phase {
        Phase::Connecting { .. } => 16,
        Phase::Asking { .. } => match m.request {
            RequestModel::Announce(a) => answer_room(m.is_ipv6, a.num_want),
            RequestModel::Scrape(h) => 8 + 12 * h.len() as int,
        },
    }
}

/// True when `t` sends the datagram of the phase that `after` is in.
pub open spec fn sends(t: Next, after: ExchangeModel) -> bool {
    t matches Next::Send { bytes, wait } && bytes@ == datagram_of(after.request, after.phase)
        && wait == patience(attempt_of(after.phase))
}

/// True when `t` ends the exchange with an error.
pub open spec fn fails(t: Next, fault: TrackerFault) -> bool {
    t matches Next::Done(Err(e)) && e@ == fault
}

/// The exchange starts over with a new connection.
pub open spec fn reconnected(m: ExchangeModel, fresh: u32) -> ExchangeModel {
    ExchangeModel {
        reconnects: false,
        phase: Phase::Connecting { txn: fresh, attempt: 0 },
        ..m
    }
}

/// The phase with one attempt more.
pub open spec fn again(phase: Phase) -> Phase {
    match phase {
        Phase::Connecting { txn, attempt } => Phase::Connecting {
            txn,
            attempt: (attempt + 1) as u32,
        },
        Phase::Asking { conn_id, txn, attempt } => Phase::Asking {
            conn_id,
            txn,
            attempt: (attempt + 1) as u32,
        },
    }
}

/// A request failed: once, the exchange starts over with a new connection.
pub open spec fn after_failure(
    m: ExchangeModel,
    fault: TrackerFault,
    fresh: u32,
    after: ExchangeModel,
    t: Turn,
) -> bool {
    &&& t.connected is None
    &&& if m.phase is Asking && m.reconnects {
        after == reconnected(m, fresh) && t.forget && sends(t.next, after)
    } else {
        after == m && !t.forget && fails(t.next, fault)
    }
}

/// Nothing that counts came: the datagram is sent again, up to so many times.
pub open spec fn after_silence(m: ExchangeModel, fresh: u32, after: ExchangeModel, t: Turn) -> bool {
    if attempt_of(m.phase) + 1 < RETRANSMIT_ATTEMPTS {
        &&& after == (ExchangeModel { phase: again(m.phase), ..m })
        &&& t.connected is None
        &&& !t.forget
        &&& sends(t.next, after)
    } else {
        after_failure(m, TrackerFault::Timeout, fresh, after, t)
    }
}

/// True when an answer ends the exchange.
pub open spec fn answered(m: ExchangeModel, buf: Seq<u8>, v6: bool, t: Next) -> bool {
    match m.request {
        RequestModel::Announce(_) => t matches Next::Done(Ok(Answer::Announce(a))) && says(
            a,
            buf,
            v6,
        ),
        RequestModel::Scrape(h) => t matches Next::Done(Ok(Answer::Scrape(v))) && v@ == counts_in(
            buf.skip(8),
            h.len(),
        ),
    }
}

/// True when a datagram is an error that counts.
pub open spec fn is_rejection(m: ExchangeModel, txn: u32, buf: Seq<u8>) -> bool {
    buf.len() >= 8 && of_be32(buf) == ACTION_ERROR && (m.request is Scrape ==> of_be32(buf.skip(4))
        == txn)
}

/// True when a datagram is the answer that is waited for.
pub open spec fn is_answer(m: ExchangeModel, txn: u32, buf: Seq<u8>, v6: bool) -> bool {
    match m.request {
        RequestModel::Announce(_) => answers_announce(buf, txn, v6),
        RequestModel::Scrape(h) => buf.len() == 8 + 12 * h.len() && of_be32(buf) == ACTION_SCRAPE
            && of_be32(buf.skip(4)) == txn,
    }
}

/// What a datagram does.
pub open spec fn after_datagram(
    m: ExchangeModel,
    buf: Seq<u8>,
    from_v6: bool,
    fresh: u32,
    after: ExchangeModel,
    t: Turn,
) -> bool {
    let v6 = m.is_ipv6 || from_v6;
    match m.phase {
        Phase::Connecting { txn, .. } => match connect_verdict(buf, txn) {
            ConnectVerdict::Ignore => after_silence(m, fresh, after, t),
            ConnectVerdict::Rejected(message) => after_failure(
                m,
                TrackerFault::Rejected(message),
                fresh,
                after,
                t,
            ),
            ConnectVerdict::Connected(id) => {
                &&& after == (ExchangeModel {
                    phase: Phase::Asking { conn_id: id, txn: fresh, attempt: 0 },
                    ..m
                })
                &&& t.connected == Some(id)
                &&& !t.forget
                &&& sends(t.next, after)
            },
        },
        Phase::Asking { txn, .. } => if is_rejection(m, txn, buf) {
            after_failure(m, TrackerFault::Rejected(lossy_text(buf.skip(8))), fresh, after, t)
        } else if is_answer(m, txn, buf, v6) {
            after == m && t.connected is None && !t.forget && answered(m, buf, v6, t.next)
        } else {
            after_silence(m, fresh, after, t)
        },
    }
}

/// An exchange with a tracker.
#[derive(Debug)]
pub struct UdpExchange {
    request: Request,
    is_ipv6: bool,
    reconnects: bool,
    phase: Phase,
}

impl View for UdpExchange {
    type V = ExchangeModel;

    closed spec fn view(&self) -> ExchangeModel {
        ExchangeModel {
            request: self.request@,
            is_ipv6: self.is_ipv6,
            reconnects: self.reconnects,
            phase: self.phase,
        }
    }
}

impl UdpExchange {
    /// True of every exchange.
    pub open spec fn wf(self) -> bool {
        &&& attempt_of(self@.phase) < RETRANSMIT_ATTEMPTS
        &&& self@.request matches RequestModel::Scrape(h) ==> h.len() <= 74
    }

    fn send(&self) -> (r: Next)
        ensures
            sends(r, self@),
    {
        match self.phase {
            Phase::Connecting { txn, attempt } => Next::Send {
                bytes: connect_body(txn),
                wait: retransmit_timeout(attempt),
            },
            Phase::Asking { conn_id, txn, attempt } => {
                let bytes = match &self.request {
                    Request::Announce(a) => announce_body(conn_id, txn, a),
                    Request::Scrape(h) => scrape_body(conn_id, txn, h),
                };
                Next::Send { bytes, wait: retransmit_timeout(attempt) }
            },
        }
    }

    /// How many bytes the answer on a socket of our own is given room for.
    pub fn room(&self) -> (r: usize)
        requires
            self.wf(),
        ensures
            r == room_for(self@),
    {
        match self.phase {
            Phase::Connecting { .. } => 16,
            Phase::Asking { .. } => match &self.request {
                Request::Announce(a) => announce_response_buffer_len(self.is_ipv6, a.num_want),
                Request::Scrape(h) => 8 + 12 * h.len(),
            },
        }
    }

    /// Start an exchange, over a connection that is open already or a new one. Where `reconnects`
    /// holds, a request that fails is made once more over a new connection.
    pub fn begin(
        request: Request,
        is_ipv6: bool,
        reconnects: bool,
        conn_id: Option<u64>,
        txn: u32,
    ) -> (r: (Self, Next))
        requires
            request@ matches RequestModel::Scrape(h) ==> h.len() <= 74,
        ensures
            r.0.wf(),
            r.0@ == (ExchangeModel {
                request: request@,
                is_ipv6,
                reconnects,
                phase: match conn_id {
                    Some(conn_id) => Phase::Asking { conn_id, txn, attempt: 0 },
                    None => Phase::Connecting { txn, attempt: 0 },
                },
            }),
            sends(r.1, r.0@),
    {
        let phase = match conn_id {
            Some(conn_id) => Phase::Asking { conn_id, txn, attempt: 0 },
            None => Phase::Connecting { txn, attempt: 0 },
        };
        let x = UdpExchange { request, is_ipv6, reconnects, phase };
        let next = x.send();
        (x, next)
    }

    fn fail(&mut self, error: TrackerError, fresh: u32) -> (r: Turn)
        requires
            old(self).wf(),
        ensures
            final(self).wf(),
            after_failure(old(self)@, error@, fresh, final(self)@, r),
    {
        let asking = match self.phase {
            Phase::Asking { .. } => true,
            Phase::Connecting { .. } => false,
        };
        if asking && self.reconnects {
            self.reconnects = false;
            self.phase = Phase::Connecting { txn: fresh, attempt: 0 };
            let next = self.send();
            return Turn { connected: None, forget: true, next };
        }
        Turn { connected: None, forget: false, next: Next::Done(Err(error)) }
    }

    /// No answer came in time. `fresh` is the transaction id that a new connection would use.
    pub fn on_silence(&mut self, fresh: u32) -> (r: Turn)
        requires
            old(self).wf(),
        ensures
            final(self).wf(),
            after_silence(old(self)@, fresh, final(self)@, r),
    {
        let attempt: u32 = match self.phase {
            Phase::Connecting { attempt, .. } => attempt,
            Phase::Asking { attempt, .. } => attempt,
        };
        if attempt + 1 >= RETRANSMIT_ATTEMPTS {
            return self.fail(TrackerError::Timeout, fresh);
        }
        self.phase = match self.phase {
            Phase::Connecting { txn, attempt } => Phase::Connecting { txn, attempt: attempt + 1 },
            Phase::Asking { conn_id, txn, attempt } => Phase::Asking {
                conn_id,
                txn,
                attempt: attempt + 1,
            },
        };
        let next = self.send();
        Turn { connected: None, forget: false, next }
    }

    /// A datagram came. `fresh` is the transaction id that whatever is sent next would use.
    pub fn on_datagram(&mut self, buf: &[u8], from_v6: bool, fresh: u32) -> (r: Turn)
        requires
            old(self).wf(),
        ensures
            final(self).wf(),
            after_datagram(old(self)@, buf@, from_v6, fresh, final(self)@, r),
    {
        match self.phase {
            Phase::Connecting { txn, .. } => match judge_connect(buf, txn) {
                Verdict::Ignore => self.on_silence(fresh),
                Verdict::Rejected(message) => self.fail(TrackerError::Rejected(message), fresh),
                Verdict::Answer(id) => {
                    self.phase = Phase::Asking { conn_id: id, txn: fresh, attempt: 0 };
                    let next = self.send();
                    Turn { connected: Some(id), forget: false, next }
                },
            },
            Phase::Asking { txn, .. } => {
                let v6 = self.is_ipv6 || from_v6;
                match &self.request {
                    Request::Announce(_) => match judge_announce(buf, txn, v6) {
                        Verdict::Ignore => self.on_silence(fresh),
                        Verdict::Rejected(message) => self.fail(
                            TrackerError::Rejected(message),
                            fresh,
                        ),
                        Verdict::Answer(a) => Turn {
                            connected: None,
                            forget: false,
                            next: Next::Done(Ok(Answer::Announce(a))),
                        },
                    },
                    Request::Scrape(h) => match judge_scrape(buf, txn, h.len()) {
                        Verdict::Ignore => self.on_silence(fresh),
                        Verdict::Rejected(message) => self.fail(
                            TrackerError::Rejected(message),
                            fresh,
                        ),
                        Verdict::Answer(v) => Turn {
                            connected: None,
                            forget: false,
                            next: Next::Done(Ok(Answer::Scrape(v))),
                        },
                    },
                }
            },
        }
    }
}

/// How much an exchange can still send: four datagrams in each phase, and once more from the
/// start where it may connect again.
pub open spec fn budget(m: ExchangeModel) -> int {
    let left = RETRANSMIT_ATTEMPTS - attempt_of(m.phase);
    match m.phase {
        Phase::Connecting { .. } => left + 4 + (if m.reconnects {
            8int
        } else {
            0int
        }),
        Phase::Asking { .. } => left + (if m.reconnects {
            8int
        } else {
            0int
        }),
    }
}

/// Every datagram that is sent uses up a part of what an exchange may send, so that it ends.
pub proof fn exchanges_end(
    m: ExchangeModel,
    buf: Seq<u8>,
    from_v6: bool,
    fresh: u32,
    after: ExchangeModel,
    t: Turn,
)
    requires
        attempt_of(m.phase) < RETRANSMIT_ATTEMPTS,
        after_datagram(m, buf, from_v6, fresh, after, t) || after_silence(m, fresh, after, t),
        t.next is Send,
    ensures
        0 < budget(after) < budget(m) <= 16,
{
}

proof fn lemma_pushed_item<T>(s: Seq<T>, last: T, x: T)
    ensures
        s.push(last).contains(x) <==> s.contains(x) || x == last,
{
    let t = s.push(last);
    assert(t[s.len() as int] == last);
    if s.contains(x) {
        let i = choose|i: int| 0 <= i < s.len() && s[i] == x;
        assert(t[i] == x);
    }
    if t.contains(x) {
        let i = choose|i: int| 0 <= i < t.len() && t[i] == x;
        if i < s.len() {
            assert(s[i] == x);
        }
    }
}

/// A connection is remembered for less than a minute, and no other connection is lost when one is
/// forgotten.
pub proof fn which_connections_are_remembered(
    s: Seq<CachedConnection>,
    key: ConnectionCacheKey,
    now: u64,
    x: CachedConnection,
)
    ensures
        still_good(s, now).contains(x) <==> s.contains(x) && now - x.created < 60_000,
        without_key(s, key).contains(x) <==> s.contains(x) && x.key != key,
    decreases s.len(),
{
    if s.len() > 0 {
        let front = s.drop_last();
        which_connections_are_remembered(front, key, now, x);
        assert(front.push(s.last()) =~= s);
        lemma_pushed_item(front, s.last(), x);
        lemma_pushed_item(still_good(front, now), s.last(), x);
        lemma_pushed_item(without_key(front, key), s.last(), x);
    }
}

/// What is sent first: the question itself where a connection is open, and otherwise the request
/// for one. The question carries the number of the connection, and both carry the transaction.
pub proof fn what_is_sent_in_a_phase(m: ExchangeModel, next: Next)
    requires
        sends(next, m),
    ensures
        next matches Next::Send { bytes, wait } && {
            &&& m.phase matches Phase::Connecting { txn, .. } ==> bytes@.len() == 16 && of_be64(
                bytes@,
            ) == 0x41727101980 && of_be32(bytes@.skip(8)) == 0 && of_be32(bytes@.skip(12)) == txn
            &&& m.phase matches Phase::Asking { conn_id, txn, .. } ==> of_be64(bytes@) == conn_id
                && of_be32(bytes@.skip(12)) == txn && (m.request is Announce ==> of_be32(
                bytes@.skip(8),
            ) == 1) && (m.request is Scrape ==> of_be32(bytes@.skip(8)) == 2)
        },
{
    match m.phase {
        Phase::Connecting { txn, .. } => how_a_connection_is_asked_for(txn),
        Phase::Asking { conn_id, txn, .. } => match m.request {
            RequestModel::Announce(a) => how_an_announcement_is_written(conn_id, txn, a),
            RequestModel::Scrape(h) => how_counts_are_asked_for(conn_id, txn, h, 0),
        },
    }
}

/// A datagram that is not answered is sent again as it was, four times in all. After that a
/// question over a connection that was remembered is asked once more over a new connection, and
/// anything else has failed.
pub proof fn what_silence_leads_to(m: ExchangeModel, fresh: u32, after: ExchangeModel, t: Turn)
    requires
        after_silence(m, fresh, after, t),
    ensures
        t.connected is None,
        after.request == m.request && after.is_ipv6 == m.is_ipv6,
        attempt_of(m.phase) < 3 ==> {
            &&& t.next matches Next::Send { bytes, .. } && bytes@ == datagram_of(
                m.request,
                m.phase,
            )
            &&& attempt_of(after.phase) == attempt_of(m.phase) + 1
            &&& after.reconnects == m.reconnects
            &&& !t.forget
        },
        attempt_of(m.phase) >= 3 && m.phase is Asking && m.reconnects ==> {
            &&& t.forget
            &&& !after.reconnects
            &&& t.next matches Next::Send { bytes, .. } && bytes@ == connect_bytes(fresh)
            &&& after.phase == Phase::Connecting { txn: fresh, attempt: 0 }
        },
        attempt_of(m.phase) >= 3 && !(m.phase is Asking && m.reconnects) ==> {
            &&& !t.forget
            &&& t.next matches Next::Done(Err(e)) && e@ is Timeout
        },
{
}

/// What a datagram leads to while a connection is asked for: with the number of one, the question
/// is asked over it at once, and it is remembered; with a refusal, the exchange has failed; with
/// anything else, it goes on as if nothing had come.
pub proof fn what_comes_of_a_connection(
    m: ExchangeModel,
    b: Seq<u8>,
    from_v6: bool,
    fresh: u32,
    after: ExchangeModel,
    t: Turn,
)
    requires
        m.phase is Connecting,
        after_datagram(m, b, from_v6, fresh, after, t),
    ensures
        m.phase matches Phase::Connecting { txn, .. } && {
            let opens = b.len() == 16 && of_be32(b) == 0 && of_be32(b.skip(4)) == txn;
            let refuses = b.len() >= 8 && of_be32(b) == 3;
            &&& opens ==> {
                &&& t.connected == Some(of_be64(b.skip(8)))
                &&& t.next matches Next::Send { bytes, .. } && of_be64(bytes@) == of_be64(b.skip(8))
                    && of_be32(bytes@.skip(12)) == fresh
                &&& after.request == m.request && after.is_ipv6 == m.is_ipv6 && after.reconnects
                    == m.reconnects
                &&& !t.forget
            }
            &&& refuses ==> t.connected is None && !t.forget && (t.next matches Next::Done(Err(e))
                && e@ == TrackerFault::Rejected(lossy_text(b.skip(8))))
            &&& !opens && !refuses ==> after_silence(m, fresh, after, t)
        },
{
    let txn = m.phase->Connecting_txn;
    when_a_connection_is_open(b, txn);
    if t.next is Send && t.connected is Some {
        what_is_sent_in_a_phase(after, t.next);
    }
}

/// What a datagram leads to while an answer is waited for: an answer with our transaction ends the
/// exchange with what it says; a refusal ends it, or has the question asked once more over a new
/// connection; anything else is as if nothing had come.
pub proof fn what_comes_of_a_question(
    m: ExchangeModel,
    b: Seq<u8>,
    from_v6: bool,
    fresh: u32,
    after: ExchangeModel,
    t: Turn,
)
    requires
        m.phase is Asking,
        after_datagram(m, b, from_v6, fresh, after, t),
    ensures
        m.phase matches Phase::Asking { txn, .. } && {
            let v6 = m.is_ipv6 || from_v6;
            let refuses = b.len() >= 8 && of_be32(b) == 3 && (m.request is Announce || of_be32(
                b.skip(4),
            ) == txn);
            &&& t.connected is None
            &&& m.request is Announce && answers_announce(b, txn, v6) ==> (t.next matches Next::Done(
                Ok(Answer::Announce(a)),
            ) && says(a, b, v6))
            &&& m.request matches RequestModel::Scrape(h) ==> b.len() == 8 + 12 * h.len()
                && of_be32(b) == 2 && of_be32(b.skip(4)) == txn ==> (t.next matches Next::Done(
                Ok(Answer::Scrape(v)),
            ) && v@ == counts_in(b.skip(8), h.len()))
            &&& refuses && !m.reconnects ==> !t.forget && (t.next matches Next::Done(Err(e)) && e@
                == TrackerFault::Rejected(lossy_text(b.skip(8))))
            &&& refuses && m.reconnects ==> t.forget && (t.next matches Next::Send { bytes, .. }
                && bytes@ == connect_bytes(fresh))
            &&& t.next matches Next::Done(Ok(_)) ==> of_be32(b.skip(4)) == txn && of_be32(b) != 3
        },
{
}

} // verus!
