//! The visibility-timeout delivery queue: a named, ordered collection of
//! pending messages and a parallel collection of in-flight
//! (dispatched-but-unacknowledged) messages. Dispatching moves messages from
//! the head of the pending queue into the in-flight collection; a sweep
//! removes acknowledged entries, redelivers expired ones until their attempt
//! budget runs out, and drops them after that.
//!
//! Timestamps are microseconds since the Unix epoch, read once per operation
//! from the system clock; every state change is specified as a pure function
//! of the queue's previous state and that timestamp.

use vstd::prelude::*;

verus! {

/// How many delivery attempts a message is allowed before an expiring sweep
/// drops it for good.
pub const MAX_ATTEMPT: u8 = 3;

/// A unit of queued work.
#[derive(Debug)]
pub struct Message {
    pub body: String,
    pub queue_url: String,
    pub id: String,
    pub attempt: u8,
}

/// The mathematical value of a [`Message`].
pub struct MessageView {
    pub body: Seq<char>,
    pub queue_url: Seq<char>,
    pub id: Seq<char>,
    pub attempt: u8,
}

impl View for Message {
    type V = MessageView;

    open spec fn view(&self) -> MessageView {
        MessageView {
            body: self.body@,
            queue_url: self.queue_url@,
            id: self.id@,
            attempt: self.attempt,
        }
    }
}

impl DeepView for Message {
    type V = MessageView;

    open spec fn deep_view(&self) -> MessageView {
        self.view()
    }
}

impl Clone for Message {
    fn clone(&self) -> (r: Self)
        ensures
            r@ == self@,
    {
        Message {
            body: self.body.clone(),
            queue_url: self.queue_url.clone(),
            id: self.id.clone(),
            attempt: self.attempt,
        }
    }
}

/// The attempt count a fresh message starts with.
pub fn default_attempt() -> (r: u8)
    ensures
        r == 1,
{
    1
}

/// Relies on uuid's `Uuid::new_v4` and its `Display` form: a freshly drawn
/// random identifier, written as the 36-character hyphenated form. Nothing
/// relates two calls: each draw is random.
#[verifier::external_body]
pub fn default_message_id() -> (r: String)
    ensures
        r@.len() == 36,
{
    uuid::Uuid::new_v4().to_string()
}

/// Relies on chrono's `Utc::now`: the system clock read as microseconds
/// since the Unix epoch. Nothing is promised of the value: the clock may
/// move arbitrarily between calls. (chrono panics if the system clock reads
/// before the epoch.)
#[verifier::external_body]
fn current_timestamp_micros() -> i64 {
    chrono::Utc::now().timestamp_micros()
}

/// A dispatched message awaiting acknowledgment, with the dispatch time and
/// the acknowledged flag.
#[derive(Debug)]
pub struct InflightMessage {
    pub msg: Message,
    pub complete: bool,
    pub created_at: i64,
}

/// The mathematical value of an [`InflightMessage`].
pub struct InflightView {
    pub msg: MessageView,
    pub complete: bool,
    pub created_at: i64,
}

impl View for InflightMessage {
    type V = InflightView;

    open spec fn view(&self) -> InflightView {
        InflightView { msg: self.msg@, complete: self.complete, created_at: self.created_at }
    }
}

impl DeepView for InflightMessage {
    type V = InflightView;

    open spec fn deep_view(&self) -> InflightView {
        self.view()
    }
}

impl Clone for InflightMessage {
    fn clone(&self) -> (r: Self)
        ensures
            r@ == self@,
    {
        InflightMessage {
            msg: self.msg.clone(),
            complete: self.complete,
            created_at: self.created_at,
        }
    }
}

/// An in-flight entry has expired at `now` when its dispatch time plus the
/// visibility timeout lies strictly in the past.
pub open spec fn spec_expired(m: InflightView, expiration_ms: i64, now_us: i64) -> bool {
    m.created_at + expiration_ms * 1000 < now_us
}

/// The same message, one attempt later.
pub open spec fn bump_attempt(m: MessageView) -> MessageView {
    MessageView { attempt: (m.attempt + 1) as u8, ..m }
}

/// A fresh in-flight entry for a message dispatched at `now`.
pub open spec fn dispatched_at(m: MessageView, now_us: i64) -> InflightView {
    InflightView { msg: m, complete: false, created_at: now_us }
}

/// What one sweep at time `now` leaves of the pending and in-flight
/// collections. In-flight entries are resolved from the head: acknowledged
/// ones are removed; expired ones are removed and, while their attempt count
/// is under the budget, redelivered at the head of pending with the count
/// raised, dropped otherwise; the first entry that is neither acknowledged
/// nor expired stops the sweep, since entries further back were dispatched
/// later and expire later.
pub open spec fn sweep_spec(
    pending: Seq<MessageView>,
    inflight: Seq<InflightView>,
    expiration_ms: i64,
    now_us: i64,
) -> (Seq<MessageView>, Seq<InflightView>)
    decreases inflight.len(),
{
    if inflight.len() == 0 {
        (pending, inflight)
    } else {
        let h = inflight[0];
        if h.complete {
            sweep_spec(pending, inflight.drop_first(), expiration_ms, now_us)
        } else if spec_expired(h, expiration_ms, now_us) {
            if h.msg.attempt < MAX_ATTEMPT {
                sweep_spec(
                    seq![bump_attempt(h.msg)] + pending,
                    inflight.drop_first(),
                    expiration_ms,
                    now_us,
                )
            } else {
                sweep_spec(pending, inflight.drop_first(), expiration_ms, now_us)
            }
        } else {
            (pending, inflight)
        }
    }
}

/// What one dispatch of up to `cnt` messages at time `now` returns and
/// leaves: after a sweep, the first `cnt` pending messages (or all of them,
/// if fewer) are returned in order, removed from pending, and appended to
/// the in-flight collection as fresh entries dispatched at `now`.
pub open spec fn pop_spec(
    pending: Seq<MessageView>,
    inflight: Seq<InflightView>,
    expiration_ms: i64,
    now_us: i64,
    cnt: int,
) -> (Seq<MessageView>, Seq<MessageView>, Seq<InflightView>) {
    let (p, f) = sweep_spec(pending, inflight, expiration_ms, now_us);
    let k = if cnt <= p.len() {
        cnt
    } else {
        p.len() as int
    };
    (p.take(k), p.skip(k), f + p.take(k).map_values(|m: MessageView| dispatched_at(m, now_us)))
}

/// The position of the first in-flight entry carrying `id`, scanning from
/// `i`.
pub open spec fn spec_find_id(f: Seq<InflightView>, id: Seq<char>, i: int) -> Option<int>
    decreases f.len() - i,
{
    if i >= f.len() {
        None
    } else if f[i].msg.id == id {
        Some(i)
    } else {
        spec_find_id(f, id, i + 1)
    }
}

pub proof fn lemma_find_id_props(f: Seq<InflightView>, id: Seq<char>, i: int)
    ensures
        match spec_find_id(f, id, i) {
            Some(p) => i <= p < f.len() && f[p].msg.id == id && (forall|j: int|
                i <= j < p ==> f[j].msg.id != id),
            None => forall|j: int| i <= j < f.len() ==> f[j].msg.id != id,
        },
    decreases f.len() - i,
{
    if i < f.len() && f[i].msg.id != id {
        lemma_find_id_props(f, id, i + 1);
    }
}

/// A named delivery queue: ordered pending messages and in-flight entries in
/// dispatch order, oldest first.
pub struct Lifo {
    pub name: String,
    pub in_flight_expiration_ms: i64,
    pub queue: std::collections::VecDeque<Message>,
    pub in_flight: std::collections::VecDeque<InflightMessage>,
}

impl Lifo {
    /// The pending messages, oldest first.
    pub open spec fn pending_view(self) -> Seq<MessageView> {
        self.queue.deep_view()
    }

    /// The in-flight entries, in dispatch order.
    pub open spec fn inflight_view(self) -> Seq<InflightView> {
        self.in_flight.deep_view()
    }

    /// A queue with the default visibility timeout of one second.
    pub fn create(name: String) -> (r: Lifo)
        ensures
            r.name@ == name@,
            r.in_flight_expiration_ms == 1000,
            r.pending_view() == Seq::<MessageView>::empty(),
            r.inflight_view() == Seq::<InflightView>::empty(),
    {
        let r = Lifo {
            name,
            in_flight_expiration_ms: 1000,
            queue: std::collections::VecDeque::new(),
            in_flight: std::collections::VecDeque::new(),
        };
        proof {
            assert(r.pending_view() =~= Seq::<MessageView>::empty());
            assert(r.inflight_view() =~= Seq::<InflightView>::empty());
        }
        r
    }

    /// A queue with the visibility timeout given in milliseconds.
    pub fn create_with_expiration(name: String, in_flight_expiration_ms: i64) -> (r: Lifo)
        ensures
            r.name@ == name@,
            r.in_flight_expiration_ms == in_flight_expiration_ms,
            r.pending_view() == Seq::<MessageView>::empty(),
            r.inflight_view() == Seq::<InflightView>::empty(),
    {
        let r = Lifo {
            name,
            in_flight_expiration_ms,
            queue: std::collections::VecDeque::new(),
            in_flight: std::collections::VecDeque::new(),
        };
        proof {
            assert(r.pending_view() =~= Seq::<MessageView>::empty());
            assert(r.inflight_view() =~= Seq::<InflightView>::empty());
        }
        r
    }

    /// Whether an in-flight entry has expired at `now_us` under this queue's
    /// visibility timeout.
    pub fn message_expired(&self, msg: &InflightMessage, now_us: i64) -> (r: bool)
        ensures
            r == spec_expired(msg@, self.in_flight_expiration_ms, now_us),
    {
        let deadline: i128 = msg.created_at as i128 + self.in_flight_expiration_ms as i128 * 1000;
        deadline < now_us as i128
    }

    /// Appends a message at the tail of the pending queue. Never fails.
    pub fn add(&mut self, msg: Message)
        ensures
            final(self).name == old(self).name,
            final(self).in_flight_expiration_ms == old(self).in_flight_expiration_ms,
            final(self).pending_view() == old(self).pending_view().push(msg@),
            final(self).inflight_view() == old(self).inflight_view(),
    {
        let ghost m = msg@;
        self.queue.push_back(msg);
        proof {
            assert(self.pending_view() =~= old(self).pending_view().push(m));
        }
    }

    /// Copies of up to `cnt` in-flight entries from the head, in dispatch
    /// order, without changing any state.
    pub fn show_in_flight(&self, cnt: usize) -> (r: Vec<InflightMessage>)
        ensures
            r.deep_view() == self.inflight_view().take(
                if cnt <= self.inflight_view().len() {
                    cnt as int
                } else {
                    self.inflight_view().len() as int
                },
            ),
    {
        let q_size = if cnt < self.in_flight.len() {
            cnt
        } else {
            self.in_flight.len()
        };
        let mut v: Vec<InflightMessage> = Vec::new();
        let mut i: usize = 0;
        while i < q_size
            invariant
                q_size <= self.in_flight@.len(),
                i <= q_size,
                v.deep_view() =~= self.inflight_view().take(i as int),
            decreases q_size - i,
        {
            let ghost pre = v.deep_view();
            v.push(self.in_flight[i].clone());
            proof {
                assert(v.deep_view() =~= pre.push(self.inflight_view()[i as int]));
                assert(self.inflight_view().take(i as int + 1) =~= self.inflight_view().take(
                    i as int,
                ).push(self.inflight_view()[i as int]));
            }
            i += 1;
        }
        proof {
            assert(v.deep_view() =~= self.inflight_view().take(q_size as int));
        }
        v
    }

    /// Marks the first in-flight entry carrying `id` as acknowledged. Does
    /// nothing, and raises no error, when no entry carries it: a duplicate
    /// or late acknowledgment is routine, not exceptional.
    pub fn complete(&mut self, id: &String)
        ensures
            final(self).name == old(self).name,
            final(self).in_flight_expiration_ms == old(self).in_flight_expiration_ms,
            final(self).pending_view() == old(self).pending_view(),
            match spec_find_id(old(self).inflight_view(), id@, 0) {
                None => final(self).inflight_view() == old(self).inflight_view(),
                Some(i) => final(self).inflight_view() == old(self).inflight_view().update(
                    i,
                    InflightView { complete: true, ..old(self).inflight_view()[i] },
                ),
            },
    {
        proof {
            lemma_find_id_props(old(self).inflight_view(), id@, 0);
        }
        let n = self.in_flight.len();
        let mut i: usize = 0;
        while i < n
            invariant
                *self == *old(self),
                n == self.in_flight@.len(),
                i <= n,
                forall|j: int| 0 <= j < i ==> old(self).inflight_view()[j].msg.id != id@,
            decreases n - i,
        {
            if self.in_flight[i].msg.id == *id {
                proof {
                    lemma_find_id_props(old(self).inflight_view(), id@, 0);
                    let f = old(self).inflight_view();
                    assert(f[i as int].msg.id == id@);
                    let res = spec_find_id(f, id@, 0);
                    if res is None {
                        assert(f[i as int].msg.id != id@);
                    } else {
                        let p = res->0;
                        if p < i as int {
                            assert(f[p].msg.id != id@);
                        } else if p > i as int {
                            assert(f[i as int].msg.id != id@);
                        }
                    }
                    assert(spec_find_id(old(self).inflight_view(), id@, 0) == Some(i as int));
                }
                let removed = self.in_flight.remove(i);
                let mut entry = match removed {
                    Some(e) => e,
                    None => {
                        proof {
                            assert(false);
                        }
                        return ;
                    },
                };
                entry.complete = true;
                self.in_flight.insert(i, entry);
                proof {
                    assert(self.inflight_view() =~= old(self).inflight_view().update(
                        i as int,
                        InflightView { complete: true, ..old(self).inflight_view()[i as int] },
                    ));
                    assert(self.pending_view() =~= old(self).pending_view());
                }
                return ;
            }
            i += 1;
        }
        proof {
            assert(spec_find_id(old(self).inflight_view(), id@, 0) is None);
        }
    }

    /// Reconciles the in-flight collection at time `now_us`: resolves
    /// acknowledged and expired entries from the head, redelivering expired
    /// ones at the head of pending while their attempt budget lasts
    /// (retried messages take priority over the backlog by design), and
    /// stops at the first entry still legitimately in flight.
    pub fn sweep_in_flight_at(&mut self, now_us: i64)
        ensures
            final(self).name == old(self).name,
            final(self).in_flight_expiration_ms == old(self).in_flight_expiration_ms,
            (final(self).pending_view(), final(self).inflight_view()) == sweep_spec(
                old(self).pending_view(),
                old(self).inflight_view(),
                old(self).in_flight_expiration_ms,
                now_us,
            ),
    {
        let ghost goal = sweep_spec(
            old(self).pending_view(),
            old(self).inflight_view(),
            old(self).in_flight_expiration_ms,
            now_us,
        );
        let mut done = false;
        while !done && self.in_flight.len() > 0
            invariant
                self.name == old(self).name,
                self.in_flight_expiration_ms == old(self).in_flight_expiration_ms,
                sweep_spec(
                    self.pending_view(),
                    self.inflight_view(),
                    self.in_flight_expiration_ms,
                    now_us,
                ) == goal,
                done ==> sweep_spec(
                    self.pending_view(),
                    self.inflight_view(),
                    self.in_flight_expiration_ms,
                    now_us,
                ) == (self.pending_view(), self.inflight_view()),
            decreases self.in_flight@.len() + if done {
                0int
            } else {
                1int
            },
        {
            let ghost p0 = self.pending_view();
            let ghost f0 = self.inflight_view();
            let first_complete = self.in_flight[0].complete;
            let first_expired = self.message_expired(&self.in_flight[0], now_us);
            if first_complete {
                let _ = self.in_flight.pop_front();
                proof {
                    assert(self.inflight_view() =~= f0.drop_first());
                    assert(self.pending_view() == p0);
                }
            } else if first_expired {
                let popped = self.in_flight.pop_front();
                let mut inflight_msg = match popped {
                    Some(e) => e,
                    None => {
                        proof {
                            assert(false);
                        }
                        return ;
                    },
                };
                proof {
                    assert(self.inflight_view() =~= f0.drop_first());
                    assert(inflight_msg@ == f0[0]);
                }
                if inflight_msg.msg.attempt < MAX_ATTEMPT {
                    inflight_msg.msg.attempt = inflight_msg.msg.attempt + 1;
                    proof {
                        assert(inflight_msg.msg@ == bump_attempt(f0[0].msg));
                    }
                    self.queue.push_front(inflight_msg.msg);
                    proof {
                        assert(self.pending_view() =~= seq![bump_attempt(f0[0].msg)] + p0);
                    }
                }
            } else {
                done = true;
            }
        }
        proof {
            if !done {
                assert(self.inflight_view().len() == 0);
            }
        }
    }

    /// Reconciles the in-flight collection against the clock now. The state
    /// change is that of [`Lifo::sweep_in_flight_at`] for the instant the
    /// clock was read.
    pub fn sweep_in_flight(&mut self)
        ensures
            final(self).name == old(self).name,
            final(self).in_flight_expiration_ms == old(self).in_flight_expiration_ms,
            exists|t: i64|
                (final(self).pending_view(), final(self).inflight_view()) == sweep_spec(
                    old(self).pending_view(),
                    old(self).inflight_view(),
                    old(self).in_flight_expiration_ms,
                    t,
                ),
    {
        let now = current_timestamp_micros();
        self.sweep_in_flight_at(now);
        proof {
            assert((self.pending_view(), self.inflight_view()) == sweep_spec(
                old(self).pending_view(),
                old(self).inflight_view(),
                old(self).in_flight_expiration_ms,
                now,
            ));
        }
    }

    /// Dispatches up to `cnt` messages at time `now_us`: sweeps first, then
    /// moves messages from the head of pending into fresh in-flight entries
    /// and returns copies of them in dispatch order. This is the only path
    /// by which a message becomes in-flight.
    pub fn pop_at(&mut self, cnt: usize, now_us: i64) -> (r: Vec<Message>)
        ensures
            final(self).name == old(self).name,
            final(self).in_flight_expiration_ms == old(self).in_flight_expiration_ms,
            (r.deep_view(), final(self).pending_view(), final(self).inflight_view()) == pop_spec(
                old(self).pending_view(),
                old(self).inflight_view(),
                old(self).in_flight_expiration_ms,
                now_us,
                cnt as int,
            ),
    {
        self.sweep_in_flight_at(now_us);
        let ghost p = self.pending_view();
        let ghost f = self.inflight_view();
        let ghost k = if cnt as int <= p.len() {
            cnt as int
        } else {
            p.len() as int
        };
        let mut deque_cnt = cnt;
        let mut stop = false;
        let mut v: Vec<Message> = Vec::new();
        while deque_cnt > 0 && !stop
            invariant
                self.name == old(self).name,
                self.in_flight_expiration_ms == old(self).in_flight_expiration_ms,
                deque_cnt <= cnt,
                k == if cnt as int <= p.len() {
                    cnt as int
                } else {
                    p.len() as int
                },
                v@.len() == cnt - deque_cnt,
                v@.len() <= k,
                v.deep_view() =~= p.take(v@.len() as int),
                self.pending_view() =~= p.skip(v@.len() as int),
                self.inflight_view() =~= f + p.take(v@.len() as int).map_values(
                    |m: MessageView| dispatched_at(m, now_us),
                ),
                stop ==> v@.len() == k,
            decreases deque_cnt + if stop {
                0int
            } else {
                1int
            },
        {
            let ghost i = v@.len() as int;
            let ghost q_before = self.pending_view();
            let wrapped_msg = self.queue.pop_front();
            match wrapped_msg {
                None => {
                    proof {
                        assert(q_before.len() == 0);
                        assert(p.len() == i);
                        assert(v@.len() == k);
                    }
                    stop = true;
                },
                Some(msg) => {
                    proof {
                        assert(q_before.len() > 0);
                        assert(i < p.len());
                        assert(i < cnt);
                        assert(i < k);
                        assert(msg.deep_view() == q_before[0]);
                        assert(q_before[0] == p.skip(i)[0]);
                        assert(msg@ == p[i]);
                        assert(self.pending_view() =~= q_before.drop_first());
                        assert(self.pending_view() =~= p.skip(i + 1));
                    }
                    let ghost v_before = v.deep_view();
                    v.push(msg.clone());
                    proof {
                        assert(v.deep_view() =~= v_before.push(p[i]));
                        assert(p.take(i + 1) =~= p.take(i).push(p[i]));
                        assert(v.deep_view() =~= p.take(i + 1));
                    }
                    let ghost f_before = self.inflight_view();
                    let new_msg = InflightMessage { msg, complete: false, created_at: now_us };
                    self.in_flight.push_back(new_msg);
                    proof {
                        assert(self.inflight_view() =~= f_before.push(dispatched_at(p[i], now_us)));
                        assert(p.take(i + 1).map_values(|m: MessageView| dispatched_at(m, now_us))
                            =~= p.take(i).map_values(|m: MessageView| dispatched_at(m, now_us)).push(
                            dispatched_at(p[i], now_us),
                        ));
                        assert(self.inflight_view() =~= f + p.take(i + 1).map_values(
                            |m: MessageView| dispatched_at(m, now_us),
                        ));
                    }
                    deque_cnt = deque_cnt - 1;
                },
            }
        }
        proof {
            assert(v@.len() == k);
            assert(v.deep_view() =~= p.take(k));
            assert(self.pending_view() =~= p.skip(k));
            assert(self.inflight_view() =~= f + p.take(k).map_values(
                |m: MessageView| dispatched_at(m, now_us),
            ));
        }
        v
    }

    /// Dispatches up to `cnt` messages against the clock now. The returned
    /// messages and the state change are those of [`Lifo::pop_at`] for the
    /// instant the clock was read.
    pub fn pop(&mut self, cnt: usize) -> (r: Vec<Message>)
        ensures
            final(self).name == old(self).name,
            final(self).in_flight_expiration_ms == old(self).in_flight_expiration_ms,
            exists|t: i64|
                (r.deep_view(), final(self).pending_view(), final(self).inflight_view())
                    == pop_spec(
                    old(self).pending_view(),
                    old(self).inflight_view(),
                    old(self).in_flight_expiration_ms,
                    t,
                    cnt as int,
                ),
    {
        let now = current_timestamp_micros();
        let r = self.pop_at(cnt, now);
        proof {
            assert((r.deep_view(), self.pending_view(), self.inflight_view()) == pop_spec(
                old(self).pending_view(),
                old(self).inflight_view(),
                old(self).in_flight_expiration_ms,
                now,
                cnt as int,
            ));
        }
        r
    }
}


/// Some pending message carries `id`.
pub open spec fn has_id(ms: Seq<MessageView>, id: Seq<char>) -> bool {
    exists|i: int| 0 <= i < ms.len() && (#[trigger] ms[i]).id == id
}

/// Some in-flight entry carries `id`.
pub open spec fn inflight_has_id(f: Seq<InflightView>, id: Seq<char>) -> bool {
    exists|i: int| 0 <= i < f.len() && (#[trigger] f[i]).msg.id == id
}

/// Every message in the queue carries its own identifier: no two pending
/// messages, no two in-flight entries, and no pending/in-flight pair share
/// one. Every message then stands in exactly one place.
pub open spec fn distinct_ids(p: Seq<MessageView>, f: Seq<InflightView>) -> bool {
    &&& forall|i: int, j: int| 0 <= i < j < p.len() ==> (#[trigger] p[i]).id != (#[trigger] p[j]).id
    &&& forall|i: int, j: int|
        0 <= i < p.len() && 0 <= j < f.len() ==> (#[trigger] p[i]).id != (#[trigger] f[j]).msg.id
    &&& forall|i: int, j: int|
        0 <= i < j < f.len() ==> (#[trigger] f[i]).msg.id != (#[trigger] f[j]).msg.id
}

/// How many in-flight entries a sweep at `t` resolves from the head:
/// acknowledged or expired entries, up to the first that is neither.
pub open spec fn sweep_resolved(f: Seq<InflightView>, expiration_ms: i64, now_us: i64) -> int
    decreases f.len(),
{
    if f.len() == 0 {
        0
    } else if f[0].complete || spec_expired(f[0], expiration_ms, now_us) {
        1 + sweep_resolved(f.drop_first(), expiration_ms, now_us)
    } else {
        0
    }
}

/// A sweep leaves in flight exactly the entries past the resolved prefix.
pub proof fn lemma_sweep_inflight_suffix(
    p: Seq<MessageView>,
    f: Seq<InflightView>,
    expiration_ms: i64,
    now_us: i64,
)
    ensures
        0 <= sweep_resolved(f, expiration_ms, now_us) <= f.len(),
        sweep_spec(p, f, expiration_ms, now_us).1 == f.skip(
            sweep_resolved(f, expiration_ms, now_us),
        ),
    decreases f.len(),
{
    if f.len() == 0 {
        assert(f.skip(0) =~= f);
    } else if f[0].complete || spec_expired(f[0], expiration_ms, now_us) {
        let rest = f.drop_first();
        let k = sweep_resolved(rest, expiration_ms, now_us);
        if f[0].complete {
            lemma_sweep_inflight_suffix(p, rest, expiration_ms, now_us);
        } else if f[0].msg.attempt < MAX_ATTEMPT {
            lemma_sweep_inflight_suffix(
                seq![bump_attempt(f[0].msg)] + p,
                rest,
                expiration_ms,
                now_us,
            );
        } else {
            lemma_sweep_inflight_suffix(p, rest, expiration_ms, now_us);
        }
        assert(rest.skip(k) =~= f.skip(k + 1));
    } else {
        assert(f.skip(0) =~= f);
    }
}

/// A message in the pending collection after a sweep was pending before it,
/// or was redelivered from an in-flight entry that was expired and not
/// acknowledged.
pub proof fn lemma_sweep_pending_source(
    p: Seq<MessageView>,
    f: Seq<InflightView>,
    expiration_ms: i64,
    now_us: i64,
    id: Seq<char>,
)
    requires
        has_id(sweep_spec(p, f, expiration_ms, now_us).0, id),
    ensures
        has_id(p, id) || exists|j: int|
            0 <= j < f.len() && (#[trigger] f[j]).msg.id == id && !f[j].complete && spec_expired(
                f[j],
                expiration_ms,
                now_us,
            ),
    decreases f.len(),
{
    if f.len() == 0 {
    } else if f[0].complete {
        lemma_sweep_pending_source(p, f.drop_first(), expiration_ms, now_us, id);
        if !has_id(p, id) {
            let rest = f.drop_first();
            if exists|j: int|
                0 <= j < rest.len() && (#[trigger] rest[j]).msg.id == id && !rest[j].complete
                    && spec_expired(rest[j], expiration_ms, now_us) {
                let j = choose|j: int|
                    0 <= j < rest.len() && (#[trigger] rest[j]).msg.id == id && !rest[j].complete
                        && spec_expired(rest[j], expiration_ms, now_us);
                assert(f[j + 1].msg.id == id && !f[j + 1].complete && spec_expired(
                    f[j + 1],
                    expiration_ms,
                    now_us,
                ));
            }
        }
    } else if spec_expired(f[0], expiration_ms, now_us) {
        let rest = f.drop_first();
        if f[0].msg.attempt < MAX_ATTEMPT {
            lemma_sweep_pending_source(
                seq![bump_attempt(f[0].msg)] + p,
                rest,
                expiration_ms,
                now_us,
                id,
            );
            let p2 = seq![bump_attempt(f[0].msg)] + p;
            if has_id(p2, id) {
                let i = choose|i: int| 0 <= i < p2.len() && (#[trigger] p2[i]).id == id;
                if i == 0 {
                    assert(f[0].msg.id == id && !f[0].complete && spec_expired(
                        f[0],
                        expiration_ms,
                        now_us,
                    ));
                } else {
                    assert(p[i - 1].id == id);
                }
            } else {
                shift_witness(rest, f, expiration_ms, now_us, id);
            }
        } else {
            lemma_sweep_pending_source(p, rest, expiration_ms, now_us, id);
            if !has_id(p, id) {
                shift_witness(rest, f, expiration_ms, now_us, id);
            }
        }
    } else {
    }
}

/// A witness among the later in-flight entries is a witness among all of
/// them, one position on.
proof fn shift_witness(
    rest: Seq<InflightView>,
    f: Seq<InflightView>,
    expiration_ms: i64,
    now_us: i64,
    id: Seq<char>,
)
    requires
        f.len() >= 1,
        rest == f.drop_first(),
        exists|j: int|
            0 <= j < rest.len() && (#[trigger] rest[j]).msg.id == id && !rest[j].complete
                && spec_expired(rest[j], expiration_ms, now_us),
    ensures
        exists|j: int|
            0 <= j < f.len() && (#[trigger] f[j]).msg.id == id && !f[j].complete && spec_expired(
                f[j],
                expiration_ms,
                now_us,
            ),
{
    let j = choose|j: int|
        0 <= j < rest.len() && (#[trigger] rest[j]).msg.id == id && !rest[j].complete
            && spec_expired(rest[j], expiration_ms, now_us);
    assert(f[j + 1].msg.id == id && !f[j + 1].complete && spec_expired(
        f[j + 1],
        expiration_ms,
        now_us,
    ));
}

/// A sweep never duplicates an identifier: messages are only removed or
/// moved between the two collections.
pub proof fn lemma_sweep_distinct(
    p: Seq<MessageView>,
    f: Seq<InflightView>,
    expiration_ms: i64,
    now_us: i64,
)
    requires
        distinct_ids(p, f),
    ensures
        distinct_ids(
            sweep_spec(p, f, expiration_ms, now_us).0,
            sweep_spec(p, f, expiration_ms, now_us).1,
        ),
    decreases f.len(),
{
    if f.len() == 0 {
    } else {
        let rest = f.drop_first();
        if f[0].complete {
            assert(distinct_ids(p, rest));
            lemma_sweep_distinct(p, rest, expiration_ms, now_us);
        } else if spec_expired(f[0], expiration_ms, now_us) {
            if f[0].msg.attempt < MAX_ATTEMPT {
                let p2 = seq![bump_attempt(f[0].msg)] + p;
                assert forall|i: int, j: int| 0 <= i < j < p2.len() implies (#[trigger] p2[i]).id
                    != (#[trigger] p2[j]).id by {
                    if i == 0 {
                        assert(p2[j].id == p[j - 1].id);
                    } else {
                        assert(p2[i].id == p[i - 1].id && p2[j].id == p[j - 1].id);
                    }
                }
                assert forall|i: int, j: int|
                    0 <= i < p2.len() && 0 <= j < rest.len() implies (#[trigger] p2[i]).id
                    != (#[trigger] rest[j]).msg.id by {
                    assert(rest[j].msg.id == f[j + 1].msg.id);
                    if i > 0 {
                        assert(p2[i].id == p[i - 1].id);
                    }
                }
                assert forall|i: int, j: int| 0 <= i < j < rest.len() implies (#[trigger]
                rest[i]).msg.id != (#[trigger] rest[j]).msg.id by {
                    assert(rest[i].msg.id == f[i + 1].msg.id);
                    assert(rest[j].msg.id == f[j + 1].msg.id);
                }
                assert(distinct_ids(p2, rest));
                lemma_sweep_distinct(p2, rest, expiration_ms, now_us);
            } else {
                assert(distinct_ids(p, rest));
                lemma_sweep_distinct(p, rest, expiration_ms, now_us);
            }
        } else {
        }
    }
}


/// A message returned by one dispatch is never returned by a later dispatch
/// while its visibility timeout has not elapsed: it sits in flight, hidden,
/// until a sweep either removes it or returns it to pending. Dispatches are
/// atomic with respect to each other, so two of them take place in some
/// order, and this covers each pair.
pub proof fn lemma_dispatch_exclusive(
    pending: Seq<MessageView>,
    inflight: Seq<InflightView>,
    expiration_ms: i64,
    t1: i64,
    t2: i64,
    cnt1: int,
    cnt2: int,
)
    requires
        distinct_ids(pending, inflight),
        t2 <= t1 + expiration_ms * 1000,
        cnt1 >= 0,
        cnt2 >= 0,
    ensures
        ({
            let (r1, p1, f1) = pop_spec(pending, inflight, expiration_ms, t1, cnt1);
            let (r2, p2, f2) = pop_spec(p1, f1, expiration_ms, t2, cnt2);
            forall|i: int, j: int|
                0 <= i < r1.len() && 0 <= j < r2.len() ==> (#[trigger] r1[i]).id != (
                #[trigger] r2[j]).id
        }),
{
    let (ps, fs) = sweep_spec(pending, inflight, expiration_ms, t1);
    lemma_sweep_distinct(pending, inflight, expiration_ms, t1);
    let (r1, p1, f1) = pop_spec(pending, inflight, expiration_ms, t1, cnt1);
    let k1 = if cnt1 <= ps.len() {
        cnt1
    } else {
        ps.len() as int
    };
    assert(r1 == ps.take(k1) && p1 == ps.skip(k1));
    assert(f1 == fs + ps.take(k1).map_values(|m: MessageView| dispatched_at(m, t1)));
    let (r2, p2, f2) = pop_spec(p1, f1, expiration_ms, t2, cnt2);
    let (ps2, fs2) = sweep_spec(p1, f1, expiration_ms, t2);
    assert(r2 == ps2.take(if cnt2 <= ps2.len() {
        cnt2
    } else {
        ps2.len() as int
    }));
    assert forall|i: int, j: int|
        0 <= i < r1.len() && 0 <= j < r2.len() implies (#[trigger] r1[i]).id != (
    #[trigger] r2[j]).id by {
        let id = r1[i].id;
        assert(r1[i] == ps[i]);
        if r2[j].id == id {
            assert(ps2[j].id == id);
            assert(has_id(ps2, id));
            lemma_sweep_pending_source(p1, f1, expiration_ms, t2, id);
            if has_id(p1, id) {
                let m = choose|m: int| 0 <= m < p1.len() && (#[trigger] p1[m]).id == id;
                assert(p1[m] == ps[k1 + m]);
                assert(ps[i].id == ps[k1 + m].id);
                assert(i < k1 + m);
                assert(false);
            } else {
                let w = choose|w: int|
                    0 <= w < f1.len() && (#[trigger] f1[w]).msg.id == id && !f1[w].complete
                        && spec_expired(f1[w], expiration_ms, t2);
                if w < fs.len() {
                    assert(f1[w] == fs[w]);
                    assert(ps[i].id == fs[w].msg.id);
                    assert(false);
                } else {
                    assert(f1[w] == dispatched_at(ps[w - fs.len()], t1));
                    assert(f1[w].created_at == t1);
                    assert(spec_expired(f1[w], expiration_ms, t2));
                    assert(t1 + expiration_ms * 1000 < t2);
                    assert(false);
                }
            }
        }
    }
}

/// A sweep that finds every in-flight entry unacknowledged and expired, all
/// with the same attempt count, redelivers all of them at the head of
/// pending in reverse dispatch order while the attempt budget lasts, and
/// drops all of them once it is spent.
pub proof fn lemma_sweep_all_expired(
    p: Seq<MessageView>,
    f: Seq<InflightView>,
    expiration_ms: i64,
    now_us: i64,
    a: u8,
)
    requires
        forall|i: int|
            0 <= i < f.len() ==> !(#[trigger] f[i]).complete && spec_expired(
                f[i],
                expiration_ms,
                now_us,
            ) && f[i].msg.attempt == a,
    ensures
        sweep_spec(p, f, expiration_ms, now_us).1.len() == 0,
        a < MAX_ATTEMPT ==> sweep_spec(p, f, expiration_ms, now_us).0 == f.map_values(
            |e: InflightView| bump_attempt(e.msg),
        ).reverse() + p,
        a >= MAX_ATTEMPT ==> sweep_spec(p, f, expiration_ms, now_us).0 == p,
    decreases f.len(),
{
    if f.len() == 0 {
        assert(f.map_values(|e: InflightView| bump_attempt(e.msg)).reverse() + p =~= p);
    } else {
        let rest = f.drop_first();
        assert(forall|i: int|
            0 <= i < rest.len() ==> !(#[trigger] rest[i]).complete && spec_expired(
                rest[i],
                expiration_ms,
                now_us,
            ) && rest[i].msg.attempt == a);
        if a < MAX_ATTEMPT {
            let p2 = seq![bump_attempt(f[0].msg)] + p;
            lemma_sweep_all_expired(p2, rest, expiration_ms, now_us, a);
            assert(f.map_values(|e: InflightView| bump_attempt(e.msg)).reverse() + p
                =~= rest.map_values(|e: InflightView| bump_attempt(e.msg)).reverse() + p2);
        } else {
            lemma_sweep_all_expired(p, rest, expiration_ms, now_us, a);
        }
    }
}

/// One dispatch-all-then-sweep cycle on a queue whose visibility timeout has
/// elapsed by sweep time: every message comes back to pending with its
/// attempt count raised while the budget lasts (so the count of pending
/// messages is preserved), and every message is dropped once the budget is
/// spent, leaving both collections empty.
pub proof fn lemma_zero_timeout_cycle(
    pending: Seq<MessageView>,
    expiration_ms: i64,
    t_pop: i64,
    t_sweep: i64,
    a: u8,
)
    requires
        t_pop + expiration_ms * 1000 < t_sweep,
        forall|i: int| 0 <= i < pending.len() ==> (#[trigger] pending[i]).attempt == a,
    ensures
        ({
            let (r, p1, f1) = pop_spec(
                pending,
                Seq::<InflightView>::empty(),
                expiration_ms,
                t_pop,
                pending.len() as int,
            );
            let (p2, f2) = sweep_spec(p1, f1, expiration_ms, t_sweep);
            &&& r == pending
            &&& p1.len() == 0
            &&& f2.len() == 0
            &&& (a < MAX_ATTEMPT ==> p2 == pending.map_values(
                |m: MessageView| bump_attempt(m),
            ).reverse() && p2.len() == pending.len())
            &&& (a >= MAX_ATTEMPT ==> p2.len() == 0)
        }),
{
    let empty_f = Seq::<InflightView>::empty();
    let (r, p1, f1) = pop_spec(pending, empty_f, expiration_ms, t_pop, pending.len() as int);
    assert(sweep_spec(pending, empty_f, expiration_ms, t_pop) == (pending, empty_f));
    assert(r =~= pending);
    assert(p1 =~= Seq::<MessageView>::empty());
    assert(f1 =~= pending.map_values(|m: MessageView| dispatched_at(m, t_pop)));
    assert forall|i: int|
        0 <= i < f1.len() implies !(#[trigger] f1[i]).complete && spec_expired(
        f1[i],
        expiration_ms,
        t_sweep,
    ) && f1[i].msg.attempt == a by {
        assert(f1[i] == dispatched_at(pending[i], t_pop));
        assert(pending[i].attempt == a);
    }
    lemma_sweep_all_expired(p1, f1, expiration_ms, t_sweep, a);
    if a < MAX_ATTEMPT {
        let bumped = f1.map_values(|e: InflightView| bump_attempt(e.msg));
        assert(bumped =~= pending.map_values(|m: MessageView| bump_attempt(m)));
        assert(bumped.reverse() + p1 =~= pending.map_values(
            |m: MessageView| bump_attempt(m),
        ).reverse());
    }
}

/// The resolved prefix of a sweep lies within the in-flight collection.
proof fn lemma_sweep_resolved_bounds(f: Seq<InflightView>, expiration_ms: i64, now_us: i64)
    ensures
        0 <= sweep_resolved(f, expiration_ms, now_us) <= f.len(),
    decreases f.len(),
{
    if f.len() > 0 {
        lemma_sweep_resolved_bounds(f.drop_first(), expiration_ms, now_us);
    }
}

/// How far a sweep resolves: at least past any prefix of entries that are
/// each acknowledged or expired.
proof fn lemma_sweep_resolved_at_least(
    f: Seq<InflightView>,
    expiration_ms: i64,
    now_us: i64,
    i: int,
)
    requires
        0 <= i < f.len(),
        forall|j: int|
            0 <= j <= i ==> (#[trigger] f[j]).complete || spec_expired(f[j], expiration_ms, now_us),
    ensures
        sweep_resolved(f, expiration_ms, now_us) >= i + 1,
    decreases i,
{
    let rest = f.drop_first();
    if i > 0 {
        assert forall|j: int|
            0 <= j <= i - 1 implies (#[trigger] rest[j]).complete || spec_expired(
            rest[j],
            expiration_ms,
            now_us,
        ) by {
            assert(rest[j] == f[j + 1]);
        }
        lemma_sweep_resolved_at_least(rest, expiration_ms, now_us, i - 1);
    } else {
        lemma_sweep_resolved_bounds(rest, expiration_ms, now_us);
    }
}

/// An in-flight entry acknowledged before its visibility timeout elapses is
/// removed for good by the next sweep that reaches it: its identifier is
/// afterwards neither pending nor in flight. (The sweep reaches it once
/// every entry dispatched before it is itself acknowledged or expired;
/// entries are resolved in dispatch order.)
pub proof fn lemma_acknowledged_removed(
    p: Seq<MessageView>,
    f: Seq<InflightView>,
    expiration_ms: i64,
    now_us: i64,
    i: int,
)
    requires
        distinct_ids(p, f),
        0 <= i < f.len(),
        f[i].complete,
        forall|j: int|
            0 <= j < i ==> (#[trigger] f[j]).complete || spec_expired(f[j], expiration_ms, now_us),
    ensures
        !has_id(sweep_spec(p, f, expiration_ms, now_us).0, f[i].msg.id),
        !inflight_has_id(sweep_spec(p, f, expiration_ms, now_us).1, f[i].msg.id),
{
    let id = f[i].msg.id;
    let (p2, f2) = sweep_spec(p, f, expiration_ms, now_us);
    lemma_sweep_inflight_suffix(p, f, expiration_ms, now_us);
    let k = sweep_resolved(f, expiration_ms, now_us);
    lemma_sweep_resolved_at_least(f, expiration_ms, now_us, i);
    assert(f2 == f.skip(k));
    assert forall|m: int| 0 <= m < f2.len() implies (#[trigger] f2[m]).msg.id != id by {
        assert(f2[m] == f[k + m]);
        assert(i < k + m);
    }
    if has_id(p2, id) {
        lemma_sweep_pending_source(p, f, expiration_ms, now_us, id);
        if has_id(p, id) {
            let m = choose|m: int| 0 <= m < p.len() && (#[trigger] p[m]).id == id;
            assert(p[m].id == f[i].msg.id);
            assert(false);
        } else {
            let w = choose|w: int|
                0 <= w < f.len() && (#[trigger] f[w]).msg.id == id && !f[w].complete
                    && spec_expired(f[w], expiration_ms, now_us);
            assert(w != i);
            assert(f[w].msg.id == f[i].msg.id);
            assert(false);
        }
    }
}

} // verus!
