//! Inbound connection multiplexer: a pull-driven state machine over three
//! populations — pending handshakes, established connections, and per-step
//! stream-accept attempts.
//!
//! Each production step drains new handshake attempts from the endpoint,
//! advances every pending handshake, then scans established connections for
//! at most one ready bidirectional stream. The caller polls the underlying
//! endpoint and connection objects and reports one event per tracked entry;
//! this module decides, from those events alone, how the sets change and
//! what the step yields.
use vstd::prelude::*;

verus! {

/// Peer network address of a connection, as reported by the transport.
#[derive(Clone, Copy, Debug, PartialEq, Eq, Structural)]
pub struct PeerAddr {
    pub ip: u128,
    pub port: u16,
}

/// Per-stream metadata: the owning connection's peer address and the
/// accepted stream's protocol-level index.
#[derive(Clone, Copy, Debug, PartialEq, Eq, Structural)]
pub struct Session {
    pub source: PeerAddr,
    pub stream_id: u64,
}

/// The pairing of an accepted bidirectional stream (identified by the id of
/// the connection that yielded it) with its session metadata; the sole
/// output of the multiplexer.
#[derive(Clone, Copy, Debug, PartialEq, Eq, Structural)]
pub struct AcceptedUnit {
    pub conn: u64,
    pub session: Session,
}

/// What one poll of a pending handshake reported.
#[derive(Clone, Copy, Debug, PartialEq, Eq, Structural)]
pub enum HandshakeEvent {
    /// The handshake resolved into an established connection.
    Established,
    /// The handshake failed terminally; the attempt is discarded.
    Failed,
    /// Not resolved yet; the attempt stays for the next step.
    Pending,
}

/// What one poll of an established connection's stream accept reported.
#[derive(Clone, Copy, Debug, PartialEq, Eq, Structural)]
pub enum AcceptEvent {
    /// A new bidirectional stream is ready, with the connection's peer
    /// address and the stream's index.
    Stream(PeerAddr, u64),
    /// The accept failed; the connection is dropped from future scanning.
    Failed,
    /// No stream ready yet; the connection stays in place.
    Pending,
}

/// Outcome of one production step.
#[derive(Clone, Copy, Debug, PartialEq, Eq, Structural)]
pub enum StepResult {
    /// One accepted unit was produced.
    Produced(AcceptedUnit),
    /// The endpoint is closed and all in-flight work has drained: the
    /// sequence is finished and will never produce again.
    Finished,
    /// Nothing ready this step; the caller retries when progress is possible.
    NotReady,
}

/// The ids `next`, `next + 1`, ..., `next + count - 1` handed to newly
/// drained handshake attempts.
pub open spec fn fresh_ids(next: u64, count: nat) -> Seq<u64> {
    Seq::new(count, |i: int| (next + i) as u64)
}

/// The pending-handshake ids kept after one round over the first `n`
/// entries: those whose poll reported no resolution yet, in order.
pub open spec fn pending_prefix(cs: Seq<u64>, evs: Seq<HandshakeEvent>, n: int) -> Seq<u64>
    decreases n,
{
    if n <= 0 {
        Seq::empty()
    } else {
        pending_prefix(cs, evs, n - 1) + if evs[n - 1] is Pending {
            seq![cs[n - 1]]
        } else {
            Seq::empty()
        }
    }
}

/// The ids among the first `n` pending entries that resolved successfully,
/// in order.
pub open spec fn established_prefix(cs: Seq<u64>, evs: Seq<HandshakeEvent>, n: int) -> Seq<u64>
    decreases n,
{
    if n <= 0 {
        Seq::empty()
    } else {
        established_prefix(cs, evs, n - 1) + if evs[n - 1] is Established {
            seq![cs[n - 1]]
        } else {
            Seq::empty()
        }
    }
}

/// The connection ids kept after scanning the first `n` entries: those whose
/// accept poll did not fail, in order.
pub open spec fn kept_prefix(conns: Seq<u64>, evs: Seq<AcceptEvent>, n: int) -> Seq<u64>
    decreases n,
{
    if n <= 0 {
        Seq::empty()
    } else {
        kept_prefix(conns, evs, n - 1) + if evs[n - 1] is Failed {
            Seq::empty()
        } else {
            seq![conns[n - 1]]
        }
    }
}

/// The least position `j < n` with a ready stream, if any.
pub open spec fn first_ready(evs: Seq<AcceptEvent>, n: int) -> Option<int>
    decreases n,
{
    if n <= 0 {
        None
    } else {
        match first_ready(evs, n - 1) {
            Some(i) => Some(i),
            None => if evs[n - 1] is Stream {
                Some(n - 1)
            } else {
                None
            },
        }
    }
}

/// Abstract state of the multiplexer: the pending-handshake ids, the
/// established-connection ids, whether the endpoint has signaled closure,
/// the next fresh id, and the set of ids that ever resolved successfully.
pub struct MuxState {
    pub connectings: Seq<u64>,
    pub conns: Seq<u64>,
    pub closed: bool,
    pub next_id: int,
    pub established: Set<u64>,
}

/// Well-formedness of the abstract state: ids are below the fresh-id
/// watermark, pending ids are pairwise distinct and not yet resolved, the
/// established-connection list is pairwise distinct, and every entry in it
/// resolved successfully at some earlier step.
pub open spec fn inv(s: MuxState) -> bool {
    &&& s.established.finite()
    &&& 0 <= s.next_id <= u64::MAX
    &&& forall|i: int| 0 <= i < s.connectings.len() ==> #[trigger] s.connectings[i] < s.next_id
    &&& forall|i: int, j: int|
        0 <= i < j < s.connectings.len() ==> s.connectings[i] != s.connectings[j]
    &&& forall|i: int|
        0 <= i < s.connectings.len() ==> !s.established.contains(#[trigger] s.connectings[i])
    &&& forall|id: u64| s.established.contains(id) ==> id < s.next_id
    &&& forall|i: int| 0 <= i < s.conns.len() ==> s.established.contains(#[trigger] s.conns[i])
    &&& forall|i: int, j: int| 0 <= i < j < s.conns.len() ==> s.conns[i] != s.conns[j]
}

/// Stage one: append `count` freshly drained attempts and record whether the
/// endpoint signaled closure.
pub open spec fn drain_spec(s: MuxState, count: nat, closed: bool) -> MuxState {
    MuxState {
        connectings: s.connectings + fresh_ids(s.next_id as u64, count),
        closed: closed,
        next_id: s.next_id + count,
        ..s
    }
}

/// Stage two: every resolved-success entry moves to the established set,
/// every resolved-failure entry is discarded, every unresolved entry stays,
/// in order.
pub open spec fn advance_spec(s: MuxState, evs: Seq<HandshakeEvent>) -> MuxState {
    MuxState {
        connectings: pending_prefix(s.connectings, evs, s.connectings.len() as int),
        conns: s.conns + established_prefix(s.connectings, evs, s.connectings.len() as int),
        established: s.established.union(
            established_prefix(s.connectings, evs, s.connectings.len() as int).to_set(),
        ),
        ..s
    }
}

/// Stage three, state part: failed connections scanned before the first
/// ready stream are removed; the producing connection and everything after
/// it are left unscanned and kept.
pub open spec fn scan_spec(s: MuxState, evs: Seq<AcceptEvent>) -> MuxState {
    let conns = match first_ready(evs, s.conns.len() as int) {
        Some(i) => kept_prefix(s.conns, evs, i) + s.conns.skip(i),
        None => kept_prefix(s.conns, evs, s.conns.len() as int),
    };
    MuxState { conns: conns, ..s }
}

/// Stage three, output part: the unit built from the first ready stream,
/// if any — its session carries the owning connection's peer address and
/// the stream's index.
pub open spec fn scan_unit(conns: Seq<u64>, evs: Seq<AcceptEvent>) -> Option<AcceptedUnit> {
    match first_ready(evs, conns.len() as int) {
        Some(i) => match evs[i] {
            AcceptEvent::Stream(peer, sid) => Some(
                AcceptedUnit { conn: conns[i], session: Session { source: peer, stream_id: sid } },
            ),
            _ => None,
        },
        None => None,
    }
}

/// Stage four: emit the unit if one was produced; otherwise finished exactly
/// when the endpoint is closed and both sets are empty; otherwise not ready.
pub open spec fn outcome_spec(s: MuxState, produced: Option<AcceptedUnit>) -> StepResult {
    match produced {
        Some(u) => StepResult::Produced(u),
        None => if s.closed && s.connectings.len() == 0 && s.conns.len() == 0 {
            StepResult::Finished
        } else {
            StepResult::NotReady
        },
    }
}

/// The events one whole production step consumes: how many new attempts were
/// drained and whether the endpoint closed (draining is skipped once closure
/// was recorded), one handshake event per pending entry, one accept event
/// per established connection.
pub struct StepEvents {
    pub new_count: nat,
    pub closed: bool,
    pub hs: Seq<HandshakeEvent>,
    pub acc: Seq<AcceptEvent>,
}

/// State after stage one of a step: draining is skipped once the endpoint
/// has signaled closure.
pub open spec fn step_drained(s: MuxState, ev: StepEvents) -> MuxState {
    if s.closed {
        s
    } else {
        drain_spec(s, ev.new_count, ev.closed)
    }
}

/// State after stage two of a step.
pub open spec fn step_advanced(s: MuxState, ev: StepEvents) -> MuxState {
    advance_spec(step_drained(s, ev), ev.hs)
}

/// The state after one whole production step.
pub open spec fn step_next(s: MuxState, ev: StepEvents) -> MuxState {
    scan_spec(step_advanced(s, ev), ev.acc)
}

/// What one whole production step signals to the consumer.
pub open spec fn step_result(s: MuxState, ev: StepEvents) -> StepResult {
    let s2 = step_advanced(s, ev);
    outcome_spec(scan_spec(s2, ev.acc), scan_unit(s2.conns, ev.acc))
}

/// The event lengths a step consumes: one handshake event per pending entry
/// after draining, one accept event per established connection after the
/// handshake round, and fresh ids that fit.
pub open spec fn step_wf(s: MuxState, ev: StepEvents) -> bool {
    &&& s.closed ==> ev.new_count == 0
    &&& s.next_id + ev.new_count <= u64::MAX
    &&& ev.hs.len() == step_drained(s, ev).connectings.len()
    &&& ev.acc.len() == step_advanced(s, ev).conns.len()
}

/// A terminal state: the endpoint is closed and both sets are empty.
pub open spec fn terminal(s: MuxState) -> bool {
    s.closed && s.connectings.len() == 0 && s.conns.len() == 0
}

/// The state after running a whole sequence of production steps.
pub open spec fn run(s: MuxState, evs: Seq<StepEvents>) -> MuxState
    decreases evs.len(),
{
    if evs.len() == 0 {
        s
    } else {
        run(step_next(s, evs[0]), evs.skip(1))
    }
}

/// Appending one element to a sequence inserts it into the sequence's set.
proof fn lemma_to_set_push(s: Seq<u64>, x: u64)
    ensures
        (s + seq![x]).to_set() =~= s.to_set().insert(x),
{
    assert forall|y: u64| (s + seq![x]).to_set().contains(y) implies s.to_set().insert(x).contains(
        y,
    ) by {
        let k = choose|k: int| 0 <= k < (s + seq![x]).len() && (s + seq![x])[k] == y;
        if k < s.len() {
            assert(s[k] == y);
        }
    }
    assert forall|y: u64| s.to_set().insert(x).contains(y) implies (s + seq![x]).to_set().contains(
        y,
    ) by {
        if y == x {
            assert((s + seq![x])[s.len() as int] == y);
        } else {
            let k = choose|k: int| 0 <= k < s.len() && s[k] == y;
            assert((s + seq![x])[k] == y);
        }
    }
}

/// The inbound connection multiplexer. It tracks pending handshakes and
/// established connections by id; the caller owns the endpoint and the
/// transport objects, polls them without blocking, and reports the outcome
/// of each poll through the staged methods below, one production step at a
/// time: `drain_attempts` (skipped once closed), `advance_handshakes`,
/// `scan_streams`, then `finish_step`.
pub struct Incoming {
    connectings: Vec<u64>,
    conns: Vec<u64>,
    incoming_closed: bool,
    next_id: u64,
    established: Ghost<Set<u64>>,
}

impl Incoming {
    /// The abstract state this multiplexer is in.
    pub closed spec fn abs(self) -> MuxState {
        MuxState {
            connectings: self.connectings@,
            conns: self.conns@,
            closed: self.incoming_closed,
            next_id: self.next_id as int,
            established: self.established@,
        }
    }

    /// A fresh multiplexer: nothing pending, nothing established, endpoint
    /// not yet closed.
    pub fn new() -> (r: Self)
        ensures
            r.abs() == (MuxState {
                connectings: Seq::<u64>::empty(),
                conns: Seq::<u64>::empty(),
                closed: false,
                next_id: 0,
                established: Set::<u64>::empty(),
            }),
            inv(r.abs()),
    {
        let r = Incoming {
            connectings: Vec::new(),
            conns: Vec::new(),
            incoming_closed: false,
            next_id: 0,
            established: Ghost(Set::empty()),
        };
        proof {
            assert(r.abs().connectings =~= Seq::<u64>::empty());
            assert(r.abs().conns =~= Seq::<u64>::empty());
            assert(r.abs().established =~= Set::<u64>::empty());
        }
        r
    }

    /// Whether the endpoint has signaled that no more attempts will arrive.
    pub fn is_closed(&self) -> (r: bool)
        ensures
            r == self.abs().closed,
    {
        self.incoming_closed
    }

    /// How many handshake attempts are pending.
    pub fn pending_count(&self) -> (r: usize)
        ensures
            r == self.abs().connectings.len(),
    {
        self.connectings.len()
    }

    /// How many established connections are tracked.
    pub fn established_count(&self) -> (r: usize)
        ensures
            r == self.abs().conns.len(),
    {
        self.conns.len()
    }

    /// How many handshake attempts were ever recorded: the next fresh id.
    pub fn attempts_started(&self) -> (r: u64)
        ensures
            r == self.abs().next_id,
    {
        self.next_id
    }

    /// Stage one of a production step: record `count` newly drained
    /// handshake attempts and whether the endpoint signaled closure. Returns
    /// the fresh ids assigned to the new attempts, in arrival order; the
    /// caller pairs them with the attempt objects it drained.
    pub fn drain_attempts(&mut self, count: usize, closed: bool) -> (ids: Vec<u64>)
        requires
            !old(self).abs().closed,
            old(self).abs().next_id + count <= u64::MAX,
        ensures
            final(self).abs() == drain_spec(old(self).abs(), count as nat, closed),
            ids@ == fresh_ids(old(self).abs().next_id as u64, count as nat),
    {
        let ghost start = self.next_id;
        let mut ids: Vec<u64> = Vec::new();
        let mut k: usize = 0;
        while k < count
            invariant
                k <= count,
                start + count <= u64::MAX,
                self.next_id == start + k,
                ids@ == fresh_ids(start, k as nat),
                self.connectings@ == old(self).connectings@ + ids@,
                self.conns@ == old(self).conns@,
                self.established@ == old(self).established@,
                self.incoming_closed == old(self).incoming_closed,
            decreases count - k,
        {
            let id = self.next_id;
            ids.push(id);
            self.connectings.push(id);
            self.next_id = self.next_id + 1;
            k = k + 1;
            proof {
                assert(ids@ =~= fresh_ids(start, k as nat));
            }
        }
        self.incoming_closed = closed;
        proof {
            assert(self.abs().connectings =~= drain_spec(
                old(self).abs(),
                count as nat,
                closed,
            ).connectings);
            assert(self.abs() == drain_spec(old(self).abs(), count as nat, closed));
        }
        ids
    }

    /// Stage two of a production step: `events[i]` reports what one
    /// non-blocking poll of the `i`-th pending handshake gave. Successes
    /// move to the established set in order, failures are discarded,
    /// unresolved entries stay.
    pub fn advance_handshakes(&mut self, events: &Vec<HandshakeEvent>)
        requires
            events@.len() == old(self).abs().connectings.len(),
        ensures
            final(self).abs() == advance_spec(old(self).abs(), events@),
    {
        let ghost cs = self.connectings@;
        let mut kept: Vec<u64> = Vec::new();
        let mut i: usize = 0;
        proof {
            assert(established_prefix(cs, events@, 0).to_set() =~= Set::<u64>::empty());
            assert(self.established@ =~= old(self).established@.union(
                established_prefix(cs, events@, 0).to_set(),
            ));
            assert(self.conns@ =~= old(self).conns@ + established_prefix(cs, events@, 0));
        }
        while i < self.connectings.len()
            invariant
                i <= self.connectings.len(),
                events@.len() == cs.len(),
                self.connectings@ == cs,
                kept@ == pending_prefix(cs, events@, i as int),
                self.conns@ == old(self).conns@ + established_prefix(cs, events@, i as int),
                self.established@ == old(self).established@.union(
                    established_prefix(cs, events@, i as int).to_set(),
                ),
                self.incoming_closed == old(self).incoming_closed,
                self.next_id == old(self).next_id,
            decreases self.connectings.len() - i,
        {
            let id = self.connectings[i];
            match events[i] {
                HandshakeEvent::Established => {
                    self.conns.push(id);
                    proof {
                        self.established@ = self.established@.insert(id);
                        lemma_to_set_push(established_prefix(cs, events@, i as int), id);
                        assert(established_prefix(cs, events@, i + 1) =~= established_prefix(
                            cs,
                            events@,
                            i as int,
                        ) + seq![id]);
                        assert(self.conns@ =~= old(self).conns@ + established_prefix(
                            cs,
                            events@,
                            i + 1,
                        ));
                        assert(self.established@ =~= old(self).established@.union(
                            established_prefix(cs, events@, i + 1).to_set(),
                        ));
                    }
                },
                HandshakeEvent::Failed => {
                    proof {
                        assert(established_prefix(cs, events@, i + 1) =~= established_prefix(
                            cs,
                            events@,
                            i as int,
                        ));
                        assert(pending_prefix(cs, events@, i + 1) =~= pending_prefix(
                            cs,
                            events@,
                            i as int,
                        ));
                    }
                },
                HandshakeEvent::Pending => {
                    kept.push(id);
                    proof {
                        assert(pending_prefix(cs, events@, i + 1) =~= pending_prefix(
                            cs,
                            events@,
                            i as int,
                        ) + seq![id]);
                        assert(established_prefix(cs, events@, i + 1) =~= established_prefix(
                            cs,
                            events@,
                            i as int,
                        ));
                    }
                },
            }
            i = i + 1;
        }
        self.connectings = kept;
        proof {
            assert(self.abs() == advance_spec(old(self).abs(), events@));
        }
    }

    /// Stage three of a production step: `events[i]` reports what one
    /// non-blocking stream-accept poll on the `i`-th established connection
    /// gave. Scanning stops at the first ready stream, which becomes the
    /// step's single accepted unit; connections whose accept failed before
    /// that point are dropped for good; everything else stays.
    pub fn scan_streams(&mut self, events: &Vec<AcceptEvent>) -> (r: Option<AcceptedUnit>)
        requires
            events@.len() == old(self).abs().conns.len(),
        ensures
            final(self).abs() == scan_spec(old(self).abs(), events@),
            r == scan_unit(old(self).abs().conns, events@),
    {
        let ghost cs = self.conns@;
        let mut kept: Vec<u64> = Vec::new();
        let mut unit: Option<AcceptedUnit> = None;
        let mut i: usize = 0;
        while i < self.conns.len() && unit.is_none()
            invariant
                i <= self.conns.len(),
                events@.len() == cs.len(),
                self.conns@ == cs,
                unit is None ==> first_ready(events@, i as int) == None::<int>,
                unit is None ==> kept@ == kept_prefix(cs, events@, i as int),
                unit matches Some(u) ==> {
                    &&& 0 < i <= cs.len()
                    &&& first_ready(events@, cs.len() as int) == Some(i - 1)
                    &&& events@[i - 1] matches AcceptEvent::Stream(peer, sid) && u == (AcceptedUnit {
                        conn: cs[i - 1],
                        session: Session { source: peer, stream_id: sid },
                    })
                    &&& kept@ == kept_prefix(cs, events@, i - 1)
                },
                self.connectings@ == old(self).connectings@,
                self.established@ == old(self).established@,
                self.incoming_closed == old(self).incoming_closed,
                self.next_id == old(self).next_id,
            decreases self.conns.len() - i,
        {
            let id = self.conns[i];
            match events[i] {
                AcceptEvent::Stream(peer, sid) => {
                    unit = Some(
                        AcceptedUnit { conn: id, session: Session { source: peer, stream_id: sid } },
                    );
                    proof {
                        lemma_first_ready_found(events@, i as int, cs.len() as int);
                    }
                },
                AcceptEvent::Failed => {
                    proof {
                        assert(kept_prefix(cs, events@, i + 1) =~= kept_prefix(
                            cs,
                            events@,
                            i as int,
                        ));
                    }
                },
                AcceptEvent::Pending => {
                    kept.push(id);
                    proof {
                        assert(kept_prefix(cs, events@, i + 1) =~= kept_prefix(cs, events@, i as int)
                            + seq![id]);
                    }
                },
            }
            i = i + 1;
        }
        if unit.is_some() {
            // The producing connection and everything after it stay
            // unscanned: append the tail, starting at the producer itself.
            let mut j: usize = i - 1;
            while j < self.conns.len()
                invariant
                    0 < i <= cs.len(),
                    i - 1 <= j <= self.conns.len(),
                    events@.len() == cs.len(),
                    self.conns@ == cs,
                    first_ready(events@, cs.len() as int) == Some(i - 1),
                    unit matches Some(u) ==> {
                        &&& events@[i - 1] matches AcceptEvent::Stream(peer, sid) && u
                            == (AcceptedUnit {
                            conn: cs[i - 1],
                            session: Session { source: peer, stream_id: sid },
                        })
                    },
                    unit is Some,
                    kept@ == kept_prefix(cs, events@, i - 1) + cs.subrange(i - 1, j as int),
                    self.connectings@ == old(self).connectings@,
                    self.established@ == old(self).established@,
                    self.incoming_closed == old(self).incoming_closed,
                    self.next_id == old(self).next_id,
                decreases self.conns.len() - j,
            {
                let id = self.conns[j];
                kept.push(id);
                j = j + 1;
                proof {
                    assert(kept@ =~= kept_prefix(cs, events@, i - 1) + cs.subrange(
                        i - 1,
                        j as int,
                    ));
                }
            }
            proof {
                assert(cs.subrange(i - 1, cs.len() as int) =~= cs.skip(i - 1));
            }
        }
        self.conns = kept;
        proof {
            assert(self.abs() == scan_spec(old(self).abs(), events@));
        }
        unit
    }

    /// Stage four of a production step: emit the unit if one was produced;
    /// otherwise the sequence is finished exactly when the endpoint is
    /// closed and both sets are empty; otherwise the caller retries later.
    pub fn finish_step(&self, produced: Option<AcceptedUnit>) -> (r: StepResult)
        ensures
            r == outcome_spec(self.abs(), produced),
    {
        match produced {
            Some(u) => StepResult::Produced(u),
            None => {
                if self.incoming_closed && self.connectings.len() == 0 && self.conns.len() == 0 {
                    StepResult::Finished
                } else {
                    StepResult::NotReady
                }
            },
        }
    }
}

/// Once the least ready index is found, no longer prefix changes it.
proof fn lemma_first_ready_found(evs: Seq<AcceptEvent>, i: int, n: int)
    requires
        0 <= i < n,
        first_ready(evs, i) == None::<int>,
        evs[i] is Stream,
    ensures
        first_ready(evs, n) == Some(i),
    decreases n,
{
    if n == i + 1 {
    } else {
        lemma_first_ready_found(evs, i, n - 1);
    }
}


/// Elementwise containment: if every entry scanned is in `s`, so is every
/// id selected into `established_prefix`.
proof fn lemma_est_prefix_in_set(cs: Seq<u64>, evs: Seq<HandshakeEvent>, n: int, s: Set<u64>)
    requires
        0 <= n <= cs.len(),
        forall|i: int| 0 <= i < n ==> s.contains(#[trigger] cs[i]),
    ensures
        forall|k: int|
            0 <= k < established_prefix(cs, evs, n).len() ==> s.contains(
                #[trigger] established_prefix(cs, evs, n)[k],
            ),
    decreases n,
{
    if n > 0 {
        lemma_est_prefix_in_set(cs, evs, n - 1, s);
        assert forall|k: int| 0 <= k < established_prefix(cs, evs, n).len() implies s.contains(
            #[trigger] established_prefix(cs, evs, n)[k],
        ) by {
            if k < established_prefix(cs, evs, n - 1).len() {
                assert(established_prefix(cs, evs, n)[k] == established_prefix(cs, evs, n - 1)[k]);
            } else {
                assert(established_prefix(cs, evs, n)[k] == cs[n - 1]);
            }
        }
    }
}

/// Elementwise containment for the ids kept pending.
proof fn lemma_pend_prefix_in_set(cs: Seq<u64>, evs: Seq<HandshakeEvent>, n: int, s: Set<u64>)
    requires
        0 <= n <= cs.len(),
        forall|i: int| 0 <= i < n ==> s.contains(#[trigger] cs[i]),
    ensures
        forall|k: int|
            0 <= k < pending_prefix(cs, evs, n).len() ==> s.contains(
                #[trigger] pending_prefix(cs, evs, n)[k],
            ),
    decreases n,
{
    if n > 0 {
        lemma_pend_prefix_in_set(cs, evs, n - 1, s);
        assert forall|k: int| 0 <= k < pending_prefix(cs, evs, n).len() implies s.contains(
            #[trigger] pending_prefix(cs, evs, n)[k],
        ) by {
            if k < pending_prefix(cs, evs, n - 1).len() {
                assert(pending_prefix(cs, evs, n)[k] == pending_prefix(cs, evs, n - 1)[k]);
            } else {
                assert(pending_prefix(cs, evs, n)[k] == cs[n - 1]);
            }
        }
    }
}

/// Elementwise containment for the connection ids a scan keeps.
proof fn lemma_kept_prefix_in_set(conns: Seq<u64>, evs: Seq<AcceptEvent>, n: int, s: Set<u64>)
    requires
        0 <= n <= conns.len(),
        forall|i: int| 0 <= i < n ==> s.contains(#[trigger] conns[i]),
    ensures
        forall|k: int|
            0 <= k < kept_prefix(conns, evs, n).len() ==> s.contains(
                #[trigger] kept_prefix(conns, evs, n)[k],
            ),
    decreases n,
{
    if n > 0 {
        lemma_kept_prefix_in_set(conns, evs, n - 1, s);
        assert forall|k: int| 0 <= k < kept_prefix(conns, evs, n).len() implies s.contains(
            #[trigger] kept_prefix(conns, evs, n)[k],
        ) by {
            if k < kept_prefix(conns, evs, n - 1).len() {
                assert(kept_prefix(conns, evs, n)[k] == kept_prefix(conns, evs, n - 1)[k]);
            } else {
                assert(kept_prefix(conns, evs, n)[k] == conns[n - 1]);
            }
        }
    }
}

/// With pairwise-distinct entries the selected successes are distinct too.
proof fn lemma_est_prefix_distinct(cs: Seq<u64>, evs: Seq<HandshakeEvent>, n: int)
    requires
        0 <= n <= cs.len(),
        forall|i: int, j: int| 0 <= i < j < cs.len() ==> cs[i] != cs[j],
    ensures
        established_prefix(cs, evs, n).no_duplicates(),
    decreases n,
{
    if n > 0 {
        lemma_est_prefix_distinct(cs, evs, n - 1);
        lemma_est_prefix_in_set(cs, evs, n - 1, Set::new(|id: u64| id != cs[n - 1]));
        let p = established_prefix(cs, evs, n);
        let q = established_prefix(cs, evs, n - 1);
        assert forall|a: int, b: int| 0 <= a < b < p.len() implies p[a] != p[b] by {
            if b >= q.len() {
                assert(p[b] == cs[n - 1]);
                assert(p[a] == q[a]);
                assert(Set::new(|id: u64| id != cs[n - 1]).contains(q[a]));
            } else {
                assert(p[a] == q[a] && p[b] == q[b]);
            }
        }
    }
}

/// With pairwise-distinct entries the kept pending ids are distinct too.
proof fn lemma_pend_prefix_distinct(cs: Seq<u64>, evs: Seq<HandshakeEvent>, n: int)
    requires
        0 <= n <= cs.len(),
        forall|i: int, j: int| 0 <= i < j < cs.len() ==> cs[i] != cs[j],
    ensures
        pending_prefix(cs, evs, n).no_duplicates(),
    decreases n,
{
    if n > 0 {
        lemma_pend_prefix_distinct(cs, evs, n - 1);
        lemma_pend_prefix_in_set(cs, evs, n - 1, Set::new(|id: u64| id != cs[n - 1]));
        let p = pending_prefix(cs, evs, n);
        let q = pending_prefix(cs, evs, n - 1);
        assert forall|a: int, b: int| 0 <= a < b < p.len() implies p[a] != p[b] by {
            if b >= q.len() {
                assert(p[b] == cs[n - 1]);
                assert(p[a] == q[a]);
                assert(Set::new(|id: u64| id != cs[n - 1]).contains(q[a]));
            } else {
                assert(p[a] == q[a] && p[b] == q[b]);
            }
        }
    }
}

/// With pairwise-distinct entries the kept connection ids are distinct too.
proof fn lemma_kept_prefix_distinct(conns: Seq<u64>, evs: Seq<AcceptEvent>, n: int)
    requires
        0 <= n <= conns.len(),
        forall|i: int, j: int| 0 <= i < j < conns.len() ==> conns[i] != conns[j],
    ensures
        kept_prefix(conns, evs, n).no_duplicates(),
    decreases n,
{
    if n > 0 {
        lemma_kept_prefix_distinct(conns, evs, n - 1);
        lemma_kept_prefix_in_set(conns, evs, n - 1, Set::new(|id: u64| id != conns[n - 1]));
        let p = kept_prefix(conns, evs, n);
        let q = kept_prefix(conns, evs, n - 1);
        assert forall|a: int, b: int| 0 <= a < b < p.len() implies p[a] != p[b] by {
            if b >= q.len() {
                assert(p[b] == conns[n - 1]);
                assert(p[a] == q[a]);
                assert(Set::new(|id: u64| id != conns[n - 1]).contains(q[a]));
            } else {
                assert(p[a] == q[a] && p[b] == q[b]);
            }
        }
    }
}

/// In one handshake round over distinct entries, an id kept pending is
/// never also recorded as successfully resolved.
proof fn lemma_pending_est_disjoint(cs: Seq<u64>, evs: Seq<HandshakeEvent>, n: int)
    requires
        0 <= n <= cs.len(),
        forall|i: int, j: int| 0 <= i < j < cs.len() ==> cs[i] != cs[j],
    ensures
        forall|k: int|
            0 <= k < pending_prefix(cs, evs, n).len() ==> !established_prefix(
                cs,
                evs,
                n,
            ).to_set().contains(#[trigger] pending_prefix(cs, evs, n)[k]),
    decreases n,
{
    if n > 0 {
        lemma_pending_est_disjoint(cs, evs, n - 1);
        let fresh = Set::new(|id: u64| id != cs[n - 1]);
        lemma_pend_prefix_in_set(cs, evs, n - 1, fresh);
        lemma_est_prefix_in_set(cs, evs, n - 1, fresh);
        let pn = pending_prefix(cs, evs, n);
        let po = pending_prefix(cs, evs, n - 1);
        let en = established_prefix(cs, evs, n);
        let eo = established_prefix(cs, evs, n - 1);
        if evs[n - 1] is Established {
            lemma_to_set_push(eo, cs[n - 1]);
            assert(en =~= eo + seq![cs[n - 1]]);
            assert(pn =~= po);
            assert forall|k: int| 0 <= k < pn.len() implies !en.to_set().contains(
                #[trigger] pn[k],
            ) by {
                assert(fresh.contains(po[k]));
            }
        } else if evs[n - 1] is Pending {
            assert(en =~= eo);
            assert(pn =~= po + seq![cs[n - 1]]);
            assert forall|k: int| 0 <= k < pn.len() implies !en.to_set().contains(
                #[trigger] pn[k],
            ) by {
                if k == po.len() {
                    assert(pn[k] == cs[n - 1]);
                    if en.to_set().contains(cs[n - 1]) {
                        let m = choose|m: int| 0 <= m < en.len() && #[trigger] en[m] == cs[n - 1];
                        assert(fresh.contains(eo[m]));
                    }
                } else {
                    assert(pn[k] == po[k]);
                }
            }
        } else {
            assert(en =~= eo);
            assert(pn =~= po);
        }
    }
}

/// Every success of the round is selected into `established_prefix`.
proof fn lemma_est_prefix_covers(cs: Seq<u64>, evs: Seq<HandshakeEvent>, n: int)
    requires
        0 <= n <= cs.len(),
    ensures
        forall|j: int|
            0 <= j < n && evs[j] is Established ==> established_prefix(cs, evs, n).contains(
                #[trigger] cs[j],
            ),
    decreases n,
{
    if n > 0 {
        lemma_est_prefix_covers(cs, evs, n - 1);
        let p = established_prefix(cs, evs, n);
        let q = established_prefix(cs, evs, n - 1);
        assert forall|j: int| 0 <= j < n && evs[j] is Established implies p.contains(
            #[trigger] cs[j],
        ) by {
            if j < n - 1 {
                assert(q.contains(cs[j]));
                let k = choose|k: int| 0 <= k < q.len() && #[trigger] q[k] == cs[j];
                assert(p[k] == cs[j]);
            } else {
                assert(p[p.len() - 1] == cs[n - 1]);
            }
        }
    }
}

/// A connection whose accept failed is not among the ids a scan keeps.
proof fn lemma_kept_prefix_skips_failed(conns: Seq<u64>, evs: Seq<AcceptEvent>, n: int, jf: int)
    requires
        0 <= n <= conns.len(),
        0 <= jf < conns.len(),
        evs[jf] is Failed,
        forall|i: int, j: int| 0 <= i < j < conns.len() ==> conns[i] != conns[j],
    ensures
        forall|k: int|
            0 <= k < kept_prefix(conns, evs, n).len() ==> #[trigger] kept_prefix(conns, evs, n)[k]
                != conns[jf],
    decreases n,
{
    if n > 0 {
        lemma_kept_prefix_skips_failed(conns, evs, n - 1, jf);
        assert forall|k: int| 0 <= k < kept_prefix(conns, evs, n).len() implies #[trigger] kept_prefix(
            conns,
            evs,
            n,
        )[k] != conns[jf] by {
            if k < kept_prefix(conns, evs, n - 1).len() {
                assert(kept_prefix(conns, evs, n)[k] == kept_prefix(conns, evs, n - 1)[k]);
            } else {
                assert(kept_prefix(conns, evs, n)[k] == conns[n - 1]);
                assert(!(evs[n - 1] is Failed));
                assert(n - 1 != jf);
            }
        }
    }
}

/// Adding pairwise-distinct ids, none already present, grows a finite set
/// by exactly their number.
proof fn lemma_union_fresh_len(s: Set<u64>, ids: Seq<u64>)
    requires
        s.finite(),
        ids.no_duplicates(),
        forall|k: int| 0 <= k < ids.len() ==> !s.contains(#[trigger] ids[k]),
    ensures
        s.union(ids.to_set()).finite(),
        s.union(ids.to_set()).len() == s.len() + ids.len(),
    decreases ids.len(),
{
    broadcast use vstd::set::group_set_axioms;

    if ids.len() == 0 {
        assert(ids.to_set() =~= Set::<u64>::empty());
        assert(s.union(ids.to_set()) =~= s);
    } else {
        let front = ids.drop_last();
        let x = ids.last();
        assert(front.no_duplicates());
        lemma_union_fresh_len(s, front);
        assert(ids =~= front + seq![x]);
        lemma_to_set_push(front, x);
        let u = s.union(front.to_set());
        assert(s.union(ids.to_set()) =~= u.insert(x));
        assert(!front.to_set().contains(x)) by {
            if front.to_set().contains(x) {
                let k = choose|k: int| 0 <= k < front.len() && #[trigger] front[k] == x;
                assert(ids[k] == ids[ids.len() - 1]);
            }
        }
        assert(!u.contains(x));
        assert(u.insert(x).len() == u.len() + 1);
    }
}

/// A found first-ready index lies in range and names a ready stream.
proof fn lemma_first_ready_bounds(evs: Seq<AcceptEvent>, n: int)
    ensures
        first_ready(evs, n) matches Some(i) ==> 0 <= i < n && evs[i] is Stream,
    decreases n,
{
    if n > 0 {
        lemma_first_ready_bounds(evs, n - 1);
    }
}

/// Stage one preserves well-formedness: fresh ids are above every id handed
/// out before.
proof fn lemma_drain_preserves_inv(s: MuxState, count: nat, closed: bool)
    requires
        inv(s),
        s.next_id + count <= u64::MAX,
    ensures
        inv(drain_spec(s, count, closed)),
{
    let t = drain_spec(s, count, closed);
    assert forall|i: int, j: int|
        0 <= i < j < t.connectings.len() implies t.connectings[i] != t.connectings[j] by {
        if j >= s.connectings.len() {
            if i < s.connectings.len() {
                assert(s.connectings[i] < s.next_id);
            }
        }
    }
}

/// Stage two preserves well-formedness; moreover every success of the round
/// reaches the established-connection list and the set of successfully
/// resolved ids grows by exactly the round's successes.
proof fn lemma_advance_preserves_inv(s: MuxState, evs: Seq<HandshakeEvent>)
    requires
        inv(s),
        evs.len() == s.connectings.len(),
    ensures
        inv(advance_spec(s, evs)),
        forall|j: int|
            0 <= j < evs.len() && evs[j] is Established ==> advance_spec(s, evs).conns.contains(
                #[trigger] s.connectings[j],
            ),
        advance_spec(s, evs).established.len() == s.established.len() + established_prefix(
            s.connectings,
            evs,
            s.connectings.len() as int,
        ).len(),
{
    broadcast use vstd::set::group_set_axioms;

    let cs = s.connectings;
    let n = cs.len() as int;
    let est = established_prefix(cs, evs, n);
    let pend = pending_prefix(cs, evs, n);
    let t = advance_spec(s, evs);
    lemma_est_prefix_distinct(cs, evs, n);
    lemma_pend_prefix_distinct(cs, evs, n);
    lemma_pending_est_disjoint(cs, evs, n);
    lemma_est_prefix_covers(cs, evs, n);
    lemma_est_prefix_in_set(cs, evs, n, Set::new(|id: u64| !s.established.contains(id)));
    lemma_est_prefix_in_set(cs, evs, n, Set::new(|id: u64| id < s.next_id));
    lemma_pend_prefix_in_set(cs, evs, n, Set::new(|id: u64| !s.established.contains(id)));
    lemma_pend_prefix_in_set(cs, evs, n, Set::new(|id: u64| id < s.next_id));
    lemma_union_fresh_len(s.established, est);

    // The established-id set: finite, grown by the successes, still bounded
    // by the watermark.
    assert forall|id: u64| t.established.contains(id) implies id < t.next_id by {
        if est.to_set().contains(id) {
            let k = choose|k: int| 0 <= k < est.len() && #[trigger] est[k] == id;
            assert(Set::new(|id: u64| id < s.next_id).contains(est[k]));
        }
    }

    // The new pending list: distinct ids below the watermark, none resolved.
    assert forall|i: int| 0 <= i < t.connectings.len() implies #[trigger] t.connectings[i]
        < t.next_id by {
        assert(Set::new(|id: u64| id < s.next_id).contains(pend[i]));
    }
    assert forall|i: int|
        0 <= i < t.connectings.len() implies !t.established.contains(
        #[trigger] t.connectings[i],
    ) by {
        assert(Set::new(|id: u64| !s.established.contains(id)).contains(pend[i]));
        assert(!est.to_set().contains(pend[i]));
    }

    // The extended connection list: members of the new established set,
    // pairwise distinct.
    assert forall|i: int| 0 <= i < t.conns.len() implies t.established.contains(
        #[trigger] t.conns[i],
    ) by {
        if i < s.conns.len() {
            assert(s.established.contains(s.conns[i]));
        } else {
            assert(t.conns[i] == est[i - s.conns.len()]);
            assert(est.to_set().contains(est[i - s.conns.len()]));
        }
    }
    assert forall|i: int, j: int| 0 <= i < j < t.conns.len() implies t.conns[i] != t.conns[j] by {
        if j >= s.conns.len() {
            assert(t.conns[j] == est[j - s.conns.len()]);
            assert(Set::new(|id: u64| !s.established.contains(id)).contains(
                est[j - s.conns.len()],
            ));
            if i < s.conns.len() {
                assert(s.established.contains(s.conns[i]));
            } else {
                assert(t.conns[i] == est[i - s.conns.len()]);
            }
        }
    }

    assert forall|j: int|
        0 <= j < evs.len() && evs[j] is Established implies t.conns.contains(
        #[trigger] s.connectings[j],
    ) by {
        assert(est.contains(cs[j]));
        let k = choose|k: int| 0 <= k < est.len() && #[trigger] est[k] == cs[j];
        assert(t.conns[s.conns.len() + k] == cs[j]);
    }
}

/// Stage three preserves well-formedness.
proof fn lemma_scan_preserves_inv(s: MuxState, evs: Seq<AcceptEvent>)
    requires
        inv(s),
    ensures
        inv(scan_spec(s, evs)),
{
    let t = scan_spec(s, evs);
    let n = s.conns.len() as int;
    let established = Set::new(|id: u64| s.established.contains(id));
    lemma_first_ready_bounds(evs, n);
    let m: int = match first_ready(evs, n) {
        Some(i) => i,
        None => n,
    };
    lemma_kept_prefix_in_set(s.conns, evs, m, established);
    lemma_kept_prefix_distinct(s.conns, evs, m);
    let kp = kept_prefix(s.conns, evs, m);
    assert forall|k: int| 0 <= k < t.conns.len() implies t.established.contains(
        #[trigger] t.conns[k],
    ) by {
        if k < kp.len() {
            assert(established.contains(kp[k]));
        } else {
            assert(t.conns[k] == s.conns[m + (k - kp.len())]);
            assert(s.established.contains(s.conns[m + (k - kp.len())]));
        }
    }
    assert forall|a: int, b: int| 0 <= a < b < t.conns.len() implies t.conns[a] != t.conns[b] by {
        if b >= kp.len() {
            let jb = m + (b - kp.len());
            assert(t.conns[b] == s.conns[jb]);
            if a >= kp.len() {
                assert(t.conns[a] == s.conns[m + (a - kp.len())]);
            } else {
                lemma_kept_prefix_in_set(s.conns, evs, m, Set::new(|id: u64| id != s.conns[jb]));
                assert(Set::new(|id: u64| id != s.conns[jb]).contains(kp[a]));
            }
        }
    }
}

/// Law: a whole production step preserves well-formedness; every handshake
/// that resolves successfully reaches the established-connection set; the
/// set of successfully resolved ids grows by exactly this step's successes;
/// the tracked connections never outnumber the successful resolutions; and
/// a produced unit's connection is one of the successfully resolved ids.
pub proof fn lemma_successes_reach_established(s: MuxState, ev: StepEvents)
    requires
        inv(s),
        step_wf(s, ev),
    ensures
        inv(step_next(s, ev)),
        forall|j: int|
            0 <= j < ev.hs.len() && ev.hs[j] is Established ==> step_advanced(s, ev).conns.contains(
                #[trigger] step_drained(s, ev).connectings[j],
            ),
        step_next(s, ev).established.len() == s.established.len() + established_prefix(
            step_drained(s, ev).connectings,
            ev.hs,
            ev.hs.len() as int,
        ).len(),
        step_next(s, ev).conns.len() <= step_next(s, ev).established.len(),
        step_result(s, ev) matches StepResult::Produced(u) ==> step_next(
            s,
            ev,
        ).established.contains(u.conn),
{
    broadcast use vstd::set::group_set_axioms;

    let s1 = step_drained(s, ev);
    let s2 = step_advanced(s, ev);
    let s3 = step_next(s, ev);
    if !s.closed {
        lemma_drain_preserves_inv(s, ev.new_count, ev.closed);
    }
    lemma_advance_preserves_inv(s1, ev.hs);
    lemma_scan_preserves_inv(s2, ev.acc);

    lemma_conns_bounded(s3);

    // A produced unit names the connection at the first ready stream.
    lemma_first_ready_bounds(ev.acc, s2.conns.len() as int);
    if first_ready(ev.acc, s2.conns.len() as int) is Some {
        let i = first_ready(ev.acc, s2.conns.len() as int)->Some_0;
        assert(s2.established.contains(s2.conns[i]));
    }
}

/// Law: at most one accepted unit is produced per production step — the
/// step emits the unit of the first ready stream or none at all — and
/// producing one stops the scan: the producing connection and every
/// connection after it, ready or not, remain tracked for later steps.
pub proof fn lemma_at_most_one_unit(s: MuxState, ev: StepEvents)
    ensures
        (step_result(s, ev) is Produced) <==> (scan_unit(step_advanced(s, ev).conns, ev.acc)
            is Some),
        step_result(s, ev) matches StepResult::Produced(u) ==> scan_unit(
            step_advanced(s, ev).conns,
            ev.acc,
        ) == Some(u),
        forall|j: int|
            first_ready(ev.acc, step_advanced(s, ev).conns.len() as int) matches Some(i) && i <= j
                < step_advanced(s, ev).conns.len() ==> step_next(s, ev).conns.contains(
                #[trigger] step_advanced(s, ev).conns[j],
            ),
{
    let s2 = step_advanced(s, ev);
    let n = s2.conns.len() as int;
    lemma_first_ready_bounds(ev.acc, n);
    assert forall|j: int|
        first_ready(ev.acc, n) matches Some(i) && i <= j < n implies step_next(
        s,
        ev,
    ).conns.contains(#[trigger] s2.conns[j]) by {
        let i = first_ready(ev.acc, n)->Some_0;
        let kp = kept_prefix(s2.conns, ev.acc, i);
        assert(step_next(s, ev).conns[kp.len() + (j - i)] == s2.conns.skip(i)[j - i]);
    }
}

/// Law: once terminal — the endpoint closed, no pending handshakes, no
/// established connections — a production step signals finished and leaves
/// the state unchanged, whatever events arrive.
pub proof fn lemma_terminal_step(s: MuxState, ev: StepEvents)
    requires
        terminal(s),
    ensures
        step_result(s, ev) == StepResult::Finished,
        step_next(s, ev) == s,
{
    let s2 = step_advanced(s, ev);
    assert(s2.connectings =~= s.connectings);
    assert(s2.conns =~= s.conns);
    assert(established_prefix(s.connectings, ev.hs, 0).to_set() =~= Set::<u64>::empty());
    assert(s2.established =~= s.established);
    assert(s2 == s);
    assert(step_next(s, ev).conns =~= s.conns);
    assert(step_next(s, ev) == s);
}

/// Law: from a terminal state, no sequence of production steps ever changes
/// the state, and every step of it signals finished — the multiplexer never
/// again produces an item.
pub proof fn lemma_terminal_forever(s: MuxState, evs: Seq<StepEvents>)
    requires
        terminal(s),
    ensures
        run(s, evs) == s,
        forall|k: int|
            0 <= k < evs.len() ==> step_result(s, #[trigger] evs[k]) == StepResult::Finished,
    decreases evs.len(),
{
    if evs.len() > 0 {
        lemma_terminal_step(s, evs[0]);
        lemma_terminal_forever(s, evs.skip(1));
        assert forall|k: int|
            0 <= k < evs.len() implies step_result(s, #[trigger] evs[k])
            == StepResult::Finished by {
            if k > 0 {
                assert(evs.skip(1)[k - 1] == evs[k]);
            }
        }
    }
}

/// Law: a connection whose stream accept fails before any stream was found
/// in the same step is dropped and never scanned again — it is gone from
/// the tracked connections after the step.
pub proof fn lemma_failed_accept_dropped(s: MuxState, ev: StepEvents, j: int)
    requires
        inv(s),
        step_wf(s, ev),
        0 <= j < ev.acc.len(),
        ev.acc[j] is Failed,
        first_ready(ev.acc, ev.acc.len() as int) matches Some(i) ==> j < i,
    ensures
        !step_next(s, ev).conns.contains(step_advanced(s, ev).conns[j]),
{
    if !s.closed {
        lemma_drain_preserves_inv(s, ev.new_count, ev.closed);
    }
    lemma_advance_preserves_inv(step_drained(s, ev), ev.hs);
    let s2 = step_advanced(s, ev);
    let n = s2.conns.len() as int;
    let x = s2.conns[j];
    lemma_first_ready_bounds(ev.acc, n);
    let m: int = match first_ready(ev.acc, n) {
        Some(i) => i,
        None => n,
    };
    lemma_kept_prefix_skips_failed(s2.conns, ev.acc, m, j);
    let kp = kept_prefix(s2.conns, ev.acc, m);
    if step_next(s, ev).conns.contains(x) {
        let k = choose|k: int|
            0 <= k < step_next(s, ev).conns.len() && #[trigger] step_next(s, ev).conns[k] == x;
        if k < kp.len() {
            assert(kp[k] != s2.conns[j]);
        } else {
            assert(step_next(s, ev).conns[k] == s2.conns[m + (k - kp.len())]);
            assert(s2.conns[m + (k - kp.len())] == s2.conns[j] && m + (k - kp.len()) != j);
        }
    }
}

/// Law: the session of every produced unit carries exactly the peer address
/// the owning connection reported and the index of the accepted stream.
pub proof fn lemma_session_matches_connection(s: MuxState, ev: StepEvents)
    ensures
        step_result(s, ev) matches StepResult::Produced(u) ==> exists|i: int|
            {
                &&& 0 <= i < step_advanced(s, ev).conns.len()
                &&& first_ready(ev.acc, step_advanced(s, ev).conns.len() as int) == Some(i)
                &&& u.conn == #[trigger] step_advanced(s, ev).conns[i]
                &&& ev.acc[i] matches AcceptEvent::Stream(peer, sid) && u.session.source == peer
                    && u.session.stream_id == sid
            },
{
    let s2 = step_advanced(s, ev);
    lemma_first_ready_bounds(ev.acc, s2.conns.len() as int);
}



/// Under well-formedness, the tracked connections are distinct members of
/// the finite established-id set, so they cannot outnumber it.
pub proof fn lemma_conns_bounded(s: MuxState)
    requires
        inv(s),
    ensures
        s.conns.len() <= s.established.len(),
{
    s.conns.unique_seq_to_set();
    assert(s.conns.to_set().subset_of(s.established)) by {
        assert forall|id: u64| s.conns.to_set().contains(id) implies s.established.contains(
            id,
        ) by {
            let k = choose|k: int| 0 <= k < s.conns.len() && #[trigger] s.conns[k] == id;
        }
    }
    vstd::set_lib::lemma_len_subset(s.conns.to_set(), s.established);
}

/// The number of successful resolutions one step records.
pub open spec fn step_successes(s: MuxState, ev: StepEvents) -> nat {
    established_prefix(step_drained(s, ev).connectings, ev.hs, ev.hs.len() as int).len()
}

/// Whether every step of a sequence consumes events of the right lengths.
pub open spec fn run_wf(s: MuxState, evs: Seq<StepEvents>) -> bool
    decreases evs.len(),
{
    evs.len() == 0 || (step_wf(s, evs[0]) && run_wf(step_next(s, evs[0]), evs.skip(1)))
}

/// The total number of successful resolutions over a sequence of steps.
pub open spec fn run_successes(s: MuxState, evs: Seq<StepEvents>) -> nat
    decreases evs.len(),
{
    if evs.len() == 0 {
        0
    } else {
        step_successes(s, evs[0]) + run_successes(step_next(s, evs[0]), evs.skip(1))
    }
}

/// Law: over any sequence of production steps, however each inbound attempt
/// resolves, the set of successfully resolved ids grows by exactly the total
/// number of successful resolutions, well-formedness is preserved, and the
/// connections able to produce accepted units never outnumber the successes.
pub proof fn lemma_run_accounting(s: MuxState, evs: Seq<StepEvents>)
    requires
        inv(s),
        run_wf(s, evs),
    ensures
        inv(run(s, evs)),
        run(s, evs).established.len() == s.established.len() + run_successes(s, evs),
        run(s, evs).conns.len() <= run(s, evs).established.len(),
    decreases evs.len(),
{
    if evs.len() == 0 {
        lemma_conns_bounded(s);
    } else {
        lemma_successes_reach_established(s, evs[0]);
        lemma_run_accounting(step_next(s, evs[0]), evs.skip(1));
    }
}

} // verus!
