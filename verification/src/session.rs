//! One connection's session: the handshake, the frame stream, the
//! identity binding, and the periodic control traffic.
//!
//! The session is a state machine over plain values.  The surrounding
//! program owns the socket and the clock: it feeds received bytes in
//! through `on_bytes`, turns the crank with `step` until nothing more can
//! be consumed, acts on each decision `dispatch` returns, and writes out
//! the frames `poll_timers` hands back.  A fatal condition — a wrong
//! greeting — closes the session; a corrupt or malformed frame only drops
//! that frame.

use vstd::prelude::*;
use crate::json::{bytes_at, decode_netmessage, spec_decode_netmessage, spec_encode_netmessage};
use crate::msg::{spec_destination, spec_name_role, Netmessage, Role, WorldPiece};
use crate::wire::{decode_frame, spec_decode_frame, spec_frame, FrameStep, Message, SpecFrameStep};

verus! {

/// The fixed 7-byte greeting every peer must send before any frame.
pub open spec fn spec_hello() -> Seq<u8> {
    seq![42u8, 72, 69, 76, 76, 79, 42]
}

/// The greeting as a runtime value.
pub fn hello_bytes() -> (v: Vec<u8>)
    ensures
        v@ == spec_hello(),
{
    let mut v: Vec<u8> = Vec::new();
    v.push(42);
    v.push(72);
    v.push(69);
    v.push(76);
    v.push(76);
    v.push(79);
    v.push(42);
    assert(v@ =~= spec_hello());
    v
}

/// Where a session stands in its life.
#[derive(Debug, Clone, Copy, PartialEq, Eq, Structural)]
pub enum SessionState {
    /// Nothing accepted yet: the greeting must come first.
    AwaitingHandshake,
    /// Frames flow, but the peer has not declared who it is.
    Unidentified,
    /// The peer declared this role; the declaration is final for the
    /// connection's lifetime.
    Identified(Role),
    /// Torn down after a protocol violation.
    Closed,
}

/// The session's mathematical state.
#[verifier::ext_equal]
pub struct SessView {
    pub state: SessionState,
    /// The channel under which this session is bound in the registry.
    pub chan: u64,
    /// Received bytes not yet consumed.
    pub buf: Seq<u8>,
    /// When each periodic message was last sent, in milliseconds.
    pub prev_heartbeat: u64,
    pub prev_netstats: u64,
    pub prev_req_name: u64,
}

/// What one turn of the crank found.
#[derive(Debug, Clone, Copy, PartialEq, Eq, Structural)]
pub enum StepOutcome {
    /// Nothing to do until more bytes arrive.
    NeedMore,
    /// The greeting was correct and has been consumed.
    Handshaken,
    /// The greeting was wrong: the session is closed, the connection
    /// should be torn down.
    Close,
    /// A corrupt, misframed or malformed frame was dropped; the
    /// connection goes on.
    FrameDropped,
    /// One well-formed message arrived.
    Got(Netmessage),
}

/// The bytes of `s` from position `n` on.
pub open spec fn drop_front(s: Seq<u8>, n: int) -> Seq<u8> {
    s.subrange(n, s.len() as int)
}

/// One turn of the crank: consume the greeting, or one frame, or nothing.
pub open spec fn spec_step(v: SessView) -> (SessView, StepOutcome) {
    match v.state {
        SessionState::AwaitingHandshake => {
            if v.buf.len() < 7 {
                (v, StepOutcome::NeedMore)
            } else if v.buf.subrange(0, 7) == spec_hello() {
                (
                    SessView { state: SessionState::Unidentified, buf: drop_front(v.buf, 7), ..v },
                    StepOutcome::Handshaken,
                )
            } else {
                (SessView { state: SessionState::Closed, ..v }, StepOutcome::Close)
            }
        },
        SessionState::Closed => (v, StepOutcome::NeedMore),
        _ => match spec_decode_frame(v.buf) {
            SpecFrameStep::Incomplete => (v, StepOutcome::NeedMore),
            SpecFrameStep::Bad { skip } => (
                SessView { buf: drop_front(v.buf, skip), ..v },
                StepOutcome::FrameDropped,
            ),
            SpecFrameStep::Ready { payload, used } => {
                let v2 = SessView { buf: drop_front(v.buf, used), ..v };
                match spec_decode_netmessage(payload) {
                    Some(m) => (v2, StepOutcome::Got(m)),
                    None => (v2, StepOutcome::FrameDropped),
                }
            },
        },
    }
}

/// What the dispatch loop decides to do with one received message.
#[derive(Debug, Clone, Copy, PartialEq, Eq, Structural)]
pub enum DispatchDecision {
    /// An identity declaration on an unidentified session: bind this
    /// role to this channel in the registry.
    Bind { role: Role, chan: u64 },
    /// A world fragment: hand it to the assembler.
    ToAssembler { frame: u32, piece: WorldPiece },
    /// An addressed message: forward it through the registry.
    Route,
    /// Unroutable here: log it under this session's name and drop it.
    Drop,
}

/// The dispatch decision for one message, and its effect on the session:
/// the first identity declaration binds, for good; world fragments go to
/// the assembler; everything in the routing table is forwarded; the rest
/// is dropped.
pub open spec fn spec_dispatch(v: SessView, m: Netmessage) -> (SessView, DispatchDecision) {
    match spec_name_role(m) {
        Some(role) => {
            if v.state is Unidentified {
                (
                    SessView { state: SessionState::Identified(role), ..v },
                    DispatchDecision::Bind { role, chan: v.chan },
                )
            } else {
                (v, DispatchDecision::Drop)
            }
        },
        None => match m {
            Netmessage::World { frame, piece } => (
                v,
                DispatchDecision::ToAssembler { frame, piece },
            ),
            _ => if spec_destination(m) is Some {
                (v, DispatchDecision::Route)
            } else {
                (v, DispatchDecision::Drop)
            },
        },
    }
}

/// A periodic message is due once its interval has fully passed.
pub open spec fn due(now: u64, prev: u64, interval: u64) -> bool {
    now > prev + interval
}

/// The session is past its handshake and not torn down.
pub open spec fn spec_active(v: SessView) -> bool {
    v.state is Unidentified || v.state is Identified
}

/// The frames the periodic timers owe at this instant: a heartbeat each
/// second, a statistics request every five, and — until the peer
/// identifies itself — an identity request every tenth of a second.
pub open spec fn spec_timer_frames(v: SessView, now: u64) -> Seq<Seq<u8>> {
    if !spec_active(v) {
        Seq::empty()
    } else {
        (if due(now, v.prev_heartbeat, 1000) {
            seq![spec_frame(spec_encode_netmessage(Netmessage::Heartbeat))]
        } else {
            Seq::empty()
        }) + (if due(now, v.prev_netstats, 5000) {
            seq![spec_frame(spec_encode_netmessage(Netmessage::ReqNetstats))]
        } else {
            Seq::empty()
        }) + (if v.state is Unidentified && due(now, v.prev_req_name, 100) {
            seq![spec_frame(spec_encode_netmessage(Netmessage::ReqName))]
        } else {
            Seq::empty()
        })
    }
}

/// The timers after a poll: each timer that fired is reset to now.
pub open spec fn spec_timer_update(v: SessView, now: u64) -> SessView {
    if !spec_active(v) {
        v
    } else {
        SessView {
            prev_heartbeat: if due(now, v.prev_heartbeat, 1000) {
                now
            } else {
                v.prev_heartbeat
            },
            prev_netstats: if due(now, v.prev_netstats, 5000) {
                now
            } else {
                v.prev_netstats
            },
            prev_req_name: if v.state is Unidentified && due(now, v.prev_req_name, 100) {
                now
            } else {
                v.prev_req_name
            },
            ..v
        }
    }
}

/// A declared identity is final: once a session is identified under a
/// role, neither consuming bytes nor dispatching any further message —
/// another identity declaration included — changes that binding.
pub proof fn lemma_identity_is_final(v: SessView, m: Netmessage, role: Role)
    requires
        v.state == SessionState::Identified(role),
    ensures
        spec_step(v).0.state == SessionState::Identified(role),
        spec_dispatch(v, m).0.state == SessionState::Identified(role),
{
}

/// A session past its handshake, with one whole well-checksummed frame
/// at the front of its buffer, consumes exactly that frame and stays in
/// its state; the outcome is the frame payload's message, or a dropped
/// frame where the payload is not a canonical message.
pub proof fn lemma_session_receives_frame(v: SessView, p: Seq<u8>, rest: Seq<u8>)
    requires
        spec_active(v),
        1 <= p.len() <= 256,
        v.buf == spec_frame(p) + rest,
    ensures
        ({
            let (v2, outcome) = spec_step(v);
            &&& v2.buf == rest
            &&& v2.state == v.state
            &&& outcome == (match spec_decode_netmessage(p) {
                Some(m) => StepOutcome::Got(m),
                None => StepOutcome::FrameDropped,
            })
        }),
{
    crate::wire::lemma_frame_round_trip(p, rest);
    assert(drop_front(v.buf, p.len() as int + 6) =~= rest);
}

/// A session past its handshake, fed a framed message at the front of
/// its buffer, hands back exactly that message, consumes exactly the
/// frame, and stays in its state: what one participant sends is what the
/// dispatch loop sees.
pub proof fn lemma_session_receives_framed_message(v: SessView, m: Netmessage, rest: Seq<u8>)
    requires
        spec_active(v),
        v.buf == spec_frame(spec_encode_netmessage(m)) + rest,
    ensures
        ({
            let (v2, outcome) = spec_step(v);
            &&& outcome == StepOutcome::Got(m)
            &&& v2.buf == rest
            &&& v2.state == v.state
        }),
{
    crate::json::lemma_encode_len(m);
    crate::json::lemma_netmessage_round_trip(m);
    lemma_session_receives_frame(v, spec_encode_netmessage(m), rest);
}

/// One connection's session state machine.
pub struct Session {
    state: SessionState,
    chan: u64,
    buf: Vec<u8>,
    prev_heartbeat: u64,
    prev_netstats: u64,
    prev_req_name: u64,
}

impl View for Session {
    type V = SessView;

    closed spec fn view(&self) -> SessView {
        SessView {
            state: self.state,
            chan: self.chan,
            buf: self.buf@,
            prev_heartbeat: self.prev_heartbeat,
            prev_netstats: self.prev_netstats,
            prev_req_name: self.prev_req_name,
        }
    }
}

/// A copy of `v` from position `n` on.
fn drop_front_exec(v: &Vec<u8>, n: usize) -> (r: Vec<u8>)
    requires
        n <= v.len(),
    ensures
        r@ == drop_front(v@, n as int),
{
    let mut r: Vec<u8> = Vec::new();
    let mut i: usize = n;
    while i < v.len()
        invariant
            n <= i <= v.len(),
            r@ == v@.subrange(n as int, i as int),
        decreases v.len() - i,
    {
        r.push(v[i]);
        assert(v@.subrange(n as int, i + 1) =~= v@.subrange(n as int, i as int).push(
            v@[i as int],
        ));
        i = i + 1;
    }
    r
}

impl Session {
    /// A fresh session for one accepted connection, before its greeting,
    /// with every timer starting now.
    pub fn new(chan: u64, now_ms: u64) -> (r: Session)
        ensures
            r@ == (SessView {
                state: SessionState::AwaitingHandshake,
                chan,
                buf: Seq::<u8>::empty(),
                prev_heartbeat: now_ms,
                prev_netstats: now_ms,
                prev_req_name: now_ms,
            }),
    {
        let r = Session {
            state: SessionState::AwaitingHandshake,
            chan,
            buf: Vec::new(),
            prev_heartbeat: now_ms,
            prev_netstats: now_ms,
            prev_req_name: now_ms,
        };
        assert(r@ =~= (SessView {
            state: SessionState::AwaitingHandshake,
            chan,
            buf: Seq::<u8>::empty(),
            prev_heartbeat: now_ms,
            prev_netstats: now_ms,
            prev_req_name: now_ms,
        }));
        r
    }

    /// Where the session stands.
    pub fn state(&self) -> (r: SessionState)
        ensures
            r == self@.state,
    {
        self.state
    }

    /// Bytes arrived from the socket: queue them for consumption.
    pub fn on_bytes(&mut self, data: &[u8])
        ensures
            final(self)@ == (SessView { buf: old(self)@.buf + data@, ..old(self)@ }),
    {
        self.buf.extend_from_slice(data);
        assert(self@ =~= (SessView { buf: old(self)@.buf + data@, ..old(self)@ }));
    }

    /// One turn of the crank, as `spec_step` describes.  Call it again
    /// until it reports that it needs more bytes.
    pub fn step(&mut self) -> (r: StepOutcome)
        ensures
            (final(self)@, r) == spec_step(old(self)@),
    {
        match self.state {
            SessionState::AwaitingHandshake => {
                if self.buf.len() < 7 {
                    return StepOutcome::NeedMore;
                }
                let hello = hello_bytes();
                if bytes_at(self.buf.as_slice(), 0, hello.as_slice()) {
                    self.buf = drop_front_exec(&self.buf, 7);
                    self.state = SessionState::Unidentified;
                    StepOutcome::Handshaken
                } else {
                    assert(self.buf@.subrange(0, 7) != spec_hello());
                    self.state = SessionState::Closed;
                    StepOutcome::Close
                }
            },
            SessionState::Closed => StepOutcome::NeedMore,
            _ => {
                match decode_frame(self.buf.as_slice()) {
                    FrameStep::Incomplete => StepOutcome::NeedMore,
                    FrameStep::Bad { skip } => {
                        self.buf = drop_front_exec(&self.buf, skip);
                        StepOutcome::FrameDropped
                    },
                    FrameStep::Ready { payload, used } => {
                        self.buf = drop_front_exec(&self.buf, used);
                        match decode_netmessage(payload.as_slice()) {
                            Some(m) => StepOutcome::Got(m),
                            None => StepOutcome::FrameDropped,
                        }
                    },
                }
            },
        }
    }

    /// Decide what to do with one received message, as `spec_dispatch`
    /// describes.
    pub fn dispatch(&mut self, m: &Netmessage) -> (r: DispatchDecision)
        ensures
            (final(self)@, r) == spec_dispatch(old(self)@, *m),
    {
        match m.name_role() {
            Some(role) => {
                if self.state == SessionState::Unidentified {
                    self.state = SessionState::Identified(role);
                    DispatchDecision::Bind { role, chan: self.chan }
                } else {
                    DispatchDecision::Drop
                }
            },
            None => match m {
                Netmessage::World { frame, piece } => DispatchDecision::ToAssembler {
                    frame: *frame,
                    piece: *piece,
                },
                _ => {
                    if m.destination().is_some() {
                        DispatchDecision::Route
                    } else {
                        DispatchDecision::Drop
                    }
                },
            },
        }
    }

    /// Emit the periodic frames now due, resetting the timers that
    /// fired: `spec_timer_frames` says which frames, `spec_timer_update`
    /// the new timer state.
    pub fn poll_timers(&mut self, now_ms: u64) -> (r: Vec<Vec<u8>>)
        ensures
            final(self)@ == spec_timer_update(old(self)@, now_ms),
            r@.map_values(|f: Vec<u8>| f@) == spec_timer_frames(old(self)@, now_ms),
    {
        let mut r: Vec<Vec<u8>> = Vec::new();
        let active = match self.state {
            SessionState::Unidentified => true,
            SessionState::Identified(_) => true,
            _ => false,
        };
        if !active {
            assert(r@.map_values(|f: Vec<u8>| f@) =~= spec_timer_frames(self@, now_ms));
            return r;
        }
        if now_ms > self.prev_heartbeat && now_ms - self.prev_heartbeat > 1000 {
            r.push(Message::from_netmessage(&Netmessage::Heartbeat));
            self.prev_heartbeat = now_ms;
        }
        if now_ms > self.prev_netstats && now_ms - self.prev_netstats > 5000 {
            r.push(Message::from_netmessage(&Netmessage::ReqNetstats));
            self.prev_netstats = now_ms;
        }
        let unidentified = self.state == SessionState::Unidentified;
        if unidentified && now_ms > self.prev_req_name && now_ms - self.prev_req_name > 100 {
            r.push(Message::from_netmessage(&Netmessage::ReqName));
            self.prev_req_name = now_ms;
        }
        assert(r@.map_values(|f: Vec<u8>| f@) =~= spec_timer_frames(old(self)@, now_ms));
        r
    }
}

} // verus!
