//! The status exchange as a state machine. The caller performs each
//! action (read a byte, read a body, send a packet, close or abort) and
//! reports what happened as the next event.
use vstd::prelude::*;
use vstd::utf8::encode_utf8;

use crate::status::{
    build_pong_response, build_status_response, lemma_pong_echoes_ping, ping_timestamp,
    ping_value, pong_packet, status_packet,
};
use crate::varint::{lemma_varint_feed, lemma_varint_shape, varint, varint_read, VarintReader, VarintStep};

verus! {

/// The status text offered when none is configured.
pub const DEFAULT_STATUS: &'static str = "{\"description\":\"A Minecraft Server\",\"players\":{\"max\":20,\"online\":0},\"version\":{\"name\":\"Hoxen v1\",\"protocol\":774}}";

/// Where an exchange stands.
#[derive(Debug, Clone, Copy, PartialEq, Eq, Structural)]
pub enum Phase {
    /// Reading the length of the handshake.
    HandshakeLength,
    /// Reading the handshake body.
    Handshake,
    /// Reading the length of the status request.
    RequestLength,
    /// Reading the status request body.
    Request,
    /// The status response is being sent.
    StatusSent,
    /// Reading the length of the ping.
    PingLength,
    /// Reading the ping body.
    Ping,
    /// The pong is being sent.
    PongSent,
    /// The exchange is over.
    Closed,
}

/// Why an exchange stops without an answer, where the caller is to fail.
#[derive(Debug, Clone, Copy, PartialEq, Eq, Structural)]
pub enum Abort {
    /// A length took a fourth byte: it does not fit in sixteen bits.
    VarintTooLong,
    /// The ping body has this many bytes, fewer than the nine that hold
    /// its timestamp.
    ShortPing(usize),
}

/// What the caller observed after the last action.
pub enum SessionEvent {
    /// One byte was read.
    Byte(u8),
    /// The requested body was read in full.
    Data(Vec<u8>),
    /// The packet was sent in full.
    Sent,
    /// Reading or sending failed, or the peer closed.
    Failed,
}

/// What the caller is to do next.
pub enum SessionAction {
    /// Read one byte.
    ReadByte,
    /// Read exactly this many bytes.
    ReadExact(usize),
    /// Send this packet in full.
    Send(Vec<u8>),
    /// Close the connection.
    Close,
    /// Fail, for this reason.
    Abort(Abort),
}

/// A [`SessionEvent`] as a value.
pub enum EventModel {
    Byte(u8),
    Data(Seq<u8>),
    Sent,
    Failed,
}

/// A [`SessionAction`] as a value.
#[verifier::ext_equal]
pub enum ActionModel {
    ReadByte,
    ReadExact(nat),
    Send(Seq<u8>),
    Close,
    Abort(Abort),
}

/// A [`StatusSession`] as a value.
#[verifier::ext_equal]
pub struct SessionModel {
    pub phase: Phase,
    /// Bytes of the length being read.
    pub pending: Seq<u8>,
    /// The status text.
    pub status: Seq<char>,
}

impl View for SessionEvent {
    type V = EventModel;

    open spec fn view(&self) -> EventModel {
        match self {
            SessionEvent::Byte(b) => EventModel::Byte(*b),
            SessionEvent::Data(d) => EventModel::Data(d@),
            SessionEvent::Sent => EventModel::Sent,
            SessionEvent::Failed => EventModel::Failed,
        }
    }
}

impl View for SessionAction {
    type V = ActionModel;

    open spec fn view(&self) -> ActionModel {
        match self {
            SessionAction::ReadByte => ActionModel::ReadByte,
            SessionAction::ReadExact(n) => ActionModel::ReadExact(*n as nat),
            SessionAction::Send(d) => ActionModel::Send(d@),
            SessionAction::Close => ActionModel::Close,
            SessionAction::Abort(a) => ActionModel::Abort(*a),
        }
    }
}

/// The phases in which a length is read.
pub open spec fn is_length_phase(p: Phase) -> bool {
    p == Phase::HandshakeLength || p == Phase::RequestLength || p == Phase::PingLength
}

/// The body that a length read in phase `p` announces.
pub open spec fn body_phase(p: Phase) -> Phase {
    match p {
        Phase::HandshakeLength => Phase::Handshake,
        Phase::RequestLength => Phase::Request,
        _ => Phase::Ping,
    }
}

/// `s` moved to phase `p` with `pending` bytes of a length read so far.
pub open spec fn with_phase(s: SessionModel, p: Phase, pending: Seq<u8>) -> SessionModel {
    SessionModel { phase: p, pending: pending, status: s.status }
}

/// One step of the exchange: the state after `e` in state `s`, and the next
/// action. Lengths are read a byte at a time; a handshake, a status request
/// and a ping are each a length and then a body of that length. The status
/// response follows the request, the pong follows the ping, and the
/// exchange ends after the pong or on any failure or out-of-turn event.
#[verifier::opaque]
pub open spec fn session_step(s: SessionModel, e: EventModel) -> (SessionModel, ActionModel) {
    let closed = (with_phase(s, Phase::Closed, Seq::empty()), ActionModel::Close);
    match e {
        EventModel::Byte(b) => if is_length_phase(s.phase) {
            let bytes = s.pending.push(b);
            if s.pending.len() >= 3 {
                (
                    with_phase(s, Phase::Closed, Seq::empty()),
                    ActionModel::Abort(Abort::VarintTooLong),
                )
            } else if b < 128 {
                (
                    with_phase(s, body_phase(s.phase), Seq::empty()),
                    ActionModel::ReadExact(varint_read(bytes)->Some_0.0 as nat),
                )
            } else {
                (with_phase(s, s.phase, bytes), ActionModel::ReadByte)
            }
        } else {
            closed
        },
        EventModel::Data(d) => match s.phase {
            Phase::Handshake => (
                with_phase(s, Phase::RequestLength, Seq::empty()),
                ActionModel::ReadByte,
            ),
            Phase::Request => (
                with_phase(s, Phase::StatusSent, Seq::empty()),
                ActionModel::Send(status_packet(encode_utf8(s.status))),
            ),
            Phase::Ping => if d.len() < 9 {
                (
                    with_phase(s, Phase::Closed, Seq::empty()),
                    ActionModel::Abort(Abort::ShortPing(d.len() as usize)),
                )
            } else {
                (
                    with_phase(s, Phase::PongSent, Seq::empty()),
                    ActionModel::Send(pong_packet(ping_value(d))),
                )
            },
            _ => closed,
        },
        EventModel::Sent => match s.phase {
            Phase::StatusSent => (
                with_phase(s, Phase::PingLength, Seq::empty()),
                ActionModel::ReadByte,
            ),
            _ => closed,
        },
        EventModel::Failed => closed,
    }
}

/// The text to answer status requests with: the configured one, or
/// [`DEFAULT_STATUS`].
pub fn status_text(custom: Option<String>) -> (res: String)
    ensures
        res@ == match custom {
            Some(s) => s@,
            None => DEFAULT_STATUS@,
        },
{
    match custom {
        Some(s) => s,
        None => DEFAULT_STATUS.to_owned(),
    }
}

/// One status exchange with one client.
pub struct StatusSession {
    phase: Phase,
    reader: VarintReader,
    status: String,
}

impl StatusSession {
    #[verifier::type_invariant]
    spec fn idle_reader(self) -> bool {
        !is_length_phase(self.phase) ==> self.reader@ == Seq::<u8>::empty()
    }
}

impl View for StatusSession {
    type V = SessionModel;

    closed spec fn view(&self) -> SessionModel {
        SessionModel { phase: self.phase, pending: self.reader@, status: self.status@ }
    }
}

impl StatusSession {
    /// A new exchange that answers with `status`; it starts by reading a
    /// byte.
    pub fn new(status: String) -> (res: (Self, SessionAction))
        ensures
            res.0@ == (SessionModel {
                phase: Phase::HandshakeLength,
                pending: Seq::empty(),
                status: status@,
            }),
            res.1@ == ActionModel::ReadByte,
    {
        (StatusSession { phase: Phase::HandshakeLength, reader: VarintReader::new(), status }, SessionAction::ReadByte)
    }

    /// The current state.
    pub fn phase(&self) -> (res: Phase)
        ensures
            res == self@.phase,
    {
        self.phase
    }

    fn closed(self) -> (res: (Self, SessionAction))
        ensures
            res.0@ == with_phase(self@, Phase::Closed, Seq::empty()),
            res.1@ == ActionModel::Close,
    {
        proof {
            use_type_invariant(&self);
        }
        (
            StatusSession { phase: Phase::Closed, reader: VarintReader::new(), status: self.status },
            SessionAction::Close,
        )
    }

    fn on_byte(self, b: u8) -> (res: (Self, SessionAction))
        ensures
            (res.0@, res.1@) == session_step(self@, EventModel::Byte(b)),
    {
        proof {
            use_type_invariant(&self);
        }
        reveal(session_step);
        if self.phase == Phase::HandshakeLength || self.phase == Phase::RequestLength
            || self.phase == Phase::PingLength {
            let StatusSession { phase, reader, status } = self;
            let mut reader = reader;
            match reader.feed(b) {
                VarintStep::More => (StatusSession { phase, reader, status }, SessionAction::ReadByte),
                VarintStep::Done(n) => {
                    let next = if phase == Phase::HandshakeLength {
                        Phase::Handshake
                    } else if phase == Phase::RequestLength {
                        Phase::Request
                    } else {
                        Phase::Ping
                    };
                    (StatusSession { phase: next, reader, status }, SessionAction::ReadExact(n as usize))
                },
                VarintStep::TooLong => (
                    StatusSession { phase: Phase::Closed, reader, status },
                    SessionAction::Abort(Abort::VarintTooLong),
                ),
            }
        } else {
            self.closed()
        }
    }

    fn on_data(self, d: Vec<u8>) -> (res: (Self, SessionAction))
        ensures
            (res.0@, res.1@) == session_step(self@, EventModel::Data(d@)),
    {
        proof {
            use_type_invariant(&self);
        }
        reveal(session_step);
        if self.phase == Phase::Handshake {
            let StatusSession { phase, reader, status } = self;
            (StatusSession { phase: Phase::RequestLength, reader, status }, SessionAction::ReadByte)
        } else if self.phase == Phase::Request {
            let packet = build_status_response(self.status.clone());
            let StatusSession { phase, reader, status } = self;
            (StatusSession { phase: Phase::StatusSent, reader, status }, SessionAction::Send(packet))
        } else if self.phase == Phase::Ping {
            let StatusSession { phase, reader, status } = self;
            if d.len() < 9 {
                (
                    StatusSession { phase: Phase::Closed, reader, status },
                    SessionAction::Abort(Abort::ShortPing(d.len())),
                )
            } else {
                let t = ping_timestamp(&d);
                (
                    StatusSession { phase: Phase::PongSent, reader, status },
                    SessionAction::Send(build_pong_response(t)),
                )
            }
        } else {
            self.closed()
        }
    }

    /// Takes what happened after the last action; gives the exchange as it
    /// then stands and the next action.
    pub fn step(self, event: SessionEvent) -> (res: (Self, SessionAction))
        ensures
            (res.0@, res.1@) == session_step(self@, event@),
    {
        proof {
            use_type_invariant(&self);
        }
        match event {
            SessionEvent::Byte(b) => self.on_byte(b),
            SessionEvent::Data(d) => self.on_data(d),
            SessionEvent::Sent => {
                proof {
                    reveal(session_step);
                }
                if self.phase == Phase::StatusSent {
                    let StatusSession { phase, reader, status } = self;
                    (StatusSession { phase: Phase::PingLength, reader, status }, SessionAction::ReadByte)
                } else {
                    self.closed()
                }
            },
            SessionEvent::Failed => {
                proof {
                    reveal(session_step);
                }
                self.closed()
            },
        }
    }
}

// ---------------------------------------------------------------------
// Laws of the exchange
// ---------------------------------------------------------------------

/// The state and the actions after the events `es`, one step each.
pub open spec fn run(s: SessionModel, es: Seq<EventModel>) -> (SessionModel, Seq<ActionModel>)
    decreases es.len(),
{
    if es.len() == 0 {
        (s, Seq::empty())
    } else {
        let prev = run(s, es.drop_last());
        let next = session_step(prev.0, es.last());
        (next.0, prev.1.push(next.1))
    }
}

/// The events of reading `bytes` one at a time.
pub open spec fn byte_events(bytes: Seq<u8>) -> Seq<EventModel> {
    bytes.map_values(|b: u8| EventModel::Byte(b))
}

/// `k` requests for one more byte.
pub open spec fn byte_reads(k: nat) -> Seq<ActionModel> {
    Seq::new(k, |i: int| ActionModel::ReadByte)
}

/// The actions while a length `n` is read: one more byte for each byte but
/// the last of its encoding, then the body of `n` bytes.
pub open spec fn length_actions(n: nat) -> Seq<ActionModel> {
    byte_reads((varint(n).len() - 1) as nat).push(ActionModel::ReadExact(n))
}

/// The events of a client that asks for the status and pings: the
/// handshake `h`, the request `r`, the ping body `ping`, each after its
/// length, and the two packets sent in between.
pub open spec fn client_events(h: Seq<u8>, r: Seq<u8>, ping: Seq<u8>) -> Seq<EventModel> {
    byte_events(varint(h.len())) + seq![EventModel::Data(h)] + byte_events(varint(r.len()))
        + seq![EventModel::Data(r), EventModel::Sent] + byte_events(varint(ping.len())) + seq![
        EventModel::Data(ping),
        EventModel::Sent,
    ]
}

/// What the exchange answers such a client with, given the lengths of the
/// handshake and the request: reading requests, the status packet of its
/// text, the pong carrying bytes 1 to 8 of the ping, and the close.
pub open spec fn server_actions(h_len: nat, r_len: nat, ping: Seq<u8>, status: Seq<char>) -> Seq<
    ActionModel,
> {
    length_actions(h_len) + seq![ActionModel::ReadByte] + length_actions(r_len) + seq![
        ActionModel::Send(status_packet(encode_utf8(status))),
        ActionModel::ReadByte,
    ] + length_actions(ping.len()) + seq![
        ActionModel::Send(seq![9u8, 1u8] + ping.subrange(1, 9)),
        ActionModel::Close,
    ]
}

/// A new exchange answering with `status`.
pub open spec fn start_state(status: Seq<char>) -> SessionModel {
    SessionModel { phase: Phase::HandshakeLength, pending: Seq::empty(), status: status }
}

proof fn lemma_run_append(s: SessionModel, a: Seq<EventModel>, b: Seq<EventModel>)
    ensures
        run(s, a + b) == (run(run(s, a).0, b).0, run(s, a).1 + run(run(s, a).0, b).1),
    decreases b.len(),
{
    if b.len() == 0 {
        assert(a + b == a);
        assert(run(s, a).1 + Seq::<ActionModel>::empty() == run(s, a).1);
    } else {
        lemma_run_append(s, a, b.drop_last());
        assert((a + b).drop_last() == a + b.drop_last());
        assert((a + b).last() == b.last());
        let mid = run(s, a);
        let rb = run(mid.0, b.drop_last());
        assert(mid.1 + rb.1.push(session_step(rb.0, b.last()).1) == (mid.1 + rb.1).push(
            session_step(rb.0, b.last()).1,
        ));
    }
}

/// Reading the encoding of a length `n` byte by byte, from a length phase
/// with nothing pending: more bytes are asked for until the last, which
/// moves on to the body and asks for `n` bytes of it.
pub proof fn lemma_length_step(s: SessionModel, n: u16, i: int)
    requires
        is_length_phase(s.phase),
        0 <= i < varint(n as nat).len(),
    ensures
        ({
            let e = varint(n as nat);
            let here = with_phase(s, s.phase, e.take(i));
            &&& i < e.len() - 1 ==> session_step(here, EventModel::Byte(e[i])) == (
                with_phase(s, s.phase, e.take(i + 1)),
                ActionModel::ReadByte,
            )
            &&& i == e.len() - 1 ==> session_step(here, EventModel::Byte(e[i])) == (
                with_phase(s, body_phase(s.phase), Seq::<u8>::empty()),
                ActionModel::ReadExact(n as nat),
            )
        }),
{
    reveal(session_step);
    let e = varint(n as nat);
    lemma_varint_shape(n);
    lemma_varint_feed(n, i);
    assert(e.take(i).push(e[i]) == e.take(i + 1));
}

proof fn lemma_run_length(s: SessionModel, n: u16, i: int)
    requires
        is_length_phase(s.phase),
        s.pending == Seq::<u8>::empty(),
        0 <= i <= varint(n as nat).len(),
    ensures
        ({
            let e = varint(n as nat);
            &&& i < e.len() ==> run(s, byte_events(e.take(i))) == (
                with_phase(s, s.phase, e.take(i)),
                byte_reads(i as nat),
            )
            &&& i == e.len() ==> run(s, byte_events(e.take(i))) == (
                with_phase(s, body_phase(s.phase), Seq::<u8>::empty()),
                length_actions(n as nat),
            )
        }),
    decreases i,
{
    let e = varint(n as nat);
    lemma_varint_shape(n);
    if i == 0 {
        assert(e.take(0) == Seq::<u8>::empty());
        assert(byte_events(e.take(0)) == Seq::<EventModel>::empty());
        assert(s == with_phase(s, s.phase, e.take(0)));
        assert(byte_reads(0) == Seq::<ActionModel>::empty());
    } else {
        lemma_run_length(s, n, i - 1);
        let evs = byte_events(e.take(i));
        assert(evs.drop_last() == byte_events(e.take(i - 1)));
        assert(evs.last() == EventModel::Byte(e[i - 1]));
        lemma_length_step(s, n, i - 1);
        assert(byte_reads((i - 1) as nat).push(ActionModel::ReadByte) == byte_reads(i as nat));
    }
}

proof fn lemma_run_length_all(s: SessionModel, n: u16)
    requires
        is_length_phase(s.phase),
        s.pending == Seq::<u8>::empty(),
    ensures
        run(s, byte_events(varint(n as nat))) == (
            with_phase(s, body_phase(s.phase), Seq::<u8>::empty()),
            length_actions(n as nat),
        ),
{
    let e = varint(n as nat);
    lemma_run_length(s, n, e.len() as int);
    assert(e.take(e.len() as int) == e);
}

proof fn lemma_run_one(s: SessionModel, e: EventModel)
    ensures
        run(s, seq![e]) == (session_step(s, e).0, seq![session_step(s, e).1]),
{
    assert(seq![e].drop_last() == Seq::<EventModel>::empty());
    assert(seq![e].last() == e);
    assert(run(s, Seq::<EventModel>::empty()) == (s, Seq::<ActionModel>::empty()));
    assert(Seq::<ActionModel>::empty().push(session_step(s, e).1) == seq![session_step(s, e).1]);
}

proof fn lemma_run_two(s: SessionModel, e: EventModel, f: EventModel)
    ensures
        run(s, seq![e, f]) == (
            session_step(session_step(s, e).0, f).0,
            seq![session_step(s, e).1, session_step(session_step(s, e).0, f).1],
        ),
{
    lemma_run_one(s, e);
    assert(seq![e, f].drop_last() == seq![e]);
    assert(seq![session_step(s, e).1].push(session_step(session_step(s, e).0, f).1) == seq![
        session_step(s, e).1,
        session_step(session_step(s, e).0, f).1,
    ]);
}

proof fn lemma_handshake_body(s0: SessionModel, h: Seq<u8>)
    ensures
        run(with_phase(s0, Phase::Handshake, Seq::<u8>::empty()), seq![EventModel::Data(h)]) == (
            with_phase(s0, Phase::RequestLength, Seq::<u8>::empty()),
            seq![ActionModel::ReadByte],
        ),
{
    reveal(session_step);
    lemma_run_one(with_phase(s0, Phase::Handshake, Seq::<u8>::empty()), EventModel::Data(h));
}

proof fn lemma_request_body(s0: SessionModel, r: Seq<u8>)
    ensures
        run(
            with_phase(s0, Phase::Request, Seq::<u8>::empty()),
            seq![EventModel::Data(r), EventModel::Sent],
        ) == (
            with_phase(s0, Phase::PingLength, Seq::<u8>::empty()),
            seq![ActionModel::Send(status_packet(encode_utf8(s0.status))), ActionModel::ReadByte],
        ),
{
    reveal(session_step);
    lemma_run_two(
        with_phase(s0, Phase::Request, Seq::<u8>::empty()),
        EventModel::Data(r),
        EventModel::Sent,
    );
}

proof fn lemma_ping_body(s0: SessionModel, ping: Seq<u8>)
    requires
        ping.len() >= 9,
    ensures
        run(
            with_phase(s0, Phase::Ping, Seq::<u8>::empty()),
            seq![EventModel::Data(ping), EventModel::Sent],
        ) == (
            with_phase(s0, Phase::Closed, Seq::<u8>::empty()),
            seq![ActionModel::Send(seq![9u8, 1u8] + ping.subrange(1, 9)), ActionModel::Close],
        ),
{
    reveal(session_step);
    lemma_pong_echoes_ping(ping);
    lemma_run_two(
        with_phase(s0, Phase::Ping, Seq::<u8>::empty()),
        EventModel::Data(ping),
        EventModel::Sent,
    );
}

/// A client that sends a handshake, a status request and a ping of nine
/// or more bytes, each after its length, gets the status packet of the
/// exchange's text after the request, a pong echoing bytes 1 to 8 of the
/// ping after the ping, and then the exchange closes.
pub proof fn lemma_status_conversation(h: Seq<u8>, r: Seq<u8>, ping: Seq<u8>, status: Seq<char>)
    requires
        h.len() <= u16::MAX,
        r.len() <= u16::MAX,
        9 <= ping.len() <= u16::MAX,
    ensures
        run(start_state(status), client_events(h, r, ping)) == (
            with_phase(start_state(status), Phase::Closed, Seq::<u8>::empty()),
            server_actions(h.len(), r.len(), ping, status),
        ),
{
    let s0 = start_state(status);
    let e1 = byte_events(varint(h.len()));
    let e2 = seq![EventModel::Data(h)];
    let e3 = byte_events(varint(r.len()));
    let e4 = seq![EventModel::Data(r), EventModel::Sent];
    let e5 = byte_events(varint(ping.len()));
    let e6 = seq![EventModel::Data(ping), EventModel::Sent];
    let a1 = length_actions(h.len());
    let a2 = seq![ActionModel::ReadByte];
    let a3 = length_actions(r.len());
    let a4 = seq![ActionModel::Send(status_packet(encode_utf8(status))), ActionModel::ReadByte];
    let a5 = length_actions(ping.len());
    let a6 = seq![ActionModel::Send(seq![9u8, 1u8] + ping.subrange(1, 9)), ActionModel::Close];
    assert(client_events(h, r, ping) == e1 + e2 + e3 + e4 + e5 + e6);
    assert(server_actions(h.len(), r.len(), ping, status) == a1 + a2 + a3 + a4 + a5 + a6);
    let s1 = with_phase(s0, Phase::Handshake, Seq::<u8>::empty());
    let s2 = with_phase(s0, Phase::RequestLength, Seq::<u8>::empty());
    let s3 = with_phase(s0, Phase::Request, Seq::<u8>::empty());
    let s4 = with_phase(s0, Phase::PingLength, Seq::<u8>::empty());
    let s5 = with_phase(s0, Phase::Ping, Seq::<u8>::empty());
    let s6 = with_phase(s0, Phase::Closed, Seq::<u8>::empty());
    lemma_run_length_all(s0, h.len() as u16);
    assert(run(s0, e1) == (s1, a1));
    lemma_handshake_body(s0, h);
    lemma_run_append(s0, e1, e2);
    assert(run(s0, e1 + e2) == (s2, a1 + a2));
    lemma_run_length_all(s2, r.len() as u16);
    assert(with_phase(s2, Phase::Request, Seq::<u8>::empty()) == s3);
    lemma_run_append(s0, e1 + e2, e3);
    assert(run(s0, e1 + e2 + e3) == (s3, a1 + a2 + a3));
    lemma_request_body(s0, r);
    lemma_run_append(s0, e1 + e2 + e3, e4);
    assert(run(s0, e1 + e2 + e3 + e4) == (s4, a1 + a2 + a3 + a4));
    lemma_run_length_all(s4, ping.len() as u16);
    assert(with_phase(s4, Phase::Ping, Seq::<u8>::empty()) == s5);
    lemma_run_append(s0, e1 + e2 + e3 + e4, e5);
    assert(run(s0, e1 + e2 + e3 + e4 + e5) == (s5, a1 + a2 + a3 + a4 + a5));
    lemma_ping_body(s0, ping);
    lemma_run_append(s0, e1 + e2 + e3 + e4 + e5, e6);
    assert(run(s0, e1 + e2 + e3 + e4 + e5 + e6) == (s6, a1 + a2 + a3 + a4 + a5 + a6));
}

/// What the exchange sends does not depend on the contents of the
/// handshake or of the request, only on their lengths, the ping and the
/// status text.
pub proof fn lemma_reply_ignores_contents(
    h1: Seq<u8>,
    h2: Seq<u8>,
    r1: Seq<u8>,
    r2: Seq<u8>,
    ping: Seq<u8>,
    status: Seq<char>,
)
    requires
        h1.len() == h2.len() <= u16::MAX,
        r1.len() == r2.len() <= u16::MAX,
        9 <= ping.len() <= u16::MAX,
    ensures
        run(start_state(status), client_events(h1, r1, ping)) == run(
            start_state(status),
            client_events(h2, r2, ping),
        ),
{
    lemma_status_conversation(h1, r1, ping, status);
    lemma_status_conversation(h2, r2, ping, status);
}

/// The answer to a ping body of nine or more bytes is a pong whose eight
/// payload bytes are the ping's bytes 1 to 8.
pub proof fn lemma_pong_answer(s: SessionModel, d: Seq<u8>)
    requires
        s.phase == Phase::Ping,
        d.len() >= 9,
    ensures
        session_step(s, EventModel::Data(d)).1 == ActionModel::Send(
            seq![9u8, 1u8] + d.subrange(1, 9),
        ),
{
    reveal(session_step);
    lemma_pong_echoes_ping(d);
}

} // verus!
