//! The session protocol engine: discovery decisions with the deterministic
//! tie-break, the per-session role state machine, the incremental stream
//! reader, and the fan-out sender with peer-drop detection.
//!
//! The engine itself never touches a socket.  The embedding application
//! performs the actual UDP and TCP work and feeds the engine plain values:
//! received datagrams, accepted or established connections (as address
//! pairs), the bytes currently peekable on each stream, and the outcome of
//! each write.  Every decision the protocol makes lives here.

use vstd::prelude::*;
use crate::message::{
    Message, MessageV, MessageHeader, MessageHistory, frame_bytes, wire_bytes,
};
use crate::profile::{Profile, ProfileV};
use crate::utilities::KnownUsers;
use vstd::bytes::{spec_u64_from_le_bytes, u64_from_le_bytes};
use vstd::slice::{slice_subrange, slice_to_vec};

verus! {

/// Lowest TCP port of the range reserved for peer-to-peer sessions.
pub const MIN_P2P_PORT: u16 = 61000;

/// Highest TCP port of the range reserved for peer-to-peer sessions.
pub const MAX_P2P_PORT: u16 = 61255;

/// The well-known UDP port discovery announcements are broadcast on.
pub const BROADCAST_PORT: u16 = 59813;

/// The role of a session, fixed at creation and never promoted.
#[derive(Clone, Copy, Debug, PartialEq, Eq, Structural)]
pub enum TcpStreamType {
    /// Accepting half of the self-loop: listened to, never sent on.
    Read,
    /// Connecting half of the self-loop: signals that sending may begin.
    Write,
    /// An ordinary full-duplex session with a remote peer.
    Both,
}

/// One established TCP session, named by its address pair.  Addresses are
/// held as plain values (IPv4 address as a 32-bit integer, plus port); the
/// socket itself stays with the embedding application.
pub struct PeerConnection {
    pub stream_type: TcpStreamType,
    pub peer_profile: Option<Profile>,
    pub peer_ip: u32,
    pub peer_port: u16,
    pub local_ip: u32,
    pub local_port: u16,
}

impl PeerConnection {
    /// A fresh session of the given role; the peer's profile is unknown
    /// until its greeting arrives.
    pub fn new(stream_type: TcpStreamType, peer_ip: u32, peer_port: u16, local_ip: u32,
        local_port: u16) -> (r: PeerConnection)
        ensures
            r == (PeerConnection {
                stream_type,
                peer_profile: None,
                peer_ip,
                peer_port,
                local_ip,
                local_port,
            }),
    {
        PeerConnection { stream_type, peer_profile: None, peer_ip, peer_port, local_ip, local_port }
    }

    /// Whether this session connects the host to itself.
    pub open spec fn spec_is_self_loop(&self) -> bool {
        self.peer_ip == self.local_ip
    }

    /// Whether this session connects the host to itself: the peer's address
    /// equals the local one.
    pub fn is_self_loop(&self) -> (r: bool)
        ensures
            r == self.spec_is_self_loop(),
    {
        self.peer_ip == self.local_ip
    }
}

/// Two sessions with the same role and addresses; the learned peer profile
/// is allowed to differ.
pub open spec fn same_session(a: PeerConnection, b: PeerConnection) -> bool {
    &&& a.stream_type == b.stream_type
    &&& a.peer_ip == b.peer_ip
    &&& a.peer_port == b.peer_port
    &&& a.local_ip == b.local_ip
    &&& a.local_port == b.local_port
}

proof fn lemma_push_contains<A>(s: Seq<A>, x: A)
    ensures
        forall|a: A| #[trigger] s.push(x).contains(a) <==> (s.contains(a) || a == x),
{
    assert forall|a: A| #[trigger] s.push(x).contains(a) <==> (s.contains(a) || a == x) by {
        if s.push(x).contains(a) {
            let i = choose|i: int| 0 <= i < s.push(x).len() && s.push(x)[i] == a;
            if i < s.len() {
                assert(s[i] == a);
            }
        }
        if s.contains(a) {
            let i = choose|i: int| 0 <= i < s.len() && s[i] == a;
            assert(s.push(x)[i] == a);
        }
        if a == x {
            assert(s.push(x)[s.len() as int] == a);
        }
    }
}

/// The discovery dedup set: the IPv4 addresses with an active or pending
/// session, kept so a repeat broadcast from a known address is ignored.
pub struct IpSet {
    ips: Vec<u32>,
}

impl View for IpSet {
    type V = Set<u32>;

    closed spec fn view(&self) -> Set<u32> {
        self.ips@.to_set()
    }
}

impl IpSet {
    /// An empty set.
    pub fn new() -> (r: IpSet)
        ensures
            r@ == Set::<u32>::empty(),
    {
        let r = IpSet { ips: Vec::new() };
        proof {
            assert(r@ =~= Set::<u32>::empty());
        }
        r
    }

    /// Whether the address is in the set.
    pub fn contains(&self, ip: u32) -> (r: bool)
        ensures
            r == self@.contains(ip),
    {
        let mut i: usize = 0;
        while i < self.ips.len()
            invariant
                i <= self.ips@.len(),
                forall|j: int| 0 <= j < i ==> self.ips@[j] != ip,
            decreases self.ips@.len() - i,
        {
            if self.ips[i] == ip {
                proof {
                    assert(self.ips@.contains(ip));
                }
                return true;
            }
            i += 1;
        }
        proof {
            assert(!self.ips@.contains(ip));
        }
        false
    }

    /// Adds the address.
    pub fn insert(&mut self, ip: u32)
        ensures
            final(self)@ == old(self)@.insert(ip),
    {
        self.ips.push(ip);
        proof {
            lemma_push_contains(old(self).ips@, ip);
            assert(self@ =~= old(self)@.insert(ip));
        }
    }

    /// Removes the address.
    pub fn remove(&mut self, ip: u32)
        ensures
            final(self)@ == old(self)@.remove(ip),
    {
        let mut out: Vec<u32> = Vec::new();
        let mut i: usize = 0;
        while i < self.ips.len()
            invariant
                i <= self.ips@.len(),
                self.ips == old(self).ips,
                forall|a: u32|
                    out@.contains(a) <==> (#[trigger] self.ips@.subrange(0, i as int).contains(a)
                        && a != ip),
            decreases self.ips@.len() - i,
        {
            let x = self.ips[i];
            let ghost prev_out = out@;
            if x != ip {
                out.push(x);
            }
            proof {
                let pre = self.ips@.subrange(0, i as int);
                let pre2 = self.ips@.subrange(0, i + 1 as int);
                assert(pre2 == pre.push(x));
                lemma_push_contains(pre, x);
                if x != ip {
                    lemma_push_contains(prev_out, x);
                }
            }
            i += 1;
        }
        proof {
            assert(self.ips@.subrange(0, self.ips@.len() as int) == self.ips@);
        }
        self.ips = out;
        proof {
            assert(self@ =~= old(self)@.remove(ip));
        }
    }
}

/// Everything the engine knows about its connections: the active sessions,
/// the discovery dedup set, and whether the engine has been switched on.
pub struct ConnectionState {
    pub connections: Vec<PeerConnection>,
    pub p2p_ips: IpSet,
    pub active: bool,
}

impl ConnectionState {
    /// A fresh, inactive engine with no sessions.
    pub fn new() -> (r: ConnectionState)
        ensures
            r.connections@ == Seq::<PeerConnection>::empty(),
            r.p2p_ips@ == Set::<u32>::empty(),
            r.active == false,
    {
        ConnectionState { connections: Vec::new(), p2p_ips: IpSet::new(), active: false }
    }

    /// Switches the background loops on or off.
    pub fn set_active(&mut self, val: bool)
        ensures
            final(self).active == val,
            final(self).connections == old(self).connections,
            final(self).p2p_ips == old(self).p2p_ips,
    {
        self.active = val;
    }
}

/// The tie-break rule: on seeing a broadcast from `rec_uid`, the host with
/// identifier `local_uid` initiates the TCP connection exactly when its own
/// identifier is the smaller of the two.  Equal identifiers can only be the
/// host seeing its own broadcast, and it does connect, establishing the
/// self-loop.
pub open spec fn spec_should_initiate(local_uid: u32, rec_uid: u32) -> bool {
    local_uid <= rec_uid
}

/// Executable form of [`spec_should_initiate`].
pub fn should_initiate(local_uid: u32, rec_uid: u32) -> (r: bool)
    ensures
        r == spec_should_initiate(local_uid, rec_uid),
{
    local_uid <= rec_uid
}

/// Tie-break symmetry: for two distinct identifiers, exactly one side
/// initiates when each observes the other's broadcast — the holder of the
/// smaller identifier — so no pair of peers ever opens two opposing
/// connections, and no pair waits forever.
pub proof fn lemma_tie_break_symmetry(a: u32, b: u32)
    requires
        a != b,
    ensures
        spec_should_initiate(a, b) <==> !spec_should_initiate(b, a),
        a < b ==> spec_should_initiate(a, b) && !spec_should_initiate(b, a),
{
}

/// What the discovery listener decides for one received datagram.
#[derive(Clone, Copy, Debug, PartialEq, Eq, Structural)]
pub enum BroadcastAction {
    /// Not a broadcast, a louder identifier, or an address already in a
    /// session: do nothing.
    Ignore,
    /// Attempt a TCP connection to the sender; its address has been claimed
    /// in the dedup set.
    Connect,
}

/// Applies the discovery rules to one decoded datagram from `src_ip`: a
/// connection is attempted exactly for a broadcast whose sender identifier
/// wins the tie-break against ours and whose address is not already in a
/// session.  On `Connect` the address is claimed in the dedup set.
pub fn handle_broadcast_msg(state: &mut ConnectionState, msg: &Message, local_uid: u32,
    src_ip: u32) -> (r: BroadcastAction)
    ensures
        r == BroadcastAction::Connect <==> (msg@ matches MessageV::Broadcast(rec_uid)
            && spec_should_initiate(local_uid, rec_uid) && !old(state).p2p_ips@.contains(src_ip)),
        r == BroadcastAction::Connect ==> final(state).p2p_ips@ == old(state).p2p_ips@.insert(
            src_ip,
        ),
        r == BroadcastAction::Ignore ==> final(state).p2p_ips@ == old(state).p2p_ips@,
        final(state).connections == old(state).connections,
        final(state).active == old(state).active,
{
    match msg {
        Message::Broadcast(rec_uid) => {
            if !should_initiate(local_uid, *rec_uid) {
                return BroadcastAction::Ignore;
            }
            if state.p2p_ips.contains(src_ip) {
                return BroadcastAction::Ignore;
            }
            state.p2p_ips.insert(src_ip);
            BroadcastAction::Connect
        }
        _ => BroadcastAction::Ignore,
    }
}

/// Decodes one UDP datagram and applies [`handle_broadcast_msg`].  A
/// datagram that does not decode is discarded, as stray traffic.
pub fn handle_broadcast_datagram(state: &mut ConnectionState, buf: &[u8], local_uid: u32,
    src_ip: u32) -> (r: BroadcastAction)
    ensures
        forall|m: MessageV|
            buf@ == #[trigger] frame_bytes(wire_bytes(m)) ==> (r == BroadcastAction::Connect <==> (
            m matches MessageV::Broadcast(rec_uid) && spec_should_initiate(local_uid, rec_uid)
                && !old(state).p2p_ips@.contains(src_ip))),
        r == BroadcastAction::Connect ==> final(state).p2p_ips@ == old(state).p2p_ips@.insert(
            src_ip,
        ),
        r == BroadcastAction::Ignore ==> final(state).p2p_ips@ == old(state).p2p_ips@,
        final(state).connections == old(state).connections,
        final(state).active == old(state).active,
{
    match Message::from_network(buf) {
        Ok(msg) => handle_broadcast_msg(state, &msg, local_uid, src_ip),
        Err(_) => BroadcastAction::Ignore,
    }
}

/// Registers the session made by a successful outbound connection attempt.
/// The self-loop (connecting to our own address) gets the `Write` role and
/// tells the caller to signal that chatting may begin; any other session is
/// full-duplex.  The address was already claimed when the connection was
/// decided; the caller sends the greeting on this session either way.
pub fn register_outbound_connection(state: &mut ConnectionState, peer_ip: u32, peer_port: u16,
    local_ip: u32, local_port: u16) -> (start_chatting: bool)
    ensures
        ({
            let role = if peer_ip == local_ip {
                TcpStreamType::Write
            } else {
                TcpStreamType::Both
            };
            final(state).connections@ == old(state).connections@.push(
                (PeerConnection {
                    stream_type: role,
                    peer_profile: None,
                    peer_ip,
                    peer_port,
                    local_ip,
                    local_port,
                }),
            )
        }),
        start_chatting == (peer_ip == local_ip),
        final(state).p2p_ips == old(state).p2p_ips,
        final(state).active == old(state).active,
{
    let self_loop = peer_ip == local_ip;
    let role = if self_loop {
        TcpStreamType::Write
    } else {
        TcpStreamType::Both
    };
    state.connections.push(PeerConnection::new(role, peer_ip, peer_port, local_ip, local_port));
    self_loop
}

/// Releases an address claimed for a connection attempt that failed, so a
/// future broadcast from it may be retried.
pub fn register_failed_connection(state: &mut ConnectionState, ip: u32)
    ensures
        final(state).p2p_ips@ == old(state).p2p_ips@.remove(ip),
        final(state).connections == old(state).connections,
        final(state).active == old(state).active,
{
    state.p2p_ips.remove(ip);
}

/// Registers a session accepted by the TCP listener.  The accepting half of
/// the self-loop gets the `Read` role and no greeting (the peer is this
/// very process); any other session is full-duplex and the caller must
/// write our greeting on it.  The peer's address is claimed either way.
pub fn register_inbound_connection(state: &mut ConnectionState, peer_ip: u32, peer_port: u16,
    local_ip: u32, local_port: u16) -> (send_hello: bool)
    ensures
        ({
            let role = if peer_ip == local_ip {
                TcpStreamType::Read
            } else {
                TcpStreamType::Both
            };
            final(state).connections@ == old(state).connections@.push(
                (PeerConnection {
                    stream_type: role,
                    peer_profile: None,
                    peer_ip,
                    peer_port,
                    local_ip,
                    local_port,
                }),
            )
        }),
        send_hello == (peer_ip != local_ip),
        final(state).p2p_ips@ == old(state).p2p_ips@.insert(peer_ip),
        final(state).active == old(state).active,
{
    state.p2p_ips.insert(peer_ip);
    let self_loop = peer_ip == local_ip;
    let role = if self_loop {
        TcpStreamType::Read
    } else {
        TcpStreamType::Both
    };
    state.connections.push(PeerConnection::new(role, peer_ip, peer_port, local_ip, local_port));
    !self_loop
}

/// The length the 8-byte header at the front of `avail` declares for the
/// compressed payload.
pub open spec fn frame_declared_len(avail: Seq<u8>) -> u64
    recommends
        avail.len() >= 8,
{
    spec_u64_from_le_bytes(avail.take(8))
}

/// Whether a whole frame is available: the header is complete and the bytes
/// it declares have all arrived.
pub open spec fn frame_ready(avail: Seq<u8>) -> bool {
    avail.len() >= 8 && avail.len() >= 8 + frame_declared_len(avail)
}

/// The length of the complete frame at the front of `avail`, header
/// included.
pub open spec fn frame_total_len(avail: Seq<u8>) -> int
    recommends
        frame_ready(avail),
{
    8 + frame_declared_len(avail)
}

/// Looks at the bytes currently peekable on a stream without consuming
/// anything, and says how long the complete frame at the front is — or that
/// no complete frame has arrived yet.
pub fn try_take_frame(avail: &[u8]) -> (r: Option<usize>)
    ensures
        r matches Some(t) ==> frame_ready(avail@) && t == frame_total_len(avail@),
        r is None ==> !frame_ready(avail@),
{
    if avail.len() < 8 {
        return None;
    }
    let declared = u64_from_le_bytes(slice_subrange(avail, 0, 8));
    proof {
        assert(avail@.subrange(0, 8) == avail@.take(8));
    }
    if ((avail.len() - 8) as u64) < declared {
        return None;
    }
    Some(8 + declared as usize)
}

/// Partial-frame stability: an incomplete frame — a header alone, or a
/// header plus fewer payload bytes than it declares — is never ready, so
/// the reader consumes nothing and emits nothing for it; once the missing
/// bytes arrive, exactly one frame of exactly the declared length is ready.
pub proof fn lemma_partial_frame_stability(avail: Seq<u8>, rest: Seq<u8>)
    requires
        avail.len() >= 8,
        avail.len() < 8 + frame_declared_len(avail),
        avail.len() + rest.len() == 8 + frame_declared_len(avail),
    ensures
        !frame_ready(avail),
        frame_ready(avail + rest),
        frame_total_len(avail + rest) == avail.len() + rest.len(),
{
    assert((avail + rest).take(8) =~= avail.take(8));
}

/// What one decoded message asks the engine to do, besides recording it:
/// answer with an acknowledgment, learn the sender's profile, or schedule
/// the sender's sessions for removal.
pub struct StreamEffects {
    pub reply_ack: Option<Message>,
    pub new_peer: Option<Profile>,
    pub drop_peer: bool,
}

/// The mathematical content of a [`StreamEffects`].
pub struct StreamEffectsV {
    pub reply_ack: Option<MessageV>,
    pub new_peer: Option<ProfileV>,
    pub drop_peer: bool,
}

impl View for StreamEffects {
    type V = StreamEffectsV;

    open spec fn view(&self) -> StreamEffectsV {
        StreamEffectsV {
            reply_ack: match self.reply_ack {
                Some(m) => Some(m@),
                None => None,
            },
            new_peer: match self.new_peer {
                Some(p) => Some(p@),
                None => None,
            },
            drop_peer: self.drop_peer,
        }
    }
}

/// The side effects the protocol assigns to each kind of received message:
/// a greeting teaches us the sender's profile (its join time is the
/// greeting's timestamp, its avatar the payload); a leave notice schedules
/// the sender's sessions for removal; a text or image from anyone but
/// ourselves is answered with an acknowledgment; everything else — an
/// acknowledgment above all — is only recorded.
pub open spec fn effects_spec(m: MessageV, local_uid: u32) -> StreamEffectsV {
    match m {
        MessageV::Hello(h, p) => StreamEffectsV {
            reply_ack: None,
            new_peer: Some(ProfileV { name: h.name, uid: h.uid, join_time: h.timestamp, pic: p }),
            drop_peer: false,
        },
        MessageV::Goodbye(_h, _p) => StreamEffectsV {
            reply_ack: None,
            new_peer: None,
            drop_peer: true,
        },
        MessageV::Text(h, _p) => StreamEffectsV {
            reply_ack: if h.uid != local_uid {
                Some(MessageV::Ack(local_uid, h.mid))
            } else {
                None
            },
            new_peer: None,
            drop_peer: false,
        },
        MessageV::Image(h, _p) => StreamEffectsV {
            reply_ack: if h.uid != local_uid {
                Some(MessageV::Ack(local_uid, h.mid))
            } else {
                None
            },
            new_peer: None,
            drop_peer: false,
        },
        _ => StreamEffectsV { reply_ack: None, new_peer: None, drop_peer: false },
    }
}

/// Computes [`effects_spec`] for a decoded message.
pub fn message_effects(m: &Message, local_uid: u32) -> (r: StreamEffects)
    ensures
        r@ == effects_spec(m@, local_uid),
{
    match m {
        Message::Hello(h, p) => StreamEffects {
            reply_ack: None,
            new_peer: Some(
                Profile {
                    name: h.name.clone(),
                    uid: h.uid,
                    join_time: h.timestamp,
                    pic: slice_to_vec(p.as_slice()),
                },
            ),
            drop_peer: false,
        },
        Message::Goodbye(_h, _p) => StreamEffects {
            reply_ack: None,
            new_peer: None,
            drop_peer: true,
        },
        Message::Text(h, _p) => StreamEffects {
            reply_ack: if h.uid != local_uid {
                Some(Message::Ack(local_uid, h.mid))
            } else {
                None
            },
            new_peer: None,
            drop_peer: false,
        },
        Message::Image(h, _p) => StreamEffects {
            reply_ack: if h.uid != local_uid {
                Some(Message::Ack(local_uid, h.mid))
            } else {
                None
            },
            new_peer: None,
            drop_peer: false,
        },
        Message::Broadcast(_) => StreamEffects { reply_ack: None, new_peer: None, drop_peer: false },
        Message::Ack(_, _) => StreamEffects { reply_ack: None, new_peer: None, drop_peer: false },
        Message::Dropped(_, _) => StreamEffects {
            reply_ack: None,
            new_peer: None,
            drop_peer: false,
        },
    }
}

/// Acknowledgment suppression: an incoming acknowledgment or broadcast
/// never produces an outgoing acknowledgment — otherwise two peers would
/// bounce replies forever — and neither does a text or image whose sender
/// identifier is our own, such as an echo off the self-loop.  A text or
/// image from anyone else is acknowledged, with our identifier and the
/// incoming message's identifier.
pub proof fn lemma_ack_suppression(m: MessageV, local_uid: u32)
    ensures
        (m matches MessageV::Ack(_, _)) ==> effects_spec(m, local_uid).reply_ack is None,
        (m matches MessageV::Broadcast(_)) ==> effects_spec(m, local_uid).reply_ack is None,
        (m matches MessageV::Hello(_, _)) ==> effects_spec(m, local_uid).reply_ack is None,
        (m matches MessageV::Text(h, _) && h.uid == local_uid) ==> effects_spec(
            m,
            local_uid,
        ).reply_ack is None,
        (m matches MessageV::Image(h, _) && h.uid == local_uid) ==> effects_spec(
            m,
            local_uid,
        ).reply_ack is None,
        m matches MessageV::Text(h, _) ==> (h.uid != local_uid ==> effects_spec(m, local_uid)
            .reply_ack == Some(MessageV::Ack(local_uid, h.mid))),
        m matches MessageV::Image(h, _) ==> (h.uid != local_uid ==> effects_spec(m, local_uid)
            .reply_ack == Some(MessageV::Ack(local_uid, h.mid))),
{
}

/// What one poll tick does for one session.
pub enum SessionPoll {
    /// A write-only session: the reader never touches it.
    Skipped,
    /// No complete frame has arrived: nothing is consumed this tick.
    Pending,
    /// A complete frame arrived but did not decode: its bytes are consumed
    /// and the frame is dropped, the session unaffected.
    BadFrame(usize),
    /// A complete frame arrived and decoded: its bytes are consumed and the
    /// message, with its side effects, is handed back.
    Received(usize, Message, StreamEffects),
}

/// One poll tick for one session, on the bytes currently peekable from its
/// stream.  Nothing is consumed until a whole frame is present; then
/// exactly the frame's bytes are.  Every frame that [`Message::to_network`]
/// produced decodes back to the message it was made from.
pub fn poll_session(conn: &PeerConnection, avail: &[u8], local_uid: u32) -> (r: SessionPoll)
    ensures
        r is Skipped <==> conn.stream_type == TcpStreamType::Write,
        conn.stream_type != TcpStreamType::Write ==> (r is Pending <==> !frame_ready(avail@)),
        r matches SessionPoll::BadFrame(t) ==> frame_ready(avail@) && t == frame_total_len(avail@),
        r matches SessionPoll::Received(t, msg, eff) ==> frame_ready(avail@) && t == frame_total_len(avail@)
            && eff@ == effects_spec(msg@, local_uid),
        forall|m: MessageV|
            (conn.stream_type != TcpStreamType::Write && frame_ready(avail@) && avail@.subrange(
                0,
                frame_total_len(avail@),
            ) == #[trigger] frame_bytes(wire_bytes(m))) ==> (r matches SessionPoll::Received(t, msg, eff)
                && msg@ == m),
{
    if matches!(conn.stream_type, TcpStreamType::Write) {
        return SessionPoll::Skipped;
    }
    match try_take_frame(avail) {
        None => SessionPoll::Pending,
        Some(total) => {
            let fb = slice_subrange(avail, 0, total);
            match Message::from_network(fb) {
                Ok(msg) => {
                    let eff = message_effects(&msg, local_uid);
                    SessionPoll::Received(total, msg, eff)
                }
                Err(_) => SessionPoll::BadFrame(total),
            }
        }
    }
}

/// Whether some decoded message in `events` demanded exactly this
/// acknowledgment.
#[verifier::opaque]
pub open spec fn ack_justified(ack: Message, events: Seq<Message>, local_uid: u32) -> bool {
    exists|e: int|
        0 <= e < events.len() && effects_spec(events[e]@, local_uid).reply_ack == Some(ack@)
}

/// Whether this session has the role and addresses of one of the sessions
/// in `orig`.
#[verifier::opaque]
pub open spec fn session_from(c: PeerConnection, orig: Seq<PeerConnection>) -> bool {
    exists|j: int| 0 <= j < orig.len() && same_session(c, orig[j])
}

/// Whether `conns` holds a session with `c`'s role and addresses whose
/// learned peer profile is exactly `p`.
#[verifier::opaque]
pub open spec fn session_with_profile(c: PeerConnection, conns: Seq<PeerConnection>,
    p: ProfileV) -> bool {
    exists|i: int|
        0 <= i < conns.len() && same_session(conns[i], c) && (conns[i].peer_profile matches Some(q)
            && q@ == p)
}

/// Whether the bytes peekable on a stream begin with the complete wire
/// frame of exactly this message.
pub open spec fn frame_carries(avail: Seq<u8>, m: MessageV) -> bool {
    frame_ready(avail) && avail.subrange(0, frame_total_len(avail)) == frame_bytes(wire_bytes(m))
}

/// Whether this acknowledgment is among those handed back for fan-out.
#[verifier::opaque]
pub open spec fn ack_listed(a: MessageV, acks: Seq<Message>) -> bool {
    exists|k: int| 0 <= k < acks.len() && acks[k]@ == a
}

/// Whether this message is among the decoded events of a pass.
#[verifier::opaque]
pub open spec fn event_listed(m: MessageV, events: Seq<Message>) -> bool {
    exists|e: int| 0 <= e < events.len() && events[e]@ == m
}

/// Whether `conns` holds exactly this session value.
#[verifier::opaque]
spec fn retained_in(c: PeerConnection, conns: Seq<PeerConnection>) -> bool {
    exists|i: int| 0 <= i < conns.len() && conns[i] == c
}

/// How many entries of a consumption list are nonzero: the number of frames
/// a pass took off its streams, and so an upper bound for the number of
/// messages it may emit.
pub open spec fn count_nonzero(s: Seq<usize>) -> int
    decreases s.len(),
{
    if s.len() == 0 {
        0
    } else {
        (if s.last() != 0 {
            1int
        } else {
            0int
        }) + count_nonzero(s.drop_last())
    }
}

/// The profile carried by the last greeting among `events` whose sender
/// identifier is `u`, if any: the registry maps `u` to exactly this profile
/// after a pass, since later greetings overwrite earlier ones.
pub open spec fn last_hello_profile(events: Seq<Message>, local_uid: u32, u: u32) -> Option<
    ProfileV,
>
    decreases events.len(),
{
    if events.len() == 0 {
        None
    } else {
        match effects_spec(events.last()@, local_uid).new_peer {
            Some(p) => if p.uid == u {
                Some(p)
            } else {
                last_hello_profile(events.drop_last(), local_uid, u)
            },
            None => last_hello_profile(events.drop_last(), local_uid, u),
        }
    }
}

/// A scheduled removal is justified: some readable session with that
/// address had a whole frame ready whose message — for every message the
/// codec could have framed there — is a leave notice.
#[verifier::opaque]
pub open spec fn kill_justified(addr: (u32, u16), conns: Seq<PeerConnection>,
    avail: Seq<Vec<u8>>, local_uid: u32) -> bool {
    exists|j: int|
        0 <= j < conns.len() && conns[j].peer_ip == addr.0 && conns[j].peer_port == addr.1
            && conns[j].stream_type != TcpStreamType::Write && frame_ready(avail[j]@) && (forall|
            m: MessageV,
        |
            frame_carries(avail[j]@, m) ==> effects_spec(m, local_uid).drop_peer)
}

proof fn lemma_push_last<A>(s: Seq<A>, x: A)
    ensures
        s.push(x).last() == x,
        s.push(x).drop_last() == s,
{
    assert(s.push(x).drop_last() =~= s);
}

proof fn lemma_event_listed_push(m: MessageV, events: Seq<Message>, x: Message)
    requires
        event_listed(m, events),
    ensures
        event_listed(m, events.push(x)),
{
    reveal(event_listed);
    let e0 = choose|e: int| 0 <= e < events.len() && events[e]@ == m;
    assert(events.push(x)[e0]@ == m);
}

proof fn lemma_ack_listed_push(a: MessageV, acks: Seq<Message>, x: Message)
    requires
        ack_listed(a, acks),
    ensures
        ack_listed(a, acks.push(x)),
{
    reveal(ack_listed);
    let k0 = choose|k: int| 0 <= k < acks.len() && acks[k]@ == a;
    assert(acks.push(x)[k0]@ == a);
}

fn addr_killed(kills: &Vec<(u32, u16)>, ip: u32, port: u16) -> (r: bool)
    ensures
        r == kills@.contains((ip, port)),
{
    let mut i: usize = 0;
    while i < kills.len()
        invariant
            i <= kills@.len(),
            forall|j: int| 0 <= j < i ==> kills@[j] != (ip, port),
        decreases kills@.len() - i,
    {
        if kills[i].0 == ip && kills[i].1 == port {
            proof {
                assert(kills@.contains((ip, port)));
            }
            return true;
        }
        i += 1;
    }
    proof {
        assert(!kills@.contains((ip, port)));
    }
    false
}

/// What the per-session scan of one pass produced, before removals are
/// applied: the consumption counts, the decoded events, the owed
/// acknowledgments, and the addresses scheduled for removal.
struct ScanOutcome {
    consumed: Vec<usize>,
    events: Vec<Message>,
    outgoing_acks: Vec<Message>,
    kills: Vec<(u32, u16)>,
}

/// The per-session half of a poll pass: decides, for each session in
/// order, what to consume and what the decoded message asks for, records
/// and hands back events and owed acknowledgments, upserts greetings into
/// the registry and attaches them to their sessions, and collects the
/// addresses that leave notices schedule for removal.
#[verifier::loop_isolation(false)]
#[verifier::rlimit(100)]
#[verifier::spinoff_prover]
fn scan_sessions(state: &mut ConnectionState, history: &mut MessageHistory,
    known_users: &mut KnownUsers, local_uid: u32, avail: &Vec<Vec<u8>>) -> (r: ScanOutcome)
    requires
        avail@.len() == old(state).connections@.len(),
    ensures
        r.consumed@.len() == old(state).connections@.len(),
        forall|i: int|
            0 <= i < r.consumed@.len() && !frame_ready(avail@[i]@) ==> r.consumed@[i] == 0,
        forall|i: int|
            0 <= i < r.consumed@.len() && old(state).connections@[i].stream_type
                == TcpStreamType::Write ==> r.consumed@[i] == 0,
        forall|i: int|
            0 <= i < r.consumed@.len() ==> r.consumed@[i] == 0 || (frame_ready(avail@[i]@)
                && r.consumed@[i] == frame_total_len(avail@[i]@)),
        forall|i: int|
            0 <= i < r.consumed@.len() && old(state).connections@[i].stream_type
                != TcpStreamType::Write && frame_ready(avail@[i]@) ==> r.consumed@[i]
                == frame_total_len(avail@[i]@),
        forall|i: int, m: MessageV|
            (0 <= i < r.consumed@.len() && old(state).connections@[i].stream_type
                != TcpStreamType::Write && #[trigger] frame_carries(avail@[i]@, m))
                ==> event_listed(m, r.events@),
        r.events@.len() <= count_nonzero(r.consumed@),
        final(history).msgs@.len() == old(history).msgs@.len() + r.events@.len(),
        final(history).msgs@.subrange(0, old(history).msgs@.len() as int) == old(history).msgs@,
        forall|k: int|
            0 <= k < r.events@.len() ==> final(history).msgs@[old(history).msgs@.len() + k]@
                == r.events@[k]@,
        final(history).ids_seen() == old(history).ids_seen(),
        forall|k: int|
            #![trigger r.outgoing_acks@[k]]
            0 <= k < r.outgoing_acks@.len() ==> ack_justified(
                r.outgoing_acks@[k],
                r.events@,
                local_uid,
            ),
        forall|i: int, m: MessageV|
            (0 <= i < r.consumed@.len() && old(state).connections@[i].stream_type
                != TcpStreamType::Write && #[trigger] frame_carries(avail@[i]@, m)) ==> (
            effects_spec(m, local_uid).reply_ack matches Some(a) ==> ack_listed(
                a,
                r.outgoing_acks@,
            )),
        forall|u: u32|
            #![trigger last_hello_profile(r.events@, local_uid, u)]
            (last_hello_profile(r.events@, local_uid, u) matches Some(p)
                ==> final(known_users)@.contains_key(u) && final(known_users)@[u]@ == p)
                && (last_hello_profile(r.events@, local_uid, u) is None
                ==> ((final(known_users)@.contains_key(u) <==> old(known_users)@.contains_key(u))
                && (old(known_users)@.contains_key(u)
                ==> final(known_users)@[u] == old(known_users)@[u]))),
        forall|u: u32| old(known_users)@.contains_key(u) ==> final(known_users)@.contains_key(u),
        forall|k: int|
            #![trigger r.kills@[k]]
            0 <= k < r.kills@.len() ==> kill_justified(
                r.kills@[k],
                old(state).connections@,
                avail@,
                local_uid,
            ),
        forall|j: int, m: MessageV|
            (0 <= j < old(state).connections@.len() && old(state).connections@[j].stream_type
                != TcpStreamType::Write && #[trigger] frame_carries(avail@[j]@, m) && effects_spec(
                m,
                local_uid,
            ).drop_peer) ==> r.kills@.contains(
                (old(state).connections@[j].peer_ip, old(state).connections@[j].peer_port),
            ),
        final(state).connections@.len() == old(state).connections@.len(),
        forall|j: int|
            0 <= j < old(state).connections@.len() ==> same_session(
                #[trigger] final(state).connections@[j],
                old(state).connections@[j],
            ),
        forall|j: int, m: MessageV|
            (0 <= j < old(state).connections@.len() && old(state).connections@[j].stream_type
                != TcpStreamType::Write && #[trigger] frame_carries(avail@[j]@, m))
            ==> (effects_spec(m, local_uid).new_peer matches Some(p)
            ==> (final(state).connections@[j].peer_profile matches Some(q) && q@ == p)),
        (forall|i: int| 0 <= i < r.consumed@.len() ==> r.consumed@[i] == 0)
            ==> (final(state).connections@ == old(state).connections@
            && r.kills@ == Seq::<(u32, u16)>::empty()),
        final(state).p2p_ips == old(state).p2p_ips,
        final(state).active == old(state).active,
{
    let ghost orig_conns = old(state).connections@;
    let ghost orig_msgs = old(history).msgs@;
    let ghost orig_known = old(known_users)@;
    let mut consumed: Vec<usize> = Vec::new();
    let mut events: Vec<Message> = Vec::new();
    let mut outgoing_acks: Vec<Message> = Vec::new();
    let mut kills: Vec<(u32, u16)> = Vec::new();
    let ghost mut ack_src: Seq<int> = Seq::empty();
    let mut i: usize = 0;
    while i < avail.len()
        invariant
            i <= orig_conns.len(),
            state.connections@.len() == orig_conns.len(),
            forall|j: int|
                0 <= j < orig_conns.len() ==> same_session(
                    #[trigger] state.connections@[j],
                    orig_conns[j],
                ),
            forall|j: int, m: MessageV|
                (0 <= j < i && orig_conns[j].stream_type != TcpStreamType::Write
                    && #[trigger] frame_carries(avail@[j]@, m)) ==> (effects_spec(
                    m,
                    local_uid,
                ).new_peer matches Some(p) ==> (state.connections@[j].peer_profile matches Some(q)
                    && q@ == p)),
            consumed@.len() == i,
            forall|j: int| 0 <= j < i && !frame_ready(avail@[j]@) ==> consumed@[j] == 0,
            forall|j: int|
                0 <= j < i && orig_conns[j].stream_type == TcpStreamType::Write ==> consumed@[j]
                    == 0,
            forall|j: int|
                0 <= j < i ==> consumed@[j] == 0 || (frame_ready(avail@[j]@) && consumed@[j]
                    == frame_total_len(avail@[j]@)),
            forall|j: int|
                0 <= j < i && orig_conns[j].stream_type != TcpStreamType::Write && frame_ready(
                    avail@[j]@,
                ) ==> consumed@[j] == frame_total_len(avail@[j]@),
            forall|j: int, m: MessageV|
                (0 <= j < i && orig_conns[j].stream_type != TcpStreamType::Write
                    && #[trigger] frame_carries(avail@[j]@, m)) ==> event_listed(m, events@),
            events@.len() <= count_nonzero(consumed@),
            history.msgs@.len() == orig_msgs.len() + events@.len(),
            history.msgs@.subrange(0, orig_msgs.len() as int) == orig_msgs,
            forall|k: int|
                0 <= k < events@.len() ==> history.msgs@[orig_msgs.len() + k]@ == events@[k]@,
            history.ids_seen() == old(history).ids_seen(),
            ack_src.len() == outgoing_acks@.len(),
            forall|k: int|
                #![trigger ack_src[k]]
                0 <= k < outgoing_acks@.len() ==> 0 <= ack_src[k] < events@.len()
                    && effects_spec(events@[ack_src[k]]@, local_uid).reply_ack == Some(
                    outgoing_acks@[k]@,
                ),
            forall|j: int, m: MessageV|
                (0 <= j < i && orig_conns[j].stream_type != TcpStreamType::Write
                    && #[trigger] frame_carries(avail@[j]@, m)) ==> (effects_spec(
                    m,
                    local_uid,
                ).reply_ack matches Some(a) ==> ack_listed(a, outgoing_acks@)),
            forall|u: u32|
                #![trigger last_hello_profile(events@, local_uid, u)]
                (last_hello_profile(events@, local_uid, u) matches Some(p)
                    ==> known_users@.contains_key(u) && known_users@[u]@ == p) && (
                last_hello_profile(events@, local_uid, u) is None ==> ((known_users@.contains_key(
                    u,
                ) <==> orig_known.contains_key(u)) && (orig_known.contains_key(u)
                    ==> known_users@[u] == orig_known[u]))),
            forall|u: u32| orig_known.contains_key(u) ==> known_users@.contains_key(u),
            forall|k: int|
                0 <= k < kills@.len() ==> #[trigger] kill_justified(
                    kills@[k],
                    orig_conns,
                    avail@,
                    local_uid,
                ),
            forall|j: int, m: MessageV|
                (0 <= j < i && orig_conns[j].stream_type != TcpStreamType::Write
                    && #[trigger] frame_carries(avail@[j]@, m) && effects_spec(
                    m,
                    local_uid,
                ).drop_peer) ==> kills@.contains((orig_conns[j].peer_ip, orig_conns[j].peer_port)),
            (forall|j: int| 0 <= j < i ==> consumed@[j] == 0) ==> (state.connections@ == orig_conns
                && kills@.len() == 0),
            state.p2p_ips == old(state).p2p_ips,
            state.active == old(state).active,
        decreases avail@.len() - i,
    {
        let ghost pre_events = events@;
        let ghost pre_consumed = consumed@;
        let ghost pre_known = known_users@;
        let ghost conn_at_call = state.connections@[i as int];
        let poll = poll_session(&state.connections[i], avail[i].as_slice(), local_uid);
        proof {
            assert(same_session(conn_at_call, orig_conns[i as int]));
        }
        match poll {
            SessionPoll::Skipped => {
                consumed.push(0);
                proof {
                    lemma_push_last(pre_consumed, 0);
                    assert(orig_conns[i as int].stream_type == TcpStreamType::Write);
                    assert(count_nonzero(consumed@) == count_nonzero(pre_consumed));
                }
            }
            SessionPoll::Pending => {
                consumed.push(0);
                proof {
                    lemma_push_last(pre_consumed, 0);
                    assert(!frame_ready(avail@[i as int]@));
                    assert(count_nonzero(consumed@) == count_nonzero(pre_consumed));
                }
            }
            SessionPoll::BadFrame(t) => {
                consumed.push(t);
                proof {
                    lemma_push_last(pre_consumed, t);
                    assert(t >= 8);
                    assert(consumed@[i as int] != 0);
                    assert(count_nonzero(consumed@) == count_nonzero(pre_consumed) + 1);
                    // the poll contract promises a decoded message for every
                    // frame the codec produced, so this frame matches none
                    assert forall|m: MessageV| !#[trigger] frame_carries(
                        avail@[i as int]@,
                        m,
                    ) by {
                        if frame_carries(avail@[i as int]@, m) {
                            assert(poll matches SessionPoll::Received(t2, msg, eff));
                        }
                    }
                }
            }
            SessionPoll::Received(t, msg, eff) => {
                let ghost msgv = msg@;
                let ghost effv = eff@;
                consumed.push(t);
                proof {
                    lemma_push_last(pre_consumed, t);
                    assert(t >= 8);
                    assert(consumed@[i as int] != 0);
                    assert(count_nonzero(consumed@) == count_nonzero(pre_consumed) + 1);
                }
                history.push(msg.clone());
                let StreamEffects { reply_ack, new_peer, drop_peer } = eff;
                match new_peer {
                    Some(p) => {
                        let ghost pval = p@;
                        let (st, pip, ppt, lip, lpt) = {
                            let cref = &state.connections[i];
                            (cref.stream_type, cref.peer_ip, cref.peer_port, cref.local_ip,
                            cref.local_port)
                        };
                        known_users.add_user(p.clone());
                        state.connections.set(
                            i,
                            PeerConnection {
                                stream_type: st,
                                peer_profile: Some(p),
                                peer_ip: pip,
                                peer_port: ppt,
                                local_ip: lip,
                                local_port: lpt,
                            },
                        );
                        proof {
                            assert(state.connections@[i as int].peer_profile matches Some(q)
                                && q@ == pval);
                        }
                    }
                    None => {}
                }
                let ghost pre_kills = kills@;
                if drop_peer {
                    let (pip, ppt) = {
                        let cref = &state.connections[i];
                        (cref.peer_ip, cref.peer_port)
                    };
                    kills.push((pip, ppt));
                    proof {
                        reveal(kill_justified);
                        lemma_push_contains(pre_kills, (pip, ppt));
                        assert(orig_conns[i as int].peer_ip == pip);
                        assert(orig_conns[i as int].peer_port == ppt);
                        assert forall|m: MessageV| #[trigger] frame_carries(
                            avail@[i as int]@,
                            m,
                        ) implies effects_spec(m, local_uid).drop_peer by {
                            assert(msgv == m);
                        }
                        assert(kill_justified((pip, ppt), orig_conns, avail@, local_uid));
                    }
                }
                let ghost pre_acks = outgoing_acks@;
                let ghost pre_ack_src = ack_src;
                match reply_ack {
                    Some(a) => {
                        proof {
                            assert(effv.reply_ack == Some(a@));
                            ack_src = ack_src.push(events@.len() as int);
                        }
                        outgoing_acks.push(a);
                    }
                    None => {}
                }
                events.push(msg);
                proof {
                    reveal(event_listed);
                    reveal(ack_listed);
                    lemma_push_last(pre_events, events@[events@.len() - 1]);
                    assert(events@[events@.len() - 1]@ == msgv);
                    assert(effects_spec(events@[events@.len() - 1]@, local_uid) == effv);
                    assert forall|k: int|
                        #![trigger ack_src[k]]
                        0 <= k < outgoing_acks@.len() implies 0 <= ack_src[k] < events@.len()
                        && effects_spec(events@[ack_src[k]]@, local_uid).reply_ack == Some(
                        outgoing_acks@[k]@,
                    ) by {
                        if k < pre_acks.len() {
                            assert(outgoing_acks@[k] == pre_acks[k]);
                            assert(ack_src[k] == pre_ack_src[k]);
                            assert(events@[pre_ack_src[k]] == pre_events[pre_ack_src[k]]);
                        } else {
                            assert(ack_src[k] == events@.len() - 1);
                            assert(effects_spec(events@[events@.len() - 1]@, local_uid).reply_ack
                                == Some(outgoing_acks@[k]@));
                        }
                    }
                    assert forall|j2: int, m: MessageV|
                        (0 <= j2 < i + 1 && orig_conns[j2].stream_type != TcpStreamType::Write
                            && #[trigger] frame_carries(avail@[j2]@, m)) implies event_listed(
                        m,
                        events@,
                    ) by {
                        if j2 == i {
                            assert(msgv == m);
                            assert(events@[events@.len() - 1]@ == m);
                            assert(event_listed(m, events@));
                        } else {
                            lemma_event_listed_push(m, pre_events, events@[events@.len() - 1]);
                        }
                    }
                    assert forall|j2: int, m: MessageV|
                        (0 <= j2 < i + 1 && orig_conns[j2].stream_type != TcpStreamType::Write
                            && #[trigger] frame_carries(avail@[j2]@, m)) implies (effects_spec(
                        m,
                        local_uid,
                    ).reply_ack matches Some(a2) ==> ack_listed(a2, outgoing_acks@)) by {
                        if j2 == i {
                            assert(msgv == m);
                            match effv.reply_ack {
                                Some(av) => {
                                    assert(outgoing_acks@[outgoing_acks@.len() - 1]@ == av);
                                    assert(ack_listed(av, outgoing_acks@));
                                }
                                None => {}
                            }
                        } else {
                            match effects_spec(m, local_uid).reply_ack {
                                Some(a2) => {
                                    assert(ack_listed(a2, pre_acks));
                                    if outgoing_acks@.len() > pre_acks.len() {
                                        assert(outgoing_acks@ == pre_acks.push(
                                            outgoing_acks@[outgoing_acks@.len() - 1],
                                        ));
                                        lemma_ack_listed_push(
                                            a2,
                                            pre_acks,
                                            outgoing_acks@[outgoing_acks@.len() - 1],
                                        );
                                    }
                                }
                                None => {}
                            }
                        }
                    }
                    assert forall|j2: int, m: MessageV|
                        (0 <= j2 < i + 1 && orig_conns[j2].stream_type != TcpStreamType::Write
                            && #[trigger] frame_carries(avail@[j2]@, m) && effects_spec(
                            m,
                            local_uid,
                        ).drop_peer) implies kills@.contains(
                        (orig_conns[j2].peer_ip, orig_conns[j2].peer_port),
                    ) by {
                        if j2 == i {
                            assert(msgv == m);
                            assert(effv.drop_peer);
                            assert(kills@[kills@.len() - 1] == (
                                orig_conns[i as int].peer_ip,
                                orig_conns[i as int].peer_port,
                            ));
                        } else {
                            assert(pre_kills.contains(
                                (orig_conns[j2].peer_ip, orig_conns[j2].peer_port),
                            ));
                            if kills@.len() > pre_kills.len() {
                                lemma_push_contains(pre_kills, kills@[kills@.len() - 1]);
                                assert(kills@ == pre_kills.push(kills@[kills@.len() - 1]));
                            }
                        }
                    }
                    assert forall|u: u32|
                        #![trigger last_hello_profile(events@, local_uid, u)]
                        (last_hello_profile(events@, local_uid, u) matches Some(p)
                            ==> known_users@.contains_key(u) && known_users@[u]@ == p) && (
                    last_hello_profile(events@, local_uid, u) is None ==> ((
                    known_users@.contains_key(u) <==> orig_known.contains_key(u)) && (
                    orig_known.contains_key(u) ==> known_users@[u] == orig_known[u]))) by {
                        assert(events@.last()@ == msgv);
                        assert(events@.drop_last() == pre_events);
                        match effv.new_peer {
                            Some(pv) => {
                                if pv.uid == u {
                                    assert(last_hello_profile(events@, local_uid, u) == Some(pv));
                                } else {
                                    assert(last_hello_profile(events@, local_uid, u)
                                        == last_hello_profile(pre_events, local_uid, u));
                                    assert(known_users@[u] == pre_known[u]);
                                }
                            }
                            None => {
                                assert(last_hello_profile(events@, local_uid, u)
                                    == last_hello_profile(pre_events, local_uid, u));
                                assert(known_users@ == pre_known);
                            }
                        }
                    }
                }
            }
        }
        i += 1;
    }
    let r = ScanOutcome { consumed, events, outgoing_acks, kills };
    proof {
        reveal(ack_justified);
        assert forall|k: int|
            #![trigger r.outgoing_acks@[k]]
            0 <= k < r.outgoing_acks@.len() implies ack_justified(
            r.outgoing_acks@[k],
            r.events@,
            local_uid,
        ) by {
            assert(0 <= ack_src[k] < r.events@.len());
            assert(effects_spec(r.events@[ack_src[k]]@, local_uid).reply_ack == Some(
                r.outgoing_acks@[k]@,
            ));
        }
        if forall|i2: int| 0 <= i2 < r.consumed@.len() ==> r.consumed@[i2] == 0 {
            assert forall|j2: int| 0 <= j2 < consumed@.len() implies consumed@[j2] == 0 by {
                assert(r.consumed@[j2] == 0);
            }
            assert(kills@.len() == 0);
            assert(r.kills@ =~= Seq::<(u32, u16)>::empty());
        }
    }
    r
}

/// The removal half of a poll pass: evicts every session whose address a
/// leave notice scheduled, keeping the rest in order, and releases the
/// scheduled addresses from the dedup set.
#[verifier::loop_isolation(false)]
#[verifier::spinoff_prover]
fn apply_kills(state: &mut ConnectionState, kills: &Vec<(u32, u16)>)
    ensures
        final(state).connections@.len() <= old(state).connections@.len(),
        forall|i2: int|
            #![trigger final(state).connections@[i2]]
            0 <= i2 < final(state).connections@.len() ==> !kills@.contains(
                (final(state).connections@[i2].peer_ip, final(state).connections@[i2].peer_port),
            ) && retained_in(final(state).connections@[i2], old(state).connections@),
        forall|s: int|
            #![trigger old(state).connections@[s]]
            0 <= s < old(state).connections@.len() ==> kills@.contains(
                (old(state).connections@[s].peer_ip, old(state).connections@[s].peer_port),
            ) || retained_in(old(state).connections@[s], final(state).connections@),
        kills@.len() == 0 ==> (final(state).connections@ == old(state).connections@
            && final(state).p2p_ips == old(state).p2p_ips),
        forall|k: int|
            #![trigger kills@[k]]
            0 <= k < kills@.len() ==> !final(state).p2p_ips@.contains(kills@[k].0),
        forall|a: u32| final(state).p2p_ips@.contains(a) ==> old(state).p2p_ips@.contains(a),
        final(state).active == old(state).active,
{
    let ghost orig = old(state).connections@;
    let mut work: Vec<PeerConnection> = Vec::new();
    core::mem::swap(&mut work, &mut state.connections);
    let total = work.len();
    let mut t: usize = 0;
    proof {
        assert(work@.skip(0) == work@);
    }
    while t < total
        invariant
            total == orig.len(),
            t + work@.len() == orig.len(),
            work@ == orig.skip(t as int),
            state.connections@.len() <= t,
            forall|i2: int|
                #![trigger state.connections@[i2]]
                0 <= i2 < state.connections@.len() ==> !kills@.contains(
                    (state.connections@[i2].peer_ip, state.connections@[i2].peer_port),
                ) && retained_in(state.connections@[i2], orig),
            forall|s: int|
                #![trigger orig[s]]
                0 <= s < t ==> kills@.contains((orig[s].peer_ip, orig[s].peer_port))
                    || retained_in(orig[s], state.connections@),
            kills@.len() == 0 ==> state.connections@ == orig.take(t as int),
            state.p2p_ips == old(state).p2p_ips,
            state.active == old(state).active,
        decreases total - t,
    {
        let ghost pre_work = work@;
        let ghost pre_kept = state.connections@;
        let c = work.remove(0);
        let ghost cval = c;
        proof {
            assert(pre_work.remove(0) =~= pre_work.drop_first());
            assert(pre_work[0] == orig[t as int]);
            assert(work@ =~= orig.skip(t + 1 as int));
        }
        if !addr_killed(kills, c.peer_ip, c.peer_port) {
            state.connections.push(c);
            proof {
                reveal(retained_in);
                assert(state.connections@[state.connections@.len() - 1] == orig[t as int]);
                assert forall|i2: int|
                    #![trigger state.connections@[i2]]
                    0 <= i2 < state.connections@.len() implies !kills@.contains(
                    (state.connections@[i2].peer_ip, state.connections@[i2].peer_port),
                ) && retained_in(state.connections@[i2], orig) by {
                    if i2 < state.connections@.len() - 1 {
                        assert(state.connections@[i2] == pre_kept[i2]);
                    } else {
                        assert(retained_in(cval, orig));
                    }
                }
                assert forall|s: int|
                    #![trigger orig[s]]
                    0 <= s < t + 1 implies kills@.contains((orig[s].peer_ip, orig[s].peer_port))
                    || retained_in(orig[s], state.connections@) by {
                    if s == t {
                        assert(retained_in(orig[s], state.connections@));
                    } else {
                        if !kills@.contains((orig[s].peer_ip, orig[s].peer_port)) {
                            let i0 = choose|i0: int|
                                0 <= i0 < pre_kept.len() && pre_kept[i0] == orig[s];
                            assert(state.connections@[i0] == orig[s]);
                            assert(retained_in(orig[s], state.connections@));
                        }
                    }
                }
                if kills@.len() == 0 {
                    assert(state.connections@ =~= orig.take(t + 1 as int));
                }
            }
        } else {
            proof {
                assert(kills@.contains((orig[t as int].peer_ip, orig[t as int].peer_port)));
            }
        }
        t += 1;
    }
    proof {
        assert(kills@.len() == 0 ==> state.connections@ =~= orig);
    }
    let ghost survivors = state.connections@;
    let mut k: usize = 0;
    while k < kills.len()
        invariant
            state.active == old(state).active,
            state.connections@ == survivors,
            forall|a: u32| state.p2p_ips@.contains(a) ==> old(state).p2p_ips@.contains(a),
            forall|k2: int|
                #![trigger kills@[k2]]
                0 <= k2 < k ==> !state.p2p_ips@.contains(kills@[k2].0),
            kills@.len() == 0 ==> state.p2p_ips == old(state).p2p_ips,
        decreases kills@.len() - k,
    {
        state.p2p_ips.remove(kills[k].0);
        k += 1;
    }
}

proof fn lemma_pass_survivors(orig: Seq<PeerConnection>, mid: Seq<PeerConnection>,
    fin: Seq<PeerConnection>)
    requires
        mid.len() == orig.len(),
        forall|j: int| 0 <= j < orig.len() ==> same_session(#[trigger] mid[j], orig[j]),
        forall|i2: int|
            #![trigger fin[i2]]
            0 <= i2 < fin.len() ==> retained_in(fin[i2], mid),
    ensures
        forall|i2: int| #![trigger fin[i2]] 0 <= i2 < fin.len() ==> session_from(fin[i2], orig),
{
    reveal(retained_in);
    reveal(session_from);
    assert forall|i2: int| #![trigger fin[i2]] 0 <= i2 < fin.len() implies session_from(
        fin[i2],
        orig,
    ) by {
        let s0 = choose|s0: int| 0 <= s0 < mid.len() && mid[s0] == fin[i2];
        assert(same_session(mid[s0], orig[s0]));
        assert(same_session(fin[i2], orig[s0]));
    }
}

proof fn lemma_pass_retention(orig: Seq<PeerConnection>, mid: Seq<PeerConnection>,
    fin: Seq<PeerConnection>, kills: Seq<(u32, u16)>)
    requires
        mid.len() == orig.len(),
        forall|j: int| 0 <= j < orig.len() ==> same_session(#[trigger] mid[j], orig[j]),
        forall|s: int|
            #![trigger mid[s]]
            0 <= s < mid.len() ==> kills.contains((mid[s].peer_ip, mid[s].peer_port))
                || retained_in(mid[s], fin),
    ensures
        forall|j: int|
            #![trigger orig[j]]
            0 <= j < orig.len() && !kills.contains((orig[j].peer_ip, orig[j].peer_port))
                ==> session_from(orig[j], fin),
{
    reveal(retained_in);
    reveal(session_from);
    assert forall|j: int|
        #![trigger orig[j]]
        0 <= j < orig.len() && !kills.contains(
        (orig[j].peer_ip, orig[j].peer_port),
    ) implies session_from(orig[j], fin) by {
        assert(same_session(mid[j], orig[j]));
        assert(!kills.contains((mid[j].peer_ip, mid[j].peer_port)));
        assert(retained_in(mid[j], fin));
        let i0 = choose|i0: int| 0 <= i0 < fin.len() && fin[i0] == mid[j];
        assert(same_session(fin[i0], orig[j]));
    }
}

proof fn lemma_pass_attachment(orig: Seq<PeerConnection>, mid: Seq<PeerConnection>,
    fin: Seq<PeerConnection>, kills: Seq<(u32, u16)>, avail: Seq<Vec<u8>>, local_uid: u32)
    requires
        mid.len() == orig.len(),
        forall|j: int| 0 <= j < orig.len() ==> same_session(#[trigger] mid[j], orig[j]),
        forall|j: int, m: MessageV|
            (0 <= j < orig.len() && orig[j].stream_type != TcpStreamType::Write
                && #[trigger] frame_carries(avail[j]@, m)) ==> (effects_spec(
                m,
                local_uid,
            ).new_peer matches Some(p) ==> (mid[j].peer_profile matches Some(q) && q@ == p)),
        forall|s: int|
            #![trigger mid[s]]
            0 <= s < mid.len() ==> kills.contains((mid[s].peer_ip, mid[s].peer_port))
                || retained_in(mid[s], fin),
    ensures
        forall|j: int, m: MessageV|
            (0 <= j < orig.len() && orig[j].stream_type != TcpStreamType::Write
                && #[trigger] frame_carries(avail[j]@, m) && !kills.contains(
                (orig[j].peer_ip, orig[j].peer_port),
            )) ==> (effects_spec(m, local_uid).new_peer matches Some(p) ==> session_with_profile(
                orig[j],
                fin,
                p,
            )),
{
    reveal(retained_in);
    reveal(session_with_profile);
    assert forall|j: int, m: MessageV|
        (0 <= j < orig.len() && orig[j].stream_type != TcpStreamType::Write
            && #[trigger] frame_carries(avail[j]@, m) && !kills.contains(
            (orig[j].peer_ip, orig[j].peer_port),
        )) implies (effects_spec(m, local_uid).new_peer matches Some(p) ==> session_with_profile(
        orig[j],
        fin,
        p,
    )) by {
        match effects_spec(m, local_uid).new_peer {
            Some(p) => {
                assert(mid[j].peer_profile matches Some(q) && q@ == p);
                assert(same_session(mid[j], orig[j]));
                assert(!kills.contains((mid[j].peer_ip, mid[j].peer_port)));
                assert(retained_in(mid[j], fin));
                let i0 = choose|i0: int| 0 <= i0 < fin.len() && fin[i0] == mid[j];
                assert(same_session(fin[i0], orig[j]));
                assert(fin[i0].peer_profile matches Some(q2) && q2@ == p);
                assert(session_with_profile(orig[j], fin, p));
            }
            None => {}
        }
    }
}

/// What one whole poll pass over the sessions produced: how many bytes to
/// consume from each session's stream (in order, zero where no complete
/// frame had arrived), every decoded message (each is also recorded in the
/// history and is handed to the user interface), the acknowledgments owed,
/// to be fanned out to all writable sessions after the pass, and the
/// addresses whose sessions the pass evicted on a leave notice.
pub struct PollOutcome {
    pub consumed: Vec<usize>,
    pub events: Vec<Message>,
    pub outgoing_acks: Vec<Message>,
    pub dropped_addrs: Vec<(u32, u16)>,
}

/// One poll pass over all sessions, as the reader loop runs it every tick.
/// `avail` holds, for each session in order, the bytes currently peekable
/// on its stream.  Each readable session with a whole frame at the front
/// has exactly that frame consumed (and only then: a partial frame leaves
/// its stream untouched, and a pass that finds no frame anywhere changes
/// nothing); the decoded message is recorded in the history and handed back
/// as an event, at most one per consumed frame; a greeting is upserted into
/// the registry — which afterwards maps each identifier to the profile of
/// the last greeting that carried it — and attached to the session; a leave
/// notice evicts every session with the sender's address and releases that
/// address from the dedup set, while every other session survives; a text
/// or image from another sender puts the owed acknowledgment into
/// `outgoing_acks`, for the caller to fan out after the pass.
#[verifier::rlimit(100)]
#[verifier::spinoff_prover]
pub fn manage_p2p_connections(state: &mut ConnectionState, history: &mut MessageHistory,
    known_users: &mut KnownUsers, local_uid: u32, avail: &Vec<Vec<u8>>) -> (r: PollOutcome)
    requires
        avail@.len() == old(state).connections@.len(),
    ensures
        r.consumed@.len() == old(state).connections@.len(),
        forall|i: int|
            0 <= i < r.consumed@.len() && !frame_ready(avail@[i]@) ==> r.consumed@[i] == 0,
        forall|i: int|
            0 <= i < r.consumed@.len() && old(state).connections@[i].stream_type
                == TcpStreamType::Write ==> r.consumed@[i] == 0,
        forall|i: int|
            0 <= i < r.consumed@.len() ==> r.consumed@[i] == 0 || (frame_ready(avail@[i]@)
                && r.consumed@[i] == frame_total_len(avail@[i]@)),
        forall|i: int|
            0 <= i < r.consumed@.len() && old(state).connections@[i].stream_type
                != TcpStreamType::Write && frame_ready(avail@[i]@) ==> r.consumed@[i]
                == frame_total_len(avail@[i]@),
        forall|i: int, m: MessageV|
            (0 <= i < r.consumed@.len() && old(state).connections@[i].stream_type
                != TcpStreamType::Write && #[trigger] frame_carries(avail@[i]@, m))
                ==> event_listed(m, r.events@),
        r.events@.len() <= count_nonzero(r.consumed@),
        final(history).msgs@.len() == old(history).msgs@.len() + r.events@.len(),
        final(history).msgs@.subrange(0, old(history).msgs@.len() as int) == old(history).msgs@,
        forall|k: int|
            0 <= k < r.events@.len() ==> final(history).msgs@[old(history).msgs@.len() + k]@
                == r.events@[k]@,
        final(history).ids_seen() == old(history).ids_seen(),
        forall|k: int|
            #![trigger r.outgoing_acks@[k]]
            0 <= k < r.outgoing_acks@.len() ==> ack_justified(
                r.outgoing_acks@[k],
                r.events@,
                local_uid,
            ),
        forall|i: int, m: MessageV|
            (0 <= i < r.consumed@.len() && old(state).connections@[i].stream_type
                != TcpStreamType::Write && #[trigger] frame_carries(avail@[i]@, m)) ==> (
            effects_spec(m, local_uid).reply_ack matches Some(a) ==> ack_listed(
                a,
                r.outgoing_acks@,
            )),
        forall|u: u32|
            #![trigger last_hello_profile(r.events@, local_uid, u)]
            (last_hello_profile(r.events@, local_uid, u) matches Some(p)
                ==> final(known_users)@.contains_key(u) && final(known_users)@[u]@ == p)
                && (last_hello_profile(r.events@, local_uid, u) is None
                ==> ((final(known_users)@.contains_key(u) <==> old(known_users)@.contains_key(u))
                && (old(known_users)@.contains_key(u)
                ==> final(known_users)@[u] == old(known_users)@[u]))),
        forall|u: u32| old(known_users)@.contains_key(u) ==> final(known_users)@.contains_key(u),
        forall|k: int|
            0 <= k < r.dropped_addrs@.len() ==> #[trigger] kill_justified(
                r.dropped_addrs@[k],
                old(state).connections@,
                avail@,
                local_uid,
            ),
        forall|j: int, m: MessageV|
            (0 <= j < old(state).connections@.len() && old(state).connections@[j].stream_type
                != TcpStreamType::Write && #[trigger] frame_carries(avail@[j]@, m) && effects_spec(
                m,
                local_uid,
            ).drop_peer) ==> r.dropped_addrs@.contains(
                (old(state).connections@[j].peer_ip, old(state).connections@[j].peer_port),
            ),
        forall|i2: int|
            #![trigger final(state).connections@[i2]]
            0 <= i2 < final(state).connections@.len() ==> !r.dropped_addrs@.contains(
                (final(state).connections@[i2].peer_ip, final(state).connections@[i2].peer_port),
            ),
        forall|k: int|
            #![trigger r.dropped_addrs@[k]]
            0 <= k < r.dropped_addrs@.len() ==> !final(state).p2p_ips@.contains(
                r.dropped_addrs@[k].0,
            ),
        forall|j: int|
            #![trigger old(state).connections@[j]]
            0 <= j < old(state).connections@.len() && !r.dropped_addrs@.contains(
                (old(state).connections@[j].peer_ip, old(state).connections@[j].peer_port),
            ) ==> session_from(old(state).connections@[j], final(state).connections@),
        forall|j: int, m: MessageV|
            (0 <= j < old(state).connections@.len() && old(state).connections@[j].stream_type
                != TcpStreamType::Write && #[trigger] frame_carries(avail@[j]@, m)
                && !r.dropped_addrs@.contains(
                (old(state).connections@[j].peer_ip, old(state).connections@[j].peer_port),
            )) ==> (effects_spec(m, local_uid).new_peer matches Some(p) ==> session_with_profile(
                old(state).connections@[j],
                final(state).connections@,
                p,
            )),
        (forall|i: int| 0 <= i < r.consumed@.len() ==> r.consumed@[i] == 0)
            ==> (final(state).connections@ == old(state).connections@
            && final(state).p2p_ips == old(state).p2p_ips
            && r.dropped_addrs@ == Seq::<(u32, u16)>::empty()),
        final(state).connections@.len() <= old(state).connections@.len(),
        forall|i: int|
            #![trigger final(state).connections@[i]]
            0 <= i < final(state).connections@.len() ==> session_from(
                final(state).connections@[i],
                old(state).connections@,
            ),
        forall|a: u32| final(state).p2p_ips@.contains(a) ==> old(state).p2p_ips@.contains(a),
        final(state).active == old(state).active,{
    let ghost orig_conns = old(state).connections@;
    let scan = scan_sessions(state, history, known_users, local_uid, avail);
    let ghost mid_conns = state.connections@;
    let ghost scan_consumed = scan.consumed@;
    let ScanOutcome { consumed, events, outgoing_acks, kills } = scan;
    apply_kills(state, &kills);
    let r = PollOutcome { consumed, events, outgoing_acks, dropped_addrs: kills };
    proof {
        lemma_pass_survivors(orig_conns, mid_conns, state.connections@);
        lemma_pass_retention(orig_conns, mid_conns, state.connections@, kills@);
        lemma_pass_attachment(
            orig_conns,
            mid_conns,
            state.connections@,
            kills@,
            avail@,
            local_uid,
        );
        if forall|i2: int| 0 <= i2 < r.consumed@.len() ==> r.consumed@[i2] == 0 {
            assert forall|j2: int| 0 <= j2 < scan_consumed.len() implies scan_consumed[j2]
                == 0 by {
                assert(r.consumed@[j2] == 0);
            }
            assert(mid_conns == orig_conns);
            assert(kills@.len() == 0);
            assert(kills@ =~= Seq::<(u32, u16)>::empty());
            assert(state.connections@ == mid_conns);
            assert(state.p2p_ips == old(state).p2p_ips);
        }
    }
    r
}

/// Whether the fan-out sender keeps a session, given whether every write
/// to it went through whole: read-only sessions are never written to and
/// always stay; a writable session stays exactly when its writes succeeded.
pub open spec fn keeps(c: PeerConnection, ok: bool) -> bool {
    c.stream_type == TcpStreamType::Read || ok
}

/// The sessions a fan-out pass leaves active, in order.
pub open spec fn surviving(conns: Seq<PeerConnection>, oks: Seq<bool>) -> Seq<PeerConnection>
    decreases conns.len(),
{
    if conns.len() == 0 {
        Seq::empty()
    } else {
        if keeps(conns[0], oks[0]) {
            seq![conns[0]] + surviving(conns.drop_first(), oks.drop_first())
        } else {
            surviving(conns.drop_first(), oks.drop_first())
        }
    }
}

/// The known profiles of the sessions a fan-out pass evicts, in order: one
/// entry per failed session whose peer had sent its greeting.
pub open spec fn dropped_profiles(conns: Seq<PeerConnection>, oks: Seq<bool>) -> Seq<ProfileV>
    decreases conns.len(),
{
    if conns.len() == 0 {
        Seq::empty()
    } else {
        let rest = dropped_profiles(conns.drop_first(), oks.drop_first());
        if !keeps(conns[0], oks[0]) {
            match conns[0].peer_profile {
                Some(p) => seq![p@] + rest,
                None => rest,
            }
        } else {
            rest
        }
    }
}

/// The addresses of the sessions a fan-out pass evicts; they leave the
/// dedup set so discovery may re-establish contact later.
pub open spec fn failed_ips(conns: Seq<PeerConnection>, oks: Seq<bool>) -> Set<u32>
    decreases conns.len(),
{
    if conns.len() == 0 {
        Set::empty()
    } else {
        let rest = failed_ips(conns.drop_first(), oks.drop_first());
        if !keeps(conns[0], oks[0]) {
            rest.insert(conns[0].peer_ip)
        } else {
            rest
        }
    }
}

/// Settles a fan-out pass, given, for each session in order, whether every
/// framed write to it succeeded in full (`write_ok`; the entry of a
/// read-only session is ignored).  Failed sessions are evicted and their
/// addresses released; for each evicted session whose peer profile was
/// known, exactly one `Dropped` message carrying that profile is
/// synthesized, recorded in the history, and handed back for the user
/// interface, as if it had been received.  A failed session with no known
/// profile disappears silently.
pub fn send_msgs_to_all_peers(state: &mut ConnectionState, history: &mut MessageHistory,
    write_ok: &Vec<bool>) -> (dropped: Vec<Message>)
    requires
        write_ok@.len() == old(state).connections@.len(),
    ensures
        final(state).connections@ == surviving(old(state).connections@, write_ok@),
        final(state).p2p_ips@ == old(state).p2p_ips@.difference(
            failed_ips(old(state).connections@, write_ok@),
        ),
        final(state).active == old(state).active,
        dropped@.len() == dropped_profiles(old(state).connections@, write_ok@).len(),
        forall|k: int|
            0 <= k < dropped@.len() ==> (#[trigger] dropped@[k]@ matches MessageV::Dropped(h, pay)
                && h.name == dropped_profiles(old(state).connections@, write_ok@)[k].name && h.uid
                == dropped_profiles(old(state).connections@, write_ok@)[k].uid && pay
                == dropped_profiles(old(state).connections@, write_ok@)[k].pic),
        final(history).msgs@.len() == old(history).msgs@.len() + dropped@.len(),
        final(history).msgs@.subrange(0, old(history).msgs@.len() as int) == old(history).msgs@,
        forall|k: int|
            0 <= k < dropped@.len() ==> final(history).msgs@[old(history).msgs@.len() + k]@
                == dropped@[k]@,
        final(history).ids_seen() == old(history).ids_seen(),
{
    let ghost orig: Seq<PeerConnection> = old(state).connections@;
    let ghost oks: Seq<bool> = write_ok@;
    let ghost orig_ips: Set<u32> = old(state).p2p_ips@;
    let ghost orig_msgs: Seq<Message> = old(history).msgs@;
    let mut work: Vec<PeerConnection> = Vec::new();
    core::mem::swap(&mut work, &mut state.connections);
    let mut dropped: Vec<Message> = Vec::new();
    let mut i: usize = 0;
    proof {
        assert(work@.skip(0) == work@);
        assert(oks.skip(0) == oks);
    }
    while i < write_ok.len()
        invariant
            i + work@.len() == orig.len(),
            oks == write_ok@,
            oks.len() == orig.len(),
            work@ == orig.skip(i as int),
            surviving(orig, oks) == state.connections@ + surviving(work@, oks.skip(i as int)),
            dropped@.len() + dropped_profiles(work@, oks.skip(i as int)).len()
                == dropped_profiles(orig, oks).len(),
            forall|j: int|
                0 <= j < dropped_profiles(work@, oks.skip(i as int)).len()
                    ==> dropped_profiles(orig, oks)[dropped@.len() + j] == dropped_profiles(
                    work@,
                    oks.skip(i as int),
                )[j],
            orig_ips.difference(failed_ips(orig, oks)) == state.p2p_ips@.difference(
                failed_ips(work@, oks.skip(i as int)),
            ),
            forall|k: int|
                0 <= k < dropped@.len() ==> (#[trigger] dropped@[k]@ matches MessageV::Dropped(
                    h,
                    pay,
                ) && h.name == dropped_profiles(orig, oks)[k].name && h.uid == dropped_profiles(
                    orig,
                    oks,
                )[k].uid && pay == dropped_profiles(orig, oks)[k].pic),
            history.msgs@.len() == orig_msgs.len() + dropped@.len(),
            history.msgs@.subrange(0, orig_msgs.len() as int) == orig_msgs,
            forall|k: int|
                0 <= k < dropped@.len() ==> history.msgs@[orig_msgs.len() + k]@ == dropped@[k]@,
            history.ids_seen() == old(history).ids_seen(),
            state.active == old(state).active,
        decreases oks.len() - i,
    {
        let ghost pre_work = work@;
        let ghost pre_kept = state.connections@;
        let ghost pre_dropped = dropped@;
        let c = work.remove(0);
        proof {
            assert(pre_work.remove(0) =~= pre_work.drop_first());
            assert(oks.skip(i as int).drop_first() =~= oks.skip(i + 1 as int));
            assert(pre_work[0] == orig[i as int]);
            assert(oks.skip(i as int)[0] == oks[i as int]);
        }
        let keep = matches!(c.stream_type, TcpStreamType::Read) || write_ok[i];
        if keep {
            state.connections.push(c);
            proof {
                assert(state.connections@ =~= pre_kept.push(orig[i as int]));
                assert(surviving(orig, oks) =~= state.connections@ + surviving(
                    work@,
                    oks.skip(i + 1 as int),
                ));
                assert(dropped_profiles(pre_work, oks.skip(i as int)) == dropped_profiles(
                    work@,
                    oks.skip(i + 1 as int),
                ));
                assert(failed_ips(pre_work, oks.skip(i as int)) == failed_ips(
                    work@,
                    oks.skip(i + 1 as int),
                ));
            }
        } else {
            state.p2p_ips.remove(c.peer_ip);
            match &c.peer_profile {
                Some(p) => {
                    let msg = Message::Dropped(
                        MessageHeader::new(
                            p.name.clone(),
                            p.uid,
                            crate::utilities::gen_rand_id(),
                            crate::utilities::get_curr_time(),
                        ),
                        slice_to_vec(p.pic.as_slice()),
                    );
                    history.push(msg.clone());
                    dropped.push(msg);
                    proof {
                        let rest = dropped_profiles(work@, oks.skip(i + 1 as int));
                        assert(dropped_profiles(pre_work, oks.skip(i as int)) == seq![p@] + rest);
                        assert(dropped_profiles(pre_work, oks.skip(i as int))[0] == p@);
                        assert(dropped_profiles(orig, oks)[pre_dropped.len() as int] == p@);
                        assert forall|j: int| 0 <= j < rest.len() implies dropped_profiles(
                            orig,
                            oks,
                        )[dropped@.len() + j] == rest[j] by {
                            assert(dropped_profiles(pre_work, oks.skip(i as int))[j + 1]
                                == rest[j]);
                            assert(dropped_profiles(orig, oks)[pre_dropped.len() + (j + 1)]
                                == dropped_profiles(pre_work, oks.skip(i as int))[j + 1]);
                        }
                    }
                }
                None => {
                    proof {
                        assert(dropped_profiles(pre_work, oks.skip(i as int)) == dropped_profiles(
                            work@,
                            oks.skip(i + 1 as int),
                        ));
                    }
                }
            }
            proof {
                assert(surviving(pre_work, oks.skip(i as int)) == surviving(
                    work@,
                    oks.skip(i + 1 as int),
                ));
                assert(orig_ips.difference(failed_ips(orig, oks)) =~= state.p2p_ips@.difference(
                    failed_ips(work@, oks.skip(i + 1 as int)),
                ));
            }
        }
        i += 1;
    }
    proof {
        assert(surviving(orig, oks) =~= state.connections@);
        assert(state.p2p_ips@ =~= orig_ips.difference(failed_ips(orig, oks)));
    }
    dropped
}

} // verus!
