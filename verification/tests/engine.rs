//! The protocol engine: discovery and tie-break, the session role state
//! machine, the stream reader, and the fan-out sender.

use lan_chat::message::{Message, MessageHeader, MessageHistory};
use lan_chat::network::{
    handle_broadcast_datagram, handle_broadcast_msg, manage_p2p_connections, message_effects,
    poll_session, register_failed_connection, register_inbound_connection,
    register_outbound_connection, send_msgs_to_all_peers, should_initiate, try_take_frame,
    BroadcastAction, ConnectionState, PeerConnection, SessionPoll, TcpStreamType,
};
use lan_chat::profile::Profile;
use lan_chat::utilities::KnownUsers;

fn profile(name: &str, uid: u32) -> Profile {
    Profile { name: name.to_string(), uid, join_time: 5, pic: vec![1, 2] }
}

fn header(name: &str, uid: u32, mid: u32, ts: u64) -> MessageHeader {
    MessageHeader::new(name.to_string(), uid, mid, ts)
}

#[test]
fn tie_break_smaller_identifier_initiates() {
    assert!(should_initiate(10, 20));
    assert!(!should_initiate(20, 10));
    // equal identifiers: the self-loop case, and it connects
    assert!(should_initiate(7, 7));
}

#[test]
fn broadcast_decision_follows_tie_break_and_dedup() {
    let mut state = ConnectionState::new();
    // a louder peer: wait for it to connect
    let act = handle_broadcast_msg(&mut state, &Message::Broadcast(5), 10, 0x0a000002);
    assert_eq!(act, BroadcastAction::Ignore);
    // a quieter peer: we connect, claiming the address
    let act = handle_broadcast_msg(&mut state, &Message::Broadcast(20), 10, 0x0a000002);
    assert_eq!(act, BroadcastAction::Connect);
    // a repeat broadcast from the same address is ignored
    let act = handle_broadcast_msg(&mut state, &Message::Broadcast(20), 10, 0x0a000002);
    assert_eq!(act, BroadcastAction::Ignore);
    // a non-broadcast datagram is stray traffic
    let act = handle_broadcast_msg(&mut state, &Message::Ack(1, 2), 10, 0x0a000003);
    assert_eq!(act, BroadcastAction::Ignore);
}

#[test]
fn broadcast_datagram_decodes_real_wire_bytes() {
    let mut state = ConnectionState::new();
    let wire = Message::Broadcast(20).to_network();
    assert_eq!(handle_broadcast_datagram(&mut state, &wire, 10, 1), BroadcastAction::Connect);
    // garbage datagrams are logged and discarded upstream; here just ignored
    assert_eq!(handle_broadcast_datagram(&mut state, &[1, 2, 3], 10, 2), BroadcastAction::Ignore);
}

#[test]
fn failed_connection_releases_the_address() {
    let mut state = ConnectionState::new();
    let wire = Message::Broadcast(20).to_network();
    assert_eq!(handle_broadcast_datagram(&mut state, &wire, 10, 9), BroadcastAction::Connect);
    register_failed_connection(&mut state, 9);
    // the address can be claimed again
    assert_eq!(handle_broadcast_datagram(&mut state, &wire, 10, 9), BroadcastAction::Connect);
}

#[test]
fn outbound_roles_write_for_self_loop_both_otherwise() {
    let mut state = ConnectionState::new();
    let start = register_outbound_connection(&mut state, 7, 61000, 1, 5000);
    assert!(!start);
    assert_eq!(state.connections[0].stream_type, TcpStreamType::Both);
    // connecting to our own address: the write half of the self-loop
    let start = register_outbound_connection(&mut state, 1, 61000, 1, 5001);
    assert!(start);
    assert_eq!(state.connections[1].stream_type, TcpStreamType::Write);
}

#[test]
fn inbound_roles_read_for_self_loop_both_otherwise() {
    let mut state = ConnectionState::new();
    let send_hello = register_inbound_connection(&mut state, 7, 5000, 1, 61000);
    assert!(send_hello);
    assert_eq!(state.connections[0].stream_type, TcpStreamType::Both);
    assert!(state.p2p_ips.contains(7));
    // accepting our own connection: the read half of the self-loop, no greeting
    let send_hello = register_inbound_connection(&mut state, 1, 5001, 1, 61000);
    assert!(!send_hello);
    assert_eq!(state.connections[1].stream_type, TcpStreamType::Read);
}

#[test]
fn partial_frames_are_never_taken() {
    // a header that declares 5 payload bytes
    let mut bytes = 5u64.to_le_bytes().to_vec();
    bytes.extend_from_slice(&[1, 2, 3]);
    assert!(try_take_frame(&[]).is_none());
    assert!(try_take_frame(&bytes[..4]).is_none());
    assert!(try_take_frame(&bytes).is_none());
    bytes.extend_from_slice(&[4, 5]);
    assert_eq!(try_take_frame(&bytes).unwrap(), 13);
}

#[test]
fn partial_frame_consumes_nothing_then_completes_exactly_once() {
    let conn = PeerConnection::new(TcpStreamType::Both, 7, 61000, 1, 5000);
    let m = Message::Text(header("pat", 42, 8, 9), b"partial".to_vec());
    let wire = m.to_network();
    // header plus fewer than the declared payload bytes: nothing happens
    match poll_session(&conn, &wire[..wire.len() - 1], 10) {
        SessionPoll::Pending => {}
        _ => panic!("an incomplete frame must stay pending"),
    }
    // the remaining bytes arrive: exactly one message, exactly one frame consumed
    match poll_session(&conn, &wire, 10) {
        SessionPoll::Received(consumed, msg, _) => {
            assert_eq!(consumed, wire.len());
            assert_eq!(msg, m);
        }
        _ => panic!("a complete frame must decode"),
    }
    // bytes of a following frame are left alone
    let mut two = wire.clone();
    two.extend_from_slice(&wire);
    match poll_session(&conn, &two, 10) {
        SessionPoll::Received(consumed, _, _) => assert_eq!(consumed, wire.len()),
        _ => panic!("a complete frame must decode"),
    }
}

#[test]
fn write_sessions_are_never_read() {
    let conn = PeerConnection::new(TcpStreamType::Write, 1, 61000, 1, 5000);
    let wire = Message::Ack(1, 2).to_network();
    assert!(matches!(poll_session(&conn, &wire, 10), SessionPoll::Skipped));
}

#[test]
fn undecodable_frames_are_consumed_and_dropped() {
    let conn = PeerConnection::new(TcpStreamType::Both, 7, 61000, 1, 5000);
    let mut bytes = 3u64.to_le_bytes().to_vec();
    bytes.extend_from_slice(&[9, 9, 9]);
    match poll_session(&conn, &bytes, 10) {
        SessionPoll::BadFrame(consumed) => assert_eq!(consumed, 11),
        _ => panic!("a malformed frame must be consumed and dropped"),
    }
}

#[test]
fn acks_are_suppressed_for_acks_broadcasts_and_own_echoes() {
    let local = 10u32;
    assert!(message_effects(&Message::Ack(4, 5), local).reply_ack.is_none());
    assert!(message_effects(&Message::Broadcast(4), local).reply_ack.is_none());
    assert!(message_effects(&Message::Hello(header("a", 4, 5, 6), vec![]), local)
        .reply_ack
        .is_none());
    // an echo of our own text, e.g. off the self-loop
    let own = Message::Text(header("me", 10, 77, 0), b"hi".to_vec());
    assert!(message_effects(&own, local).reply_ack.is_none());
    // a text from someone else earns an acknowledgment with their message id
    let other = Message::Text(header("you", 11, 77, 0), b"hi".to_vec());
    assert_eq!(message_effects(&other, local).reply_ack.unwrap(), Message::Ack(10, 77));
    let img = Message::Image(header("you", 11, 78, 0), vec![1]);
    assert_eq!(message_effects(&img, local).reply_ack.unwrap(), Message::Ack(10, 78));
}

#[test]
fn hello_teaches_the_peer_profile() {
    let eff = message_effects(&Message::Hello(header("ada", 31, 1, 99), vec![5, 6]), 10);
    let p = eff.new_peer.unwrap();
    assert_eq!(p.name, "ada");
    assert_eq!(p.uid, 31);
    assert_eq!(p.join_time, 99);
    assert_eq!(p.pic, vec![5, 6]);
    assert!(!eff.drop_peer);
}

#[test]
fn poll_pass_acks_texts_and_suppresses_the_rest() {
    let mut state = ConnectionState::new();
    register_inbound_connection(&mut state, 7, 5000, 1, 61000);
    let mut history = MessageHistory::new();
    let mut known = KnownUsers::new();

    // an incoming ack produces no outgoing ack
    let avail = vec![Message::Ack(20, 3).to_network()];
    let out = manage_p2p_connections(&mut state, &mut history, &mut known, 10, &avail);
    assert_eq!(out.events.len(), 1);
    assert!(out.outgoing_acks.is_empty());

    // an incoming text from another peer produces exactly one ack
    let avail = vec![Message::Text(header("bob", 20, 55, 0), b"yo".to_vec()).to_network()];
    let out = manage_p2p_connections(&mut state, &mut history, &mut known, 10, &avail);
    assert_eq!(out.outgoing_acks, vec![Message::Ack(10, 55)]);
    assert_eq!(history.msgs.len(), 2);
}

#[test]
fn goodbye_removes_the_session_and_releases_the_address() {
    let mut state = ConnectionState::new();
    register_inbound_connection(&mut state, 9, 5000, 1, 61000);
    assert!(state.p2p_ips.contains(9));
    let mut history = MessageHistory::new();
    let mut known = KnownUsers::new();
    let avail = vec![Message::Goodbye(header("bob", 20, 1, 2), vec![]).to_network()];
    let out = manage_p2p_connections(&mut state, &mut history, &mut known, 10, &avail);
    assert_eq!(out.events.len(), 1);
    assert_eq!(out.dropped_addrs, vec![(9u32, 5000u16)]);
    assert!(state.connections.is_empty());
    assert!(!state.p2p_ips.contains(9));
}

#[test]
fn drop_synthesis_with_known_profile() {
    let mut state = ConnectionState::new();
    state.p2p_ips.insert(7);
    let mut conn = PeerConnection::new(TcpStreamType::Both, 7, 61000, 1, 5000);
    conn.peer_profile = Some(profile("eve", 33));
    state.connections.push(conn);
    let mut history = MessageHistory::new();
    let dropped = send_msgs_to_all_peers(&mut state, &mut history, &vec![false]);
    assert_eq!(dropped.len(), 1);
    match &dropped[0] {
        Message::Dropped(h, pay) => {
            assert_eq!(h.name, "eve");
            assert_eq!(h.uid, 33);
            assert_eq!(pay, &vec![1, 2]);
        }
        _ => panic!("expected a synthesized drop notice"),
    }
    assert!(state.connections.is_empty());
    assert!(!state.p2p_ips.contains(7));
    assert_eq!(history.msgs.len(), 1);
}

#[test]
fn drop_synthesis_without_profile_is_silent() {
    let mut state = ConnectionState::new();
    state.p2p_ips.insert(7);
    state.connections.push(PeerConnection::new(TcpStreamType::Both, 7, 61000, 1, 5000));
    let mut history = MessageHistory::new();
    let dropped = send_msgs_to_all_peers(&mut state, &mut history, &vec![false]);
    assert!(dropped.is_empty());
    assert!(state.connections.is_empty());
    assert!(!state.p2p_ips.contains(7));
    assert!(history.msgs.is_empty());
}

#[test]
fn fanout_leaves_read_sessions_and_healthy_sessions_alone() {
    let mut state = ConnectionState::new();
    state.connections.push(PeerConnection::new(TcpStreamType::Read, 1, 61000, 1, 5000));
    state.connections.push(PeerConnection::new(TcpStreamType::Both, 7, 61000, 1, 5001));
    let mut history = MessageHistory::new();
    let dropped = send_msgs_to_all_peers(&mut state, &mut history, &vec![false, true]);
    assert!(dropped.is_empty());
    assert_eq!(state.connections.len(), 2);
}

#[test]
fn poll_pass_serves_sessions_independently() {
    let mut state = ConnectionState::new();
    register_inbound_connection(&mut state, 7, 5000, 1, 61000); // ready frame
    register_inbound_connection(&mut state, 8, 5001, 1, 61000); // partial frame
    register_outbound_connection(&mut state, 1, 61000, 1, 5002); // write half: never read
    let mut history = MessageHistory::new();
    let mut known = KnownUsers::new();

    let whole = Message::Text(header("bob", 20, 1, 2), b"full".to_vec()).to_network();
    let partial = Message::Text(header("cee", 30, 3, 4), b"half".to_vec()).to_network();
    let avail = vec![
        whole.clone(),
        partial[..partial.len() - 1].to_vec(),
        whole.clone(),
    ];
    let out = manage_p2p_connections(&mut state, &mut history, &mut known, 10, &avail);
    // the complete frame is consumed whole; the partial and the write-only
    // session are left untouched
    assert_eq!(out.consumed, vec![whole.len(), 0, 0]);
    assert_eq!(out.events.len(), 1);
    assert_eq!(out.outgoing_acks, vec![Message::Ack(10, 1)]);
    assert!(out.dropped_addrs.is_empty());
    assert_eq!(state.connections.len(), 3);
}

#[test]
fn end_to_end_two_peers_discover_and_greet() {
    let a = profile("alice", 10);
    let b = profile("bob", 20);
    let ip_a = 0x0a000001u32;
    let ip_b = 0x0a000002u32;
    let mut state_a = ConnectionState::new();
    let mut state_b = ConnectionState::new();

    // B observes A's broadcast: 10 < 20, so B waits
    let bc_a = Message::Broadcast(10).to_network();
    assert_eq!(
        handle_broadcast_datagram(&mut state_b, &bc_a, 20, ip_a),
        BroadcastAction::Ignore
    );
    // A observes B's broadcast and initiates
    let bc_b = Message::Broadcast(20).to_network();
    assert_eq!(
        handle_broadcast_datagram(&mut state_a, &bc_b, 10, ip_b),
        BroadcastAction::Connect
    );
    let start_chatting = register_outbound_connection(&mut state_a, ip_b, 61000, ip_a, 50000);
    assert!(!start_chatting);
    assert_eq!(state_a.connections[0].stream_type, TcpStreamType::Both);
    // B accepts and owes A its greeting
    let send_hello = register_inbound_connection(&mut state_b, ip_a, 50000, ip_b, 61000);
    assert!(send_hello);
    assert_eq!(state_b.connections[0].stream_type, TcpStreamType::Both);

    // each side receives the other's greeting
    let hello_a = a.make_hello_msg().to_network();
    let hello_b = b.make_hello_msg().to_network();

    let mut hist_a = MessageHistory::new();
    let mut known_a = KnownUsers::new();
    let out_a =
        manage_p2p_connections(&mut state_a, &mut hist_a, &mut known_a, 10, &vec![hello_b]);
    assert_eq!(out_a.events.len(), 1);
    assert!(matches!(out_a.events[0], Message::Hello(..)));
    assert!(out_a.outgoing_acks.is_empty());
    assert!(known_a.does_user_exist(20));
    let learned = state_a.connections[0].peer_profile.as_ref().unwrap();
    assert_eq!(learned.uid, 20);
    assert_eq!(learned.name, "bob");

    let mut hist_b = MessageHistory::new();
    let mut known_b = KnownUsers::new();
    let out_b =
        manage_p2p_connections(&mut state_b, &mut hist_b, &mut known_b, 20, &vec![hello_a]);
    assert_eq!(out_b.events.len(), 1);
    assert!(matches!(out_b.events[0], Message::Hello(..)));
    assert!(known_b.does_user_exist(10));
    assert_eq!(hist_b.msgs.len(), 1);
}
