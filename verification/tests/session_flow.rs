//! The connection session: handshake, frame stream, identity, timers,
//! and the whole path from one client's socket to another's.

use bot_hub::json::decode_netmessage;
use bot_hub::msg::{Netmessage, Role};
use bot_hub::registry::{Registry, RouteDecision};
use bot_hub::session::{DispatchDecision, Session, SessionState, StepOutcome};
use bot_hub::wire::{decode_frame, FrameStep, Message};

const HELLO: [u8; 7] = [42, 72, 69, 76, 76, 79, 42];

#[test]
fn correct_greeting_is_consumed() {
    let mut s = Session::new(1, 0);
    assert_eq!(s.step(), StepOutcome::NeedMore);
    s.on_bytes(&HELLO);
    assert_eq!(s.step(), StepOutcome::Handshaken);
    assert_eq!(s.state(), SessionState::Unidentified);
    assert_eq!(s.step(), StepOutcome::NeedMore);
}

#[test]
fn wrong_greeting_closes_the_session() {
    let mut s = Session::new(1, 0);
    s.on_bytes(&[42, 72, 69, 76, 76, 79, 43]);
    assert_eq!(s.step(), StepOutcome::Close);
    assert_eq!(s.state(), SessionState::Closed);
}

#[test]
fn greeting_may_arrive_in_pieces() {
    let mut s = Session::new(1, 0);
    s.on_bytes(&HELLO[0..3]);
    assert_eq!(s.step(), StepOutcome::NeedMore);
    s.on_bytes(&HELLO[3..7]);
    assert_eq!(s.step(), StepOutcome::Handshaken);
}

#[test]
fn frames_come_out_as_messages() {
    let mut s = Session::new(1, 0);
    s.on_bytes(&HELLO);
    assert_eq!(s.step(), StepOutcome::Handshaken);
    s.on_bytes(&Message::from_netmessage(&Netmessage::Distance(44)));
    s.on_bytes(&Message::from_netmessage(&Netmessage::Grabbed(true)));
    assert_eq!(s.step(), StepOutcome::Got(Netmessage::Distance(44)));
    assert_eq!(s.step(), StepOutcome::Got(Netmessage::Grabbed(true)));
    assert_eq!(s.step(), StepOutcome::NeedMore);
}

#[test]
fn corrupt_frame_is_dropped_but_the_session_lives() {
    let mut s = Session::new(1, 0);
    s.on_bytes(&HELLO);
    assert_eq!(s.step(), StepOutcome::Handshaken);
    let mut bad = Message::from_netmessage(&Netmessage::Distance(44));
    bad[7] ^= 0x20;
    s.on_bytes(&bad);
    s.on_bytes(&Message::from_netmessage(&Netmessage::Distance(45)));
    assert_eq!(s.step(), StepOutcome::FrameDropped);
    assert_eq!(s.step(), StepOutcome::Got(Netmessage::Distance(45)));
    assert_eq!(s.state(), SessionState::Unidentified);
}

#[test]
fn identity_binds_once_and_only_once() {
    let mut s = Session::new(7, 0);
    s.on_bytes(&HELLO);
    assert_eq!(s.step(), StepOutcome::Handshaken);
    assert_eq!(
        s.dispatch(&Netmessage::NameJosh),
        DispatchDecision::Bind { role: Role::Josh, chan: 7 }
    );
    assert_eq!(s.state(), SessionState::Identified(Role::Josh));
    // A second declaration changes nothing.
    assert_eq!(s.dispatch(&Netmessage::NameZach), DispatchDecision::Drop);
    assert_eq!(s.state(), SessionState::Identified(Role::Josh));
}

#[test]
fn dispatch_sorts_messages_by_kind() {
    let mut s = Session::new(7, 0);
    s.on_bytes(&HELLO);
    assert_eq!(s.step(), StepOutcome::Handshaken);
    assert_eq!(s.dispatch(&Netmessage::Grabbed(true)), DispatchDecision::Route);
    assert_eq!(
        s.dispatch(&Netmessage::World {
            frame: 2,
            piece: bot_hub::msg::WorldPiece::Total(1),
        }),
        DispatchDecision::ToAssembler { frame: 2, piece: bot_hub::msg::WorldPiece::Total(1) }
    );
    assert_eq!(s.dispatch(&Netmessage::Heartbeat), DispatchDecision::Drop);
}

#[test]
fn timers_fire_on_their_intervals() {
    let mut s = Session::new(1, 0);
    s.on_bytes(&HELLO);
    assert_eq!(s.step(), StepOutcome::Handshaken);
    // Within every interval: nothing due.
    assert_eq!(s.poll_timers(50).len(), 0);
    // Past the identity-request interval only.
    let frames = s.poll_timers(151);
    assert_eq!(frames.len(), 1);
    assert_eq!(frames[0], Message::from_netmessage(&Netmessage::ReqName));
    // Past the heartbeat interval too.
    let frames = s.poll_timers(1300);
    assert_eq!(frames.len(), 2);
    assert_eq!(frames[0], Message::from_netmessage(&Netmessage::Heartbeat));
    assert_eq!(frames[1], Message::from_netmessage(&Netmessage::ReqName));
    // Past all three.
    let frames = s.poll_timers(7000);
    assert_eq!(frames.len(), 3);
    assert_eq!(frames[1], Message::from_netmessage(&Netmessage::ReqNetstats));
}

#[test]
fn identified_session_stops_asking_for_a_name() {
    let mut s = Session::new(1, 0);
    s.on_bytes(&HELLO);
    assert_eq!(s.step(), StepOutcome::Handshaken);
    s.dispatch(&Netmessage::NameJoe);
    let frames = s.poll_timers(7000);
    assert_eq!(frames.len(), 2);
    assert_eq!(frames[0], Message::from_netmessage(&Netmessage::Heartbeat));
    assert_eq!(frames[1], Message::from_netmessage(&Netmessage::ReqNetstats));
}

/// The whole story: one client identifies as Josh; nothing reaches Josh
/// until another client identifies as Geordon and sends a message whose
/// kind addresses Josh; that message then leaves for Josh's socket as a
/// correctly framed, checksummed, JSON-encoded frame.
#[test]
fn end_to_end_identified_routing() {
    let mut reg = Registry::new();

    // Josh's client connects and greets.
    let mut josh = Session::new(1, 0);
    josh.on_bytes(&HELLO);
    assert_eq!(josh.step(), StepOutcome::Handshaken);

    // Before anyone identifies, traffic addressed to Josh is dropped.
    assert_eq!(reg.route(&Netmessage::Grabbed(true)), RouteDecision::DropUnbound);

    // Josh's client sends its identity declaration in a frame.
    josh.on_bytes(&Message::from_netmessage(&Netmessage::NameJosh));
    let got = josh.step();
    assert_eq!(got, StepOutcome::Got(Netmessage::NameJosh));
    match josh.dispatch(&Netmessage::NameJosh) {
        DispatchDecision::Bind { role, chan } => reg.bind(role, chan),
        other => panic!("expected a bind, got {:?}", other),
    }

    // Geordon's client connects, greets and identifies.
    let mut geordon = Session::new(2, 0);
    geordon.on_bytes(&HELLO);
    assert_eq!(geordon.step(), StepOutcome::Handshaken);
    geordon.on_bytes(&Message::from_netmessage(&Netmessage::NameGeordon));
    assert_eq!(geordon.step(), StepOutcome::Got(Netmessage::NameGeordon));
    match geordon.dispatch(&Netmessage::NameGeordon) {
        DispatchDecision::Bind { role, chan } => reg.bind(role, chan),
        other => panic!("expected a bind, got {:?}", other),
    }

    // Geordon sends a message whose kind addresses Josh.
    let sent = Netmessage::Grabbed(true);
    geordon.on_bytes(&Message::from_netmessage(&sent));
    assert_eq!(geordon.step(), StepOutcome::Got(sent));
    assert_eq!(geordon.dispatch(&sent), DispatchDecision::Route);
    assert_eq!(reg.route(&sent), RouteDecision::Deliver { chan: 1 });

    // What goes out on Josh's socket is a well-formed frame carrying
    // exactly that message.
    let outbound = Message::from_netmessage(&sent);
    match decode_frame(&outbound) {
        FrameStep::Ready { payload, used } => {
            assert_eq!(used, outbound.len());
            assert_eq!(decode_netmessage(&payload), Some(sent));
        }
        other => panic!("expected a whole frame, got {:?}", other),
    }
}

#[test]
fn frame_may_arrive_in_pieces() {
    let mut s = Session::new(1, 0);
    s.on_bytes(&HELLO);
    assert_eq!(s.step(), StepOutcome::Handshaken);
    let frame = Message::from_netmessage(&Netmessage::ReqStopped);
    s.on_bytes(&frame[0..4]);
    assert_eq!(s.step(), StepOutcome::NeedMore);
    s.on_bytes(&frame[4..]);
    assert_eq!(s.step(), StepOutcome::Got(Netmessage::ReqStopped));
}

#[test]
fn roles_print_their_names() {
    assert_eq!(Role::Geordon.name(), "Geordon");
    assert_eq!(Role::DebugZach.name(), "DebugZach");
    assert_eq!(Netmessage::NameJosh.bot_name(), Some("Josh"));
    assert_eq!(Netmessage::Heartbeat.bot_name(), None);
}
