//! The JSON message codec: canonical forms and round trips.

use bot_hub::json::{decode_netmessage, encode_netmessage};
use bot_hub::msg::{EndPoint, Netmessage, Point, WorldPiece};

fn round_trips(m: Netmessage) {
    let bytes = encode_netmessage(&m);
    assert_eq!(decode_netmessage(&bytes), Some(m));
}

#[test]
fn heartbeat_has_canonical_form() {
    let bytes = encode_netmessage(&Netmessage::Heartbeat);
    assert_eq!(bytes, b"{\"tag\":\"Heartbeat\"}".to_vec());
}

#[test]
fn numeric_payload_has_canonical_form() {
    let bytes = encode_netmessage(&Netmessage::Distance(1200));
    assert_eq!(bytes, b"{\"tag\":\"Distance\",\"v\":1200}".to_vec());
}

#[test]
fn boolean_payload_has_canonical_form() {
    let bytes = encode_netmessage(&Netmessage::Grabbed(true));
    assert_eq!(bytes, b"{\"tag\":\"Grabbed\",\"v\":true}".to_vec());
}

#[test]
fn unit_messages_round_trip() {
    round_trips(Netmessage::Heartbeat);
    round_trips(Netmessage::ReqNetstats);
    round_trips(Netmessage::ReqName);
    round_trips(Netmessage::NameGeordon);
    round_trips(Netmessage::NameJosh);
    round_trips(Netmessage::NameJoe);
    round_trips(Netmessage::NameZach);
    round_trips(Netmessage::NameDebugGeordon);
    round_trips(Netmessage::NameDebugJosh);
    round_trips(Netmessage::NameDebugJoe);
    round_trips(Netmessage::NameDebugZach);
    round_trips(Netmessage::ReqMovement);
    round_trips(Netmessage::ReqInPosition);
    round_trips(Netmessage::JoeReqPoints);
    round_trips(Netmessage::JoshReqPoints);
    round_trips(Netmessage::ReqStopped);
    round_trips(Netmessage::ReqEdgeDetect);
    round_trips(Netmessage::ReqEdgeDropped);
    round_trips(Netmessage::ReqDistance);
    round_trips(Netmessage::ReqGrabbed);
    round_trips(Netmessage::ReqDropped);
}

#[test]
fn numeric_messages_round_trip() {
    round_trips(Netmessage::JF(0));
    round_trips(Netmessage::JE(7));
    round_trips(Netmessage::CF(10));
    round_trips(Netmessage::CE(305441741));
    round_trips(Netmessage::CT(999999999));
    round_trips(Netmessage::Distance(4294967295));
}

#[test]
fn boolean_messages_round_trip() {
    round_trips(Netmessage::Stopped(true));
    round_trips(Netmessage::EdgeDetect(false));
    round_trips(Netmessage::EdgeDropped(true));
    round_trips(Netmessage::Grabbed(false));
    round_trips(Netmessage::Dropped(true));
    round_trips(Netmessage::InPosition(false));
}

#[test]
fn compound_messages_round_trip() {
    round_trips(Netmessage::Movement { x: 12, y: 4294967295 });
    round_trips(Netmessage::Netstats { sent: 0, recv: 100000 });
}

#[test]
fn world_messages_round_trip() {
    let p = Point { x: 1, y: 22, v: 333 };
    let e0 = EndPoint { point: p, open: false };
    let e1 = EndPoint { point: Point { x: 4294967295, y: 0, v: 5 }, open: true };
    round_trips(Netmessage::World { frame: 5, piece: WorldPiece::Total(3) });
    round_trips(Netmessage::World { frame: 0, piece: WorldPiece::ArenaBorder { p0: e0, p1: e1 } });
    round_trips(Netmessage::World {
        frame: 4294967295,
        piece: WorldPiece::VisibilityBorder { p0: e1, p1: e0 },
    });
    round_trips(Netmessage::World { frame: 9, piece: WorldPiece::ObjectBorder { p0: e0, p1: e0 } });
    round_trips(Netmessage::World { frame: 10, piece: WorldPiece::Target(p) });
    round_trips(Netmessage::World { frame: 11, piece: WorldPiece::RoverA(e0) });
    round_trips(Netmessage::World { frame: 12, piece: WorldPiece::RoverB(e1) });
}

#[test]
fn world_message_has_canonical_form() {
    let m = Netmessage::World { frame: 6, piece: WorldPiece::Total(3) };
    let bytes = encode_netmessage(&m);
    assert_eq!(
        bytes,
        b"{\"tag\":\"World\",\"frame\":6,\"piece\":{\"kind\":\"Total\",\"n\":3}}".to_vec()
    );
}

#[test]
fn unknown_tag_is_rejected() {
    assert_eq!(decode_netmessage(b"{\"tag\":\"Nonsense\"}"), None);
    assert_eq!(decode_netmessage(b"{\"tag\":\"Heartbeats\"}"), None);
    assert_eq!(decode_netmessage(b"{\"tag\":\"heartbeat\"}"), None);
}

#[test]
fn malformed_payload_is_rejected() {
    assert_eq!(decode_netmessage(b""), None);
    assert_eq!(decode_netmessage(b"{\"tag\":\"Heartbeat\""), None);
    assert_eq!(decode_netmessage(b"{\"tag\":\"Heartbeat\"} "), None);
    assert_eq!(decode_netmessage(b"{\"tag\":\"JF\"}"), None);
    assert_eq!(decode_netmessage(b"{\"tag\":\"JF\",\"v\":}"), None);
    assert_eq!(decode_netmessage(b"{\"tag\":\"JF\",\"v\":4294967296}"), None);
    assert_eq!(decode_netmessage(b"{\"tag\":\"Grabbed\",\"v\":maybe}"), None);
    assert_eq!(decode_netmessage(b"not json at all"), None);
}

#[test]
fn largest_numbers_still_fit_a_frame() {
    let e = EndPoint { point: Point { x: 4294967295, y: 4294967295, v: 4294967295 }, open: false };
    let m = Netmessage::World {
        frame: 4294967295,
        piece: WorldPiece::VisibilityBorder { p0: e, p1: e },
    };
    let bytes = encode_netmessage(&m);
    assert!(bytes.len() <= 256);
    assert_eq!(decode_netmessage(&bytes), Some(m));
}

#[test]
fn movement_has_canonical_form() {
    let bytes = encode_netmessage(&Netmessage::Movement { x: 3, y: 40 });
    assert_eq!(bytes, b"{\"tag\":\"Movement\",\"x\":3,\"y\":40}".to_vec());
}

#[test]
fn netstats_has_canonical_form() {
    let bytes = encode_netmessage(&Netmessage::Netstats { sent: 12, recv: 0 });
    assert_eq!(bytes, b"{\"tag\":\"Netstats\",\"sent\":12,\"recv\":0}".to_vec());
}

#[test]
fn rover_has_canonical_form() {
    let m = Netmessage::World {
        frame: 1,
        piece: WorldPiece::RoverA(EndPoint { point: Point { x: 5, y: 6, v: 7 }, open: true }),
    };
    let bytes = encode_netmessage(&m);
    assert_eq!(
        bytes,
        b"{\"tag\":\"World\",\"frame\":1,\"piece\":{\"kind\":\"RoverA\",\"x\":5,\"y\":6,\"v\":7,\"open\":true}}"
            .to_vec()
    );
}
