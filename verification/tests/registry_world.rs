//! The routing registry and the world assembler.

use bot_hub::msg::{EndPoint, Netmessage, Point, Role, WorldPiece};
use bot_hub::registry::{Registry, RouteDecision};
use bot_hub::world::Assembler;

fn piece(x: u32) -> WorldPiece {
    WorldPiece::Target(Point { x, y: 0, v: 1 })
}

#[test]
fn routing_table_sends_each_kind_to_its_role() {
    let mut reg = Registry::new();
    reg.bind(Role::Geordon, 1);
    reg.bind(Role::Josh, 2);
    reg.bind(Role::Joe, 3);
    reg.bind(Role::Zach, 4);
    assert_eq!(reg.route(&Netmessage::ReqMovement), RouteDecision::Deliver { chan: 3 });
    assert_eq!(reg.route(&Netmessage::JF(9)), RouteDecision::Deliver { chan: 3 });
    assert_eq!(reg.route(&Netmessage::Grabbed(true)), RouteDecision::Deliver { chan: 2 });
    assert_eq!(reg.route(&Netmessage::CT(5)), RouteDecision::Deliver { chan: 2 });
    assert_eq!(
        reg.route(&Netmessage::Movement { x: 1, y: 2 }),
        RouteDecision::Deliver { chan: 1 }
    );
    assert_eq!(reg.route(&Netmessage::ReqStopped), RouteDecision::Deliver { chan: 1 });
    assert_eq!(reg.route(&Netmessage::InPosition(true)), RouteDecision::Deliver { chan: 4 });
    assert_eq!(reg.route(&Netmessage::ReqDropped), RouteDecision::Deliver { chan: 4 });
}

#[test]
fn link_control_is_not_routed() {
    let mut reg = Registry::new();
    reg.bind(Role::Josh, 2);
    assert_eq!(reg.route(&Netmessage::Heartbeat), RouteDecision::DropUnrouted);
    assert_eq!(reg.route(&Netmessage::NameJosh), RouteDecision::DropUnrouted);
    assert_eq!(
        reg.route(&Netmessage::World { frame: 1, piece: WorldPiece::Total(1) }),
        RouteDecision::DropUnrouted
    );
}

#[test]
fn rebinding_delivers_only_to_the_latest_channel() {
    let mut reg = Registry::new();
    reg.bind(Role::Josh, 10);
    reg.bind(Role::Josh, 20);
    assert_eq!(reg.route(&Netmessage::Grabbed(true)), RouteDecision::Deliver { chan: 20 });
    assert_eq!(reg.lookup(Role::Josh), Some(20));
}

#[test]
fn routing_before_any_bind_drops_quietly() {
    let reg = Registry::new();
    assert_eq!(reg.route(&Netmessage::Grabbed(true)), RouteDecision::DropUnbound);
    assert_eq!(reg.lookup(Role::Josh), None);
}

#[test]
fn assembly_happy_path() {
    let mut assembler = Assembler::new();
    assembler.ingest(5, WorldPiece::Total(3));
    assembler.ingest(5, piece(1));
    assert!(assembler.snapshot().is_none());
    assembler.ingest(5, piece(2));
    assert!(assembler.snapshot().is_none());
    assembler.ingest(5, piece(3));
    let snap = assembler.snapshot().unwrap();
    assert_eq!(snap.frame, 5);
    assert_eq!(snap.pieces, vec![piece(1), piece(2), piece(3)]);
}

#[test]
fn newer_frame_discards_partial_accumulation() {
    let mut assembler = Assembler::new();
    assembler.ingest(5, WorldPiece::Total(3));
    assembler.ingest(5, piece(1));
    assembler.ingest(5, piece(2));
    assembler.ingest(6, piece(7));
    // The two frame-5 pieces are gone: even a total of 2 at frame 6 does
    // not complete with them.
    assert!(assembler.snapshot().is_none());
    assembler.ingest(6, WorldPiece::Total(1));
    let snap = assembler.snapshot().unwrap();
    assert_eq!(snap.frame, 6);
    assert_eq!(snap.pieces, vec![piece(7)]);
}

#[test]
fn stale_fragment_is_ignored() {
    let mut assembler = Assembler::new();
    assembler.ingest(6, WorldPiece::Total(2));
    assembler.ingest(6, piece(1));
    assembler.ingest(5, piece(99));
    assert!(assembler.snapshot().is_none());
    assembler.ingest(6, piece(2));
    let snap = assembler.snapshot().unwrap();
    assert_eq!(snap.frame, 6);
    assert_eq!(snap.pieces, vec![piece(1), piece(2)]);
}

#[test]
fn completed_snapshot_survives_newer_partial_frame() {
    let mut assembler = Assembler::new();
    assembler.ingest(3, WorldPiece::Total(1));
    assembler.ingest(3, piece(8));
    let first = assembler.snapshot().unwrap();
    assert_eq!(first.frame, 3);
    assembler.ingest(4, WorldPiece::Total(5));
    assembler.ingest(4, piece(9));
    let still = assembler.snapshot().unwrap();
    assert_eq!(still.frame, 3);
    assert_eq!(still.pieces, vec![piece(8)]);
}

#[test]
fn border_pieces_count_toward_completion() {
    let e = EndPoint { point: Point { x: 1, y: 2, v: 3 }, open: true };
    let mut assembler = Assembler::new();
    assembler.ingest(1, WorldPiece::Total(2));
    assembler.ingest(1, WorldPiece::ArenaBorder { p0: e, p1: e });
    assembler.ingest(1, WorldPiece::RoverA(e));
    let snap = assembler.snapshot().unwrap();
    assert_eq!(snap.frame, 1);
    assert_eq!(snap.pieces.len(), 2);
}
