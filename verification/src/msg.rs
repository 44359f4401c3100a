//! The message vocabulary exchanged between participants, and the static
//! routing table that sends each message kind to the role it addresses.

use vstd::prelude::*;

verus! {

/// A point reported by the vision system.  The coordinates and the
/// confidence are carried as the raw bit patterns of the sender's 32-bit
/// floating-point values: the hub never interprets them, only moves them,
/// and the consumer converts them back at the boundary.
#[derive(Debug, Clone, Copy, PartialEq, Eq, Structural)]
pub struct Point {
    pub x: u32,
    pub y: u32,
    pub v: u32,
}

/// A border endpoint: a point, and whether the border is open at it.
#[derive(Debug, Clone, Copy, PartialEq, Eq, Structural)]
pub struct EndPoint {
    pub point: Point,
    pub open: bool,
}

/// One piece of reported world state, or the declaration of how many
/// pieces the current frame has in total.
#[derive(Debug, Clone, Copy, PartialEq, Eq, Structural)]
pub enum WorldPiece {
    /// How many non-total pieces the frame consists of.
    Total(u32),
    /// One segment of the arena border.
    ArenaBorder { p0: EndPoint, p1: EndPoint },
    /// One segment of the visibility border.
    VisibilityBorder { p0: EndPoint, p1: EndPoint },
    /// One segment of an object's border.
    ObjectBorder { p0: EndPoint, p1: EndPoint },
    /// The current target.
    Target(Point),
    /// The first rover's position.
    RoverA(EndPoint),
    /// The second rover's position.
    RoverB(EndPoint),
}

/// The fixed set of participant identities a connection may bind to.
#[derive(Debug, Clone, Copy, PartialEq, Eq, Structural)]
pub enum Role {
    Geordon,
    Josh,
    Joe,
    Zach,
    DebugGeordon,
    DebugJosh,
    DebugJoe,
    DebugZach,
}

/// The printable name of a role.
pub open spec fn spec_role_name(r: Role) -> Seq<char> {
    match r {
        Role::Geordon => "Geordon"@,
        Role::Josh => "Josh"@,
        Role::Joe => "Joe"@,
        Role::Zach => "Zach"@,
        Role::DebugGeordon => "DebugGeordon"@,
        Role::DebugJosh => "DebugJosh"@,
        Role::DebugJoe => "DebugJoe"@,
        Role::DebugZach => "DebugZach"@,
    }
}

impl Role {
    /// The printable name of the role, for log lines.
    pub fn name(&self) -> (r: &'static str)
        ensures
            r@ == spec_role_name(*self),
    {
        match self {
            Role::Geordon => "Geordon",
            Role::Josh => "Josh",
            Role::Joe => "Joe",
            Role::Zach => "Zach",
            Role::DebugGeordon => "DebugGeordon",
            Role::DebugJosh => "DebugJosh",
            Role::DebugJoe => "DebugJoe",
            Role::DebugZach => "DebugZach",
        }
    }
}

/// One application-level message.  Numeric payloads that stand for
/// measurements are raw bit patterns, as in `Point`.
#[derive(Debug, Clone, Copy, PartialEq, Eq, Structural)]
pub enum Netmessage {
    // Link control.
    Heartbeat,
    ReqNetstats,
    Netstats { sent: u32, recv: u32 },
    ReqName,
    // Identity declarations.
    NameGeordon,
    NameJosh,
    NameJoe,
    NameZach,
    NameDebugGeordon,
    NameDebugJosh,
    NameDebugJoe,
    NameDebugZach,
    // Addressed to Joe.
    ReqMovement,
    JF(u32),
    JE(u32),
    // Addressed to Josh.
    CF(u32),
    CE(u32),
    CT(u32),
    Stopped(bool),
    ReqInPosition,
    EdgeDetect(bool),
    EdgeDropped(bool),
    Distance(u32),
    Grabbed(bool),
    Dropped(bool),
    // Addressed to Geordon.
    Movement { x: u32, y: u32 },
    JoeReqPoints,
    JoshReqPoints,
    ReqStopped,
    // Addressed to Zach.
    InPosition(bool),
    ReqEdgeDetect,
    ReqEdgeDropped,
    ReqDistance,
    ReqGrabbed,
    ReqDropped,
    // World state, for the assembler.
    World { frame: u32, piece: WorldPiece },
}

/// The identity a message declares, if it is an identity declaration.
pub open spec fn spec_name_role(m: Netmessage) -> Option<Role> {
    match m {
        Netmessage::NameGeordon => Some(Role::Geordon),
        Netmessage::NameJosh => Some(Role::Josh),
        Netmessage::NameJoe => Some(Role::Joe),
        Netmessage::NameZach => Some(Role::Zach),
        Netmessage::NameDebugGeordon => Some(Role::DebugGeordon),
        Netmessage::NameDebugJosh => Some(Role::DebugJosh),
        Netmessage::NameDebugJoe => Some(Role::DebugJoe),
        Netmessage::NameDebugZach => Some(Role::DebugZach),
        _ => None,
    }
}

/// The role a message kind is addressed to.  Identity declarations, link
/// control and world fragments are not routed through the registry and
/// have no destination here.
pub open spec fn spec_destination(m: Netmessage) -> Option<Role> {
    match m {
        Netmessage::ReqMovement | Netmessage::JF(_) | Netmessage::JE(_) => Some(Role::Joe),
        Netmessage::CF(_)
        | Netmessage::CE(_)
        | Netmessage::CT(_)
        | Netmessage::Stopped(_)
        | Netmessage::ReqInPosition
        | Netmessage::EdgeDetect(_)
        | Netmessage::EdgeDropped(_)
        | Netmessage::Distance(_)
        | Netmessage::Grabbed(_)
        | Netmessage::Dropped(_) => Some(Role::Josh),
        Netmessage::Movement { .. }
        | Netmessage::JoeReqPoints
        | Netmessage::JoshReqPoints
        | Netmessage::ReqStopped => Some(Role::Geordon),
        Netmessage::InPosition(_)
        | Netmessage::ReqEdgeDetect
        | Netmessage::ReqEdgeDropped
        | Netmessage::ReqDistance
        | Netmessage::ReqGrabbed
        | Netmessage::ReqDropped => Some(Role::Zach),
        _ => None,
    }
}

impl Netmessage {
    /// The identity this message declares, if any.
    pub fn name_role(&self) -> (r: Option<Role>)
        ensures
            r == spec_name_role(*self),
    {
        match self {
            Netmessage::NameGeordon => Some(Role::Geordon),
            Netmessage::NameJosh => Some(Role::Josh),
            Netmessage::NameJoe => Some(Role::Joe),
            Netmessage::NameZach => Some(Role::Zach),
            Netmessage::NameDebugGeordon => Some(Role::DebugGeordon),
            Netmessage::NameDebugJosh => Some(Role::DebugJosh),
            Netmessage::NameDebugJoe => Some(Role::DebugJoe),
            Netmessage::NameDebugZach => Some(Role::DebugZach),
            _ => None,
        }
    }

    /// The role this message kind is addressed to, from the static routing
    /// table.
    pub fn destination(&self) -> (r: Option<Role>)
        ensures
            r == spec_destination(*self),
    {
        match self {
            Netmessage::ReqMovement | Netmessage::JF(_) | Netmessage::JE(_) => Some(Role::Joe),
            Netmessage::CF(_)
            | Netmessage::CE(_)
            | Netmessage::CT(_)
            | Netmessage::Stopped(_)
            | Netmessage::ReqInPosition
            | Netmessage::EdgeDetect(_)
            | Netmessage::EdgeDropped(_)
            | Netmessage::Distance(_)
            | Netmessage::Grabbed(_)
            | Netmessage::Dropped(_) => Some(Role::Josh),
            Netmessage::Movement { .. }
            | Netmessage::JoeReqPoints
            | Netmessage::JoshReqPoints
            | Netmessage::ReqStopped => Some(Role::Geordon),
            Netmessage::InPosition(_)
            | Netmessage::ReqEdgeDetect
            | Netmessage::ReqEdgeDropped
            | Netmessage::ReqDistance
            | Netmessage::ReqGrabbed
            | Netmessage::ReqDropped => Some(Role::Zach),
            _ => None,
        }
    }

    /// The name of the robot this identity declaration stands for, for log
    /// lines; `None` on every other message kind.
    pub fn bot_name(&self) -> (r: Option<&'static str>)
        ensures
            match spec_name_role(*self) {
                Some(role) => r matches Some(s) && s@ == spec_role_name(role),
                None => r is None,
            },
    {
        match self {
            Netmessage::NameGeordon => Some("Geordon"),
            Netmessage::NameJosh => Some("Josh"),
            Netmessage::NameJoe => Some("Joe"),
            Netmessage::NameZach => Some("Zach"),
            Netmessage::NameDebugGeordon => Some("DebugGeordon"),
            Netmessage::NameDebugJosh => Some("DebugJosh"),
            Netmessage::NameDebugJoe => Some("DebugJoe"),
            Netmessage::NameDebugZach => Some("DebugZach"),
            _ => None,
        }
    }
}

} // verus!
