//! The routing registry: the shared table from participant role to the
//! delivery channel of the connection currently bound to that role.
//!
//! Channels themselves live in the surrounding program; the registry
//! holds their numeric identities.  Binding overwrites silently — the
//! last writer wins — and routing a message whose addressed role has no
//! binding drops it without raising anything to the caller.

use vstd::prelude::*;
use crate::msg::{spec_destination, Netmessage, Role};

verus! {

/// The role-to-channel table.  One slot per role; an empty slot means no
/// participant with that role has connected yet.
pub struct Registry {
    geordon: Option<u64>,
    josh: Option<u64>,
    joe: Option<u64>,
    zach: Option<u64>,
    debug_geordon: Option<u64>,
    debug_josh: Option<u64>,
    debug_joe: Option<u64>,
    debug_zach: Option<u64>,
}

/// What routing decides for one message.
#[derive(Debug, Clone, Copy, PartialEq, Eq, Structural)]
pub enum RouteDecision {
    /// Deliver the message on this channel.
    Deliver { chan: u64 },
    /// The message kind addresses no role: log it and drop it.
    DropUnrouted,
    /// The addressed role has no binding yet: warn and drop.
    DropUnbound,
}

/// What routing decides: the static table names the addressed role, and
/// the role's slot names the channel, if any.
pub open spec fn spec_route(reg: Registry, m: Netmessage) -> RouteDecision {
    match spec_destination(m) {
        Some(role) => match reg.spec_channel(role) {
            Some(c) => RouteDecision::Deliver { chan: c },
            None => RouteDecision::DropUnbound,
        },
        None => RouteDecision::DropUnrouted,
    }
}

impl Registry {
    /// The channel bound to a role, if any.
    pub closed spec fn spec_channel(self, r: Role) -> Option<u64> {
        match r {
            Role::Geordon => self.geordon,
            Role::Josh => self.josh,
            Role::Joe => self.joe,
            Role::Zach => self.zach,
            Role::DebugGeordon => self.debug_geordon,
            Role::DebugJosh => self.debug_josh,
            Role::DebugJoe => self.debug_joe,
            Role::DebugZach => self.debug_zach,
        }
    }

    /// The registry after binding a role to a channel.
    pub closed spec fn spec_bind(self, role: Role, chan: u64) -> Registry {
        match role {
            Role::Geordon => Registry { geordon: Some(chan), ..self },
            Role::Josh => Registry { josh: Some(chan), ..self },
            Role::Joe => Registry { joe: Some(chan), ..self },
            Role::Zach => Registry { zach: Some(chan), ..self },
            Role::DebugGeordon => Registry { debug_geordon: Some(chan), ..self },
            Role::DebugJosh => Registry { debug_josh: Some(chan), ..self },
            Role::DebugJoe => Registry { debug_joe: Some(chan), ..self },
            Role::DebugZach => Registry { debug_zach: Some(chan), ..self },
        }
    }

    /// An empty registry: no participant has connected yet.
    pub fn new() -> (r: Registry)
        ensures
            forall|ro: Role| r.spec_channel(ro) is None,
    {
        Registry {
            geordon: None,
            josh: None,
            joe: None,
            zach: None,
            debug_geordon: None,
            debug_josh: None,
            debug_joe: None,
            debug_zach: None,
        }
    }

    /// Bind a role to a channel, silently superseding any previous
    /// binding: the last writer wins.
    pub fn bind(&mut self, role: Role, chan: u64)
        ensures
            *final(self) == old(self).spec_bind(role, chan),
            final(self).spec_channel(role) == Some(chan),
            forall|ro: Role|
                ro != role ==> final(self).spec_channel(ro) == old(self).spec_channel(ro),
    {
        match role {
            Role::Geordon => self.geordon = Some(chan),
            Role::Josh => self.josh = Some(chan),
            Role::Joe => self.joe = Some(chan),
            Role::Zach => self.zach = Some(chan),
            Role::DebugGeordon => self.debug_geordon = Some(chan),
            Role::DebugJosh => self.debug_josh = Some(chan),
            Role::DebugJoe => self.debug_joe = Some(chan),
            Role::DebugZach => self.debug_zach = Some(chan),
        }
    }

    /// The channel bound to a role, if any.
    pub fn lookup(&self, role: Role) -> (r: Option<u64>)
        ensures
            r == self.spec_channel(role),
    {
        match role {
            Role::Geordon => self.geordon,
            Role::Josh => self.josh,
            Role::Joe => self.joe,
            Role::Zach => self.zach,
            Role::DebugGeordon => self.debug_geordon,
            Role::DebugJosh => self.debug_josh,
            Role::DebugJoe => self.debug_joe,
            Role::DebugZach => self.debug_zach,
        }
    }

    /// Decide where a message goes.  Never blocks, never fails: a message
    /// that cannot be delivered is dropped with a decision saying why.
    pub fn route(&self, m: &Netmessage) -> (r: RouteDecision)
        ensures
            r == spec_route(*self, *m),
    {
        match m.destination() {
            Some(role) => match self.lookup(role) {
                Some(c) => RouteDecision::Deliver { chan: c },
                None => RouteDecision::DropUnbound,
            },
            None => RouteDecision::DropUnrouted,
        }
    }
}

/// Binding affects exactly the bound role's slot.
pub proof fn lemma_bind_channels(reg: Registry, role: Role, chan: u64)
    ensures
        reg.spec_bind(role, chan).spec_channel(role) == Some(chan),
        forall|ro: Role|
            ro != role ==> reg.spec_bind(role, chan).spec_channel(ro) == reg.spec_channel(ro),
{
}

/// Rebinding: after a role is bound to one channel and then to another,
/// every message addressed to that role is delivered to the second
/// channel alone; the first receives nothing further.
pub proof fn lemma_rebind_delivers_to_latest(
    reg: Registry,
    role: Role,
    c1: u64,
    c2: u64,
    m: Netmessage,
)
    requires
        spec_destination(m) == Some(role),
    ensures
        spec_route(reg.spec_bind(role, c1).spec_bind(role, c2), m) == (RouteDecision::Deliver {
            chan: c2,
        }),
{
    lemma_bind_channels(reg.spec_bind(role, c1), role, c2);
}

/// Routing to a role that has no binding drops the message and raises
/// nothing: the decision says only that the role was unbound.
pub proof fn lemma_route_unbound_drops(reg: Registry, role: Role, m: Netmessage)
    requires
        spec_destination(m) == Some(role),
        reg.spec_channel(role) is None,
    ensures
        spec_route(reg, m) == RouteDecision::DropUnbound,
{
}

} // verus!
