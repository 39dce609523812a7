//! The listening side of one mapping: it hands new clients to ports of their own,
//! and messages to the ports they are for.

use vstd::prelude::*;

use crate::addr::SocketAddr;
use crate::msg;
use crate::msg::Msg;
use crate::table::{PortKey, Table};

verus! {

/// The mapping from `lst_addr` to `dst_addr`, with what leads to each of its ports.
pub struct PortMapper<H> {
    lst_addr: SocketAddr,
    dst_addr: SocketAddr,
    ports: Table<PortKey, H>,
}

/// What a mapper holds.
#[verifier::ext_equal]
pub struct MapperView<H> {
    pub lst_addr: SocketAddr,
    pub dst_addr: SocketAddr,
    pub ports: Map<PortKey, H>,
}

/// What a mapper is told.
pub enum MapperEvent<H> {
    /// It listens, or it cannot.
    Bound(bool),
    /// A client at this address connected, and this leads to its port; or no more
    /// clients can be taken.
    Accepted(Option<(SocketAddr, H)>),
    /// A message came, or no more will come.
    Received(Option<Msg>),
    /// The message for this port was taken, or not.
    Delivered(PortKey, bool),
}

/// What a mapper does next.
#[derive(Debug)]
pub enum MapperAction {
    /// Wait for the next event.
    Wait,
    /// Start the port of this client.
    Open(PortKey),
    /// Hand this message to the port it is for (`PortMapper::port`), and report.
    Deliver(Msg),
    /// Drop this message, as no port matches.
    Drop(Msg),
    /// End.
    Stop,
}

/// What becomes of a message: it goes to the port with its addresses, if there is one.
pub open spec fn mapper_route<H>(ports: Map<PortKey, H>, m: Msg) -> MapperAction {
    if ports.contains_key(msg::port_key_of(m.addr)) {
        MapperAction::Deliver(m)
    } else {
        MapperAction::Drop(m)
    }
}

/// What a mapper does.
pub open spec fn mapper_step<H>(mapper: MapperView<H>, event: MapperEvent<H>) -> (
    MapperView<H>,
    MapperAction,
) {
    match event {
        MapperEvent::Bound(ok) => (
            mapper,
            if ok {
                MapperAction::Wait
            } else {
                MapperAction::Stop
            },
        ),
        MapperEvent::Accepted(Some((local_addr, port))) => {
            let key = PortKey {
                lst_addr: mapper.lst_addr,
                dst_addr: mapper.dst_addr,
                local_addr,
            };
            (
                MapperView { ports: mapper.ports.insert(key, port), ..mapper },
                MapperAction::Open(key),
            )
        },
        MapperEvent::Received(Some(m)) => (mapper, mapper_route(mapper.ports, m)),
        MapperEvent::Accepted(None) | MapperEvent::Received(None) => (mapper, MapperAction::Stop),
        MapperEvent::Delivered(key, ok) => (
            if ok {
                mapper
            } else {
                MapperView { ports: mapper.ports.remove(key), ..mapper }
            },
            MapperAction::Wait,
        ),
    }
}

impl<H> View for PortMapper<H> {
    type V = MapperView<H>;

    closed spec fn view(&self) -> MapperView<H> {
        MapperView { lst_addr: self.lst_addr, dst_addr: self.dst_addr, ports: self.ports@ }
    }
}

impl<H> PortMapper<H> {
    pub closed spec fn wf(&self) -> bool {
        self.ports.wf()
    }

    /// A mapper without ports.
    pub fn new(lst_addr: SocketAddr, dst_addr: SocketAddr) -> (mapper: Self)
        ensures
            mapper.wf(),
            mapper@ == (MapperView { lst_addr, dst_addr, ports: Map::<PortKey, H>::empty() }),
    {
        PortMapper { lst_addr, dst_addr, ports: Table::new() }
    }

    /// Where the mapping listens.
    pub fn lst_addr(&self) -> (addr: SocketAddr)
        ensures
            addr == self@.lst_addr,
    {
        self.lst_addr
    }

    /// What leads to the port with these addresses.
    pub fn port(&self, key: &PortKey) -> (port: Option<&H>)
        requires
            self.wf(),
        ensures
            match port {
                Some(h) => self@.ports.contains_key(*key) && *h == self@.ports[*key],
                None => !self@.ports.contains_key(*key),
            },
    {
        self.ports.get(key)
    }

    /// What becomes of a message.
    pub fn process_msg(&self, m: Msg) -> (action: MapperAction)
        requires
            self.wf(),
        ensures
            action == mapper_route(self@.ports, m),
    {
        if self.ports.contains_key(&m.addr.port_key()) {
            MapperAction::Deliver(m)
        } else {
            MapperAction::Drop(m)
        }
    }

    /// Takes note of what happened, and says what to do next.
    pub fn run(&mut self, event: MapperEvent<H>) -> (action: MapperAction)
        requires
            old(self).wf(),
        ensures
            final(self).wf(),
            (final(self)@, action) == mapper_step(old(self)@, event),
    {
        match event {
            MapperEvent::Bound(ok) => if ok {
                MapperAction::Wait
            } else {
                MapperAction::Stop
            },
            MapperEvent::Accepted(Some((local_addr, port))) => {
                let key = PortKey {
                    lst_addr: self.lst_addr,
                    dst_addr: self.dst_addr,
                    local_addr,
                };
                self.ports.insert(key, port);
                MapperAction::Open(key)
            },
            MapperEvent::Received(Some(m)) => self.process_msg(m),
            MapperEvent::Accepted(None) | MapperEvent::Received(None) => MapperAction::Stop,
            MapperEvent::Delivered(key, ok) => {
                if !ok {
                    // This port is dead.
                    self.ports.remove(&key);
                }
                MapperAction::Wait
            },
        }
    }
}

/// The events after which a mapper ends: it cannot listen, cannot take clients, or no
/// more messages will come.
pub open spec fn must_end<H>(event: MapperEvent<H>) -> bool {
    ||| event matches MapperEvent::Bound(ok) && !ok
    ||| event matches MapperEvent::Accepted(None)
    ||| event matches MapperEvent::Received(None)
}

/// A mapper ends only when it must, opens a port for each client, hands each message
/// to the port of its connection if there is one, and otherwise goes on waiting:
/// so whatever becomes of a delivery, and whatever ports are left.
pub proof fn law_mapper_acts_for_a_reason<H>(mapper: MapperView<H>, event: MapperEvent<H>)
    ensures
        ({
            let action = mapper_step(mapper, event).1;
            &&& action is Stop <==> must_end(event)
            &&& action is Open <==> (event matches MapperEvent::Accepted(Some(_)))
            &&& action matches MapperAction::Open(key) ==> {
                &&& key.lst_addr == mapper.lst_addr
                &&& key.dst_addr == mapper.dst_addr
                &&& key.local_addr == (event->Accepted_0->0).0
            }
            &&& action is Deliver || action is Drop <==> (event matches MapperEvent::Received(
                Some(_),
            ))
            &&& action matches MapperAction::Deliver(m) ==> m == event->Received_0->0
            &&& action matches MapperAction::Drop(m) ==> m == event->Received_0->0
            &&& event matches MapperEvent::Received(Some(m)) ==> (action is Deliver
                <==> mapper.ports.contains_key(
                PortKey {
                    lst_addr: m.addr.lst_addr,
                    dst_addr: m.addr.dst_addr,
                    local_addr: m.addr.local_addr,
                },
            ))
            &&& event is Delivered ==> action is Wait
        }),
{
}

/// What an event changes of a mapper: a client that is taken gets its port, a port
/// that did not take its message is forgotten, and all other ports, like the mapping
/// itself, stay as they are.
pub proof fn law_mapper_changes_only_so<H>(
    mapper: MapperView<H>,
    event: MapperEvent<H>,
    key: PortKey,
)
    ensures
        ({
            let after = mapper_step(mapper, event).0;
            let taken = event matches MapperEvent::Accepted(Some((local_addr, _))) && key
                == (PortKey {
                lst_addr: mapper.lst_addr,
                dst_addr: mapper.dst_addr,
                local_addr,
            });
            let lost = event matches MapperEvent::Delivered(k, ok) && k == key && !ok;
            &&& after.lst_addr == mapper.lst_addr
            &&& after.dst_addr == mapper.dst_addr
            &&& taken ==> after.ports.contains_key(key) && after.ports[key]
                == (event->Accepted_0->0).1
            &&& lost ==> !after.ports.contains_key(key)
            &&& !taken && !lost ==> after.ports.contains_key(key) == mapper.ports.contains_key(key)
            &&& !taken && !lost && mapper.ports.contains_key(key) ==> after.ports[key]
                == mapper.ports[key]
        }),
{
}

/// A client that was taken is served: its port is opened, and a message about its
/// connection goes to it, also after other clients came and the ports of others
/// were found gone.
pub proof fn law_client_is_served<H>(
    mapper: MapperView<H>,
    local_addr: SocketAddr,
    h: H,
    between: MapperEvent<H>,
    m: Msg,
)
    requires
        m.addr.lst_addr == mapper.lst_addr,
        m.addr.dst_addr == mapper.dst_addr,
        m.addr.local_addr == local_addr,
        between matches MapperEvent::Accepted(Some((other, _))) ==> other != local_addr,
        between matches MapperEvent::Delivered(key, ok) ==> ok || key.local_addr != local_addr,
    ensures
        ({
            let taken = mapper_step(mapper, MapperEvent::Accepted(Some((local_addr, h)))).0;
            let later = mapper_step(taken, between).0;
            let key = PortKey {
                lst_addr: mapper.lst_addr,
                dst_addr: mapper.dst_addr,
                local_addr,
            };
            &&& mapper_step(later, MapperEvent::Received(Some(m))).1 == MapperAction::Deliver(m)
            &&& later.ports.contains_key(key)
            &&& later.ports[key] == h
        }),
{
}

/// A message goes to the port with its addresses if there is one, and is dropped only
/// if there is none; it stays as it is.
pub proof fn law_mapper_routes_by_addresses<H>(ports: Map<PortKey, H>, m: Msg)
    ensures
        ({
            let known = ports.contains_key(
                PortKey {
                    lst_addr: m.addr.lst_addr,
                    dst_addr: m.addr.dst_addr,
                    local_addr: m.addr.local_addr,
                },
            );
            &&& known ==> mapper_route(ports, m) == MapperAction::Deliver(m)
            &&& !known ==> mapper_route(ports, m) == MapperAction::Drop(m)
        }),
{
}

} // verus!
