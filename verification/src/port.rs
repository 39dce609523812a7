//! The two ends of a mapped connection: `Port` holds the client's socket,
//! `DstPort` the socket to the destination. Each is told what happened and says
//! what to do next.

use vstd::prelude::*;

use crate::addr::{SocketAddr, SocketAddrV4};
use crate::error::Error;
use crate::msg;
use crate::msg::{AddrPair, Msg, MsgDirection, MsgType};
use crate::queue;
use crate::queue::{DataQueue, DataView};

verus! {

broadcast use vstd::seq_lib::group_seq_properties;

/// What a port is told.
#[derive(Debug)]
pub enum PortEvent {
    /// The message that was to be sent reached the router, or did not.
    Sent(bool),
    /// A read from the socket gave these bytes, or failed.
    Read(Result<Vec<u8>, Error>),
    /// The socket is writable.
    Writable,
    /// The socket took this many bytes, or failed.
    Wrote(Result<usize, Error>),
    /// A message came, or no more will come.
    Received(Option<Msg>),
}

/// What a port does next.
#[derive(Debug)]
pub enum PortAction {
    /// Wait for the next event.
    Wait,
    /// Send this message to the router, and report whether it was taken.
    Send(Msg),
    /// Write what is left of the current segment to the socket, and report.
    Write,
    /// Send this message if that can be done, and end.
    Finish(Msg),
    /// End.
    Stop,
}

/// A port's addresses, the direction of its messages, and the data on its way to
/// the socket.
#[verifier::ext_equal]
pub struct EndView {
    pub addr: AddrPair,
    pub dir: MsgDirection,
    pub data: DataView,
}

/// A listening-side port: it does not read before the other side is connected.
#[verifier::ext_equal]
pub struct PortView {
    pub end: EndView,
    pub can_read: bool,
}

/// The message by which a port tells its peer that it is gone.
pub open spec fn goodbye(end: EndView) -> Msg {
    Msg { addr: end.addr, dir: end.dir, typ: MsgType::MapDisconnect }
}

/// What both kinds of ports do.
pub open spec fn end_step(end: EndView, event: PortEvent) -> (EndView, PortAction) {
    match event {
        PortEvent::Sent(ok) => (
            end,
            if ok {
                PortAction::Wait
            } else {
                PortAction::Stop
            },
        ),
        PortEvent::Read(Ok(data)) => (
            end,
            if data@.len() == 0 {
                PortAction::Finish(goodbye(end))
            } else {
                PortAction::Send(
                    Msg { addr: end.addr, dir: end.dir, typ: MsgType::MapData(data) },
                )
            },
        ),
        PortEvent::Writable => if end.data.current is Some {
            (end, PortAction::Write)
        } else {
            (EndView { data: queue::data_next(end.data), ..end }, PortAction::Wait)
        },
        PortEvent::Wrote(Ok(n)) => (
            EndView { data: queue::data_wrote(end.data, n as int), ..end },
            PortAction::Wait,
        ),
        PortEvent::Read(Err(e)) | PortEvent::Wrote(Err(e)) => (
            end,
            if e == Error::WouldBlock {
                PortAction::Wait
            } else {
                PortAction::Finish(goodbye(end))
            },
        ),
        PortEvent::Received(None) => (end, PortAction::Finish(goodbye(end))),
        PortEvent::Received(Some(m)) => match m.typ {
            MsgType::MapDisconnect => (end, PortAction::Stop),
            MsgType::MapData(data) => (
                EndView { data: queue::data_push(end.data, data@), ..end },
                PortAction::Wait,
            ),
            _ => (end, PortAction::Wait),
        },
    }
}

/// The word that the other side is connected opens a listening-side port for
/// reading, and carries the address of the other side's socket.
pub open spec fn port_step(port: PortView, event: PortEvent) -> (PortView, PortAction) {
    if event matches PortEvent::Received(Some(m)) && m.typ is MapConnected {
        let addr = AddrPair { remap_addr: event->Received_0->0.addr.remap_addr, ..port.end.addr };
        (PortView { end: EndView { addr, ..port.end }, can_read: true }, PortAction::Wait)
    } else {
        let (end, action) = end_step(port.end, event);
        (PortView { end, ..port }, action)
    }
}

/// The socket takes bytes of a current segment only, and no more than it has.
pub open spec fn event_fits(data: DataView, event: PortEvent) -> bool {
    event matches PortEvent::Wrote(Ok(n)) ==> queue::data_wrote_fits(data, n as int)
}

/// A destination's end and its first word: `socket_addr` is the near address of the
/// connection to the destination, if it could be made.
pub open spec fn connected(addr: AddrPair, socket_addr: Option<SocketAddr>) -> (
    EndView,
    PortAction,
) {
    let dir = MsgDirection::D2L;
    let data = queue::data_empty();
    match socket_addr {
        Some(remap_addr) => {
            let addr = AddrPair { remap_addr, ..addr };
            let word = Msg { addr, dir, typ: MsgType::MapConnected };
            (EndView { addr, dir, data }, PortAction::Send(word))
        },
        None => {
            let end = EndView { addr, dir, data };
            (end, PortAction::Finish(goodbye(end)))
        },
    }
}

/// `0.0.0.0:0`, which stands for an address that is not known yet.
pub open spec fn unknown_addr() -> SocketAddr {
    SocketAddr::V4(SocketAddrV4 { ip: 0, port: 0 })
}

/// A client's end and its first word: the wish to connect.
pub open spec fn opened(lst_addr: SocketAddr, local_addr: SocketAddr, dst_addr: SocketAddr) -> (
    PortView,
    PortAction,
) {
    let addr = AddrPair { local_addr, lst_addr, remap_addr: unknown_addr(), dst_addr };
    let dir = MsgDirection::L2D;
    let end = EndView { addr, dir, data: queue::data_empty() };
    let wish = Msg { addr, dir, typ: MsgType::MapConnecting };
    (PortView { end, can_read: false }, PortAction::Send(wish))
}

struct End {
    addr: AddrPair,
    dir: MsgDirection,
    data: DataQueue,
}

impl End {
    spec fn view(&self) -> EndView {
        EndView { addr: self.addr, dir: self.dir, data: self.data@ }
    }

    fn goodbye(&self) -> (msg: Msg)
        ensures
            msg == goodbye(self@),
    {
        Msg { addr: self.addr, dir: self.dir, typ: MsgType::MapDisconnect }
    }

    fn handle(&mut self, event: PortEvent) -> (action: PortAction)
        requires
            old(self).data.wf(),
            event_fits(old(self)@.data, event),
        ensures
            final(self).data.wf(),
            (final(self)@, action) == end_step(old(self)@, event),
    {
        match event {
            PortEvent::Sent(ok) => if ok {
                PortAction::Wait
            } else {
                // This port is dead.
                PortAction::Stop
            },
            PortEvent::Read(Ok(data)) => {
                if data.len() == 0 {
                    return PortAction::Finish(self.goodbye());
                }
                PortAction::Send(
                    Msg { addr: self.addr, dir: self.dir, typ: MsgType::MapData(data) },
                )
            },
            PortEvent::Writable => {
                if self.data.is_writing() {
                    return PortAction::Write;
                }
                // The segment will be written next time.
                self.data.next();
                PortAction::Wait
            },
            PortEvent::Wrote(Ok(n)) => {
                self.data.wrote(n);
                PortAction::Wait
            },
            PortEvent::Read(Err(e)) | PortEvent::Wrote(Err(e)) => {
                if e == Error::WouldBlock {
                    return PortAction::Wait;
                }
                PortAction::Finish(self.goodbye())
            },
            PortEvent::Received(None) => PortAction::Finish(self.goodbye()),
            PortEvent::Received(Some(m)) => match m.typ {
                MsgType::MapDisconnect => PortAction::Stop,
                MsgType::MapData(data) => {
                    self.data.push(data);
                    PortAction::Wait
                },
                _ => PortAction::Wait,
            },
        }
    }
}

/// The destination's end of a mapped connection.
pub struct DstPort {
    end: End,
}

impl View for DstPort {
    type V = EndView;

    closed spec fn view(&self) -> EndView {
        self.end@
    }
}

impl DstPort {
    pub closed spec fn wf(&self) -> bool {
        self.end.data.wf()
    }

    /// Answers the wish to connect `addr`: `socket_addr` is the near address of the
    /// connection to the destination, if it could be made.
    pub fn connect(addr: AddrPair, socket_addr: Option<SocketAddr>) -> (r: (Self, PortAction))
        ensures
            r.0.wf(),
            (r.0@, r.1) == connected(addr, socket_addr),
    {
        let dir = MsgDirection::D2L;
        match socket_addr {
            Some(remap_addr) => {
                let addr = AddrPair {
                    local_addr: addr.local_addr,
                    lst_addr: addr.lst_addr,
                    remap_addr,
                    dst_addr: addr.dst_addr,
                };
                let msg = Msg { addr, dir, typ: MsgType::MapConnected };
                (DstPort { end: End { addr, dir, data: DataQueue::new() } }, PortAction::Send(msg))
            },
            None => {
                let end = End { addr, dir, data: DataQueue::new() };
                let msg = end.goodbye();
                (DstPort { end }, PortAction::Finish(msg))
            },
        }
    }

    /// Whether there is data for the socket.
    pub fn wants_write(&self) -> (b: bool)
        ensures
            b == (self@.data.waiting.len() > 0 || self@.data.current is Some),
    {
        self.end.data.is_pending()
    }

    /// What is left of the current segment.
    pub fn unwritten(&self) -> (bytes: &[u8])
        requires
            self.wf(),
            self@.data.current is Some,
        ensures
            bytes@ == self@.data.current->0,
    {
        self.end.data.unwritten()
    }

    /// Takes note of what happened, and says what to do next.
    pub fn handle(&mut self, event: PortEvent) -> (action: PortAction)
        requires
            old(self).wf(),
            event_fits(old(self)@.data, event),
        ensures
            final(self).wf(),
            (final(self)@, action) == end_step(old(self)@, event),
    {
        self.end.handle(event)
    }
}

/// The client's end of a mapped connection.
pub struct Port {
    end: End,
    can_read: bool,
}

impl View for Port {
    type V = PortView;

    closed spec fn view(&self) -> PortView {
        PortView { end: self.end@, can_read: self.can_read }
    }
}

impl Port {
    pub closed spec fn wf(&self) -> bool {
        self.end.data.wf()
    }

    /// Starts the port of a client at `local_addr` that connected to `lst_addr`, by
    /// asking the other side to connect to `dst_addr`.
    pub fn open(lst_addr: SocketAddr, local_addr: SocketAddr, dst_addr: SocketAddr) -> (r: (
        Self,
        PortAction,
    ))
        ensures
            r.0.wf(),
            (r.0@, r.1) == opened(lst_addr, local_addr, dst_addr),
    {
        let remap_addr = SocketAddr::V4(SocketAddrV4 { ip: 0, port: 0 });
        let addr = AddrPair { local_addr, lst_addr, remap_addr, dst_addr };
        let dir = MsgDirection::L2D;
        let msg = Msg { addr, dir, typ: MsgType::MapConnecting };
        let end = End { addr, dir, data: DataQueue::new() };
        (Port { end, can_read: false }, PortAction::Send(msg))
    }

    /// Whether the socket may be read.
    pub fn wants_read(&self) -> (b: bool)
        ensures
            b == self@.can_read,
    {
        self.can_read
    }

    /// Whether there is data for the socket.
    pub fn wants_write(&self) -> (b: bool)
        ensures
            b == (self@.end.data.waiting.len() > 0 || self@.end.data.current is Some),
    {
        self.end.data.is_pending()
    }

    /// What is left of the current segment.
    pub fn unwritten(&self) -> (bytes: &[u8])
        requires
            self.wf(),
            self@.end.data.current is Some,
        ensures
            bytes@ == self@.end.data.current->0,
    {
        self.end.data.unwritten()
    }

    /// Takes note of what happened, and says what to do next.
    pub fn handle(&mut self, event: PortEvent) -> (action: PortAction)
        requires
            old(self).wf(),
            event_fits(old(self)@.end.data, event),
        ensures
            final(self).wf(),
            (final(self)@, action) == port_step(old(self)@, event),
    {
        if let PortEvent::Received(Some(m)) = &event {
            if let MsgType::MapConnected = &m.typ {
                // We can read data now.
                self.end.addr.remap_addr = m.addr.remap_addr;
                self.can_read = true;
                return PortAction::Wait;
            }
        }
        self.end.handle(event)
    }
}

/// The data of a port after `event`.
pub open spec fn data_step(data: DataView, event: PortEvent) -> DataView {
    match event {
        PortEvent::Writable => if data.current is Some {
            data
        } else {
            queue::data_next(data)
        },
        PortEvent::Wrote(Ok(n)) => queue::data_wrote(data, n as int),
        PortEvent::Received(Some(m)) => match m.typ {
            MsgType::MapData(segment) => queue::data_push(data, segment@),
            _ => data,
        },
        _ => data,
    }
}

/// The data of a port after `events`.
pub open spec fn data_after(data: DataView, events: Seq<PortEvent>) -> DataView
    decreases events.len(),
{
    if events.len() == 0 {
        data
    } else {
        data_after(data_step(data, events[0]), events.drop_first())
    }
}

pub open spec fn events_fit(data: DataView, events: Seq<PortEvent>) -> bool
    decreases events.len(),
{
    events.len() > 0 ==> {
        &&& event_fits(data, events[0])
        &&& events_fit(data_step(data, events[0]), events.drop_first())
    }
}

/// The bytes that the socket took during `events`.
pub open spec fn bytes_written(data: DataView, events: Seq<PortEvent>) -> Seq<u8>
    decreases events.len(),
{
    if events.len() == 0 {
        Seq::empty()
    } else {
        let now = match events[0] {
            PortEvent::Wrote(Ok(n)) => data.current->0.take(n as int),
            _ => Seq::empty(),
        };
        now + bytes_written(data_step(data, events[0]), events.drop_first())
    }
}

/// The bytes that messages brought during `events`.
pub open spec fn bytes_received(events: Seq<PortEvent>) -> Seq<u8>
    decreases events.len(),
{
    if events.len() == 0 {
        Seq::empty()
    } else {
        let now = match events[0] {
            PortEvent::Received(Some(m)) => match m.typ {
                MsgType::MapData(segment) => segment@,
                _ => Seq::empty(),
            },
            _ => Seq::empty(),
        };
        now + bytes_received(events.drop_first())
    }
}

/// Both kinds of ports treat their data in the same way.
pub proof fn law_ports_share_data_rules(port: PortView, event: PortEvent)
    ensures
        end_step(port.end, event).0.data == data_step(port.end.data, event),
        port_step(port, event).0.end.data == data_step(port.end.data, event),
{
}

/// A port passes its data on whole and in order: what the socket took, with what is
/// still pending, is what was pending before and what messages brought meanwhile.
pub proof fn law_bytes_pass_in_order(data: DataView, events: Seq<PortEvent>)
    requires
        events_fit(data, events),
    ensures
        bytes_written(data, events) + queue::data_pending(data_after(data, events))
            == queue::data_pending(data) + bytes_received(events),
    decreases events.len(),
{
    let pending = queue::data_pending(data);
    if events.len() == 0 {
        assert(bytes_written(data, events) + pending =~= pending + bytes_received(events));
    } else {
        let event = events[0];
        let rest = events.drop_first();
        let next = data_step(data, event);
        let later = queue::data_pending(next);
        law_bytes_pass_in_order(next, rest);
        let tail = bytes_written(next, rest) + queue::data_pending(data_after(next, rest));
        assert(tail == later + bytes_received(rest));
        let taken = match event {
            PortEvent::Wrote(Ok(n)) => data.current->0.take(n as int),
            _ => Seq::empty(),
        };
        let brought = match event {
            PortEvent::Received(Some(m)) => match m.typ {
                MsgType::MapData(segment) => segment@,
                _ => Seq::empty(),
            },
            _ => Seq::empty(),
        };
        assert(taken + later == pending + brought) by {
            match event {
                PortEvent::Writable => {
                    if data.current is None {
                        queue::law_next_keeps(data);
                    }
                    assert(taken + later =~= later);
                    assert(pending + brought =~= pending);
                },
                PortEvent::Wrote(Ok(n)) => {
                    queue::law_wrote_removes(data, n as int);
                    assert(pending + brought =~= pending);
                },
                PortEvent::Received(Some(m)) => {
                    if let MsgType::MapData(segment) = m.typ {
                        queue::law_push_appends(data, segment@);
                    }
                    assert(taken + later =~= later);
                    assert(pending + Seq::<u8>::empty() =~= pending);
                },
                _ => {
                    assert(taken + later =~= later);
                    assert(pending + brought =~= pending);
                },
            }
        }
        assert(bytes_written(data, events) + queue::data_pending(data_after(data, events))
            =~= taken + tail);
        assert(taken + (later + bytes_received(rest)) =~= (taken + later) + bytes_received(rest));
        assert((pending + brought) + bytes_received(rest) =~= pending + bytes_received(events));
    }
}

/// Whatever happens, a port stays the end of the same mapped connection, and every
/// message it sends is about that connection and goes its own way.
pub proof fn law_port_keeps_its_identity(port: PortView, event: PortEvent)
    ensures
        ({
            let (end, action) = end_step(port.end, event);
            &&& end.addr == port.end.addr && end.dir == port.end.dir
            &&& action matches PortAction::Send(m) ==> m.addr == port.end.addr && m.dir
                == port.end.dir
            &&& action matches PortAction::Finish(m) ==> m.addr == port.end.addr && m.dir
                == port.end.dir
        }),
        ({
            let (next, action) = port_step(port, event);
            &&& msg::port_key_of(next.end.addr) == msg::port_key_of(port.end.addr)
            &&& next.end.dir == port.end.dir
            &&& action matches PortAction::Send(m) ==> m.addr == port.end.addr && m.dir
                == port.end.dir
            &&& action matches PortAction::Finish(m) ==> m.addr == port.end.addr && m.dir
                == port.end.dir
        }),
{
}

/// A port that ends has said so to its peer, unless the peer said so first or the
/// router is gone; and a port says so only when it ends.
pub proof fn law_port_says_goodbye(port: PortView, event: PortEvent)
    ensures
        ({
            let action = end_step(port.end, event).1;
            &&& action matches PortAction::Finish(m) ==> m.typ is MapDisconnect
            &&& action is Stop ==> event == PortEvent::Sent(false) || (
            event matches PortEvent::Received(Some(m)) && m.typ is MapDisconnect)
            &&& action matches PortAction::Send(m) ==> m.typ is MapData
        }),
        ({
            let action = port_step(port, event).1;
            &&& action matches PortAction::Finish(m) ==> m.typ is MapDisconnect
            &&& action is Stop ==> event == PortEvent::Sent(false) || (
            event matches PortEvent::Received(Some(m)) && m.typ is MapDisconnect)
            &&& action matches PortAction::Send(m) ==> m.typ is MapData
        }),
{
}

/// The destination's end after `events`.
pub open spec fn end_after(end: EndView, events: Seq<PortEvent>) -> EndView
    decreases events.len(),
{
    if events.len() == 0 {
        end
    } else {
        end_after(end_step(end, events[0]).0, events.drop_first())
    }
}

/// The client's end after `events`.
pub open spec fn port_after(port: PortView, events: Seq<PortEvent>) -> PortView
    decreases events.len(),
{
    if events.len() == 0 {
        port
    } else {
        port_after(port_step(port, events[0]).0, events.drop_first())
    }
}

/// What `law_bytes_pass_in_order` says of a port's data holds of both kinds of
/// ports: their data after `events` is what it speaks of.
pub proof fn law_port_data_after(port: PortView, events: Seq<PortEvent>)
    ensures
        end_after(port.end, events).data == data_after(port.end.data, events),
        port_after(port, events).end.data == data_after(port.end.data, events),
    decreases events.len(),
{
    if events.len() > 0 {
        let event = events[0];
        let rest = events.drop_first();
        let next = port_step(port, event).0;
        law_ports_share_data_rules(port, event);
        law_port_data_after(next, rest);
        law_port_data_after(PortView { end: end_step(port.end, event).0, ..port }, rest);
    }
}

/// The bytes that reads gave during `events`.
pub open spec fn bytes_read(events: Seq<PortEvent>) -> Seq<u8>
    decreases events.len(),
{
    if events.len() == 0 {
        Seq::empty()
    } else {
        let now = match events[0] {
            PortEvent::Read(Ok(data)) => data@,
            _ => Seq::empty(),
        };
        now + bytes_read(events.drop_first())
    }
}

/// The bytes of the data that `action` sends.
pub open spec fn bytes_of_action(action: PortAction) -> Seq<u8> {
    match action {
        PortAction::Send(m) => match m.typ {
            MsgType::MapData(data) => data@,
            _ => Seq::empty(),
        },
        _ => Seq::empty(),
    }
}

/// The bytes of the data that the destination's end sends during `events`.
pub open spec fn end_bytes_sent(end: EndView, events: Seq<PortEvent>) -> Seq<u8>
    decreases events.len(),
{
    if events.len() == 0 {
        Seq::empty()
    } else {
        let (next, action) = end_step(end, events[0]);
        bytes_of_action(action) + end_bytes_sent(next, events.drop_first())
    }
}

/// The bytes of the data that the client's end sends during `events`.
pub open spec fn port_bytes_sent(port: PortView, events: Seq<PortEvent>) -> Seq<u8>
    decreases events.len(),
{
    if events.len() == 0 {
        Seq::empty()
    } else {
        let (next, action) = port_step(port, events[0]);
        bytes_of_action(action) + port_bytes_sent(next, events.drop_first())
    }
}

/// A port sends what it reads, whole and in order.
pub proof fn law_reads_are_sent(port: PortView, events: Seq<PortEvent>)
    ensures
        end_bytes_sent(port.end, events) == bytes_read(events),
        port_bytes_sent(port, events) == bytes_read(events),
    decreases events.len(),
{
    if events.len() > 0 {
        let event = events[0];
        let rest = events.drop_first();
        law_reads_are_sent(port_step(port, event).0, rest);
        law_reads_are_sent(PortView { end: end_step(port.end, event).0, ..port }, rest);
        let now = match event {
            PortEvent::Read(Ok(data)) => data@,
            _ => Seq::empty(),
        };
        assert(bytes_of_action(end_step(port.end, event).1) =~= now);
        assert(bytes_of_action(port_step(port, event).1) =~= now);
    }
}

/// What two ports make of the data between them, whatever carries it: while the data
/// of each reaches the other in order, the bytes that one socket gave are those that
/// the other socket took, those that wait for it, and those on the way (`there` and
/// `back`).
pub proof fn law_bytes_pass_between_ports(
    port: PortView,
    port_events: Seq<PortEvent>,
    dst: EndView,
    dst_events: Seq<PortEvent>,
    there: Seq<u8>,
    back: Seq<u8>,
)
    requires
        port.end.data == queue::data_empty(),
        dst.data == queue::data_empty(),
        events_fit(port.end.data, port_events),
        events_fit(dst.data, dst_events),
        port_bytes_sent(port, port_events) == bytes_received(dst_events) + there,
        end_bytes_sent(dst, dst_events) == bytes_received(port_events) + back,
    ensures
        bytes_read(port_events) == bytes_written(dst.data, dst_events) + queue::data_pending(
            end_after(dst, dst_events).data,
        ) + there,
        bytes_read(dst_events) == bytes_written(port.end.data, port_events) + queue::data_pending(
            port_after(port, port_events).end.data,
        ) + back,
{
    let dst_as_port = PortView { end: dst, can_read: true };
    law_reads_are_sent(port, port_events);
    law_reads_are_sent(dst_as_port, dst_events);
    law_port_data_after(port, port_events);
    law_port_data_after(dst_as_port, dst_events);
    law_bytes_pass_in_order(port.end.data, port_events);
    law_bytes_pass_in_order(dst.data, dst_events);
    let none = queue::data_pending(queue::data_empty());
    assert(none =~= Seq::<u8>::empty());
    assert(none + bytes_received(dst_events) =~= bytes_received(dst_events));
    assert(none + bytes_received(port_events) =~= bytes_received(port_events));
}

/// The event brings the word that the other side is connected.
pub open spec fn says_connected(event: PortEvent) -> bool {
    event matches PortEvent::Received(Some(m)) && m.typ is MapConnected
}

/// A listening-side port may be read from the moment it hears that the other side
/// is connected, and not before.
pub proof fn law_read_once_connected(port: PortView, events: Seq<PortEvent>)
    ensures
        port_after(port, events).can_read <==> port.can_read || exists|i: int|
            0 <= i < events.len() && says_connected(#[trigger] events[i]),
    decreases events.len(),
{
    if events.len() > 0 {
        let next = port_step(port, events[0]).0;
        let rest = events.drop_first();
        law_read_once_connected(next, rest);
        assert(next.can_read <==> port.can_read || says_connected(events[0]));
        if exists|i: int| 0 <= i < rest.len() && says_connected(#[trigger] rest[i]) {
            let i = choose|i: int| 0 <= i < rest.len() && says_connected(#[trigger] rest[i]);
            assert(says_connected(events[i + 1]));
        }
        if exists|i: int| 0 <= i < events.len() && says_connected(#[trigger] events[i]) {
            let i = choose|i: int| 0 <= i < events.len() && says_connected(#[trigger] events[i]);
            if i > 0 {
                assert(says_connected(rest[i - 1]));
            }
        }
    }
}

/// The events after which a port says goodbye and ends: its socket was closed or
/// failed, or no more messages will come.
pub open spec fn must_finish(event: PortEvent) -> bool {
    ||| event matches PortEvent::Read(Ok(data)) && data@.len() == 0
    ||| event matches PortEvent::Read(Err(e)) && e != Error::WouldBlock
    ||| event matches PortEvent::Wrote(Err(e)) && e != Error::WouldBlock
    ||| event matches PortEvent::Received(None)
}

/// The events after which a port ends without a word: the peer is gone, or what it had
/// to say cannot be said.
pub open spec fn must_stop(event: PortEvent) -> bool {
    ||| event matches PortEvent::Sent(ok) && !ok
    ||| event matches PortEvent::Received(Some(m)) && m.typ is MapDisconnect
}

/// What a port with these addresses, this direction and this data does for each
/// reason, and for no other.
pub open spec fn acts_for_a_reason(end: EndView, event: PortEvent, action: PortAction) -> bool {
    &&& action is Finish <==> must_finish(event)
    &&& action matches PortAction::Finish(m) ==> {
        &&& m.typ is MapDisconnect
        &&& m.addr == end.addr
        &&& m.dir == end.dir
    }
    &&& action is Stop <==> must_stop(event)
    &&& action is Send <==> (event matches PortEvent::Read(Ok(data)) && data@.len() > 0)
    &&& action matches PortAction::Send(m) ==> {
        &&& m.addr == end.addr
        &&& m.dir == end.dir
        &&& m.typ matches MsgType::MapData(data) && event->Read_0->Ok_0@ == data@
    }
    &&& action is Write <==> event is Writable && end.data.current is Some
}

/// A port ends only for a reason, sends what it reads, writes when it has something
/// to write, and otherwise goes on waiting: so of a message that was taken, of a
/// socket that is not ready, of bytes that were written, of data and of the word
/// that the other side is connected.
pub proof fn law_port_acts_for_a_reason(port: PortView, event: PortEvent)
    ensures
        acts_for_a_reason(port.end, event, end_step(port.end, event).1),
        acts_for_a_reason(port.end, event, port_step(port, event).1),
        event == PortEvent::Sent(true) ==> end_step(port.end, event).1 is Wait && port_step(
            port,
            event,
        ).1 is Wait,
{
}

/// What becomes of the data: it grows by what messages bring, moves up when the
/// socket is ready or took all of a segment, and is otherwise left alone.
pub open spec fn data_moves(before: DataView, event: PortEvent, after: DataView) -> bool {
    let moves_up = {
        &&& before.waiting.len() > 0 ==> after.current == Some(before.waiting[0]) && after.waiting
            == before.waiting.subrange(1, before.waiting.len() as int)
        &&& before.waiting.len() == 0 ==> after.current is None && after.waiting.len() == 0
    };
    match event {
        PortEvent::Received(Some(m)) if m.typ is MapData => {
            &&& after.waiting == before.waiting.push(m.typ->MapData_0@)
            &&& after.current == before.current
        },
        PortEvent::Writable if before.current is None => moves_up,
        PortEvent::Wrote(Ok(n)) => if n == before.current->0.len() {
            moves_up
        } else {
            &&& after.current == Some(
                before.current->0.subrange(n as int, before.current->0.len() as int),
            )
            &&& after.waiting == before.waiting
        },
        _ => after == before,
    }
}

/// What an event changes of a port: its data moves; the word that the other side is
/// connected lets the client's port read and tells it one address; and nothing else
/// changes.
pub proof fn law_port_changes_only_so(port: PortView, event: PortEvent)
    requires
        event_fits(port.end.data, event),
    ensures
        ({
            let end = end_step(port.end, event).0;
            &&& end.addr == port.end.addr
            &&& end.dir == port.end.dir
            &&& data_moves(port.end.data, event, end.data)
        }),
        ({
            let after = port_step(port, event).0;
            let word = event matches PortEvent::Received(Some(m)) && m.typ is MapConnected;
            &&& after.end.dir == port.end.dir
            &&& after.end.addr.local_addr == port.end.addr.local_addr
            &&& after.end.addr.lst_addr == port.end.addr.lst_addr
            &&& after.end.addr.dst_addr == port.end.addr.dst_addr
            &&& word ==> after.can_read && after.end.addr.remap_addr
                == event->Received_0->0.addr.remap_addr
            &&& !word ==> after.can_read == port.can_read && after.end.addr.remap_addr
                == port.end.addr.remap_addr
            &&& data_moves(port.end.data, event, after.end.data)
        }),
{
    let data = port.end.data;
    if data.waiting.len() > 0 {
        assert(data.waiting.drop_first() =~= data.waiting.subrange(1, data.waiting.len() as int));
    }
    if let PortEvent::Wrote(Ok(n)) = event {
        let rest = data.current->0;
        assert(rest.skip(n as int) =~= rest.subrange(n as int, rest.len() as int));
    }
}

/// How a client's port begins: it knows the client, the listener and the destination,
/// not yet the other side's socket; it may not read, has nothing to write, and its
/// first word is the wish to connect.
pub proof fn law_client_port_begins(
    lst_addr: SocketAddr,
    local_addr: SocketAddr,
    dst_addr: SocketAddr,
)
    ensures
        ({
            let (port, action) = opened(lst_addr, local_addr, dst_addr);
            &&& port.end.addr.lst_addr == lst_addr
            &&& port.end.addr.local_addr == local_addr
            &&& port.end.addr.dst_addr == dst_addr
            &&& port.end.addr.remap_addr matches SocketAddr::V4(a) && a.ip == 0 && a.port == 0
            &&& port.end.dir == MsgDirection::L2D
            &&& !port.can_read
            &&& port.end.data.current is None
            &&& port.end.data.waiting.len() == 0
            &&& action matches PortAction::Send(m) && m.typ is MapConnecting && m.addr
                == port.end.addr && m.dir == MsgDirection::L2D
        }),
{
}

/// How a destination's port begins: with nothing to write and, if it is connected,
/// with the word that it is, which carries the address of its socket; else it says
/// goodbye.
pub proof fn law_destination_port_begins(addr: AddrPair, socket_addr: Option<SocketAddr>)
    ensures
        ({
            let (end, action) = connected(addr, socket_addr);
            &&& end.addr.lst_addr == addr.lst_addr
            &&& end.addr.local_addr == addr.local_addr
            &&& end.addr.dst_addr == addr.dst_addr
            &&& end.dir == MsgDirection::D2L
            &&& end.data.current is None
            &&& end.data.waiting.len() == 0
            &&& socket_addr matches Some(remap_addr) ==> {
                &&& end.addr.remap_addr == remap_addr
                &&& action matches PortAction::Send(m) && m.typ is MapConnected && m.addr
                    == end.addr && m.dir == MsgDirection::D2L
            }
            &&& socket_addr is None ==> {
                &&& end.addr.remap_addr == addr.remap_addr
                &&& action matches PortAction::Finish(m) && m.typ is MapDisconnect && m.addr
                    == end.addr && m.dir == MsgDirection::D2L
            }
        }),
{
}

/// A port lives until there is a reason to end: through any course of events without
/// one, it never says goodbye and never stops.
pub proof fn law_port_lives_on(port: PortView, events: Seq<PortEvent>, i: int)
    requires
        0 <= i < events.len(),
        !must_finish(events[i]),
        !must_stop(events[i]),
    ensures
        ({
            let action = end_step(end_after(port.end, events.take(i)), events[i]).1;
            !(action is Finish) && !(action is Stop)
        }),
        ({
            let action = port_step(port_after(port, events.take(i)), events[i]).1;
            !(action is Finish) && !(action is Stop)
        }),
{
    law_port_acts_for_a_reason(port_after(port, events.take(i)), events[i]);
    law_port_acts_for_a_reason(
        PortView { end: end_after(port.end, events.take(i)), can_read: true },
        events[i],
    );
}

/// A port that has data gets it out: ready sockets that take all that they are
/// offered empty it, each turn writing what was in front.
pub proof fn law_port_empties(data: DataView) -> (events: Seq<PortEvent>)
    requires
        forall|i: int|
            0 <= i < data.waiting.len() ==> (#[trigger] data.waiting[i]).len() <= usize::MAX,
        data.current matches Some(rest) ==> rest.len() <= usize::MAX,
    ensures
        events_fit(data, events),
        forall|i: int|
            0 <= i < events.len() ==> #[trigger] events[i] is Writable || (events[i]
                matches PortEvent::Wrote(Ok(_))),
        bytes_written(data, events) == queue::data_pending(data),
        data_after(data, events).current is None,
        data_after(data, events).waiting.len() == 0,
    decreases
            data.waiting.len() + (if data.current is Some {
                1int
            } else {
                0
            }),
            if data.current is Some {
                0int
            } else {
                1
            },
{
    if data.current is None && data.waiting.len() == 0 {
        assert(queue::data_pending(data) =~= Seq::<u8>::empty());
        Seq::empty()
    } else {
        let event = if data.current is None {
            PortEvent::Writable
        } else {
            PortEvent::Wrote(Ok(data.current->0.len() as usize))
        };
        let next = data_step(data, event);
        assert forall|i: int| 0 <= i < next.waiting.len() implies (#[trigger] next.waiting[i]).len()
            <= usize::MAX by {
            assert(next.waiting[i] == data.waiting[i + 1]);
        }
        let rest = law_port_empties(next);
        let events = seq![event] + rest;
        assert(events.drop_first() =~= rest);
        assert forall|i: int| 0 <= i < events.len() implies #[trigger] events[i] is Writable || (
        events[i] matches PortEvent::Wrote(Ok(_))) by {
            if i > 0 {
                assert(events[i] == rest[i - 1]);
            }
        }
        if data.current is None {
            queue::law_next_keeps(data);
            assert(Seq::<u8>::empty() + bytes_written(next, rest) =~= bytes_written(next, rest));
        } else {
            let n = data.current->0.len() as int;
            queue::law_wrote_removes(data, n);
        }
        events
    }
}

} // verus!
