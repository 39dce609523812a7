//! One end of the tunnel: its mappings, the routing of messages that come through
//! the tunnel, and the answers to the command line.

use vstd::prelude::*;

use crate::addr;
use crate::addr::SocketAddr;
use crate::cli::Action;
use crate::error::Error;
use crate::mapper;
use crate::mapper::{MapperAction, MapperEvent, MapperView, PortMapper};
use crate::msg;
use crate::msg::{AddrPair, LinkAction, Msg, MsgCtx, MsgCtxView, MsgDirection, MsgType};
use crate::port;
use crate::stream;
use crate::stream::{Rx, Tx, TxMove};
use crate::table::{MapKey, PortKey, Table};

verus! {

/// A request from the command line.
#[derive(Debug)]
pub enum Ctl {
    Act(Action),
}

/// The answer to a request: a code, 0 for success, with a text; or the mappings.
#[derive(Debug)]
pub enum CtlRsp {
    Msg(i32, String),
    MapLs(Vec<(SocketAddr, SocketAddr)>),
}

/// Mappings as text.
pub open spec fn maps_text(maps: Seq<(SocketAddr, SocketAddr)>) -> Seq<char>
    decreases maps.len(),
{
    if maps.len() == 0 {
        Seq::empty()
    } else {
        maps_text(maps.drop_last()) + addr::addr_text(maps.last().0) + " => "@ + addr::addr_text(
            maps.last().1,
        )
    }
}

/// An answer as text.
pub open spec fn rsp_text(rsp: CtlRsp) -> Seq<char> {
    match rsp {
        CtlRsp::Msg(_, s) => "msg: "@ + s@,
        CtlRsp::MapLs(maps) => maps_text(maps@),
    }
}

impl CtlRsp {
    /// The answer as text.
    pub fn to_text(&self) -> (s: String)
        ensures
            s@ == rsp_text(*self),
    {
        let mut out = String::new();
        match self {
            CtlRsp::Msg(_, s) => {
                out.append("msg: ");
                out.append(s.as_str());
            },
            CtlRsp::MapLs(maps) => {
                let mut i: usize = 0;
                assert(maps@.take(0) =~= Seq::empty());
                while i < maps.len()
                    invariant
                        i <= maps@.len(),
                        out@ == maps_text(maps@.take(i as int)),
                    decreases maps@.len() - i,
                {
                    maps[i].0.push_text(&mut out);
                    out.append(" => ");
                    maps[i].1.push_text(&mut out);
                    assert(maps@.take(i + 1).drop_last() =~= maps@.take(i as int));
                    i = i + 1;
                }
                assert(maps@.take(maps@.len() as int) =~= maps@);
            },
        }
        assert(out@ =~= rsp_text(*self));
        out
    }
}

/// The endpoint's side of the conversation with a command line.
pub struct CtlServer {
    pub msg_ctx: MsgCtx<Ctl, CtlRsp>,
}

/// What `CtlServer::handle_cli` is told.
#[derive(Debug)]
pub enum CtlEvent {
    /// `MsgCtx::handle_read` ended so.
    Read(Result<(), Error>),
    /// There is a new connection.
    Accepted,
    /// The router answered.
    Answered(CtlRsp),
    /// `MsgCtx::handle_write` ended so.
    Wrote(Result<(), Error>),
}

/// What `CtlServer::handle_cli` asks for.
#[derive(Debug)]
pub enum CtlAction {
    /// Wait for the next event.
    Wait,
    /// Accept a new connection, then wait.
    Accept,
    /// Accept a new connection, and report that there is one.
    AcceptAndAsk,
    /// Give this request to the router, and wait for its answer.
    Ask(Ctl),
}

/// The next request that was received goes to the router, if there is one.
pub open spec fn ask_next(ctx: MsgCtxView<Ctl, CtlRsp>) -> (MsgCtxView<Ctl, CtlRsp>, CtlAction) {
    if ctx.received.len() > 0 {
        (
            MsgCtxView { received: ctx.received.drop_first(), ..ctx },
            CtlAction::Ask(ctx.received[0]),
        )
    } else {
        (ctx, CtlAction::Wait)
    }
}

/// What an endpoint does in the conversation with a command line.
pub open spec fn ctl_step(ctx: MsgCtxView<Ctl, CtlRsp>, event: CtlEvent) -> (
    MsgCtxView<Ctl, CtlRsp>,
    CtlAction,
) {
    match event {
        CtlEvent::Read(Ok(_)) | CtlEvent::Accepted => ask_next(ctx),
        CtlEvent::Read(Err(Error::WouldBlock)) => (ctx, CtlAction::Wait),
        CtlEvent::Read(Err(_)) => (
            MsgCtxView { rx: stream::rx_idle(), ..ctx },
            CtlAction::AcceptAndAsk,
        ),
        CtlEvent::Answered(rsp) => ask_next(
            MsgCtxView { tx: stream::tx_queue(ctx.tx, rsp), ..ctx },
        ),
        CtlEvent::Wrote(r) => if msg::harmless(r) {
            (ctx, CtlAction::Wait)
        } else {
            (MsgCtxView { tx: Tx { out: None, ..ctx.tx }, ..ctx }, CtlAction::Accept)
        },
    }
}

impl CtlServer {
    pub open spec fn wf(&self) -> bool {
        self.msg_ctx.wf()
    }

    /// A conversation that has not begun.
    pub fn new() -> (server: Self)
        ensures
            server.wf(),
            server.msg_ctx@.rx == stream::rx_idle(),
            server.msg_ctx@.received == Seq::<Ctl>::empty(),
            server.msg_ctx@.tx == stream::tx_idle::<CtlRsp>(),
    {
        CtlServer { msg_ctx: MsgCtx::new() }
    }

    fn ask_next(&mut self) -> (action: CtlAction)
        requires
            old(self).wf(),
        ensures
            final(self).wf(),
            (final(self).msg_ctx@, action) == ask_next(old(self).msg_ctx@),
    {
        match self.msg_ctx.pop_rx_msg() {
            Some(ctl) => CtlAction::Ask(ctl),
            None => CtlAction::Wait,
        }
    }

    /// Takes note of what happened, and says what to do next.
    pub fn handle_cli(&mut self, event: CtlEvent) -> (action: CtlAction)
        requires
            old(self).wf(),
        ensures
            final(self).wf(),
            (final(self).msg_ctx@, action) == ctl_step(old(self).msg_ctx@, event),
    {
        match event {
            CtlEvent::Read(r) => match self.msg_ctx.after_read(r) {
                LinkAction::Wait => CtlAction::Wait,
                LinkAction::Reconnect => CtlAction::AcceptAndAsk,
                LinkAction::Proceed => self.ask_next(),
            },
            CtlEvent::Accepted => self.ask_next(),
            CtlEvent::Answered(rsp) => {
                self.msg_ctx.queue_tx_msg(rsp);
                self.ask_next()
            },
            CtlEvent::Wrote(r) => match self.msg_ctx.after_write(r) {
                LinkAction::Reconnect => CtlAction::Accept,
                _ => CtlAction::Wait,
            },
        }
    }
}

/// One end of the tunnel. `H` is what leads to a mapper or to a port.
pub struct Endpoint<H> {
    msg_ctx: MsgCtx<Msg, Msg>,
    port_mappers: Table<MapKey, H>,
    dst_ports: Table<PortKey, H>,
    ctl_rx_closed: bool,
    mapper_rx_closed: bool,
}

/// What an endpoint holds: the framing state of the tunnel, its mappings, the ports
/// of the other end's mappings, and whether requests and messages can still come.
#[verifier::ext_equal]
pub struct EndpointView<H> {
    pub ctx: MsgCtxView<Msg, Msg>,
    pub mappers: Map<MapKey, H>,
    pub ports: Map<PortKey, H>,
    pub ctl_rx_closed: bool,
    pub mapper_rx_closed: bool,
}

/// What becomes of a message from the tunnel.
#[derive(Debug)]
pub enum RouteAction {
    /// There is no message.
    Idle,
    /// Start a port that connects to the destination, and report it.
    Connect(AddrPair),
    /// Hand this message to the mapper of its connection (`Endpoint::mapper`), and
    /// report whether it was taken.
    ToMapper(Msg),
    /// Hand this message to the port of its connection (`Endpoint::port`), and
    /// report whether it was taken.
    ToPort(Msg),
    /// Drop the message: there is no such mapping.
    NoMapper(MapKey),
    /// Drop the message: there is no such port.
    NoPort(PortKey),
}

/// What `Endpoint::tunnel` is told.
pub enum TunnelEvent<H> {
    /// `MsgCtx::handle_read` ended so.
    Read(Result<(), Error>),
    /// There is a new connection.
    Accepted,
    /// A port was started for this connection, and this leads to it.
    Started(AddrPair, H),
    /// A message about this connection was handed to its mapper (or else to its
    /// port), and was taken, or not.
    HandedOver { addr: AddrPair, to_mapper: bool, ok: bool },
    /// A message was dropped.
    Dropped,
    /// `MsgCtx::handle_write` ended so.
    Wrote(Result<(), Error>),
}

/// What `Endpoint::tunnel` asks for.
#[derive(Debug)]
pub enum TunnelAction {
    /// Wait for the next event.
    Wait,
    /// Accept a new connection, then wait.
    Accept,
    /// Accept a new connection, and report that there is one.
    AcceptAndRoute,
    /// Do this with a message that was received, and report.
    Route(RouteAction),
}

/// The answer to a request, if there was one, and the mapper that is to be started.
pub struct Answer<H> {
    pub rsp: Option<CtlRsp>,
    pub start: Option<PortMapper<H>>,
}

/// What becomes of a message from the tunnel: a wish to connect is met; other
/// messages turn round and go to the mapping, or the port, of their connection.
pub open spec fn route<H>(mappers: Map<MapKey, H>, ports: Map<PortKey, H>, m: Msg) -> RouteAction {
    if m.typ is MapConnecting {
        RouteAction::Connect(m.addr)
    } else {
        match m.dir {
            MsgDirection::D2L => if mappers.contains_key(msg::map_key_of(m.addr)) {
                RouteAction::ToMapper(Msg { dir: MsgDirection::L2D, ..m })
            } else {
                RouteAction::NoMapper(msg::map_key_of(m.addr))
            },
            MsgDirection::L2D => if ports.contains_key(msg::port_key_of(m.addr)) {
                RouteAction::ToPort(Msg { dir: MsgDirection::D2L, ..m })
            } else {
                RouteAction::NoPort(msg::port_key_of(m.addr))
            },
        }
    }
}

/// The message that tells the other end that a connection is gone.
pub open spec fn gone(addr: AddrPair) -> Msg {
    Msg { addr, dir: MsgDirection::D2L, typ: MsgType::MapDisconnect }
}

/// An endpoint after it found the mapper of a connection gone.
pub open spec fn without_mapper<H>(ep: EndpointView<H>, addr: AddrPair) -> EndpointView<H> {
    EndpointView {
        ctx: MsgCtxView { tx: stream::tx_queue(ep.ctx.tx, gone(addr)), ..ep.ctx },
        mappers: ep.mappers.remove(msg::map_key_of(addr)),
        ..ep
    }
}

/// An endpoint after it found the port of a connection gone.
pub open spec fn without_port<H>(ep: EndpointView<H>, addr: AddrPair) -> EndpointView<H> {
    EndpointView {
        ctx: MsgCtxView { tx: stream::tx_queue(ep.ctx.tx, gone(addr)), ..ep.ctx },
        ports: ep.ports.remove(msg::port_key_of(addr)),
        ..ep
    }
}

/// An endpoint after a message about a connection was handed over: one who did not
/// take it is gone.
pub open spec fn after_hand_over<H>(
    ep: EndpointView<H>,
    addr: AddrPair,
    to_mapper: bool,
    ok: bool,
) -> EndpointView<H> {
    if ok {
        ep
    } else if to_mapper {
        without_mapper(ep, addr)
    } else {
        without_port(ep, addr)
    }
}

/// The next message that was received is routed, if there is one.
pub open spec fn route_next<H>(ep: EndpointView<H>) -> (EndpointView<H>, TunnelAction) {
    if ep.ctx.received.len() > 0 {
        let ctx = MsgCtxView { received: ep.ctx.received.drop_first(), ..ep.ctx };
        (
            EndpointView { ctx, ..ep },
            TunnelAction::Route(route(ep.mappers, ep.ports, ep.ctx.received[0])),
        )
    } else {
        (ep, TunnelAction::Wait)
    }
}

/// What an endpoint does about the tunnel. A failed read costs the connection, and
/// the messages received before it are routed all the same; a failed write costs
/// the connection and nothing more.
pub open spec fn tunnel_step<H>(ep: EndpointView<H>, event: TunnelEvent<H>) -> (
    EndpointView<H>,
    TunnelAction,
) {
    match event {
        TunnelEvent::Read(Ok(_)) | TunnelEvent::Accepted | TunnelEvent::Dropped => route_next(ep),
        TunnelEvent::Read(Err(Error::WouldBlock)) => (ep, TunnelAction::Wait),
        TunnelEvent::Read(Err(_)) => (
            EndpointView { ctx: MsgCtxView { rx: stream::rx_idle(), ..ep.ctx }, ..ep },
            TunnelAction::AcceptAndRoute,
        ),
        TunnelEvent::Started(addr, h) => route_next(
            EndpointView { ports: ep.ports.insert(msg::port_key_of(addr), h), ..ep },
        ),
        TunnelEvent::HandedOver { addr, to_mapper, ok } => route_next(
            after_hand_over(ep, addr, to_mapper, ok),
        ),
        TunnelEvent::Wrote(r) => if msg::harmless(r) {
            (ep, TunnelAction::Wait)
        } else {
            let tx = Tx { out: None, ..ep.ctx.tx };
            (EndpointView { ctx: MsgCtxView { tx, ..ep.ctx }, ..ep }, TunnelAction::Accept)
        },
    }
}

/// The mappings after a request, where `fresh` leads to the mapper that it may start.
pub open spec fn mappers_after<H>(
    mappers: Map<MapKey, H>,
    act: Action,
    fresh: H,
) -> Map<MapKey, H> {
    match act {
        Action::MapAdd { lst_addr, dst_addr } => {
            let key = MapKey { lst_addr, dst_addr };
            if mappers.contains_key(key) {
                mappers
            } else {
                mappers.insert(key, fresh)
            }
        },
        Action::MapRm { lst_addr, dst_addr } => mappers.remove(MapKey { lst_addr, dst_addr }),
        _ => mappers,
    }
}

/// An endpoint after a request, or after the word that no more requests will come.
pub open spec fn after_ctl<H>(ep: EndpointView<H>, ctl: Option<Ctl>, fresh: H) -> EndpointView<H> {
    match ctl {
        Some(Ctl::Act(act)) => EndpointView {
            mappers: mappers_after(ep.mappers, act, fresh),
            ..ep
        },
        None => EndpointView { ctl_rx_closed: true, ..ep },
    }
}

/// An endpoint after a message of one of its ports, or after the word that no more
/// of them will come.
pub open spec fn after_port_msg<H>(ep: EndpointView<H>, m: Option<Msg>) -> EndpointView<H> {
    match m {
        Some(m) => EndpointView {
            ctx: MsgCtxView { tx: stream::tx_queue(ep.ctx.tx, m), ..ep.ctx },
            ..ep
        },
        None => EndpointView { mapper_rx_closed: true, ..ep },
    }
}

/// The answer with code `code` and text `text`.
pub open spec fn answers(rsp: Option<CtlRsp>, code: i32, text: Seq<char>) -> bool {
    rsp matches Some(CtlRsp::Msg(c, s)) && c == code && s@ == text
}

/// The mappings, each once, in some order.
pub open spec fn lists<H>(maps: Seq<(SocketAddr, SocketAddr)>, mappers: Map<MapKey, H>) -> bool {
    &&& maps.no_duplicates()
    &&& forall|lst_addr: SocketAddr, dst_addr: SocketAddr|
        #[trigger] maps.contains((lst_addr, dst_addr)) <==> mappers.contains_key(
            MapKey { lst_addr, dst_addr },
        )
}

/// The text of the answer to a mapping that is there already.
pub open spec fn exists_text(key: MapKey) -> Seq<char> {
    "map "@ + addr::addr_text(key.lst_addr) + "<=>"@ + addr::addr_text(key.dst_addr) + " exist"@
}

/// What is answered to a request.
pub open spec fn answered<H>(mappers: Map<MapKey, H>, act: Action, rsp: Option<CtlRsp>) -> bool {
    match act {
        Action::MapAdd { lst_addr, dst_addr } => {
            let key = MapKey { lst_addr, dst_addr };
            if mappers.contains_key(key) {
                answers(rsp, 1, exists_text(key))
            } else {
                answers(rsp, 0, "MapAdd successfully"@)
            }
        },
        Action::MapRm { .. } => answers(rsp, 0, "MapRm successfully"@),
        Action::MapLs => rsp matches Some(CtlRsp::MapLs(maps)) && lists(maps@, mappers),
        Action::MapLoad { .. } => answers(rsp, 1, "MapLoad not supported"@),
        Action::MapDump => answers(rsp, 1, "MapDump not supported"@),
    }
}

/// The mapper that a request starts: one for a new mapping, without ports.
pub open spec fn started<H>(
    mappers: Map<MapKey, H>,
    act: Action,
    start: Option<PortMapper<H>>,
) -> bool {
    match act {
        Action::MapAdd { lst_addr, dst_addr } if !mappers.contains_key(
            MapKey { lst_addr, dst_addr },
        ) => {
            &&& start matches Some(mapper)
            &&& mapper.wf()
            &&& mapper@ == (MapperView { lst_addr, dst_addr, ports: Map::<PortKey, H>::empty() })
        },
        _ => start is None,
    }
}

impl<H> View for Endpoint<H> {
    type V = EndpointView<H>;

    closed spec fn view(&self) -> EndpointView<H> {
        EndpointView {
            ctx: self.msg_ctx@,
            mappers: self.port_mappers@,
            ports: self.dst_ports@,
            ctl_rx_closed: self.ctl_rx_closed,
            mapper_rx_closed: self.mapper_rx_closed,
        }
    }
}

impl<H> Endpoint<H> {
    pub closed spec fn wf(&self) -> bool {
        &&& self.msg_ctx.wf()
        &&& self.port_mappers.wf()
        &&& self.dst_ports.wf()
    }

    /// An endpoint without mappings and without traffic.
    pub fn new() -> (ep: Self)
        ensures
            ep.wf(),
            ep@ == (EndpointView {
                ctx: MsgCtxView {
                    rx: stream::rx_idle(),
                    received: Seq::<Msg>::empty(),
                    tx: stream::tx_idle::<Msg>(),
                },
                mappers: Map::<MapKey, H>::empty(),
                ports: Map::<PortKey, H>::empty(),
                ctl_rx_closed: false,
                mapper_rx_closed: false,
            }),
    {
        Endpoint {
            msg_ctx: MsgCtx::new(),
            port_mappers: Table::new(),
            dst_ports: Table::new(),
            ctl_rx_closed: false,
            mapper_rx_closed: false,
        }
    }

    /// The framing state of the tunnel.
    pub fn msg_ctx(&self) -> (ctx: &MsgCtx<Msg, Msg>)
        requires
            self.wf(),
        ensures
            ctx.wf(),
            ctx@ == self@.ctx,
    {
        &self.msg_ctx
    }

    /// The framing state of the tunnel, to read and write frames.
    pub fn msg_ctx_mut(&mut self) -> (ctx: &mut MsgCtx<Msg, Msg>)
        requires
            old(self).wf(),
        ensures
            (*ctx).wf(),
            (*ctx)@ == old(self)@.ctx,
            (*final(ctx)).wf() ==> final(self).wf(),
            final(self)@ == (EndpointView { ctx: (*final(ctx))@, ..old(self)@ }),
    {
        &mut self.msg_ctx
    }

    /// Takes the first message that was received, and says what becomes of it.
    pub fn handle_msgs(&mut self) -> (action: RouteAction)
        requires
            old(self).wf(),
        ensures
            final(self).wf(),
            if old(self)@.ctx.received.len() > 0 {
                &&& final(self)@ == (EndpointView {
                    ctx: MsgCtxView {
                        received: old(self)@.ctx.received.drop_first(),
                        ..old(self)@.ctx
                    },
                    ..old(self)@
                })
                &&& action == route(
                    old(self)@.mappers,
                    old(self)@.ports,
                    old(self)@.ctx.received[0],
                )
            } else {
                final(self)@ == old(self)@ && action == RouteAction::Idle
            },
    {
        let m = match self.msg_ctx.pop_rx_msg() {
            Some(m) => m,
            None => return RouteAction::Idle,
        };
        let Msg { addr, dir, typ } = m;
        match typ {
            MsgType::MapConnecting => RouteAction::Connect(addr),
            typ => match dir {
                MsgDirection::D2L => {
                    let key = addr.map_key();
                    if self.port_mappers.contains_key(&key) {
                        RouteAction::ToMapper(Msg { addr, dir: MsgDirection::L2D, typ })
                    } else {
                        RouteAction::NoMapper(key)
                    }
                },
                MsgDirection::L2D => {
                    let key = addr.port_key();
                    if self.dst_ports.contains_key(&key) {
                        RouteAction::ToPort(Msg { addr, dir: MsgDirection::D2L, typ })
                    } else {
                        RouteAction::NoPort(key)
                    }
                },
            },
        }
    }

    /// What leads to the mapper of a connection.
    pub fn mapper(&self, addr: &AddrPair) -> (h: Option<&H>)
        requires
            self.wf(),
        ensures
            match h {
                Some(h) => self@.mappers.contains_key(msg::map_key_of(*addr)) && *h
                    == self@.mappers[msg::map_key_of(*addr)],
                None => !self@.mappers.contains_key(msg::map_key_of(*addr)),
            },
    {
        self.port_mappers.get(&addr.map_key())
    }

    /// What leads to the port of a connection.
    pub fn port(&self, addr: &AddrPair) -> (h: Option<&H>)
        requires
            self.wf(),
        ensures
            match h {
                Some(h) => self@.ports.contains_key(msg::port_key_of(*addr)) && *h
                    == self@.ports[msg::port_key_of(*addr)],
                None => !self@.ports.contains_key(msg::port_key_of(*addr)),
            },
    {
        self.dst_ports.get(&addr.port_key())
    }

    /// Notes what leads to the port that was started for a connection.
    pub fn port_started(&mut self, addr: AddrPair, h: H)
        requires
            old(self).wf(),
        ensures
            final(self).wf(),
            final(self)@ == (EndpointView {
                ports: old(self)@.ports.insert(msg::port_key_of(addr), h),
                ..old(self)@
            }),
    {
        self.dst_ports.insert(addr.port_key(), h);
    }

    /// Notes that the mapper of a connection is gone, and tells the other end.
    pub fn mapper_gone(&mut self, addr: AddrPair)
        requires
            old(self).wf(),
        ensures
            final(self).wf(),
            final(self)@ == without_mapper(old(self)@, addr),
    {
        self.port_mappers.remove(&addr.map_key());
        self.msg_ctx.queue_tx_msg(
            Msg { addr, dir: MsgDirection::D2L, typ: MsgType::MapDisconnect },
        );
    }

    /// Notes that the port of a connection is gone, and tells the other end.
    pub fn port_gone(&mut self, addr: AddrPair)
        requires
            old(self).wf(),
        ensures
            final(self).wf(),
            final(self)@ == without_port(old(self)@, addr),
    {
        self.dst_ports.remove(&addr.port_key());
        self.msg_ctx.queue_tx_msg(
            Msg { addr, dir: MsgDirection::D2L, typ: MsgType::MapDisconnect },
        );
    }

    /// Notes whether a message about a connection was taken by its mapper (or else by
    /// its port). One who did not take it is gone.
    pub fn handed_over(&mut self, addr: AddrPair, to_mapper: bool, ok: bool)
        requires
            old(self).wf(),
        ensures
            final(self).wf(),
            final(self)@ == after_hand_over(old(self)@, addr, to_mapper, ok),
    {
        if !ok {
            if to_mapper {
                self.mapper_gone(addr);
            } else {
                self.port_gone(addr);
            }
        }
    }

    fn route_next(&mut self) -> (action: TunnelAction)
        requires
            old(self).wf(),
        ensures
            final(self).wf(),
            (final(self)@, action) == route_next(old(self)@),
    {
        match self.handle_msgs() {
            RouteAction::Idle => TunnelAction::Wait,
            action => TunnelAction::Route(action),
        }
    }

    /// Takes note of what happened to the tunnel, and says what to do next.
    pub fn tunnel(&mut self, event: TunnelEvent<H>) -> (action: TunnelAction)
        requires
            old(self).wf(),
        ensures
            final(self).wf(),
            (final(self)@, action) == tunnel_step(old(self)@, event),
    {
        match event {
            TunnelEvent::Read(r) => match self.msg_ctx.after_read(r) {
                LinkAction::Wait => TunnelAction::Wait,
                LinkAction::Reconnect => TunnelAction::AcceptAndRoute,
                LinkAction::Proceed => self.route_next(),
            },
            TunnelEvent::Accepted | TunnelEvent::Dropped => self.route_next(),
            TunnelEvent::Started(addr, h) => {
                self.port_started(addr, h);
                self.route_next()
            },
            TunnelEvent::HandedOver { addr, to_mapper, ok } => {
                self.handed_over(addr, to_mapper, ok);
                self.route_next()
            },
            TunnelEvent::Wrote(r) => match self.msg_ctx.after_write(r) {
                LinkAction::Reconnect => TunnelAction::Accept,
                _ => TunnelAction::Wait,
            },
        }
    }

    /// Does what the command line asks for. `fresh` leads to the mapper that is
    /// started, if one is.
    pub fn handle_action(&mut self, act: Action, fresh: H) -> (answer: Answer<H>)
        requires
            old(self).wf(),
        ensures
            final(self).wf(),
            final(self)@ == (EndpointView {
                mappers: mappers_after(old(self)@.mappers, act, fresh),
                ..old(self)@
            }),
            answered(old(self)@.mappers, act, answer.rsp),
            started(old(self)@.mappers, act, answer.start),
    {
        match act {
            Action::MapAdd { lst_addr, dst_addr } => {
                let key = MapKey { lst_addr, dst_addr };
                if self.port_mappers.contains_key(&key) {
                    let mut s = String::new();
                    s.append("map ");
                    lst_addr.push_text(&mut s);
                    s.append("<=>");
                    dst_addr.push_text(&mut s);
                    s.append(" exist");
                    assert(s@ =~= exists_text(key));
                    return Answer { rsp: Some(CtlRsp::Msg(1, s)), start: None };
                }
                let mapper = PortMapper::new(lst_addr, dst_addr);
                self.port_mappers.insert(key, fresh);
                let rsp = CtlRsp::Msg(0, String::from_str("MapAdd successfully"));
                Answer { rsp: Some(rsp), start: Some(mapper) }
            },
            Action::MapRm { lst_addr, dst_addr } => {
                self.port_mappers.remove(&MapKey { lst_addr, dst_addr });
                let rsp = CtlRsp::Msg(0, String::from_str("MapRm successfully"));
                Answer { rsp: Some(rsp), start: None }
            },
            Action::MapLs => {
                let maps = self.list_maps();
                Answer { rsp: Some(CtlRsp::MapLs(maps)), start: None }
            },
            Action::MapLoad { .. } => {
                let rsp = CtlRsp::Msg(1, String::from_str("MapLoad not supported"));
                Answer { rsp: Some(rsp), start: None }
            },
            Action::MapDump => {
                let rsp = CtlRsp::Msg(1, String::from_str("MapDump not supported"));
                Answer { rsp: Some(rsp), start: None }
            },
        }
    }

    fn list_maps(&self) -> (maps: Vec<(SocketAddr, SocketAddr)>)
        requires
            self.wf(),
        ensures
            lists(maps@, self@.mappers),
    {
        let keys = self.port_mappers.keys();
        let mut maps: Vec<(SocketAddr, SocketAddr)> = Vec::new();
        let mut i: usize = 0;
        while i < keys.len()
            invariant
                i <= keys@.len(),
                maps@.len() == i,
                forall|j: int|
                    0 <= j < i ==> #[trigger] maps@[j] == (keys@[j].lst_addr, keys@[j].dst_addr),
            decreases keys@.len() - i,
        {
            maps.push((keys[i].lst_addr, keys[i].dst_addr));
            i = i + 1;
        }
        proof {
            assert forall|i: int, j: int|
                0 <= i < maps@.len() && 0 <= j < maps@.len() && i != j implies maps@[i]
                != maps@[j] by {
                assert(keys@[i] != keys@[j]);
            }
            assert forall|lst_addr: SocketAddr, dst_addr: SocketAddr|
                #[trigger] maps@.contains((lst_addr, dst_addr)) <==> self@.mappers.contains_key(
                    MapKey { lst_addr, dst_addr },
                ) by {
                let key = MapKey { lst_addr, dst_addr };
                if maps@.contains((lst_addr, dst_addr)) {
                    let j = choose|j: int| 0 <= j < maps@.len() && maps@[j] == (lst_addr, dst_addr);
                    assert(keys@[j] == key);
                    assert(keys@.contains(key));
                }
                if self@.mappers.contains_key(key) {
                    assert(keys@.contains(key));
                    let j = choose|j: int| 0 <= j < keys@.len() && keys@[j] == key;
                    assert(maps@[j] == (lst_addr, dst_addr));
                }
            }
        }
        maps
    }

    /// Does what a request asks for; `None` says that no more requests will come.
    pub fn handle_ctl(&mut self, ctl: Option<Ctl>, fresh: H) -> (answer: Answer<H>)
        requires
            old(self).wf(),
        ensures
            final(self).wf(),
            final(self)@ == after_ctl(old(self)@, ctl, fresh),
            match ctl {
                Some(Ctl::Act(act)) => {
                    &&& answered(old(self)@.mappers, act, answer.rsp)
                    &&& started(old(self)@.mappers, act, answer.start)
                },
                None => answer.rsp is None && answer.start is None,
            },
    {
        match ctl {
            Some(Ctl::Act(act)) => self.handle_action(act, fresh),
            None => {
                self.ctl_rx_closed = true;
                Answer { rsp: None, start: None }
            },
        }
    }

    /// Takes a message of a port of this end, to be sent through the tunnel; `None`
    /// says that no more will come.
    pub fn handle_port_msg(&mut self, m: Option<Msg>)
        requires
            old(self).wf(),
        ensures
            final(self).wf(),
            final(self)@ == after_port_msg(old(self)@, m),
    {
        match m {
            Some(m) => self.msg_ctx.queue_tx_msg(m),
            None => {
                self.mapper_rx_closed = true;
            },
        }
    }

    /// Whether requests can still come.
    pub fn wants_ctl(&self) -> (b: bool)
        ensures
            b == !self@.ctl_rx_closed,
    {
        !self.ctl_rx_closed
    }

    /// Whether messages of ports of this end can still come.
    pub fn wants_port_msgs(&self) -> (b: bool)
        ensures
            b == !self@.mapper_rx_closed,
    {
        !self.mapper_rx_closed
    }
}

/// No request is left lying: where a conversation waits, either no received request
/// is left, or what it was told did not bring one and changed nothing.
pub proof fn law_no_request_is_left(ctx: MsgCtxView<Ctl, CtlRsp>, event: CtlEvent)
    ensures
        ({
            let (after, action) = ctl_step(ctx, event);
            action is Wait ==> after.received.len() == 0 || (after == ctx && !(event is Answered)
                && !(event is Accepted) && event != CtlEvent::Read(Ok(())))
        }),
{
}

/// One thing that happens in a conversation with a command line.
pub enum TalkMove {
    /// `CtlServer::handle_cli` is told this.
    Told(CtlEvent),
    /// A request is received.
    Arrive(Ctl),
    /// The first answer that waits becomes the frame of this payload.
    Load(Seq<u8>),
    /// Bytes are read and written.
    Bytes(Rx, Option<Seq<u8>>),
}

/// The conversation after one move.
pub open spec fn talk_move(ctx: MsgCtxView<Ctl, CtlRsp>, mv: TalkMove) -> MsgCtxView<Ctl, CtlRsp> {
    match mv {
        TalkMove::Told(event) => ctl_step(ctx, event).0,
        TalkMove::Arrive(ctl) => MsgCtxView { received: ctx.received.push(ctl), ..ctx },
        TalkMove::Load(payload) => MsgCtxView { tx: stream::tx_load(ctx.tx, payload), ..ctx },
        TalkMove::Bytes(rx, out) => MsgCtxView { rx, tx: Tx { out, ..ctx.tx }, ..ctx },
    }
}

/// The request that the router has after a move, before it has answered it.
pub open spec fn put_by(ctx: MsgCtxView<Ctl, CtlRsp>, mv: TalkMove) -> Option<Ctl> {
    match mv {
        TalkMove::Told(event) => match ctl_step(ctx, event).1 {
            CtlAction::Ask(ctl) => Some(ctl),
            _ => None,
        },
        _ => None,
    }
}

/// Each request that is put is followed by its answer, and there are no other
/// answers; an answer is loaded only if one waits. `open` is the request that is
/// put and not answered at the start.
pub open spec fn talk_fits(
    ctx: MsgCtxView<Ctl, CtlRsp>,
    open: Option<Ctl>,
    moves: Seq<TalkMove>,
) -> bool
    decreases moves.len(),
{
    moves.len() > 0 ==> {
        &&& open is Some <==> (moves[0] matches TalkMove::Told(event) && event is Answered)
        &&& moves[0] is Load ==> ctx.tx.queued.len() > 0
        &&& talk_fits(talk_move(ctx, moves[0]), put_by(ctx, moves[0]), moves.drop_first())
    }
}

/// The conversation after `moves`.
pub open spec fn talk_after(
    ctx: MsgCtxView<Ctl, CtlRsp>,
    moves: Seq<TalkMove>,
) -> MsgCtxView<Ctl, CtlRsp>
    decreases moves.len(),
{
    if moves.len() == 0 {
        ctx
    } else {
        talk_after(talk_move(ctx, moves[0]), moves.drop_first())
    }
}

/// The request that is put and not answered after `moves`.
pub open spec fn open_after(
    ctx: MsgCtxView<Ctl, CtlRsp>,
    open: Option<Ctl>,
    moves: Seq<TalkMove>,
) -> Option<Ctl>
    decreases moves.len(),
{
    if moves.len() == 0 {
        open
    } else {
        open_after(talk_move(ctx, moves[0]), put_by(ctx, moves[0]), moves.drop_first())
    }
}

/// A request, as a sequence of at most one.
pub open spec fn at_most_one(open: Option<Ctl>) -> Seq<Ctl> {
    match open {
        Some(ctl) => seq![ctl],
        None => Seq::empty(),
    }
}

/// The requests that are put during `moves`.
pub open spec fn put_during(ctx: MsgCtxView<Ctl, CtlRsp>, moves: Seq<TalkMove>) -> Seq<Ctl>
    decreases moves.len(),
{
    if moves.len() == 0 {
        Seq::empty()
    } else {
        at_most_one(put_by(ctx, moves[0])) + put_during(
            talk_move(ctx, moves[0]),
            moves.drop_first(),
        )
    }
}

/// The requests that are answered during `moves`, each with its answer.
pub open spec fn answered_during(
    ctx: MsgCtxView<Ctl, CtlRsp>,
    open: Option<Ctl>,
    moves: Seq<TalkMove>,
) -> Seq<(Ctl, CtlRsp)>
    decreases moves.len(),
{
    if moves.len() == 0 {
        Seq::empty()
    } else {
        let now = match moves[0] {
            TalkMove::Told(CtlEvent::Answered(rsp)) => seq![(open->0, rsp)],
            _ => Seq::empty(),
        };
        now + answered_during(
            talk_move(ctx, moves[0]),
            put_by(ctx, moves[0]),
            moves.drop_first(),
        )
    }
}

/// The requests that are received during `moves`.
pub open spec fn requested_during(moves: Seq<TalkMove>) -> Seq<Ctl>
    decreases moves.len(),
{
    if moves.len() == 0 {
        Seq::empty()
    } else {
        let now = match moves[0] {
            TalkMove::Arrive(ctl) => seq![ctl],
            _ => Seq::empty(),
        };
        now + requested_during(moves.drop_first())
    }
}

/// The answers that become frames during `moves`.
pub open spec fn loaded_during(
    ctx: MsgCtxView<Ctl, CtlRsp>,
    moves: Seq<TalkMove>,
) -> Seq<CtlRsp>
    decreases moves.len(),
{
    if moves.len() == 0 {
        Seq::empty()
    } else {
        let now = if moves[0] is Load {
            seq![ctx.tx.queued[0]]
        } else {
            Seq::empty()
        };
        now + loaded_during(talk_move(ctx, moves[0]), moves.drop_first())
    }
}

/// How requests and answers go, over any course of a conversation in which each
/// request that is put is followed by its answer:
/// requests are put in the order in which they came, and none is lost, not even when
/// the connection is; they are answered in the order in which they were put, and at
/// most one is open at a time; and answers are sent in that same order.
pub proof fn law_requests_in_order(
    ctx: MsgCtxView<Ctl, CtlRsp>,
    open: Option<Ctl>,
    moves: Seq<TalkMove>,
)
    requires
        talk_fits(ctx, open, moves),
    ensures
        put_during(ctx, moves) + talk_after(ctx, moves).received == ctx.received
            + requested_during(moves),
        at_most_one(open) + put_during(ctx, moves) == answered_during(ctx, open, moves).map_values(
            |p: (Ctl, CtlRsp)| p.0,
        ) + at_most_one(open_after(ctx, open, moves)),
        loaded_during(ctx, moves) + talk_after(ctx, moves).tx.queued == ctx.tx.queued
            + answered_during(ctx, open, moves).map_values(|p: (Ctl, CtlRsp)| p.1),
    decreases moves.len(),
{
    let firsts = |p: (Ctl, CtlRsp)| p.0;
    let seconds = |p: (Ctl, CtlRsp)| p.1;
    let all = answered_during(ctx, open, moves);
    if moves.len() == 0 {
        assert(put_during(ctx, moves) + ctx.received =~= ctx.received + requested_during(moves));
        assert(at_most_one(open) + put_during(ctx, moves) =~= all.map_values(firsts) + at_most_one(
            open,
        ));
        assert(loaded_during(ctx, moves) + ctx.tx.queued =~= ctx.tx.queued + all.map_values(
            seconds,
        ));
    } else {
        let mv = moves[0];
        let rest = moves.drop_first();
        let next = talk_move(ctx, mv);
        let put = put_by(ctx, mv);
        law_requests_in_order(next, put, rest);
        let later = answered_during(next, put, rest);
        let answer = match mv {
            TalkMove::Told(CtlEvent::Answered(rsp)) => seq![(open->0, rsp)],
            _ => Seq::empty(),
        };
        let request = match mv {
            TalkMove::Arrive(ctl) => seq![ctl],
            _ => Seq::empty(),
        };
        let loaded = if mv is Load {
            seq![ctx.tx.queued[0]]
        } else {
            Seq::empty()
        };
        assert(at_most_one(put) + next.received =~= ctx.received + request);
        assert(loaded + next.tx.queued =~= ctx.tx.queued + answer.map_values(seconds));
        assert(at_most_one(open) =~= answer.map_values(firsts));
        assert(all.map_values(firsts) =~= answer.map_values(firsts) + later.map_values(firsts));
        assert(all.map_values(seconds) =~= answer.map_values(seconds) + later.map_values(seconds));
        assert(put_during(ctx, moves) + talk_after(ctx, moves).received =~= at_most_one(put) + (
        put_during(next, rest) + talk_after(next, rest).received));
        assert(at_most_one(put) + (next.received + requested_during(rest)) =~= (at_most_one(put)
            + next.received) + requested_during(rest));
        assert((ctx.received + request) + requested_during(rest) =~= ctx.received
            + requested_during(moves));
        assert(at_most_one(open) + put_during(ctx, moves) =~= answer.map_values(firsts) + (
        at_most_one(put) + put_during(next, rest)));
        assert(answer.map_values(firsts) + (later.map_values(firsts) + at_most_one(
            open_after(next, put, rest),
        )) =~= all.map_values(firsts) + at_most_one(open_after(ctx, open, moves)));
        assert(loaded_during(ctx, moves) + talk_after(ctx, moves).tx.queued =~= loaded + (
        loaded_during(next, rest) + talk_after(next, rest).tx.queued));
        assert(loaded + (next.tx.queued + later.map_values(seconds)) =~= (loaded + next.tx.queued)
            + later.map_values(seconds));
        assert((ctx.tx.queued + answer.map_values(seconds)) + later.map_values(seconds)
            =~= ctx.tx.queued + all.map_values(seconds));
    }
}

/// One thing that happens at an endpoint.
pub enum TunnelMove<H> {
    /// `Endpoint::tunnel` is told this.
    Told(TunnelEvent<H>),
    /// A read from the tunnel gave these bytes.
    Read(Seq<u8>),
    /// The first message that waits becomes a frame.
    Load,
    /// The tunnel's socket took this many bytes.
    Wrote(int),
    /// `Endpoint::handle_port_msg` is told this.
    PortMsg(Option<Msg>),
    /// `Endpoint::handle_ctl` is told this.
    Asked(Option<Ctl>, H),
}

/// The endpoint after one move, where `enc` and `dec` encode and decode messages.
pub open spec fn tunnel_move<H>(
    enc: spec_fn(Msg) -> Seq<u8>,
    dec: spec_fn(Seq<u8>) -> Option<Msg>,
    ep: EndpointView<H>,
    mv: TunnelMove<H>,
) -> EndpointView<H> {
    match mv {
        TunnelMove::Told(event) => tunnel_step(ep, event).0,
        TunnelMove::Read(data) => EndpointView { ctx: msg::ctx_read(dec, ep.ctx, data), ..ep },
        TunnelMove::Load => EndpointView {
            ctx: MsgCtxView {
                tx: stream::tx_load(ep.ctx.tx, enc(ep.ctx.tx.queued[0])),
                ..ep.ctx
            },
            ..ep
        },
        TunnelMove::Wrote(n) => EndpointView {
            ctx: MsgCtxView { tx: stream::tx_wrote(ep.ctx.tx, n), ..ep.ctx },
            ..ep
        },
        TunnelMove::PortMsg(m) => after_port_msg(ep, m),
        TunnelMove::Asked(ctl, fresh) => after_ctl(ep, ctl, fresh),
    }
}

/// A read gives some bytes, and no more than are asked for; frames are loaded and
/// written as they can be.
pub open spec fn tunnel_move_fits<H>(ep: EndpointView<H>, mv: TunnelMove<H>) -> bool {
    match mv {
        TunnelMove::Read(data) => 0 < data.len() <= stream::rx_want(ep.ctx.rx),
        TunnelMove::Load => stream::move_fits(ep.ctx.tx, TxMove::Load),
        TunnelMove::Wrote(n) => stream::move_fits(ep.ctx.tx, TxMove::Wrote(n)),
        _ => true,
    }
}

pub open spec fn tunnel_fits<H>(
    enc: spec_fn(Msg) -> Seq<u8>,
    dec: spec_fn(Seq<u8>) -> Option<Msg>,
    ep: EndpointView<H>,
    moves: Seq<TunnelMove<H>>,
) -> bool
    decreases moves.len(),
{
    moves.len() > 0 ==> {
        &&& tunnel_move_fits(ep, moves[0])
        &&& tunnel_fits(enc, dec, tunnel_move(enc, dec, ep, moves[0]), moves.drop_first())
    }
}

/// The endpoint after `moves`.
pub open spec fn tunnel_after<H>(
    enc: spec_fn(Msg) -> Seq<u8>,
    dec: spec_fn(Seq<u8>) -> Option<Msg>,
    ep: EndpointView<H>,
    moves: Seq<TunnelMove<H>>,
) -> EndpointView<H>
    decreases moves.len(),
{
    if moves.len() == 0 {
        ep
    } else {
        tunnel_after(enc, dec, tunnel_move(enc, dec, ep, moves[0]), moves.drop_first())
    }
}

/// The message that a move routes, if it routes one.
pub open spec fn routed_by<H>(ep: EndpointView<H>, mv: TunnelMove<H>) -> Seq<Msg> {
    if mv matches TunnelMove::Told(event) && tunnel_step(ep, event).1 is Route {
        seq![ep.ctx.received[0]]
    } else {
        Seq::empty()
    }
}

/// The messages that are routed during `moves`.
pub open spec fn routed_during<H>(
    enc: spec_fn(Msg) -> Seq<u8>,
    dec: spec_fn(Seq<u8>) -> Option<Msg>,
    ep: EndpointView<H>,
    moves: Seq<TunnelMove<H>>,
) -> Seq<Msg>
    decreases moves.len(),
{
    if moves.len() == 0 {
        Seq::empty()
    } else {
        routed_by(ep, moves[0]) + routed_during(
            enc,
            dec,
            tunnel_move(enc, dec, ep, moves[0]),
            moves.drop_first(),
        )
    }
}

/// The message that a move brings from the tunnel, if it brings one.
pub open spec fn received_by<H>(
    dec: spec_fn(Seq<u8>) -> Option<Msg>,
    ep: EndpointView<H>,
    mv: TunnelMove<H>,
) -> Seq<Msg> {
    match mv {
        TunnelMove::Read(data) => stream::read_gives(dec, ep.ctx.rx, data),
        _ => Seq::empty(),
    }
}

/// The messages that come from the tunnel during `moves`.
pub open spec fn received_during<H>(
    enc: spec_fn(Msg) -> Seq<u8>,
    dec: spec_fn(Seq<u8>) -> Option<Msg>,
    ep: EndpointView<H>,
    moves: Seq<TunnelMove<H>>,
) -> Seq<Msg>
    decreases moves.len(),
{
    if moves.len() == 0 {
        Seq::empty()
    } else {
        received_by(dec, ep, moves[0]) + received_during(
            enc,
            dec,
            tunnel_move(enc, dec, ep, moves[0]),
            moves.drop_first(),
        )
    }
}

/// Messages from the tunnel are routed in the order in which they came, each once,
/// and none is lost, not even when the connection is.
pub proof fn law_messages_are_routed_in_order<H>(
    enc: spec_fn(Msg) -> Seq<u8>,
    dec: spec_fn(Seq<u8>) -> Option<Msg>,
    ep: EndpointView<H>,
    moves: Seq<TunnelMove<H>>,
)
    ensures
        routed_during(enc, dec, ep, moves) + tunnel_after(enc, dec, ep, moves).ctx.received
            == ep.ctx.received + received_during(enc, dec, ep, moves),
    decreases moves.len(),
{
    if moves.len() == 0 {
        assert(routed_during(enc, dec, ep, moves) + ep.ctx.received =~= ep.ctx.received
            + received_during(enc, dec, ep, moves));
    } else {
        let mv = moves[0];
        let rest = moves.drop_first();
        let next = tunnel_move(enc, dec, ep, mv);
        law_messages_are_routed_in_order(enc, dec, next, rest);
        let routed = routed_by(ep, mv);
        let came = received_by(dec, ep, mv);
        let later = received_during(enc, dec, next, rest);
        assert(routed + next.ctx.received =~= ep.ctx.received + came);
        assert(routed_during(enc, dec, ep, moves) + tunnel_after(enc, dec, ep, moves).ctx.received
            =~= routed + (routed_during(enc, dec, next, rest) + tunnel_after(
            enc,
            dec,
            next,
            rest,
        ).ctx.received));
        assert(routed + (next.ctx.received + later) =~= (routed + next.ctx.received) + later);
        assert((ep.ctx.received + came) + later =~= ep.ctx.received + (came + later));
    }
}

/// What reads from the tunnel gave during `moves`.
pub open spec fn tunnel_chunks<H>(moves: Seq<TunnelMove<H>>) -> Seq<Seq<u8>>
    decreases moves.len(),
{
    if moves.len() == 0 {
        Seq::empty()
    } else {
        let now = match moves[0] {
            TunnelMove::Read(data) => seq![data],
            _ => Seq::empty(),
        };
        now + tunnel_chunks(moves.drop_first())
    }
}

/// What the sender does in a move, if anything: messages of ports are queued, and so
/// is the word that a mapper or a port is gone.
pub open spec fn tunnel_tx_move<H>(mv: TunnelMove<H>) -> Seq<TxMove<Msg>> {
    match mv {
        TunnelMove::Told(TunnelEvent::HandedOver { addr, ok, .. }) => if ok {
            Seq::empty()
        } else {
            seq![TxMove::Queue(gone(addr))]
        },
        TunnelMove::Load => seq![TxMove::Load],
        TunnelMove::Wrote(n) => seq![TxMove::Wrote(n)],
        TunnelMove::PortMsg(Some(m)) => seq![TxMove::Queue(m)],
        _ => Seq::empty(),
    }
}

/// What the sender does during `moves`.
pub open spec fn tunnel_tx_moves<H>(moves: Seq<TunnelMove<H>>) -> Seq<TxMove<Msg>>
    decreases moves.len(),
{
    if moves.len() == 0 {
        Seq::empty()
    } else {
        tunnel_tx_move(moves[0]) + tunnel_tx_moves(moves.drop_first())
    }
}

/// A move that does not end the connection.
pub open spec fn keeps_connection<H>(mv: TunnelMove<H>) -> bool {
    &&& mv matches TunnelMove::Told(TunnelEvent::Read(r)) ==> msg::harmless(r)
    &&& mv matches TunnelMove::Told(TunnelEvent::Wrote(r)) ==> msg::harmless(r)
}

/// The connection lasts during `moves`.
pub open spec fn unbroken<H>(moves: Seq<TunnelMove<H>>) -> bool {
    forall|i: int| 0 <= i < moves.len() ==> keeps_connection(#[trigger] moves[i])
}

proof fn lemma_tunnel_receiver<H>(
    enc: spec_fn(Msg) -> Seq<u8>,
    dec: spec_fn(Seq<u8>) -> Option<Msg>,
    ep: EndpointView<H>,
    moves: Seq<TunnelMove<H>>,
)
    requires
        tunnel_fits(enc, dec, ep, moves),
        unbroken(moves),
    ensures
        stream::reads_fit(ep.ctx.rx, tunnel_chunks(moves)),
        received_during(enc, dec, ep, moves) == stream::decoded(
            dec,
            stream::rx_delivered(ep.ctx.rx, tunnel_chunks(moves)),
        ),
    decreases moves.len(),
{
    if moves.len() > 0 {
        let rest = moves.drop_first();
        let next = tunnel_move(enc, dec, ep, moves[0]);
        assert(keeps_connection(moves[0]));
        assert(unbroken(rest));
        lemma_tunnel_receiver(enc, dec, next, rest);
        let later = received_during(enc, dec, next, rest);
        if let TunnelMove::Read(data) = moves[0] {
            stream::lemma_read_gives(dec, ep.ctx.rx, data, tunnel_chunks(rest));
            assert((seq![data] + tunnel_chunks(rest)).drop_first() =~= tunnel_chunks(rest));
        } else {
            assert(tunnel_chunks(moves) =~= tunnel_chunks(rest));
            assert(Seq::<Msg>::empty() + later =~= later);
        }
    }
}

proof fn lemma_tunnel_sender<H>(
    enc: spec_fn(Msg) -> Seq<u8>,
    dec: spec_fn(Seq<u8>) -> Option<Msg>,
    ep: EndpointView<H>,
    moves: Seq<TunnelMove<H>>,
)
    requires
        tunnel_fits(enc, dec, ep, moves),
        unbroken(moves),
    ensures
        stream::moves_fit(enc, ep.ctx.tx, tunnel_tx_moves(moves)),
        tunnel_after(enc, dec, ep, moves).ctx.tx == stream::tx_after(
            enc,
            ep.ctx.tx,
            tunnel_tx_moves(moves),
        ),
    decreases moves.len(),
{
    if moves.len() > 0 {
        let rest = moves.drop_first();
        let next = tunnel_move(enc, dec, ep, moves[0]);
        assert(keeps_connection(moves[0]));
        assert(unbroken(rest));
        lemma_tunnel_sender(enc, dec, next, rest);
        let now = tunnel_tx_move(moves[0]);
        if now.len() > 0 {
            assert(tunnel_tx_moves(moves)[0] == now[0]);
            assert(tunnel_tx_moves(moves).drop_first() =~= tunnel_tx_moves(rest));
        } else {
            assert(tunnel_tx_moves(moves) =~= tunnel_tx_moves(rest));
        }
    }
}

/// As long as the connection lasts, an endpoint reads and sends as any receiver and
/// sender do.
pub(crate) proof fn lemma_tunnel_sides<H>(
    enc: spec_fn(Msg) -> Seq<u8>,
    dec: spec_fn(Seq<u8>) -> Option<Msg>,
    ep: EndpointView<H>,
    moves: Seq<TunnelMove<H>>,
)
    requires
        tunnel_fits(enc, dec, ep, moves),
        unbroken(moves),
    ensures
        stream::reads_fit(ep.ctx.rx, tunnel_chunks(moves)),
        received_during(enc, dec, ep, moves) == stream::decoded(
            dec,
            stream::rx_delivered(ep.ctx.rx, tunnel_chunks(moves)),
        ),
        stream::moves_fit(enc, ep.ctx.tx, tunnel_tx_moves(moves)),
        tunnel_after(enc, dec, ep, moves).ctx.tx == stream::tx_after(
            enc,
            ep.ctx.tx,
            tunnel_tx_moves(moves),
        ),
{
    lemma_tunnel_receiver(enc, dec, ep, moves);
    lemma_tunnel_sender(enc, dec, ep, moves);
}

/// What is routed goes where the mappings and ports of that moment send it; the
/// tunnel waits only when no received message is left, or when what it was told
/// did not bring one and changed nothing; and a lost connection costs no mapping, no
/// port, no received message and none that waits to be sent.
pub proof fn law_tunnel_routes_what_it_has<H>(ep: EndpointView<H>, event: TunnelEvent<H>)
    ensures
        ({
            let (after, action) = tunnel_step(ep, event);
            match action {
                TunnelAction::Route(r) => {
                    &&& ep.ctx.received.len() > 0
                    &&& r == route(after.mappers, after.ports, ep.ctx.received[0])
                    &&& !(r is Idle)
                },
                TunnelAction::Wait => after.ctx.received.len() == 0 || (after == ep && (event
                    is Wrote || event == TunnelEvent::<H>::Read(Err(Error::WouldBlock)))),
                TunnelAction::Accept | TunnelAction::AcceptAndRoute => {
                    &&& action is Accept <==> event is Wrote
                    &&& action is AcceptAndRoute <==> event is Read
                    &&& after.mappers == ep.mappers
                    &&& after.ports == ep.ports
                    &&& after.ctx.received == ep.ctx.received
                    &&& after.ctx.tx.queued == ep.ctx.tx.queued
                },
            }
        }),
{
}

/// One who does not take what is handed over is forgotten, and the other end is
/// told; one who takes it stays, and nothing changes.
pub proof fn law_hand_over<H>(ep: EndpointView<H>, addr: AddrPair, to_mapper: bool)
    ensures
        after_hand_over(ep, addr, to_mapper, true) == ep,
        !after_hand_over(ep, addr, true, false).mappers.contains_key(msg::map_key_of(addr)),
        !after_hand_over(ep, addr, false, false).ports.contains_key(msg::port_key_of(addr)),
        after_hand_over(ep, addr, to_mapper, false).ctx.tx.queued == ep.ctx.tx.queued.push(
            gone(addr),
        ),
{
}

/// A mapping that was added is listed.
pub proof fn law_added_map_is_listed<H>(
    mappers: Map<MapKey, H>,
    lst_addr: SocketAddr,
    dst_addr: SocketAddr,
    fresh: H,
    maps: Seq<(SocketAddr, SocketAddr)>,
)
    requires
        lists(maps, mappers_after(mappers, Action::MapAdd { lst_addr, dst_addr }, fresh)),
    ensures
        maps.contains((lst_addr, dst_addr)),
{
}

/// A mapping that was removed is not listed.
pub proof fn law_removed_map_is_not_listed<H>(
    mappers: Map<MapKey, H>,
    lst_addr: SocketAddr,
    dst_addr: SocketAddr,
    fresh: H,
    maps: Seq<(SocketAddr, SocketAddr)>,
)
    requires
        lists(maps, mappers_after(mappers, Action::MapRm { lst_addr, dst_addr }, fresh)),
    ensures
        !maps.contains((lst_addr, dst_addr)),
{
}

/// Removing a mapping undoes adding it.
pub proof fn law_rm_undoes_add<H>(
    mappers: Map<MapKey, H>,
    lst_addr: SocketAddr,
    dst_addr: SocketAddr,
    fresh: H,
    unused: H,
)
    requires
        !mappers.contains_key(MapKey { lst_addr, dst_addr }),
    ensures
        mappers_after(
            mappers_after(mappers, Action::MapAdd { lst_addr, dst_addr }, fresh),
            Action::MapRm { lst_addr, dst_addr },
            unused,
        ) == mappers,
{
    let key = MapKey { lst_addr, dst_addr };
    assert(mappers.insert(key, fresh).remove(key) =~= mappers);
}

/// A mapping that is there cannot be added again: the request is answered with a
/// failure, starts nothing and changes nothing.
pub proof fn law_second_add_is_refused<H>(
    mappers: Map<MapKey, H>,
    lst_addr: SocketAddr,
    dst_addr: SocketAddr,
    fresh: H,
    again: H,
    answer: Answer<H>,
)
    requires
        ({
            let act = Action::MapAdd { lst_addr, dst_addr };
            let after = mappers_after(mappers, act, fresh);
            answered(after, act, answer.rsp) && started(after, act, answer.start)
        }),
    ensures
        ({
            let act = Action::MapAdd { lst_addr, dst_addr };
            let after = mappers_after(mappers, act, fresh);
            &&& mappers_after(after, act, again) == after
            &&& answers(answer.rsp, 1, exists_text(MapKey { lst_addr, dst_addr }))
            &&& answer.start is None
        }),
{
}

/// A request is about one mapping: all others stay as they are.
pub proof fn law_other_maps_stay<H>(
    mappers: Map<MapKey, H>,
    act: Action,
    fresh: H,
    other: MapKey,
)
    requires
        act matches Action::MapAdd { lst_addr, dst_addr } ==> other != (MapKey {
            lst_addr,
            dst_addr,
        }),
        act matches Action::MapRm { lst_addr, dst_addr } ==> other != (MapKey {
            lst_addr,
            dst_addr,
        }),
    ensures
        mappers_after(mappers, act, fresh).contains_key(other) == mappers.contains_key(other),
        mappers.contains_key(other) ==> mappers_after(mappers, act, fresh)[other]
            == mappers[other],
{
}

/// What a client's port sends reaches the port that was started for its connection:
/// its wish to connect has one started, and once that one is known, a later message
/// goes to it.
pub proof fn law_client_reaches_its_port<H>(
    mappers: Map<MapKey, H>,
    ports: Map<PortKey, H>,
    wish: Msg,
    h: H,
    m: Msg,
)
    requires
        wish.typ is MapConnecting,
        msg::port_key_of(m.addr) == msg::port_key_of(wish.addr),
        m.dir == MsgDirection::L2D,
        !(m.typ is MapConnecting),
    ensures
        route(mappers, ports, wish) == RouteAction::Connect(wish.addr),
        ({
            let after = ports.insert(msg::port_key_of(wish.addr), h);
            &&& route(mappers, after, m) == RouteAction::ToPort(Msg { dir: MsgDirection::D2L, ..m })
            &&& after[msg::port_key_of(m.addr)] == h
        }),
{
}

/// What the destination's port sends reaches the client's port: it is routed to the
/// mapper that took the client, and that mapper hands it to the client's port.
pub proof fn law_reply_reaches_the_client<H>(
    mappers: Map<MapKey, H>,
    ports: Map<PortKey, H>,
    mapper: MapperView<H>,
    local_addr: SocketAddr,
    h: H,
    m: Msg,
)
    requires
        mappers.contains_key(MapKey { lst_addr: mapper.lst_addr, dst_addr: mapper.dst_addr }),
        msg::port_key_of(m.addr) == (PortKey {
            lst_addr: mapper.lst_addr,
            dst_addr: mapper.dst_addr,
            local_addr,
        }),
        m.dir == MsgDirection::D2L,
        !(m.typ is MapConnecting),
    ensures
        ({
            let key = msg::port_key_of(m.addr);
            let turned = Msg { dir: MsgDirection::L2D, ..m };
            let (after, open) = mapper::mapper_step(
                mapper,
                MapperEvent::Accepted(Some((local_addr, h))),
            );
            &&& open == MapperAction::Open(key)
            &&& route(mappers, ports, m) == RouteAction::ToMapper(turned)
            &&& msg::map_key_of(m.addr) == (MapKey {
                lst_addr: mapper.lst_addr,
                dst_addr: mapper.dst_addr,
            })
            &&& mapper::mapper_route(after.ports, turned) == MapperAction::Deliver(turned)
            &&& after.ports[key] == h
        }),
{
}

/// How a mapped connection comes about, step by step: a mapper takes a client and has
/// a port opened; the port's wish reaches the other end, which connects; the word
/// of that comes back through the mapper to that port, which may then read, and
/// knows the other end's socket.
pub proof fn law_connection_is_made<H>(
    near: EndpointView<H>,
    far: EndpointView<H>,
    mapper: MapperView<H>,
    local_addr: SocketAddr,
    h: H,
    socket_addr: SocketAddr,
)
    requires
        near.mappers.contains_key(MapKey { lst_addr: mapper.lst_addr, dst_addr: mapper.dst_addr }),
    ensures
        ({
            let (taken, open) = mapper::mapper_step(
                mapper,
                MapperEvent::Accepted(Some((local_addr, h))),
            );
            let key = open->Open_0;
            let (port, wish) = port::opened(key.lst_addr, key.local_addr, key.dst_addr);
            let (dst, word) = port::connected(wish->Send_0.addr, Some(socket_addr));
            let turned = Msg { dir: MsgDirection::L2D, ..word->Send_0 };
            let (ready, done) = port::port_step(port, port::PortEvent::Received(Some(turned)));
            &&& open is Open && wish is Send && word is Send
            &&& route(far.mappers, far.ports, wish->Send_0) == RouteAction::Connect(
                wish->Send_0.addr,
            )
            &&& route(near.mappers, near.ports, word->Send_0) == RouteAction::ToMapper(turned)
            &&& mapper::mapper_route(taken.ports, turned) == MapperAction::Deliver(turned)
            &&& taken.ports[msg::port_key_of(turned.addr)] == h
            &&& done is Wait
            &&& ready.can_read
            &&& ready.end.addr.remap_addr == socket_addr
            &&& ready.end.addr == dst.addr
            &&& ready.end.dir != dst.dir
        }),
{
}

/// How a mapped connection fails that cannot be made: the other end's goodbye comes
/// back through the mapper to the client's port, which ends.
pub proof fn law_connection_is_refused<H>(
    near: EndpointView<H>,
    mapper: MapperView<H>,
    local_addr: SocketAddr,
    h: H,
)
    requires
        near.mappers.contains_key(MapKey { lst_addr: mapper.lst_addr, dst_addr: mapper.dst_addr }),
    ensures
        ({
            let (taken, open) = mapper::mapper_step(
                mapper,
                MapperEvent::Accepted(Some((local_addr, h))),
            );
            let key = open->Open_0;
            let (port, wish) = port::opened(key.lst_addr, key.local_addr, key.dst_addr);
            let (dst, word) = port::connected(wish->Send_0.addr, None);
            let turned = Msg { dir: MsgDirection::L2D, ..word->Finish_0 };
            &&& word is Finish
            &&& route(near.mappers, near.ports, word->Finish_0) == RouteAction::ToMapper(turned)
            &&& mapper::mapper_route(taken.ports, turned) == MapperAction::Deliver(turned)
            &&& taken.ports[msg::port_key_of(turned.addr)] == h
            &&& port::port_step(port, port::PortEvent::Received(Some(turned))).1 is Stop
        }),
{
}

/// The two ends of a mapped connection bear the same addresses as long as they
/// live, and go on sending in opposite directions.
pub proof fn law_ends_share_addresses(
    port: port::PortView,
    port_events: Seq<port::PortEvent>,
    dst: port::EndView,
    dst_events: Seq<port::PortEvent>,
)
    requires
        msg::port_key_of(dst.addr) == msg::port_key_of(port.end.addr),
    ensures
        msg::port_key_of(port::end_after(dst, dst_events).addr) == msg::port_key_of(
            port::port_after(port, port_events).end.addr,
        ),
        port::end_after(dst, dst_events).dir == dst.dir,
        port::port_after(port, port_events).end.dir == port.end.dir,
    decreases port_events.len() + dst_events.len(),
{
    if port_events.len() > 0 {
        let next = port::port_step(port, port_events[0]).0;
        port::law_port_keeps_its_identity(port, port_events[0]);
        law_ends_share_addresses(next, port_events.drop_first(), dst, dst_events);
    } else if dst_events.len() > 0 {
        let next = port::end_step(dst, dst_events[0]).0;
        port::law_port_keeps_its_identity(
            port::PortView { end: dst, can_read: true },
            dst_events[0],
        );
        law_ends_share_addresses(port, port_events, next, dst_events.drop_first());
    }
}

/// A mapper that is found gone is forgotten: the other end is told once, no further
/// message is tried on it, and nothing else changes.
pub proof fn law_gone_mapper_is_forgotten<H>(ep: EndpointView<H>, addr: AddrPair, m: Msg)
    requires
        msg::map_key_of(m.addr) == msg::map_key_of(addr),
        m.dir == MsgDirection::D2L,
        !(m.typ is MapConnecting),
    ensures
        ({
            let after = without_mapper(ep, addr);
            &&& route(after.mappers, after.ports, m) == RouteAction::NoMapper(
                msg::map_key_of(addr),
            )
            &&& after.ctx.tx.queued == ep.ctx.tx.queued.push(gone(addr))
            &&& after.ports == ep.ports
            &&& forall|k: MapKey|
                k != msg::map_key_of(addr) ==> (#[trigger] after.mappers.contains_key(k)
                    == ep.mappers.contains_key(k))
        }),
{
}

/// A port that is found gone is forgotten: the other end is told once, no further
/// message is tried on it, and nothing else changes.
pub proof fn law_gone_port_is_forgotten<H>(ep: EndpointView<H>, addr: AddrPair, m: Msg)
    requires
        msg::port_key_of(m.addr) == msg::port_key_of(addr),
        m.dir == MsgDirection::L2D,
        !(m.typ is MapConnecting),
    ensures
        ({
            let after = without_port(ep, addr);
            &&& route(after.mappers, after.ports, m) == RouteAction::NoPort(msg::port_key_of(addr))
            &&& after.ctx.tx.queued == ep.ctx.tx.queued.push(gone(addr))
            &&& after.mappers == ep.mappers
            &&& forall|k: PortKey|
                k != msg::port_key_of(addr) ==> (#[trigger] after.ports.contains_key(k)
                    == ep.ports.contains_key(k))
        }),
{
}

/// The text of one entry holds both its addresses; that of no entries is empty.
pub proof fn law_text_of_one_map(lst_addr: SocketAddr, dst_addr: SocketAddr)
    ensures
        maps_text(Seq::empty()).len() == 0,
        maps_text(seq![(lst_addr, dst_addr)]) == addr::addr_text(lst_addr) + " => "@
            + addr::addr_text(dst_addr),
{
    let one = seq![(lst_addr, dst_addr)];
    let none = Seq::<(SocketAddr, SocketAddr)>::empty();
    assert(one.drop_last() =~= none);
    assert(maps_text(none) =~= Seq::<char>::empty());
    assert(maps_text(none) + addr::addr_text(lst_addr) =~= addr::addr_text(lst_addr));
}

proof fn lemma_text_joins(
    front: Seq<char>,
    middle: Seq<char>,
    lst: Seq<char>,
    arrow: Seq<char>,
    dst: Seq<char>,
)
    ensures
        front + middle + lst + arrow + dst == front + (middle + lst + arrow + dst),
{
    assert(front + middle + lst + arrow + dst =~= front + (middle + lst + arrow + dst));
}

/// The text of a list is that of its entries, one after the other, whatever the others
/// are.
#[verifier::spinoff_prover]
pub proof fn law_text_of_maps(
    a: Seq<(SocketAddr, SocketAddr)>,
    b: Seq<(SocketAddr, SocketAddr)>,
)
    ensures
        maps_text(a + b) == maps_text(a) + maps_text(b),
    decreases b.len(),
{
    if b.len() == 0 {
        assert(a + b =~= a);
        assert(maps_text(a) + maps_text(b) =~= maps_text(a));
    } else {
        law_text_of_maps(a, b.drop_last());
        assert((a + b).drop_last() =~= a + b.drop_last());
        assert((a + b).last() == b.last());
        lemma_text_joins(
            maps_text(a),
            maps_text(b.drop_last()),
            addr::addr_text(b.last().0),
            " => "@,
            addr::addr_text(b.last().1),
        );
    }
}

/// Every entry of a list is printed, between the text of those before it and the text
/// of those behind it.
#[verifier::spinoff_prover]
pub proof fn law_every_map_is_printed(maps: Vec<(SocketAddr, SocketAddr)>, i: int)
    requires
        0 <= i < maps@.len(),
    ensures
        rsp_text(CtlRsp::MapLs(maps)) == maps_text(maps@.subrange(0, i)) + (addr::addr_text(
            maps@[i].0,
        ) + " => "@ + addr::addr_text(maps@[i].1)) + maps_text(
            maps@.subrange(i + 1, maps@.len() as int),
        ),
{
    let before = maps@.subrange(0, i);
    let one = seq![(maps@[i].0, maps@[i].1)];
    let behind = maps@.subrange(i + 1, maps@.len() as int);
    assert(maps@ =~= before + one + behind);
    law_text_of_maps(before + one, behind);
    law_text_of_maps(before, one);
    law_text_of_one_map(maps@[i].0, maps@[i].1);
}

/// An answer in words is printed whole, behind a mark, whatever its code.
pub proof fn law_words_are_printed(code: i32, s: String)
    ensures
        rsp_text(CtlRsp::Msg(code, s)) == "msg: "@ + s@,
{
}

/// What becomes of a message from the tunnel, by its kind, its direction and its
/// connection. One that is handed over is turned round and otherwise the same.
pub proof fn law_route_by_kind<H>(mappers: Map<MapKey, H>, ports: Map<PortKey, H>, m: Msg)
    ensures
        ({
            let r = route(mappers, ports, m);
            let port = PortKey {
                lst_addr: m.addr.lst_addr,
                dst_addr: m.addr.dst_addr,
                local_addr: m.addr.local_addr,
            };
            let mapping = MapKey { lst_addr: m.addr.lst_addr, dst_addr: m.addr.dst_addr };
            let to_port = !(m.typ is MapConnecting) && m.dir == MsgDirection::L2D;
            let to_mapper = !(m.typ is MapConnecting) && m.dir == MsgDirection::D2L;
            &&& !(r is Idle)
            &&& r is Connect <==> m.typ is MapConnecting
            &&& r matches RouteAction::Connect(addr) ==> addr == m.addr
            &&& r is ToPort <==> to_port && ports.contains_key(port)
            &&& r is NoPort <==> to_port && !ports.contains_key(port)
            &&& r matches RouteAction::NoPort(key) ==> key == port
            &&& r is ToMapper <==> to_mapper && mappers.contains_key(mapping)
            &&& r is NoMapper <==> to_mapper && !mappers.contains_key(mapping)
            &&& r matches RouteAction::NoMapper(key) ==> key == mapping
            &&& r matches RouteAction::ToPort(t) ==> {
                &&& t.addr == m.addr
                &&& t.typ == m.typ
                &&& t.dir == MsgDirection::D2L
            }
            &&& r matches RouteAction::ToMapper(t) ==> {
                &&& t.addr == m.addr
                &&& t.typ == m.typ
                &&& t.dir == MsgDirection::L2D
            }
        }),
{
}

/// The connection failed, other than by a socket that is not ready.
pub open spec fn failed(r: Result<(), Error>) -> bool {
    r matches Err(e) && e != Error::WouldBlock
}

/// What an endpoint does about the tunnel: a failure makes it accept anew; a write that
/// went well, and a socket that is not ready, make it wait; after everything else it
/// routes the message that was received first, if there is one.
pub proof fn law_tunnel_acts_for_a_reason<H>(ep: EndpointView<H>, event: TunnelEvent<H>)
    ensures
        ({
            let (after, action) = tunnel_step(ep, event);
            let read_failed = event matches TunnelEvent::Read(r) && failed(r);
            let write_failed = event matches TunnelEvent::Wrote(r) && failed(r);
            let idle = event is Wrote || (event matches TunnelEvent::Read(r) && r is Err);
            &&& action is AcceptAndRoute <==> read_failed
            &&& action is Accept <==> write_failed
            &&& action is Route <==> !idle && ep.ctx.received.len() > 0
            &&& action is Route ==> ep.ctx.received == seq![ep.ctx.received[0]]
                + after.ctx.received
            &&& !(action is Route) ==> after.ctx.received == ep.ctx.received
            &&& action matches TunnelAction::Route(r) ==> r == route(
                after.mappers,
                after.ports,
                ep.ctx.received[0],
            )
        }),
{
    if ep.ctx.received.len() > 0 {
        assert(ep.ctx.received =~= seq![ep.ctx.received[0]] + ep.ctx.received.drop_first());
    }
}

/// What an event changes of the tunnel's connection: a failed read forgets the frame
/// that was being received, a failed write the one that was being sent; one who
/// did not take a message makes the endpoint say goodbye for it; nothing else
/// changes.
pub proof fn law_tunnel_changes_its_connection_only_so<H>(
    ep: EndpointView<H>,
    event: TunnelEvent<H>,
)
    ensures
        ({
            let after = tunnel_step(ep, event).0;
            let read_failed = event matches TunnelEvent::Read(r) && failed(r);
            let write_failed = event matches TunnelEvent::Wrote(r) && failed(r);
            let refused = event matches TunnelEvent::HandedOver { ok, .. } && !ok;
            &&& read_failed ==> after.ctx.rx.frag is None && after.ctx.rx.buf.len() == 0
            &&& !read_failed ==> after.ctx.rx == ep.ctx.rx
            &&& write_failed ==> after.ctx.tx.out is None
            &&& !write_failed ==> after.ctx.tx.out == ep.ctx.tx.out
            &&& refused ==> {
                &&& after.ctx.tx.queued.len() == ep.ctx.tx.queued.len() + 1
                &&& after.ctx.tx.queued.drop_last() == ep.ctx.tx.queued
                &&& after.ctx.tx.queued.last().addr == event->HandedOver_addr
                &&& after.ctx.tx.queued.last().dir == MsgDirection::D2L
                &&& after.ctx.tx.queued.last().typ is MapDisconnect
            }
            &&& !refused ==> after.ctx.tx.queued == ep.ctx.tx.queued
            &&& after.ctl_rx_closed == ep.ctl_rx_closed
            &&& after.mapper_rx_closed == ep.mapper_rx_closed
        }),
{
    if let TunnelEvent::HandedOver { addr, to_mapper, ok } = event {
        if !ok {
            let after = tunnel_step(ep, event).0;
            assert(after.ctx.tx.queued.drop_last() =~= ep.ctx.tx.queued);
        }
    }
}

/// What an event changes of the mappings and ports: a port that was started is known
/// from then on, whatever its addresses; a mapper or a port that did not take a
/// message is forgotten; all others stay as they are.
pub proof fn law_tunnel_changes_its_tables_only_so<H>(
    ep: EndpointView<H>,
    event: TunnelEvent<H>,
    port: PortKey,
    mapping: MapKey,
)
    ensures
        ({
            let after = tunnel_step(ep, event).0;
            let started = event matches TunnelEvent::Started(addr, _) && addr.lst_addr
                == port.lst_addr && addr.dst_addr == port.dst_addr && addr.local_addr
                == port.local_addr;
            let port_gone = event matches TunnelEvent::HandedOver { addr, to_mapper, ok } && !ok
                && !to_mapper && addr.lst_addr == port.lst_addr && addr.dst_addr == port.dst_addr
                && addr.local_addr == port.local_addr;
            let mapper_gone = event matches TunnelEvent::HandedOver { addr, to_mapper, ok } && !ok
                && to_mapper && addr.lst_addr == mapping.lst_addr && addr.dst_addr
                == mapping.dst_addr;
            &&& started ==> after.ports.contains_key(port) && after.ports[port]
                == event->Started_1
            &&& port_gone ==> !after.ports.contains_key(port)
            &&& !started && !port_gone ==> after.ports.contains_key(port) == ep.ports.contains_key(
                port,
            )
            &&& !started && !port_gone && ep.ports.contains_key(port) ==> after.ports[port]
                == ep.ports[port]
            &&& mapper_gone ==> !after.mappers.contains_key(mapping)
            &&& !mapper_gone ==> after.mappers.contains_key(mapping) == ep.mappers.contains_key(
                mapping,
            )
            &&& !mapper_gone && ep.mappers.contains_key(mapping) ==> after.mappers[mapping]
                == ep.mappers[mapping]
        }),
{
}

/// A port that was started gets the messages of its connection: once the endpoint is
/// told of it, whatever the addresses are, the next one that comes for it goes to it,
/// whether it lay there already or comes later.
pub proof fn law_started_port_is_reached<H>(
    ep: EndpointView<H>,
    addr: AddrPair,
    h: H,
    m: Msg,
    data: TunnelEvent<H>,
)
    requires
        m.addr.lst_addr == addr.lst_addr,
        m.addr.dst_addr == addr.dst_addr,
        m.addr.local_addr == addr.local_addr,
        m.dir == MsgDirection::L2D,
        !(m.typ is MapConnecting),
        data == TunnelEvent::<H>::Read(Ok(())) || data is Accepted || data is Dropped,
    ensures
        ({
            let (started, first) = tunnel_step(ep, TunnelEvent::Started(addr, h));
            let key = PortKey {
                lst_addr: addr.lst_addr,
                dst_addr: addr.dst_addr,
                local_addr: addr.local_addr,
            };
            let came = EndpointView {
                ctx: MsgCtxView { received: seq![m], ..started.ctx },
                ..started
            };
            let (_, second) = tunnel_step(came, data);
            &&& started.ports.contains_key(key)
            &&& started.ports[key] == h
            &&& ep.ctx.received.len() > 0 && ep.ctx.received[0] == m ==> (
            first matches TunnelAction::Route(RouteAction::ToPort(t)) && t.addr == m.addr && t.typ
                == m.typ)
            &&& second matches TunnelAction::Route(RouteAction::ToPort(t)) && t.addr == m.addr
                && t.typ == m.typ
        }),
{
}

/// A mapping that was added gets the messages of its connections: once the request
/// was met, a message that comes for one of them goes to its mapper, which is the
/// new one if there was none before.
pub proof fn law_added_mapping_is_reached<H>(
    ep: EndpointView<H>,
    lst_addr: SocketAddr,
    dst_addr: SocketAddr,
    fresh: H,
    m: Msg,
)
    requires
        m.addr.lst_addr == lst_addr,
        m.addr.dst_addr == dst_addr,
        m.dir == MsgDirection::D2L,
        !(m.typ is MapConnecting),
    ensures
        ({
            let added = after_ctl(ep, Some(Ctl::Act(Action::MapAdd { lst_addr, dst_addr })), fresh);
            let key = MapKey { lst_addr, dst_addr };
            let came = EndpointView {
                ctx: MsgCtxView { received: seq![m], ..added.ctx },
                ..added
            };
            let action = tunnel_step(came, TunnelEvent::Read(Ok(()))).1;
            &&& action matches TunnelAction::Route(RouteAction::ToMapper(t)) && t.addr == m.addr
                && t.typ == m.typ
            &&& added.mappers.contains_key(key)
            &&& added.mappers[key] == if ep.mappers.contains_key(key) {
                ep.mappers[key]
            } else {
                fresh
            }
        }),
{
}

/// What a request changes: adding makes a mapping known and leaves one that is there
/// alone, removing makes it unknown, and nothing else of the endpoint changes; the
/// word that no more requests will come only closes that door.
pub proof fn law_request_changes_only_so<H>(
    ep: EndpointView<H>,
    ctl: Option<Ctl>,
    fresh: H,
    key: MapKey,
)
    ensures
        ({
            let after = after_ctl(ep, ctl, fresh);
            let adds = ctl matches Some(Ctl::Act(Action::MapAdd { lst_addr, dst_addr })) && lst_addr
                == key.lst_addr && dst_addr == key.dst_addr;
            let removes = ctl matches Some(Ctl::Act(Action::MapRm { lst_addr, dst_addr }))
                && lst_addr == key.lst_addr && dst_addr == key.dst_addr;
            &&& after.ctx == ep.ctx
            &&& after.ports == ep.ports
            &&& after.mapper_rx_closed == ep.mapper_rx_closed
            &&& after.ctl_rx_closed <==> ep.ctl_rx_closed || ctl is None
            &&& adds ==> after.mappers.contains_key(key)
            &&& adds && !ep.mappers.contains_key(key) ==> after.mappers[key] == fresh
            &&& removes ==> !after.mappers.contains_key(key)
            &&& !adds && !removes ==> after.mappers.contains_key(key) == ep.mappers.contains_key(
                key,
            )
            &&& ep.mappers.contains_key(key) && !removes ==> after.mappers[key] == ep.mappers[key]
        }),
{
}

/// `handle_action` and `handle_ctl` change the mappings alike.
pub proof fn law_requests_change_mappings<H>(ep: EndpointView<H>, act: Action, fresh: H)
    ensures
        after_ctl(ep, Some(Ctl::Act(act)), fresh).mappers == mappers_after(ep.mappers, act, fresh),
{
}

/// What is answered to each request: 0 and a text where it was met, 1 and a text where
/// it was not, the mappings where they were asked for; and a mapper is started exactly
/// for a mapping that is new, at its address, for its destination and without ports.
pub proof fn law_answer_to_each_request<H>(
    mappers: Map<MapKey, H>,
    act: Action,
    rsp: Option<CtlRsp>,
    start: Option<PortMapper<H>>,
)
    requires
        answered(mappers, act, rsp),
        started(mappers, act, start),
    ensures
        act matches Action::MapAdd { lst_addr, dst_addr } ==> {
            let key = MapKey { lst_addr, dst_addr };
            &&& mappers.contains_key(key) ==> {
                &&& start is None
                &&& rsp matches Some(CtlRsp::Msg(code, s)) && code == 1 && s@ == "map "@
                    + addr::addr_text(lst_addr) + "<=>"@ + addr::addr_text(dst_addr) + " exist"@
            }
            &&& !mappers.contains_key(key) ==> {
                &&& rsp matches Some(CtlRsp::Msg(code, s)) && code == 0 && s@
                    == "MapAdd successfully"@
                &&& start matches Some(mapper) && mapper.wf() && mapper@.lst_addr == lst_addr
                    && mapper@.dst_addr == dst_addr && mapper@.ports.dom() == Set::<
                    PortKey,
                >::empty()
            }
        },
        !(act is MapAdd) ==> start is None,
        act is MapRm ==> (rsp matches Some(CtlRsp::Msg(code, s)) && code == 0 && s@
            == "MapRm successfully"@),
        act is MapLoad ==> (rsp matches Some(CtlRsp::Msg(code, s)) && code == 1 && s@
            == "MapLoad not supported"@),
        act is MapDump ==> (rsp matches Some(CtlRsp::Msg(code, s)) && code == 1 && s@
            == "MapDump not supported"@),
        act is MapLs ==> (rsp matches Some(CtlRsp::MapLs(_))),
{
    assert(Map::<PortKey, H>::empty().dom() =~= Set::<PortKey>::empty());
}

/// The list that is answered holds each mapping, each once, and nothing else.
pub proof fn law_list_is_complete<H>(
    mappers: Map<MapKey, H>,
    maps: Vec<(SocketAddr, SocketAddr)>,
    key: MapKey,
)
    requires
        answered(mappers, Action::MapLs, Some(CtlRsp::MapLs(maps))),
    ensures
        mappers.contains_key(key) ==> exists|i: int|
            0 <= i < maps@.len() && #[trigger] maps@[i] == (key.lst_addr, key.dst_addr),
        forall|i: int|
            0 <= i < maps@.len() ==> mappers.contains_key(
                MapKey { lst_addr: (#[trigger] maps@[i]).0, dst_addr: maps@[i].1 },
            ),
        forall|i: int, j: int|
            0 <= i < j < maps@.len() ==> #[trigger] maps@[i] != #[trigger] maps@[j],
{
    if mappers.contains_key(key) {
        assert(maps@.contains((key.lst_addr, key.dst_addr)));
    }
    assert forall|i: int| 0 <= i < maps@.len() implies mappers.contains_key(
        MapKey { lst_addr: (#[trigger] maps@[i]).0, dst_addr: maps@[i].1 },
    ) by {
        assert(maps@.contains((maps@[i].0, maps@[i].1)));
    }
}

/// What a port of this end says is sent behind all that waits, as it is; and nothing
/// else changes.
pub proof fn law_port_msg_changes_only_so<H>(ep: EndpointView<H>, m: Option<Msg>)
    ensures
        ({
            let after = after_port_msg(ep, m);
            &&& after.mappers == ep.mappers
            &&& after.ports == ep.ports
            &&& after.ctl_rx_closed == ep.ctl_rx_closed
            &&& after.mapper_rx_closed <==> ep.mapper_rx_closed || m is None
            &&& after.ctx.rx == ep.ctx.rx
            &&& after.ctx.received == ep.ctx.received
            &&& after.ctx.tx.out == ep.ctx.tx.out
            &&& m matches Some(m) ==> after.ctx.tx.queued == ep.ctx.tx.queued + seq![m]
            &&& m is None ==> after.ctx.tx.queued == ep.ctx.tx.queued
        }),
{
    if let Some(m) = m {
        assert(ep.ctx.tx.queued.push(m) =~= ep.ctx.tx.queued + seq![m]);
    }
}

/// What becomes of an endpoint when a message was handed over: nothing if it was
/// taken; else the one who did not take it is forgotten, the other end is told, and
/// nothing else changes.
pub proof fn law_hand_over_changes_only_so<H>(
    ep: EndpointView<H>,
    addr: AddrPair,
    to_mapper: bool,
    ok: bool,
    port: PortKey,
    mapping: MapKey,
)
    ensures
        ({
            let after = after_hand_over(ep, addr, to_mapper, ok);
            let port_gone = !ok && !to_mapper && port == (PortKey {
                lst_addr: addr.lst_addr,
                dst_addr: addr.dst_addr,
                local_addr: addr.local_addr,
            });
            let mapper_gone = !ok && to_mapper && mapping == (MapKey {
                lst_addr: addr.lst_addr,
                dst_addr: addr.dst_addr,
            });
            let word = Msg { addr, dir: MsgDirection::D2L, typ: MsgType::MapDisconnect };
            &&& after.ports.contains_key(port) <==> ep.ports.contains_key(port) && !port_gone
            &&& after.ports.contains_key(port) ==> after.ports[port] == ep.ports[port]
            &&& after.mappers.contains_key(mapping) <==> ep.mappers.contains_key(mapping)
                && !mapper_gone
            &&& after.mappers.contains_key(mapping) ==> after.mappers[mapping]
                == ep.mappers[mapping]
            &&& after.ctx.rx == ep.ctx.rx
            &&& after.ctx.received == ep.ctx.received
            &&& after.ctx.tx.out == ep.ctx.tx.out
            &&& ok ==> after.ctx.tx.queued == ep.ctx.tx.queued
            &&& !ok ==> after.ctx.tx.queued == ep.ctx.tx.queued + seq![word]
            &&& after.ctl_rx_closed == ep.ctl_rx_closed
            &&& after.mapper_rx_closed == ep.mapper_rx_closed
            &&& !ok && to_mapper ==> after == without_mapper(ep, addr)
            &&& !ok && !to_mapper ==> after == without_port(ep, addr)
        }),
{
    if !ok {
        assert(ep.ctx.tx.queued.push(gone(addr)) =~= ep.ctx.tx.queued + seq![gone(addr)]);
    }
}

/// What an endpoint does in the conversation with a command line: a failure makes it
/// accept anew; a write that went well, and a socket that is not ready, make it wait;
/// after everything else it puts the request that was received first, if there is one.
/// An answer goes behind those that wait; a failure forgets the frame under way.
/// Nothing else changes.
pub proof fn law_conversation_acts_for_a_reason(ctx: MsgCtxView<Ctl, CtlRsp>, event: CtlEvent)
    ensures
        ({
            let (after, action) = ctl_step(ctx, event);
            let read_failed = event matches CtlEvent::Read(r) && failed(r);
            let write_failed = event matches CtlEvent::Wrote(r) && failed(r);
            let idle = event is Wrote || (event matches CtlEvent::Read(r) && r is Err);
            &&& action is AcceptAndAsk <==> read_failed
            &&& action is Accept <==> write_failed
            &&& action is Ask <==> !idle && ctx.received.len() > 0
            &&& action matches CtlAction::Ask(ctl) ==> ctx.received == seq![ctl] + after.received
            &&& !(action is Ask) ==> after.received == ctx.received
            &&& event matches CtlEvent::Answered(rsp) ==> after.tx.queued == ctx.tx.queued
                + seq![rsp]
            &&& !(event is Answered) ==> after.tx.queued == ctx.tx.queued
            &&& read_failed ==> after.rx.frag is None && after.rx.buf.len() == 0
            &&& !read_failed ==> after.rx == ctx.rx
            &&& write_failed ==> after.tx.out is None
            &&& !write_failed ==> after.tx.out == ctx.tx.out
        }),
{
    if ctx.received.len() > 0 {
        assert(ctx.received =~= seq![ctx.received[0]] + ctx.received.drop_first());
    }
    if let CtlEvent::Answered(rsp) = event {
        assert(ctx.tx.queued.push(rsp) =~= ctx.tx.queued + seq![rsp]);
    }
}

} // verus!
