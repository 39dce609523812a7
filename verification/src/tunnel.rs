//! The whole way through the tunnel: from the endpoint that a message is given to,
//! over the relay, to the endpoint that routes it.

use vstd::prelude::*;

use crate::cli::Action;
use crate::endpoint;
use crate::endpoint::{EndpointView, RouteAction, TunnelAction, TunnelEvent, TunnelMove};
use crate::hole;
use crate::hole::{RelayMove, RelayView};
use crate::mapper;
use crate::mapper::{MapperAction, MapperEvent, MapperView};
use crate::msg;
use crate::msg::{Msg, MsgDirection, MsgType};
use crate::port;
use crate::port::{EndView, PortEvent, PortView};
use crate::queue;
use crate::stream;
use crate::table::{MapKey, PortKey};

verus! {

broadcast use vstd::seq_lib::group_seq_properties;

/// One way through the tunnel: the three parties at the start of a connection, what
/// happens at each of them while it lasts, and the bytes that the two sockets have
/// taken and not given yet.
pub struct Way<H> {
    pub near: EndpointView<H>,
    pub near_moves: Seq<TunnelMove<H>>,
    pub first_wire: Seq<u8>,
    pub relay: RelayView,
    pub relay_moves: Seq<RelayMove>,
    pub second_wire: Seq<u8>,
    pub far: EndpointView<H>,
    pub far_moves: Seq<TunnelMove<H>>,
}

impl<H> Way<H> {
    /// The messages that the near endpoint was given meanwhile.
    pub open spec fn added(self) -> Seq<Msg> {
        stream::queued_during(endpoint::tunnel_tx_moves(self.near_moves))
    }

    /// The messages that the near endpoint had or was given to send.
    pub open spec fn given(self) -> Seq<Msg> {
        self.near.ctx.tx.queued + self.added()
    }

    /// All messages for the far endpoint, those that come first in front: those it had
    /// received, those that were at the relay, and those of the near endpoint.
    pub open spec fn bound(self) -> Seq<Msg> {
        self.far.ctx.received + (hole::backlog(self.relay) + self.given())
    }

    /// The messages that were on the way at the start.
    pub open spec fn waiting(self) -> Seq<Msg> {
        self.far.ctx.received + hole::backlog(self.relay) + self.near.ctx.tx.queued
    }

    /// The messages that the far endpoint routes.
    pub open spec fn routed(
        self,
        enc: spec_fn(Msg) -> Seq<u8>,
        dec: spec_fn(Seq<u8>) -> Option<Msg>,
    ) -> Seq<Msg> {
        endpoint::routed_during(enc, dec, self.far, self.far_moves)
    }

    /// Each party begins between two frames and acts as it can; each socket gives a
    /// beginning of the bytes that it took; and the codec decodes what it encodes.
    pub open spec fn works(
        self,
        enc: spec_fn(Msg) -> Seq<u8>,
        dec: spec_fn(Seq<u8>) -> Option<Msg>,
    ) -> bool {
        &&& self.near.ctx.tx.out is None
        &&& self.relay.from.rx == stream::rx_idle()
        &&& self.relay.to.tx.out is None
        &&& self.far.ctx.rx == stream::rx_idle()
        &&& endpoint::tunnel_fits(enc, dec, self.near, self.near_moves)
        &&& endpoint::unbroken(self.near_moves)
        &&& hole::relay_fits(enc, dec, self.relay, self.relay_moves)
        &&& endpoint::tunnel_fits(enc, dec, self.far, self.far_moves)
        &&& endpoint::unbroken(self.far_moves)
        &&& stream::joined(hole::relay_chunks(self.relay_moves)) + self.first_wire
            == stream::tx_sent(
            enc,
            self.near.ctx.tx,
            endpoint::tunnel_tx_moves(self.near_moves),
        )
        &&& stream::joined(endpoint::tunnel_chunks(self.far_moves)) + self.second_wire
            == stream::tx_sent(
            enc,
            self.relay.to.tx,
            hole::relay_tx_moves(enc, dec, self.relay, self.relay_moves),
        )
        &&& stream::carried(enc, dec, hole::backlog(self.relay) + self.given())
    }

    /// Nothing is left on the way: not at the near endpoint, not in a socket, not at
    /// the relay, and not unrouted at the far endpoint.
    pub open spec fn is_clear(
        self,
        enc: spec_fn(Msg) -> Seq<u8>,
        dec: spec_fn(Seq<u8>) -> Option<Msg>,
    ) -> bool {
        let relay = hole::relay_after(enc, dec, self.relay, self.relay_moves);
        &&& endpoint::tunnel_after(enc, dec, self.near, self.near_moves).ctx.tx
            == stream::tx_idle::<Msg>()
        &&& self.first_wire.len() == 0
        &&& relay.from.received.len() == 0
        &&& relay.channel.len() == 0
        &&& relay.to.tx == stream::tx_idle::<Msg>()
        &&& self.second_wire.len() == 0
        &&& endpoint::tunnel_after(
            enc,
            dec,
            self.far,
            self.far_moves,
        ).ctx.received.len() == 0
    }
}

proof fn lemma_beginning_is_carried(
    enc: spec_fn(Msg) -> Seq<u8>,
    dec: spec_fn(Seq<u8>) -> Option<Msg>,
    part: Seq<Msg>,
    all: Seq<Msg>,
    from: int,
)
    requires
        stream::carried(enc, dec, all),
        0 <= from,
        from + part.len() <= all.len(),
        part == all.subrange(from, from + part.len()),
    ensures
        stream::carried(enc, dec, part),
{
    assert forall|i: int| 0 <= i < part.len() implies {
        let msg = #[trigger] part[i];
        stream::deliverable(enc(msg)) && dec(enc(msg)) == Some(msg)
    } by {
        assert(part[i] == all[from + i]);
    }
}

/// Messages cross the tunnel in order: those that the far endpoint routes are a
/// beginning of those that were bound for it, each once; and they are all of them
/// when nothing is left on the way.
pub proof fn law_messages_cross_the_tunnel<H>(
    enc: spec_fn(Msg) -> Seq<u8>,
    dec: spec_fn(Seq<u8>) -> Option<Msg>,
    way: Way<H>,
)
    requires
        way.works(enc, dec),
    ensures
        way.routed(enc, dec).is_prefix_of(way.bound()),
        way.is_clear(enc, dec) ==> way.routed(enc, dec) == way.bound(),
{
    let near_tx_moves = endpoint::tunnel_tx_moves(way.near_moves);
    let relay_chunks = hole::relay_chunks(way.relay_moves);
    let relay_tx_moves = hole::relay_tx_moves(enc, dec, way.relay, way.relay_moves);
    let far_chunks = endpoint::tunnel_chunks(way.far_moves);
    let backlog = hole::backlog(way.relay);
    let given = way.given();
    let all = backlog + given;
    endpoint::lemma_tunnel_sides(enc, dec, way.near, way.near_moves);
    hole::lemma_relay_sides(enc, dec, way.relay, way.relay_moves);
    endpoint::lemma_tunnel_sides(enc, dec, way.far, way.far_moves);
    endpoint::law_messages_are_routed_in_order(enc, dec, way.far, way.far_moves);

    // From the near endpoint to the relay.
    assert(given =~= all.subrange(backlog.len() as int, all.len() as int));
    lemma_beginning_is_carried(enc, dec, given, all, backlog.len() as int);
    stream::law_messages_arrive_in_order(
        enc,
        dec,
        way.near.ctx.tx,
        near_tx_moves,
        relay_chunks,
        way.first_wire,
    );
    let read = hole::relay_read(dec, way.relay, way.relay_moves);
    assert(read.is_prefix_of(given));

    // Through the relay.
    let relay_after = hole::relay_after(enc, dec, way.relay, way.relay_moves);
    let passed = way.relay.to.tx.queued + stream::queued_during(relay_tx_moves);
    let held = relay_after.channel + relay_after.from.received;
    assert(passed + held == backlog + read);
    assert(passed =~= (backlog + read).take(passed.len() as int));
    assert(backlog + read =~= all.take((backlog + read).len() as int));
    assert(passed =~= all.subrange(0, passed.len() as int));
    lemma_beginning_is_carried(enc, dec, passed, all, 0);

    // From the relay to the far endpoint.
    stream::law_messages_arrive_in_order(
        enc,
        dec,
        way.relay.to.tx,
        relay_tx_moves,
        far_chunks,
        way.second_wire,
    );
    let came = endpoint::received_during(enc, dec, way.far, way.far_moves);
    assert(came.is_prefix_of(passed));
    assert(came =~= all.take(came.len() as int));

    let routed = way.routed(enc, dec);
    let left = endpoint::tunnel_after(enc, dec, way.far, way.far_moves).ctx.received;
    assert(routed =~= (way.far.ctx.received + came).take(routed.len() as int));
    assert(way.far.ctx.received + came =~= way.bound().take(
        (way.far.ctx.received + came).len() as int,
    ));
    assert(routed =~= way.bound().subrange(0, routed.len() as int));
    if way.is_clear(enc, dec) {
        assert(held =~= Seq::<Msg>::empty());
        assert(passed =~= all);
        assert(left =~= Seq::<Msg>::empty());
        assert(routed =~= way.bound());
    }
}

/// The data that a message carries, if it goes this way over this connection.
pub open spec fn data_in(key: PortKey, dir: MsgDirection, m: Msg) -> Seq<u8> {
    match m.typ {
        MsgType::MapData(data) if msg::port_key_of(m.addr) == key && m.dir == dir => data@,
        _ => Seq::empty(),
    }
}

/// The data that messages carry one way over a connection.
pub open spec fn data_about(key: PortKey, dir: MsgDirection, msgs: Seq<Msg>) -> Seq<u8>
    decreases msgs.len(),
{
    if msgs.len() == 0 {
        Seq::empty()
    } else {
        data_in(key, dir, msgs[0]) + data_about(key, dir, msgs.drop_first())
    }
}

proof fn lemma_data_add(key: PortKey, dir: MsgDirection, a: Seq<Msg>, b: Seq<Msg>)
    ensures
        data_about(key, dir, a + b) == data_about(key, dir, a) + data_about(key, dir, b),
    decreases a.len(),
{
    if a.len() == 0 {
        assert(a + b =~= b);
        assert(data_about(key, dir, a) + data_about(key, dir, b) =~= data_about(key, dir, b));
    } else {
        lemma_data_add(key, dir, a.drop_first(), b);
        assert((a + b).drop_first() =~= a.drop_first() + b);
        assert(data_about(key, dir, a + b) =~= data_about(key, dir, a) + data_about(key, dir, b));
    }
}

proof fn lemma_data_one(key: PortKey, dir: MsgDirection, m: Msg)
    ensures
        data_about(key, dir, seq![m]) == data_in(key, dir, m),
{
    assert(seq![m].drop_first() =~= Seq::<Msg>::empty());
    assert(data_about(key, dir, seq![m].drop_first()) =~= Seq::<u8>::empty());
    assert(data_in(key, dir, m) + Seq::<u8>::empty() =~= data_in(key, dir, m));
}

/// The mapping that a connection belongs to.
pub open spec fn mapping_of(key: PortKey) -> MapKey {
    MapKey { lst_addr: key.lst_addr, dst_addr: key.dst_addr }
}

/// What an endpoint does about a message in a move, if it is told of the tunnel.
pub open spec fn action_of<H>(ep: EndpointView<H>, mv: TunnelMove<H>) -> TunnelAction {
    match mv {
        TunnelMove::Told(event) => endpoint::tunnel_step(ep, event).1,
        _ => TunnelAction::Wait,
    }
}

/// The message that a move hands to a port (or else to a mapper), if it hands one over.
pub open spec fn handed_by<H>(ep: EndpointView<H>, mv: TunnelMove<H>, to_port: bool) -> Seq<Msg> {
    match action_of(ep, mv) {
        TunnelAction::Route(RouteAction::ToPort(m)) if to_port => seq![m],
        TunnelAction::Route(RouteAction::ToMapper(m)) if !to_port => seq![m],
        _ => Seq::empty(),
    }
}

/// The messages that an endpoint hands to its ports (or else to its mappers) during
/// `moves`.
pub open spec fn handed_during<H>(
    enc: spec_fn(Msg) -> Seq<u8>,
    dec: spec_fn(Seq<u8>) -> Option<Msg>,
    ep: EndpointView<H>,
    moves: Seq<TunnelMove<H>>,
    to_port: bool,
) -> Seq<Msg>
    decreases moves.len(),
{
    if moves.len() == 0 {
        Seq::empty()
    } else {
        handed_by(ep, moves[0], to_port) + handed_during(
            enc,
            dec,
            endpoint::tunnel_move(enc, dec, ep, moves[0]),
            moves.drop_first(),
            to_port,
        )
    }
}

/// An endpoint never drops a message for the port (or else for the mapper) of this
/// connection during `moves`.
pub open spec fn drops_none<H>(
    enc: spec_fn(Msg) -> Seq<u8>,
    dec: spec_fn(Seq<u8>) -> Option<Msg>,
    ep: EndpointView<H>,
    moves: Seq<TunnelMove<H>>,
    key: PortKey,
    to_port: bool,
) -> bool
    decreases moves.len(),
{
    moves.len() > 0 ==> {
        &&& match action_of(ep, moves[0]) {
            TunnelAction::Route(RouteAction::NoPort(k)) => to_port ==> k != key,
            TunnelAction::Route(RouteAction::NoMapper(k)) => !to_port ==> k != mapping_of(key),
            _ => true,
        }
        &&& drops_none(
            enc,
            dec,
            endpoint::tunnel_move(enc, dec, ep, moves[0]),
            moves.drop_first(),
            key,
            to_port,
        )
    }
}

/// The way that messages for a port (or else for a mapper) go through the tunnel.
pub open spec fn way_in(to_port: bool) -> MsgDirection {
    if to_port {
        MsgDirection::L2D
    } else {
        MsgDirection::D2L
    }
}

/// What is routed is handed over: where no message about a connection is dropped, the
/// data that is routed is the data that is handed over, turned round.
pub proof fn law_routed_data_is_handed_over<H>(
    enc: spec_fn(Msg) -> Seq<u8>,
    dec: spec_fn(Seq<u8>) -> Option<Msg>,
    ep: EndpointView<H>,
    moves: Seq<TunnelMove<H>>,
    key: PortKey,
    to_port: bool,
)
    requires
        drops_none(enc, dec, ep, moves, key, to_port),
    ensures
        data_about(key, way_in(!to_port), handed_during(enc, dec, ep, moves, to_port))
            == data_about(
            key,
            way_in(to_port),
            endpoint::routed_during(enc, dec, ep, moves),
        ),
    decreases moves.len(),
{
    if moves.len() > 0 {
        let mv = moves[0];
        let rest = moves.drop_first();
        let next = endpoint::tunnel_move(enc, dec, ep, mv);
        law_routed_data_is_handed_over(enc, dec, next, rest, key, to_port);
        let handed = handed_by(ep, mv, to_port);
        let routed = endpoint::routed_by(ep, mv);
        lemma_data_add(
            key,
            way_in(!to_port),
            handed,
            handed_during(enc, dec, next, rest, to_port),
        );
        lemma_data_add(
            key,
            way_in(to_port),
            routed,
            endpoint::routed_during(enc, dec, next, rest),
        );
        if routed.len() > 0 {
            lemma_data_one(key, way_in(to_port), routed[0]);
            if let TunnelMove::Told(event) = mv {
                endpoint::law_tunnel_routes_what_it_has(ep, event);
            }
        }
        if handed.len() > 0 {
            lemma_data_one(key, way_in(!to_port), handed[0]);
        }
        assert(data_about(key, way_in(!to_port), handed) =~= data_about(
            key,
            way_in(to_port),
            routed,
        ));
    }
}

/// A move that leaves the port of a connection (or else its mapping) as it is: none
/// is started or added, found gone or removed.
pub open spec fn leaves_alone<H>(mv: TunnelMove<H>, key: PortKey, to_port: bool) -> bool {
    match mv {
        TunnelMove::Told(TunnelEvent::Started(addr, _)) => to_port ==> msg::port_key_of(addr)
            != key,
        TunnelMove::Told(TunnelEvent::HandedOver { addr, to_mapper, ok }) => {
            ||| ok
            ||| to_mapper == to_port
            ||| to_port && msg::port_key_of(addr) != key
            ||| to_mapper && msg::map_key_of(addr) != mapping_of(key)
        },
        TunnelMove::Asked(Some(endpoint::Ctl::Act(act)), _) => match act {
            Action::MapRm { lst_addr, dst_addr } => !to_port ==> (MapKey { lst_addr, dst_addr })
                != mapping_of(key),
            _ => true,
        },
        _ => true,
    }
}

/// An endpoint that has the port of a connection (or else its mapping) keeps it, and
/// drops no message for it, until it is found gone, removed or replaced.
pub proof fn law_known_is_reached<H>(
    enc: spec_fn(Msg) -> Seq<u8>,
    dec: spec_fn(Seq<u8>) -> Option<Msg>,
    ep: EndpointView<H>,
    moves: Seq<TunnelMove<H>>,
    key: PortKey,
    to_port: bool,
)
    requires
        if to_port {
            ep.ports.contains_key(key)
        } else {
            ep.mappers.contains_key(mapping_of(key))
        },
        forall|i: int|
            0 <= i < moves.len() ==> leaves_alone(#[trigger] moves[i], key, to_port),
    ensures
        drops_none(enc, dec, ep, moves, key, to_port),
        ({
            let after = endpoint::tunnel_after(enc, dec, ep, moves);
            if to_port {
                after.ports.contains_key(key) && after.ports[key] == ep.ports[key]
            } else {
                after.mappers.contains_key(mapping_of(key)) && after.mappers[mapping_of(key)]
                    == ep.mappers[mapping_of(key)]
            }
        }),
    decreases moves.len(),
{
    if moves.len() > 0 {
        let rest = moves.drop_first();
        let next = endpoint::tunnel_move(enc, dec, ep, moves[0]);
        assert(leaves_alone(moves[0], key, to_port));
        assert forall|i: int| 0 <= i < rest.len() implies leaves_alone(
            #[trigger] rest[i],
            key,
            to_port,
        ) by {
            assert(rest[i] == moves[i + 1]);
        }
        law_known_is_reached(enc, dec, next, rest, key, to_port);
    }
}

/// The messages that a mapper gets during `events`.
pub open spec fn mapper_received<H>(events: Seq<MapperEvent<H>>) -> Seq<Msg>
    decreases events.len(),
{
    if events.len() == 0 {
        Seq::empty()
    } else {
        let now = match events[0] {
            MapperEvent::Received(Some(m)) => seq![m],
            _ => Seq::empty(),
        };
        now + mapper_received(events.drop_first())
    }
}

/// The messages that a mapper hands to its ports during `events`.
pub open spec fn mapper_delivered<H>(
    mapper: MapperView<H>,
    events: Seq<MapperEvent<H>>,
) -> Seq<Msg>
    decreases events.len(),
{
    if events.len() == 0 {
        Seq::empty()
    } else {
        let (next, action) = mapper::mapper_step(mapper, events[0]);
        let now = match action {
            MapperAction::Deliver(m) => seq![m],
            _ => Seq::empty(),
        };
        now + mapper_delivered(next, events.drop_first())
    }
}

/// A mapper never drops a message for the port of this connection during `events`.
pub open spec fn mapper_drops_none<H>(
    mapper: MapperView<H>,
    events: Seq<MapperEvent<H>>,
    key: PortKey,
) -> bool
    decreases events.len(),
{
    events.len() > 0 ==> {
        let (next, action) = mapper::mapper_step(mapper, events[0]);
        &&& action matches MapperAction::Drop(m) ==> msg::port_key_of(m.addr) != key
        &&& mapper_drops_none(next, events.drop_first(), key)
    }
}

/// What a mapper gets it delivers: where no message about a connection is dropped, the
/// data that comes is the data that is delivered.
pub proof fn law_mapper_delivers<H>(
    mapper: MapperView<H>,
    events: Seq<MapperEvent<H>>,
    key: PortKey,
    dir: MsgDirection,
)
    requires
        mapper_drops_none(mapper, events, key),
    ensures
        data_about(key, dir, mapper_delivered(mapper, events)) == data_about(
            key,
            dir,
            mapper_received(events),
        ),
    decreases events.len(),
{
    if events.len() > 0 {
        let rest = events.drop_first();
        let (next, action) = mapper::mapper_step(mapper, events[0]);
        law_mapper_delivers(next, rest, key, dir);
        let delivered = match action {
            MapperAction::Deliver(m) => seq![m],
            _ => Seq::empty(),
        };
        let came = match events[0] {
            MapperEvent::Received(Some(m)) => seq![m],
            _ => Seq::empty(),
        };
        lemma_data_add(key, dir, delivered, mapper_delivered(next, rest));
        lemma_data_add(key, dir, came, mapper_received(rest));
        if came.len() > 0 {
            lemma_data_one(key, dir, came[0]);
        }
        assert(data_about(key, dir, delivered) =~= data_about(key, dir, came));
    }
}

/// A mapper that has the port of a connection drops no message for it, until it is
/// found gone.
pub proof fn law_known_client_is_reached<H>(
    mapper: MapperView<H>,
    events: Seq<MapperEvent<H>>,
    key: PortKey,
)
    requires
        mapper.ports.contains_key(key),
        forall|i: int|
            0 <= i < events.len() ==> (#[trigger] events[i] matches MapperEvent::Delivered(k, ok)
                ==> ok || k != key),
    ensures
        mapper_drops_none(mapper, events, key),
    decreases events.len(),
{
    if events.len() > 0 {
        let rest = events.drop_first();
        let next = mapper::mapper_step(mapper, events[0]).0;
        assert(events[0] matches MapperEvent::Delivered(k, ok) ==> ok || k != key);
        assert forall|i: int| 0 <= i < rest.len() implies (
        #[trigger] rest[i] matches MapperEvent::Delivered(k, ok) ==> ok || k != key) by {
            assert(rest[i] == events[i + 1]);
        }
        law_known_client_is_reached(next, rest, key);
    }
}

/// The data of a connection crosses the tunnel in order: what is routed at the far
/// endpoint is a beginning of what the near endpoint was given, if the connection is
/// new; and it is all of it when nothing is left on the way.
pub proof fn law_data_crosses_the_tunnel<H>(
    enc: spec_fn(Msg) -> Seq<u8>,
    dec: spec_fn(Seq<u8>) -> Option<Msg>,
    way: Way<H>,
    key: PortKey,
    dir: MsgDirection,
)
    requires
        way.works(enc, dec),
        data_about(key, dir, way.waiting()).len() == 0,
    ensures
        data_about(key, dir, way.routed(enc, dec)).is_prefix_of(data_about(key, dir, way.added())),
        way.is_clear(enc, dec) ==> data_about(key, dir, way.routed(enc, dec)) == data_about(
            key,
            dir,
            way.added(),
        ),
{
    law_messages_cross_the_tunnel(enc, dec, way);
    let routed = way.routed(enc, dec);
    let bound = way.bound();
    let rest = bound.skip(routed.len() as int);
    assert(bound =~= way.waiting() + way.added());
    lemma_data_add(key, dir, way.waiting(), way.added());
    assert(data_about(key, dir, bound) =~= data_about(key, dir, way.added()));
    assert(routed + rest =~= bound);
    lemma_data_add(key, dir, routed, rest);
    let part = data_about(key, dir, routed);
    assert((part + data_about(key, dir, rest)).subrange(0, part.len() as int) =~= part);
}

/// What goes in at the client's end comes out at the destination's: the bytes that
/// the destination's socket took, and those that wait for it, are a beginning of those
/// that the client's socket gave; and they are all of them when nothing is left on
/// the way.
///
/// The connection is new, the two endpoints get and give its data in order (the
/// near one from the client's port, the far one to the destination's port), and no
/// message for the destination's port is dropped (see `law_known_is_reached`).
pub proof fn law_bytes_go_there<H>(
    enc: spec_fn(Msg) -> Seq<u8>,
    dec: spec_fn(Seq<u8>) -> Option<Msg>,
    way: Way<H>,
    key: PortKey,
    client: PortView,
    client_events: Seq<PortEvent>,
    dst: EndView,
    dst_events: Seq<PortEvent>,
)
    requires
        way.works(enc, dec),
        data_about(key, MsgDirection::L2D, way.waiting()).len() == 0,
        data_about(key, MsgDirection::L2D, way.added()).is_prefix_of(
            port::port_bytes_sent(client, client_events),
        ),
        drops_none(enc, dec, way.far, way.far_moves, key, true),
        port::bytes_received(dst_events).is_prefix_of(
            data_about(
                key,
                MsgDirection::D2L,
                handed_during(enc, dec, way.far, way.far_moves, true),
            ),
        ),
        dst.data == queue::data_empty(),
        port::events_fit(dst.data, dst_events),
    ensures
        ({
            let out = port::bytes_written(dst.data, dst_events) + queue::data_pending(
                port::end_after(dst, dst_events).data,
            );
            &&& out.is_prefix_of(port::bytes_read(client_events))
            &&& way.is_clear(enc, dec) && data_about(key, MsgDirection::L2D, way.added())
                == port::port_bytes_sent(client, client_events) && port::bytes_received(dst_events)
                == data_about(
                key,
                MsgDirection::D2L,
                handed_during(enc, dec, way.far, way.far_moves, true),
            ) ==> out == port::bytes_read(client_events)
        }),
{
    let dst_as_port = PortView { end: dst, can_read: true };
    law_data_crosses_the_tunnel(enc, dec, way, key, MsgDirection::L2D);
    law_routed_data_is_handed_over(enc, dec, way.far, way.far_moves, key, true);
    port::law_reads_are_sent(client, client_events);
    port::law_port_data_after(dst_as_port, dst_events);
    port::law_bytes_pass_in_order(dst.data, dst_events);
    let none = queue::data_pending(queue::data_empty());
    assert(none =~= Seq::<u8>::empty());
    assert(none + port::bytes_received(dst_events) =~= port::bytes_received(dst_events));
}

/// What goes in at the destination's end comes out at the client's: the bytes that
/// the client's socket took, and those that wait for it, are a beginning of those
/// that the destination's socket gave; and they are all of them when nothing is left
/// on the way.
///
/// Here the near endpoint is the destination's. The connection is new, the parties
/// get and give its data in order (the near endpoint from the destination's port,
/// the far one to the mapper, the mapper to the client's port), and no message for
/// the client is dropped (see `law_known_is_reached`, `law_known_client_is_reached`).
pub proof fn law_bytes_come_back<H>(
    enc: spec_fn(Msg) -> Seq<u8>,
    dec: spec_fn(Seq<u8>) -> Option<Msg>,
    way: Way<H>,
    key: PortKey,
    dst: EndView,
    dst_events: Seq<PortEvent>,
    mapper: MapperView<H>,
    mapper_events: Seq<MapperEvent<H>>,
    client: PortView,
    client_events: Seq<PortEvent>,
)
    requires
        way.works(enc, dec),
        data_about(key, MsgDirection::D2L, way.waiting()).len() == 0,
        data_about(key, MsgDirection::D2L, way.added()).is_prefix_of(
            port::end_bytes_sent(dst, dst_events),
        ),
        drops_none(enc, dec, way.far, way.far_moves, key, false),
        data_about(key, MsgDirection::L2D, mapper_received(mapper_events)).is_prefix_of(
            data_about(
                key,
                MsgDirection::L2D,
                handed_during(enc, dec, way.far, way.far_moves, false),
            ),
        ),
        mapper_drops_none(mapper, mapper_events, key),
        port::bytes_received(client_events).is_prefix_of(
            data_about(key, MsgDirection::L2D, mapper_delivered(mapper, mapper_events)),
        ),
        client.end.data == queue::data_empty(),
        port::events_fit(client.end.data, client_events),
    ensures
        ({
            let out = port::bytes_written(client.end.data, client_events) + queue::data_pending(
                port::port_after(client, client_events).end.data,
            );
            &&& out.is_prefix_of(port::bytes_read(dst_events))
            &&& way.is_clear(enc, dec) && data_about(key, MsgDirection::D2L, way.added())
                == port::end_bytes_sent(dst, dst_events) && data_about(
                key,
                MsgDirection::L2D,
                mapper_received(mapper_events),
            ) == data_about(
                key,
                MsgDirection::L2D,
                handed_during(enc, dec, way.far, way.far_moves, false),
            ) && port::bytes_received(client_events) == data_about(
                key,
                MsgDirection::L2D,
                mapper_delivered(mapper, mapper_events),
            ) ==> out == port::bytes_read(dst_events)
        }),
{
    law_data_crosses_the_tunnel(enc, dec, way, key, MsgDirection::D2L);
    law_routed_data_is_handed_over(enc, dec, way.far, way.far_moves, key, false);
    law_mapper_delivers(mapper, mapper_events, key, MsgDirection::L2D);
    port::law_reads_are_sent(PortView { end: dst, can_read: true }, dst_events);
    port::law_port_data_after(client, client_events);
    port::law_bytes_pass_in_order(client.end.data, client_events);
    let none = queue::data_pending(queue::data_empty());
    assert(none =~= Seq::<u8>::empty());
    assert(none + port::bytes_received(client_events) =~= port::bytes_received(client_events));
}

} // verus!
