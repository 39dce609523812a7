use superworm::addr::{SocketAddr, SocketAddrV4};
use superworm::cli::{cli, Action, Cli, CliAction, CliEvent};
use superworm::endpoint::{
    Ctl, CtlAction, CtlEvent, CtlRsp, CtlServer, Endpoint, RouteAction, TunnelAction, TunnelEvent,
};
use superworm::error::Error;
use superworm::hole::{after_io, connect, hole, ConnectAction, Hole, HoleAction};
use superworm::mapper::{MapperAction, MapperEvent, PortMapper};
use superworm::msg::{
    AddrPair, Msg, MsgDirection, MsgType, ReadAction, ReadEvent, WriteAction, WriteEvent,
};
use superworm::port::{DstPort, Port, PortAction, PortEvent};
use superworm::table::{MapKey, PortKey, Table};

fn at(port: u16) -> SocketAddr {
    SocketAddr::V4(SocketAddrV4 { ip: 0x7f00_0001, port })
}

fn pair(local: u16) -> AddrPair {
    AddrPair { local_addr: at(local), lst_addr: at(2), remap_addr: at(9), dst_addr: at(3) }
}

fn msg(local: u16, dir: MsgDirection, typ: MsgType) -> Msg {
    Msg { addr: pair(local), dir, typ }
}

fn add(lst: u16, dst: u16) -> Action {
    Action::MapAdd { lst_addr: at(lst), dst_addr: at(dst) }
}

fn rm(lst: u16, dst: u16) -> Action {
    Action::MapRm { lst_addr: at(lst), dst_addr: at(dst) }
}

fn told(rsp: Option<CtlRsp>) -> (i32, String) {
    match rsp {
        Some(CtlRsp::Msg(code, s)) => (code, s),
        other => panic!("unexpected {:?}", other),
    }
}

fn listed(ep: &mut Endpoint<u32>) -> Vec<(SocketAddr, SocketAddr)> {
    match ep.handle_action(Action::MapLs, 0).rsp {
        Some(CtlRsp::MapLs(maps)) => maps,
        other => panic!("unexpected {:?}", other),
    }
}

/// Lets `m` come through the tunnel.
fn arrive(ep: &mut Endpoint<u32>, m: Msg) -> RouteAction {
    let _ = ep.msg_ctx_mut().handle_read(ReadEvent::Decoded(Some(m)));
    ep.handle_msgs()
}

#[test]
fn table_keeps_one_entry_for_a_key() {
    let mut t: Table<MapKey, u32> = Table::new();
    let k = MapKey { lst_addr: at(1), dst_addr: at(2) };
    let other = MapKey { lst_addr: at(2), dst_addr: at(1) };
    t.insert(k, 5);
    t.insert(other, 6);
    t.insert(k, 7);
    assert_eq!(t.get(&k), Some(&7));
    assert_eq!(t.get(&other), Some(&6));
    assert_eq!(t.keys().len(), 2);
    t.remove(&k);
    assert!(!t.contains_key(&k));
    assert!(t.contains_key(&other));
    t.remove(&k);
    assert_eq!(t.keys(), vec![other]);
}

#[test]
fn map_is_added_listed_and_removed() {
    let mut ep: Endpoint<u32> = Endpoint::new();
    assert!(listed(&mut ep).is_empty());
    let answer = ep.handle_action(add(2, 3), 10);
    assert_eq!(told(answer.rsp), (0, "MapAdd successfully".to_string()));
    assert_eq!(answer.start.unwrap().lst_addr(), at(2));
    assert_eq!(ep.mapper(&pair(1)), Some(&10));
    let _ = ep.handle_action(add(2, 4), 11);
    let mut maps = listed(&mut ep);
    maps.sort_by_key(|m| m.1 == at(4));
    assert_eq!(maps, vec![(at(2), at(3)), (at(2), at(4))]);
    let answer = ep.handle_action(rm(2, 3), 12);
    assert_eq!(told(answer.rsp), (0, "MapRm successfully".to_string()));
    assert!(answer.start.is_none());
    assert_eq!(listed(&mut ep), vec![(at(2), at(4))]);
}

#[test]
fn map_cannot_be_added_twice() {
    let mut ep: Endpoint<u32> = Endpoint::new();
    let _ = ep.handle_action(add(2, 3), 10);
    let answer = ep.handle_action(add(2, 3), 11);
    assert_eq!(told(answer.rsp), (1, "map 127.0.0.1:2<=>127.0.0.1:3 exist".to_string()));
    assert!(answer.start.is_none());
    assert_eq!(ep.mapper(&pair(1)), Some(&10));
}

#[test]
fn unknown_map_can_be_removed() {
    let mut ep: Endpoint<u32> = Endpoint::new();
    assert_eq!(told(ep.handle_action(rm(7, 8), 0).rsp).0, 0);
}

#[test]
fn loading_and_dumping_are_refused() {
    let mut ep: Endpoint<u32> = Endpoint::new();
    let _ = ep.handle_action(add(2, 3), 10);
    let answer = ep.handle_action(Action::MapDump, 0);
    assert_eq!(told(answer.rsp), (1, "MapDump not supported".to_string()));
    assert!(answer.start.is_none());
    let answer = ep.handle_action(Action::MapLoad { map_file: "maps".to_string() }, 0);
    assert_eq!(told(answer.rsp), (1, "MapLoad not supported".to_string()));
    assert!(answer.start.is_none());
    assert_eq!(listed(&mut ep), vec![(at(2), at(3))]);
}

#[test]
fn requests_end_with_their_source() {
    let mut ep: Endpoint<u32> = Endpoint::new();
    let answer = ep.handle_ctl(Some(Ctl::Act(add(2, 3))), 10);
    assert_eq!(told(answer.rsp).0, 0);
    assert!(ep.wants_ctl());
    assert!(ep.handle_ctl(None, 11).rsp.is_none());
    assert!(!ep.wants_ctl());
    assert!(ep.wants_port_msgs());
    ep.handle_port_msg(Some(msg(1, MsgDirection::L2D, MsgType::MapConnecting)));
    assert!(ep.msg_ctx().need_to_write());
    ep.handle_port_msg(None);
    assert!(!ep.wants_port_msgs());
}

#[test]
fn wish_to_connect_starts_a_port() {
    let mut ep: Endpoint<u32> = Endpoint::new();
    assert!(matches!(ep.handle_msgs(), RouteAction::Idle));
    match arrive(&mut ep, msg(1, MsgDirection::L2D, MsgType::MapConnecting)) {
        RouteAction::Connect(addr) => ep.port_started(addr, 20),
        other => panic!("unexpected {:?}", other),
    }
    match arrive(&mut ep, msg(1, MsgDirection::L2D, MsgType::MapData(vec![1]))) {
        RouteAction::ToPort(m) => {
            assert_eq!(ep.port(&m.addr), Some(&20));
            assert_eq!(m.dir, MsgDirection::D2L);
            assert_eq!(m.addr, pair(1));
            assert!(matches!(m.typ, MsgType::MapData(d) if d == vec![1]));
        }
        other => panic!("unexpected {:?}", other),
    }
    match arrive(&mut ep, msg(5, MsgDirection::L2D, MsgType::MapData(vec![1]))) {
        RouteAction::NoPort(key) => assert_eq!(key.local_addr, at(5)),
        other => panic!("unexpected {:?}", other),
    }
}

#[test]
fn reply_goes_to_the_mapper() {
    let mut ep: Endpoint<u32> = Endpoint::new();
    match arrive(&mut ep, msg(1, MsgDirection::D2L, MsgType::MapConnected)) {
        RouteAction::NoMapper(key) => {
            assert_eq!(key, MapKey { lst_addr: at(2), dst_addr: at(3) })
        }
        other => panic!("unexpected {:?}", other),
    }
    let _ = ep.handle_action(add(2, 3), 10);
    match arrive(&mut ep, msg(1, MsgDirection::D2L, MsgType::MapConnected)) {
        RouteAction::ToMapper(m) => {
            assert_eq!(ep.mapper(&m.addr), Some(&10));
            assert_eq!(m.dir, MsgDirection::L2D);
        }
        other => panic!("unexpected {:?}", other),
    }
}

#[test]
fn messages_are_routed_in_order() {
    let mut ep: Endpoint<u32> = Endpoint::new();
    let ctx = ep.msg_ctx_mut();
    for local in [1, 2, 3] {
        let m = msg(local, MsgDirection::L2D, MsgType::MapConnecting);
        let _ = ctx.handle_read(ReadEvent::Decoded(Some(m)));
    }
    for local in [1, 2, 3] {
        match ep.handle_msgs() {
            RouteAction::Connect(addr) => assert_eq!(addr.local_addr, at(local)),
            other => panic!("unexpected {:?}", other),
        }
    }
    assert!(matches!(ep.handle_msgs(), RouteAction::Idle));
}

#[test]
fn gone_mapper_and_port_are_forgotten() {
    let mut ep: Endpoint<u32> = Endpoint::new();
    let _ = ep.handle_action(add(2, 3), 10);
    ep.port_started(pair(1), 20);
    ep.port_started(pair(2), 21);
    ep.mapper_gone(pair(1));
    assert_eq!(ep.mapper(&pair(1)), None);
    let m = ep.msg_ctx().tx_front().unwrap();
    assert!(matches!(m.typ, MsgType::MapDisconnect));
    assert_eq!(m.dir, MsgDirection::D2L);
    assert_eq!(m.addr, pair(1));
    ep.port_gone(pair(1));
    assert_eq!(ep.port(&pair(1)), None);
    assert_eq!(ep.port(&pair(2)), Some(&21));
    assert!(matches!(
        arrive(&mut ep, msg(1, MsgDirection::L2D, MsgType::MapDisconnect)),
        RouteAction::NoPort(_)
    ));
}

/// Lets messages come through the tunnel, and leaves them lying.
fn pile(ep: &mut Endpoint<u32>, msgs: Vec<Msg>) {
    for m in msgs {
        let _ = ep.msg_ctx_mut().handle_read(ReadEvent::Decoded(Some(m)));
    }
}

#[test]
fn tunnel_routes_until_nothing_is_left() {
    let mut ep: Endpoint<u32> = Endpoint::new();
    let _ = ep.handle_action(add(2, 3), 10);
    pile(
        &mut ep,
        vec![
            msg(1, MsgDirection::L2D, MsgType::MapConnecting),
            msg(1, MsgDirection::L2D, MsgType::MapData(vec![1])),
            msg(1, MsgDirection::D2L, MsgType::MapConnected),
            msg(5, MsgDirection::L2D, MsgType::MapDisconnect),
        ],
    );
    match ep.tunnel(TunnelEvent::Read(Ok(()))) {
        TunnelAction::Route(RouteAction::Connect(addr)) => assert_eq!(addr, pair(1)),
        other => panic!("unexpected {:?}", other),
    }
    match ep.tunnel(TunnelEvent::Started(pair(1), 20)) {
        TunnelAction::Route(RouteAction::ToPort(m)) => assert_eq!(ep.port(&m.addr), Some(&20)),
        other => panic!("unexpected {:?}", other),
    }
    match ep.tunnel(TunnelEvent::HandedOver { addr: pair(1), to_mapper: false, ok: true }) {
        TunnelAction::Route(RouteAction::ToMapper(m)) => assert_eq!(ep.mapper(&m.addr), Some(&10)),
        other => panic!("unexpected {:?}", other),
    }
    match ep.tunnel(TunnelEvent::HandedOver { addr: pair(1), to_mapper: true, ok: true }) {
        TunnelAction::Route(RouteAction::NoPort(key)) => assert_eq!(key.local_addr, at(5)),
        other => panic!("unexpected {:?}", other),
    }
    assert!(matches!(ep.tunnel(TunnelEvent::Dropped), TunnelAction::Wait));
    assert!(!ep.msg_ctx().need_to_write());
}

#[test]
fn tunnel_outlives_its_connection() {
    let mut ep: Endpoint<u32> = Endpoint::new();
    pile(&mut ep, vec![msg(1, MsgDirection::L2D, MsgType::MapConnecting)]);
    assert!(matches!(ep.tunnel(TunnelEvent::Wrote(Ok(()))), TunnelAction::Wait));
    let failed = Err(Error::WouldBlock);
    assert!(matches!(ep.tunnel(TunnelEvent::Read(failed)), TunnelAction::Wait));
    assert!(matches!(ep.tunnel(TunnelEvent::Wrote(failed)), TunnelAction::Wait));
    // A failed write leaves the message lying.
    let failed = Err(Error::Io(32));
    assert!(matches!(ep.tunnel(TunnelEvent::Wrote(failed)), TunnelAction::Accept));
    assert!(ep.msg_ctx().have_rx_msg());
    // After a failed read it is routed, on a new connection.
    let failed = Err(Error::Other);
    assert!(matches!(ep.tunnel(TunnelEvent::Read(failed)), TunnelAction::AcceptAndRoute));
    assert!(ep.msg_ctx().have_rx_msg());
    assert!(matches!(
        ep.tunnel(TunnelEvent::Accepted),
        TunnelAction::Route(RouteAction::Connect(_))
    ));
}

#[test]
fn tunnel_forgets_the_frame_it_was_reading() {
    let mut ep: Endpoint<u32> = Endpoint::new();
    let header = 9u64.to_be_bytes().to_vec();
    let asked = ep.msg_ctx_mut().handle_read(ReadEvent::Read(Ok(header)));
    assert!(matches!(asked, ReadAction::TryRead(9)));
    assert!(matches!(
        ep.tunnel(TunnelEvent::Read(Err(Error::ReadZero))),
        TunnelAction::AcceptAndRoute
    ));
    let asked = ep.msg_ctx_mut().handle_read(ReadEvent::Ready);
    assert!(matches!(asked, ReadAction::TryRead(8)));
}

#[test]
fn one_who_takes_nothing_is_forgotten() {
    let mut ep: Endpoint<u32> = Endpoint::new();
    let _ = ep.handle_action(add(2, 3), 10);
    ep.port_started(pair(1), 20);
    ep.handed_over(pair(1), true, true);
    ep.handed_over(pair(1), false, true);
    assert_eq!(ep.mapper(&pair(1)), Some(&10));
    assert_eq!(ep.port(&pair(1)), Some(&20));
    assert!(!ep.msg_ctx().need_to_write());
    ep.handed_over(pair(1), true, false);
    assert_eq!(ep.mapper(&pair(1)), None);
    assert_eq!(ep.port(&pair(1)), Some(&20));
    let m = ep.msg_ctx().tx_front().unwrap();
    assert!(matches!(m.typ, MsgType::MapDisconnect));
    assert_eq!(m.dir, MsgDirection::D2L);
    assert!(matches!(
        ep.tunnel(TunnelEvent::HandedOver { addr: pair(1), to_mapper: false, ok: false }),
        TunnelAction::Wait
    ));
    assert_eq!(ep.port(&pair(1)), None);
}

#[test]
fn mapper_hands_messages_to_its_ports() {
    let mut mapper: PortMapper<u32> = PortMapper::new(at(2), at(3));
    assert!(matches!(mapper.run(MapperEvent::Bound(true)), MapperAction::Wait));
    let key = PortKey { lst_addr: at(2), dst_addr: at(3), local_addr: at(1) };
    match mapper.run(MapperEvent::Accepted(Some((at(1), 30)))) {
        MapperAction::Open(k) => assert_eq!(k, key),
        other => panic!("unexpected {:?}", other),
    }
    let m = msg(1, MsgDirection::L2D, MsgType::MapConnected);
    match mapper.run(MapperEvent::Received(Some(m))) {
        MapperAction::Deliver(m) => assert_eq!(mapper.port(&m.addr.port_key()), Some(&30)),
        other => panic!("unexpected {:?}", other),
    }
    let m = msg(7, MsgDirection::L2D, MsgType::MapConnected);
    assert!(matches!(mapper.run(MapperEvent::Received(Some(m))), MapperAction::Drop(_)));
    assert!(matches!(mapper.run(MapperEvent::Delivered(key, true)), MapperAction::Wait));
    assert_eq!(mapper.port(&key), Some(&30));
    assert!(matches!(mapper.run(MapperEvent::Delivered(key, false)), MapperAction::Wait));
    assert_eq!(mapper.port(&key), None);
}

#[test]
fn mapper_ends_when_it_cannot_go_on() {
    let mut mapper: PortMapper<u32> = PortMapper::new(at(2), at(3));
    assert!(matches!(mapper.run(MapperEvent::Bound(false)), MapperAction::Stop));
    assert!(matches!(mapper.run(MapperEvent::Accepted(None)), MapperAction::Stop));
    assert!(matches!(mapper.run(MapperEvent::Received(None)), MapperAction::Stop));
}

#[test]
fn requests_are_put_one_by_one() {
    let mut server = CtlServer::new();
    let _ = server.msg_ctx.handle_read(ReadEvent::Decoded(Some(Ctl::Act(add(2, 3)))));
    let _ = server.msg_ctx.handle_read(ReadEvent::Decoded(Some(Ctl::Act(Action::MapLs))));
    match server.handle_cli(CtlEvent::Read(Ok(()))) {
        CtlAction::Ask(Ctl::Act(Action::MapAdd { lst_addr, .. })) => assert_eq!(lst_addr, at(2)),
        other => panic!("unexpected {:?}", other),
    }
    match server.handle_cli(CtlEvent::Answered(CtlRsp::Msg(0, "done".to_string()))) {
        CtlAction::Ask(Ctl::Act(Action::MapLs)) => {}
        other => panic!("unexpected {:?}", other),
    }
    assert!(matches!(
        server.handle_cli(CtlEvent::Answered(CtlRsp::MapLs(Vec::new()))),
        CtlAction::Wait
    ));
    assert!(matches!(server.msg_ctx.tx_front(), Some(CtlRsp::Msg(0, _))));
}

#[test]
fn conversation_outlives_its_connection() {
    let mut server = CtlServer::new();
    let _ = server.msg_ctx.handle_read(ReadEvent::Decoded(Some(Ctl::Act(Action::MapLs))));
    assert!(matches!(
        server.handle_cli(CtlEvent::Read(Err(Error::WouldBlock))),
        CtlAction::Wait
    ));
    assert!(matches!(
        server.handle_cli(CtlEvent::Read(Err(Error::ReadZero))),
        CtlAction::AcceptAndAsk
    ));
    assert!(matches!(server.handle_cli(CtlEvent::Accepted), CtlAction::Ask(_)));
    assert!(matches!(server.handle_cli(CtlEvent::Wrote(Ok(()))), CtlAction::Wait));
    assert!(matches!(server.handle_cli(CtlEvent::Wrote(Err(Error::Io(32)))), CtlAction::Accept));
    assert!(matches!(server.handle_cli(CtlEvent::Accepted), CtlAction::Wait));
}

#[test]
fn answers_are_sent_in_the_order_of_requests() {
    let mut server = CtlServer::new();
    for lst in [1, 2, 3] {
        let _ = server.msg_ctx.handle_read(ReadEvent::Decoded(Some(Ctl::Act(add(lst, 9)))));
    }
    // The connection is lost before any is put.
    let mut action = server.handle_cli(CtlEvent::Read(Err(Error::ReadZero)));
    let mut asked = Vec::new();
    loop {
        let event = match action {
            CtlAction::AcceptAndAsk => CtlEvent::Accepted,
            CtlAction::Ask(Ctl::Act(Action::MapAdd { lst_addr, .. })) => {
                asked.push(lst_addr);
                CtlEvent::Answered(CtlRsp::Msg(0, asked.len().to_string()))
            }
            _ => break,
        };
        action = server.handle_cli(event);
    }
    assert_eq!(asked, vec![at(1), at(2), at(3)]);
    for n in 1..4 {
        match server.msg_ctx.tx_front() {
            Some(CtlRsp::Msg(0, s)) => assert_eq!(*s, n.to_string()),
            other => panic!("unexpected {:?}", other),
        }
        let _ = server.msg_ctx.handle_write(WriteEvent::Encoded(Some(Vec::new())));
        assert_eq!(server.msg_ctx.tx_bytes().len(), 8);
        let sent = server.msg_ctx.handle_write(WriteEvent::Wrote(Ok(8)));
        assert!(matches!(sent, WriteAction::Done(Ok(()))));
    }
    assert!(!server.msg_ctx.need_to_write());
}

#[test]
fn answers_as_text() {
    assert_eq!(CtlRsp::Msg(1, "no".to_string()).to_text(), "msg: no");
    assert_eq!(CtlRsp::MapLs(Vec::new()).to_text(), "");
    assert_eq!(
        CtlRsp::MapLs(vec![(at(2), at(3)), (at(4), at(5))]).to_text(),
        "127.0.0.1:2 => 127.0.0.1:3127.0.0.1:4 => 127.0.0.1:5"
    );
}

#[test]
fn command_runs_its_course() {
    let command = Cli { cli_addr: at(1), action: Action::MapLs };
    assert!(matches!(command.request(), Ctl::Act(Action::MapLs)));
    assert!(matches!(cli(CliEvent::Connected(true)), CliAction::Send));
    assert!(matches!(cli(CliEvent::Connected(false)), CliAction::Stop));
    assert!(matches!(cli(CliEvent::Sent(Ok(()))), CliAction::Receive));
    assert!(matches!(cli(CliEvent::Sent(Err(Error::Invalid))), CliAction::Stop));
    match cli(CliEvent::Answered(Ok(CtlRsp::Msg(0, "yes".to_string())))) {
        CliAction::Print(s) => assert_eq!(s, "msg: yes"),
        other => panic!("unexpected {:?}", other),
    }
    assert!(matches!(cli(CliEvent::Answered(Err(Error::ReadZero))), CliAction::Stop));
}

#[test]
fn hole_joins_two_endpoints() {
    assert_eq!(hole(vec![at(1), at(2)]), Ok((at(1), at(2))));
    assert_eq!(hole(Vec::new()), Err("Expect 2 ep, found 0".to_string()));
    assert_eq!(hole(vec![at(1)]), Err("Expect 2 ep, found 1".to_string()));
    assert_eq!(hole(vec![at(1); 12]), Err("Expect 2 ep, found 12".to_string()));
}

#[test]
fn hole_relays_in_order() {
    let mut from = Hole::new();
    let mut to = Hole::new();
    assert!(!from.should_send());
    assert!(!to.should_write());
    for local in [1, 2, 3] {
        let m = msg(local, MsgDirection::L2D, MsgType::MapConnecting);
        let _ = from.msg_ctx.handle_read(ReadEvent::Decoded(Some(m)));
    }
    let mut channel = Vec::new();
    while from.should_send() {
        channel.push(from.handle_msg_send().unwrap());
    }
    assert!(from.handle_msg_send().is_none());
    assert_eq!(channel.iter().map(|m| m.addr.local_addr).collect::<Vec<_>>(), vec![at(1), at(2), at(3)]);
    for m in channel {
        to.handle_msg_recv(m);
    }
    assert!(to.should_write());
    assert_eq!(to.msg_ctx.tx_front().unwrap().addr.local_addr, at(1));
}

#[test]
fn hole_reconnects_after_any_failure() {
    assert_eq!(after_io(Ok(())), HoleAction::Wait);
    assert_eq!(after_io(Err(Error::WouldBlock)), HoleAction::Reconnect);
    assert_eq!(after_io(Err(Error::ReadZero)), HoleAction::Reconnect);
}

#[test]
fn hole_tries_until_it_is_connected() {
    assert_eq!(connect(true), ConnectAction::Done);
    assert_eq!(connect(false), ConnectAction::Retry(1));
}

/// A mapper takes a client, and its port's wish reaches the far endpoint.
fn knock(
    mapper: &mut PortMapper<u32>,
    far: &mut Endpoint<u32>,
) -> (Port, AddrPair) {
    let key = match mapper.run(MapperEvent::Accepted(Some((at(1), 30)))) {
        MapperAction::Open(key) => key,
        other => panic!("unexpected {:?}", other),
    };
    let (port, wish) = Port::open(key.lst_addr, key.local_addr, key.dst_addr);
    let wish = match wish {
        PortAction::Send(m) => m,
        other => panic!("unexpected {:?}", other),
    };
    match arrive(far, wish) {
        RouteAction::Connect(addr) => (port, addr),
        other => panic!("unexpected {:?}", other),
    }
}

/// A message of the far port comes back to the near mapper.
fn come_back(near: &mut Endpoint<u32>, mapper: &mut PortMapper<u32>, m: Msg) -> Msg {
    let turned = match arrive(near, m) {
        RouteAction::ToMapper(m) => m,
        other => panic!("unexpected {:?}", other),
    };
    assert_eq!(near.mapper(&turned.addr), Some(&10));
    match mapper.run(MapperEvent::Received(Some(turned))) {
        MapperAction::Deliver(m) => {
            assert_eq!(mapper.port(&m.addr.port_key()), Some(&30));
            m
        }
        other => panic!("unexpected {:?}", other),
    }
}

#[test]
fn connection_is_made() {
    let mut near: Endpoint<u32> = Endpoint::new();
    let mut far: Endpoint<u32> = Endpoint::new();
    let mut mapper = near.handle_action(add(2, 3), 10).start.unwrap();
    let (mut port, addr) = knock(&mut mapper, &mut far);
    let (_, word) = DstPort::connect(addr, Some(at(9)));
    let word = match word {
        PortAction::Send(m) => m,
        other => panic!("unexpected {:?}", other),
    };
    let m = come_back(&mut near, &mut mapper, word);
    assert!(!port.wants_read());
    assert!(matches!(port.handle(PortEvent::Received(Some(m))), PortAction::Wait));
    assert!(port.wants_read());
    match port.handle(PortEvent::Read(Ok(vec![1]))) {
        PortAction::Send(m) => assert_eq!(m.addr, pair(1)),
        other => panic!("unexpected {:?}", other),
    }
}

#[test]
fn connection_is_refused() {
    let mut near: Endpoint<u32> = Endpoint::new();
    let mut far: Endpoint<u32> = Endpoint::new();
    let mut mapper = near.handle_action(add(2, 3), 10).start.unwrap();
    let (mut port, addr) = knock(&mut mapper, &mut far);
    let (_, word) = DstPort::connect(addr, None);
    let word = match word {
        PortAction::Finish(m) => m,
        other => panic!("unexpected {:?}", other),
    };
    let m = come_back(&mut near, &mut mapper, word);
    assert!(matches!(port.handle(PortEvent::Received(Some(m))), PortAction::Stop));
}
