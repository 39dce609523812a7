use superworm::addr::{SocketAddr, SocketAddrV4};
use superworm::cli::Action;
use superworm::endpoint::{Endpoint, RouteAction, TunnelAction, TunnelEvent};
use superworm::error::Error;
use superworm::hole::Hole;
use superworm::mapper::{MapperAction, MapperEvent, PortMapper};
use superworm::msg::{
    AddrPair, Msg, MsgCtx, MsgDirection, MsgType, ReadAction, ReadEvent, WriteAction, WriteEvent,
};
use superworm::port::{DstPort, Port, PortAction, PortEvent};

fn at(port: u16) -> SocketAddr {
    SocketAddr::V4(SocketAddrV4 { ip: 0x7f00_0001, port })
}

fn pair(local: u16) -> AddrPair {
    AddrPair { local_addr: at(local), lst_addr: at(2), remap_addr: at(9), dst_addr: at(3) }
}

/// The client's port, the direction, the kind, and the data.
fn encode(m: &Msg) -> Vec<u8> {
    let local = match m.addr.local_addr {
        SocketAddr::V4(a) => a.port,
        other => panic!("unexpected {:?}", other),
    };
    let mut bytes = local.to_be_bytes().to_vec();
    bytes.push(if m.dir == MsgDirection::L2D { 0 } else { 1 });
    match &m.typ {
        MsgType::MapConnecting => bytes.push(0),
        MsgType::MapConnected => bytes.push(1),
        MsgType::MapDisconnect => bytes.push(2),
        MsgType::MapData(data) => {
            bytes.push(3);
            bytes.extend_from_slice(data);
        }
    }
    bytes
}

fn decode(bytes: &[u8]) -> Option<Msg> {
    let addr = pair(u16::from_be_bytes([bytes[0], bytes[1]]));
    let dir = if bytes[2] == 0 { MsgDirection::L2D } else { MsgDirection::D2L };
    let typ = match bytes[3] {
        0 => MsgType::MapConnecting,
        1 => MsgType::MapConnected,
        2 => MsgType::MapDisconnect,
        _ => MsgType::MapData(bytes[4..].to_vec()),
    };
    Some(Msg { addr, dir, typ })
}

/// Writes one frame to `wire` as far as `step` goes.
fn write_some(ctx: &mut MsgCtx<Msg, Msg>, wire: &mut Vec<u8>, step: usize) {
    let mut event = WriteEvent::Ready;
    loop {
        event = match ctx.handle_write(event) {
            WriteAction::Encode => WriteEvent::Encoded(ctx.tx_front().map(encode)),
            WriteAction::TryWrite => {
                let k = step.min(ctx.tx_bytes().len());
                wire.extend_from_slice(&ctx.tx_bytes()[..k]);
                WriteEvent::Wrote(Ok(k))
            }
            WriteAction::Done(r) => return assert_eq!(r, Ok(())),
        };
    }
}

/// Reads a frame from `wire`, or as much as there is, at most `step` bytes at a time.
fn read_some(ctx: &mut MsgCtx<Msg, Msg>, wire: &mut Vec<u8>, step: usize) -> Result<(), Error> {
    let mut event = ReadEvent::Ready;
    loop {
        event = match ctx.handle_read(event) {
            ReadAction::TryRead(_) if wire.is_empty() => ReadEvent::Read(Err(Error::WouldBlock)),
            ReadAction::TryRead(n) => {
                let k = n.min(step).min(wire.len());
                ReadEvent::Read(Ok(wire.drain(..k).collect()))
            }
            ReadAction::Decode(payload) => ReadEvent::Decoded(decode(&payload)),
            ReadAction::Done(r) => return r,
        };
    }
}

/// One way through the tunnel: two sockets, and the relay between them.
struct Way {
    first_wire: Vec<u8>,
    from: Hole,
    channel: Vec<Msg>,
    to: Hole,
    second_wire: Vec<u8>,
}

fn way() -> Way {
    Way {
        first_wire: Vec::new(),
        from: Hole::new(),
        channel: Vec::new(),
        to: Hole::new(),
        second_wire: Vec::new(),
    }
}

/// Lets everything go one step further, in pieces of at most `step` bytes, and gives
/// what the far endpoint is told.
fn advance(
    near: &mut Endpoint<u32>,
    way: &mut Way,
    far: &mut Endpoint<u32>,
    step: usize,
) -> TunnelEvent<u32> {
    write_some(near.msg_ctx_mut(), &mut way.first_wire, step);
    let _ = read_some(&mut way.from.msg_ctx, &mut way.first_wire, step);
    if let Some(m) = way.from.handle_msg_send() {
        way.channel.push(m);
    }
    if !way.channel.is_empty() {
        let m = way.channel.remove(0);
        way.to.handle_msg_recv(m);
    }
    write_some(&mut way.to.msg_ctx, &mut way.second_wire, step);
    TunnelEvent::Read(read_some(far.msg_ctx_mut(), &mut way.second_wire, step))
}

fn msg(local: u16, typ: MsgType) -> Msg {
    Msg { addr: pair(local), dir: MsgDirection::L2D, typ }
}

#[test]
fn messages_cross_the_tunnel_in_order() {
    for step in [1, 3, 8, 1000] {
        let mut near: Endpoint<u32> = Endpoint::new();
        let mut far: Endpoint<u32> = Endpoint::new();
        let mut way = way();
        for local in 1..5 {
            near.handle_port_msg(Some(msg(local, MsgType::MapConnecting)));
            near.handle_port_msg(Some(msg(local, MsgType::MapData(vec![local as u8; 5]))));
        }
        near.handed_over(pair(7), false, false);
        let mut routed = Vec::new();
        for _ in 0..400 {
            let event = advance(&mut near, &mut way, &mut far, step);
            let mut action = far.tunnel(event);
            while let TunnelAction::Route(what) = action {
                let event = match what {
                    RouteAction::Connect(addr) => {
                        routed.push((addr.local_addr, Vec::new()));
                        TunnelEvent::Started(addr, 20)
                    }
                    RouteAction::ToPort(m) => {
                        let addr = m.addr;
                        match m.typ {
                            MsgType::MapData(data) => routed.push((addr.local_addr, data)),
                            other => panic!("unexpected {:?}", other),
                        }
                        TunnelEvent::HandedOver { addr, to_mapper: false, ok: true }
                    }
                    RouteAction::NoMapper(key) => {
                        routed.push((key.lst_addr, vec![0]));
                        TunnelEvent::Dropped
                    }
                    other => panic!("unexpected {:?}", other),
                };
                action = far.tunnel(event);
            }
        }
        let mut expected = Vec::new();
        for local in 1..5 {
            expected.push((at(local), Vec::new()));
            expected.push((at(local), vec![local as u8; 5]));
        }
        expected.push((at(2), vec![0]));
        assert_eq!(routed, expected);
        assert!(!near.msg_ctx().need_to_write());
        assert!(!way.to.should_write());
    }
}

/// Lets the far port write what it has, and gives the bytes.
fn drain_dst(dst: &mut DstPort) -> Vec<u8> {
    let mut out = Vec::new();
    while dst.wants_write() {
        if let PortAction::Write = dst.handle(PortEvent::Writable) {
            out.push(dst.unwritten()[0]);
            assert!(matches!(dst.handle(PortEvent::Wrote(Ok(1))), PortAction::Wait));
        }
    }
    out
}

/// Lets the client's port write what it has, and gives the bytes.
fn drain_client(client: &mut Port) -> Vec<u8> {
    let mut out = Vec::new();
    while client.wants_write() {
        if let PortAction::Write = client.handle(PortEvent::Writable) {
            out.push(client.unwritten()[0]);
            assert!(matches!(client.handle(PortEvent::Wrote(Ok(1))), PortAction::Wait));
        }
    }
    out
}

fn sent(action: PortAction) -> Msg {
    match action {
        PortAction::Send(m) => m,
        other => panic!("unexpected {:?}", other),
    }
}

#[test]
fn bytes_go_there_and_come_back() {
    let mut near: Endpoint<u32> = Endpoint::new();
    let mut far: Endpoint<u32> = Endpoint::new();
    let (mut there, mut back) = (way(), way());
    let add = Action::MapAdd { lst_addr: at(2), dst_addr: at(3) };
    let mut mapper: PortMapper<u32> = near.handle_action(add, 10).start.unwrap();
    assert!(matches!(mapper.run(MapperEvent::Accepted(Some((at(1), 30)))), MapperAction::Open(_)));
    let (mut client, wish) = Port::open(at(2), at(1), at(3));
    near.handle_port_msg(Some(sent(wish)));
    let mut dst: Option<DstPort> = None;
    let (mut came_out, mut came_back) = (Vec::new(), Vec::new());
    let mut to_read: Vec<u8> = (0..20).collect();
    for _ in 0..600 {
        // The client's socket gives up to three bytes at a time.
        if client.wants_read() && !to_read.is_empty() {
            let k = to_read.len().min(3);
            let data: Vec<u8> = to_read.drain(..k).collect();
            near.handle_port_msg(Some(sent(client.handle(PortEvent::Read(Ok(data))))));
        }
        // At the destination's side; the destination sends everything back.
        let event = advance(&mut near, &mut there, &mut far, 7);
        let mut action = far.tunnel(event);
        while let TunnelAction::Route(what) = action {
            let event = match what {
                RouteAction::Connect(addr) => {
                    let (port, word) = DstPort::connect(addr, Some(at(9)));
                    dst = Some(port);
                    far.handle_port_msg(Some(sent(word)));
                    TunnelEvent::Started(addr, 20)
                }
                RouteAction::ToPort(m) => {
                    let addr = m.addr;
                    let port = dst.as_mut().unwrap();
                    assert!(matches!(port.handle(PortEvent::Received(Some(m))), PortAction::Wait));
                    let out = drain_dst(port);
                    came_out.extend_from_slice(&out);
                    far.handle_port_msg(Some(sent(port.handle(PortEvent::Read(Ok(out))))));
                    TunnelEvent::HandedOver { addr, to_mapper: false, ok: true }
                }
                other => panic!("unexpected {:?}", other),
            };
            action = far.tunnel(event);
        }
        // At the client's side.
        let event = advance(&mut far, &mut back, &mut near, 5);
        let mut action = near.tunnel(event);
        while let TunnelAction::Route(what) = action {
            let event = match what {
                RouteAction::ToMapper(m) => {
                    let addr = m.addr;
                    match mapper.run(MapperEvent::Received(Some(m))) {
                        MapperAction::Deliver(m) => {
                            let action = client.handle(PortEvent::Received(Some(m)));
                            assert!(matches!(action, PortAction::Wait));
                        }
                        other => panic!("unexpected {:?}", other),
                    }
                    came_back.extend(drain_client(&mut client));
                    TunnelEvent::HandedOver { addr, to_mapper: true, ok: true }
                }
                other => panic!("unexpected {:?}", other),
            };
            action = near.tunnel(event);
        }
    }
    let all: Vec<u8> = (0..20).collect();
    assert_eq!(came_out, all);
    assert_eq!(came_back, all);
}
