use superworm::addr::{SocketAddr, SocketAddrV4};
use superworm::error::Error;
use superworm::msg::{AddrPair, Msg, MsgDirection, MsgType};
use superworm::port::{DstPort, Port, PortAction, PortEvent};
use superworm::queue::DataQueue;

fn at(port: u16) -> SocketAddr {
    SocketAddr::V4(SocketAddrV4 { ip: 0x7f00_0001, port })
}

fn pair() -> AddrPair {
    AddrPair { local_addr: at(1), lst_addr: at(2), remap_addr: at(0), dst_addr: at(3) }
}

fn message(typ: MsgType) -> PortEvent {
    PortEvent::Received(Some(Msg { addr: pair(), dir: MsgDirection::L2D, typ }))
}

fn sent(action: PortAction) -> Msg {
    match action {
        PortAction::Send(m) => m,
        other => panic!("unexpected {:?}", other),
    }
}

fn finished(action: PortAction) -> Msg {
    match action {
        PortAction::Finish(m) => m,
        other => panic!("unexpected {:?}", other),
    }
}

#[test]
fn client_port_asks_for_a_connection_first() {
    let (port, action) = Port::open(at(2), at(1), at(3));
    let m = sent(action);
    assert!(matches!(m.typ, MsgType::MapConnecting));
    assert_eq!(m.dir, MsgDirection::L2D);
    assert_eq!(
        m.addr,
        AddrPair {
            local_addr: at(1),
            lst_addr: at(2),
            remap_addr: SocketAddr::V4(SocketAddrV4 { ip: 0, port: 0 }),
            dst_addr: at(3),
        }
    );
    assert!(!port.wants_read());
    assert!(!port.wants_write());
}

#[test]
fn client_port_reads_once_connected() {
    let (mut port, _) = Port::open(at(2), at(1), at(3));
    assert!(matches!(port.handle(PortEvent::Sent(true)), PortAction::Wait));
    assert!(matches!(port.handle(message(MsgType::MapConnecting)), PortAction::Wait));
    assert!(!port.wants_read());
    let addr = AddrPair { remap_addr: at(9), ..pair() };
    let word = Msg { addr, dir: MsgDirection::L2D, typ: MsgType::MapConnected };
    assert!(matches!(port.handle(PortEvent::Received(Some(word))), PortAction::Wait));
    assert!(port.wants_read());
    let m = sent(port.handle(PortEvent::Read(Ok(vec![1, 2]))));
    assert_eq!(m.addr, addr);
    assert_eq!(m.dir, MsgDirection::L2D);
    assert!(matches!(m.typ, MsgType::MapData(d) if d == vec![1, 2]));
}

#[test]
fn destination_port_reports_the_connection() {
    let (_, action) = DstPort::connect(pair(), Some(at(9)));
    let m = sent(action);
    assert!(matches!(m.typ, MsgType::MapConnected));
    assert_eq!(m.dir, MsgDirection::D2L);
    assert_eq!(m.addr, AddrPair { remap_addr: at(9), ..pair() });
    let (_, action) = DstPort::connect(pair(), None);
    let m = finished(action);
    assert!(matches!(m.typ, MsgType::MapDisconnect));
    assert_eq!(m.dir, MsgDirection::D2L);
    assert_eq!(m.addr, pair());
}

#[test]
fn destination_port_ignores_talk_about_connecting() {
    let (mut port, _) = DstPort::connect(pair(), Some(at(9)));
    assert!(matches!(port.handle(message(MsgType::MapConnected)), PortAction::Wait));
    assert!(matches!(port.handle(message(MsgType::MapConnecting)), PortAction::Wait));
    let m = sent(port.handle(PortEvent::Read(Ok(vec![5]))));
    assert_eq!(m.addr.remap_addr, at(9));
}

#[test]
fn dead_socket_ends_a_port_with_a_goodbye() {
    for event in [
        PortEvent::Read(Ok(Vec::new())),
        PortEvent::Read(Err(Error::Io(104))),
        PortEvent::Wrote(Err(Error::Io(32))),
        PortEvent::Received(None),
    ] {
        let (mut port, _) = DstPort::connect(pair(), Some(at(9)));
        let m = finished(port.handle(event));
        assert!(matches!(m.typ, MsgType::MapDisconnect));
        assert_eq!(m.dir, MsgDirection::D2L);
        assert_eq!(m.addr.remap_addr, at(9));
    }
    for event in [
        PortEvent::Read(Ok(Vec::new())),
        PortEvent::Read(Err(Error::Io(104))),
        PortEvent::Wrote(Err(Error::Io(32))),
        PortEvent::Received(None),
    ] {
        let (mut port, _) = Port::open(at(2), at(1), at(3));
        let m = finished(port.handle(event));
        assert!(matches!(m.typ, MsgType::MapDisconnect));
        assert_eq!(m.dir, MsgDirection::L2D);
    }
}

#[test]
fn port_ends_silently_after_the_peer_or_the_router() {
    let (mut port, _) = Port::open(at(2), at(1), at(3));
    assert!(matches!(port.handle(message(MsgType::MapDisconnect)), PortAction::Stop));
    assert!(matches!(port.handle(PortEvent::Sent(false)), PortAction::Stop));
    let (mut port, _) = DstPort::connect(pair(), Some(at(9)));
    assert!(matches!(port.handle(message(MsgType::MapDisconnect)), PortAction::Stop));
    assert!(matches!(port.handle(PortEvent::Sent(false)), PortAction::Stop));
}

#[test]
fn unready_socket_is_no_reason_to_end() {
    let (mut port, _) = Port::open(at(2), at(1), at(3));
    assert!(matches!(port.handle(PortEvent::Read(Err(Error::WouldBlock))), PortAction::Wait));
    assert!(matches!(port.handle(PortEvent::Wrote(Err(Error::WouldBlock))), PortAction::Wait));
}

/// Lets the socket of `port` take at most `step` bytes at a time.
fn drain(port: &mut DstPort, step: usize) -> Vec<u8> {
    let mut out = Vec::new();
    while port.wants_write() {
        match port.handle(PortEvent::Writable) {
            PortAction::Write => {
                let k = step.min(port.unwritten().len());
                out.extend_from_slice(&port.unwritten()[..k]);
                assert!(matches!(port.handle(PortEvent::Wrote(Ok(k))), PortAction::Wait));
            }
            other => assert!(matches!(other, PortAction::Wait)),
        }
    }
    out
}

#[test]
fn bytes_cross_from_client_to_destination() {
    for step in [1, 2, 3, 100] {
        let (mut port, _) = Port::open(at(2), at(1), at(3));
        let (mut dst, _) = DstPort::connect(pair(), Some(at(9)));
        let mut out = Vec::new();
        for chunk in [vec![1, 2, 3], vec![4], vec![5, 6, 7, 8]] {
            let m = sent(port.handle(PortEvent::Read(Ok(chunk))));
            assert!(matches!(dst.handle(PortEvent::Received(Some(m))), PortAction::Wait));
            if step == 2 {
                out.extend(drain(&mut dst, step));
            }
        }
        out.extend(drain(&mut dst, step));
        assert_eq!(out, vec![1, 2, 3, 4, 5, 6, 7, 8]);
    }
}

#[test]
fn empty_segment_is_passed_over() {
    let mut q = DataQueue::new();
    q.push(Vec::new());
    q.push(vec![7]);
    assert!(q.is_pending());
    assert!(!q.is_writing());
    q.next();
    assert!(q.is_writing());
    assert!(q.unwritten().is_empty());
    q.wrote(0);
    assert_eq!(q.unwritten(), [7]);
    q.wrote(1);
    assert!(!q.is_pending());
}

#[test]
fn partly_written_segment_stays_current() {
    let mut q = DataQueue::new();
    q.push(vec![1, 2, 3]);
    q.next();
    q.wrote(0);
    assert_eq!(q.unwritten(), [1, 2, 3]);
    q.wrote(2);
    assert_eq!(q.unwritten(), [3]);
    q.push(vec![4]);
    q.wrote(1);
    assert_eq!(q.unwritten(), [4]);
}
