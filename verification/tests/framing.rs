use superworm::error::Error;
use superworm::frame::{make_frame, read_header, MAX_FRAG};
use superworm::msg::{
    LinkAction, MsgCtx, ReadAction, ReadEvent, ReadLoop, SendEvent, SendLoop, WriteAction,
    WriteEvent,
};

type Ctx = MsgCtx<Vec<u8>, Vec<u8>>;

/// Reads from `stream`, at most `step` bytes at a time, until there is nothing left.
/// A payload is its own message.
fn pump_in(ctx: &mut Ctx, stream: &mut Vec<u8>, step: usize) -> Result<(), Error> {
    let mut event = ReadEvent::Ready;
    loop {
        match ctx.handle_read(event) {
            ReadAction::TryRead(n) => {
                if stream.is_empty() {
                    event = ReadEvent::Read(Err(Error::WouldBlock));
                } else {
                    let k = n.min(step).min(stream.len());
                    let rest = stream.split_off(k);
                    let data = std::mem::replace(stream, rest);
                    event = ReadEvent::Read(Ok(data));
                }
            }
            ReadAction::Decode(bytes) => event = ReadEvent::Decoded(Some(bytes)),
            ReadAction::Done(r) => return r,
        }
    }
}

/// Writes to `stream`, at most `step` bytes at a time.
fn pump_out(ctx: &mut Ctx, stream: &mut Vec<u8>, step: usize) -> Result<(), Error> {
    let mut event = WriteEvent::Ready;
    loop {
        match ctx.handle_write(event) {
            WriteAction::Encode => {
                let payload = ctx.tx_front().unwrap().clone();
                event = WriteEvent::Encoded(Some(payload));
            }
            WriteAction::TryWrite => {
                let k = step.min(ctx.tx_bytes().len());
                stream.extend_from_slice(&ctx.tx_bytes()[..k]);
                event = WriteEvent::Wrote(Ok(k));
            }
            WriteAction::Done(r) => return r,
        }
    }
}

fn header(n: u64) -> Vec<u8> {
    n.to_be_bytes().to_vec()
}

fn done(action: ReadAction) -> Result<(), Error> {
    match action {
        ReadAction::Done(r) => r,
        other => panic!("unexpected {:?}", other),
    }
}

fn asked(action: ReadAction) -> usize {
    match action {
        ReadAction::TryRead(n) => n,
        other => panic!("unexpected {:?}", other),
    }
}

#[test]
fn frame_is_big_endian_length_and_payload() {
    assert_eq!(make_frame(&[7, 8, 9]), vec![0, 0, 0, 0, 0, 0, 0, 3, 7, 8, 9]);
    assert_eq!(make_frame(&[]), vec![0, 0, 0, 0, 0, 0, 0, 0]);
    assert_eq!(make_frame(&vec![1; 258])[..9], [0, 0, 0, 0, 0, 0, 1, 2, 1]);
}

#[test]
fn header_is_read_back() {
    assert_eq!(read_header(&[0, 0, 0, 0, 0, 0, 1, 2]), 258);
    assert_eq!(read_header(&[255; 8]), u64::MAX);
    assert_eq!(read_header(&[1, 2, 3, 4, 5, 6, 7, 8]), 0x0102_0304_0506_0708);
}

#[test]
fn new_context_is_idle() {
    let ctx: Ctx = MsgCtx::new();
    assert!(!ctx.have_rx_msg());
    assert!(!ctx.need_to_write());
    assert!(!ctx.is_oversized());
    assert!(ctx.tx_front().is_none());
    assert!(ctx.tx_bytes().is_empty());
}

#[test]
fn messages_come_through_in_pieces_of_any_size() {
    let msgs: Vec<Vec<u8>> = vec![vec![1], vec![2; 300], vec![3, 4, 5], (0..255).collect()];
    for out_step in [1, 2, 7, 8, 9, 1000] {
        for in_step in [1, 3, 8, 64, 1000] {
            let mut tx: Ctx = MsgCtx::new();
            let mut rx: Ctx = MsgCtx::new();
            let mut stream = Vec::new();
            for m in &msgs {
                tx.queue_tx_msg(m.clone());
            }
            while tx.need_to_write() {
                assert_eq!(pump_out(&mut tx, &mut stream, out_step), Ok(()));
            }
            let mut expected = Vec::new();
            for m in &msgs {
                expected.extend(make_frame(m));
            }
            assert_eq!(stream, expected);
            let mut got = Vec::new();
            loop {
                match pump_in(&mut rx, &mut stream, in_step) {
                    Ok(()) => {}
                    Err(e) => {
                        assert_eq!(e, Error::WouldBlock);
                        break;
                    }
                }
            }
            while let Some(m) = rx.pop_rx_msg() {
                got.push(m);
            }
            assert_eq!(got, msgs);
        }
    }
}

#[test]
fn what_has_arrived_is_a_beginning_of_what_was_sent() {
    let mut stream = Vec::new();
    stream.extend(make_frame(&[1, 2]));
    stream.extend(make_frame(&[3, 4]));
    stream.truncate(17);
    let mut rx: Ctx = MsgCtx::new();
    while pump_in(&mut rx, &mut stream, 5).is_ok() {}
    assert_eq!(rx.pop_rx_msg(), Some(vec![1, 2]));
    assert_eq!(rx.pop_rx_msg(), None);
    let mut rest = vec![2, 3, 4];
    while pump_in(&mut rx, &mut rest, 5).is_ok() {}
    assert_eq!(rx.pop_rx_msg(), Some(vec![3, 4]));
}

#[test]
fn header_first_then_payload() {
    let mut rx: Ctx = MsgCtx::new();
    assert_eq!(asked(rx.handle_read(ReadEvent::Ready)), 8);
    assert_eq!(done(rx.handle_read(ReadEvent::Read(Ok(vec![0, 0, 0])))), Ok(()));
    assert_eq!(asked(rx.handle_read(ReadEvent::Ready)), 5);
    assert_eq!(asked(rx.handle_read(ReadEvent::Read(Ok(vec![0, 0, 0, 0, 4])))), 4);
    assert_eq!(done(rx.handle_read(ReadEvent::Read(Ok(vec![9])))), Ok(()));
    assert_eq!(asked(rx.handle_read(ReadEvent::Ready)), 3);
    match rx.handle_read(ReadEvent::Read(Ok(vec![8, 7, 6]))) {
        ReadAction::Decode(bytes) => assert_eq!(bytes, vec![9, 8, 7, 6]),
        other => panic!("unexpected {:?}", other),
    }
    assert!(!rx.have_rx_msg());
    assert_eq!(asked(rx.handle_read(ReadEvent::Ready)), 8);
}

#[test]
fn read_of_nothing_is_an_error() {
    let mut rx: Ctx = MsgCtx::new();
    assert_eq!(done(rx.handle_read(ReadEvent::Read(Ok(Vec::new())))), Err(Error::ReadZero));
    assert_eq!(asked(rx.handle_read(ReadEvent::Read(Ok(header(3))))), 3);
    assert_eq!(done(rx.handle_read(ReadEvent::Read(Ok(Vec::new())))), Err(Error::ReadZero));
}

#[test]
fn empty_payload_ends_in_a_read_of_nothing() {
    let mut rx: Ctx = MsgCtx::new();
    assert_eq!(asked(rx.handle_read(ReadEvent::Read(Ok(header(0))))), 0);
    assert_eq!(done(rx.handle_read(ReadEvent::Read(Ok(Vec::new())))), Err(Error::ReadZero));
}

#[test]
fn payload_limit_is_one_hundred_mebibytes() {
    let mut rx: Ctx = MsgCtx::new();
    assert_eq!(asked(rx.handle_read(ReadEvent::Read(Ok(header(104857600))))), MAX_FRAG);
    assert!(!rx.is_oversized());
    rx.reset_read();
    assert_eq!(done(rx.handle_read(ReadEvent::Read(Ok(header(104857601))))), Err(Error::Invalid));
    assert!(rx.is_oversized());
    rx.reset_read();
    assert!(!rx.is_oversized());
    assert_eq!(asked(rx.handle_read(ReadEvent::Ready)), 8);
}

#[test]
fn payload_that_is_no_message_is_an_error() {
    let mut rx: Ctx = MsgCtx::new();
    let _ = rx.handle_read(ReadEvent::Read(Ok(header(1))));
    let _ = rx.handle_read(ReadEvent::Read(Ok(vec![5])));
    assert_eq!(done(rx.handle_read(ReadEvent::Decoded(None))), Err(Error::Invalid));
    assert!(!rx.have_rx_msg());
    assert_eq!(asked(rx.handle_read(ReadEvent::Ready)), 8);
}

#[test]
fn failed_read_changes_nothing() {
    let mut rx: Ctx = MsgCtx::new();
    let _ = rx.handle_read(ReadEvent::Read(Ok(vec![0, 0])));
    assert_eq!(done(rx.handle_read(ReadEvent::Read(Err(Error::Io(104))))), Err(Error::Io(104)));
    assert_eq!(asked(rx.handle_read(ReadEvent::Ready)), 6);
}

#[test]
fn reset_read_forgets_the_frame_and_keeps_messages() {
    let mut rx: Ctx = MsgCtx::new();
    let mut stream = make_frame(&[1]);
    stream.extend([0, 0, 0]);
    while pump_in(&mut rx, &mut stream, 100).is_ok() {}
    rx.reset_read();
    assert!(rx.have_rx_msg());
    assert_eq!(asked(rx.handle_read(ReadEvent::Ready)), 8);
}

#[test]
fn message_that_cannot_be_encoded_keeps_its_place() {
    let mut tx: Ctx = MsgCtx::new();
    tx.queue_tx_msg(vec![1]);
    tx.queue_tx_msg(vec![2]);
    assert!(matches!(tx.handle_write(WriteEvent::Ready), WriteAction::Encode));
    assert!(matches!(
        tx.handle_write(WriteEvent::Encoded(None)),
        WriteAction::Done(Err(Error::Invalid))
    ));
    assert_eq!(tx.tx_front(), Some(&vec![1]));
    let mut stream = Vec::new();
    while tx.need_to_write() {
        pump_out(&mut tx, &mut stream, 100).unwrap();
    }
    let mut expected = make_frame(&[1]);
    expected.extend(make_frame(&[2]));
    assert_eq!(stream, expected);
}

#[test]
fn failed_write_keeps_the_frame_until_reset() {
    let mut tx: Ctx = MsgCtx::new();
    tx.queue_tx_msg(vec![1, 2, 3]);
    tx.queue_tx_msg(vec![4]);
    let mut stream = Vec::new();
    pump_out(&mut tx, &mut stream, 4).unwrap();
    assert_eq!(tx.tx_bytes(), [0, 0, 0, 3, 1, 2, 3]);
    assert!(matches!(tx.handle_write(WriteEvent::Ready), WriteAction::TryWrite));
    assert!(matches!(
        tx.handle_write(WriteEvent::Wrote(Err(Error::Io(32)))),
        WriteAction::Done(Err(Error::Io(32)))
    ));
    assert_eq!(tx.tx_bytes(), [0, 0, 0, 3, 1, 2, 3]);
    tx.reset_write();
    assert!(tx.tx_bytes().is_empty());
    assert!(tx.need_to_write());
    assert_eq!(tx.tx_front(), Some(&vec![4]));
}

#[test]
fn nothing_to_write_is_no_error() {
    let mut tx: Ctx = MsgCtx::new();
    assert!(matches!(tx.handle_write(WriteEvent::Ready), WriteAction::Done(Ok(()))));
}

#[test]
fn read_goes_on_until_there_is_a_message() {
    let mut rx: Ctx = MsgCtx::new();
    assert!(matches!(rx.read(None), ReadLoop::Again));
    assert!(matches!(rx.read(Some(Ok(()))), ReadLoop::Again));
    assert!(matches!(rx.read(Some(Err(Error::WouldBlock))), ReadLoop::Again));
    let _ = rx.handle_read(ReadEvent::Decoded(Some(vec![1])));
    let _ = rx.handle_read(ReadEvent::Decoded(Some(vec![2])));
    match rx.read(Some(Ok(()))) {
        ReadLoop::Done(Ok(m)) => assert_eq!(m, vec![1]),
        other => panic!("unexpected {:?}", other),
    }
    match rx.read(None) {
        ReadLoop::Done(Ok(m)) => assert_eq!(m, vec![2]),
        other => panic!("unexpected {:?}", other),
    }
}

#[test]
fn read_ends_with_a_failure() {
    let mut rx: Ctx = MsgCtx::new();
    let _ = rx.handle_read(ReadEvent::Read(Ok(vec![0, 0])));
    assert!(matches!(
        rx.read(Some(Err(Error::ReadZero))),
        ReadLoop::Done(Err(Error::ReadZero))
    ));
    assert_eq!(asked(rx.handle_read(ReadEvent::Ready)), 8);
}

#[test]
fn write_goes_on_until_all_is_sent() {
    let mut tx: Ctx = MsgCtx::new();
    let mut stream = Vec::new();
    assert!(matches!(tx.write(SendEvent::Send(vec![1])), SendLoop::Again));
    assert!(matches!(tx.write(SendEvent::Wrote(Err(Error::WouldBlock))), SendLoop::Again));
    pump_out(&mut tx, &mut stream, 5).unwrap();
    assert!(matches!(tx.write(SendEvent::Wrote(Ok(()))), SendLoop::Again));
    pump_out(&mut tx, &mut stream, 5).unwrap();
    assert!(matches!(tx.write(SendEvent::Wrote(Ok(()))), SendLoop::Done(Ok(()))));
    assert_eq!(stream, make_frame(&[1]));
}

#[test]
fn write_ends_with_a_failure() {
    let mut tx: Ctx = MsgCtx::new();
    let mut stream = Vec::new();
    let _ = tx.write(SendEvent::Send(vec![1]));
    pump_out(&mut tx, &mut stream, 5).unwrap();
    assert!(matches!(
        tx.write(SendEvent::Wrote(Err(Error::Io(32)))),
        SendLoop::Done(Err(Error::Io(32)))
    ));
    assert!(!tx.need_to_write());
}

#[test]
fn lasting_connection_is_replaced_after_a_failure() {
    let mut ctx: Ctx = MsgCtx::new();
    assert_eq!(ctx.after_read(Ok(())), LinkAction::Proceed);
    assert_eq!(ctx.after_read(Err(Error::WouldBlock)), LinkAction::Wait);
    assert_eq!(ctx.after_write(Ok(())), LinkAction::Wait);
    assert_eq!(ctx.after_write(Err(Error::WouldBlock)), LinkAction::Wait);
    let _ = ctx.handle_read(ReadEvent::Read(Ok(vec![0, 0])));
    assert_eq!(ctx.after_read(Err(Error::ReadZero)), LinkAction::Reconnect);
    assert_eq!(asked(ctx.handle_read(ReadEvent::Ready)), 8);
    ctx.queue_tx_msg(vec![1]);
    pump_out(&mut ctx, &mut Vec::new(), 3).unwrap();
    assert_eq!(ctx.after_write(Err(Error::Io(32))), LinkAction::Reconnect);
    assert!(!ctx.need_to_write());
}

#[test]
fn messages_are_taken_in_the_order_they_arrived() {
    let mut rx: Ctx = MsgCtx::new();
    let _ = rx.handle_read(ReadEvent::Decoded(Some(vec![1])));
    let _ = rx.handle_read(ReadEvent::Decoded(Some(vec![2])));
    assert_eq!(rx.pop_rx_msg(), Some(vec![1]));
    let _ = rx.handle_read(ReadEvent::Decoded(Some(vec![3])));
    assert_eq!(rx.pop_rx_msg(), Some(vec![2]));
    assert_eq!(rx.pop_rx_msg(), Some(vec![3]));
    assert_eq!(rx.pop_rx_msg(), None);
}

#[test]
fn frame_under_way_always_has_bytes() {
    let mut ctx = Ctx::new();
    assert!(ctx.tx_bytes().is_empty());
    ctx.queue_tx_msg(Vec::new());
    let _ = ctx.handle_write(WriteEvent::Ready);
    let _ = ctx.handle_write(WriteEvent::Encoded(Some(Vec::new())));
    for left in (1..9).rev() {
        assert!(ctx.need_to_write());
        assert_eq!(ctx.tx_bytes().len(), left);
        let _ = ctx.handle_write(WriteEvent::Wrote(Ok(1)));
    }
    assert!(!ctx.need_to_write());
}
