//! Tunnel messages, and the context that frames messages on a connection.

use std::collections::VecDeque;
use vstd::prelude::*;

use crate::addr::SocketAddr;
use crate::error::Error;
use crate::frame;
use crate::frame::{HEADER_LEN, MAX_FRAG};
use crate::stream;
use crate::stream::{Rx, Tx};
use crate::table::{MapKey, PortKey};

verus! {

/// A message between the two ends of a mapped connection.
#[derive(Debug)]
pub struct Msg {
    pub addr: AddrPair,
    pub dir: MsgDirection,
    pub typ: MsgType,
}

/// Which way a message goes: from the listening side to the destination side, or back.
#[derive(Clone, Copy, Debug, PartialEq, Eq, Structural)]
pub enum MsgDirection {
    L2D,
    D2L,
}

/// What a message is about.
#[derive(Debug)]
pub enum MsgType {
    MapData(Vec<u8>),
    MapConnecting,
    MapConnected,
    MapDisconnect,
}

/// The four addresses of a mapped connection: the client and the listener on one
/// side, the tunnel's own socket and the destination on the other.
#[derive(Clone, Copy, Debug, PartialEq, Eq, Structural)]
pub struct AddrPair {
    pub local_addr: SocketAddr,
    pub lst_addr: SocketAddr,
    pub remap_addr: SocketAddr,
    pub dst_addr: SocketAddr,
}

/// The mapping that a connection belongs to.
pub open spec fn map_key_of(addr: AddrPair) -> MapKey {
    MapKey { lst_addr: addr.lst_addr, dst_addr: addr.dst_addr }
}

/// What tells a mapped connection from all others.
pub open spec fn port_key_of(addr: AddrPair) -> PortKey {
    PortKey { lst_addr: addr.lst_addr, dst_addr: addr.dst_addr, local_addr: addr.local_addr }
}

impl AddrPair {
    /// The mapping that the connection belongs to.
    pub fn map_key(&self) -> (key: MapKey)
        ensures
            key == map_key_of(*self),
    {
        MapKey { lst_addr: self.lst_addr, dst_addr: self.dst_addr }
    }

    /// What tells the connection from all others.
    pub fn port_key(&self) -> (key: PortKey)
        ensures
            key == port_key_of(*self),
    {
        PortKey { lst_addr: self.lst_addr, dst_addr: self.dst_addr, local_addr: self.local_addr }
    }
}

/// The framing state of one connection. `RM` is what arrives, `WM` what is sent.
/// The context decides; its user reads and writes the socket and turns payloads
/// into messages and back.
pub struct MsgCtx<RM, WM> {
    frag_size: Option<usize>,
    read_buf: Vec<u8>,
    msgs_from_read: VecDeque<RM>,
    written_size: Option<usize>,
    write_buf: Vec<u8>,
    msgs_to_write: VecDeque<WM>,
}

/// What a context holds: the receiver's state, the messages that were received and
/// not yet taken, and the sender's state.
#[verifier::ext_equal]
pub struct MsgCtxView<RM, WM> {
    pub rx: Rx,
    pub received: Seq<RM>,
    pub tx: Tx<WM>,
}

/// What `MsgCtx::handle_read` is told.
pub enum ReadEvent<RM> {
    /// The socket is readable.
    Ready,
    /// The read that was asked for gave these bytes, or failed.
    Read(Result<Vec<u8>, Error>),
    /// The payload that was handed out stands for this message, or for none.
    Decoded(Option<RM>),
}

/// What `MsgCtx::handle_read` asks for.
#[derive(Debug)]
pub enum ReadAction {
    /// Read from the socket, at most this many bytes.
    TryRead(usize),
    /// Decode this payload.
    Decode(Vec<u8>),
    /// Nothing more for now.
    Done(Result<(), Error>),
}

/// What `MsgCtx::handle_write` is told.
#[derive(Debug)]
pub enum WriteEvent {
    /// The socket is writable.
    Ready,
    /// The first message that waits has this payload, or cannot be encoded.
    Encoded(Option<Vec<u8>>),
    /// The socket took this many bytes, or failed.
    Wrote(Result<usize, Error>),
}

/// What `MsgCtx::handle_write` asks for.
#[derive(Debug)]
pub enum WriteAction {
    /// Encode the first message that waits (`MsgCtx::tx_front`).
    Encode,
    /// Write what is left of the frame (`MsgCtx::tx_bytes`) to the socket.
    TryWrite,
    /// Nothing more for now.
    Done(Result<(), Error>),
}

/// Where `MsgCtx::read` stands.
#[derive(Debug)]
pub enum ReadLoop<RM> {
    /// Wait for the socket, run `handle_read`, and report its result.
    Again,
    /// A message, or the failure that ended the reading.
    Done(Result<RM, Error>),
}

/// What `MsgCtx::write` is told.
#[derive(Debug)]
pub enum SendEvent<WM> {
    /// Send this message.
    Send(WM),
    /// `handle_write` ended so.
    Wrote(Result<(), Error>),
}

/// Where `MsgCtx::write` stands.
#[derive(Debug)]
pub enum SendLoop {
    /// Wait for the socket, run `handle_write`, and report its result.
    Again,
    /// Everything is sent, or the sending failed.
    Done(Result<(), Error>),
}

/// What a read or a write means for a connection that is to last.
#[derive(Clone, Copy, Debug, PartialEq, Eq, Structural)]
pub enum LinkAction {
    /// Nothing came of it.
    Wait,
    /// The connection goes on, and messages may have been received.
    Proceed,
    /// The connection is lost.
    Reconnect,
}

/// A result that is no reason to give a connection up.
pub open spec fn harmless(r: Result<(), Error>) -> bool {
    r is Ok || r == Err::<(), Error>(Error::WouldBlock)
}

impl<RM, WM> View for MsgCtx<RM, WM> {
    type V = MsgCtxView<RM, WM>;

    closed spec fn view(&self) -> MsgCtxView<RM, WM> {
        MsgCtxView {
            rx: Rx { frag: self.frag_size, buf: self.read_buf@ },
            received: self.msgs_from_read@,
            tx: Tx {
                queued: self.msgs_to_write@,
                out: match self.written_size {
                    Some(n) => Some(self.write_buf@.skip(n as int)),
                    None => None,
                },
            },
        }
    }
}

impl<RM, WM> MsgCtx<RM, WM> {
    /// The receiver is between two reads, and a frame that is under way has bytes left.
    pub closed spec fn wf(&self) -> bool {
        &&& stream::rx_wf(self@.rx)
        &&& self.written_size matches Some(n) ==> n < self.write_buf@.len()
    }

    /// What validity says of the receiver and of the sender: while a frame is not yet
    /// complete, the next read asks for at least one byte, but for a payload that
    /// was announced as empty; and a frame under way has bytes left to write.
    pub proof fn law_valid(&self)
        requires
            self.wf(),
        ensures
            stream::rx_wf(self@.rx),
            stream::tx_wf(self@.tx),
            self@.rx.frag is None ==> 0 < stream::rx_want(self@.rx) <= HEADER_LEN,
            self@.rx.frag matches Some(n) ==> stream::rx_want(self@.rx) <= n && (n > 0 ==> 0
                < stream::rx_want(self@.rx)),
    {
    }

    /// A context at the start of a frame, with nothing received and nothing to send.
    pub fn new() -> (ctx: Self)
        ensures
            ctx.wf(),
            ctx@.rx == stream::rx_idle(),
            ctx@.received == Seq::<RM>::empty(),
            ctx@.tx == stream::tx_idle::<WM>(),
    {
        MsgCtx {
            frag_size: None,
            read_buf: Vec::with_capacity(2048),
            msgs_from_read: VecDeque::new(),
            written_size: None,
            write_buf: Vec::with_capacity(2048),
            msgs_to_write: VecDeque::new(),
        }
    }

    /// Whether a received message waits to be taken.
    pub fn have_rx_msg(&self) -> (b: bool)
        ensures
            b == (self@.received.len() > 0),
    {
        self.msgs_from_read.len() > 0
    }

    /// Takes the message that was received first.
    pub fn pop_rx_msg(&mut self) -> (msg: Option<RM>)
        requires
            old(self).wf(),
        ensures
            final(self).wf(),
            final(self)@.rx == old(self)@.rx,
            final(self)@.tx == old(self)@.tx,
            match msg {
                Some(m) => {
                    &&& old(self)@.received.len() > 0
                    &&& m == old(self)@.received[0]
                    &&& final(self)@.received == old(self)@.received.drop_first()
                },
                None => old(self)@.received.len() == 0 && final(self)@.received
                    == old(self)@.received,
            },
    {
        self.msgs_from_read.pop_front()
    }

    /// Whether a message waits to be sent, or a frame is under way.
    pub fn need_to_write(&self) -> (b: bool)
        ensures
            b == (self@.tx.queued.len() > 0 || self@.tx.out is Some),
    {
        self.msgs_to_write.len() > 0 || self.written_size.is_some()
    }

    /// Adds a message to those that wait to be sent.
    pub fn queue_tx_msg(&mut self, msg: WM)
        requires
            old(self).wf(),
        ensures
            final(self).wf(),
            final(self)@ == (MsgCtxView { tx: stream::tx_queue(old(self)@.tx, msg), ..old(self)@ }),
    {
        self.msgs_to_write.push_back(msg);
    }

    /// Forgets the frame that was being received. Received messages stay.
    pub fn reset_read(&mut self)
        requires
            old(self).wf(),
        ensures
            final(self).wf(),
            final(self)@ == (MsgCtxView { rx: stream::rx_idle(), ..old(self)@ }),
    {
        self.frag_size = None;
        self.read_buf.clear();
    }

    /// Forgets the frame that was being sent. Messages that wait stay.
    pub fn reset_write(&mut self)
        requires
            old(self).wf(),
        ensures
            final(self).wf(),
            final(self)@ == (MsgCtxView {
                tx: Tx { out: None, ..old(self)@.tx },
                ..old(self)@
            }),
    {
        self.written_size = None;
        self.write_buf.clear();
    }
}

impl<RM, WM> MsgCtx<RM, WM> {
    /// Whether the last header announced a payload that is too large. Until
    /// `reset_read`, nothing can be read.
    pub fn is_oversized(&self) -> (b: bool)
        ensures
            b == stream::rx_oversized(self@.rx),
    {
        match self.frag_size {
            Some(n) => n > MAX_FRAG,
            None => false,
        }
    }

    /// Takes part in the reading of one frame, as far as the socket goes.
    ///
    /// Report `Ready` when the socket is readable, do what is asked for and report
    /// that, until `Done`.
    pub fn handle_read(&mut self, event: ReadEvent<RM>) -> (action: ReadAction)
        requires
            old(self).wf(),
            event is Ready ==> !stream::rx_oversized(old(self)@.rx),
            event matches ReadEvent::Read(Ok(data)) ==> !stream::rx_oversized(old(self)@.rx)
                && data@.len() <= stream::rx_want(old(self)@.rx),
        ensures
            final(self).wf(),
            match event {
                ReadEvent::Ready => {
                    &&& final(self)@ == old(self)@
                    &&& action matches ReadAction::TryRead(n) && n == stream::rx_want(old(self)@.rx)
                },
                ReadEvent::Read(Err(e)) => {
                    &&& final(self)@ == old(self)@
                    &&& action == ReadAction::Done(Err(e))
                },
                ReadEvent::Read(Ok(data)) => if data@.len() == 0 {
                    &&& final(self)@ == old(self)@
                    &&& action == ReadAction::Done(Err(Error::ReadZero))
                } else {
                    let (rx, step) = stream::rx_step(old(self)@.rx, data@);
                    &&& final(self)@ == (MsgCtxView { rx, ..old(self)@ })
                    &&& match step {
                        stream::RxStep::More => action == ReadAction::Done(Ok(())),
                        stream::RxStep::Body(n) => action == ReadAction::TryRead(n),
                        stream::RxStep::TooLarge => action == ReadAction::Done(Err(Error::Invalid)),
                        stream::RxStep::Payload(p) => action matches ReadAction::Decode(bytes)
                            && bytes@ == p,
                    }
                },
                ReadEvent::Decoded(Some(msg)) => {
                    &&& final(self)@ == (MsgCtxView {
                        received: old(self)@.received.push(msg),
                        ..old(self)@
                    })
                    &&& action == ReadAction::Done(Ok(()))
                },
                ReadEvent::Decoded(None) => {
                    &&& final(self)@ == old(self)@
                    &&& action == ReadAction::Done(Err(Error::Invalid))
                },
            },
    {
        match event {
            ReadEvent::Ready => {
                let limit: usize = match self.frag_size {
                    Some(n) => n,
                    None => HEADER_LEN,
                };
                ReadAction::TryRead(limit - self.read_buf.len())
            },
            ReadEvent::Read(Err(e)) => ReadAction::Done(Err(e)),
            ReadEvent::Read(Ok(data)) => {
                if data.len() == 0 {
                    return ReadAction::Done(Err(Error::ReadZero));
                }
                self.read_buf.extend_from_slice(data.as_slice());
                assert(self.read_buf@ =~= old(self)@.rx.buf + data@);
                match self.frag_size {
                    None => {
                        if self.read_buf.len() < HEADER_LEN {
                            // Need to read more.
                            return ReadAction::Done(Ok(()));
                        }
                        let frag_size: usize = frame::read_header(self.read_buf.as_slice()) as usize;
                        self.frag_size = Some(frag_size);
                        self.read_buf.clear();
                        if frag_size > MAX_FRAG {
                            return ReadAction::Done(Err(Error::Invalid));
                        }
                        ReadAction::TryRead(frag_size)
                    },
                    Some(frag_size) => {
                        if self.read_buf.len() < frag_size {
                            // Need more data.
                            return ReadAction::Done(Ok(()));
                        }
                        let mut payload: Vec<u8> = Vec::new();
                        payload.append(&mut self.read_buf);
                        self.frag_size = None;
                        assert(payload@ =~= old(self)@.rx.buf + data@);
                        ReadAction::Decode(payload)
                    },
                }
            },
            ReadEvent::Decoded(Some(msg)) => {
                self.msgs_from_read.push_back(msg);
                ReadAction::Done(Ok(()))
            },
            ReadEvent::Decoded(None) => ReadAction::Done(Err(Error::Invalid)),
        }
    }

    /// The message that is to be encoded next.
    pub fn tx_front(&self) -> (msg: Option<&WM>)
        ensures
            match msg {
                Some(m) => self@.tx.queued.len() > 0 && *m == self@.tx.queued[0],
                None => self@.tx.queued.len() == 0,
            },
    {
        if self.msgs_to_write.len() > 0 {
            Some(&self.msgs_to_write[0])
        } else {
            None
        }
    }

    /// The bytes of the frame under way that the socket has not taken yet.
    pub fn tx_bytes(&self) -> (bytes: &[u8])
        requires
            self.wf(),
        ensures
            bytes@ == (match self@.tx.out {
                Some(rest) => rest,
                None => Seq::<u8>::empty(),
            }),
    {
        let end: usize = self.write_buf.len();
        let start: usize = match self.written_size {
            Some(n) => n,
            None => end,
        };
        let bytes = vstd::slice::slice_subrange(self.write_buf.as_slice(), start, end);
        assert(self.written_size is Some ==> bytes@ =~= self.write_buf@.skip(start as int));
        assert(self.written_size is None ==> bytes@ =~= Seq::<u8>::empty());
        bytes
    }

    /// Takes part in the writing of one frame, as far as the socket goes.
    ///
    /// Report `Ready` when the socket is writable, do what is asked for and report
    /// that, until `Done`. A message that cannot be encoded keeps its place.
    pub fn handle_write(&mut self, event: WriteEvent) -> (action: WriteAction)
        requires
            old(self).wf(),
            event is Encoded ==> stream::move_fits(old(self)@.tx, stream::TxMove::Load),
            event matches WriteEvent::Wrote(Ok(n)) ==> stream::move_fits(
                old(self)@.tx,
                stream::TxMove::Wrote(n as int),
            ),
        ensures
            final(self).wf(),
            match event {
                WriteEvent::Ready => {
                    &&& final(self)@ == old(self)@
                    &&& action == if old(self)@.tx.out is Some {
                        WriteAction::TryWrite
                    } else if old(self)@.tx.queued.len() > 0 {
                        WriteAction::Encode
                    } else {
                        WriteAction::Done(Ok(()))
                    }
                },
                WriteEvent::Encoded(Some(payload)) => {
                    &&& final(self)@ == (MsgCtxView {
                        tx: stream::tx_load(old(self)@.tx, payload@),
                        ..old(self)@
                    })
                    &&& action == WriteAction::TryWrite
                },
                WriteEvent::Encoded(None) => {
                    &&& final(self)@ == old(self)@
                    &&& action == WriteAction::Done(Err(Error::Invalid))
                },
                WriteEvent::Wrote(Ok(n)) => {
                    &&& final(self)@ == (MsgCtxView {
                        tx: stream::tx_wrote(old(self)@.tx, n as int),
                        ..old(self)@
                    })
                    &&& action == WriteAction::Done(Ok(()))
                },
                WriteEvent::Wrote(Err(e)) => {
                    &&& final(self)@ == old(self)@
                    &&& action == WriteAction::Done(Err(e))
                },
            },
    {
        match event {
            WriteEvent::Ready => {
                if self.written_size.is_some() {
                    WriteAction::TryWrite
                } else if self.msgs_to_write.len() > 0 {
                    WriteAction::Encode
                } else {
                    WriteAction::Done(Ok(()))
                }
            },
            WriteEvent::Encoded(Some(payload)) => {
                let _ = self.msgs_to_write.pop_front();
                self.write_buf = frame::make_frame(payload.as_slice());
                self.written_size = Some(0);
                proof {
                    frame::law_frame_is_longer(payload@);
                }
                assert(self.write_buf@.skip(0) =~= self.write_buf@);
                assert(self.msgs_to_write@ =~= old(self)@.tx.queued.drop_first());
                WriteAction::TryWrite
            },
            WriteEvent::Encoded(None) => {
                self.write_buf.clear();
                WriteAction::Done(Err(Error::Invalid))
            },
            WriteEvent::Wrote(Ok(n)) => {
                let len: usize = self.write_buf.len();
                if let Some(before) = self.written_size {
                    let written_size: usize = before + n;
                    if written_size == len {
                        // All data is written.
                        self.written_size = None;
                        self.write_buf.clear();
                    } else {
                        self.written_size = Some(written_size);
                        assert(self.write_buf@.skip(written_size as int)
                            =~= self.write_buf@.skip(before as int).skip(n as int));
                    }
                }
                WriteAction::Done(Ok(()))
            },
            WriteEvent::Wrote(Err(e)) => WriteAction::Done(Err(e)),
        }
    }
}

impl<RM, WM> MsgCtx<RM, WM> {
    /// Reads until there is a message: `last` is how the last `handle_read` ended,
    /// if there was one. A failure resets the receiver.
    pub fn read(&mut self, last: Option<Result<(), Error>>) -> (step: ReadLoop<RM>)
        requires
            old(self).wf(),
        ensures
            final(self).wf(),
            match last {
                Some(r) => if harmless(r) {
                    read_on(old(self)@, final(self)@, step)
                } else {
                    &&& final(self)@ == (MsgCtxView { rx: stream::rx_idle(), ..old(self)@ })
                    &&& step == ReadLoop::<RM>::Done(Err(r->Err_0))
                },
                None => read_on(old(self)@, final(self)@, step),
            },
    {
        if let Some(Err(e)) = last {
            if e != Error::WouldBlock {
                self.reset_read();
                return ReadLoop::Done(Err(e));
            }
        }
        match self.pop_rx_msg() {
            Some(msg) => ReadLoop::Done(Ok(msg)),
            None => ReadLoop::Again,
        }
    }

    /// Sends a message and all those that wait before it. A failure drops the frame
    /// under way; the messages that wait stay.
    pub fn write(&mut self, event: SendEvent<WM>) -> (step: SendLoop)
        requires
            old(self).wf(),
        ensures
            final(self).wf(),
            match event {
                SendEvent::Send(msg) => {
                    &&& final(self)@ == (MsgCtxView {
                        tx: stream::tx_queue(old(self)@.tx, msg),
                        ..old(self)@
                    })
                    &&& step == SendLoop::Again
                },
                SendEvent::Wrote(r) => if harmless(r) {
                    &&& final(self)@ == old(self)@
                    &&& step == if old(self)@.tx == stream::tx_idle::<WM>() {
                        SendLoop::Done(Ok(()))
                    } else {
                        SendLoop::Again
                    }
                } else {
                    &&& final(self)@ == (MsgCtxView {
                        tx: Tx { out: None, ..old(self)@.tx },
                        ..old(self)@
                    })
                    &&& step == SendLoop::Done(r)
                },
            },
    {
        match event {
            SendEvent::Send(msg) => self.queue_tx_msg(msg),
            SendEvent::Wrote(Ok(_)) => {},
            SendEvent::Wrote(Err(e)) => {
                if e != Error::WouldBlock {
                    self.reset_write();
                    return SendLoop::Done(Err(e));
                }
            },
        }
        assert(self@.tx.queued.len() == 0 ==> self@.tx.queued =~= Seq::empty());
        if self.need_to_write() {
            SendLoop::Again
        } else {
            SendLoop::Done(Ok(()))
        }
    }

    /// What the end of `handle_read` means for a connection that is to last. A
    /// failure other than `WouldBlock` resets the receiver and loses the connection.
    pub fn after_read(&mut self, r: Result<(), Error>) -> (action: LinkAction)
        requires
            old(self).wf(),
        ensures
            final(self).wf(),
            match r {
                Ok(_) => final(self)@ == old(self)@ && action == LinkAction::Proceed,
                Err(Error::WouldBlock) => final(self)@ == old(self)@ && action == LinkAction::Wait,
                Err(_) => {
                    &&& final(self)@ == (MsgCtxView { rx: stream::rx_idle(), ..old(self)@ })
                    &&& action == LinkAction::Reconnect
                },
            },
    {
        match r {
            Ok(_) => LinkAction::Proceed,
            Err(Error::WouldBlock) => LinkAction::Wait,
            Err(_) => {
                self.reset_read();
                LinkAction::Reconnect
            },
        }
    }

    /// What the end of `handle_write` means for a connection that is to last. A
    /// failure other than `WouldBlock` drops the frame under way and loses the
    /// connection.
    pub fn after_write(&mut self, r: Result<(), Error>) -> (action: LinkAction)
        requires
            old(self).wf(),
        ensures
            final(self).wf(),
            if harmless(r) {
                final(self)@ == old(self)@ && action == LinkAction::Wait
            } else {
                &&& final(self)@ == (MsgCtxView {
                    tx: Tx { out: None, ..old(self)@.tx },
                    ..old(self)@
                })
                &&& action == LinkAction::Reconnect
            },
    {
        match r {
            Ok(_) => LinkAction::Wait,
            Err(Error::WouldBlock) => LinkAction::Wait,
            Err(_) => {
                self.reset_write();
                LinkAction::Reconnect
            },
        }
    }
}

/// A reading that goes on: it ends with the first received message, if there is one.
pub open spec fn read_on<RM, WM>(
    before: MsgCtxView<RM, WM>,
    after: MsgCtxView<RM, WM>,
    step: ReadLoop<RM>,
) -> bool {
    if before.received.len() > 0 {
        &&& step == ReadLoop::Done(Ok(before.received[0]))
        &&& after == (MsgCtxView { received: before.received.drop_first(), ..before })
    } else {
        step == ReadLoop::<RM>::Again && after == before
    }
}

/// A context after a read of `data`: what `MsgCtx::handle_read` makes of it, once it
/// is told what `dec` makes of the payload that the read may complete.
pub open spec fn ctx_read<RM, WM>(
    dec: spec_fn(Seq<u8>) -> Option<RM>,
    ctx: MsgCtxView<RM, WM>,
    data: Seq<u8>,
) -> MsgCtxView<RM, WM> {
    MsgCtxView {
        rx: stream::rx_step(ctx.rx, data).0,
        received: ctx.received + stream::read_gives(dec, ctx.rx, data),
        ..ctx
    }
}

/// One thing that happens to the messages a context has received.
pub enum RxMove<RM> {
    Arrive(RM),
    Take,
}

/// The messages that are left after `moves`; taking from none leaves none.
pub open spec fn left_after<RM>(received: Seq<RM>, moves: Seq<RxMove<RM>>) -> Seq<RM>
    decreases moves.len(),
{
    if moves.len() == 0 {
        received
    } else {
        let next = match moves[0] {
            RxMove::Arrive(m) => received.push(m),
            RxMove::Take => if received.len() > 0 {
                received.drop_first()
            } else {
                received
            },
        };
        left_after(next, moves.drop_first())
    }
}

/// The messages that were taken during `moves`.
pub open spec fn taken_during<RM>(received: Seq<RM>, moves: Seq<RxMove<RM>>) -> Seq<RM>
    decreases moves.len(),
{
    if moves.len() == 0 {
        Seq::empty()
    } else {
        match moves[0] {
            RxMove::Arrive(m) => taken_during(received.push(m), moves.drop_first()),
            RxMove::Take => if received.len() > 0 {
                seq![received[0]] + taken_during(received.drop_first(), moves.drop_first())
            } else {
                taken_during(received, moves.drop_first())
            },
        }
    }
}

/// The messages that arrived during `moves`.
pub open spec fn arrived_during<RM>(moves: Seq<RxMove<RM>>) -> Seq<RM>
    decreases moves.len(),
{
    if moves.len() == 0 {
        Seq::empty()
    } else {
        match moves[0] {
            RxMove::Arrive(m) => seq![m] + arrived_during(moves.drop_first()),
            RxMove::Take => arrived_during(moves.drop_first()),
        }
    }
}

/// Messages are taken in the order in which they arrived, each once.
pub proof fn law_taken_in_order<RM>(received: Seq<RM>, moves: Seq<RxMove<RM>>)
    ensures
        taken_during(received, moves) + left_after(received, moves) == received + arrived_during(
            moves,
        ),
    decreases moves.len(),
{
    if moves.len() == 0 {
        assert(taken_during(received, moves) + received =~= received + arrived_during(moves));
    } else {
        let rest = moves.drop_first();
        match moves[0] {
            RxMove::Arrive(m) => {
                law_taken_in_order(received.push(m), rest);
                assert(received.push(m) + arrived_during(rest) =~= received + arrived_during(moves));
            },
            RxMove::Take => if received.len() > 0 {
                let next = received.drop_first();
                law_taken_in_order(next, rest);
                assert(taken_during(received, moves) + left_after(received, moves)
                    =~= seq![received[0]] + (taken_during(next, rest) + left_after(next, rest)));
                assert(seq![received[0]] + (next + arrived_during(rest)) =~= received
                    + arrived_during(moves));
            } else {
                law_taken_in_order(received, rest);
            },
        }
    }
}

/// A connection is told from others by where its mapping listens, where it leads and
/// where the client is; a mapping by the first two. The tunnel's own socket plays no
/// part.
pub proof fn law_keys_tell_apart(a: AddrPair, b: AddrPair)
    ensures
        port_key_of(a).lst_addr == a.lst_addr,
        port_key_of(a).dst_addr == a.dst_addr,
        port_key_of(a).local_addr == a.local_addr,
        map_key_of(a).lst_addr == a.lst_addr,
        map_key_of(a).dst_addr == a.dst_addr,
        port_key_of(a) == port_key_of(b) <==> a.lst_addr == b.lst_addr && a.dst_addr == b.dst_addr
            && a.local_addr == b.local_addr,
        map_key_of(a) == map_key_of(b) <==> a.lst_addr == b.lst_addr && a.dst_addr == b.dst_addr,
{
}

/// Success and a socket that is not ready are no reason to give a connection up;
/// everything else is.
pub proof fn law_what_is_harmless(r: Result<(), Error>)
    ensures
        harmless(r) <==> (r matches Err(e) ==> e == Error::WouldBlock),
{
}

/// A reading ends with the first message that was received, and with no other; it
/// leaves the frames under way alone.
pub proof fn law_reading_takes_the_first<RM, WM>(
    before: MsgCtxView<RM, WM>,
    after: MsgCtxView<RM, WM>,
    step: ReadLoop<RM>,
)
    requires
        read_on(before, after, step),
    ensures
        after.rx == before.rx,
        after.tx == before.tx,
        before.received.len() > 0 ==> {
            &&& step matches ReadLoop::Done(Ok(m)) && m == before.received[0]
            &&& before.received == seq![before.received[0]] + after.received
        },
        before.received.len() == 0 ==> step is Again && after.received.len() == 0,
{
    if before.received.len() > 0 {
        assert(before.received =~= seq![before.received[0]] + before.received.drop_first());
    }
}

} // verus!
