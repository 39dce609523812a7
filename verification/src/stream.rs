//! Frames as they travel: what a receiver makes of the bytes that arrive in
//! pieces, and what a sender has given to a socket that takes it in pieces.

use vstd::prelude::*;

use crate::frame;
use crate::frame::{HEADER_LEN, MAX_FRAG};

verus! {

broadcast use vstd::seq_lib::group_seq_properties;

/// The state of a receiver between two reads: the announced payload length, once
/// the header is complete, and the bytes of the current part (header or payload).
#[verifier::ext_equal]
pub struct Rx {
    pub frag: Option<usize>,
    pub buf: Seq<u8>,
}

/// What the bytes of one read lead to.
#[verifier::ext_equal]
pub enum RxStep {
    /// The current part is not complete yet.
    More,
    /// The header is complete and announces this many bytes.
    Body(usize),
    /// The header announces more than a receiver takes.
    TooLarge,
    /// The payload is complete.
    Payload(Seq<u8>),
}

/// A receiver at the start of a frame.
pub open spec fn rx_idle() -> Rx {
    Rx { frag: None, buf: Seq::empty() }
}

/// The current part is never complete between two reads; a payload that was
/// announced with length zero has no bytes, and neither has one that is too large.
pub open spec fn rx_wf(rx: Rx) -> bool {
    match rx.frag {
        None => rx.buf.len() < HEADER_LEN,
        Some(n) => rx.buf.len() == 0 || rx.buf.len() < n <= MAX_FRAG,
    }
}

/// The header announced more than a receiver takes: nothing can be read until
/// the receiver is reset.
pub open spec fn rx_oversized(rx: Rx) -> bool {
    rx.frag matches Some(n) && n > MAX_FRAG
}

/// How many bytes the current part still lacks: a read asks for no more.
pub open spec fn rx_want(rx: Rx) -> int {
    match rx.frag {
        None => HEADER_LEN - rx.buf.len(),
        Some(n) => n - rx.buf.len(),
    }
}

/// The payload length that a complete header announces on this machine.
pub open spec fn announced(head: Seq<u8>) -> usize {
    frame::be_value(head) as usize
}

/// The effect of a read that gave `data`.
pub open spec fn rx_step(rx: Rx, data: Seq<u8>) -> (Rx, RxStep) {
    let buf = rx.buf + data;
    match rx.frag {
        None => if buf.len() < HEADER_LEN {
            (Rx { frag: None, buf }, RxStep::More)
        } else if announced(buf) > MAX_FRAG {
            (Rx { frag: Some(announced(buf)), buf: Seq::empty() }, RxStep::TooLarge)
        } else {
            (Rx { frag: Some(announced(buf)), buf: Seq::empty() }, RxStep::Body(announced(buf)))
        },
        Some(n) => if buf.len() < n {
            (Rx { frag: Some(n), buf }, RxStep::More)
        } else {
            (rx_idle(), RxStep::Payload(buf))
        },
    }
}

/// The payloads that a receiver delivers while the reads give `chunks`.
pub open spec fn rx_delivered(rx: Rx, chunks: Seq<Seq<u8>>) -> Seq<Seq<u8>>
    decreases chunks.len(),
{
    if chunks.len() == 0 {
        Seq::empty()
    } else {
        let (next, step) = rx_step(rx, chunks[0]);
        let rest = rx_delivered(next, chunks.drop_first());
        match step {
            RxStep::Payload(p) => seq![p] + rest,
            _ => rest,
        }
    }
}

/// The receiver's state after the reads that gave `chunks`.
pub open spec fn rx_after(rx: Rx, chunks: Seq<Seq<u8>>) -> Rx
    decreases chunks.len(),
{
    if chunks.len() == 0 {
        rx
    } else {
        rx_after(rx_step(rx, chunks[0]).0, chunks.drop_first())
    }
}

/// Each read gave at least one byte, and no more than was asked for.
pub open spec fn reads_fit(rx: Rx, chunks: Seq<Seq<u8>>) -> bool
    decreases chunks.len(),
{
    chunks.len() > 0 ==> {
        &&& 0 < chunks[0].len() <= rx_want(rx)
        &&& reads_fit(rx_step(rx, chunks[0]).0, chunks.drop_first())
    }
}

/// The bytes of all `chunks`, in order.
pub open spec fn joined(chunks: Seq<Seq<u8>>) -> Seq<u8>
    decreases chunks.len(),
{
    if chunks.len() == 0 {
        Seq::empty()
    } else {
        chunks[0] + joined(chunks.drop_first())
    }
}

/// A payload that a receiver takes: not empty, and not too large.
pub open spec fn deliverable(payload: Seq<u8>) -> bool {
    0 < payload.len() <= MAX_FRAG
}

/// The state of a receiver that has read the first `k` bytes of the frame of `p`.
spec fn rx_at(p: Seq<u8>, k: int) -> Rx {
    if k < HEADER_LEN {
        Rx { frag: None, buf: frame::frame(p).take(k) }
    } else {
        Rx { frag: Some(p.len() as usize), buf: p.take(k - HEADER_LEN) }
    }
}

proof fn lemma_header_announces(p: Seq<u8>)
    requires
        deliverable(p),
    ensures
        frame::header(p.len()).len() == 8,
        announced(frame::header(p.len())) == p.len(),
{
    frame::law_header_is_read_back(p.len());
}

proof fn lemma_step_in_frame(p: Seq<u8>, k: int, data: Seq<u8>)
    requires
        deliverable(p),
        0 <= k < 8 + p.len(),
        0 < data.len() <= rx_want(rx_at(p, k)),
        k + data.len() <= 8 + p.len(),
        data == frame::frame(p).subrange(k, k + data.len()),
    ensures
        k + data.len() < 8 + p.len() ==> {
            &&& rx_step(rx_at(p, k), data).0 == rx_at(p, k + data.len())
            &&& !(rx_step(rx_at(p, k), data).1 is Payload)
            &&& !(rx_step(rx_at(p, k), data).1 is TooLarge)
        },
        k + data.len() == 8 + p.len() ==> rx_step(rx_at(p, k), data) == (
            rx_idle(),
            RxStep::Payload(p),
        ),
{
    let f = frame::frame(p);
    let rx = rx_at(p, k);
    let buf = rx.buf + data;
    lemma_header_announces(p);
    if k < 8 {
        assert(buf =~= f.take(k + data.len()));
        if buf.len() == 8 {
            assert(buf =~= frame::header(p.len()));
            assert(rx_at(p, 8).buf =~= Seq::<u8>::empty());
        }
    } else {
        assert(buf =~= p.take(k - 8 + data.len()));
        if buf.len() == p.len() {
            assert(buf =~= p);
        }
    }
}

proof fn lemma_stream(ps: Seq<Seq<u8>>, k: int, chunks: Seq<Seq<u8>>, tail: Seq<u8>)
    requires
        forall|i: int| 0 <= i < ps.len() ==> deliverable(#[trigger] ps[i]),
        ps.len() == 0 ==> k == 0,
        ps.len() > 0 ==> 0 <= k < 8 + ps[0].len(),
        reads_fit(if ps.len() == 0 { rx_idle() } else { rx_at(ps[0], k) }, chunks),
        joined(chunks) + tail == frame::frames(ps).skip(k),
    ensures
        ({
            let rx = if ps.len() == 0 { rx_idle() } else { rx_at(ps[0], k) };
            let out = rx_delivered(rx, chunks);
            &&& out.len() <= ps.len()
            &&& out == ps.take(out.len() as int)
            &&& tail.len() == 0 ==> out == ps && rx_after(rx, chunks) == rx_idle()
            &&& !rx_oversized(rx_after(rx, chunks))
        }),
    decreases chunks.len(),
{
    let rx = if ps.len() == 0 { rx_idle() } else { rx_at(ps[0], k) };
    let stream = frame::frames(ps).skip(k);
    if ps.len() > 0 {
        lemma_header_announces(ps[0]);
        assert(frame::frames(ps) == frame::frame(ps[0]) + frame::frames(ps.drop_first()));
    }
    if chunks.len() == 0 {
        assert(ps.take(0) =~= Seq::<Seq<u8>>::empty());
        if tail.len() == 0 {
            assert(stream.len() == 0);
            assert(ps =~= Seq::<Seq<u8>>::empty());
        }
    } else {
        let c = chunks[0];
        let rest = chunks.drop_first();
        assert(joined(chunks) + tail =~= c + (joined(rest) + tail));
        assert(stream.len() >= c.len());
        assert(ps.len() > 0);
        let p = ps[0];
        let f = frame::frame(p);
        assert(c =~= f.subrange(k, k + c.len())) by {
            assert(c =~= stream.take(c.len() as int));
        }
        assert(joined(rest) + tail =~= stream.skip(c.len() as int));
        lemma_step_in_frame(p, k, c);
        if k + c.len() < 8 + p.len() {
            assert(stream.skip(c.len() as int) =~= frame::frames(ps).skip(k + c.len()));
            lemma_stream(ps, k + c.len(), rest, tail);
        } else {
            let others = ps.drop_first();
            assert(stream.skip(c.len() as int) =~= frame::frames(others));
            assert(frame::frames(others).skip(0) =~= frame::frames(others));
            if others.len() > 0 {
                assert(rx_at(others[0], 0).buf =~= Seq::<u8>::empty());
                assert(rx_at(others[0], 0) =~= rx_idle());
            }
            assert forall|i: int| 0 <= i < others.len() implies deliverable(#[trigger] others[i]) by {
                assert(others[i] == ps[i + 1]);
            }
            lemma_stream(others, 0, rest, tail);
            let sub = rx_delivered(rx_idle(), rest);
            let out = rx_delivered(rx, chunks);
            assert(out =~= seq![p] + sub);
            assert(seq![p] + others.take(sub.len() as int) =~= ps.take(out.len() as int));
            if tail.len() == 0 {
                assert(seq![p] + others =~= ps);
            }
        }
    }
}

/// What was sent is what is received: when the bytes of the frames of `payloads`
/// arrive, split over reads in any way, the receiver delivers exactly `payloads`,
/// in order, and is then at the start of a frame.
pub proof fn law_frames_are_received(payloads: Seq<Seq<u8>>, chunks: Seq<Seq<u8>>)
    requires
        forall|i: int| 0 <= i < payloads.len() ==> deliverable(#[trigger] payloads[i]),
        reads_fit(rx_idle(), chunks),
        joined(chunks) == frame::frames(payloads),
    ensures
        rx_delivered(rx_idle(), chunks) == payloads,
        rx_after(rx_idle(), chunks) == rx_idle(),
{
    law_prefix_is_received(payloads, chunks, Seq::empty());
}

/// While the frames of `payloads` are still arriving, what the receiver has
/// delivered is a beginning of `payloads`, and no header is refused.
pub proof fn law_prefix_is_received(
    payloads: Seq<Seq<u8>>,
    chunks: Seq<Seq<u8>>,
    tail: Seq<u8>,
)
    requires
        forall|i: int| 0 <= i < payloads.len() ==> deliverable(#[trigger] payloads[i]),
        reads_fit(rx_idle(), chunks),
        joined(chunks) + tail == frame::frames(payloads),
    ensures
        rx_delivered(rx_idle(), chunks).len() <= payloads.len(),
        rx_delivered(rx_idle(), chunks) == payloads.take(
            rx_delivered(rx_idle(), chunks).len() as int,
        ),
        tail.len() == 0 ==> rx_delivered(rx_idle(), chunks) == payloads,
        tail.len() == 0 ==> rx_after(rx_idle(), chunks) == rx_idle(),
        !rx_oversized(rx_after(rx_idle(), chunks)),
{
    assert(frame::frames(payloads).skip(0) =~= frame::frames(payloads));
    if payloads.len() > 0 {
        assert(rx_at(payloads[0], 0).buf =~= Seq::<u8>::empty());
        assert(rx_at(payloads[0], 0) =~= rx_idle());
    }
    lemma_stream(payloads, 0, chunks, tail);
}

/// The state of a sender: the messages that wait, and the bytes of the current
/// frame that the socket has not taken yet, if a frame is under way.
#[verifier::ext_equal]
pub struct Tx<M> {
    pub queued: Seq<M>,
    pub out: Option<Seq<u8>>,
}

/// A frame that is under way has bytes left.
pub open spec fn tx_wf<M>(tx: Tx<M>) -> bool {
    tx.out matches Some(rest) ==> rest.len() > 0
}

/// A sender that owes nothing.
pub open spec fn tx_idle<M>() -> Tx<M> {
    Tx { queued: Seq::empty(), out: None }
}

/// The sender after `msg` was queued.
pub open spec fn tx_queue<M>(tx: Tx<M>, msg: M) -> Tx<M> {
    Tx { queued: tx.queued.push(msg), out: tx.out }
}

/// The sender after it turned the first message that waits into the frame of `payload`.
pub open spec fn tx_load<M>(tx: Tx<M>, payload: Seq<u8>) -> Tx<M> {
    Tx { queued: tx.queued.drop_first(), out: Some(frame::frame(payload)) }
}

/// The sender after the socket took `n` bytes.
pub open spec fn tx_wrote<M>(tx: Tx<M>, n: int) -> Tx<M> {
    Tx {
        queued: tx.queued,
        out: if n == tx.out->0.len() {
            None
        } else {
            Some(tx.out->0.skip(n))
        },
    }
}

/// One thing that a sender does.
pub enum TxMove<M> {
    Queue(M),
    Load,
    Wrote(int),
}

/// The sender after one move, where `enc` gives the payload of a message.
pub open spec fn tx_move<M>(enc: spec_fn(M) -> Seq<u8>, tx: Tx<M>, mv: TxMove<M>) -> Tx<M> {
    match mv {
        TxMove::Queue(msg) => tx_queue(tx, msg),
        TxMove::Load => tx_load(tx, enc(tx.queued[0])),
        TxMove::Wrote(n) => tx_wrote(tx, n),
    }
}

/// A frame is loaded when none is under way and a message waits; the socket takes
/// bytes of a frame under way.
pub open spec fn move_fits<M>(tx: Tx<M>, mv: TxMove<M>) -> bool {
    match mv {
        TxMove::Queue(_) => true,
        TxMove::Load => tx.out is None && tx.queued.len() > 0,
        TxMove::Wrote(n) => tx.out is Some && 0 <= n <= tx.out->0.len(),
    }
}

pub open spec fn moves_fit<M>(
    enc: spec_fn(M) -> Seq<u8>,
    tx: Tx<M>,
    moves: Seq<TxMove<M>>,
) -> bool
    decreases moves.len(),
{
    moves.len() > 0 ==> {
        &&& move_fits(tx, moves[0])
        &&& moves_fit(enc, tx_move(enc, tx, moves[0]), moves.drop_first())
    }
}

/// The sender after `moves`.
pub open spec fn tx_after<M>(
    enc: spec_fn(M) -> Seq<u8>,
    tx: Tx<M>,
    moves: Seq<TxMove<M>>,
) -> Tx<M>
    decreases moves.len(),
{
    if moves.len() == 0 {
        tx
    } else {
        tx_after(enc, tx_move(enc, tx, moves[0]), moves.drop_first())
    }
}

/// The bytes that the socket took during `moves`.
pub open spec fn tx_sent<M>(
    enc: spec_fn(M) -> Seq<u8>,
    tx: Tx<M>,
    moves: Seq<TxMove<M>>,
) -> Seq<u8>
    decreases moves.len(),
{
    if moves.len() == 0 {
        Seq::empty()
    } else {
        let now = match moves[0] {
            TxMove::Wrote(n) => tx.out->0.take(n),
            _ => Seq::empty(),
        };
        now + tx_sent(enc, tx_move(enc, tx, moves[0]), moves.drop_first())
    }
}

/// The messages that were queued during `moves`.
pub open spec fn queued_during<M>(moves: Seq<TxMove<M>>) -> Seq<M>
    decreases moves.len(),
{
    if moves.len() == 0 {
        Seq::empty()
    } else {
        let now = match moves[0] {
            TxMove::Queue(msg) => seq![msg],
            _ => Seq::empty(),
        };
        now + queued_during(moves.drop_first())
    }
}

/// The bytes that a sender has yet to give to the socket.
pub open spec fn tx_owed<M>(enc: spec_fn(M) -> Seq<u8>, tx: Tx<M>) -> Seq<u8> {
    (match tx.out {
        Some(rest) => rest,
        None => Seq::empty(),
    }) + frame::frames(tx.queued.map_values(enc))
}

#[verifier::spinoff_prover]
proof fn lemma_frames_add(a: Seq<Seq<u8>>, b: Seq<Seq<u8>>)
    ensures
        frame::frames(a + b) == frame::frames(a) + frame::frames(b),
    decreases a.len(),
{
    if a.len() == 0 {
        assert(a + b =~= b);
    } else {
        lemma_frames_add(a.drop_first(), b);
        assert((a + b).drop_first() =~= a.drop_first() + b);
    }
}

proof fn lemma_frames_one(p: Seq<u8>)
    ensures
        frame::frames(seq![p]) == frame::frame(p),
{
    reveal_with_fuel(frame::frames, 2);
    assert(seq![p].drop_first() =~= Seq::<Seq<u8>>::empty());
    assert(frame::frames(seq![p]) =~= frame::frame(p));
}

/// A sender owes nothing exactly when it is idle.
pub proof fn law_idle_owes_nothing<M>(enc: spec_fn(M) -> Seq<u8>, tx: Tx<M>)
    requires
        tx_wf(tx),
    ensures
        tx_owed(enc, tx).len() == 0 <==> tx == tx_idle::<M>(),
{
    let payloads = tx.queued.map_values(enc);
    if tx.queued.len() == 0 {
        assert(tx.queued =~= Seq::empty());
        assert(payloads =~= Seq::<Seq<u8>>::empty());
    } else {
        frame::law_frame_is_longer(payloads[0]);
    }
}

/// However a sender moves, a frame that is under way has bytes left.
pub proof fn law_frame_under_way_has_bytes<M>(
    enc: spec_fn(M) -> Seq<u8>,
    tx: Tx<M>,
    moves: Seq<TxMove<M>>,
)
    requires
        tx_wf(tx),
        moves_fit(enc, tx, moves),
    ensures
        tx_wf(tx_after(enc, tx, moves)),
    decreases moves.len(),
{
    if moves.len() > 0 {
        if moves[0] is Load {
            frame::law_frame_is_longer(enc(tx.queued[0]));
        }
        law_frame_under_way_has_bytes(enc, tx_move(enc, tx, moves[0]), moves.drop_first());
    }
}

/// Nothing is lost or invented on the way out: the bytes that the socket took,
/// with those still owed, are those owed before and the frames of the messages
/// queued meanwhile, in order. And nothing is owed exactly when the sender is idle.
#[verifier::rlimit(30)]
pub proof fn law_sent_and_owed<M>(
    enc: spec_fn(M) -> Seq<u8>,
    tx: Tx<M>,
    moves: Seq<TxMove<M>>,
)
    requires
        moves_fit(enc, tx, moves),
    ensures
        tx_sent(enc, tx, moves) + tx_owed(enc, tx_after(enc, tx, moves)) == tx_owed(enc, tx)
            + frame::frames(queued_during(moves).map_values(enc)),
        tx_wf(tx) ==> tx_wf(tx_after(enc, tx, moves)),
        tx_wf(tx) ==> (tx_owed(enc, tx_after(enc, tx, moves)).len() == 0 <==> tx_after(
            enc,
            tx,
            moves,
        ) == tx_idle::<M>()),
    decreases moves.len(),
{
    if tx_wf(tx) {
        law_frame_under_way_has_bytes(enc, tx, moves);
        law_idle_owes_nothing(enc, tx_after(enc, tx, moves));
    }
    let news = queued_during(moves).map_values(enc);
    if moves.len() == 0 {
        assert(news =~= Seq::<Seq<u8>>::empty());
        assert(tx_sent(enc, tx, moves) + tx_owed(enc, tx) =~= tx_owed(enc, tx) + frame::frames(news));
    } else {
        let next = tx_move(enc, tx, moves[0]);
        let rest = moves.drop_first();
        let later = queued_during(rest).map_values(enc);
        law_sent_and_owed(enc, next, rest);
        match moves[0] {
            TxMove::Queue(msg) => {
                assert(news =~= seq![enc(msg)] + later);
                lemma_frames_add(seq![enc(msg)], later);
                lemma_frames_one(enc(msg));
                assert(next.queued.map_values(enc) =~= tx.queued.map_values(enc) + seq![enc(msg)]);
                lemma_frames_add(tx.queued.map_values(enc), seq![enc(msg)]);
                assert(tx_owed(enc, next) =~= tx_owed(enc, tx) + frame::frame(enc(msg)));
                assert(tx_owed(enc, next) + frame::frames(later) =~= tx_owed(enc, tx)
                    + frame::frames(news));
            },
            TxMove::Load => {
                assert(news =~= later);
                let all = tx.queued.map_values(enc);
                assert(all.drop_first() =~= next.queued.map_values(enc));
                assert(tx_owed(enc, next) =~= tx_owed(enc, tx));
            },
            TxMove::Wrote(n) => {
                assert(news =~= later);
                let now = tx.out->0.take(n);
                assert(now + tx_owed(enc, next) =~= tx_owed(enc, tx));
                assert(tx_sent(enc, tx, moves) + tx_owed(enc, tx_after(enc, tx, moves)) =~= now + (
                tx_sent(enc, next, rest) + tx_owed(enc, tx_after(enc, next, rest))));
                assert(now + (tx_owed(enc, next) + frame::frames(later)) =~= tx_owed(enc, tx)
                    + frame::frames(news));
            },
        }
        if !(moves[0] is Wrote) {
            assert(tx_sent(enc, tx, moves) =~= tx_sent(enc, next, rest));
        }
    }
}

/// What a read gives back of a write: when a sender has sent all that it was
/// given, and the receiver has read the same bytes, each in pieces of any size,
/// the receiver has one payload for each message, in order, and decoding gives the
/// messages back, whatever the codec, if it decodes what it encodes.
pub proof fn law_messages_round_trip<M>(
    enc: spec_fn(M) -> Seq<u8>,
    dec: spec_fn(Seq<u8>) -> Option<M>,
    moves: Seq<TxMove<M>>,
    chunks: Seq<Seq<u8>>,
)
    requires
        forall|i: int|
            0 <= i < queued_during(moves).len() ==> {
                let msg = #[trigger] queued_during(moves)[i];
                deliverable(enc(msg)) && dec(enc(msg)) == Some(msg)
            },
        moves_fit(enc, tx_idle(), moves),
        tx_after(enc, tx_idle(), moves) == tx_idle::<M>(),
        reads_fit(rx_idle(), chunks),
        joined(chunks) == tx_sent(enc, tx_idle(), moves),
    ensures
        rx_delivered(rx_idle(), chunks) == queued_during(moves).map_values(enc),
        rx_delivered(rx_idle(), chunks).map_values(dec) == queued_during(moves).map_values(
            |m: M| Some(m),
        ),
        rx_after(rx_idle(), chunks) == rx_idle(),
{
    let msgs = queued_during(moves);
    let payloads = msgs.map_values(enc);
    law_sent_and_owed(enc, tx_idle(), moves);
    assert(tx_idle::<M>().queued.map_values(enc) =~= Seq::<Seq<u8>>::empty());
    assert(tx_owed(enc, tx_idle::<M>()) =~= Seq::<u8>::empty());
    assert(joined(chunks) =~= frame::frames(payloads));
    assert forall|i: int| 0 <= i < payloads.len() implies deliverable(#[trigger] payloads[i]) by {
        assert(payloads[i] == enc(msgs[i]));
    }
    law_frames_are_received(payloads, chunks);
    assert(payloads.map_values(dec) =~= msgs.map_values(|m: M| Some(m)));
}

/// The messages that `payloads` stand for, where `dec` decodes a payload; one that
/// stands for no message is left out.
pub open spec fn decoded<M>(
    dec: spec_fn(Seq<u8>) -> Option<M>,
    payloads: Seq<Seq<u8>>,
) -> Seq<M>
    decreases payloads.len(),
{
    if payloads.len() == 0 {
        Seq::empty()
    } else {
        let now = match dec(payloads[0]) {
            Some(m) => seq![m],
            None => Seq::empty(),
        };
        now + decoded(dec, payloads.drop_first())
    }
}

/// The message that a read of `data` completes, if it completes one.
pub open spec fn read_gives<M>(
    dec: spec_fn(Seq<u8>) -> Option<M>,
    rx: Rx,
    data: Seq<u8>,
) -> Seq<M> {
    match rx_step(rx, data).1 {
        RxStep::Payload(p) => match dec(p) {
            Some(m) => seq![m],
            None => Seq::empty(),
        },
        _ => Seq::empty(),
    }
}

/// A receiver takes the payload of each of `msgs`, and decoding it gives the message
/// back.
pub open spec fn carried<M>(
    enc: spec_fn(M) -> Seq<u8>,
    dec: spec_fn(Seq<u8>) -> Option<M>,
    msgs: Seq<M>,
) -> bool {
    forall|i: int|
        0 <= i < msgs.len() ==> {
            let msg = #[trigger] msgs[i];
            deliverable(enc(msg)) && dec(enc(msg)) == Some(msg)
        }
}

/// The messages that reads complete are those that the delivered payloads stand for.
pub(crate) proof fn lemma_read_gives<M>(
    dec: spec_fn(Seq<u8>) -> Option<M>,
    rx: Rx,
    data: Seq<u8>,
    chunks: Seq<Seq<u8>>,
)
    ensures
        decoded(dec, rx_delivered(rx, seq![data] + chunks)) == read_gives(dec, rx, data) + decoded(
            dec,
            rx_delivered(rx_step(rx, data).0, chunks),
        ),
{
    let rest = rx_delivered(rx_step(rx, data).0, chunks);
    assert((seq![data] + chunks).drop_first() =~= chunks);
    if let RxStep::Payload(p) = rx_step(rx, data).1 {
        assert((seq![p] + rest).drop_first() =~= rest);
    }
}

proof fn lemma_decoded_again<M>(
    enc: spec_fn(M) -> Seq<u8>,
    dec: spec_fn(Seq<u8>) -> Option<M>,
    msgs: Seq<M>,
)
    requires
        carried(enc, dec, msgs),
    ensures
        decoded(dec, msgs.map_values(enc)) == msgs,
    decreases msgs.len(),
{
    let payloads = msgs.map_values(enc);
    if msgs.len() == 0 {
        assert(decoded(dec, payloads) =~= msgs);
    } else {
        let rest = msgs.drop_first();
        assert forall|i: int| 0 <= i < rest.len() implies {
            let msg = #[trigger] rest[i];
            deliverable(enc(msg)) && dec(enc(msg)) == Some(msg)
        } by {
            assert(rest[i] == msgs[i + 1]);
        }
        lemma_decoded_again(enc, dec, rest);
        assert(payloads.drop_first() =~= rest.map_values(enc));
        assert(payloads[0] == enc(msgs[0]));
        assert(seq![msgs[0]] + rest =~= msgs);
    }
}

/// Over one connection messages arrive in the order in which they were queued: when
/// the bytes that were read are a beginning of those that were sent, the messages
/// that arrived are a beginning of those that waited or were queued meanwhile. All
/// have arrived once all bytes were read and the sender is idle.
pub proof fn law_messages_arrive_in_order<M>(
    enc: spec_fn(M) -> Seq<u8>,
    dec: spec_fn(Seq<u8>) -> Option<M>,
    tx: Tx<M>,
    moves: Seq<TxMove<M>>,
    chunks: Seq<Seq<u8>>,
    tail: Seq<u8>,
)
    requires
        tx.out is None,
        carried(enc, dec, tx.queued + queued_during(moves)),
        moves_fit(enc, tx, moves),
        reads_fit(rx_idle(), chunks),
        joined(chunks) + tail == tx_sent(enc, tx, moves),
    ensures
        ({
            let msgs = tx.queued + queued_during(moves);
            let arrived = decoded(dec, rx_delivered(rx_idle(), chunks));
            &&& arrived.is_prefix_of(msgs)
            &&& tail.len() == 0 && tx_after(enc, tx, moves) == tx_idle::<M>() ==> arrived == msgs
        }),
{
    let msgs = tx.queued + queued_during(moves);
    let payloads = msgs.map_values(enc);
    let after = tx_after(enc, tx, moves);
    let owed = tx_owed(enc, after);
    law_sent_and_owed(enc, tx, moves);
    if after == tx_idle::<M>() {
        law_idle_owes_nothing(enc, after);
    }
    let waiting = tx.queued.map_values(enc);
    let news = queued_during(moves).map_values(enc);
    assert(payloads =~= waiting + news);
    lemma_frames_add(waiting, news);
    assert(tx_owed(enc, tx) =~= frame::frames(waiting));
    assert(joined(chunks) + (tail + owed) =~= frame::frames(payloads));
    assert forall|i: int| 0 <= i < payloads.len() implies deliverable(#[trigger] payloads[i]) by {
        assert(payloads[i] == enc(msgs[i]));
    }
    law_prefix_is_received(payloads, chunks, tail + owed);
    let n = rx_delivered(rx_idle(), chunks).len() as int;
    let part = msgs.take(n);
    assert forall|i: int| 0 <= i < part.len() implies {
        let msg = #[trigger] part[i];
        deliverable(enc(msg)) && dec(enc(msg)) == Some(msg)
    } by {
        assert(part[i] == msgs[i]);
    }
    lemma_decoded_again(enc, dec, part);
    assert(payloads.take(n) =~= part.map_values(enc));
    if tail.len() == 0 && after == tx_idle::<M>() {
        assert(part =~= msgs);
    }
}

/// The number that eight bytes stand for, the most significant first.
pub open spec fn value_of_eight(head: Seq<u8>) -> int {
    head[0] * 72057594037927936 + head[1] * 281474976710656 + head[2] * 1099511627776 + head[3]
        * 4294967296 + head[4] * 16777216 + head[5] * 65536 + head[6] * 256 + head[7]
}

/// How a receiver gets through a header: it asks for what is missing of eight bytes,
/// keeps what came, and once it has them all goes on with the payload that they
/// announce, unless that is longer than 100 MiB.
pub proof fn law_header_is_awaited(buf: Seq<u8>, data: Seq<u8>)
    requires
        buf.len() < 8,
        0 < data.len() <= 8 - buf.len(),
    ensures
        ({
            let rx = Rx { frag: None, buf };
            let (next, step) = rx_step(rx, data);
            let n = value_of_eight(buf + data) as usize;
            &&& rx_want(rx) == 8 - buf.len()
            &&& !rx_oversized(rx)
            &&& buf.len() + data.len() < 8 ==> {
                &&& step is More
                &&& next.frag is None
                &&& next.buf == buf + data
            }
            &&& buf.len() + data.len() == 8 ==> {
                &&& next.frag == Some(n)
                &&& next.buf.len() == 0
                &&& step is TooLarge <==> n > 104857600
                &&& step is Body <==> n <= 104857600
                &&& step matches RxStep::Body(k) ==> k == n
                &&& rx_oversized(next) <==> n > 104857600
            }
        }),
{
    if buf.len() + data.len() == 8 {
        frame::law_value_is_big_endian(buf + data);
    }
}

/// How a receiver gets through a payload: it asks for what is missing of the length
/// that was announced, keeps what came, and delivers the payload exactly when it is
/// complete; it is then at the start of a frame.
pub proof fn law_payload_is_awaited(n: usize, buf: Seq<u8>, data: Seq<u8>)
    requires
        buf.len() < n <= 104857600,
        0 < data.len() <= n - buf.len(),
    ensures
        ({
            let rx = Rx { frag: Some(n), buf };
            let (next, step) = rx_step(rx, data);
            &&& rx_want(rx) == n - buf.len()
            &&& !rx_oversized(rx)
            &&& step is Payload <==> buf.len() + data.len() == n
            &&& step matches RxStep::Payload(p) ==> p == buf + data && next.frag is None
                && next.buf.len() == 0
            &&& !(step is Payload) ==> step is More && next.frag == Some(n) && next.buf == buf
                + data
        }),
{
}

/// How a sender gets on: a message that is queued goes behind those that wait; the
/// frame that is loaded is that of the first; the socket takes from the front of it,
/// and it is done when all of it is taken. None of these touches the rest.
pub proof fn law_sender_steps<M>(tx: Tx<M>, m: M, payload: Seq<u8>, n: int)
    ensures
        tx_queue(tx, m).queued == tx.queued.push(m),
        tx_queue(tx, m).out == tx.out,
        tx.queued.len() > 0 ==> tx_load(tx, payload).queued == tx.queued.subrange(
            1,
            tx.queued.len() as int,
        ),
        tx_load(tx, payload).out == Some(frame::header(payload.len()) + payload),
        tx.out matches Some(rest) ==> 0 <= n <= rest.len() ==> {
            let after = tx_wrote(tx, n);
            &&& after.queued == tx.queued
            &&& n == rest.len() ==> after.out is None
            &&& n < rest.len() ==> after.out == Some(rest.subrange(n, rest.len() as int))
        },
        tx_idle::<M>().queued.len() == 0 && tx_idle::<M>().out is None,
        rx_idle().frag is None && rx_idle().buf.len() == 0,
{
    if tx.queued.len() > 0 {
        assert(tx.queued.drop_first() =~= tx.queued.subrange(1, tx.queued.len() as int));
    }
    if tx.out is Some && 0 <= n < tx.out->0.len() {
        assert(tx.out->0.skip(n) =~= tx.out->0.subrange(n, tx.out->0.len() as int));
    }
}

/// A read asks for exactly what is missing of the header, or of the payload; a payload
/// of more than 100 MiB, and no other, is too large.
pub proof fn law_read_asks_for_what_is_missing(rx: Rx)
    ensures
        rx.frag is None ==> rx.buf.len() + rx_want(rx) == 8,
        rx.frag matches Some(n) ==> rx.buf.len() + rx_want(rx) == n,
        rx_oversized(rx) <==> (rx.frag matches Some(n) && n > 104857600),
{
}

} // verus!
