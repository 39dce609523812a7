//! The relay between two endpoints that can both be reached but cannot reach each other.

use vstd::prelude::*;

use crate::addr::SocketAddr;
use crate::error::Error;
use crate::msg;
use crate::msg::{Msg, MsgCtx, MsgCtxView};
use crate::stream;
use crate::stream::TxMove;
use crate::text;

verus! {

/// The relay's side of the connection to one endpoint.
pub struct Hole {
    pub msg_ctx: MsgCtx<Msg, Msg>,
}

/// What the relay does after a read or a write.
#[derive(Clone, Copy, Debug, PartialEq, Eq, Structural)]
pub enum HoleAction {
    /// Wait for the next event.
    Wait,
    /// Connect to the endpoint anew.
    Reconnect,
}

/// The complaint about a wrong number of endpoints.
pub open spec fn eps_complaint(n: nat) -> Seq<char> {
    "Expect 2 ep, found "@ + text::decimal(n)
}

/// The two endpoints to join, or a complaint if there are not two.
pub fn hole(eps: Vec<SocketAddr>) -> (r: Result<(SocketAddr, SocketAddr), String>)
    ensures
        match r {
            Ok((a, b)) => eps@.len() == 2 && a == eps@[0] && b == eps@[1],
            Err(s) => eps@.len() != 2 && s@ == eps_complaint(eps@.len()),
        },
{
    if eps.len() != 2 {
        let mut s = String::new();
        s.append("Expect 2 ep, found ");
        text::push_decimal(&mut s, eps.len() as u64);
        assert(s@ =~= eps_complaint(eps@.len()));
        return Err(s);
    }
    Ok((eps[0], eps[1]))
}

/// A context after a message of the other endpoint was queued.
pub open spec fn with_msg(ctx: MsgCtxView<Msg, Msg>, m: Msg) -> MsgCtxView<Msg, Msg> {
    MsgCtxView { tx: stream::tx_queue(ctx.tx, m), ..ctx }
}

/// A context after the first message that was read was given away, and that message,
/// if there is one.
pub open spec fn first_given(ctx: MsgCtxView<Msg, Msg>) -> (MsgCtxView<Msg, Msg>, Option<Msg>) {
    if ctx.received.len() > 0 {
        (MsgCtxView { received: ctx.received.drop_first(), ..ctx }, Some(ctx.received[0]))
    } else {
        (ctx, None)
    }
}

impl Hole {
    pub open spec fn wf(&self) -> bool {
        self.msg_ctx.wf()
    }

    /// A relay with nothing received and nothing to send.
    pub fn new() -> (hole: Self)
        ensures
            hole.wf(),
            hole.msg_ctx@.rx == stream::rx_idle(),
            hole.msg_ctx@.received == Seq::<Msg>::empty(),
            hole.msg_ctx@.tx == stream::tx_idle::<Msg>(),
    {
        Hole { msg_ctx: MsgCtx::new() }
    }

    /// Takes a message from the other endpoint, to be written to this one.
    pub fn handle_msg_recv(&mut self, msg: Msg)
        requires
            old(self).wf(),
        ensures
            final(self).wf(),
            final(self).msg_ctx@ == with_msg(old(self).msg_ctx@, msg),
    {
        self.msg_ctx.queue_tx_msg(msg);
    }

    /// Gives the first message that was read, to be sent to the other endpoint.
    pub fn handle_msg_send(&mut self) -> (msg: Option<Msg>)
        requires
            old(self).wf(),
        ensures
            final(self).wf(),
            (final(self).msg_ctx@, msg) == first_given(old(self).msg_ctx@),
    {
        self.msg_ctx.pop_rx_msg()
    }

    /// Whether there is something to write to the endpoint.
    pub fn should_write(&self) -> (b: bool)
        ensures
            b == (self.msg_ctx@.tx.out is Some || self.msg_ctx@.tx.queued.len() > 0),
    {
        self.msg_ctx.need_to_write()
    }

    /// Whether there is a message for the other endpoint.
    pub fn should_send(&self) -> (b: bool)
        ensures
            b == (self.msg_ctx@.received.len() > 0),
    {
        self.msg_ctx.have_rx_msg()
    }
}

/// What to do after a read or a write: any failure ends the connection.
pub fn after_io(r: Result<(), Error>) -> (action: HoleAction)
    ensures
        action == if r is Ok {
            HoleAction::Wait
        } else {
            HoleAction::Reconnect
        },
{
    match r {
        Ok(_) => HoleAction::Wait,
        Err(_) => HoleAction::Reconnect,
    }
}

/// What the relay does after it tried to connect to an endpoint.
#[derive(Clone, Copy, Debug, PartialEq, Eq, Structural)]
pub enum ConnectAction {
    /// The connection is there.
    Done,
    /// Try again after this many seconds.
    Retry(u64),
}

/// An endpoint is tried until it can be reached, a second apart.
pub fn connect(reached: bool) -> (action: ConnectAction)
    ensures
        action == if reached {
            ConnectAction::Done
        } else {
            ConnectAction::Retry(1)
        },
{
    if reached {
        ConnectAction::Done
    } else {
        ConnectAction::Retry(1)
    }
}

/// One way through the relay: the context of the endpoint that messages come from,
/// the channel between the two sides, and the context of the endpoint that they go to.
#[verifier::ext_equal]
pub struct RelayView {
    pub from: MsgCtxView<Msg, Msg>,
    pub channel: Seq<Msg>,
    pub to: MsgCtxView<Msg, Msg>,
}

/// One thing that happens at the relay.
pub enum RelayMove {
    /// A read from the one endpoint gave these bytes.
    Read(Seq<u8>),
    /// The one side gives a message (`Hole::handle_msg_send`) to the channel.
    Send,
    /// The other side takes a message (`Hole::handle_msg_recv`) from the channel.
    Recv,
    /// The first message that waits for the other endpoint becomes a frame.
    Load,
    /// The socket of the other endpoint took this many bytes.
    Wrote(int),
    /// Something on the way back: the two contexts are then so.
    Back { from: MsgCtxView<Msg, Msg>, to: MsgCtxView<Msg, Msg> },
}

/// The relay after one move, where `enc` and `dec` encode and decode messages.
pub open spec fn relay_move(
    enc: spec_fn(Msg) -> Seq<u8>,
    dec: spec_fn(Seq<u8>) -> Option<Msg>,
    relay: RelayView,
    mv: RelayMove,
) -> RelayView {
    match mv {
        RelayMove::Read(data) => RelayView { from: msg::ctx_read(dec, relay.from, data), ..relay },
        RelayMove::Send => match first_given(relay.from) {
            (from, Some(m)) => RelayView { from, channel: relay.channel.push(m), ..relay },
            (_, None) => relay,
        },
        RelayMove::Recv => if relay.channel.len() > 0 {
            RelayView {
                channel: relay.channel.drop_first(),
                to: with_msg(relay.to, relay.channel[0]),
                ..relay
            }
        } else {
            relay
        },
        RelayMove::Load => RelayView {
            to: MsgCtxView {
                tx: stream::tx_load(relay.to.tx, enc(relay.to.tx.queued[0])),
                ..relay.to
            },
            ..relay
        },
        RelayMove::Wrote(n) => RelayView {
            to: MsgCtxView { tx: stream::tx_wrote(relay.to.tx, n), ..relay.to },
            ..relay
        },
        RelayMove::Back { from, to } => RelayView { from, to, ..relay },
    }
}

/// A read gives some bytes, and no more than are asked for; frames are loaded and
/// written as they can be; and what happens on the way back leaves this way alone.
pub open spec fn relay_move_fits(relay: RelayView, mv: RelayMove) -> bool {
    match mv {
        RelayMove::Read(data) => 0 < data.len() <= stream::rx_want(relay.from.rx),
        RelayMove::Send | RelayMove::Recv => true,
        RelayMove::Load => stream::move_fits(relay.to.tx, TxMove::Load),
        RelayMove::Wrote(n) => stream::move_fits(relay.to.tx, TxMove::Wrote(n)),
        RelayMove::Back { from, to } => {
            &&& from.rx == relay.from.rx
            &&& from.received == relay.from.received
            &&& to.tx == relay.to.tx
        },
    }
}

pub open spec fn relay_fits(
    enc: spec_fn(Msg) -> Seq<u8>,
    dec: spec_fn(Seq<u8>) -> Option<Msg>,
    relay: RelayView,
    moves: Seq<RelayMove>,
) -> bool
    decreases moves.len(),
{
    moves.len() > 0 ==> {
        &&& relay_move_fits(relay, moves[0])
        &&& relay_fits(enc, dec, relay_move(enc, dec, relay, moves[0]), moves.drop_first())
    }
}

/// The relay after `moves`.
pub open spec fn relay_after(
    enc: spec_fn(Msg) -> Seq<u8>,
    dec: spec_fn(Seq<u8>) -> Option<Msg>,
    relay: RelayView,
    moves: Seq<RelayMove>,
) -> RelayView
    decreases moves.len(),
{
    if moves.len() == 0 {
        relay
    } else {
        relay_after(enc, dec, relay_move(enc, dec, relay, moves[0]), moves.drop_first())
    }
}

/// The messages at the relay that are not yet on their way out, those that leave
/// first in front.
pub open spec fn backlog(relay: RelayView) -> Seq<Msg> {
    relay.to.tx.queued + relay.channel + relay.from.received
}

/// What the reads from the one endpoint gave during `moves`.
pub open spec fn relay_chunks(moves: Seq<RelayMove>) -> Seq<Seq<u8>>
    decreases moves.len(),
{
    if moves.len() == 0 {
        Seq::empty()
    } else {
        let now = match moves[0] {
            RelayMove::Read(data) => seq![data],
            _ => Seq::empty(),
        };
        now + relay_chunks(moves.drop_first())
    }
}

/// The messages that were read from the one endpoint during `moves`.
pub open spec fn relay_read(
    dec: spec_fn(Seq<u8>) -> Option<Msg>,
    relay: RelayView,
    moves: Seq<RelayMove>,
) -> Seq<Msg> {
    stream::decoded(dec, stream::rx_delivered(relay.from.rx, relay_chunks(moves)))
}

/// What the sender to the other endpoint does in a move, if anything.
pub open spec fn relay_tx_move(relay: RelayView, mv: RelayMove) -> Seq<TxMove<Msg>> {
    match mv {
        RelayMove::Recv => if relay.channel.len() > 0 {
            seq![TxMove::Queue(relay.channel[0])]
        } else {
            Seq::empty()
        },
        RelayMove::Load => seq![TxMove::Load],
        RelayMove::Wrote(n) => seq![TxMove::Wrote(n)],
        _ => Seq::empty(),
    }
}

/// What the sender to the other endpoint does during `moves`.
pub open spec fn relay_tx_moves(
    enc: spec_fn(Msg) -> Seq<u8>,
    dec: spec_fn(Seq<u8>) -> Option<Msg>,
    relay: RelayView,
    moves: Seq<RelayMove>,
) -> Seq<TxMove<Msg>>
    decreases moves.len(),
{
    if moves.len() == 0 {
        Seq::empty()
    } else {
        relay_tx_move(relay, moves[0]) + relay_tx_moves(
            enc,
            dec,
            relay_move(enc, dec, relay, moves[0]),
            moves.drop_first(),
        )
    }
}

/// The messages that become frames for the other endpoint during `moves`.
pub open spec fn relay_loaded(
    enc: spec_fn(Msg) -> Seq<u8>,
    dec: spec_fn(Seq<u8>) -> Option<Msg>,
    relay: RelayView,
    moves: Seq<RelayMove>,
) -> Seq<Msg>
    decreases moves.len(),
{
    if moves.len() == 0 {
        Seq::empty()
    } else {
        let now = if moves[0] is Load {
            seq![relay.to.tx.queued[0]]
        } else {
            Seq::empty()
        };
        now + relay_loaded(enc, dec, relay_move(enc, dec, relay, moves[0]), moves.drop_first())
    }
}

/// The relay loses, adds and reorders no message, whatever happens and however often
/// it connects anew: those that became frames, and then those that wait, those in
/// the channel and those received, are those that were there before and those that
/// were read meanwhile, in that order.
#[verifier::spinoff_prover]
#[verifier::rlimit(30)]
pub proof fn law_relay_keeps_order(
    enc: spec_fn(Msg) -> Seq<u8>,
    dec: spec_fn(Seq<u8>) -> Option<Msg>,
    relay: RelayView,
    moves: Seq<RelayMove>,
)
    requires
        relay_fits(enc, dec, relay, moves),
    ensures
        relay_loaded(enc, dec, relay, moves) + backlog(relay_after(enc, dec, relay, moves))
            == backlog(relay) + relay_read(dec, relay, moves),
    decreases moves.len(),
{
    if moves.len() == 0 {
        assert(relay_loaded(enc, dec, relay, moves) + backlog(relay) =~= backlog(relay)
            + relay_read(dec, relay, moves));
    } else {
        let mv = moves[0];
        let rest = moves.drop_first();
        let next = relay_move(enc, dec, relay, mv);
        law_relay_keeps_order(enc, dec, next, rest);
        let loaded = if mv is Load {
            seq![relay.to.tx.queued[0]]
        } else {
            Seq::empty()
        };
        let read = match mv {
            RelayMove::Read(data) => stream::read_gives(dec, relay.from.rx, data),
            _ => Seq::empty(),
        };
        let later = relay_read(dec, next, rest);
        if let RelayMove::Read(data) = mv {
            stream::lemma_read_gives(dec, relay.from.rx, data, relay_chunks(rest));
        } else {
            assert(relay_chunks(moves) =~= relay_chunks(rest));
            assert(read + later =~= later);
        }
        assert(relay_read(dec, relay, moves) == read + later);
        assert(loaded + backlog(next) =~= backlog(relay) + read);
        assert(relay_loaded(enc, dec, relay, moves) + backlog(relay_after(enc, dec, relay, moves))
            =~= loaded + (relay_loaded(enc, dec, next, rest) + backlog(
            relay_after(enc, dec, next, rest),
        )));
        assert(loaded + (backlog(next) + later) =~= (loaded + backlog(next)) + later);
        assert((backlog(relay) + read) + later =~= backlog(relay) + (read + later));
    }
}

proof fn lemma_relay_receiver(
    enc: spec_fn(Msg) -> Seq<u8>,
    dec: spec_fn(Seq<u8>) -> Option<Msg>,
    relay: RelayView,
    moves: Seq<RelayMove>,
)
    requires
        relay_fits(enc, dec, relay, moves),
    ensures
        stream::reads_fit(relay.from.rx, relay_chunks(moves)),
    decreases moves.len(),
{
    if moves.len() > 0 {
        let rest = moves.drop_first();
        lemma_relay_receiver(enc, dec, relay_move(enc, dec, relay, moves[0]), rest);
        if let RelayMove::Read(data) = moves[0] {
            assert((seq![data] + relay_chunks(rest)).drop_first() =~= relay_chunks(rest));
        } else {
            assert(relay_chunks(moves) =~= relay_chunks(rest));
        }
    }
}

proof fn lemma_relay_sender(
    enc: spec_fn(Msg) -> Seq<u8>,
    dec: spec_fn(Seq<u8>) -> Option<Msg>,
    relay: RelayView,
    moves: Seq<RelayMove>,
)
    requires
        relay_fits(enc, dec, relay, moves),
    ensures
        ({
            let after = relay_after(enc, dec, relay, moves).to.tx;
            let tx_moves = relay_tx_moves(enc, dec, relay, moves);
            &&& stream::moves_fit(enc, relay.to.tx, tx_moves)
            &&& after == stream::tx_after(enc, relay.to.tx, tx_moves)
            &&& relay_loaded(enc, dec, relay, moves) + after.queued == relay.to.tx.queued
                + stream::queued_during(tx_moves)
        }),
    decreases moves.len(),
{
    let tx = relay.to.tx;
    let tx_moves = relay_tx_moves(enc, dec, relay, moves);
    let queued = stream::queued_during(tx_moves);
    if moves.len() == 0 {
        assert(relay_loaded(enc, dec, relay, moves) + tx.queued =~= tx.queued + queued);
    } else {
        let mv = moves[0];
        let rest = moves.drop_first();
        let next = relay_move(enc, dec, relay, mv);
        lemma_relay_sender(enc, dec, next, rest);
        let now = relay_tx_move(relay, mv);
        let later = relay_tx_moves(enc, dec, next, rest);
        if now.len() > 0 {
            assert(tx_moves[0] == now[0]);
            assert(tx_moves.drop_first() =~= later);
        } else {
            assert(tx_moves =~= later);
        }
        let loaded = if mv is Load {
            seq![tx.queued[0]]
        } else {
            Seq::empty()
        };
        assert(loaded + (next.to.tx.queued + stream::queued_during(later)) =~= tx.queued + queued);
        assert(relay_loaded(enc, dec, relay, moves) + relay_after(enc, dec, relay, moves).to.tx.queued
            =~= loaded + (relay_loaded(enc, dec, next, rest) + relay_after(
            enc,
            dec,
            next,
            rest,
        ).to.tx.queued));
    }
}

/// The two sides of the relay read and send as any receiver and sender do; and what
/// the sender has been given is a beginning of what was there before and what was
/// read meanwhile, and all of it where nothing is left on the way.
pub(crate) proof fn lemma_relay_sides(
    enc: spec_fn(Msg) -> Seq<u8>,
    dec: spec_fn(Seq<u8>) -> Option<Msg>,
    relay: RelayView,
    moves: Seq<RelayMove>,
)
    requires
        relay_fits(enc, dec, relay, moves),
    ensures
        ({
            let after = relay_after(enc, dec, relay, moves);
            let tx_moves = relay_tx_moves(enc, dec, relay, moves);
            let given = relay.to.tx.queued + stream::queued_during(tx_moves);
            &&& stream::reads_fit(relay.from.rx, relay_chunks(moves))
            &&& stream::moves_fit(enc, relay.to.tx, tx_moves)
            &&& after.to.tx == stream::tx_after(enc, relay.to.tx, tx_moves)
            &&& given + (after.channel + after.from.received) == backlog(relay) + relay_read(
                dec,
                relay,
                moves,
            )
        }),
{
    lemma_relay_receiver(enc, dec, relay, moves);
    lemma_relay_sender(enc, dec, relay, moves);
    law_relay_keeps_order(enc, dec, relay, moves);
    let after = relay_after(enc, dec, relay, moves);
    let loaded = relay_loaded(enc, dec, relay, moves);
    assert(loaded + backlog(after) =~= (loaded + after.to.tx.queued) + (after.channel
        + after.from.received));
}

/// Taking a message for an endpoint puts it behind those that wait and leaves what
/// comes from that endpoint as it is; giving a message away takes the one that was
/// read first and leaves what goes to that endpoint as it is.
pub proof fn law_taking_and_giving(ctx: MsgCtxView<Msg, Msg>, m: Msg)
    ensures
        ({
            let after = with_msg(ctx, m);
            &&& after.rx == ctx.rx
            &&& after.received == ctx.received
            &&& after.tx.out == ctx.tx.out
            &&& after.tx.queued == ctx.tx.queued.push(m)
        }),
        ({
            let (after, given) = first_given(ctx);
            &&& after.rx == ctx.rx
            &&& after.tx == ctx.tx
            &&& given is Some <==> ctx.received.len() > 0
            &&& given matches Some(first) ==> ctx.received == seq![first] + after.received
            &&& given is None ==> after.received == ctx.received
        }),
{
    if ctx.received.len() > 0 {
        assert(ctx.received =~= seq![ctx.received[0]] + ctx.received.drop_first());
    }
}

/// Taking a message and giving one away do not disturb each other: in either order the
/// same message is given, and the context is the same.
pub proof fn law_taking_and_giving_commute(ctx: MsgCtxView<Msg, Msg>, m: Msg)
    ensures
        first_given(with_msg(ctx, m)).1 == first_given(ctx).1,
        first_given(with_msg(ctx, m)).0 == with_msg(first_given(ctx).0, m),
{
}

/// The complaint about a wrong number of endpoints ends with that number.
pub proof fn law_complaint_names_the_number(n: nat)
    ensures
        ({
            let start = "Expect 2 ep, found "@;
            let s = eps_complaint(n);
            &&& start.is_prefix_of(s)
            &&& text::value_in(s.skip(start.len() as int), 10) == n
            &&& s.skip(start.len() as int) == text::decimal(n)
        }),
{
    let start = "Expect 2 ep, found "@;
    text::law_decimal_is_read_back(n);
    assert(eps_complaint(n).skip(start.len() as int) =~= text::decimal(n));
    assert(start =~= eps_complaint(n).subrange(0, start.len() as int));
}

/// The whole relay: the contexts of its two endpoints, and the channels between them.
#[verifier::ext_equal]
pub struct RelayBoth {
    pub a: MsgCtxView<Msg, Msg>,
    pub a_to_b: Seq<Msg>,
    pub b: MsgCtxView<Msg, Msg>,
    pub b_to_a: Seq<Msg>,
}

/// The way from the one endpoint to the other.
pub open spec fn there(relay: RelayBoth) -> RelayView {
    RelayView { from: relay.a, channel: relay.a_to_b, to: relay.b }
}

/// The way back.
pub open spec fn back(relay: RelayBoth) -> RelayView {
    RelayView { from: relay.b, channel: relay.b_to_a, to: relay.a }
}

/// One thing that happens at the relay, on one of its two ways.
pub enum BothMove {
    There(RelayMove),
    Back(RelayMove),
}

/// The whole relay after one move.
pub open spec fn both_move(
    enc: spec_fn(Msg) -> Seq<u8>,
    dec: spec_fn(Seq<u8>) -> Option<Msg>,
    relay: RelayBoth,
    mv: BothMove,
) -> RelayBoth {
    match mv {
        BothMove::There(mv) => {
            let way = relay_move(enc, dec, there(relay), mv);
            RelayBoth { a: way.from, a_to_b: way.channel, b: way.to, ..relay }
        },
        BothMove::Back(mv) => {
            let way = relay_move(enc, dec, back(relay), mv);
            RelayBoth { b: way.from, b_to_a: way.channel, a: way.to, ..relay }
        },
    }
}

/// Each move is a step on its way.
pub open spec fn both_fits(
    enc: spec_fn(Msg) -> Seq<u8>,
    dec: spec_fn(Seq<u8>) -> Option<Msg>,
    relay: RelayBoth,
    moves: Seq<BothMove>,
) -> bool
    decreases moves.len(),
{
    moves.len() > 0 ==> {
        &&& match moves[0] {
            BothMove::There(mv) => !(mv is Back) && relay_move_fits(there(relay), mv),
            BothMove::Back(mv) => !(mv is Back) && relay_move_fits(back(relay), mv),
        }
        &&& both_fits(enc, dec, both_move(enc, dec, relay, moves[0]), moves.drop_first())
    }
}

/// The whole relay after `moves`.
pub open spec fn both_after(
    enc: spec_fn(Msg) -> Seq<u8>,
    dec: spec_fn(Seq<u8>) -> Option<Msg>,
    relay: RelayBoth,
    moves: Seq<BothMove>,
) -> RelayBoth
    decreases moves.len(),
{
    if moves.len() == 0 {
        relay
    } else {
        both_after(enc, dec, both_move(enc, dec, relay, moves[0]), moves.drop_first())
    }
}

/// What happens on the one way (or else on the way back) during `moves`, with what
/// happens on the other in between.
pub open spec fn moves_on(
    enc: spec_fn(Msg) -> Seq<u8>,
    dec: spec_fn(Seq<u8>) -> Option<Msg>,
    relay: RelayBoth,
    moves: Seq<BothMove>,
    on_there: bool,
) -> Seq<RelayMove>
    decreases moves.len(),
{
    if moves.len() == 0 {
        Seq::empty()
    } else {
        let next = both_move(enc, dec, relay, moves[0]);
        let now = match moves[0] {
            BothMove::There(mv) => if on_there {
                mv
            } else {
                RelayMove::Back { from: next.b, to: next.a }
            },
            BothMove::Back(mv) => if on_there {
                RelayMove::Back { from: next.a, to: next.b }
            } else {
                mv
            },
        };
        seq![now] + moves_on(enc, dec, next, moves.drop_first(), on_there)
    }
}

proof fn lemma_ways_are_apart(
    enc: spec_fn(Msg) -> Seq<u8>,
    dec: spec_fn(Seq<u8>) -> Option<Msg>,
    relay: RelayBoth,
    moves: Seq<BothMove>,
)
    requires
        both_fits(enc, dec, relay, moves),
    ensures
        relay_fits(enc, dec, there(relay), moves_on(enc, dec, relay, moves, true)),
        relay_fits(enc, dec, back(relay), moves_on(enc, dec, relay, moves, false)),
        relay_after(enc, dec, there(relay), moves_on(enc, dec, relay, moves, true)) == there(
            both_after(enc, dec, relay, moves),
        ),
        relay_after(enc, dec, back(relay), moves_on(enc, dec, relay, moves, false)) == back(
            both_after(enc, dec, relay, moves),
        ),
    decreases moves.len(),
{
    if moves.len() > 0 {
        let rest = moves.drop_first();
        let next = both_move(enc, dec, relay, moves[0]);
        lemma_ways_are_apart(enc, dec, next, rest);
        let on_there = moves_on(enc, dec, relay, moves, true);
        let on_back = moves_on(enc, dec, relay, moves, false);
        assert(on_there.drop_first() =~= moves_on(enc, dec, next, rest, true));
        assert(on_back.drop_first() =~= moves_on(enc, dec, next, rest, false));
        assert(relay_move(enc, dec, there(relay), on_there[0]) == there(next));
        assert(relay_move(enc, dec, back(relay), on_back[0]) == back(next));
    }
}

/// The relay keeps the order of messages both ways at once, over the same two
/// contexts: whatever happens on the two ways in turn, on each of them the messages that
/// became frames, and then those that wait, those in the channel and those received,
/// are those that were there before and those that were read meanwhile.
pub proof fn law_relay_keeps_order_both_ways(
    enc: spec_fn(Msg) -> Seq<u8>,
    dec: spec_fn(Seq<u8>) -> Option<Msg>,
    relay: RelayBoth,
    moves: Seq<BothMove>,
)
    requires
        both_fits(enc, dec, relay, moves),
    ensures
        ({
            let after = both_after(enc, dec, relay, moves);
            let on_there = moves_on(enc, dec, relay, moves, true);
            let on_back = moves_on(enc, dec, relay, moves, false);
            &&& relay_loaded(enc, dec, there(relay), on_there) + (after.b.tx.queued + after.a_to_b
                + after.a.received) == relay.b.tx.queued + relay.a_to_b + relay.a.received
                + relay_read(dec, there(relay), on_there)
            &&& relay_loaded(enc, dec, back(relay), on_back) + (after.a.tx.queued + after.b_to_a
                + after.b.received) == relay.a.tx.queued + relay.b_to_a + relay.b.received
                + relay_read(dec, back(relay), on_back)
        }),
{
    lemma_ways_are_apart(enc, dec, relay, moves);
    law_relay_keeps_order(enc, dec, there(relay), moves_on(enc, dec, relay, moves, true));
    law_relay_keeps_order(enc, dec, back(relay), moves_on(enc, dec, relay, moves, false));
}

} // verus!
