//! The data that a port has received from its peer and has yet to write to its socket.

use std::collections::VecDeque;
use vstd::prelude::*;

use crate::stream;

verus! {

broadcast use vstd::seq_lib::group_seq_properties;

/// Data segments on their way to a socket.
pub struct DataQueue {
    data_to_write: VecDeque<Vec<u8>>,
    data_writing: Option<Vec<u8>>,
    written_bytes: usize,
}

/// The segments that wait, and what is left of the one that is being written.
#[verifier::ext_equal]
pub struct DataView {
    pub waiting: Seq<Seq<u8>>,
    pub current: Option<Seq<u8>>,
}

/// Nothing to write.
pub open spec fn data_empty() -> DataView {
    DataView { waiting: Seq::empty(), current: None }
}

/// After a segment was added at the end.
pub open spec fn data_push(q: DataView, segment: Seq<u8>) -> DataView {
    DataView { waiting: q.waiting.push(segment), current: q.current }
}

/// After the first segment that waits, if there is one, took the place of the current one.
pub open spec fn data_next(q: DataView) -> DataView {
    if q.waiting.len() == 0 {
        DataView { waiting: q.waiting, current: None }
    } else {
        DataView { waiting: q.waiting.drop_first(), current: Some(q.waiting[0]) }
    }
}

/// After the socket took `n` bytes of the current segment.
pub open spec fn data_wrote(q: DataView, n: int) -> DataView {
    if n == q.current->0.len() {
        data_next(q)
    } else {
        DataView { waiting: q.waiting, current: Some(q.current->0.skip(n)) }
    }
}

/// The socket took bytes of a current segment, no more than it has.
pub open spec fn data_wrote_fits(q: DataView, n: int) -> bool {
    q.current is Some && 0 <= n <= q.current->0.len()
}

/// The bytes that have yet to be written, in order.
pub open spec fn data_pending(q: DataView) -> Seq<u8> {
    (match q.current {
        Some(rest) => rest,
        None => Seq::empty(),
    }) + stream::joined(q.waiting)
}

proof fn lemma_joined_push(chunks: Seq<Seq<u8>>, last: Seq<u8>)
    ensures
        stream::joined(chunks.push(last)) == stream::joined(chunks) + last,
    decreases chunks.len(),
{
    reveal_with_fuel(stream::joined, 2);
    if chunks.len() == 0 {
        assert(chunks.push(last).drop_first() =~= Seq::<Seq<u8>>::empty());
        assert(stream::joined(chunks.push(last)) =~= last);
        assert(stream::joined(chunks) + last =~= last);
    } else {
        lemma_joined_push(chunks.drop_first(), last);
        assert(chunks.push(last).drop_first() =~= chunks.drop_first().push(last));
        assert(stream::joined(chunks.push(last)) =~= stream::joined(chunks) + last);
    }
}

/// Adding a segment adds its bytes at the end of what is pending.
pub proof fn law_push_appends(q: DataView, segment: Seq<u8>)
    ensures
        data_pending(data_push(q, segment)) == data_pending(q) + segment,
{
    lemma_joined_push(q.waiting, segment);
    assert(data_pending(data_push(q, segment)) =~= data_pending(q) + segment);
}

/// Turning to the next segment, when there is no current one, changes nothing of
/// what is pending.
pub proof fn law_next_keeps(q: DataView)
    requires
        q.current is None,
    ensures
        data_pending(data_next(q)) == data_pending(q),
{
    assert(data_pending(data_next(q)) =~= data_pending(q));
}

/// What the socket took, with what is pending afterwards, is what was pending before.
pub proof fn law_wrote_removes(q: DataView, n: int)
    requires
        data_wrote_fits(q, n),
    ensures
        q.current->0.take(n) + data_pending(data_wrote(q, n)) == data_pending(q),
{
    assert(q.current->0.take(n) + data_pending(data_wrote(q, n)) =~= data_pending(q));
}

impl View for DataQueue {
    type V = DataView;

    closed spec fn view(&self) -> DataView {
        DataView {
            waiting: self.data_to_write@.map_values(|v: Vec<u8>| v@),
            current: match self.data_writing {
                Some(data) => Some(data@.skip(self.written_bytes as int)),
                None => None,
            },
        }
    }
}

impl DataQueue {
    /// No more was written of the current segment than it has.
    pub closed spec fn wf(&self) -> bool {
        match self.data_writing {
            Some(data) => self.written_bytes <= data@.len(),
            None => self.written_bytes == 0,
        }
    }

    /// A queue with nothing to write.
    pub fn new() -> (q: Self)
        ensures
            q.wf(),
            q@ == data_empty(),
    {
        let q = DataQueue { data_to_write: VecDeque::new(), data_writing: None, written_bytes: 0 };
        assert(q@ =~= data_empty());
        q
    }

    /// Whether a segment waits or is being written.
    pub fn is_pending(&self) -> (b: bool)
        ensures
            b == (self@.waiting.len() > 0 || self@.current is Some),
    {
        self.data_to_write.len() > 0 || self.data_writing.is_some()
    }

    /// Whether a segment is being written.
    pub fn is_writing(&self) -> (b: bool)
        ensures
            b == self@.current is Some,
    {
        self.data_writing.is_some()
    }

    /// What is left of the segment that is being written.
    pub fn unwritten(&self) -> (bytes: &[u8])
        requires
            self.wf(),
            self@.current is Some,
        ensures
            bytes@ == self@.current->0,
    {
        let data = self.data_writing.as_ref().unwrap();
        let bytes = vstd::slice::slice_subrange(data.as_slice(), self.written_bytes, data.len());
        assert(bytes@ =~= data@.skip(self.written_bytes as int));
        bytes
    }

    /// Adds a segment at the end.
    pub fn push(&mut self, segment: Vec<u8>)
        requires
            old(self).wf(),
        ensures
            final(self).wf(),
            final(self)@ == data_push(old(self)@, segment@),
    {
        self.data_to_write.push_back(segment);
        assert(self@ =~= data_push(old(self)@, segment@));
    }

    /// Turns to the next segment.
    pub fn next(&mut self)
        requires
            old(self).wf(),
        ensures
            final(self).wf(),
            final(self)@ == data_next(old(self)@),
    {
        self.data_writing = self.data_to_write.pop_front();
        self.written_bytes = 0;
        proof {
            let data = self.data_writing->0@;
            assert(data.skip(0) =~= data);
        }
        assert(self@.waiting =~= data_next(old(self)@).waiting);
    }

    /// Notes that the socket took `n` bytes of the current segment.
    pub fn wrote(&mut self, n: usize)
        requires
            old(self).wf(),
            data_wrote_fits(old(self)@, n as int),
        ensures
            final(self).wf(),
            final(self)@ == data_wrote(old(self)@, n as int),
    {
        let len: usize = match &self.data_writing {
            Some(data) => data.len(),
            None => 0,
        };
        let written_bytes: usize = self.written_bytes + n;
        if written_bytes == len {
            // This segment is all written.
            self.next();
        } else {
            proof {
                let data = self.data_writing->0@;
                assert(data.skip(written_bytes as int) =~= data.skip(
                    self.written_bytes as int,
                ).skip(n as int));
            }
            self.written_bytes = written_bytes;
        }
    }
}

/// How segments move: one that is added goes behind those that wait, and leaves the
/// current one alone; the next one is the first that waits; the current one stays
/// until all of it is taken, and the next one takes its place at once.
pub proof fn law_segments_move_up(q: DataView, segment: Seq<u8>, n: int)
    ensures
        data_push(q, segment).waiting == q.waiting.push(segment),
        data_push(q, segment).current == q.current,
        q.waiting.len() > 0 ==> {
            &&& data_next(q).current == Some(q.waiting[0])
            &&& data_next(q).waiting == q.waiting.drop_first()
        },
        q.waiting.len() == 0 ==> data_next(q).current is None && data_next(q).waiting.len() == 0,
        q.current matches Some(rest) ==> 0 <= n < rest.len() ==> {
            &&& data_wrote(q, n).current == Some(rest.subrange(n, rest.len() as int))
            &&& data_wrote(q, n).waiting == q.waiting
        },
        q.current matches Some(rest) ==> n == rest.len() ==> data_wrote(q, n) == data_next(q),
        data_empty().current is None && data_empty().waiting.len() == 0,
{
    if q.current is Some && 0 <= n < q.current->0.len() {
        assert(q.current->0.skip(n) =~= q.current->0.subrange(n, q.current->0.len() as int));
    }
}

} // verus!
