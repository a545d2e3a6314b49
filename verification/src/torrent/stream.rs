//! What holds of the framing as a whole: a frame decodes to its message, part
//! of a frame asks for more, and a stream of frames gives the same messages
//! however it is cut into reads.

use crate::torrent::codec::{
    frame_at, frame_bytes, keep_alive_run, lemma_keep_alive_run_bound, Decoded,
};
use crate::torrent::exchange::MsgType;
use crate::torrent::wire::{be32, be32_value, lemma_be32_value_of_bytes};
use vstd::prelude::*;

verus! {

/// A message as the stream carries it: its kind and payload.
pub struct Message {
    pub id: MsgType,
    pub payload: Seq<u8>,
}

impl Message {
    /// The bytes of the message on the wire.
    #[verifier::opaque]
    pub open spec fn frame(self) -> Seq<u8> {
        frame_bytes(Some(self.id), self.payload)
    }

    /// The frame of the message is one that a codec with the limit `max`
    /// admits.
    pub open spec fn fits(self, max: int) -> bool {
        self.payload.len() + 1 <= max && self.payload.len() + 1 <= u32::MAX
    }
}

/// Every message fits.
pub open spec fn all_fit(msgs: Seq<Message>, max: int) -> bool {
    forall|i: int| 0 <= i < msgs.len() ==> (#[trigger] msgs[i]).fits(max)
}

/// The frames of the messages from index `from` on, one after the other.
pub open spec fn frames(msgs: Seq<Message>, from: int) -> Seq<u8>
    decreases msgs.len() - from,
{
    if 0 <= from < msgs.len() {
        msgs[from].frame() + frames(msgs, from + 1)
    } else {
        Seq::empty()
    }
}

/// What decoding again and again takes off a buffer: the messages, and the
/// bytes that stay.
pub struct Drained {
    pub msgs: Seq<Message>,
    pub rest: Seq<u8>,
}

/// Decoding as long as a whole frame stands at the front of `b`. Keep-alives
/// are dropped; decoding stops where more bytes are needed or the bytes are no
/// admissible frame.
pub open spec fn drain(b: Seq<u8>, max: int) -> Drained
    decreases b.len(),
{
    let r = b.skip(keep_alive_run(b) as int);
    match frame_at(r, max) {
        Decoded::Frame { id, payload } => if 5 + payload.len() <= r.len() {
            proof {
                lemma_keep_alive_run_bound(b);
            }
            let after = drain(r.skip((5 + payload.len()) as int), max);
            Drained { msgs: seq![Message { id, payload }] + after.msgs, rest: after.rest }
        } else {
            Drained { msgs: Seq::empty(), rest: r }
        },
        _ => Drained { msgs: Seq::empty(), rest: r },
    }
}

/// The messages that come out when the reads `chunks[from..]` arrive one after
/// the other and each is appended to what stayed in the buffer.
pub open spec fn feed(buffer: Seq<u8>, chunks: Seq<Seq<u8>>, from: int, max: int) -> Seq<Message>
    decreases chunks.len() - from,
{
    if 0 <= from < chunks.len() {
        let d = drain(buffer + chunks[from], max);
        d.msgs + feed(d.rest, chunks, from + 1, max)
    } else {
        Seq::empty()
    }
}

/// The reads from index `from` on, one after the other.
pub open spec fn concat(chunks: Seq<Seq<u8>>, from: int) -> Seq<u8>
    decreases chunks.len() - from,
{
    if 0 <= from < chunks.len() {
        chunks[from] + concat(chunks, from + 1)
    } else {
        Seq::empty()
    }
}

/// The frame of a message: five bytes of length and id, then the payload; and
/// its first four bytes denote a length that is not zero.
pub proof fn lemma_frame_shape(m: Message)
    requires
        m.payload.len() + 1 <= u32::MAX,
    ensures
        m.frame() == frame_bytes(Some(m.id), m.payload),
        m.frame().len() == 5 + m.payload.len(),
        m.frame().subrange(0, 4) == be32((m.payload.len() + 1) as u32),
        be32_value(m.frame().subrange(0, 4)) == m.payload.len() + 1,
        m.frame()[4] == m.id.tag(),
        m.frame().skip(5) == m.payload,
{
    reveal(Message::frame);
    let len = (m.payload.len() + 1) as u32;
    lemma_be32_value_of_bytes(len);
    assert(m.frame().subrange(0, 4) =~= be32(len));
    assert(m.frame().skip(5) =~= m.payload);
}

/// A frame decodes to its message: with the frame of a message at the front of
/// a buffer, whatever follows it, no keep-alive is dropped and the message is
/// what stands there.
pub proof fn law_frame_round_trip(m: Message, rest: Seq<u8>, max: int)
    requires
        m.fits(max),
    ensures
        m.frame() == frame_bytes(Some(m.id), m.payload),
        keep_alive_run(m.frame() + rest) == 0,
        frame_at(m.frame() + rest, max) == (Decoded::Frame { id: m.id, payload: m.payload }),
        (m.frame() + rest).skip((5 + m.payload.len()) as int) == rest,
{
    let b = m.frame() + rest;
    lemma_frame_shape(m);
    assert(b.subrange(0, 4) =~= m.frame().subrange(0, 4));
    assert(b[4] == m.frame()[4]);
    assert(b.subrange(5, (5 + m.payload.len()) as int) =~= m.payload);
    assert(b.skip((5 + m.payload.len()) as int) =~= rest);
    assert(MsgType::of_tag(m.id.tag()) == Some(m.id));
}

/// Part of a frame asks for more: a buffer that holds less than the whole frame
/// of a message is left as it is.
pub proof fn law_frame_prefix_needs_more(m: Message, n: int, max: int)
    requires
        m.fits(max),
        0 <= n < m.frame().len(),
    ensures
        keep_alive_run(m.frame().subrange(0, n)) == 0,
        frame_at(m.frame().subrange(0, n), max) == Decoded::NeedMore,
{
    let p = m.frame().subrange(0, n);
    lemma_frame_shape(m);
    if n >= 4 {
        assert(p.subrange(0, 4) =~= m.frame().subrange(0, 4));
    }
}

/// Draining a buffer that holds the start of a stream of frames takes off the
/// whole frames and leaves less than one frame.
pub proof fn lemma_drain_stream(msgs: Seq<Message>, from: int, n: int, max: int)
    requires
        all_fit(msgs, max),
        0 <= from <= msgs.len(),
        0 <= n <= frames(msgs, from).len(),
    ensures
        ({
            let d = drain(frames(msgs, from).subrange(0, n), max);
            let to = from + d.msgs.len();
            &&& to <= msgs.len()
            &&& d.msgs == msgs.subrange(from, to)
            &&& d.rest.len() <= n
            &&& d.rest == frames(msgs, to).subrange(0, d.rest.len() as int)
            &&& frames(msgs, from).subrange(0, n - d.rest.len()) + frames(msgs, to) == frames(
                msgs,
                from,
            )
            &&& to < msgs.len() ==> d.rest.len() < msgs[to].frame().len()
            &&& to == msgs.len() ==> d.rest.len() == 0
        }),
    decreases msgs.len() - from,
{
    let stream = frames(msgs, from);
    let p = stream.subrange(0, n);
    if from == msgs.len() {
        assert(p =~= Seq::<u8>::empty());
        assert(p.skip(0) =~= p);
        assert(drain(p, max).msgs =~= msgs.subrange(from, from));
        assert(stream.subrange(0, 0) + stream =~= stream);
    } else {
        let m = msgs[from];
        let f = m.frame();
        let tail = frames(msgs, from + 1);
        assert(m.fits(max));
        lemma_frame_shape(m);
        if n < f.len() {
            assert(p =~= f.subrange(0, n));
            law_frame_prefix_needs_more(m, n, max);
            assert(p.skip(0) =~= p);
            assert(drain(p, max).msgs =~= msgs.subrange(from, from));
            assert(stream.subrange(0, 0) + stream =~= stream);
        } else {
            let k = n - f.len();
            let behind = tail.subrange(0, k);
            assert(p =~= f + behind);
            law_frame_round_trip(m, behind, max);
            assert(p.skip(0) =~= p);
            lemma_drain_stream(msgs, from + 1, k, max);
            let later = drain(behind, max);
            let d = drain(p, max);
            let to = from + 1 + later.msgs.len();
            assert(d.msgs == seq![m] + later.msgs);
            assert(d.rest == later.rest);
            assert(seq![m] + msgs.subrange(from + 1, to) =~= msgs.subrange(from, to));
            assert(stream.subrange(0, n - d.rest.len()) =~= f + tail.subrange(
                0,
                k - later.rest.len(),
            ));
            assert(stream.subrange(0, n - d.rest.len()) + frames(msgs, to) =~= f + (tail.subrange(
                0,
                k - later.rest.len(),
            ) + frames(msgs, to)));
        }
    }
}

/// A stream gives the same messages however it is cut into reads: where the
/// reads together are the frames of `msgs`, decoding after each read gives
/// `msgs`, in their order.
pub proof fn law_stream_in_any_partition(msgs: Seq<Message>, chunks: Seq<Seq<u8>>, max: int)
    requires
        all_fit(msgs, max),
        concat(chunks, 0) == frames(msgs, 0),
    ensures
        feed(Seq::empty(), chunks, 0, max) == msgs,
{
    assert(Seq::<u8>::empty() =~= frames(msgs, 0).subrange(0, 0));
    assert(Seq::<u8>::empty() + concat(chunks, 0) =~= concat(chunks, 0));
    if msgs.len() > 0 {
        assert(msgs[0].fits(max));
        lemma_frame_shape(msgs[0]);
    }
    lemma_feed_stream(msgs, 0, Seq::empty(), chunks, 0, max);
    assert(msgs.subrange(0, msgs.len() as int) =~= msgs);
}

/// The step of the induction: with the messages before `at` taken off and
/// `buffer` left of the frame at `at`, the reads from `from` on give the
/// messages from `at` on.
pub proof fn lemma_feed_stream(
    msgs: Seq<Message>,
    at: int,
    buffer: Seq<u8>,
    chunks: Seq<Seq<u8>>,
    from: int,
    max: int,
)
    requires
        all_fit(msgs, max),
        0 <= at <= msgs.len(),
        0 <= from <= chunks.len(),
        buffer + concat(chunks, from) == frames(msgs, at),
        at < msgs.len() ==> buffer.len() < msgs[at].frame().len(),
        at == msgs.len() ==> buffer.len() == 0,
    ensures
        feed(buffer, chunks, from, max) == msgs.subrange(at, msgs.len() as int),
    decreases chunks.len() - from,
{
    let stream = frames(msgs, at);
    if from >= chunks.len() {
        assert(buffer =~= stream);
        if at < msgs.len() {
            lemma_frame_shape(msgs[at]);
            assert(msgs[at].fits(max));
            assert(stream.len() >= msgs[at].frame().len());
        }
        assert(msgs.subrange(at, msgs.len() as int) =~= Seq::<Message>::empty());
    } else {
        let chunk = chunks[from];
        let later = concat(chunks, from + 1);
        let held = buffer + chunk;
        let n = held.len() as int;
        assert(held + later =~= buffer + concat(chunks, from));
        assert(held =~= stream.subrange(0, n));
        lemma_drain_stream(msgs, at, n, max);
        let d = drain(held, max);
        let to = at + d.msgs.len();
        assert(d.rest + later == frames(msgs, to)) by {
            let taken = stream.subrange(0, n - d.rest.len());
            assert(taken + frames(msgs, to) == stream);
            assert(stream =~= taken + (d.rest + later)) by {
                assert(held =~= taken + d.rest);
                assert(stream =~= held + later);
            }
            assert(frames(msgs, to) =~= stream.skip(taken.len() as int));
            assert(d.rest + later =~= stream.skip(taken.len() as int));
        }
        lemma_feed_stream(msgs, to, d.rest, chunks, from + 1, max);
        assert(msgs.subrange(at, to) + msgs.subrange(to, msgs.len() as int) =~= msgs.subrange(
            at,
            msgs.len() as int,
        ));
    }
}

} // verus!
