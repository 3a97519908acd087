//! What the receiver makes of what the sender produced.

use vstd::prelude::*;
use crate::frame::{decode_spec, lemma_decode_encode, wire_image, DecodeError, FrameView};
use crate::reader::receive_spec;
use crate::reassembly::{
    emitted, has_final, initial_state, lemma_message_len_bounds, lemma_run_keeps_bytes,
    message_len, reassemble_spec, run, step, ReaderState,
};
use crate::splitter::{lemma_frame_lengths, lemma_payloads_are_text, split_spec};
use crate::writer::wire_stream;

verus! {

/// The frames of a text form one message: the last is final, and the receiver
/// reads all of them.
pub proof fn lemma_split_is_one_message(data: Seq<u8>, lens: Seq<usize>, capacity: int)
    requires
        capacity >= 1,
    ensures
        has_final(split_spec(data, lens, capacity)),
        message_len(split_spec(data, lens, capacity)) == split_spec(data, lens, capacity).len(),
{
    let frames = split_spec(data, lens, capacity);
    lemma_frame_lengths(data, lens, capacity);
    lemma_payloads_are_text(data, lens, capacity);
    assert(frames[frames.len() - 1].fin);
    lemma_only_last_final(frames);
}

/// Where the last frame is final and no other is, the message is all frames.
proof fn lemma_only_last_final(frames: Seq<FrameView>)
    requires
        frames.len() >= 1,
        forall|k: int| 0 <= k < frames.len() ==> ((#[trigger] frames[k]).fin <==> k == frames.len() - 1),
    ensures
        message_len(frames) == frames.len(),
    decreases frames.len(),
{
    if !frames[0].fin {
        let rest = frames.drop_first();
        assert forall|k: int| 0 <= k < rest.len() implies ((#[trigger] rest[k]).fin <==> k
            == rest.len() - 1) by {
            assert(rest[k] == frames[k + 1]);
        }
        lemma_only_last_final(rest);
    }
}

/// Splitting and reassembling gives the text back: the segments that the
/// receiver hands out for the frames of a text, laid end to end, are the text,
/// whatever its clusters and for every capacity of at least one byte.
pub proof fn lemma_reassembly_restores_text(data: Seq<u8>, lens: Seq<usize>, capacity: int)
    requires
        capacity >= 1,
    ensures
        reassemble_spec(split_spec(data, lens, capacity)).flatten() == data,
{
    let frames = split_spec(data, lens, capacity);
    lemma_split_is_one_message(data, lens, capacity);
    lemma_payloads_are_text(data, lens, capacity);
    lemma_run_keeps_bytes(initial_state(), frames);
    assert(frames.take(frames.len() as int) =~= frames);
    assert(initial_state().accumulator + data =~= data);
}

/// The stream of a sequence of frames is the image of the first, then the
/// stream of the others.
proof fn lemma_wire_stream_unfold(frames: Seq<FrameView>)
    requires
        frames.len() >= 1,
    ensures
        wire_stream(frames) == wire_image(frames[0]) + wire_stream(frames.drop_first()),
{
    let images = frames.map_values(|f: FrameView| wire_image(f));
    assert(images.drop_first() =~= frames.drop_first().map_values(|f: FrameView| wire_image(f)));
}

/// A frame's image at the front of a stream is decoded as that frame, and
/// what follows the image is what is left.
proof fn lemma_frame_at_front(frame: FrameView, tail: Seq<u8>)
    requires
        frame.payload.len() <= u16::MAX,
    ensures
        decode_spec(wire_image(frame) + tail) == Ok::<(FrameView, int), DecodeError>(
            (frame, wire_image(frame).len() as int),
        ),
        (wire_image(frame) + tail).skip(wire_image(frame).len() as int) == tail,
{
    lemma_decode_encode(frame, tail);
    assert((wire_image(frame) + tail).skip(wire_image(frame).len() as int) =~= tail);
}

/// The receiver's rule for a stream with a whole frame at its front.
proof fn lemma_receive_unfold(state: ReaderState, bytes: Seq<u8>, frame: FrameView, taken: int)
    requires
        decode_spec(bytes) == Ok::<(FrameView, int), DecodeError>((frame, taken)),
    ensures
        receive_spec(state, bytes) == (if step(state, frame).finished {
            Ok::<(Seq<Seq<u8>>, int), DecodeError>((emitted(step(state, frame)), taken))
        } else {
            match receive_spec(step(state, frame).state, bytes.skip(taken)) {
                Err(e) => Err(e),
                Ok((later, more)) => Ok((emitted(step(state, frame)) + later, taken + more)),
            }
        }),
{
}

/// The receiver reads from the wire what it would read from the frames: where
/// a stream begins with the images of `frames`, one of them final and none with
/// a payload too long for the header, the receiver hands out the segments of
/// the message at the front of `frames` and takes the bytes of that message's
/// frames, no more.
pub proof fn lemma_receive_reads_frames(state: ReaderState, frames: Seq<FrameView>, rest: Seq<u8>)
    requires
        has_final(frames),
        forall|k: int| 0 <= k < frames.len() ==> (#[trigger] frames[k]).payload.len() <= u16::MAX,
    ensures
        receive_spec(state, wire_stream(frames) + rest) == Ok::<(Seq<Seq<u8>>, int), DecodeError>(
            (
                run(state, frames),
                wire_stream(frames.take(message_len(frames))).len() as int,
            ),
        ),
    decreases frames.len(),
{
    let first = frames[0];
    let others = frames.drop_first();
    let tail = wire_stream(others) + rest;
    lemma_wire_stream_unfold(frames);
    assert(wire_stream(frames) + rest =~= wire_image(first) + tail);
    lemma_frame_at_front(first, tail);
    lemma_receive_unfold(state, wire_image(first) + tail, first, wire_image(first).len() as int);
    let s = step(state, first);
    if first.fin {
        assert(s.finished);
        assert(message_len(frames) == 1);
        assert(frames.take(1) =~= seq![first]);
        lemma_wire_stream_single(first);
    } else {
        assert(!s.finished);
        let i = choose|i: int| 0 <= i < frames.len() && (#[trigger] frames[i]).fin;
        assert(others[i - 1].fin);
        assert forall|k: int| 0 <= k < others.len() implies (#[trigger] others[k]).payload.len()
            <= u16::MAX by {
            assert(others[k] == frames[k + 1]);
        }
        lemma_receive_reads_frames(s.state, others, rest);
        let n = message_len(others);
        lemma_message_len_bounds(others);
        assert(message_len(frames) == n + 1);
        assert(frames.take(n + 1).drop_first() =~= others.take(n));
        lemma_wire_stream_unfold(frames.take(n + 1));
        assert(wire_stream(frames.take(n + 1)).len() == wire_image(first).len() + wire_stream(
            others.take(n),
        ).len());
    }
}

/// The stream of one frame is its image.
proof fn lemma_wire_stream_single(frame: FrameView)
    ensures
        wire_stream(seq![frame]) == wire_image(frame),
{
    let images = seq![frame].map_values(|f: FrameView| wire_image(f));
    assert(images =~= seq![wire_image(frame)]);
    seq![wire_image(frame)].lemma_flatten_one_element();
}

/// What is sent arrives: the receiver, reading the wire images of the frames of
/// a text, finds one whole message, takes every byte of the stream, and its
/// segments laid end to end are the text.
pub proof fn lemma_wire_round_trip(data: Seq<u8>, lens: Seq<usize>, capacity: int)
    requires
        1 <= capacity <= u16::MAX,
    ensures
        receive_spec(initial_state(), wire_stream(split_spec(data, lens, capacity))) == Ok::<
            (Seq<Seq<u8>>, int),
            DecodeError,
        >(
            (
                reassemble_spec(split_spec(data, lens, capacity)),
                wire_stream(split_spec(data, lens, capacity)).len() as int,
            ),
        ),
        reassemble_spec(split_spec(data, lens, capacity)).flatten() == data,
{
    let frames = split_spec(data, lens, capacity);
    lemma_split_is_one_message(data, lens, capacity);
    lemma_reassembly_restores_text(data, lens, capacity);
    assert forall|k: int| 0 <= k < frames.len() implies (#[trigger] frames[k]).payload.len()
        <= u16::MAX by {
        lemma_frame_payload_fits(data, lens, capacity, k);
    }
    lemma_receive_reads_frames(initial_state(), frames, Seq::<u8>::empty());
    assert(wire_stream(frames) + Seq::<u8>::empty() =~= wire_stream(frames));
    assert(frames.take(frames.len() as int) =~= frames);
}

/// No payload is longer than the capacity.
pub proof fn lemma_frame_payload_fits(data: Seq<u8>, lens: Seq<usize>, capacity: int, k: int)
    requires
        capacity >= 1,
        0 <= k < split_spec(data, lens, capacity).len(),
    ensures
        split_spec(data, lens, capacity)[k].well_formed(capacity),
{
    lemma_frame_lengths(data, lens, capacity);
    let frames = split_spec(data, lens, capacity);
    let m = frames.len() as int;
    if k == m - 1 {
        crate::splitter::lemma_frame_count(data.len() as int, capacity);
        assert((m - 1) * capacity + capacity == m * capacity) by (nonlinear_arith);
    }
}

} // verus!
