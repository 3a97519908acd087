//! The sending end of a connection, with the bytes it has put out held in memory.

use vstd::prelude::*;
use vstd::string::StringSliceAdditionalSpecFns;
use crate::clusters::grapheme_lengths;
use crate::frame::{wire_image, Frame, FrameView, MAX_PAYLOAD_SIZE};
use crate::splitter::{split_spec, split_with_capacity};

verus! {

/// The bytes that carry `frames`: the image of each, in order, nothing between.
pub open spec fn wire_stream(frames: Seq<FrameView>) -> Seq<u8> {
    frames.map_values(|f: FrameView| wire_image(f)).flatten()
}

/// Writes messages as frames into a byte sink.
pub struct ProtocolWriter {
    writer: Vec<u8>,
    capacity: usize,
}

impl View for ProtocolWriter {
    type V = Seq<u8>;

    /// All bytes written so far.
    closed spec fn view(&self) -> Seq<u8> {
        self.writer@
    }
}

impl ProtocolWriter {
    /// The most payload bytes that this writer puts into one frame.
    pub closed spec fn capacity(self) -> int {
        self.capacity as int
    }

    /// The writer's capacity is one that a frame allows. Both constructors see
    /// to it and every method keeps it.
    pub open spec fn well_formed(self) -> bool {
        1 <= self.capacity() <= MAX_PAYLOAD_SIZE
    }

    /// A writer that appends to `writer` and fills frames up to `MAX_PAYLOAD_SIZE`.
    pub fn new(writer: Vec<u8>) -> (w: ProtocolWriter)
        ensures
            w@ == writer@,
            w.capacity() == MAX_PAYLOAD_SIZE,
            w.well_formed(),
    {
        ProtocolWriter { writer, capacity: MAX_PAYLOAD_SIZE }
    }

    /// A writer that appends to `writer` and fills frames up to `capacity`
    /// bytes, where that is at least one byte and no more than a frame allows.
    pub fn with_capacity(writer: Vec<u8>, capacity: usize) -> (w: Option<ProtocolWriter>)
        ensures
            w is Some <==> 1 <= capacity <= MAX_PAYLOAD_SIZE,
            w matches Some(w) ==> w@ == writer@ && w.capacity() == capacity,
    {
        if 1 <= capacity && capacity <= MAX_PAYLOAD_SIZE {
            Some(ProtocolWriter { writer, capacity })
        } else {
            None
        }
    }

    /// Writes `frames` in order, each as its wire image.
    pub fn write_frames(&mut self, frames: &[Frame])
        ensures
            final(self)@ == old(self)@ + wire_stream(frames.deep_view()),
            final(self).capacity() == old(self).capacity(),
    {
        let ghost all = frames.deep_view();
        let ghost images = all.map_values(|f: FrameView| wire_image(f));
        let mut i: usize = 0;
        proof {
            assert(images.take(0) =~= Seq::<Seq<u8>>::empty());
            assert(self.writer@ =~= old(self).writer@ + images.take(0).flatten());
        }
        while i < frames.len()
            invariant
                i <= frames.len(),
                all == frames.deep_view(),
                images == all.map_values(|f: FrameView| wire_image(f)),
                self.capacity == old(self).capacity,
                self.writer@ == old(self).writer@ + images.take(i as int).flatten(),
            decreases frames.len() - i,
        {
            let encoded = frames[i].encode();
            self.writer.extend_from_slice(encoded.as_slice());
            proof {
                assert(images.take(i + 1) =~= images.take(i as int).push(images[i as int]));
                images.take(i as int).lemma_flatten_push(images[i as int]);
                assert(self.writer@ =~= old(self).writer@ + images.take(i + 1).flatten());
            }
            i = i + 1;
        }
        proof {
            assert(images.take(i as int) =~= images);
        }
    }

    /// Splits `data` into frames and writes them in order.
    pub fn send_message(&mut self, data: &str)
        requires
            old(self).well_formed(),
        ensures
            final(self)@ == old(self)@ + wire_stream(
                split_spec(data.spec_bytes(), grapheme_lengths(data@, true), old(self).capacity()),
            ),
            final(self).capacity() == old(self).capacity(),
    {
        let frames = split_with_capacity(data, self.capacity);
        self.write_frames(frames.as_slice());
    }

    /// The bytes written so far.
    pub fn written(&self) -> (bytes: &[u8])
        ensures
            bytes@ == self@,
    {
        self.writer.as_slice()
    }

    /// Gives up the writer for the sink it wrote into.
    pub fn into_inner(self) -> (writer: Vec<u8>)
        ensures
            writer@ == self@,
    {
        self.writer
    }
}

} // verus!
