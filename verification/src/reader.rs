//! The receiving end of a connection, with the bytes that arrive held in memory.

use vstd::prelude::*;
use crate::frame::{decode_spec, DecodeError, Frame, FrameView};
use crate::reassembly::{emitted, initial_state, step, ReaderState, Reassembler};

verus! {

/// What a receiver in `state` makes of a stream that holds `bytes` and then
/// ends: the segments of the message at its front and the number of bytes that
/// the message took, or the reason why no whole message is there.
///
/// Frames are taken from the front one by one until a final one has been
/// taken. A stream that ends where a frame would begin gives
/// `DecodeError::Disconnected`, one that ends inside a frame gives
/// `DecodeError::UnexpectedEof`, and in both cases what earlier frames
/// completed is not handed out.
pub open spec fn receive_spec(state: ReaderState, bytes: Seq<u8>) -> Result<
    (Seq<Seq<u8>>, int),
    DecodeError,
>
    decreases bytes.len(),
{
    match decode_spec(bytes) {
        Err(e) => Err(e),
        Ok((frame, taken)) => {
            let s = step(state, frame);
            if s.finished {
                Ok((emitted(s), taken))
            } else {
                match receive_spec(s.state, bytes.skip(taken)) {
                    Err(e) => Err(e),
                    Ok((later, more)) => Ok((emitted(s) + later, taken + more)),
                }
            }
        },
    }
}

/// Reads messages from a stream of bytes.
pub struct ProtocolReader {
    reader: Vec<u8>,
    position: usize,
}

impl View for ProtocolReader {
    type V = Seq<u8>;

    /// The bytes of the stream that have not been read yet.
    closed spec fn view(&self) -> Seq<u8> {
        self.reader@.skip(self.position as int)
    }
}

impl ProtocolReader {
    /// The reader has not read past the end of its stream. The constructor sees
    /// to it and every method keeps it.
    pub closed spec fn well_formed(self) -> bool {
        self.position <= self.reader@.len()
    }

    /// A reader at the start of the stream that holds `reader` and then ends.
    pub fn new(reader: Vec<u8>) -> (r: ProtocolReader)
        ensures
            r@ == reader@,
            r.well_formed(),
    {
        proof {
            assert(reader@.skip(0) =~= reader@);
        }
        ProtocolReader { reader, position: 0 }
    }

    /// Reads the next message and hands out its segments in order. Behind a
    /// message the reader stands at the first byte that follows it. Behind an
    /// error nothing is left to read.
    pub fn receive_message(&mut self) -> (result: Result<Vec<Vec<u8>>, DecodeError>)
        requires
            old(self).well_formed(),
        ensures
            final(self).well_formed(),
            match receive_spec(initial_state(), old(self)@) {
                Ok((segments, taken)) => {
                    &&& result matches Ok(s)
                    &&& s.deep_view() == segments
                    &&& final(self)@ == old(self)@.skip(taken)
                },
                Err(e) => result == Err::<Vec<Vec<u8>>, DecodeError>(e) && final(self)@.len() == 0,
            },
    {
        let ghost stream = self@;
        let mut machine = Reassembler::new();
        let mut messages: Vec<Vec<u8>> = Vec::new();
        let ghost mut read: int = 0;
        proof {
            assert(stream.skip(0) =~= stream);
            assert(messages.deep_view() =~= Seq::<Seq<u8>>::empty());
        }
        loop
            invariant
                self.well_formed(),
                stream == old(self)@,
                0 <= read <= stream.len(),
                self@ == stream.skip(read),
                match receive_spec(machine@, self@) {
                    Ok((later, more)) => receive_spec(initial_state(), stream) == Ok::<
                        (Seq<Seq<u8>>, int),
                        DecodeError,
                    >((messages.deep_view() + later, read + more)),
                    Err(e) => receive_spec(initial_state(), stream) == Err::<
                        (Seq<Seq<u8>>, int),
                        DecodeError,
                    >(e),
                },
            decreases stream.len() - read,
        {
            let ghost here = self@;
            let ghost state = machine@;
            let ghost collected = messages.deep_view();
            let decoded = Frame::decode(
                vstd::slice::slice_subrange(self.reader.as_slice(), self.position, self.reader.len()),
            );
            proof {
                assert(self.reader@.subrange(self.position as int, self.reader@.len() as int)
                    =~= here);
            }
            match decoded {
                Err(e) => {
                    self.position = self.reader.len();
                    return Err(e);
                },
                Ok((frame, taken)) => {
                    let outcome = machine.accept(&frame);
                    self.position = self.position + taken;
                    proof {
                        assert(self@ =~= here.skip(taken as int));
                        assert(self@ =~= stream.skip(read + taken));
                        read = read + taken;
                    }
                    let finished = outcome.finished;
                    match outcome.segment {
                        Some(segment) => {
                            assert(segment.deep_view() =~= segment@);
                            messages.push(segment);
                            assert(messages.deep_view() =~= collected + emitted(
                                step(state, frame@),
                            ));
                        },
                        None => {
                            assert(messages.deep_view() =~= collected + emitted(
                                step(state, frame@),
                            ));
                        },
                    }
                    proof {
                        let s = step(state, frame@);
                        assert(decode_spec(here) == Ok::<(FrameView, int), DecodeError>(
                            (frame@, taken as int),
                        ));
                        if !s.finished {
                            match receive_spec(s.state, here.skip(taken as int)) {
                                Ok((later, more)) => {
                                    assert((collected + emitted(s)) + later =~= collected + (
                                    emitted(s) + later));
                                },
                                Err(_) => {},
                            }
                        } else {
                            assert(collected + emitted(s) =~= messages.deep_view());
                        }
                    }
                    if finished {
                        return Ok(messages);
                    }
                },
            }
        }
    }

    /// How many bytes of the stream are still unread.
    pub fn remaining(&self) -> (n: usize)
        requires
            self.well_formed(),
        ensures
            n == self@.len(),
    {
        self.reader.len() - self.position
    }
}

} // verus!
