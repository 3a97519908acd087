//! The receiver's side: frames go in one at a time, completed segments come out.

use vstd::prelude::*;
use crate::frame::{Frame, FrameView};

verus! {

/// What the receiver remembers from one frame to the next.
pub struct ReaderState {
    /// Bytes still owed to the cluster that an earlier frame left open.
    pub pending: nat,
    /// Bytes collected for the segment under construction.
    pub accumulator: Seq<u8>,
}

/// What one frame does to the receiver.
pub struct Step {
    /// The receiver's state after the frame.
    pub state: ReaderState,
    /// The segment that the frame completed, if it completed one.
    pub segment: Option<Seq<u8>>,
    /// The frame was the last one of its message.
    pub finished: bool,
}

/// The state in which every message starts: nothing owed, nothing collected.
pub open spec fn initial_state() -> ReaderState {
    ReaderState { pending: 0, accumulator: Seq::empty() }
}

/// The receiver's rule for one frame.
///
/// A final frame closes the segment under construction, together with its own
/// payload, and is the only frame that may complete nothing. While bytes are
/// owed, the front of the payload pays them; once they are paid the segment is
/// complete and the rest of the payload opens the next one. Otherwise the whole
/// payload joins the segment, which is complete unless the frame announces a
/// continuation.
pub open spec fn step(state: ReaderState, frame: FrameView) -> Step {
    if frame.fin {
        let whole = state.accumulator + frame.payload;
        Step {
            state: initial_state(),
            segment: if whole.len() > 0 { Some(whole) } else { None },
            finished: true,
        }
    } else if state.pending > 0 {
        let take = if state.pending <= frame.payload.len() {
            state.pending as int
        } else {
            frame.payload.len() as int
        };
        let grown = state.accumulator + frame.payload.subrange(0, take);
        if take == state.pending {
            let rest = frame.payload.subrange(take, frame.payload.len() as int);
            Step {
                state: ReaderState {
                    pending: if rest.len() > 0 && frame.cross { frame.cross_size as nat } else { 0 },
                    accumulator: rest,
                },
                segment: Some(grown),
                finished: false,
            }
        } else {
            Step {
                state: ReaderState { pending: (state.pending - take) as nat, accumulator: grown },
                segment: None,
                finished: false,
            }
        }
    } else {
        let grown = state.accumulator + frame.payload;
        if frame.cross {
            Step {
                state: ReaderState { pending: frame.cross_size as nat, accumulator: grown },
                segment: None,
                finished: false,
            }
        } else {
            Step { state: initial_state(), segment: Some(grown), finished: false }
        }
    }
}

/// The segment of a step as a sequence of zero or one segments.
pub open spec fn emitted(s: Step) -> Seq<Seq<u8>> {
    match s.segment {
        Some(segment) => seq![segment],
        None => Seq::empty(),
    }
}

/// The segments that the receiver hands out when it starts in `state` and reads
/// `frames` in order, up to and including the first final frame.
pub open spec fn run(state: ReaderState, frames: Seq<FrameView>) -> Seq<Seq<u8>>
    decreases frames.len(),
{
    if frames.len() == 0 {
        Seq::empty()
    } else {
        let s = step(state, frames[0]);
        if s.finished {
            emitted(s)
        } else {
            emitted(s) + run(s.state, frames.drop_first())
        }
    }
}

/// The segments of one message: the receiver starts afresh and reads `frames`.
pub open spec fn reassemble_spec(frames: Seq<FrameView>) -> Seq<Seq<u8>> {
    run(initial_state(), frames)
}

/// Some frame of `frames` is final.
pub open spec fn has_final(frames: Seq<FrameView>) -> bool {
    exists|i: int| 0 <= i < frames.len() && (#[trigger] frames[i]).fin
}

/// How many frames the message at the front of `frames` takes: those up to and
/// including the first final one, or all of them where none is final.
pub open spec fn message_len(frames: Seq<FrameView>) -> int
    decreases frames.len(),
{
    if frames.len() == 0 {
        0
    } else if frames[0].fin {
        1
    } else {
        1 + message_len(frames.drop_first())
    }
}

/// The payloads of `frames`, in order.
pub open spec fn payloads(frames: Seq<FrameView>) -> Seq<Seq<u8>> {
    frames.map_values(|f: FrameView| f.payload)
}

/// The receiver's state and bookkeeping for one connection.
pub struct Reassembler {
    pending: usize,
    accumulator: Vec<u8>,
}

/// What `Reassembler::accept` reports for one frame.
#[derive(Debug, Clone, PartialEq, Eq)]
pub struct FrameOutcome {
    /// The segment that the frame completed, if it completed one.
    pub segment: Option<Vec<u8>>,
    /// The frame was the last one of its message.
    pub finished: bool,
}

impl FrameOutcome {
    /// The outcome says what `s` says.
    pub open spec fn matches_step(self, s: Step) -> bool {
        &&& self.finished == s.finished
        &&& match self.segment {
            Some(bytes) => s.segment == Some(bytes@),
            None => s.segment is None,
        }
    }
}

impl View for Reassembler {
    type V = ReaderState;

    closed spec fn view(&self) -> ReaderState {
        ReaderState { pending: self.pending as nat, accumulator: self.accumulator@ }
    }
}

impl Reassembler {
    /// A receiver at the start of a message.
    pub fn new() -> (reader: Reassembler)
        ensures
            reader@ == initial_state(),
    {
        Reassembler { pending: 0, accumulator: Vec::new() }
    }

    /// Bytes still owed to an open cluster.
    pub fn pending(&self) -> (n: usize)
        ensures
            n == self@.pending,
    {
        self.pending
    }

    /// Takes the next frame of the stream and says what it completed.
    pub fn accept(&mut self, frame: &Frame) -> (outcome: FrameOutcome)
        ensures
            final(self)@ == step(old(self)@, frame@).state,
            outcome.matches_step(step(old(self)@, frame@)),
    {
        let payload = frame.payload.as_slice();
        if frame.fin {
            self.accumulator.extend_from_slice(payload);
            let mut whole: Vec<u8> = Vec::new();
            std::mem::swap(&mut whole, &mut self.accumulator);
            self.pending = 0;
            assert(whole@ =~= old(self)@.accumulator + frame@.payload);
            let segment = if whole.len() > 0 { Some(whole) } else { None };
            return FrameOutcome { segment, finished: true };
        }
        if self.pending != 0 {
            let take: usize = if self.pending <= payload.len() { self.pending } else { payload.len() };
            self.accumulator.extend_from_slice(&payload[0..take]);
            self.pending = self.pending - take;
            assert(self.accumulator@ =~= old(self)@.accumulator + frame@.payload.subrange(0, take as int));
            if self.pending == 0 {
                let mut grown: Vec<u8> = Vec::new();
                std::mem::swap(&mut grown, &mut self.accumulator);
                if take < payload.len() {
                    self.accumulator.extend_from_slice(&payload[take..payload.len()]);
                    if frame.emoji_cross {
                        self.pending = frame.cross_size as usize;
                    }
                }
                assert(self.accumulator@ =~= frame@.payload.subrange(take as int, frame@.payload.len() as int));
                FrameOutcome { segment: Some(grown), finished: false }
            } else {
                FrameOutcome { segment: None, finished: false }
            }
        } else {
            self.accumulator.extend_from_slice(payload);
            assert(self.accumulator@ =~= old(self)@.accumulator + frame@.payload);
            if frame.emoji_cross {
                self.pending = frame.cross_size as usize;
                FrameOutcome { segment: None, finished: false }
            } else {
                let mut grown: Vec<u8> = Vec::new();
                std::mem::swap(&mut grown, &mut self.accumulator);
                FrameOutcome { segment: Some(grown), finished: false }
            }
        }
    }
}

/// Reads a whole message from `frames`: `Some` with its segments where a final
/// frame is among them, `None` where the frames end before the message does.
/// Frames behind the first final one belong to later messages and are not read.
pub fn reassemble(frames: &[Frame]) -> (segments: Option<Vec<Vec<u8>>>)
    ensures
        segments is Some <==> has_final(frames.deep_view()),
        segments matches Some(s) ==> s.deep_view() == reassemble_spec(frames.deep_view()),
{
    let ghost all = frames.deep_view();
    let mut reader = Reassembler::new();
    let mut segments: Vec<Vec<u8>> = Vec::new();
    let mut i: usize = 0;
    proof {
        assert(all.skip(0) =~= all);
        assert(segments.deep_view() + run(reader@, all) =~= run(reader@, all));
    }
    while i < frames.len()
        invariant
            i <= frames.len(),
            all == frames.deep_view(),
            forall|j: int| 0 <= j < i ==> !(#[trigger] all[j]).fin,
            reassemble_spec(all) == segments.deep_view() + run(reader@, all.skip(i as int)),
        decreases frames.len() - i,
    {
        let ghost before = reader@;
        let ghost collected = segments.deep_view();
        let outcome = reader.accept(&frames[i]);
        proof {
            assert(all.skip(i as int)[0] == all[i as int]);
            assert(all.skip(i as int).drop_first() =~= all.skip(i + 1));
        }
        let finished = outcome.finished;
        match outcome.segment {
            Some(segment) => {
                assert(segment.deep_view() =~= segment@);
                segments.push(segment);
                assert(segments.deep_view() =~= collected + emitted(step(before, all[i as int])));
            },
            None => {
                assert(segments.deep_view() =~= collected + emitted(step(before, all[i as int])));
            },
        }
        if finished {
            return Some(segments);
        }
        i = i + 1;
    }
    proof {
        assert(all.skip(i as int) =~= Seq::empty());
    }
    None
}

/// A message takes at least one frame where there is one, and no more than there are.
pub proof fn lemma_message_len_bounds(frames: Seq<FrameView>)
    ensures
        0 <= message_len(frames) <= frames.len(),
        frames.len() > 0 ==> message_len(frames) >= 1,
        has_final(frames) <==> message_len(frames) >= 1 && frames[message_len(frames) - 1].fin,
        forall|j: int| 0 <= j < message_len(frames) - 1 ==> !(#[trigger] frames[j]).fin,
    decreases frames.len(),
{
    if frames.len() > 0 && !frames[0].fin {
        let rest = frames.drop_first();
        lemma_message_len_bounds(rest);
        if has_final(frames) {
            let i = choose|i: int| 0 <= i < frames.len() && (#[trigger] frames[i]).fin;
            assert(rest[i - 1].fin);
        }
        if has_final(rest) {
            assert(frames[message_len(rest)].fin);
        }
        assert forall|j: int| 0 <= j < message_len(frames) - 1 implies !(#[trigger] frames[j]).fin by {
            if j > 0 {
                assert(rest[j - 1] == frames[j]);
            }
        }
    }
}

/// Flattening distributes over concatenation.
proof fn lemma_flatten_add(a: Seq<Seq<u8>>, b: Seq<Seq<u8>>)
    ensures
        (a + b).flatten() == a.flatten() + b.flatten(),
    decreases a.len(),
{
    if a.len() == 0 {
        assert(a + b =~= b);
        assert(a.flatten() + b.flatten() =~= b.flatten());
    } else {
        lemma_flatten_add(a.drop_first(), b);
        assert((a + b).drop_first() =~= a.drop_first() + b);
        assert((a + b).flatten() =~= a.flatten() + b.flatten());
    }
}

/// What a step hands out and what it keeps is what it had kept and what came in.
proof fn lemma_step_keeps_bytes(state: ReaderState, frame: FrameView)
    ensures
        emitted(step(state, frame)).flatten() + step(state, frame).state.accumulator
            == state.accumulator + frame.payload,
{
    let s = step(state, frame);
    match s.segment {
        Some(segment) => {
            seq![segment].lemma_flatten_one_element();
            assert(emitted(s).flatten() == segment);
        },
        None => {},
    }
    assert(emitted(s).flatten() + s.state.accumulator =~= state.accumulator + frame.payload);
}

/// No byte is lost and none is made up: the segments of a message, laid end to
/// end, are what the receiver held at its start followed by the payloads of the
/// message's frames, whatever the frames' flags and counts say.
pub proof fn lemma_run_keeps_bytes(state: ReaderState, frames: Seq<FrameView>)
    requires
        has_final(frames),
    ensures
        run(state, frames).flatten() == state.accumulator + payloads(
            frames.take(message_len(frames)),
        ).flatten(),
    decreases frames.len(),
{
    let s = step(state, frames[0]);
    lemma_step_keeps_bytes(state, frames[0]);
    if frames[0].fin {
        assert(frames.take(1) =~= seq![frames[0]]);
        assert(payloads(frames.take(1)) =~= seq![frames[0].payload]);
        seq![frames[0].payload].lemma_flatten_one_element();
        assert(s.state.accumulator =~= Seq::<u8>::empty());
        assert(emitted(s).flatten() =~= emitted(s).flatten() + s.state.accumulator);
    } else {
        let rest = frames.drop_first();
        let i = choose|i: int| 0 <= i < frames.len() && (#[trigger] frames[i]).fin;
        assert(rest[i - 1].fin);
        lemma_run_keeps_bytes(s.state, rest);
        lemma_flatten_add(emitted(s), run(s.state, rest));
        let n = message_len(rest);
        lemma_message_len_bounds(rest);
        assert(frames.take(n + 1) =~= seq![frames[0]] + rest.take(n));
        assert(payloads(frames.take(n + 1)) =~= seq![frames[0].payload] + payloads(rest.take(n)));
        lemma_flatten_add(seq![frames[0].payload], payloads(rest.take(n)));
        seq![frames[0].payload].lemma_flatten_one_element();
        assert(run(state, frames).flatten() =~= state.accumulator + payloads(
            frames.take(n + 1),
        ).flatten());
    }
}

} // verus!
