//! The sender's side: a text is cut into frames of bounded payload.

use vstd::prelude::*;
use vstd::slice::slice_to_vec;
use vstd::string::StringSliceAdditionalSpecFns;
use crate::clusters::{
    boundary, grapheme_byte_lengths, grapheme_lengths, is_segmentation, lemma_boundary_grows,
    lemma_boundary_step, lemma_cluster_at, lemma_cluster_exists, owed_from,
};
use crate::frame::{Frame, FrameView, MAX_PAYLOAD_SIZE};
use crate::reassembly::payloads;

verus! {

/// How many frames carry a text of `total` bytes: one where it fits a single
/// payload, the empty text included, else as many as it takes with every
/// frame but the last filled to `capacity`.
pub open spec fn frame_count(total: int, capacity: int) -> int {
    if total <= capacity {
        1
    } else {
        (total + capacity - 1) / capacity
    }
}

/// Frame `k` of the text `data`, whose clusters have the lengths `lens`.
///
/// Its payload is `data` from offset `k * capacity`: `capacity` bytes, or what
/// is left. The frame that reaches the end of the text is final and announces
/// nothing. Every other frame announces a continuation, and its count is the
/// number of bytes from its end to the end of the cluster that its end falls
/// into or in front of, written in eight bits.
pub open spec fn frame_at(data: Seq<u8>, lens: Seq<usize>, capacity: int, k: int) -> FrameView {
    let start = k * capacity;
    let end = if start + capacity < data.len() {
        start + capacity
    } else {
        data.len() as int
    };
    let last = end == data.len();
    FrameView {
        fin: last,
        cross: !last,
        cross_size: if last {
            0
        } else {
            (owed_from(lens, end) % 256) as u8
        },
        payload: data.subrange(start, end),
    }
}

/// The frames of the text `data`, in order.
pub open spec fn split_spec(data: Seq<u8>, lens: Seq<usize>, capacity: int) -> Seq<FrameView> {
    Seq::new(
        frame_count(data.len() as int, capacity) as nat,
        |k: int| frame_at(data, lens, capacity, k),
    )
}

proof fn lemma_next_multiple(k: int, c: int)
    ensures
        (k + 1) * c == k * c + c,
{
    assert((k + 1) * c == k * c + c) by (nonlinear_arith);
}

proof fn lemma_count_of_last(k: int, c: int, n: int)
    requires
        c >= 1,
        k >= 0,
        k * c < n <= k * c + c,
    ensures
        (n + c - 1) / c == k + 1,
        k >= 1 ==> n > c,
{
    assert((n + c - 1) / c == k + 1) by (nonlinear_arith)
        requires
            c >= 1,
            k >= 0,
            k * c < n <= k * c + c,
    ;
    assert(k >= 1 ==> k * c >= c) by (nonlinear_arith)
        requires
            c >= 1,
    ;
}

/// The frame count is the least number of payloads of `capacity` bytes that
/// hold `total` bytes, and at least one.
pub proof fn lemma_frame_count(total: int, capacity: int)
    requires
        capacity >= 1,
        total >= 0,
    ensures
        frame_count(total, capacity) >= 1,
        (frame_count(total, capacity) - 1) * capacity <= total <= frame_count(total, capacity)
            * capacity,
        total > 0 ==> (frame_count(total, capacity) - 1) * capacity < total,
        forall|k: int|
            0 <= k < frame_count(total, capacity) - 1 ==> #[trigger] (k * capacity) + capacity
                < total,
{
    let m = frame_count(total, capacity);
    if total <= capacity {
        assert((m - 1) * capacity == 0) by (nonlinear_arith)
            requires
                m == 1,
        ;
        assert(m * capacity == capacity) by (nonlinear_arith)
            requires
                m == 1,
        ;
    } else {
        assert((m - 1) * capacity < total <= m * capacity && m >= 2) by (nonlinear_arith)
            requires
                capacity >= 1,
                total > capacity,
                m == (total + capacity - 1) / capacity,
        ;
    }
    assert forall|k: int| 0 <= k < m - 1 implies #[trigger] (k * capacity) + capacity < total by {
        assert(k * capacity + capacity <= (m - 1) * capacity) by (nonlinear_arith)
            requires
                0 <= k < m - 1,
                capacity >= 1,
        ;
    }
}

/// A text that fits one payload travels in one frame: final, without
/// continuation, the text its payload.
pub proof fn lemma_short_text_is_one_frame(data: Seq<u8>, lens: Seq<usize>, capacity: int)
    requires
        data.len() <= capacity,
    ensures
        split_spec(data, lens, capacity) == seq![
            FrameView { fin: true, cross: false, cross_size: 0, payload: data },
        ],
{
    assert(0 * capacity == 0) by (nonlinear_arith);
    assert(data.subrange(0, data.len() as int) =~= data);
    assert(split_spec(data, lens, capacity) =~= seq![
        FrameView { fin: true, cross: false, cross_size: 0, payload: data },
    ]);
}

/// Every frame but the last is full, the last holds what is left, and the last
/// frame alone is final. A text of exactly `capacity` bytes takes one frame; one
/// byte more takes two, the second with that byte.
pub proof fn lemma_frame_lengths(data: Seq<u8>, lens: Seq<usize>, capacity: int)
    requires
        capacity >= 1,
    ensures
        split_spec(data, lens, capacity).len() == frame_count(data.len() as int, capacity),
        forall|k: int|
            0 <= k < frame_count(data.len() as int, capacity) - 1 ==> {
                let f = #[trigger] split_spec(data, lens, capacity)[k];
                f.payload.len() == capacity && !f.fin && f.cross
            },
        ({
            let m = frame_count(data.len() as int, capacity);
            let f = split_spec(data, lens, capacity)[m - 1];
            f.payload.len() == data.len() - (m - 1) * capacity && f.fin && !f.cross && f.cross_size
                == 0
        }),
        data.len() == capacity ==> split_spec(data, lens, capacity).len() == 1,
        data.len() == capacity + 1 ==> split_spec(data, lens, capacity).len() == 2 && split_spec(
            data,
            lens,
            capacity,
        )[1].payload.len() == 1,
{
    let n = data.len() as int;
    let m = frame_count(n, capacity);
    lemma_frame_count(n, capacity);
    let frames = split_spec(data, lens, capacity);
    assert forall|k: int| 0 <= k < m - 1 implies {
        let f = #[trigger] frames[k];
        f.payload.len() == capacity && !f.fin && f.cross
    } by {
        assert(k * capacity + capacity < n);
        assert(k * capacity >= 0) by (nonlinear_arith)
            requires
                k >= 0,
                capacity >= 1,
        ;
    }
    assert((m - 1) * capacity + capacity == m * capacity) by (nonlinear_arith);
    if n == capacity + 1 {
        assert(m == 2) by (nonlinear_arith)
            requires
                capacity >= 1,
                n == capacity + 1,
                (m - 1) * capacity < n <= m * capacity,
        ;
        assert((m - 1) * capacity == capacity) by (nonlinear_arith)
            requires
                m == 2,
        ;
    }
}

/// The payloads, laid end to end in frame order, are the text: the first `j`
/// of them are its first `j * capacity` bytes, or all of it.
pub proof fn lemma_payloads_prefix(data: Seq<u8>, lens: Seq<usize>, capacity: int, j: int)
    requires
        capacity >= 1,
        0 <= j <= frame_count(data.len() as int, capacity),
    ensures
        payloads(split_spec(data, lens, capacity).take(j)).flatten() == data.subrange(
            0,
            if j * capacity < data.len() {
                j * capacity
            } else {
                data.len() as int
            },
        ),
    decreases j,
{
    let n = data.len() as int;
    let m = frame_count(n, capacity);
    let frames = split_spec(data, lens, capacity);
    lemma_frame_count(n, capacity);
    if j == 0 {
        assert(0 * capacity == 0) by (nonlinear_arith);
        assert(payloads(frames.take(0)) =~= Seq::<Seq<u8>>::empty());
        assert(data.subrange(0, 0) =~= Seq::<u8>::empty());
    } else {
        lemma_payloads_prefix(data, lens, capacity, j - 1);
        let k = j - 1;
        lemma_next_multiple(k, capacity);
        assert(k * capacity >= 0) by (nonlinear_arith)
            requires
                k >= 0,
                capacity >= 1,
        ;
        if k < m - 1 {
            assert(k * capacity + capacity < n);
        } else {
            assert(k * capacity <= n);
        }
        let before = payloads(frames.take(k));
        assert(payloads(frames.take(j)) =~= before.push(frames[k].payload));
        before.lemma_flatten_push(frames[k].payload);
        let end = if j * capacity < n {
            j * capacity
        } else {
            n
        };
        assert(before.flatten() + frames[k].payload =~= data.subrange(0, end));
    }
}

/// The payloads of all frames, laid end to end in frame order, are the text;
/// and the last frame is final and no other is.
pub proof fn lemma_payloads_are_text(data: Seq<u8>, lens: Seq<usize>, capacity: int)
    requires
        capacity >= 1,
    ensures
        payloads(split_spec(data, lens, capacity)).flatten() == data,
        forall|k: int|
            0 <= k < split_spec(data, lens, capacity).len() ==> ((#[trigger] split_spec(
                data,
                lens,
                capacity,
            )[k]).fin <==> k == split_spec(data, lens, capacity).len() - 1),
{
    let n = data.len() as int;
    let m = frame_count(n, capacity);
    let frames = split_spec(data, lens, capacity);
    lemma_frame_count(n, capacity);
    lemma_frame_lengths(data, lens, capacity);
    lemma_payloads_prefix(data, lens, capacity, m);
    assert(frames.take(m) =~= frames);
    assert(data.subrange(0, n) =~= data);
}

/// A frame that ends inside the text announces what is cut off there. Its end
/// falls into a cluster, or just in front of one; `owed` bytes lead from the
/// frame's end to that cluster's end. The frame raises its continuation flag
/// and its count is `owed` in eight bits, `owed` itself where that is at most
/// 255. Where the next payload has room for them, it begins with exactly those
/// bytes.
pub proof fn lemma_cross_announces_cluster(
    data: Seq<u8>,
    lens: Seq<usize>,
    capacity: int,
    k: int,
)
    requires
        capacity >= 1,
        is_segmentation(lens, data.len() as int),
        0 <= k < frame_count(data.len() as int, capacity) - 1,
    ensures
        ({
            let frames = split_spec(data, lens, capacity);
            let end = k * capacity + capacity;
            let owed = owed_from(lens, end);
            &&& frames[k].cross
            &&& !frames[k].fin
            &&& frames[k].payload == data.subrange(k * capacity, end)
            &&& 1 <= owed <= data.len() - end
            &&& exists|i: int|
                0 <= i < lens.len() && boundary(lens, i) <= end < #[trigger] boundary(lens, i + 1)
                    == end + owed
            &&& frames[k].cross_size == owed % 256
            &&& owed <= capacity ==> frames[k + 1].payload.subrange(0, owed) == data.subrange(
                end,
                end + owed,
            )
        }),
{
    let n = data.len() as int;
    let m = frame_count(n, capacity);
    let frames = split_spec(data, lens, capacity);
    let end = k * capacity + capacity;
    lemma_frame_count(n, capacity);
    assert(k * capacity + capacity < n);
    assert(k * capacity >= 0) by (nonlinear_arith)
        requires
            k >= 0,
            capacity >= 1,
    ;
    lemma_cluster_exists(lens, n, end);
    let owed = owed_from(lens, end);
    lemma_next_multiple(k, capacity);
    if owed <= capacity {
        assert(frames[k + 1].payload.subrange(0, owed) =~= data.subrange(end, end + owed));
    }
}

/// Cuts `data` into frames of at most `capacity` payload bytes, given the byte
/// lengths of its grapheme clusters.
pub fn split_clusters(data: &[u8], cluster_lens: &[usize], capacity: usize) -> (frames: Vec<Frame>)
    requires
        capacity >= 1,
        is_segmentation(cluster_lens@, data@.len() as int),
    ensures
        frames.deep_view() == split_spec(data@, cluster_lens@, capacity as int),
{
    let ghost lens = cluster_lens@;
    let ghost cap = capacity as int;
    let mut frames: Vec<Frame> = Vec::new();
    if capacity >= data.len() {
        let frame = Frame::new(slice_to_vec(data), true);
        frames.push(frame);
        proof {
            assert(data@.subrange(0, data@.len() as int) =~= data@);
            assert(frames.deep_view() =~= split_spec(data@, lens, cap));
        }
        return frames;
    }
    let mut chunk: Vec<u8> = Vec::new();
    let mut chunk_size_remain: usize = capacity;
    let mut offset: usize = 0;
    let ghost mut base: int = 0;
    let mut i: usize = 0;
    proof {
        assert(0 * cap == 0) by (nonlinear_arith);
    }
    while i < cluster_lens.len()
        invariant
            capacity >= 1,
            cap == capacity,
            lens == cluster_lens@,
            is_segmentation(lens, data@.len() as int),
            data@.len() > capacity,
            data@.len() <= usize::MAX,
            i <= lens.len(),
            offset == boundary(lens, i as int),
            offset <= data@.len(),
            base == frames.len() * cap,
            0 <= base <= offset,
            chunk@ == data@.subrange(base, offset as int),
            chunk_size_remain == capacity - chunk.len(),
            i > 0 ==> offset > base,
            forall|k: int|
                0 <= k < frames.len() ==> (#[trigger] frames[k])@ == frame_at(data@, lens, cap, k),
        decreases lens.len() - i,
    {
        let glen: usize = cluster_lens[i];
        proof {
            lemma_boundary_step(lens, i as int);
            lemma_boundary_grows(lens, i + 1, lens.len() as int);
        }
        if glen <= chunk_size_remain {
            chunk.extend_from_slice(&data[offset..offset + glen]);
            chunk_size_remain = chunk_size_remain - glen;
            assert(chunk@ =~= data@.subrange(base, offset + glen));
        } else {
            let mut start: usize = offset;
            let mut rest: usize = glen;
            while rest > chunk_size_remain
                invariant
                    capacity >= 1,
                    cap == capacity,
                    lens == cluster_lens@,
                    is_segmentation(lens, data@.len() as int),
                    data@.len() > capacity,
                    data@.len() <= usize::MAX,
                    i < lens.len(),
                    offset == boundary(lens, i as int),
                    offset + glen == boundary(lens, i + 1),
                    offset + glen <= data@.len(),
                    offset <= start,
                    start + rest == offset + glen,
                    rest >= 1,
                    base == frames.len() * cap,
                    0 <= base <= start,
                    chunk@ == data@.subrange(base, start as int),
                    chunk_size_remain == capacity - chunk.len(),
                    forall|k: int|
                        0 <= k < frames.len() ==> (#[trigger] frames[k])@ == frame_at(
                            data@,
                            lens,
                            cap,
                            k,
                        ),
                decreases offset + glen - base,
            {
                let first_end: usize = start + chunk_size_remain;
                let second_len: usize = rest - chunk_size_remain;
                chunk.extend_from_slice(&data[start..first_end]);
                assert(chunk@ =~= data@.subrange(base, first_end as int));
                let mut frame = Frame::new(chunk, false);
                frame.emoji_cross = true;
                frame.cross_size = #[verifier::truncate] (second_len as u8);
                proof {
                    assert((second_len as u8) == second_len % 256) by (bit_vector);
                    lemma_cluster_at(lens, first_end as int, i as int);
                    lemma_next_multiple(frames.len() as int, cap);
                    assert(frame@ == frame_at(data@, lens, cap, frames.len() as int));
                }
                frames.push(frame);
                chunk = Vec::new();
                start = first_end;
                rest = second_len;
                chunk_size_remain = capacity;
                proof {
                    base = base + cap;
                    assert(chunk@ =~= data@.subrange(base, start as int));
                }
            }
            chunk.extend_from_slice(&data[start..start + rest]);
            chunk_size_remain = chunk_size_remain - rest;
            assert(chunk@ =~= data@.subrange(base, offset + glen));
        }
        offset = offset + glen;
        i = i + 1;
    }
    // The text is longer than one payload, so it has a cluster, and the last
    // cluster has left bytes in the buffer: there is always a final frame.
    let frame = Frame::new(chunk, true);
    proof {
        if lens.len() == 0 {
            assert(boundary(lens, 0) == 0);
        }
        lemma_count_of_last(frames.len() as int, cap, data@.len() as int);
        assert(frame@ == frame_at(data@, lens, cap, frames.len() as int));
    }
    frames.push(frame);
    proof {
        assert(frames.deep_view() =~= split_spec(data@, lens, cap));
    }
    frames
}

/// Cuts `data` into frames of at most `capacity` payload bytes. No frame but
/// the last is shorter than `capacity`, and a grapheme cluster that a frame's
/// end cuts through is announced by that frame.
pub fn split_with_capacity(data: &str, capacity: usize) -> (frames: Vec<Frame>)
    requires
        capacity >= 1,
    ensures
        frames.deep_view() == split_spec(
            data.spec_bytes(),
            grapheme_lengths(data@, true),
            capacity as int,
        ),
{
    let lens = grapheme_byte_lengths(data, true);
    split_clusters(data.as_bytes(), lens.as_slice(), capacity)
}

/// Cuts `data` into frames of at most `MAX_PAYLOAD_SIZE` payload bytes.
pub fn split_into_frames(data: &str) -> (frames: Vec<Frame>)
    ensures
        frames.deep_view() == split_spec(
            data.spec_bytes(),
            grapheme_lengths(data@, true),
            MAX_PAYLOAD_SIZE as int,
        ),
{
    split_with_capacity(data, MAX_PAYLOAD_SIZE)
}

} // verus!
