use emoji_framing::frame::Frame;
use emoji_framing::reassembly::{reassemble, FrameOutcome, Reassembler};
use emoji_framing::splitter::{split_into_frames, split_with_capacity};

const GRIN: &str = "😀";
const FAMILY: &str = "👨‍👩‍👧‍👦";
const KISS: &str = "👩‍❤️‍💋‍👨";

fn frame(fin: bool, emoji_cross: bool, cross_size: u8, payload: &[u8]) -> Frame {
    Frame { fin, emoji_cross, cross_size, payload: payload.to_vec() }
}

fn outcome(segment: Option<&[u8]>, finished: bool) -> FrameOutcome {
    FrameOutcome { segment: segment.map(|s| s.to_vec()), finished }
}

#[test]
fn a_final_frame_closes_the_message() {
    let mut r = Reassembler::new();
    assert_eq!(r.pending(), 0);
    assert_eq!(r.accept(&frame(true, false, 0, b"hi")), outcome(Some(b"hi"), true));
    assert_eq!(r.pending(), 0);
}

#[test]
fn an_empty_final_frame_completes_nothing() {
    let mut r = Reassembler::new();
    assert_eq!(r.accept(&frame(true, false, 0, b"")), outcome(None, true));
}

#[test]
fn a_plain_frame_is_a_segment_of_its_own() {
    let mut r = Reassembler::new();
    assert_eq!(r.accept(&frame(false, false, 0, b"abc")), outcome(Some(b"abc"), false));
    assert_eq!(r.accept(&frame(false, false, 0, b"")), outcome(Some(b""), false));
    assert_eq!(r.accept(&frame(true, false, 0, b"z")), outcome(Some(b"z"), true));
}

#[test]
fn a_count_without_the_flag_is_not_a_continuation() {
    let mut r = Reassembler::new();
    assert_eq!(r.accept(&frame(false, false, 9, b"abc")), outcome(Some(b"abc"), false));
    assert_eq!(r.pending(), 0);
}

#[test]
fn a_continuation_is_stitched() {
    let mut r = Reassembler::new();
    assert_eq!(r.accept(&frame(false, true, 2, b"abc")), outcome(None, false));
    assert_eq!(r.pending(), 2);
    // Two bytes are owed: "de" completes the segment, "f" opens the next one.
    assert_eq!(r.accept(&frame(false, false, 0, b"def")), outcome(Some(b"abcde"), false));
    assert_eq!(r.pending(), 0);
    assert_eq!(r.accept(&frame(true, false, 0, b"g")), outcome(Some(b"fg"), true));
}

#[test]
fn a_continuation_over_several_frames() {
    let mut r = Reassembler::new();
    assert_eq!(r.accept(&frame(false, true, 5, b"ab")), outcome(None, false));
    assert_eq!(r.accept(&frame(false, true, 3, b"cd")), outcome(None, false));
    // The count of a frame that pays a debt without clearing it is not read.
    assert_eq!(r.pending(), 3);
    assert_eq!(r.accept(&frame(false, false, 0, b"")), outcome(None, false));
    assert_eq!(r.pending(), 3);
    assert_eq!(r.accept(&frame(false, true, 7, b"efgh")), outcome(Some(b"abcdefg"), false));
    // "h" was left over, so the frame's own announcement counts.
    assert_eq!(r.pending(), 7);
}

#[test]
fn a_debt_paid_by_a_whole_payload_leaves_nothing_owed() {
    let mut r = Reassembler::new();
    assert_eq!(r.accept(&frame(false, true, 2, b"ab")), outcome(None, false));
    // The payload is used up by the debt: the frame's announcement is not read.
    assert_eq!(r.accept(&frame(false, true, 4, b"cd")), outcome(Some(b"abcd"), false));
    assert_eq!(r.pending(), 0);
    assert_eq!(r.accept(&frame(false, false, 0, b"ef")), outcome(Some(b"ef"), false));
}

#[test]
fn a_final_frame_ends_an_open_continuation() {
    let mut r = Reassembler::new();
    assert_eq!(r.accept(&frame(false, true, 200, b"ab")), outcome(None, false));
    assert_eq!(r.accept(&frame(true, false, 0, b"c")), outcome(Some(b"abc"), true));
    // The next message starts afresh.
    assert_eq!(r.pending(), 0);
    assert_eq!(r.accept(&frame(false, false, 0, b"x")), outcome(Some(b"x"), false));
}

#[test]
fn a_flag_with_count_zero_keeps_the_segment_open() {
    let mut r = Reassembler::new();
    assert_eq!(r.accept(&frame(false, true, 0, b"ab")), outcome(None, false));
    assert_eq!(r.pending(), 0);
    assert_eq!(r.accept(&frame(false, false, 0, b"cd")), outcome(Some(b"abcd"), false));
}

#[test]
fn reassemble_needs_a_final_frame() {
    assert_eq!(reassemble(&[]), None);
    assert_eq!(reassemble(&[frame(false, false, 0, b"abc")]), None);
    assert_eq!(reassemble(&[frame(false, true, 1, b"abc"), frame(false, false, 0, b"d")]), None);
}

#[test]
fn reassemble_stops_at_the_first_final_frame() {
    let frames = [
        frame(false, false, 0, b"one"),
        frame(true, false, 0, b"two"),
        frame(true, false, 0, b"three"),
    ];
    assert_eq!(reassemble(&frames), Some(vec![b"one".to_vec(), b"two".to_vec()]));
    assert_eq!(reassemble(&frames[2..]), Some(vec![b"three".to_vec()]));
}

#[test]
fn reassemble_of_an_empty_message() {
    assert_eq!(reassemble(&[frame(true, false, 0, b"")]), Some(Vec::new()));
    assert_eq!(reassemble(&split_into_frames("")), Some(Vec::new()));
}

#[test]
fn the_long_sample_message_arrives_in_two_segments() {
    let first = format!("{}{}", FAMILY.repeat(19), GRIN.repeat(7));
    let second = KISS.repeat(20);
    let text = format!("{}{}", first, second);
    let segments = reassemble(&split_into_frames(&text)).unwrap();
    assert_eq!(segments, vec![first.into_bytes(), second.into_bytes()]);
}

#[test]
fn plain_text_arrives_stitched_at_the_frame_ends() {
    // Each full frame announces the one-byte cluster behind it.
    let text = "a".repeat(1001);
    let segments = reassemble(&split_into_frames(&text)).unwrap();
    assert_eq!(segments, vec![vec![b'a'; 501], vec![b'a'; 500]]);
}

#[test]
fn family_in_frames_of_five_arrives_whole() {
    let segments = reassemble(&split_with_capacity(FAMILY, 5)).unwrap();
    assert_eq!(segments, vec![FAMILY.as_bytes().to_vec()]);
}

#[test]
fn split_then_reassemble_gives_the_text_back() {
    let texts = [
        String::new(),
        "x".to_string(),
        "a".repeat(1500),
        FAMILY.repeat(19) + &GRIN.repeat(7) + &KISS.repeat(20),
        FAMILY.repeat(100),
        format!("a{}b{}", "\u{301}".repeat(400), "\u{301}".repeat(700)),
        "🇷🇺🇸🇹a\r\n".repeat(77),
    ];
    for text in texts.iter() {
        for capacity in [1usize, 2, 3, 4, 5, 7, 25, 26, 27, 255, 256, 257, 499, 500, 501, 10000] {
            let frames = split_with_capacity(text, capacity);
            let segments = reassemble(&frames).unwrap();
            assert_eq!(segments.concat(), text.as_bytes(), "capacity {}", capacity);
            assert!(segments.iter().all(|s| !s.is_empty()));
        }
    }
}

#[test]
fn no_byte_is_lost_whatever_the_flags_say() {
    let frames = [
        frame(false, true, 0, b"ab"),
        frame(false, false, 9, b"cd"),
        frame(false, true, 200, b""),
        frame(false, true, 1, b"efg"),
        frame(false, false, 3, b"h"),
        frame(true, true, 5, b"ij"),
    ];
    let segments = reassemble(&frames).unwrap();
    assert_eq!(segments.concat(), b"abcdefghij");
}
