use emoji_framing::frame::{Frame, MAX_PAYLOAD_SIZE};
use emoji_framing::splitter::{split_clusters, split_into_frames, split_with_capacity};

const ROCKET: &str = "🚀";
const GRIN: &str = "😀";
const FAMILY: &str = "👨‍👩‍👧‍👦";
const KISS: &str = "👩‍❤️‍💋‍👨";

fn payloads_joined(frames: &[Frame]) -> Vec<u8> {
    let mut all = Vec::new();
    for f in frames {
        all.extend_from_slice(&f.payload);
    }
    all
}

fn assert_only_last_is_final(frames: &[Frame]) {
    assert!(!frames.is_empty());
    for (k, f) in frames.iter().enumerate() {
        assert_eq!(f.fin, k + 1 == frames.len(), "frame {}", k);
    }
}

#[test]
fn cluster_sizes_of_the_samples() {
    assert_eq!(ROCKET.len(), 4);
    assert_eq!(GRIN.len(), 4);
    assert_eq!(FAMILY.len(), 25);
    assert_eq!(KISS.len(), 27);
}

#[test]
fn three_emoji_travel_in_one_frame() {
    let frames = split_into_frames("🚀😀👨‍👩‍👧‍👦");
    assert_eq!(frames.len(), 1);
    assert!(frames[0].fin);
    assert!(!frames[0].emoji_cross);
    assert_eq!(frames[0].cross_size, 0);
    assert_eq!(frames[0].payload.len(), 33);
    assert_eq!(frames[0].payload, "🚀😀👨‍👩‍👧‍👦".as_bytes());
}

#[test]
fn empty_text_is_one_empty_final_frame() {
    let frames = split_into_frames("");
    assert_eq!(frames, vec![Frame::new(Vec::new(), true)]);
    let frames = split_with_capacity("", 1);
    assert_eq!(frames, vec![Frame::new(Vec::new(), true)]);
}

#[test]
fn short_texts_are_one_frame() {
    for text in ["a", "hello, world", "e\u{301}", "🇷🇺🇸🇹", &"x".repeat(499)] {
        let frames = split_into_frames(text);
        assert_eq!(frames, vec![Frame::new(text.as_bytes().to_vec(), true)], "{:?}", text);
    }
}

#[test]
fn exactly_one_payload_is_one_frame() {
    let text = "a".repeat(500);
    let frames = split_into_frames(&text);
    assert_eq!(frames.len(), 1);
    assert_eq!(frames[0], Frame::new(text.as_bytes().to_vec(), true));
}

#[test]
fn one_byte_more_is_two_frames() {
    let text = "a".repeat(501);
    let frames = split_into_frames(&text);
    assert_eq!(frames.len(), 2);
    assert_eq!(
        frames[0],
        Frame { fin: false, emoji_cross: true, cross_size: 1, payload: vec![b'a'; 500] }
    );
    assert_eq!(frames[1], Frame::new(vec![b'a'], true));
}

#[test]
fn family_alone_in_frames_of_five() {
    let frames = split_with_capacity(FAMILY, 5);
    let bytes = FAMILY.as_bytes();
    assert_eq!(frames.len(), 5);
    let counts = [20u8, 15, 10, 5];
    for k in 0..4 {
        assert!(!frames[k].fin, "frame {}", k);
        assert!(frames[k].emoji_cross, "frame {}", k);
        assert_eq!(frames[k].cross_size, counts[k], "frame {}", k);
        assert_eq!(frames[k].payload, &bytes[5 * k..5 * k + 5], "frame {}", k);
    }
    assert_eq!(frames[4], Frame::new(bytes[20..].to_vec(), true));
}

#[test]
fn family_in_frames_of_ten_and_of_four() {
    let bytes = FAMILY.as_bytes();
    let frames = split_with_capacity(FAMILY, 10);
    assert_eq!(frames.len(), 3);
    assert_eq!(
        frames[0],
        Frame { fin: false, emoji_cross: true, cross_size: 15, payload: bytes[..10].to_vec() }
    );
    assert_eq!(
        frames[1],
        Frame { fin: false, emoji_cross: true, cross_size: 5, payload: bytes[10..20].to_vec() }
    );
    assert_eq!(frames[2], Frame::new(bytes[20..].to_vec(), true));

    let frames = split_with_capacity(FAMILY, 4);
    assert_eq!(frames.len(), 7);
    for k in 0..6 {
        assert_eq!(frames[k].cross_size as usize, 25 - 4 * (k + 1));
        assert_eq!(frames[k].payload.len(), 4);
    }
    assert_eq!(frames[6], Frame::new(bytes[24..].to_vec(), true));
}

#[test]
fn a_straddling_cluster_is_announced() {
    // 498 bytes of ASCII, then the rocket: its first two bytes fill the frame.
    let text = format!("{}{}", "a".repeat(498), ROCKET);
    let bytes = text.as_bytes();
    let frames = split_into_frames(&text);
    assert_eq!(frames.len(), 2);
    assert_eq!(
        frames[0],
        Frame { fin: false, emoji_cross: true, cross_size: 2, payload: bytes[..500].to_vec() }
    );
    assert_eq!(frames[1], Frame::new(bytes[500..].to_vec(), true));
    assert_eq!(frames[1].payload, &ROCKET.as_bytes()[2..]);
}

#[test]
fn a_full_frame_announces_the_cluster_behind_it() {
    // The frame boundary falls between two clusters: the count is the whole
    // length of the cluster that follows.
    let text = format!("{}{}{}", "a".repeat(500), FAMILY, "b");
    let bytes = text.as_bytes();
    let frames = split_into_frames(&text);
    assert_eq!(frames.len(), 2);
    assert_eq!(
        frames[0],
        Frame { fin: false, emoji_cross: true, cross_size: 25, payload: bytes[..500].to_vec() }
    );
    assert_eq!(frames[1], Frame::new(bytes[500..].to_vec(), true));
    assert_eq!(&frames[1].payload[..25], FAMILY.as_bytes());
}

#[test]
fn the_long_sample_message() {
    let text = format!("{}{}{}", FAMILY.repeat(19), GRIN.repeat(7), KISS.repeat(20));
    let bytes = text.as_bytes();
    assert_eq!(bytes.len(), 1043);
    let frames = split_into_frames(&text);
    assert_eq!(frames.len(), 3);
    // The seventh grinning face lies at 499..503.
    assert_eq!(
        frames[0],
        Frame { fin: false, emoji_cross: true, cross_size: 3, payload: bytes[..500].to_vec() }
    );
    // The nineteenth kiss lies at 989..1016.
    assert_eq!(
        frames[1],
        Frame { fin: false, emoji_cross: true, cross_size: 16, payload: bytes[500..1000].to_vec() }
    );
    assert_eq!(frames[2], Frame::new(bytes[1000..].to_vec(), true));
}

#[test]
fn payloads_laid_end_to_end_are_the_text() {
    let texts = [
        String::new(),
        "a".repeat(1500),
        FAMILY.repeat(19) + &GRIN.repeat(7),
        FAMILY.repeat(100),
        format!("{}{}", "é".repeat(333), KISS.repeat(40)),
    ];
    for text in texts.iter() {
        for capacity in [1usize, 2, 3, 5, 25, 26, 499, 500, 501, 4096] {
            let frames = split_with_capacity(text, capacity);
            assert_eq!(payloads_joined(&frames), text.as_bytes());
            assert_only_last_is_final(&frames);
            let expected = if text.len() <= capacity {
                1
            } else {
                (text.len() + capacity - 1) / capacity
            };
            assert_eq!(frames.len(), expected);
            for f in &frames[..frames.len() - 1] {
                assert_eq!(f.payload.len(), capacity);
                assert!(f.emoji_cross);
            }
            let last = &frames[frames.len() - 1];
            assert!(last.payload.len() <= capacity);
            assert!(!last.emoji_cross);
            assert_eq!(last.cross_size, 0);
        }
    }
}

#[test]
fn the_count_wraps_at_eight_bits() {
    // One cluster of 1 + 2 * 400 = 801 bytes: a letter and 400 combining accents.
    let text = format!("a{}", "\u{301}".repeat(400));
    assert_eq!(text.len(), 801);
    let frames = split_into_frames(&text);
    assert_eq!(frames.len(), 2);
    assert!(frames[0].emoji_cross);
    assert_eq!(frames[0].cross_size, ((801 - 500) % 256) as u8);
    assert_eq!(frames[0].cross_size, 45);
    assert_eq!(frames[1].payload.len(), 301);
    assert!(frames[1].fin);
}

#[test]
fn split_clusters_follows_the_given_lengths() {
    let data: Vec<u8> = (0u8..12).collect();
    // Clusters 0..3, 3..10, 10..12 and a capacity of four.
    let frames = split_clusters(&data, &[3, 7, 2], 4);
    assert_eq!(
        frames,
        vec![
            Frame { fin: false, emoji_cross: true, cross_size: 6, payload: vec![0, 1, 2, 3] },
            Frame { fin: false, emoji_cross: true, cross_size: 2, payload: vec![4, 5, 6, 7] },
            Frame::new(vec![8, 9, 10, 11], true),
        ]
    );
    // The same bytes as single-byte clusters: every count is one.
    let frames = split_clusters(&data, &[1; 12], 4);
    assert_eq!(
        frames,
        vec![
            Frame { fin: false, emoji_cross: true, cross_size: 1, payload: vec![0, 1, 2, 3] },
            Frame { fin: false, emoji_cross: true, cross_size: 1, payload: vec![4, 5, 6, 7] },
            Frame::new(vec![8, 9, 10, 11], true),
        ]
    );
    // As one cluster.
    let frames = split_clusters(&data, &[12], 5);
    assert_eq!(
        frames,
        vec![
            Frame { fin: false, emoji_cross: true, cross_size: 7, payload: vec![0, 1, 2, 3, 4] },
            Frame { fin: false, emoji_cross: true, cross_size: 2, payload: vec![5, 6, 7, 8, 9] },
            Frame::new(vec![10, 11], true),
        ]
    );
}

#[test]
fn split_clusters_of_a_text_that_fits() {
    assert_eq!(split_clusters(&[], &[], 1), vec![Frame::new(Vec::new(), true)]);
    assert_eq!(split_clusters(&[1, 2, 3], &[2, 1], 3), vec![Frame::new(vec![1, 2, 3], true)]);
    assert_eq!(split_clusters(&[1, 2, 3], &[3], 100), vec![Frame::new(vec![1, 2, 3], true)]);
}

#[test]
fn default_capacity_is_the_largest_payload() {
    let text = FAMILY.repeat(50);
    assert_eq!(split_into_frames(&text), split_with_capacity(&text, MAX_PAYLOAD_SIZE));
}
