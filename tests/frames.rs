use file_fingerprint::{extract_frames, DecodedFrame};

fn frame(timestamp: Option<i64>, tag: u8) -> DecodedFrame {
    DecodedFrame { timestamp, data: vec![tag; 3] }
}

#[test]
fn summary_frames_are_spaced_by_the_interval() {
    let frames = vec![
        frame(Some(0), 1),
        frame(Some(60), 2),
        frame(Some(120), 3),
        frame(Some(200), 4),
        frame(Some(240), 5),
        frame(None, 6),
        frame(Some(400), 7),
    ];
    assert_eq!(extract_frames(&frames), vec![vec![3u8; 3], vec![5u8; 3], vec![7u8; 3]]);
}

#[test]
fn no_frames_before_the_first_interval() {
    let frames = vec![frame(Some(10), 1), frame(None, 2), frame(Some(119), 3)];
    assert!(extract_frames(&frames).is_empty());
    assert!(extract_frames(&Vec::new()).is_empty());
}

#[test]
fn extreme_timestamps_do_not_overflow() {
    let frames = vec![frame(Some(i64::MAX), 1), frame(Some(i64::MAX), 2), frame(Some(i64::MIN), 3)];
    assert_eq!(extract_frames(&frames), vec![vec![1u8; 3]]);
}
