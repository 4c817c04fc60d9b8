//! Picking summary frames out of a decoded video.
//!
//! Decoding happens outside this library; what it decides is which decoded
//! frames to keep. A frame is kept when its timestamp is at least
//! `SUMMARY_FRAME_INTERVAL` past that of the last frame kept (or past zero,
//! before any is kept). A frame without a timestamp counts as at time zero.

use vstd::prelude::*;

verus! {

/// The least gap, in timestamp units, between two kept frames.
pub const SUMMARY_FRAME_INTERVAL: i64 = 120;

/// A decoded frame: its presentation timestamp, if the decoder gave one, and
/// its pixel data.
pub struct DecodedFrame {
    /// The presentation timestamp.
    pub timestamp: Option<i64>,
    /// The pixel data of the frame's first plane.
    pub data: Vec<u8>,
}

/// The time of a frame: its timestamp, or zero without one.
pub open spec fn frame_time(f: DecodedFrame) -> int {
    match f.timestamp {
        Some(t) => t as int,
        None => 0,
    }
}

/// The data of the frames of `frames` that are kept, in order, the last kept
/// frame (or the start) being at time `start`.
pub open spec fn summary_frames(frames: Seq<DecodedFrame>, start: int) -> Seq<Seq<u8>>
    decreases frames.len(),
{
    if frames.len() == 0 {
        seq![]
    } else if frame_time(frames[0]) >= start + SUMMARY_FRAME_INTERVAL {
        seq![frames[0].data@] + summary_frames(frames.drop_first(), frame_time(frames[0]))
    } else {
        summary_frames(frames.drop_first(), start)
    }
}

/// The data of the summary frames among `frames`, in order.
pub fn extract_frames(frames: &Vec<DecodedFrame>) -> (r: Vec<Vec<u8>>)
    ensures
        r@.map_values(|v: Vec<u8>| v@) == summary_frames(frames@, 0),
{
    let n = frames.len();
    let mut kept: Vec<Vec<u8>> = Vec::new();
    let mut start: i64 = 0;
    let mut i: usize = 0;
    proof {
        assert(frames@.subrange(0, n as int) =~= frames@);
        assert(kept@.map_values(|v: Vec<u8>| v@) =~= Seq::<Seq<u8>>::empty());
    }
    while i < n
        invariant
            i <= n,
            n == frames@.len(),
            kept@.map_values(|v: Vec<u8>| v@) + summary_frames(frames@.subrange(i as int, n as int), start as int)
                == summary_frames(frames@, 0),
        decreases n - i,
    {
        let frame = &frames[i];
        let time: i64 = match frame.timestamp {
            Some(t) => t,
            None => 0,
        };
        proof {
            assert(frames@.subrange(i as int, n as int).drop_first() =~= frames@.subrange(i + 1, n as int));
            assert(frames@.subrange(i as int, n as int)[0] == frames@[i as int]);
        }
        if time as i128 >= start as i128 + SUMMARY_FRAME_INTERVAL as i128 {
            let data = frame.data.clone();
            proof {
                assert(data@ =~= frame.data@);
                assert(kept@.push(data).map_values(|v: Vec<u8>| v@) =~= kept@.map_values(|v: Vec<u8>| v@).push(data@));
            }
            kept.push(data);
            start = time;
        }
        i = i + 1;
    }
    proof {
        assert(frames@.subrange(n as int, n as int) =~= Seq::<DecodedFrame>::empty());
    }
    kept
}

}
