use bytes::BytesMut;
use movie_barcode::{Dimensions, FrameBuffer, VideoFrameCodec};

fn stream(len: usize) -> Vec<u8> {
    (0..len).map(|i| (i * 31 % 251) as u8).collect()
}

/// Feeds the stream to the codec in chunks of the given sizes, in turn, and
/// collects what comes out.
fn deframe(
    codec: &VideoFrameCodec,
    bytes: &[u8],
    chunk_sizes: &[usize],
) -> (Vec<FrameBuffer>, BytesMut) {
    let mut buffer = BytesMut::new();
    let mut frames = Vec::new();
    let mut at = 0;
    let mut turn = 0;
    while at < bytes.len() {
        let size = chunk_sizes[turn % chunk_sizes.len()].min(bytes.len() - at);
        buffer.extend_from_slice(&bytes[at..at + size]);
        at += size;
        turn += 1;
        frames.extend(codec.decode_all(&mut buffer));
    }
    (frames, buffer)
}

#[test]
fn codec_capacity_is_three_bytes_a_pixel() {
    let codec = VideoFrameCodec::new(4, 5);
    assert_eq!(codec.capacity(), 60);
    assert_eq!(codec.dimensions(), Dimensions::new(4, 5));
}

#[test]
fn decode_waits_for_a_whole_frame() {
    let codec = VideoFrameCodec::new(2, 2);
    let mut buffer = BytesMut::from(&stream(11)[..]);
    assert!(codec.decode(&mut buffer).is_none());
    assert_eq!(&buffer[..], &stream(11)[..]);
}

#[test]
fn decode_takes_a_frame_that_is_exactly_there() {
    let codec = VideoFrameCodec::new(2, 2);
    let mut buffer = BytesMut::from(&stream(12)[..]);
    let frame = codec.decode(&mut buffer).unwrap();
    assert_eq!(frame.as_raw(), &stream(12));
    assert_eq!(frame.dimensions(), Dimensions::new(2, 2));
    assert!(buffer.is_empty());
    assert!(codec.decode(&mut buffer).is_none());
}

#[test]
fn decode_cuts_at_the_frame_boundary_when_more_has_arrived() {
    let codec = VideoFrameCodec::new(2, 2);
    let bytes = stream(30);
    let mut buffer = BytesMut::from(&bytes[..]);
    let first = codec.decode(&mut buffer).unwrap();
    assert_eq!(first.as_raw()[..], bytes[..12]);
    assert_eq!(&buffer[..], &bytes[12..]);
    let second = codec.decode(&mut buffer).unwrap();
    assert_eq!(second.as_raw()[..], bytes[12..24]);
    assert!(codec.decode(&mut buffer).is_none());
    assert_eq!(&buffer[..], &bytes[24..]);
}

#[test]
fn codec_for_frames_without_pixels_never_yields() {
    let codec = VideoFrameCodec::new(0, 9);
    let mut buffer = BytesMut::from(&stream(5)[..]);
    assert!(codec.decode(&mut buffer).is_none());
    assert!(codec.decode_all(&mut buffer).is_empty());
    assert_eq!(buffer.len(), 5);
    let mut empty = BytesMut::new();
    assert!(codec.decode(&mut empty).is_none());
}

#[test]
fn whole_frames_come_out_however_the_stream_is_chunked() {
    let codec = VideoFrameCodec::new(3, 2);
    let frames = 7;
    let bytes = stream(18 * frames);
    let chunkings: [&[usize]; 8] =
        [&[1], &[18], &[17], &[19], &[36], &[5, 1, 40], &[126], &[7, 11, 13, 2]];
    for sizes in chunkings {
        let (out, left) = deframe(&codec, &bytes, sizes);
        assert_eq!(out.len(), frames);
        for (i, frame) in out.iter().enumerate() {
            assert_eq!(frame.as_raw()[..], bytes[i * 18..(i + 1) * 18]);
        }
        assert!(left.is_empty());
    }
}

#[test]
fn trailing_bytes_are_thrown_away_when_the_stream_ends() {
    let codec = VideoFrameCodec::new(3, 2);
    let bytes = stream(18 * 3 + 11);
    for sizes in [&[4usize][..], &[18], &[100], &[3, 20]] {
        let (mut out, mut left) = deframe(&codec, &bytes, sizes);
        assert_eq!(left.len(), 11);
        let (last, discarded) = codec.decode_eof(&mut left);
        out.extend(last);
        assert_eq!(discarded, 11);
        assert!(left.is_empty());
        assert_eq!(out.len(), 3);
        for (i, frame) in out.iter().enumerate() {
            assert_eq!(frame.as_raw()[..], bytes[i * 18..(i + 1) * 18]);
        }
    }
}

#[test]
fn end_of_stream_takes_the_frames_that_are_still_buffered() {
    let codec = VideoFrameCodec::new(1, 1);
    let mut buffer = BytesMut::from(&[1u8, 2, 3, 4, 5, 6, 7, 8][..]);
    let (frames, discarded) = codec.decode_eof(&mut buffer);
    assert_eq!(frames.len(), 2);
    assert_eq!(frames[0].as_raw(), &vec![1, 2, 3]);
    assert_eq!(frames[1].as_raw(), &vec![4, 5, 6]);
    assert_eq!(discarded, 2);
    assert!(buffer.is_empty());
}
