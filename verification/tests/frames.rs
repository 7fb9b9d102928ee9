use data_server::frame::{read_frames, read_pb_stream, FormatError, FrameReader, LoadError};

fn frame(payload: &[u8]) -> Vec<u8> {
    let n = payload.len() as u32;
    let mut out = n.to_le_bytes().to_vec();
    out.extend_from_slice(payload);
    out
}

fn frames(payloads: &[Vec<u8>]) -> Vec<u8> {
    let mut out = Vec::new();
    for p in payloads {
        out.extend_from_slice(&frame(p));
    }
    out
}

#[test]
fn empty_stream_holds_no_frame() {
    assert_eq!(read_frames(&[]), Ok(Vec::<Vec<u8>>::new()));
}

#[test]
fn single_frame_is_split_off() {
    let bytes = [3u8, 0, 0, 0, 10, 20, 30];
    assert_eq!(read_frames(&bytes), Ok(vec![vec![10u8, 20, 30]]));
}

#[test]
fn empty_payload_is_a_frame() {
    let bytes = [0u8, 0, 0, 0, 1, 0, 0, 0, 9];
    assert_eq!(read_frames(&bytes), Ok(vec![vec![], vec![9u8]]));
}

#[test]
fn prefix_is_little_endian() {
    let payload: Vec<u8> = (0..258u32).map(|i| (i % 251) as u8).collect();
    let mut bytes = vec![2u8, 1, 0, 0];
    bytes.extend_from_slice(&payload);
    assert_eq!(read_frames(&bytes), Ok(vec![payload]));
}

#[test]
fn big_endian_reading_would_be_truncated() {
    // 0x00000100 little-endian announces 256 bytes; only one follows.
    let bytes = [0u8, 1, 0, 0, 7];
    assert_eq!(read_frames(&bytes), Err(FormatError::TruncatedPayload));
}

#[test]
fn round_trip_keeps_content_and_order() {
    let payloads = vec![vec![1u8, 2, 3], vec![], vec![255u8; 300], vec![0u8], vec![4u8, 4]];
    assert_eq!(read_frames(&frames(&payloads)), Ok(payloads));
}

#[test]
fn short_prefix_is_rejected() {
    for n in 1..4usize {
        let bytes = vec![1u8; n];
        assert_eq!(read_frames(&bytes), Err(FormatError::TruncatedPrefix));
    }
}

#[test]
fn short_prefix_after_a_frame_is_rejected() {
    let mut bytes = frame(&[5, 6]);
    bytes.extend_from_slice(&[2, 0]);
    assert_eq!(read_frames(&bytes), Err(FormatError::TruncatedPrefix));
}

#[test]
fn short_payload_is_rejected() {
    let bytes = [4u8, 0, 0, 0, 1, 2, 3];
    assert_eq!(read_frames(&bytes), Err(FormatError::TruncatedPayload));
}

#[test]
fn prefix_without_payload_is_rejected() {
    let bytes = [1u8, 0, 0, 0];
    assert_eq!(read_frames(&bytes), Err(FormatError::TruncatedPayload));
}

#[test]
fn largest_announced_length_is_rejected_when_absent() {
    let bytes = [255u8, 255, 255, 255, 0, 0];
    assert_eq!(read_frames(&bytes), Err(FormatError::TruncatedPayload));
}

#[test]
fn every_cut_off_a_boundary_is_rejected() {
    let payloads = vec![vec![7u8; 3], vec![], vec![8u8; 5]];
    let bytes = frames(&payloads);
    let boundaries = [0usize, 7, 11, 20];
    assert_eq!(bytes.len(), 20);
    for cut in 0..=bytes.len() {
        let got = read_frames(&bytes[..cut]);
        match boundaries.iter().position(|b| *b == cut) {
            Some(k) => assert_eq!(got, Ok(payloads[..k].to_vec())),
            None => assert!(got.is_err()),
        }
    }
}

#[test]
fn reader_yields_frames_one_by_one() {
    let mut bytes = frames(&[vec![1u8, 2], vec![3u8]]);
    bytes.extend_from_slice(&[5, 0, 0, 0, 9]);
    let mut reader = FrameReader::new(&bytes);
    assert_eq!(reader.next_frame(), Ok(Some(vec![1u8, 2])));
    assert_eq!(reader.next_frame(), Ok(Some(vec![3u8])));
    assert_eq!(reader.next_frame(), Err(FormatError::TruncatedPayload));
    assert_eq!(reader.next_frame(), Err(FormatError::TruncatedPayload));
}

#[test]
fn reader_at_the_end_stays_there() {
    let bytes = frame(&[4, 5, 6]);
    let mut reader = FrameReader::new(&bytes);
    assert_eq!(reader.next_frame(), Ok(Some(vec![4u8, 5, 6])));
    assert_eq!(reader.next_frame(), Ok(None));
    assert_eq!(reader.next_frame(), Ok(None));
}

#[test]
fn reader_of_nothing_is_at_the_end() {
    let mut reader = FrameReader::new(&[]);
    assert_eq!(reader.next_frame(), Ok(None));
}

#[test]
fn reader_reports_a_short_prefix() {
    let bytes = [9u8, 0, 0];
    let mut reader = FrameReader::new(&bytes);
    assert_eq!(reader.next_frame(), Err(FormatError::TruncatedPrefix));
}

#[test]
fn reader_and_whole_stream_agree() {
    let payloads = vec![vec![1u8; 4], vec![], vec![2u8; 9]];
    let bytes = frames(&payloads);
    let mut reader = FrameReader::new(&bytes);
    let mut seen = Vec::new();
    while let Some(payload) = reader.next_frame().unwrap() {
        seen.push(payload);
    }
    assert_eq!(Ok(seen), read_frames(&bytes));
}

#[test]
fn format_errors_say_what_is_cut_short() {
    assert_eq!(
        FormatError::TruncatedPrefix.message(),
        "truncated frame: the length prefix is cut short"
    );
    assert_eq!(
        FormatError::TruncatedPayload.message(),
        "truncated frame: the payload is cut short"
    );
}

fn text(payload: Vec<u8>) -> Result<String, usize> {
    let len = payload.len();
    String::from_utf8(payload).map_err(|_| len)
}

#[test]
fn stream_is_decoded_frame_by_frame() {
    let bytes = frames(&[b"one".to_vec(), b"".to_vec(), b"three".to_vec()]);
    assert_eq!(
        read_pb_stream(&bytes, text),
        Ok(vec!["one".to_string(), String::new(), "three".to_string()])
    );
}

#[test]
fn empty_stream_decodes_to_nothing() {
    assert_eq!(read_pb_stream(&[], text), Ok(Vec::new()));
}

#[test]
fn refused_payload_is_a_decode_error() {
    let bytes = frames(&[b"ok".to_vec(), vec![0xff, 0xfe, 0xfd], b"late".to_vec()]);
    assert_eq!(read_pb_stream(&bytes, text), Err(LoadError::Decode(3)));
}

#[test]
fn cut_stream_is_a_format_error() {
    let mut bytes = frames(&[b"ok".to_vec()]);
    bytes.extend_from_slice(&[4, 0, 0, 0, b'a']);
    assert_eq!(
        read_pb_stream(&bytes, text),
        Err(LoadError::Format(FormatError::TruncatedPayload))
    );
    let mut bytes = frames(&[b"ok".to_vec()]);
    bytes.extend_from_slice(&[4, 0]);
    assert_eq!(
        read_pb_stream(&bytes, text),
        Err(LoadError::Format(FormatError::TruncatedPrefix))
    );
}

#[test]
fn first_failure_in_stream_order_wins() {
    // A refused payload stands before the frame that is cut short.
    let mut bytes = frames(&[vec![0xff], b"ok".to_vec()]);
    bytes.extend_from_slice(&[9, 0, 0, 0]);
    assert_eq!(read_pb_stream(&bytes, text), Err(LoadError::Decode(1)));
}

#[test]
fn decoder_sees_each_payload_once_and_in_order() {
    let seen = std::cell::RefCell::new(Vec::new());
    let bytes = frames(&[vec![1u8], vec![2u8, 2], vec![3u8, 3, 3]]);
    let r: Result<Vec<usize>, LoadError<()>> = read_pb_stream(&bytes, |p: Vec<u8>| {
        seen.borrow_mut().push(p.clone());
        Ok(p.len())
    });
    assert_eq!(r, Ok(vec![1, 2, 3]));
    assert_eq!(seen.into_inner(), vec![vec![1u8], vec![2u8, 2], vec![3u8, 3, 3]]);
}
