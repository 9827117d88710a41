//! Frames on a byte stream.

use bytes::{BufMut, BytesMut};
use lug::proto::codec::{encode, Codec, Error, MAX_FRAME};

const PING: &[u8] = br#"{"t":"ping","id":7}"#;

#[test]
fn round_trip() {
    let mut enc = Codec::new();
    let mut buf = BytesMut::new();
    enc.encode(PING, &mut buf).unwrap();
    assert_eq!(&enc.decode(&mut buf).unwrap().unwrap()[..], PING);
    assert!(enc.decode(&mut buf).unwrap().is_none());
}

#[test]
fn partial_frame_waits() {
    let mut codec = Codec::new();
    let mut buf = BytesMut::new();
    codec.encode(br#"{"t":"ping","id":1}"#, &mut buf).unwrap();
    let whole = buf.split();
    let mut partial = BytesMut::from(&whole[..whole.len() - 1]);
    assert!(codec.decode(&mut partial).unwrap().is_none());
    partial.extend_from_slice(&whole[whole.len() - 1..]);
    assert!(codec.decode(&mut partial).unwrap().is_some());
}

#[test]
fn oversized_length_refused_without_allocating() {
    let mut codec = Codec::new();
    let mut buf = BytesMut::new();
    buf.put_u32(MAX_FRAME + 1);
    assert!(matches!(codec.decode(&mut buf), Err(Error::TooLarge(_))));
}

#[test]
fn two_frames_in_one_read() {
    let mut codec = Codec::new();
    let mut buf = BytesMut::new();
    codec.encode(br#"{"t":"pong","id":1}"#, &mut buf).unwrap();
    codec.encode(br#"{"t":"end","id":2}"#, &mut buf).unwrap();
    assert_eq!(
        &codec.decode(&mut buf).unwrap().unwrap()[..],
        br#"{"t":"pong","id":1}"#
    );
    assert_eq!(
        &codec.decode(&mut buf).unwrap().unwrap()[..],
        br#"{"t":"end","id":2}"#
    );
}

#[test]
fn the_prefix_is_the_length_in_four_bytes_highest_first() {
    let frame = encode(&[9u8; 258]).unwrap();
    assert_eq!(&frame[..4], &[0, 0, 1, 2]);
    assert_eq!(frame.len(), 262);
    assert!(frame[4..].iter().all(|b| *b == 9));
}

#[test]
fn a_body_above_the_limit_is_refused() {
    let body = vec![0u8; MAX_FRAME as usize + 1];
    let refused = encode(&body).unwrap_err();
    assert_eq!(refused, Error::TooLarge(MAX_FRAME + 1));
    assert_eq!(
        refused.message(),
        "frame of 16777217 bytes exceeds the 16777216 byte limit"
    );
    let mut buf = BytesMut::new();
    assert!(Codec::new().encode(&body, &mut buf).is_err());
    assert!(buf.is_empty());
    assert!(encode(&body[..MAX_FRAME as usize]).is_ok());
}

#[test]
fn every_cut_of_a_frame_but_the_last_waits() {
    let frame = encode(PING).unwrap();
    for cut in 0..frame.len() {
        let mut buf = BytesMut::from(&frame[..cut]);
        assert!(Codec::new().decode(&mut buf).unwrap().is_none(), "{cut}");
        assert_eq!(&buf[..], &frame[..cut]);
    }
}
