use murmur::framing::{encode_frame, frame_extent};
use murmur::socks5::{
    connect_reply, greeting_methods, ipv4_to_string, no_auth_reply, port_of, request_address_kind,
    AddressKind, Socks5Error,
};

#[test]
fn frame_has_big_endian_length_prefix() {
    let frame = encode_frame(b"hello");
    assert_eq!(frame, vec![0, 0, 0, 5, b'h', b'e', b'l', b'l', b'o']);
    let big = vec![7u8; 0x0102];
    let f = encode_frame(&big);
    assert_eq!(&f[..4], &[0, 0, 1, 2]);
    assert_eq!(f.len(), 4 + 0x0102);
}

#[test]
fn frame_round_trip() {
    let payload = b"some serialized message";
    let mut buf = encode_frame(payload);
    buf.extend_from_slice(b"next frame starts here");
    let (start, end) = frame_extent(&buf).unwrap();
    assert_eq!(&buf[start..end], payload);
}

#[test]
fn partial_frames_wait_for_more_bytes() {
    let frame = encode_frame(b"abc");
    assert_eq!(frame_extent(&frame[..2]), None);
    assert_eq!(frame_extent(&frame[..6]), None);
    assert_eq!(frame_extent(&frame), Some((4, 7)));
    assert_eq!(frame_extent(&[0, 0, 0, 0]), Some((4, 4)));
}

#[test]
fn socks5_greeting() {
    assert_eq!(greeting_methods([5, 2]), Ok(2));
    assert_eq!(greeting_methods([4, 1]), Err(Socks5Error::BadVersion(4)));
    assert_eq!(no_auth_reply(), [5, 0]);
}

#[test]
fn socks5_request_header() {
    assert_eq!(request_address_kind([5, 1, 0, 1]), Ok(AddressKind::Ipv4));
    assert_eq!(request_address_kind([5, 1, 0, 3]), Ok(AddressKind::Domain));
    assert_eq!(request_address_kind([5, 1, 0, 4]), Ok(AddressKind::Ipv6));
    assert_eq!(request_address_kind([5, 1, 0, 9]), Err(Socks5Error::UnsupportedAddressType(9)));
    assert_eq!(request_address_kind([5, 2, 0, 1]), Err(Socks5Error::UnsupportedRequest));
    assert_eq!(request_address_kind([4, 1, 0, 1]), Err(Socks5Error::UnsupportedRequest));
}

#[test]
fn socks5_address_and_reply() {
    assert_eq!(port_of([0x1f, 0x90]), 8080);
    assert_eq!(ipv4_to_string([192, 168, 0, 17]), "192.168.0.17");
    assert_eq!(ipv4_to_string([0, 0, 0, 0]), "0.0.0.0");
    assert_eq!(connect_reply(true), [5, 0, 0, 1, 0, 0, 0, 0, 0, 0]);
    assert_eq!(connect_reply(false), [5, 4, 0, 1, 0, 0, 0, 0, 0, 0]);
}

#[test]
fn test_postcard_codec_encode_decode() {
    let payload = postcard::to_allocvec(&(7u64, String::from("ping"))).unwrap();
    let frame = encode_frame(&payload);
    assert!(frame.len() > 4);
    let (start, end) = frame_extent(&frame).unwrap();
    let decoded: (u64, String) = postcard::from_bytes(&frame[start..end]).unwrap();
    assert_eq!(decoded, (7, String::from("ping")));
}

#[test]
fn test_postcard_codec_partial_buffer() {
    let payload = postcard::to_allocvec(&(7u64, String::from("ping"))).unwrap();
    let frame = encode_frame(&payload);
    assert!(frame_extent(&frame[..2]).is_none());
}
