use bearclaw_proxy::bootstrap::{forward_request, intercept_ack, intercept_request, Error, Forwarder, InterceptedMessage};

fn field(data: &[u8]) -> Vec<u8> {
    let mut v = (data.len() as u32).to_be_bytes().to_vec();
    v.extend_from_slice(data);
    v
}

fn intercepted(host: &[u8], scheme: &[u8]) -> Vec<u8> {
    let mut m = Vec::new();
    m.extend_from_slice(&1_700_000_000i64.to_be_bytes());
    m.extend_from_slice(&123u32.to_be_bytes());
    m.extend(field(host));
    m.extend_from_slice(&8080u16.to_be_bytes());
    m.extend(field(scheme));
    m.extend(field(b"GET / HTTP/1.1\r\n\r\n"));
    m.extend(field(b"HTTP/1.1 200 OK\r\n\r\n"));
    m
}

#[test]
fn forward_request_layout() {
    let bytes = forward_request("ab", 0x1234, true, b"xyz");
    assert_eq!(
        bytes,
        vec![1, 0, 0, 0, 2, b'a', b'b', 0x12, 0x34, 1, 0, 0, 0, 3, b'x', b'y', b'z', 0]
    );
    assert_eq!(forward_request("", 80, false, b"")[9], 0);
    assert_eq!(intercept_request(), vec![2]);
    assert_eq!(intercept_ack(), vec![0, 0, 0, 0]);
}

#[test]
fn forwarder_frames() {
    let mut f = Forwarder::new();
    assert!(!f.has_frame());
    assert_eq!(f.take_response(), None);
    f.receive(&[0, 0, 0, 3, b'a']);
    assert!(!f.has_frame());
    assert_eq!(f.take_response(), None);
    f.receive(&[b'b', b'c', 0, 0, 0, 0, 9]);
    assert!(f.has_frame());
    assert_eq!(f.take_response(), Some(Some(b"abc".to_vec())));
    // a zero length frame means no response
    assert_eq!(f.take_response(), Some(None));
    assert!(!f.has_frame());
}

#[test]
fn intercepted_message_parse() {
    let mut buf = intercepted(b"example.com", b"https");
    let complete = buf.len();
    buf.extend_from_slice(&[7, 7]);
    assert!(InterceptedMessage::check(&buf));
    assert!(!InterceptedMessage::check(&buf[..complete - 1]));
    assert!(!InterceptedMessage::check(&buf[..11]));
    let m = InterceptedMessage::parse(&mut buf).unwrap();
    assert_eq!(m.received_at.secs, 1_700_000_000);
    assert_eq!(m.received_at.nsecs, 123);
    assert_eq!(m.host, "example.com");
    assert_eq!(m.port, 8080);
    assert!(m.is_https);
    assert_eq!(m.request, b"GET / HTTP/1.1\r\n\r\n".to_vec());
    assert_eq!(m.response, b"HTTP/1.1 200 OK\r\n\r\n".to_vec());
    assert_eq!(buf, vec![7, 7]);

    let mut buf = intercepted(b"h", b"http");
    assert!(!InterceptedMessage::parse(&mut buf).unwrap().is_https);
}

#[test]
fn intercepted_message_violations() {
    let mut buf = intercepted(b"h", b"ftp");
    assert!(matches!(InterceptedMessage::parse(&mut buf), Err(Error::ProtocolViolation)));
    let mut buf = intercepted(&[0xff, 0xfe], b"http");
    assert!(matches!(InterceptedMessage::parse(&mut buf), Err(Error::ProtocolViolation)));
    assert_eq!(buf.len(), intercepted(&[0xff, 0xfe], b"http").len() - 18);
}

#[test]
fn complete_frames_stay_complete_when_more_bytes_arrive() {
    let m = intercepted(b"example.com", b"https");
    assert!(InterceptedMessage::check(&m));
    let mut more = m.clone();
    more.extend_from_slice(&[0, 0, 0, 9, 1, 2]);
    assert!(InterceptedMessage::check(&more));
    assert!(!InterceptedMessage::check(&m[..m.len() - 1]));

    let mut f = Forwarder::new();
    f.receive(&field(b"abc"));
    assert!(f.has_frame());
    f.receive(&[0, 0]);
    assert!(f.has_frame());
    assert_eq!(f.take_response(), Some(Some(b"abc".to_vec())));
}
