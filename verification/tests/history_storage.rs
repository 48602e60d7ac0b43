use bearclaw_proxy::content::{compress_content, hash_bytes, load_content};
use bearclaw_proxy::history::{
    load_http_request, load_http_response, load_stored_response, plan_http_history, split_http_request,
    split_http_request_remainder, split_http_response, HttpError, HttpMessage, HttpMessageImpl, StorageStats,
    TestId,
};
use bearclaw_proxy::scenario::Timestamp;

const GET: &[u8] = b"GET /a HTTP/1.1\r\nHost: example.com\r\nAccept: */*\r\n\r\nbody";

#[test]
fn request_split_three_pieces() {
    let s = split_http_request(GET);
    assert_eq!(s.location, b"GET /a HTTP/1.1\r\nHost: example.com\r\n".to_vec());
    assert_eq!(s.header, b"Accept: */*\r\n\r\n".to_vec());
    assert_eq!(s.body, Some(b"body".to_vec()));
}

#[test]
fn request_split_edge_cases() {
    // no second line feed: everything is header
    let s = split_http_request(b"GET / HTTP/1.1\r\n");
    assert!(s.location.is_empty());
    assert_eq!(s.header, b"GET / HTTP/1.1\r\n".to_vec());
    assert_eq!(s.body, None);
    // ends right after the second line feed: empty header
    let s = split_http_request(b"a\nb\n");
    assert_eq!(s.location, b"a\nb\n".to_vec());
    assert!(s.header.is_empty());
    assert_eq!(s.body, None);
    // header without blank line, and blank line at the very end
    assert_eq!(split_http_request_remainder(b"X: 1\r\n"), (b"X: 1\r\n".to_vec(), None));
    assert_eq!(split_http_request_remainder(b"X: 1\r\n\r\n"), (b"X: 1\r\n\r\n".to_vec(), None));
}

#[test]
fn response_split() {
    assert_eq!(
        split_http_response(b"HTTP/1.1 200 OK\r\n\r\nhello\r\n\r\nworld"),
        (b"HTTP/1.1 200 OK\r\n\r\n".to_vec(), b"hello\r\n\r\nworld".to_vec())
    );
    assert_eq!(split_http_response(b"garbage"), (b"garbage".to_vec(), Vec::new()));
}

#[test]
fn store_then_load_round_trip() {
    let s = split_http_request(GET);
    let l = compress_content(&s.location).unwrap();
    let h = compress_content(&s.header).unwrap();
    let b = compress_content(s.body.as_ref().unwrap()).unwrap();
    assert_eq!(load_http_request(&l, &h, Some(&b)).unwrap(), GET.to_vec());

    let resp = b"HTTP/1.1 404 Not Found\r\nContent-Length: 0\r\n\r\n".to_vec();
    let (rh, rb) = split_http_response(&resp);
    let ch = compress_content(&rh).unwrap();
    let cb = compress_content(&rb).unwrap();
    assert_eq!(load_http_response(&ch, &cb).unwrap(), resp);
}

#[test]
fn load_content_appends() {
    let c = compress_content(b"abc").unwrap();
    let mut out = b"xy".to_vec();
    assert!(load_content(&c, &mut out));
    assert_eq!(out, b"xyabc".to_vec());
    let mut out2 = b"keep".to_vec();
    assert!(!load_content(b"not a zstd frame", &mut out2));
    assert_eq!(out2, b"keep".to_vec());
    assert!(load_http_request(b"junk", &c, None).is_none());
}

#[test]
fn hash_is_a_blake3_prefix() {
    let digest = blake3::hash(b"hello");
    let mut prefix = [0u8; 8];
    prefix.copy_from_slice(&digest.as_bytes()[..8]);
    assert_eq!(hash_bytes(b"hello"), i64::from_ne_bytes(prefix));
    assert_eq!(hash_bytes(b"hello"), hash_bytes(b"hello"));
    assert_ne!(hash_bytes(b"hello"), hash_bytes(b"hellp"));
}

#[test]
fn compressed_content_is_zstd() {
    let data = vec![7u8; 1000];
    let c = compress_content(&data).unwrap();
    assert!(c.len() < data.len());
    assert_eq!(zstd::stream::decode_all(&c[..]).unwrap(), data);
}

fn message(response: Result<Vec<u8>, HttpError>) -> HttpMessage {
    HttpMessage {
        request_time: Timestamp { secs: 10, nsecs: 1 },
        response_time: Timestamp { secs: 11, nsecs: 2 },
        host: "example.com".to_string(),
        port: 443,
        is_https: true,
        request: GET.to_vec(),
        response,
    }
}

#[test]
fn plan_for_response_and_error() {
    let p = plan_http_history(None, &message(Ok(b"H\r\n\r\nB".to_vec())));
    assert_eq!(p.test_id, 1);
    assert_eq!(p.response_header, b"H\r\n\r\n".to_vec());
    assert_eq!(p.response_body, b"B".to_vec());
    assert_eq!(p.error_code, None);
    assert_eq!(p.request.body, Some(b"body".to_vec()));

    let p = plan_http_history(Some(TestId(9)), &message(Err(HttpError::ResponseTimeout)));
    assert_eq!(p.test_id, 9);
    assert!(p.response_header.is_empty() && p.response_body.is_empty());
    assert_eq!(p.error_code, Some(4));
}

#[test]
fn stored_response_decoding() {
    assert_eq!(load_stored_response(Some(2), b"", b""), Some(Err(HttpError::CouldNotConnect)));
    assert_eq!(load_stored_response(Some(9), b"", b""), None);
    let h = compress_content(b"H\r\n\r\n").unwrap();
    let b = compress_content(b"B").unwrap();
    assert_eq!(load_stored_response(None, &h, &b), Some(Ok(b"H\r\n\r\nB".to_vec())));
}

#[test]
fn http_error_codes() {
    let all = [
        HttpError::Dns,
        HttpError::CouldNotConnect,
        HttpError::ConnectionClosed,
        HttpError::ResponseTimeout,
        HttpError::ResponseTooLarge,
    ];
    for (i, e) in all.iter().enumerate() {
        assert_eq!(e.to_u8(), i as u8 + 1);
        assert_eq!(HttpError::try_from_u8(e.to_u8()), Some(*e));
    }
    assert_eq!(HttpError::try_from_u8(0), None);
    assert_eq!(HttpError::try_from_u8(6), None);
}

#[test]
fn storage_stats_accounting() {
    let mut s = StorageStats::new();
    s.record_stored(100, 30);
    s.record_deduplicated(50);
    assert_eq!(s, StorageStats { bytes_total: 150, bytes_stored: 30, bytes_deduplicated: 50 });
    assert_eq!(s.bytes_compressed(), 70);
    let mut total = StorageStats::new();
    total.merge(&s);
    total.merge(&s);
    assert_eq!(total, StorageStats { bytes_total: 300, bytes_stored: 60, bytes_deduplicated: 100 });
}

#[test]
fn http_message_accessors() {
    let m = HttpMessageImpl::new(message(Err(HttpError::Dns)));
    let c = m.connection_info();
    assert_eq!((c.host.as_str(), c.port, c.is_https), ("example.com", 443, true));
    assert_eq!(m.request_timestamp(), Timestamp { secs: 10, nsecs: 1 });
    assert_eq!(m.response_timestamp(), Timestamp { secs: 11, nsecs: 2 });
    assert_eq!(m.request_bytes(), GET);
    assert_eq!(m.response_bytes(), Err(HttpError::Dns));
    let m = HttpMessageImpl::new(message(Ok(b"ok".to_vec())));
    assert_eq!(m.response_bytes(), Ok(&b"ok"[..]));
}

#[test]
fn planned_pieces_load_back() {
    let m = message(Ok(b"HTTP/1.1 200 OK\r\nX: y\r\n\r\npayload".to_vec()));
    let p = plan_http_history(None, &m);
    let l = compress_content(&p.request.location).unwrap();
    let h = compress_content(&p.request.header).unwrap();
    let b = p.request.body.as_ref().map(|x| compress_content(x).unwrap());
    assert_eq!(load_http_request(&l, &h, b.as_deref()).unwrap(), GET.to_vec());
    let rh = compress_content(&p.response_header).unwrap();
    let rb = compress_content(&p.response_body).unwrap();
    assert_eq!(
        load_stored_response(p.error_code, &rh, &rb),
        Some(Ok(b"HTTP/1.1 200 OK\r\nX: y\r\n\r\npayload".to_vec()))
    );

    let m = message(Err(HttpError::Dns));
    let p = plan_http_history(None, &m);
    let rh = compress_content(&p.response_header).unwrap();
    let rb = compress_content(&p.response_body).unwrap();
    assert_eq!(load_stored_response(p.error_code, &rh, &rb), Some(Err(HttpError::Dns)));
}
