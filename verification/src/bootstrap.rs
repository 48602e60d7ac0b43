//! The byte protocol spoken with the bootstrap proxy: requests to forward a
//! message, the length-prefixed responses, and the messages the bootstrap
//! proxy hands over when intercepting. All integers are big-endian.

use vstd::prelude::*;
use vstd::string::StringSliceAdditionalSpecFns;
use crate::scenario::Timestamp;

verus! {

/// Failures of the bootstrap proxy protocol (I/O failures are the caller's).
#[derive(Debug, PartialEq, Eq, Structural)]
pub enum Error {
    ConnectionResetByPeer,
    ProtocolViolation,
}

/// Big-endian bytes of a `u32`.
pub open spec fn u32_be_bytes(v: u32) -> Seq<u8> {
    seq![(v >> 24u32) as u8, (v >> 16u32) as u8, (v >> 8u32) as u8, v as u8]
}

/// Big-endian bytes of a `u16`.
pub open spec fn u16_be_bytes(v: u16) -> Seq<u8> {
    seq![(v >> 8u16) as u8, v as u8]
}

/// The big-endian `u32` at `p`.
pub open spec fn be_u32_at(s: Seq<u8>, p: int) -> u32 {
    ((s[p] as u32) << 24u32) | ((s[p + 1] as u32) << 16u32) | ((s[p + 2] as u32) << 8u32) | (s[p + 3] as u32)
}

/// The big-endian `u16` at `p`.
pub open spec fn be_u16_at(s: Seq<u8>, p: int) -> u16 {
    ((s[p] as u16) << 8u16) | (s[p + 1] as u16)
}

/// The big-endian `u64` at `p`.
pub open spec fn be_u64_at(s: Seq<u8>, p: int) -> u64 {
    ((s[p] as u64) << 56u64) | ((s[p + 1] as u64) << 48u64) | ((s[p + 2] as u64) << 40u64) | ((s[p + 3] as u64)
        << 32u64) | ((s[p + 4] as u64) << 24u64) | ((s[p + 5] as u64) << 16u64) | ((s[p + 6] as u64) << 8u64)
        | (s[p + 7] as u64)
}

/// The bytes of a string or byte field: its length as a `u32` (truncated),
/// then its contents.
pub open spec fn field_bytes(data: Seq<u8>) -> Seq<u8> {
    u32_be_bytes(data.len() as u32) + data
}

/// A request to forward `bytes` to `host:port` (over TLS when `use_https`).
pub open spec fn forward_request_bytes(host: Seq<u8>, port: u16, use_https: bool, bytes: Seq<u8>) -> Seq<u8> {
    seq![1u8] + field_bytes(host) + u16_be_bytes(port) + seq![if use_https { 1u8 } else { 0u8 }] + field_bytes(bytes)
        + seq![0u8]
}

/// The request that asks the bootstrap proxy for the next intercepted message.
pub open spec fn intercept_request_bytes() -> Seq<u8> {
    seq![2u8]
}

/// The acknowledgement sent once an intercepted message has arrived.
pub open spec fn intercept_ack_bytes() -> Seq<u8> {
    u32_be_bytes(0)
}

/// Where the length-prefixed field at `p` ends, if it is complete.
pub open spec fn field_end(s: Seq<u8>, p: int) -> Option<int> {
    if 0 <= p && p + 4 <= s.len() && p + 4 + be_u32_at(s, p) <= s.len() {
        Some(p + 4 + be_u32_at(s, p))
    } else {
        None
    }
}

/// `s` starts with a complete response frame.
pub open spec fn has_response_frame(s: Seq<u8>) -> bool {
    field_end(s, 0) is Some
}

/// Where an intercepted message at the start of `s` ends, if it is complete:
/// a timestamp (12 bytes), the host, the port (2 bytes), the scheme, the
/// request and the response.
pub open spec fn intercepted_frame_end(s: Seq<u8>) -> Option<int> {
    if s.len() < 12 {
        None
    } else {
        match field_end(s, 12) {
            None => None,
            Some(a) => if a + 2 > s.len() {
                None
            } else {
                match field_end(s, a + 2) {
                    None => None,
                    Some(b) => match field_end(s, b) {
                        None => None,
                        Some(c) => field_end(s, c),
                    },
                }
            },
        }
    }
}

fn push_u32_be(out: &mut Vec<u8>, v: u32)
    ensures
        final(out)@ == old(out)@ + u32_be_bytes(v),
{
    out.push((v >> 24u32) as u8);
    out.push((v >> 16u32) as u8);
    out.push((v >> 8u32) as u8);
    out.push(v as u8);
    proof {
        assert(final(out)@ =~= old(out)@ + u32_be_bytes(v));
    }
}

fn push_all(out: &mut Vec<u8>, data: &[u8])
    ensures
        final(out)@ == old(out)@ + data@,
{
    let mut i: usize = 0;
    let ghost start = out@;
    while i < data.len()
        invariant
            i <= data@.len(),
            out@ == start + data@.take(i as int),
        decreases data@.len() - i,
    {
        out.push(data[i]);
        proof {
            assert(data@.take(i + 1) =~= data@.take(i as int).push(data@[i as int]));
        }
        i += 1;
    }
    proof {
        assert(data@.take(data@.len() as int) =~= data@);
    }
}

/// The bytes that ask the bootstrap proxy to forward `bytes` to `host:port`.
pub fn forward_request(host: &str, port: u16, use_https: bool, bytes: &[u8]) -> (out: Vec<u8>)
    ensures
        out@ == forward_request_bytes(host.spec_bytes(), port, use_https, bytes@),
        out@[0] == 1u8,
        out@[out@.len() - 1] == 0u8,
{
    let mut out: Vec<u8> = Vec::new();
    out.push(1u8);
    let host_bytes = host.as_bytes();
    push_u32_be(&mut out, host_bytes.len() as u32);
    push_all(&mut out, host_bytes);
    out.push((port >> 8u16) as u8);
    out.push(port as u8);
    out.push(if use_https { 1u8 } else { 0u8 });
    push_u32_be(&mut out, bytes.len() as u32);
    push_all(&mut out, bytes);
    out.push(0u8);
    proof {
        assert(out@ =~= forward_request_bytes(host.spec_bytes(), port, use_https, bytes@));
    }
    out
}

/// The bytes that ask for the next intercepted message.
pub fn intercept_request() -> (out: Vec<u8>)
    ensures
        out@ == intercept_request_bytes(),
{
    let mut out: Vec<u8> = Vec::new();
    out.push(2u8);
    proof {
        assert(out@ =~= intercept_request_bytes());
    }
    out
}

/// The bytes that acknowledge an intercepted message.
pub fn intercept_ack() -> (out: Vec<u8>)
    ensures
        out@ == intercept_ack_bytes(),
{
    let mut out: Vec<u8> = Vec::new();
    push_u32_be(&mut out, 0);
    proof {
        assert(out@ =~= intercept_ack_bytes());
    }
    out
}

fn read_u32_be(s: &[u8], p: usize) -> (v: u32)
    requires
        p + 4 <= s@.len(),
    ensures
        v == be_u32_at(s@, p as int),
{
    ((s[p] as u32) << 24u32) | ((s[p + 1] as u32) << 16u32) | ((s[p + 2] as u32) << 8u32) | (s[p + 3] as u32)
}

fn read_u16_be(s: &[u8], p: usize) -> (v: u16)
    requires
        p + 2 <= s@.len(),
    ensures
        v == be_u16_at(s@, p as int),
{
    ((s[p] as u16) << 8u16) | (s[p + 1] as u16)
}

fn read_u64_be(s: &[u8], p: usize) -> (v: u64)
    requires
        p + 8 <= s@.len(),
    ensures
        v == be_u64_at(s@, p as int),
{
    ((s[p] as u64) << 56u64) | ((s[p + 1] as u64) << 48u64) | ((s[p + 2] as u64) << 40u64) | ((s[p + 3] as u64)
        << 32u64) | ((s[p + 4] as u64) << 24u64) | ((s[p + 5] as u64) << 16u64) | ((s[p + 6] as u64) << 8u64)
        | (s[p + 7] as u64)
}

/// Whether the length-prefixed field at `p` is complete; it ends at
/// `p + 4 + length`.
fn check_field(s: &[u8], p: usize) -> (ok: bool)
    requires
        p <= s@.len(),
    ensures
        ok == field_end(s@, p as int) is Some,
{
    if s.len() - p < 4 {
        return false;
    }
    let n = read_u32_be(s, p);
    s.len() - p - 4 >= n as usize
}

fn copy_range(s: &[u8], lo: usize, hi: usize) -> (out: Vec<u8>)
    requires
        lo <= hi <= s@.len(),
    ensures
        out@ == s@.subrange(lo as int, hi as int),
{
    let mut out: Vec<u8> = Vec::new();
    let mut i = lo;
    while i < hi
        invariant
            lo <= i <= hi <= s@.len(),
            out@ == s@.subrange(lo as int, i as int),
        decreases hi - i,
    {
        out.push(s[i]);
        proof {
            assert(s@.subrange(lo as int, i + 1) =~= s@.subrange(lo as int, i as int).push(s@[i as int]));
        }
        i += 1;
    }
    out
}

/// Drops the first `n` bytes of `buf`.
fn consume(buf: &mut Vec<u8>, n: usize)
    requires
        n <= old(buf)@.len(),
    ensures
        final(buf)@ == old(buf)@.skip(n as int),
{
    let rest = copy_range(buf.as_slice(), n, buf.len());
    *buf = rest;
}

/// Calls `String::from_utf8`, which succeeds exactly on valid UTF-8 and then
/// holds the decoded characters.
#[verifier::external_body]
fn string_from_utf8(bytes: Vec<u8>) -> (r: Option<String>)
    ensures
        r is Some <==> vstd::utf8::valid_utf8(bytes@),
        r matches Some(s) ==> s@ == vstd::utf8::decode_utf8(bytes@),
{
    String::from_utf8(bytes).ok()
}

/// Receives the length-prefixed responses to forward requests.
pub struct Forwarder {
    recv_buf: Vec<u8>,
}

impl Forwarder {
    /// Bytes received and not yet consumed.
    pub closed spec fn buffered(&self) -> Seq<u8> {
        self.recv_buf@
    }

    pub fn new() -> (f: Forwarder)
        ensures
            f.buffered() == Seq::<u8>::empty(),
    {
        Forwarder { recv_buf: Vec::new() }
    }

    /// Appends bytes read from the connection.
    pub fn receive(&mut self, data: &[u8])
        ensures
            final(self).buffered() == old(self).buffered() + data@,
    {
        push_all(&mut self.recv_buf, data);
    }

    /// A complete response frame has arrived.
    pub fn has_frame(&self) -> (b: bool)
        ensures
            b == has_response_frame(self.buffered()),
    {
        check_field(self.recv_buf.as_slice(), 0)
    }

    /// Takes the next response, if its frame is complete: `Some(None)` when the
    /// bootstrap proxy got no response (length 0), `Some(Some(bytes))` otherwise.
    pub fn take_response(&mut self) -> (r: Option<Option<Vec<u8>>>)
        ensures
            match r {
                None => !has_response_frame(old(self).buffered()) && final(self).buffered() == old(
                    self,
                ).buffered(),
                Some(resp) => {
                    let s = old(self).buffered();
                    let n = be_u32_at(s, 0);
                    &&& has_response_frame(s)
                    &&& final(self).buffered() == s.skip(4 + n)
                    &&& match resp {
                        None => n == 0,
                        Some(v) => n > 0 && v@ == s.subrange(4, 4 + n),
                    }
                },
            },
    {
        if !self.has_frame() {
            return None;
        }
        let total = self.recv_buf.len();
        let n32 = read_u32_be(self.recv_buf.as_slice(), 0);
        let n = n32 as usize;
        proof {
            assert(field_end(self.recv_buf@, 0) is Some);
            assert(4 + n32 <= self.recv_buf@.len());
            assert(n as int == n32 as int);
        }
        if n == 0 {
            consume(&mut self.recv_buf, 4);
            return Some(None);
        }
        let v = copy_range(self.recv_buf.as_slice(), 4, 4 + n);
        consume(&mut self.recv_buf, 4 + n);
        Some(Some(v))
    }
}

/// A message the bootstrap proxy intercepted.
#[derive(Debug)]
pub struct InterceptedMessage {
    pub received_at: Timestamp,
    pub host: String,
    pub port: u16,
    pub is_https: bool,
    pub request: Vec<u8>,
    pub response: Vec<u8>,
}

/// What reading the complete intercepted message at the start of `s` gives,
/// with the number of bytes it consumes: the host must be UTF-8 and the scheme
/// `https` or `http`, else the protocol is violated (after consuming the
/// offending field).
pub open spec fn intercepted_fields(s: Seq<u8>) -> (Result<(i64, u32, Seq<char>, u16, bool, Seq<u8>, Seq<u8>), Error>, int) {
    let a = field_end(s, 12)->Some_0;
    let b = field_end(s, a + 2)->Some_0;
    let c = field_end(s, b)->Some_0;
    let d = field_end(s, c)->Some_0;
    let host = s.subrange(16, a);
    let scheme = s.subrange(a + 6, b);
    if !vstd::utf8::valid_utf8(host) {
        (Err(Error::ProtocolViolation), a)
    } else if scheme != seq![104u8, 116u8, 116u8, 112u8, 115u8] && scheme != seq![104u8, 116u8, 116u8, 112u8] {
        (Err(Error::ProtocolViolation), b)
    } else {
        (
            Ok(
                (
                    be_u64_at(s, 0) as i64,
                    be_u32_at(s, 8),
                    vstd::utf8::decode_utf8(host),
                    be_u16_at(s, a),
                    scheme == seq![104u8, 116u8, 116u8, 112u8, 115u8],
                    s.subrange(b + 4, c),
                    s.subrange(c + 4, d),
                ),
            ),
            d,
        )
    }
}

fn bytes_equal(s: &[u8], lo: usize, hi: usize, lit: &[u8]) -> (b: bool)
    requires
        lo <= hi <= s@.len(),
    ensures
        b == (s@.subrange(lo as int, hi as int) == lit@),
{
    if hi - lo != lit.len() {
        proof {
            assert(s@.subrange(lo as int, hi as int).len() != lit@.len());
        }
        return false;
    }
    let mut i: usize = 0;
    while i < lit.len()
        invariant
            lo <= hi <= s@.len(),
            hi - lo == lit@.len(),
            i <= lit@.len(),
            forall|j: int| 0 <= j < i ==> s@[lo + j] == lit@[j],
        decreases lit@.len() - i,
    {
        if s[lo + i] != lit[i] {
            proof {
                assert(s@.subrange(lo as int, hi as int)[i as int] != lit@[i as int]);
            }
            return false;
        }
        i += 1;
    }
    proof {
        assert(s@.subrange(lo as int, hi as int) =~= lit@);
    }
    true
}

impl InterceptedMessage {
    /// A complete intercepted message is at the start of `buf`.
    pub fn check(buf: &[u8]) -> (b: bool)
        ensures
            b == intercepted_frame_end(buf@) is Some,
    {
        if buf.len() < 12 {
            return false;
        }
        if !check_field(buf, 12) {
            return false;
        }
        let a = 16 + read_u32_be(buf, 12) as usize;
        if buf.len() - a < 2 {
            return false;
        }
        if !check_field(buf, a + 2) {
            return false;
        }
        let b = a + 6 + read_u32_be(buf, a + 2) as usize;
        if !check_field(buf, b) {
            return false;
        }
        let c = b + 4 + read_u32_be(buf, b) as usize;
        check_field(buf, c)
    }

    /// Reads the intercepted message at the start of `buf`, consuming it; on a
    /// protocol violation, consumes up to and including the offending field.
    pub fn parse(buf: &mut Vec<u8>) -> (r: Result<InterceptedMessage, Error>)
        requires
            intercepted_frame_end(old(buf)@) is Some,
        ensures
            ({
                let (res, used) = intercepted_fields(old(buf)@);
                &&& final(buf)@ == old(buf)@.skip(used)
                &&& match (r, res) {
                    (Ok(m), Ok(f)) => m.received_at == Timestamp { secs: f.0, nsecs: f.1 } && m.host@ == f.2
                        && m.port == f.3 && m.is_https == f.4 && m.request@ == f.5 && m.response@ == f.6,
                    (Err(e), Err(g)) => e == g,
                    _ => false,
                }
            }),
    {
        let s = buf.as_slice();
        let total = s.len();
        let ghost sv = s@;
        let ghost fa = field_end(sv, 12)->Some_0;
        let ghost fb = field_end(sv, fa + 2)->Some_0;
        let ghost fc = field_end(sv, fb)->Some_0;
        let ghost fd = field_end(sv, fc)->Some_0;
        proof {
            assert(field_end(sv, 12) is Some);
            assert(fa + 2 <= sv.len());
            assert(field_end(sv, fa + 2) is Some);
            assert(field_end(sv, fb) is Some);
            assert(field_end(sv, fc) is Some);
            assert(fd <= sv.len());
        }
        let secs = #[verifier::truncate] (read_u64_be(s, 0) as i64);
        let nsecs = read_u32_be(s, 8);
        let la = read_u32_be(s, 12);
        assert(la as usize as int == la as int);
        let a = 16 + la as usize;
        assert(a == fa);
        let host_bytes = copy_range(s, 16, a);
        let port = read_u16_be(s, a);
        let b = a + 6 + read_u32_be(s, a + 2) as usize;
        assert(b == fb);
        let c = b + 4 + read_u32_be(s, b) as usize;
        assert(c == fc);
        let d = c + 4 + read_u32_be(s, c) as usize;
        assert(d == fd);
        let host = match string_from_utf8(host_bytes) {
            Some(h) => h,
            None => {
                consume(buf, a);
                return Err(Error::ProtocolViolation);
            },
        };
        let https: [u8; 5] = [104u8, 116u8, 116u8, 112u8, 115u8];
        let http: [u8; 4] = [104u8, 116u8, 116u8, 112u8];
        proof {
            assert(https@ =~= seq![104u8, 116u8, 116u8, 112u8, 115u8]);
            assert(http@ =~= seq![104u8, 116u8, 116u8, 112u8]);
        }
        let is_https = if bytes_equal(s, a + 6, b, https.as_slice()) {
            true
        } else if bytes_equal(s, a + 6, b, http.as_slice()) {
            false
        } else {
            consume(buf, b);
            return Err(Error::ProtocolViolation);
        };
        let request = copy_range(s, b + 4, c);
        let response = copy_range(s, c + 4, d);
        consume(buf, d);
        Ok(InterceptedMessage {
            received_at: Timestamp { secs, nsecs },
            host,
            port,
            is_https,
            request,
            response,
        })
    }
}

} // verus!

verus! {

/// Big-endian bytes of a `u64`.
pub open spec fn u64_be_bytes(v: u64) -> Seq<u8> {
    seq![
        (v >> 56u64) as u8,
        (v >> 48u64) as u8,
        (v >> 40u64) as u8,
        (v >> 32u64) as u8,
        (v >> 24u64) as u8,
        (v >> 16u64) as u8,
        (v >> 8u64) as u8,
        v as u8,
    ]
}

/// An intercepted message as the bootstrap proxy sends it.
pub open spec fn intercepted_bytes(
    secs: i64,
    nsecs: u32,
    host: Seq<u8>,
    port: u16,
    scheme: Seq<u8>,
    request: Seq<u8>,
    response: Seq<u8>,
) -> Seq<u8> {
    u64_be_bytes(secs as u64) + u32_be_bytes(nsecs) + field_bytes(host) + u16_be_bytes(port) + field_bytes(scheme)
        + field_bytes(request) + field_bytes(response)
}

proof fn lemma_u32_round_trip(v: u32, s: Seq<u8>, p: int)
    requires
        0 <= p,
        p + 4 <= s.len(),
        s.subrange(p, p + 4) == u32_be_bytes(v),
    ensures
        be_u32_at(s, p) == v,
{
    assert(s[p] == u32_be_bytes(v)[0]);
    assert(s[p + 1] == u32_be_bytes(v)[1]);
    assert(s[p + 2] == u32_be_bytes(v)[2]);
    assert(s[p + 3] == u32_be_bytes(v)[3]);
    assert(((((v >> 24u32) as u8) as u32) << 24u32) | ((((v >> 16u32) as u8) as u32) << 16u32) | ((((v
        >> 8u32) as u8) as u32) << 8u32) | ((v as u8) as u32) == v) by (bit_vector);
}

proof fn lemma_u16_round_trip(v: u16, s: Seq<u8>, p: int)
    requires
        0 <= p,
        p + 2 <= s.len(),
        s.subrange(p, p + 2) == u16_be_bytes(v),
    ensures
        be_u16_at(s, p) == v,
{
    assert(s[p] == u16_be_bytes(v)[0]);
    assert(s[p + 1] == u16_be_bytes(v)[1]);
    assert(((((v >> 8u16) as u8) as u16) << 8u16) | ((v as u8) as u16) == v) by (bit_vector);
}

proof fn lemma_u64_round_trip(v: u64, s: Seq<u8>, p: int)
    requires
        0 <= p,
        p + 8 <= s.len(),
        s.subrange(p, p + 8) == u64_be_bytes(v),
    ensures
        be_u64_at(s, p) == v,
{
    let b = u64_be_bytes(v);
    assert(s[p] == b[0] && s[p + 1] == b[1] && s[p + 2] == b[2] && s[p + 3] == b[3]);
    assert(s[p + 4] == b[4] && s[p + 5] == b[5] && s[p + 6] == b[6] && s[p + 7] == b[7]);
    assert(((((v >> 56u64) as u8) as u64) << 56u64) | ((((v >> 48u64) as u8) as u64) << 48u64) | ((((v
        >> 40u64) as u8) as u64) << 40u64) | ((((v >> 32u64) as u8) as u64) << 32u64) | ((((v >> 24u64) as u8)
        as u64) << 24u64) | ((((v >> 16u64) as u8) as u64) << 16u64) | ((((v >> 8u64) as u8) as u64) << 8u64)
        | ((v as u8) as u64) == v) by (bit_vector);
}

/// A field written for `data` (shorter than 4 GiB), followed by anything, is
/// read back as `data`, ending right after it.
proof fn lemma_field_round_trip(s: Seq<u8>, p: int, data: Seq<u8>)
    requires
        0 <= p,
        data.len() <= u32::MAX,
        p + 4 + data.len() <= s.len(),
        s.subrange(p, p + 4 + data.len() as int) == field_bytes(data),
    ensures
        field_end(s, p) == Some(p + 4 + data.len() as int),
        s.subrange(p + 4, p + 4 + data.len() as int) == data,
{
    let f = field_bytes(data);
    assert(s.subrange(p, p + 4) =~= f.subrange(0, 4));
    assert(f.subrange(0, 4) =~= u32_be_bytes(data.len() as u32));
    lemma_u32_round_trip(data.len() as u32, s, p);
    assert(s.subrange(p + 4, p + 4 + data.len() as int) =~= f.subrange(4, 4 + data.len() as int));
    assert(f.subrange(4, 4 + data.len() as int) =~= data);
}

/// A response frame for `payload`, followed by anything, is taken back as
/// `payload`, leaving what follows.
pub proof fn lemma_response_frame_round_trip(payload: Seq<u8>, rest: Seq<u8>)
    requires
        payload.len() <= u32::MAX,
    ensures
        ({
            let s = field_bytes(payload) + rest;
            &&& has_response_frame(s)
            &&& be_u32_at(s, 0) == payload.len()
            &&& s.subrange(4, 4 + payload.len() as int) == payload
            &&& s.skip(4 + payload.len() as int) == rest
        }),
{
    let s = field_bytes(payload) + rest;
    assert(s.subrange(0, 4 + payload.len() as int) =~= field_bytes(payload));
    lemma_field_round_trip(s, 0, payload);
    assert(s.skip(4 + payload.len() as int) =~= rest);
}

/// An intercepted message, followed by anything, is recognised as complete
/// and read back field by field, consuming exactly its bytes, provided its
/// fields are shorter than 4 GiB, its host is UTF-8 and its scheme is `https`
/// or `http`.
#[verifier::rlimit(80)]
#[verifier::spinoff_prover]
pub proof fn lemma_intercepted_round_trip(
    secs: i64,
    nsecs: u32,
    host: Seq<u8>,
    port: u16,
    scheme: Seq<u8>,
    request: Seq<u8>,
    response: Seq<u8>,
    rest: Seq<u8>,
)
    requires
        host.len() <= u32::MAX,
        scheme.len() <= u32::MAX,
        request.len() <= u32::MAX,
        response.len() <= u32::MAX,
        vstd::utf8::valid_utf8(host),
        scheme == seq![104u8, 116u8, 116u8, 112u8, 115u8] || scheme == seq![104u8, 116u8, 116u8, 112u8],
    ensures
        ({
            let m = intercepted_bytes(secs, nsecs, host, port, scheme, request, response);
            let s = m + rest;
            &&& intercepted_frame_end(s) == Some(m.len() as int)
            &&& intercepted_fields(s) == (
                Ok::<(i64, u32, Seq<char>, u16, bool, Seq<u8>, Seq<u8>), Error>(
                    (
                        secs,
                        nsecs,
                        vstd::utf8::decode_utf8(host),
                        port,
                        scheme == seq![104u8, 116u8, 116u8, 112u8, 115u8],
                        request,
                        response,
                    ),
                ),
                m.len() as int,
            )
        }),
{
    let m = intercepted_bytes(secs, nsecs, host, port, scheme, request, response);
    let s = m + rest;
    let a = 16 + host.len() as int;
    let b = a + 6 + scheme.len() as int;
    let c = b + 4 + request.len() as int;
    let d = c + 4 + response.len() as int;
    assert(m.len() == d);
    assert(s.subrange(0, 8) =~= u64_be_bytes(secs as u64));
    lemma_u64_round_trip(secs as u64, s, 0);
    assert((secs as u64) as i64 == secs) by (bit_vector);
    assert(s.subrange(8, 12) =~= u32_be_bytes(nsecs));
    lemma_u32_round_trip(nsecs, s, 8);
    assert(s.subrange(12, a) =~= field_bytes(host));
    lemma_field_round_trip(s, 12, host);
    assert(s.subrange(a, a + 2) =~= u16_be_bytes(port));
    lemma_u16_round_trip(port, s, a);
    assert(s.subrange(a + 2, b) =~= field_bytes(scheme));
    lemma_field_round_trip(s, a + 2, scheme);
    assert(s.subrange(b, c) =~= field_bytes(request));
    lemma_field_round_trip(s, b, request);
    assert(s.subrange(c, d) =~= field_bytes(response));
    lemma_field_round_trip(s, c, response);
}

/// Appending bytes leaves a complete length-prefixed field complete, ending
/// where it ended.
proof fn lemma_field_end_append(s: Seq<u8>, t: Seq<u8>, p: int)
    requires
        field_end(s, p) is Some,
    ensures
        field_end(s + t, p) == field_end(s, p),
{
    let u = s + t;
    assert(u[p] == s[p] && u[p + 1] == s[p + 1] && u[p + 2] == s[p + 2] && u[p + 3] == s[p + 3]);
    assert(be_u32_at(u, p) == be_u32_at(s, p));
}

/// Receiving more bytes never makes a complete response frame incomplete,
/// nor changes its length.
pub proof fn lemma_response_frame_stays_complete(s: Seq<u8>, t: Seq<u8>)
    requires
        has_response_frame(s),
    ensures
        has_response_frame(s + t),
        be_u32_at(s + t, 0) == be_u32_at(s, 0),
{
    lemma_field_end_append(s, t, 0);
    let u = s + t;
    assert(u[0] == s[0] && u[1] == s[1] && u[2] == s[2] && u[3] == s[3]);
}

/// Receiving more bytes never makes a complete intercepted message
/// incomplete: it stays complete and ends at the same place.
pub proof fn lemma_intercepted_frame_stays_complete(s: Seq<u8>, t: Seq<u8>)
    requires
        intercepted_frame_end(s) is Some,
    ensures
        intercepted_frame_end(s + t) == intercepted_frame_end(s),
{
    let a = field_end(s, 12)->Some_0;
    lemma_field_end_append(s, t, 12);
    let b = field_end(s, a + 2)->Some_0;
    lemma_field_end_append(s, t, a + 2);
    let c = field_end(s, b)->Some_0;
    lemma_field_end_append(s, t, b);
    lemma_field_end_append(s, t, c);
}

/// A forward request, read with the bootstrap proxy's field layout, gives
/// back what it was built from: the command byte 1, the host, the port, the
/// TLS flag, the message, and a closing flag that is always 0 (false),
/// whatever the TLS flag is.
pub proof fn lemma_forward_request_decodes(host: Seq<u8>, port: u16, use_https: bool, bytes: Seq<u8>)
    requires
        host.len() <= u32::MAX,
        bytes.len() <= u32::MAX,
    ensures
        ({
            let s = forward_request_bytes(host, port, use_https, bytes);
            let a: int = 5 + host.len() as int;
            let b: int = a + 7 + bytes.len() as int;
            &&& s.len() == b + 1
            &&& s[0] == 1u8
            &&& field_end(s, 1) == Some(a)
            &&& s.subrange(5, a) == host
            &&& be_u16_at(s, a) == port
            &&& (s[a + 2] == 1u8) == use_https
            &&& s[a + 2] == 0u8 || s[a + 2] == 1u8
            &&& field_end(s, a + 3) == Some(b)
            &&& s.subrange(a + 7, b) == bytes
            &&& s[b] == 0u8
        }),
{
    let s = forward_request_bytes(host, port, use_https, bytes);
    let a: int = 5 + host.len() as int;
    let b: int = a + 7 + bytes.len() as int;
    assert(s.len() == b + 1);
    assert(s.subrange(1, a) =~= field_bytes(host));
    lemma_field_round_trip(s, 1, host);
    assert(s.subrange(a, a + 2) =~= u16_be_bytes(port));
    lemma_u16_round_trip(port, s, a);
    assert(s[a + 2] == (if use_https { 1u8 } else { 0u8 }));
    assert(s.subrange(a + 3, b) =~= field_bytes(bytes));
    lemma_field_round_trip(s, a + 3, bytes);
    assert(s[b] == 0u8);
}

} // verus!
