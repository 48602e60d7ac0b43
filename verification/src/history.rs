//! Proxy history: HTTP messages, how a message is cut into pieces for
//! deduplicated storage, how it is put back together, and the storage
//! statistics kept along the way.

use vstd::prelude::*;
use crate::content::{ZSTD_COMPRESSION_LEVEL, zstd_compressed, zstd_decoded, load_content, is_zstd_frame};
use crate::scenario::Timestamp;

verus! {

/// Why no response was received.
#[derive(Clone, Copy, Debug, PartialEq, Eq, Structural)]
pub enum HttpError {
    Dns,
    CouldNotConnect,
    ConnectionClosed,
    ResponseTimeout,
    ResponseTooLarge,
}

/// The number an HTTP error is stored under.
pub open spec fn http_error_code(e: HttpError) -> u8 {
    match e {
        HttpError::Dns => 1,
        HttpError::CouldNotConnect => 2,
        HttpError::ConnectionClosed => 3,
        HttpError::ResponseTimeout => 4,
        HttpError::ResponseTooLarge => 5,
    }
}

impl HttpError {
    /// The number this error is stored under.
    pub fn to_u8(self) -> (code: u8)
        ensures
            code == http_error_code(self),
    {
        match self {
            HttpError::Dns => 1,
            HttpError::CouldNotConnect => 2,
            HttpError::ConnectionClosed => 3,
            HttpError::ResponseTimeout => 4,
            HttpError::ResponseTooLarge => 5,
        }
    }

    /// The error stored under `code`, if any.
    pub fn try_from_u8(code: u8) -> (e: Option<HttpError>)
        ensures
            e matches Some(k) ==> http_error_code(k) == code,
            e is None <==> !(1 <= code <= 5),
    {
        match code {
            1 => Some(HttpError::Dns),
            2 => Some(HttpError::CouldNotConnect),
            3 => Some(HttpError::ConnectionClosed),
            4 => Some(HttpError::ResponseTimeout),
            5 => Some(HttpError::ResponseTooLarge),
            _ => None,
        }
    }
}

/// Decoding the stored number of an error gives the error back.
pub proof fn lemma_http_error_code_round_trip(e: HttpError)
    ensures
        1 <= http_error_code(e) <= 5,
        forall|f: HttpError| http_error_code(f) == http_error_code(e) ==> f == e,
{
}

/// One request that went through the proxy and what came back.
#[derive(Debug)]
pub struct HttpMessage {
    pub request_time: Timestamp,
    pub response_time: Timestamp,
    pub host: String,
    pub port: u16,
    pub is_https: bool,
    pub request: Vec<u8>,
    pub response: Result<Vec<u8>, HttpError>,
}

/// Number of line feeds in `s`.
pub open spec fn newlines(s: Seq<u8>) -> nat
    decreases s.len(),
{
    if s.len() == 0 {
        0
    } else {
        newlines(s.drop_last()) + if s.last() == 10u8 {
            1nat
        } else {
            0nat
        }
    }
}

/// `i` is just past the second line feed of `r`: the request line and the
/// line after it end there.
pub open spec fn is_location_end(r: Seq<u8>, i: int) -> bool {
    1 <= i <= r.len() && r[i - 1] == 10u8 && newlines(r.take(i)) == 2
}

/// Where the request line and the line after it end, if `r` has two line feeds.
pub open spec fn location_end(r: Seq<u8>) -> Option<int> {
    if exists|i: int| is_location_end(r, i) {
        Some(choose|i: int| is_location_end(r, i))
    } else {
        None
    }
}

/// `s` holds CR LF CR LF at `p`.
pub open spec fn is_blank_line_at(s: Seq<u8>, p: int) -> bool {
    0 <= p && p + 4 <= s.len() && s[p] == 13u8 && s[p + 1] == 10u8 && s[p + 2] == 13u8 && s[p + 3] == 10u8
}

/// `p` is the first place where `s` holds CR LF CR LF.
pub open spec fn is_first_blank_line(s: Seq<u8>, p: int) -> bool {
    is_blank_line_at(s, p) && forall|q: int| 0 <= q < p ==> !is_blank_line_at(s, q)
}

/// Where the header of `s` ends: just past its first CR LF CR LF, if any.
pub open spec fn header_end(s: Seq<u8>) -> Option<int> {
    if exists|p: int| is_first_blank_line(s, p) {
        Some((choose|p: int| is_first_blank_line(s, p)) + 4)
    } else {
        None
    }
}

/// A header and the body that follows it (`None` when nothing follows).
pub open spec fn remainder_segments(s: Seq<u8>) -> (Seq<u8>, Option<Seq<u8>>) {
    match header_end(s) {
        Some(e) => (s.take(e), if e < s.len() {
            Some(s.skip(e))
        } else {
            None
        }),
        None => (s, None),
    }
}

/// The pieces a request is stored as: the request line with the line after it
/// (usually the Host header), the rest of the header, and the body if any. The
/// first piece varies with every request while the other two repeat often.
pub open spec fn request_segments(r: Seq<u8>) -> (Seq<u8>, Seq<u8>, Option<Seq<u8>>) {
    match location_end(r) {
        Some(i) => if i < r.len() {
            (r.take(i), remainder_segments(r.skip(i)).0, remainder_segments(r.skip(i)).1)
        } else {
            (r.take(i), Seq::empty(), None)
        },
        None => (Seq::empty(), r, None),
    }
}

/// The pieces a response is stored as: its header and its body.
pub open spec fn response_segments(r: Seq<u8>) -> (Seq<u8>, Seq<u8>) {
    match header_end(r) {
        Some(e) => (r.take(e), r.skip(e)),
        None => (r, Seq::empty()),
    }
}

pub open spec fn opt_bytes(o: Option<Vec<u8>>) -> Option<Seq<u8>> {
    match o {
        Some(v) => Some(v@),
        None => None,
    }
}

pub open spec fn or_empty(o: Option<Seq<u8>>) -> Seq<u8> {
    match o {
        Some(v) => v,
        None => Seq::empty(),
    }
}

proof fn lemma_newlines_add(a: Seq<u8>, b: Seq<u8>)
    ensures
        newlines(a + b) == newlines(a) + newlines(b),
    decreases b.len(),
{
    if b.len() > 0 {
        assert((a + b).drop_last() =~= a + b.drop_last());
        lemma_newlines_add(a, b.drop_last());
    } else {
        assert(a + b =~= a);
    }
}

proof fn lemma_newlines_take_step(r: Seq<u8>, i: int)
    requires
        0 <= i < r.len(),
    ensures
        newlines(r.take(i + 1)) == newlines(r.take(i)) + if r[i] == 10u8 {
            1nat
        } else {
            0nat
        },
{
    assert(r.take(i + 1).drop_last() =~= r.take(i));
}

proof fn lemma_newlines_take_mono(r: Seq<u8>, i: int, j: int)
    requires
        0 <= i <= j <= r.len(),
    ensures
        newlines(r.take(i)) <= newlines(r.take(j)),
        r[j - 1] == 10u8 && i < j ==> newlines(r.take(i)) + 1 <= newlines(r.take(j)),
{
    assert(r.take(j) =~= r.take(i) + r.subrange(i, j));
    lemma_newlines_add(r.take(i), r.subrange(i, j));
    if i < j && r[j - 1] == 10u8 {
        let mid = r.subrange(i, j);
        assert(mid.last() == 10u8);
    }
}

fn copy_range(s: &[u8], lo: usize, hi: usize) -> (out: Vec<u8>)
    requires
        lo <= hi <= s@.len(),
    ensures
        out@ == s@.subrange(lo as int, hi as int),
{
    let mut out: Vec<u8> = Vec::new();
    let mut i = lo;
    while i < hi
        invariant
            lo <= i <= hi <= s@.len(),
            out@ == s@.subrange(lo as int, i as int),
        decreases hi - i,
    {
        out.push(s[i]);
        proof {
            assert(s@.subrange(lo as int, i + 1) =~= s@.subrange(lo as int, i as int).push(s@[i as int]));
        }
        i += 1;
    }
    out
}

/// Where the request line and the line after it end.
fn find_location_end(r: &[u8]) -> (e: Option<usize>)
    ensures
        match e {
            Some(i) => location_end(r@) == Some(i as int),
            None => location_end(r@) is None,
        },
{
    let n = r.len();
    let mut found_first = false;
    let mut i: usize = 0;
    proof {
        assert(r@.take(0) =~= Seq::<u8>::empty());
    }
    while i < n
        invariant
            n == r@.len(),
            i <= n,
            newlines(r@.take(i as int)) == if found_first {
                1nat
            } else {
                0nat
            },
        decreases n - i,
    {
        proof {
            lemma_newlines_take_step(r@, i as int);
        }
        if r[i] == 10u8 {
            if found_first {
                proof {
                    assert(is_location_end(r@, i + 1));
                    assert forall|j: int| is_location_end(r@, j) implies j == i + 1 by {
                        if j < i + 1 {
                            lemma_newlines_take_mono(r@, j, i + 1);
                        }
                        if j > i + 1 {
                            lemma_newlines_take_mono(r@, i + 1, j);
                        }
                    }
                }
                return Some(i + 1);
            } else {
                found_first = true;
            }
        }
        i += 1;
    }
    proof {
        assert forall|j: int| !is_location_end(r@, j) by {
            if 1 <= j <= n {
                lemma_newlines_take_mono(r@, j, n as int);
            }
        }
    }
    None
}

/// Where the header of `s` ends: just past its first CR LF CR LF.
fn find_header_end(s: &[u8]) -> (e: Option<usize>)
    ensures
        match e {
            Some(i) => header_end(s@) == Some(i as int),
            None => header_end(s@) is None,
        },
{
    let n = s.len();
    let mut p: usize = 0;
    while p <= n && n - p >= 4
        invariant
            n == s@.len(),
            p <= n,
            forall|q: int| 0 <= q < p ==> !is_blank_line_at(s@, q),
        decreases n - p,
    {
        if s[p] == 13u8 && s[p + 1] == 10u8 && s[p + 2] == 13u8 && s[p + 3] == 10u8 {
            proof {
                assert(is_first_blank_line(s@, p as int));
                assert forall|q: int| is_first_blank_line(s@, q) implies q == p by {
                    if q < p {
                    }
                    if q > p {
                        assert(!is_blank_line_at(s@, p as int));
                    }
                }
            }
            return Some(p + 4);
        }
        p += 1;
    }
    proof {
        assert forall|q: int| !is_first_blank_line(s@, q) by {
            if is_first_blank_line(s@, q) {
                assert(q < p);
            }
        }
    }
    None
}

/// The stored pieces of a request.
pub struct RequestSegments {
    pub location: Vec<u8>,
    pub header: Vec<u8>,
    pub body: Option<Vec<u8>>,
}

/// Cuts what follows the location lines into a header and an optional body.
pub fn split_http_request_remainder(http_request: &[u8]) -> (r: (Vec<u8>, Option<Vec<u8>>))
    ensures
        (r.0@, opt_bytes(r.1)) == remainder_segments(http_request@),
{
    match find_header_end(http_request) {
        Some(index) => {
            let header = copy_range(http_request, 0, index);
            let body = if index < http_request.len() {
                Some(copy_range(http_request, index, http_request.len()))
            } else {
                None
            };
            proof {
                assert(header@ =~= http_request@.take(index as int));
                if index < http_request@.len() {
                    assert(body.unwrap()@ =~= http_request@.skip(index as int));
                }
            }
            (header, body)
        },
        None => {
            let whole = copy_range(http_request, 0, http_request.len());
            proof {
                assert(whole@ =~= http_request@);
            }
            (whole, None)
        },
    }
}

/// Cuts a request into the pieces it is stored as.
pub fn split_http_request(http_request: &[u8]) -> (s: RequestSegments)
    ensures
        (s.location@, s.header@, opt_bytes(s.body)) == request_segments(http_request@),
{
    match find_location_end(http_request) {
        Some(index) => {
            let location = copy_range(http_request, 0, index);
            proof {
                assert(location@ =~= http_request@.take(index as int));
            }
            if index < http_request.len() {
                let rest = copy_range(http_request, index, http_request.len());
                proof {
                    assert(rest@ =~= http_request@.skip(index as int));
                }
                let (header, body) = split_http_request_remainder(rest.as_slice());
                RequestSegments { location, header, body }
            } else {
                RequestSegments { location, header: Vec::new(), body: None }
            }
        },
        None => {
            let whole = copy_range(http_request, 0, http_request.len());
            proof {
                assert(whole@ =~= http_request@);
            }
            RequestSegments { location: Vec::new(), header: whole, body: None }
        },
    }
}

/// Cuts a response into its header and body.
pub fn split_http_response(http_response: &[u8]) -> (r: (Vec<u8>, Vec<u8>))
    ensures
        (r.0@, r.1@) == response_segments(http_response@),
{
    match find_header_end(http_response) {
        Some(index) => {
            let header = copy_range(http_response, 0, index);
            let body = copy_range(http_response, index, http_response.len());
            proof {
                assert(header@ =~= http_response@.take(index as int));
                assert(body@ =~= http_response@.skip(index as int));
            }
            (header, body)
        },
        None => {
            let whole = copy_range(http_response, 0, http_response.len());
            proof {
                assert(whole@ =~= http_response@);
            }
            (whole, Vec::new())
        },
    }
}

/// The pieces of a request put back together give the request.
pub proof fn lemma_request_segments_rejoin(r: Seq<u8>)
    ensures
        request_segments(r).0 + request_segments(r).1 + or_empty(request_segments(r).2) == r,
{
    match location_end(r) {
        Some(i) => {
            let i = choose|i: int| is_location_end(r, i);
            if i < r.len() {
                let rest = r.skip(i);
                match header_end(rest) {
                    Some(e) => {
                        let p = choose|p: int| is_first_blank_line(rest, p);
                        if e < rest.len() {
                            assert(r.take(i) + rest.take(e) + rest.skip(e) =~= r);
                        } else {
                            assert(r.take(i) + rest.take(e) + Seq::<u8>::empty() =~= r);
                        }
                    },
                    None => {
                        assert(r.take(i) + rest + Seq::<u8>::empty() =~= r);
                    },
                }
            } else {
                assert(r.take(i) + Seq::<u8>::empty() + Seq::<u8>::empty() =~= r);
            }
        },
        None => {
            assert(Seq::<u8>::empty() + r + Seq::<u8>::empty() =~= r);
        },
    }
}

/// The header and body of a response put back together give the response.
pub proof fn lemma_response_segments_rejoin(r: Seq<u8>)
    ensures
        response_segments(r).0 + response_segments(r).1 == r,
{
    match header_end(r) {
        Some(e) => {
            let p = choose|p: int| is_first_blank_line(r, p);
            assert(r.take(e) + r.skip(e) =~= r);
        },
        None => {
            assert(r + Seq::<u8>::empty() =~= r);
        },
    }
}

} // verus!

verus! {

pub open spec fn opt_slice(o: Option<&[u8]>) -> Option<Seq<u8>> {
    match o {
        Some(s) => Some(s@),
        None => None,
    }
}

/// `l`, `h` and `b` are the stored (compressed) pieces of the request `req`.
pub open spec fn stored_as_request(req: Seq<u8>, l: Seq<u8>, h: Seq<u8>, b: Option<Seq<u8>>) -> bool {
    let s = request_segments(req);
    &&& l == zstd_compressed(s.0, ZSTD_COMPRESSION_LEVEL)
    &&& h == zstd_compressed(s.1, ZSTD_COMPRESSION_LEVEL)
    &&& match (s.2, b) {
        (Some(x), Some(y)) => y == zstd_compressed(x, ZSTD_COMPRESSION_LEVEL),
        (None, None) => true,
        _ => false,
    }
}

/// `h` and `b` are the stored (compressed) pieces of the response `resp`.
pub open spec fn stored_as_response(resp: Seq<u8>, h: Seq<u8>, b: Seq<u8>) -> bool {
    let s = response_segments(resp);
    &&& h == zstd_compressed(s.0, ZSTD_COMPRESSION_LEVEL)
    &&& b == zstd_compressed(s.1, ZSTD_COMPRESSION_LEVEL)
}

/// Puts a request back together from its stored pieces: the decoded location
/// lines, header and (if any) body, in that order. Loading the pieces stored
/// for a request gives that request back.
pub fn load_http_request(location: &[u8], header: &[u8], body: Option<&[u8]>) -> (r: Option<Vec<u8>>)
    ensures
        r matches Some(v) ==> v@ == zstd_decoded(location@) + zstd_decoded(header@) + match body {
            Some(b) => zstd_decoded(b@),
            None => Seq::<u8>::empty(),
        },
        is_zstd_frame(location@) && is_zstd_frame(header@) && (body matches Some(b) ==> is_zstd_frame(b@))
            ==> r is Some,
        forall|req: Seq<u8>|
            #[trigger] stored_as_request(req, location@, header@, opt_slice(body)) ==> (r matches Some(v)
                && v@ == req),
{
    let mut bytes: Vec<u8> = Vec::new();
    if !load_content(location, &mut bytes) {
        return None;
    }
    let ghost after_location = bytes@;
    if !load_content(header, &mut bytes) {
        return None;
    }
    let ghost after_header = bytes@;
    match body {
        Some(b) => {
            if !load_content(b, &mut bytes) {
                return None;
            }
        },
        None => {},
    }
    proof {
        assert(Seq::<u8>::empty() + zstd_decoded(location@) =~= zstd_decoded(location@));
        if body is None {
            assert(bytes@ =~= zstd_decoded(location@) + zstd_decoded(header@) + Seq::<u8>::empty());
        }
        assert forall|req: Seq<u8>| #[trigger] stored_as_request(req, location@, header@, opt_slice(body)) implies bytes@
            == req by {
            let s = request_segments(req);
            assert(zstd_compressed(s.0, ZSTD_COMPRESSION_LEVEL) == location@);
            assert(after_location == Seq::<u8>::empty() + s.0);
            assert(zstd_compressed(s.1, ZSTD_COMPRESSION_LEVEL) == header@);
            assert(after_header == after_location + s.1);
            match s.2 {
                Some(x) => {
                    assert(zstd_compressed(x, ZSTD_COMPRESSION_LEVEL) == body.unwrap()@);
                },
                None => {},
            }
            lemma_request_segments_rejoin(req);
            assert(bytes@ =~= s.0 + s.1 + or_empty(s.2));
        }
    }
    Some(bytes)
}

/// Puts a response back together from its stored header and body. Loading
/// the pieces stored for a response gives that response back.
pub fn load_http_response(header: &[u8], body: &[u8]) -> (r: Option<Vec<u8>>)
    ensures
        r matches Some(v) ==> v@ == zstd_decoded(header@) + zstd_decoded(body@),
        is_zstd_frame(header@) && is_zstd_frame(body@) ==> r is Some,
        forall|resp: Seq<u8>|
            #[trigger] stored_as_response(resp, header@, body@) ==> (r matches Some(v) && v@ == resp),
{
    let mut bytes: Vec<u8> = Vec::new();
    if !load_content(header, &mut bytes) {
        return None;
    }
    let ghost after_header = bytes@;
    if !load_content(body, &mut bytes) {
        return None;
    }
    proof {
        assert(Seq::<u8>::empty() + zstd_decoded(header@) =~= zstd_decoded(header@));
        assert forall|resp: Seq<u8>| #[trigger] stored_as_response(resp, header@, body@) implies bytes@ == resp by {
            let s = response_segments(resp);
            assert(zstd_compressed(s.0, ZSTD_COMPRESSION_LEVEL) == header@);
            assert(after_header == Seq::<u8>::empty() + s.0);
            assert(zstd_compressed(s.1, ZSTD_COMPRESSION_LEVEL) == body@);
            lemma_response_segments_rejoin(resp);
            assert(bytes@ =~= s.0 + s.1);
        }
    }
    Some(bytes)
}

/// Byte counts of what was offered for storage, what was actually written
/// (compressed), and what was found to be stored already.
#[derive(Clone, Copy, Debug, PartialEq, Eq, Structural)]
pub struct StorageStats {
    pub bytes_total: u64,
    pub bytes_stored: u64,
    pub bytes_deduplicated: u64,
}

impl StorageStats {
    /// All counts zero.
    pub fn new() -> (s: StorageStats)
        ensures
            s == (StorageStats { bytes_total: 0, bytes_stored: 0, bytes_deduplicated: 0 }),
    {
        StorageStats { bytes_total: 0, bytes_stored: 0, bytes_deduplicated: 0 }
    }

    /// A piece of `len` bytes was already stored.
    pub fn record_deduplicated(&mut self, len: u64)
        requires
            old(self).bytes_total + len <= u64::MAX,
            old(self).bytes_deduplicated + len <= u64::MAX,
        ensures
            final(self).bytes_total == old(self).bytes_total + len,
            final(self).bytes_deduplicated == old(self).bytes_deduplicated + len,
            final(self).bytes_stored == old(self).bytes_stored,
    {
        self.bytes_total = self.bytes_total + len;
        self.bytes_deduplicated = self.bytes_deduplicated + len;
    }

    /// A new piece of `len` bytes was stored as `compressed_len` bytes.
    pub fn record_stored(&mut self, len: u64, compressed_len: u64)
        requires
            old(self).bytes_total + len <= u64::MAX,
            old(self).bytes_stored + compressed_len <= u64::MAX,
        ensures
            final(self).bytes_total == old(self).bytes_total + len,
            final(self).bytes_stored == old(self).bytes_stored + compressed_len,
            final(self).bytes_deduplicated == old(self).bytes_deduplicated,
    {
        self.bytes_total = self.bytes_total + len;
        self.bytes_stored = self.bytes_stored + compressed_len;
    }

    /// Adds the counts of one stored message to the running totals.
    pub fn merge(&mut self, other: &StorageStats)
        requires
            old(self).bytes_total + other.bytes_total <= u64::MAX,
            old(self).bytes_stored + other.bytes_stored <= u64::MAX,
            old(self).bytes_deduplicated + other.bytes_deduplicated <= u64::MAX,
        ensures
            final(self).bytes_total == old(self).bytes_total + other.bytes_total,
            final(self).bytes_stored == old(self).bytes_stored + other.bytes_stored,
            final(self).bytes_deduplicated == old(self).bytes_deduplicated + other.bytes_deduplicated,
    {
        self.bytes_total = self.bytes_total + other.bytes_total;
        self.bytes_stored = self.bytes_stored + other.bytes_stored;
        self.bytes_deduplicated = self.bytes_deduplicated + other.bytes_deduplicated;
    }

    /// Bytes saved by compression: what was offered, less what was found
    /// already stored and what was written.
    pub fn bytes_compressed(&self) -> (c: u64)
        requires
            self.bytes_deduplicated + self.bytes_stored <= self.bytes_total,
        ensures
            c == self.bytes_total - self.bytes_deduplicated - self.bytes_stored,
    {
        self.bytes_total - self.bytes_deduplicated - self.bytes_stored
    }
}

/// Identifies a test; test 1 always exists and collects proxied traffic.
#[derive(Clone, Copy, Debug, PartialEq, Eq, Structural)]
pub struct TestId(pub i64);

/// Identifies an entry of the proxy history.
#[derive(Clone, Copy, Debug, PartialEq, Eq, Structural)]
pub struct HistoryId(pub i64);

/// What storing a message writes: the test it is filed under, the pieces of
/// the request and of the response, and the error code when no response came.
pub struct HistoryPlan {
    pub test_id: i64,
    pub request: RequestSegments,
    pub response_header: Vec<u8>,
    pub response_body: Vec<u8>,
    pub error_code: Option<u8>,
}

/// Decides what storing `http_message` writes: it is filed under `test_id`,
/// or under test 1 (proxied traffic) when none is given; a failed exchange
/// stores empty response pieces and the error's code.
pub fn plan_http_history(test_id: Option<TestId>, http_message: &HttpMessage) -> (p: HistoryPlan)
    ensures
        p.test_id == match test_id {
            Some(t) => t.0,
            None => 1,
        },
        (p.request.location@, p.request.header@, opt_bytes(p.request.body)) == request_segments(
            http_message.request@,
        ),
        match http_message.response {
            Ok(r) => (p.response_header@, p.response_body@) == response_segments(r@) && p.error_code is None,
            Err(e) => p.response_header@ == Seq::<u8>::empty() && p.response_body@ == Seq::<u8>::empty()
                && p.error_code == Some(http_error_code(e)),
        },
{
    let test_id = match test_id {
        Some(t) => t.0,
        None => 1,
    };
    let request = split_http_request(http_message.request.as_slice());
    match &http_message.response {
        Ok(r) => {
            let (h, b) = split_http_response(r.as_slice());
            HistoryPlan { test_id, request, response_header: h, response_body: b, error_code: None }
        },
        Err(e) => {
            let code = e.to_u8();
            HistoryPlan {
                test_id,
                request,
                response_header: Vec::new(),
                response_body: Vec::new(),
                error_code: Some(code),
            }
        },
    }
}

/// What storing a message writes is the stored form of that message: the
/// pieces of its plan, each compressed, are pieces that `load_http_request`
/// (and, when a response came, `load_stored_response`) turn back into the
/// request and the response.
pub proof fn lemma_planned_pieces_load_back(
    m: HttpMessage,
    p: HistoryPlan,
    location: Seq<u8>,
    header: Seq<u8>,
    body: Option<Seq<u8>>,
    response_header: Seq<u8>,
    response_body: Seq<u8>,
)
    requires
        (p.request.location@, p.request.header@, opt_bytes(p.request.body)) == request_segments(m.request@),
        m.response matches Ok(r) ==> (p.response_header@, p.response_body@) == response_segments(r@),
        location == zstd_compressed(p.request.location@, ZSTD_COMPRESSION_LEVEL),
        header == zstd_compressed(p.request.header@, ZSTD_COMPRESSION_LEVEL),
        body == match p.request.body {
            Some(x) => Some(zstd_compressed(x@, ZSTD_COMPRESSION_LEVEL)),
            None => None,
        },
        response_header == zstd_compressed(p.response_header@, ZSTD_COMPRESSION_LEVEL),
        response_body == zstd_compressed(p.response_body@, ZSTD_COMPRESSION_LEVEL),
    ensures
        stored_as_request(m.request@, location, header, body),
        m.response matches Ok(r) ==> stored_as_response(r@, response_header, response_body),
{
}

/// The response of a stored message: the error stored under `error_code` when
/// there is one, else the response put back together from its stored pieces.
/// `None` when the code is unknown or a piece does not decode.
pub fn load_stored_response(error_code: Option<u8>, header: &[u8], body: &[u8]) -> (r: Option<
    Result<Vec<u8>, HttpError>,
>)
    ensures
        match error_code {
            Some(c) => match r {
                Some(Err(e)) => http_error_code(e) == c,
                Some(Ok(_)) => false,
                None => !(1 <= c <= 5),
            },
            None => match r {
                Some(Ok(v)) => v@ == zstd_decoded(header@) + zstd_decoded(body@) && forall|resp: Seq<u8>|
                    #[trigger] stored_as_response(resp, header@, body@) ==> v@ == resp,
                Some(Err(_)) => false,
                None => !(is_zstd_frame(header@) && is_zstd_frame(body@)),
            },
        },
        error_code is None ==> forall|resp: Seq<u8>|
            #[trigger] stored_as_response(resp, header@, body@) ==> (r matches Some(Ok(v)) && v@ == resp),
{
    match error_code {
        Some(c) => match HttpError::try_from_u8(c) {
            Some(e) => Some(Err(e)),
            None => None,
        },
        None => match load_http_response(header, body) {
            Some(v) => Some(Ok(v)),
            None => None,
        },
    }
}

/// Where a message was sent.
pub struct ConnectionInfo {
    pub host: String,
    pub port: u16,
    pub is_https: bool,
}

/// A stored message handed out to a client.
pub struct HttpMessageImpl {
    msg: HttpMessage,
}

impl HttpMessageImpl {
    /// The message held.
    pub closed spec fn message(&self) -> HttpMessage {
        self.msg
    }

    pub fn new(msg: HttpMessage) -> (s: HttpMessageImpl)
        ensures
            s.message() == msg,
    {
        HttpMessageImpl { msg }
    }

    /// Host, port and scheme of the message.
    pub fn connection_info(&self) -> (c: ConnectionInfo)
        ensures
            c.host@ == self.message().host@,
            c.port == self.message().port,
            c.is_https == self.message().is_https,
    {
        ConnectionInfo { host: self.msg.host.clone(), port: self.msg.port, is_https: self.msg.is_https }
    }

    pub fn request_timestamp(&self) -> (t: Timestamp)
        ensures
            t == self.message().request_time,
    {
        self.msg.request_time
    }

    pub fn request_bytes(&self) -> (b: &[u8])
        ensures
            b@ == self.message().request@,
    {
        self.msg.request.as_slice()
    }

    pub fn response_timestamp(&self) -> (t: Timestamp)
        ensures
            t == self.message().response_time,
    {
        self.msg.response_time
    }

    /// The response, or why there is none.
    pub fn response_bytes(&self) -> (r: Result<&[u8], HttpError>)
        ensures
            match (r, self.message().response) {
                (Ok(b), Ok(v)) => b@ == v@,
                (Err(e), Err(f)) => e == f,
                _ => false,
            },
    {
        match &self.msg.response {
            Ok(m) => Ok(m.as_slice()),
            Err(e) => Err(*e),
        }
    }
}

} // verus!
