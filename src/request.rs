//! Turning raw request bytes into the bindings that scripts see.
use vstd::prelude::*;
use vstd::utf8::{decode_utf8, encode_utf8, valid_utf8};

use crate::error::RunError;

verus! {

#[verifier::external_type_specification]
#[verifier::external_body]
pub struct ExHttpError(httparse::Error);

/// What the HTTP parser read from the head of a request, field by field.
pub struct ParsedRequest {
    pub method: Option<String>,
    pub path: Option<String>,
    pub version: Option<u8>,
    pub headers: Vec<(String, Vec<u8>)>,
    /// Where the body starts; `None` when the head is incomplete.
    pub body_offset: Option<usize>,
}

/// What the parser reads from a request head, in plain values: method, path,
/// version, headers, body offset.
pub type HeadView = (
    Option<Seq<char>>,
    Option<Seq<char>>,
    Option<u8>,
    Seq<(Seq<char>, Seq<u8>)>,
    Option<nat>,
);

/// The parse of request bytes `b`; `None` where the parser reports an error.
pub uninterp spec fn http_head_of(b: Seq<u8>) -> Option<HeadView>;

/// The text that lossy UTF-8 decoding gives for `b`.
pub uninterp spec fn lossy_utf8_of(b: Seq<u8>) -> Seq<char>;

/// Views of the header list of a parse.
pub open spec fn raw_header_views(hs: Seq<(String, Vec<u8>)>) -> Seq<(Seq<char>, Seq<u8>)> {
    hs.map_values(|h: (String, Vec<u8>)| (h.0@, h.1@))
}

impl ParsedRequest {
    pub open spec fn head_view(&self) -> HeadView {
        (
            match self.method {
                Some(m) => Some(m@),
                None => None,
            },
            match self.path {
                Some(p) => Some(p@),
                None => None,
            },
            self.version,
            raw_header_views(self.headers@),
            match self.body_offset {
                Some(n) => Some(n as nat),
                None => None,
            },
        )
    }
}

/// Relies on httparse::Request::parse: reads the request line and the
/// headers at the start of `b`, and depends on those bytes alone. A complete
/// head ends within `b`.
#[verifier::external_body]
fn parse_head(b: &[u8]) -> (r: Result<ParsedRequest, httparse::Error>)
    ensures
        r matches Ok(p) ==> http_head_of(b@) == Some(p.head_view()),
        r matches Ok(p) ==> (p.body_offset matches Some(n) ==> n <= b@.len()),
        r is Err ==> http_head_of(b@) is None,
{
    let mut slots = [httparse::EMPTY_HEADER; 1000];
    let mut req = httparse::Request::new(&mut slots);
    let body_offset = match req.parse(b)? {
        httparse::Status::Complete(n) => Some(n),
        httparse::Status::Partial => None,
    };
    let headers = req.headers.iter().map(|h| (h.name.to_owned(), h.value.to_vec())).collect();
    let method = req.method.map(|m| m.to_owned());
    let path = req.path.map(|p| p.to_owned());
    Ok(ParsedRequest { method, path, version: req.version, headers, body_offset })
}

/// Relies on String::from_utf8_lossy: the text depends on the bytes alone,
/// and valid UTF-8 is decoded as it stands.
#[verifier::external_body]
fn lossy_text(b: &[u8]) -> (r: String)
    ensures
        r@ == lossy_utf8_of(b@),
        valid_utf8(b@) ==> r@ == decode_utf8(b@),
{
    String::from_utf8_lossy(b).into_owned()
}

/// The request as scripts see it.
pub struct RequestContext {
    pub method: String,
    pub path: String,
    pub version: u8,
    /// Header names and values, in the order of the request.
    pub headers: Vec<(String, String)>,
    /// Everything after the head.
    pub body: String,
}

/// The head of request text `q` parsed completely, with every required field.
pub open spec fn head_complete(q: Seq<char>) -> bool {
    http_head_of(encode_utf8(q)) matches Some(h) && h.0 is Some && h.1 is Some && h.2 is Some
        && h.4 is Some
}

/// Views of a list of text pairs.
pub open spec fn pair_views(v: Seq<(String, String)>) -> Seq<(Seq<char>, Seq<char>)> {
    v.map_values(|p: (String, String)| (p.0@, p.1@))
}

/// The headers of a parse, with their values decoded.
pub open spec fn decoded_headers(hs: Seq<(Seq<char>, Seq<u8>)>) -> Seq<(Seq<char>, Seq<char>)> {
    hs.map_values(|h: (Seq<char>, Seq<u8>)| (h.0, lossy_utf8_of(h.1)))
}

/// `c` holds what the parser read from `q`, and the rest of `q` as body.
pub open spec fn context_of(q: Seq<char>, c: RequestContext) -> bool {
    let b = encode_utf8(q);
    let h = http_head_of(b).unwrap();
    &&& c.method@ == h.0.unwrap()
    &&& c.path@ == h.1.unwrap()
    &&& c.version == h.2.unwrap()
    &&& pair_views(c.headers@) == decoded_headers(h.3)
    &&& c.body@ == lossy_utf8_of(b.subrange(h.4.unwrap() as int, b.len() as int))
}


/// Parses request text into the context that scripts see. Fails when the
/// parser reports an error, the head is incomplete, or a field is missing.
pub fn build_request_context(request: &str) -> (r: Result<RequestContext, RunError>)
    ensures
        r is Ok <==> head_complete(request@),
        r matches Err(e) ==> e == RunError::RequestParseFailure,
        r matches Ok(c) ==> context_of(request@, c),
{
    let bytes = request.as_bytes();
    let parsed = match parse_head(bytes) {
        Ok(p) => p,
        Err(_) => return Err(RunError::RequestParseFailure),
    };
    let ParsedRequest { method, path, version, headers, body_offset } = parsed;
    let (method, path, version, body_offset) = match (method, path, version, body_offset) {
        (Some(m), Some(p), Some(v), Some(n)) => (m, p, v, n),
        _ => return Err(RunError::RequestParseFailure),
    };
    let mut decoded: Vec<(String, String)> = Vec::new();
    let mut i: usize = 0;
    while i < headers.len()
        invariant
            i <= headers@.len(),
            pair_views(decoded@) == decoded_headers(raw_header_views(headers@)).take(i as int),
        decreases headers@.len() - i,
    {
        let name = headers[i].0.clone();
        let value = lossy_text(headers[i].1.as_slice());
        let ghost before = decoded@;
        decoded.push((name, value));
        proof {
            let want = decoded_headers(raw_header_views(headers@));
            assert(pair_views(before) =~= want.take(i as int));
            assert forall|k: int| 0 <= k <= i implies #[trigger] pair_views(decoded@)[k] == want.take(
                i + 1,
            )[k] by {
                if k < i {
                    assert(pair_views(decoded@)[k] == pair_views(before)[k]);
                }
            }
        }
        i = i + 1;
        assert(pair_views(decoded@) =~= decoded_headers(raw_header_views(headers@)).take(
            i as int,
        ));
    }
    assert(pair_views(decoded@) =~= decoded_headers(raw_header_views(headers@)));
    let body = lossy_text(vstd::slice::slice_subrange(bytes, body_offset, bytes.len()));
    Ok(RequestContext { method, path, version, headers: decoded, body })
}

} // verus!
