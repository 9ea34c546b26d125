//! The request-to-resource dispatch: route a parsed request against the
//! enumerated displays, capture the named screen through the outside
//! collaborator, and assemble the raw response.

use vstd::prelude::*;
use crate::request::{HttpRequest, parse_request, spec_parse_request};
use crate::route::{
    resolve, spec_resolve, screen_prefix, all_digits, digits_val, lemma_resolve_screen_path,
};
use crate::response::{
    build_ok_response, build_not_found, ok_response_bytes, not_found_bytes,
};
use crate::ServerError;

verus! {

/// Relies on screenshots::Screen: an opaque handle to one display that
/// the operating system enumerated.
#[verifier::external_type_specification]
#[verifier::external_body]
pub struct ExScreen(screenshots::Screen);

/// Relies on screenshots::Image: an opaque captured image.
#[verifier::external_type_specification]
#[verifier::external_body]
pub struct ExImage(screenshots::Image);

/// Relies on screenshots::Screen::capture: a snapshot of the display as
/// it stands now. The outcome depends on the machine's state, so nothing
/// is promised of it.
#[verifier::external_body]
fn capture_image(s: &screenshots::Screen) -> (r: Option<screenshots::Image>)
{
    s.capture().ok()
}

/// The eight signature bytes that begin every PNG stream.
pub open spec fn png_signature() -> Seq<u8> {
    seq![137u8, 80u8, 78u8, 71u8, 13u8, 10u8, 26u8, 10u8]
}

/// Whether `b` opens with the PNG signature.
pub open spec fn is_png(b: Seq<u8>) -> bool {
    b.len() >= 8 && b.subrange(0, 8) == png_signature()
}

/// Relies on screenshots::Image::to_png: the image encoded as a PNG
/// stream, whose writer puts the eight signature bytes first.
#[verifier::external_body]
fn image_to_png(img: &screenshots::Image) -> (r: Option<Vec<u8>>)
    ensures
        r matches Some(b) ==> is_png(b@),
{
    img.to_png(None::<screenshots::Compression>).ok()
}

/// Where a path routes once the display count is known: the resolved
/// index if it names an enumerated screen, and nothing otherwise — an
/// unrecognized shape, screen number zero, an index at or past the
/// count, or a digit string beyond the machine's range.
pub open spec fn route_of(p: Seq<u8>, count: int) -> Option<int> {
    match spec_resolve(p) {
        Result::Ok(o) => match o {
            Option::Some(i) => if i < count {
                Option::Some(i)
            } else {
                Option::None
            },
            Option::None => Option::None,
        },
        Result::Err(u) => Option::None,
    }
}

/// What answering a request with path `p` against `count` displays may
/// yield: a path that routes nowhere is answered `404 Not Found`; one
/// that routes to a screen is answered `200 OK` around some PNG stream,
/// or fails with `CaptureFailure` and nothing else.
pub open spec fn response_matches(p: Seq<u8>, count: int, r: Result<Vec<u8>, ServerError>) -> bool {
    match route_of(p, count) {
        Option::None => r matches Ok(v) && v@ == not_found_bytes(),
        Option::Some(i) => match r {
            Ok(v) => exists|png: Seq<u8>| is_png(png) && v@ == ok_response_bytes(png),
            Err(e) => e == ServerError::CaptureFailure,
        },
    }
}

/// Answer one parsed request: resolve its path, capture the named screen
/// if one is enumerated, and assemble the raw response bytes.
pub fn service_request(request: &HttpRequest, screens: &Vec<screenshots::Screen>) -> (r: Result<
    Vec<u8>,
    ServerError,
>)
    ensures
        response_matches(request@.path, screens@.len() as int, r),
{
    let resolved = resolve(request.path.as_slice());
    match resolved {
        Ok(opt) => match opt {
            Some(i) => {
                if i < screens.len() {
                    let screen = &screens[i];
                    match capture_image(screen) {
                        Some(img) => match image_to_png(&img) {
                            Some(png) => {
                                let resp = build_ok_response(png.as_slice());
                                proof {
                                    assert(is_png(png@) && resp@ == ok_response_bytes(png@));
                                }
                                Ok(resp)
                            },
                            None => Err(ServerError::CaptureFailure),
                        },
                        None => Err(ServerError::CaptureFailure),
                    }
                } else {
                    Ok(build_not_found())
                }
            },
            None => Ok(build_not_found()),
        },
        Err(e) => Ok(build_not_found()),
    }
}

/// What one whole connection cycle on `raw` may answer: a stream that
/// parses is answered as its path routes; one that does not is answered
/// `404 Not Found`.
pub open spec fn connection_response(raw: Seq<u8>, count: int, r: Result<
    Vec<u8>,
    ServerError,
>) -> bool {
    match spec_parse_request(raw) {
        Option::Some(req) => response_matches(req.path, count, r),
        Option::None => r matches Ok(v) && v@ == not_found_bytes(),
    }
}

/// One full connection-handling cycle on already-read bytes: parse,
/// route, capture, respond. A malformed or unroutable request is
/// answered `404 Not Found`; only a failed capture is an error, fatal to
/// this connection alone.
pub fn handle_connection(raw: &[u8], screens: &Vec<screenshots::Screen>) -> (r: Result<
    Vec<u8>,
    ServerError,
>)
    ensures
        connection_response(raw@, screens@.len() as int, r),
{
    match parse_request(raw) {
        Ok(req) => service_request(&req, screens),
        Err(e) => Ok(build_not_found()),
    }
}

/// Serve an already-read sequence of connections one after another
/// against one unchanging display list, as the listener loop does:
/// strictly in order, no two at a time, each answered independently.
pub fn run_http_server(screens: &Vec<screenshots::Screen>, connections: &Vec<Vec<u8>>) -> (rs:
    Vec<Result<Vec<u8>, ServerError>>)
    ensures
        rs@.len() == connections@.len(),
        forall|i: int|
            0 <= i < connections@.len() ==> connection_response(
                connections@[i]@,
                screens@.len() as int,
                #[trigger] rs@[i],
            ),
{
    let mut rs: Vec<Result<Vec<u8>, ServerError>> = Vec::new();
    let n: usize = connections.len();
    let mut i: usize = 0;
    while i < n
        invariant
            0 <= i <= n,
            n == connections@.len(),
            rs@.len() == i,
            forall|j: int|
                0 <= j < i ==> connection_response(
                    connections@[j]@,
                    screens@.len() as int,
                    #[trigger] rs@[j],
                ),
        decreases n - i,
    {
        let resp = handle_connection(connections[i].as_slice(), screens);
        rs.push(resp);
        i += 1;
    }
    rs
}

/// The routing surface against a display count: `"/screen/<n>"` serves
/// screen `n - 1` exactly when `1 <= n <= count`; screen number zero,
/// any number past the count, and any number beyond the machine's range
/// serve nothing and so are answered `404 Not Found`.
pub proof fn lemma_screen_route_surface(d: Seq<u8>, count: int)
    requires
        all_digits(d),
        d.len() >= 1,
        0 <= count <= usize::MAX as int,
    ensures
        ({
            let p = screen_prefix() + d;
            let n = digits_val(d);
            &&& (1 <= n <= count ==> route_of(p, count) == Option::Some(n - 1))
            &&& (n == 0 || n > count ==> route_of(p, count) is None)
        }),
{
    lemma_resolve_screen_path(d);
}

/// How a request routes once parsed: the screen that one cycle serves.
pub open spec fn served_screen(raw: Seq<u8>, count: int) -> Option<int> {
    match spec_parse_request(raw) {
        Option::Some(req) => route_of(req.path, count),
        Option::None => Option::None,
    }
}

/// Serving the same request bytes twice against an unchanged display
/// list decides alike. A cycle that serves no screen answers the one
/// not-found response both times; a cycle that serves a screen answers,
/// both times, either `CaptureFailure` or a `200 OK` around some PNG
/// stream — and by `lemma_ok_headers_agree`, two such responses carry
/// one and the same header block whenever their bodies have one length.
pub proof fn lemma_repeat_request(
    raw: Seq<u8>,
    count: int,
    r1: Result<Vec<u8>, ServerError>,
    r2: Result<Vec<u8>, ServerError>,
)
    requires
        connection_response(raw, count, r1),
        connection_response(raw, count, r2),
    ensures
        served_screen(raw, count) is None ==> (r1 matches Ok(v1) && v1@ == not_found_bytes())
            && (r2 matches Ok(v2) && v2@ == not_found_bytes()),
        served_screen(raw, count) is Some ==> ((r1 matches Err(e1) ==> e1
            == ServerError::CaptureFailure) && (r1 matches Ok(v1) ==> exists|b: Seq<u8>|
            is_png(b) && v1@ == ok_response_bytes(b)) && (r2 matches Err(e2) ==> e2
            == ServerError::CaptureFailure) && (r2 matches Ok(v2) ==> exists|b: Seq<u8>|
            is_png(b) && v2@ == ok_response_bytes(b))),
{
}

} // verus!
