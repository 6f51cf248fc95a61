//! Adapter layer that lets plain HTTP-style handler functions run inside a
//! "Now"-style serverless runtime.  The library translates the platform's
//! proxy-event envelope into an HTTP request value, hands it to a handler,
//! and translates the handler's response back into the envelope the platform
//! expects.  All translation logic is verified; the event loop, JSON framing
//! and process wiring live outside the library.

mod ascii;
pub mod base64;
mod body;
pub mod error;
pub mod request;
pub mod response;
pub mod strmap;

pub use crate::ascii::eq_ignore_case;
pub use crate::body::Body;
pub use crate::error::NowError;
pub use crate::request::{NowEvent, Request};
pub use crate::response::{IntoResponse, NowResponse, Response};
pub use crate::strmap::StrMap;

use vstd::prelude::*;

verus! {

/// Functions acting as handlers must conform to this capability: one
/// operation from a request to a response-like value or a failure.  What a
/// handler returns is its own business; the adapter passes failures through
/// opaquely.
pub trait Handler<R> {
    /// Method to execute the handler function.
    fn run(&mut self, event: Request) -> Result<R, NowError>;
}

/// The envelope `nr` is the translation of the response `resp`: the same
/// status, the headers flattened in order, and the body mapped as
/// `spec_body_encode` says.
pub open spec fn envelope_of(nr: NowResponse, resp: Response) -> bool {
    &&& nr.status_code == resp.status
    &&& response::out_pairs_views(nr.headers@) == response::flatten_headers(resp.headers@)
    &&& spec_body_encode(resp.body) == (vstd::utf8::encode_utf8(nr.body@), nr.is_base64_encoded)
}

/// Some response exists whose translation the envelope is.
pub open spec fn some_response_envelope(nr: NowResponse) -> bool {
    exists|resp: Response| #[trigger] envelope_of(nr, resp)
}

/// One complete invocation over a validated event:
/// translate the event into a request, run the handler, translate its
/// response into the platform envelope.  Every failure is a value: a bad
/// base64 body is reported as `InvalidBodyEncoding`, a handler failure is
/// passed through.  Every success is the envelope some response maps to;
/// which response is the handler's own business.
pub fn process_event<R: IntoResponse, H: Handler<R>>(h: &mut H, ev: NowEvent) -> (r: Result<
    NowResponse,
    NowError,
>)
    ensures
        ev.is_base64_encoded && base64::spec_b64_decode(vstd::utf8::encode_utf8(ev.body@))
            == None::<Seq<u8>> ==> r == Err::<NowResponse, NowError>(
            NowError::InvalidBodyEncoding,
        ),
        r is Ok ==> some_response_envelope(r->Ok_0),
{
    match request::translate_request(ev) {
        Err(e) => Err(e),
        Ok(req) => match h.run(req) {
            Ok(out) => {
                let resp = out.into_response();
                let ghost resp_g = resp;
                let nr = response::translate_response(resp);
                proof {
                    if resp_g.body is Empty {
                        assert(vstd::utf8::encode_utf8(nr.body@) =~= Seq::<u8>::empty());
                        assert(spec_body_encode(resp_g.body).0 =~= Seq::<u8>::empty());
                    }
                    assert(envelope_of(nr, resp_g));
                    assert(some_response_envelope(nr));
                }
                Ok(nr)
            },
            Err(e) => Err(e),
        },
    }
}

/// One complete invocation over a raw, unvalidated envelope.  An envelope
/// lacking its required fields yields a recoverable `MalformedEvent` error
/// rather than aborting the process.
pub fn process_raw_event<R: IntoResponse, H: Handler<R>>(
    h: &mut H,
    method: Option<String>,
    path: Option<String>,
    headers: Vec<(String, String)>,
    query: Option<String>,
    body: Option<String>,
    is_base64_encoded: Option<bool>,
) -> (r: Result<NowResponse, NowError>)
    ensures
        method is None || path is None ==> r == Err::<NowResponse, NowError>(
            NowError::MalformedEvent,
        ),
        method is Some && path is Some && is_base64_encoded == Some(true) && (body matches Some(
            bs,
        ) && base64::spec_b64_decode(vstd::utf8::encode_utf8(bs@)) == None::<Seq<u8>>) ==> r
            == Err::<NowResponse, NowError>(NowError::InvalidBodyEncoding),
        r is Ok ==> some_response_envelope(r->Ok_0),
{
    match NowEvent::from_parts(method, path, headers, query, body, is_base64_encoded) {
        Ok(ev) => process_event(h, ev),
        Err(e) => Err(e),
    }
}

/// The body string and base64 flag a body leaves in the outbound envelope,
/// at the byte level, as `translate_response` produces them.
pub open spec fn spec_body_encode(b: Body) -> (Seq<u8>, bool) {
    match b {
        Body::Empty => (Seq::empty(), false),
        Body::Text(s) => (vstd::utf8::encode_utf8(s@), false),
        Body::Binary(v) => (base64::spec_b64_encode(v@), true),
    }
}

/// The body bytes an inbound envelope's body string and flag denote, as
/// `translate_request` reconstructs them; `None` for invalid base64.
pub open spec fn spec_body_decode(bytes: Seq<u8>, is_base64_encoded: bool) -> Option<Seq<u8>> {
    if is_base64_encoded {
        base64::spec_b64_decode(bytes)
    } else {
        Some(bytes)
    }
}

/// Law: the outbound body mapping inverts through the inbound one — writing
/// any body into an envelope and reading that envelope back yields the
/// body's bytes exactly, text and binary alike.
pub proof fn lemma_body_envelope_round_trip(b: Body)
    ensures
        spec_body_decode(spec_body_encode(b).0, spec_body_encode(b).1) == Some(b@),
{
    match b {
        Body::Empty => {
            assert(b@ =~= Seq::<u8>::empty());
        },
        Body::Text(s) => {
        },
        Body::Binary(v) => {
            base64::lemma_b64_round_trip(v@);
        },
    }
}

} // verus!
