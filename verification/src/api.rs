//! The compute paths of the gateway's HTTP endpoints.
//!
//! The surrounding program owns routing, connections and the event
//! stream; it hands this module plain bytes. Publishing turns a request
//! body into the bytes for exactly one backend publish call; subscribing
//! turns each backend-delivered payload into at most one output frame;
//! the liveness probe answers with a fixed body.

use vstd::prelude::*;

use crate::codec::{
    decode, decode_spec, encode, encode_spec, spec_emits_frame, wf_event, DecodeError, SseMessage,
};

verus! {

/// The publisher-side transform behind `POST /{channel}/messages`: the
/// request body must decode as an event, which is re-serialized to the
/// canonical wire form and handed to exactly one backend publish call. A
/// body that is not a wire record is refused, and nothing is published.
pub fn publish_payload(body: &Vec<u8>) -> (r: Result<Vec<u8>, DecodeError>)
    ensures
        match r {
            Ok(bytes) => decode_spec(body@) matches Some(e) && bytes@ == encode_spec(e),
            Err(_) => decode_spec(body@) is None,
        },
{
    match decode(body) {
        Ok(e) => Ok(encode(&e)),
        Err(err) => Err(err),
    }
}

/// The subscriber-side transform behind `GET /{channel}/messages`: the
/// payload of one backend-delivered message becomes one output frame, or
/// no frame at all when every part is absent, or a decode failure when
/// the payload is not a wire record.
pub fn redis_msg_to_sse(payload: &Vec<u8>) -> (r: Result<Option<SseMessage>, DecodeError>)
    ensures
        match r {
            Ok(Some(e)) => decode_spec(payload@) == Some(e@) && spec_emits_frame(e@) && wf_event(
                e@,
            ),
            Ok(None) => decode_spec(payload@) matches Some(ev) && !spec_emits_frame(ev),
            Err(_) => decode_spec(payload@) is None,
        },
{
    match decode(payload) {
        Ok(e) => if e.emits_frame() {
            Ok(Some(e))
        } else {
            Ok(None)
        },
        Err(err) => Err(err),
    }
}

/// The body of the acknowledgment returned by a successful publish.
pub fn success_body() -> (r: Vec<u8>)
    ensures
        r@ == seq![
            0x7bu8, 0x22, 0x72, 0x65, 0x73, 0x75, 0x6c, 0x74, 0x22, 0x3a, 0x22, 0x73, 0x75, 0x63,
            0x63, 0x65, 0x73, 0x73, 0x22, 0x7d,
        ],
{
    let mut v: Vec<u8> = Vec::new();
    v.push(0x7b);
    v.push(0x22);
    v.push(0x72);
    v.push(0x65);
    v.push(0x73);
    v.push(0x75);
    v.push(0x6c);
    v.push(0x74);
    v.push(0x22);
    v.push(0x3a);
    v.push(0x22);
    v.push(0x73);
    v.push(0x75);
    v.push(0x63);
    v.push(0x63);
    v.push(0x65);
    v.push(0x73);
    v.push(0x73);
    v.push(0x22);
    v.push(0x7d);
    proof {
        assert(v@ =~= seq![
            0x7bu8, 0x22, 0x72, 0x65, 0x73, 0x75, 0x6c, 0x74, 0x22, 0x3a, 0x22, 0x73, 0x75, 0x63,
            0x63, 0x65, 0x73, 0x73, 0x22, 0x7d,
        ]);
    }
    v
}

/// The body of the liveness probe's answer.
pub fn ping_body() -> (r: Vec<u8>)
    ensures
        r@ == seq![0x6fu8, 0x6b],
{
    let mut v: Vec<u8> = Vec::new();
    v.push(0x6f);
    v.push(0x6b);
    proof {
        assert(v@ =~= seq![0x6fu8, 0x6b]);
    }
    v
}

} // verus!
