//! The framed wire protocol: request and response payloads and their
//! length-prefixed byte frames.
//!
//! Each frame is a four-byte big-endian length followed by a JSON payload of
//! exactly that length. Round-trip proofs at the bottom state that encoding
//! then parsing gives back the original value.

use vstd::prelude::*;

use crate::codec::{
    enc_field1, enc_field2, lemma_parse_field1_enc, lemma_parse_field2_enc,
    lit_objs_end, lit_rm_pre, lit_set_pre, lit_val_mid, parse_field1, parse_field2, parse_jstring,
    bytes_to_string, match_lit, parse_jstring_at, push_bytes, push_json_string, starts_with,
    QUOTE,
};
use crate::err::KvsError;

verus! {

/// Mathematical form of a [`Request`].
pub enum RequestV {
    Put { key: Seq<char>, value: Seq<char> },
    Get { key: Seq<char> },
    Rm { key: Seq<char> },
}

/// One client-to-server request (the `Put` variant travels with the wire
/// tag `Set`).
pub enum Request {
    /// Map `key` to `value`.
    Put { key: String, value: String },
    /// Look `key` up.
    Get { key: String },
    /// Delete `key`.
    Rm { key: String },
}

impl View for Request {
    type V = RequestV;

    open spec fn view(&self) -> RequestV {
        match self {
            Request::Put { key, value } => RequestV::Put { key: key@, value: value@ },
            Request::Get { key } => RequestV::Get { key: key@ },
            Request::Rm { key } => RequestV::Rm { key: key@ },
        }
    }
}

/// Mathematical form of a [`Response`].
pub enum ResponseV {
    Value(Option<Seq<char>>),
    Error(Seq<char>),
}

/// One server-to-client response: a successful payload (the wire tag `Ok`,
/// carrying a value for `Get` and nothing for `Set`/`Rm`), or a stringified
/// server-side error (the wire tag `Err`).
pub enum Response {
    Value(Option<String>),
    Error(String),
}

impl View for Response {
    type V = ResponseV;

    open spec fn view(&self) -> ResponseV {
        match self {
            Response::Value(o) => ResponseV::Value(
                match o {
                    Some(v) => Some(v@),
                    None => None,
                },
            ),
            Response::Error(m) => ResponseV::Error(m@),
        }
    }
}

/// `{"Get":{"key":`
pub open spec fn lit_get_pre() -> Seq<u8> {
    seq![
        0x7Bu8,
        0x22u8,
        0x47u8,
        0x65u8,
        0x74u8,
        0x22u8,
        0x3Au8,
        0x7Bu8,
        0x22u8,
        0x6Bu8,
        0x65u8,
        0x79u8,
        0x22u8,
        0x3Au8,
    ]
}

/// `{"Ok":`
pub open spec fn lit_ok_pre() -> Seq<u8> {
    seq![0x7Bu8, 0x22u8, 0x4Fu8, 0x6Bu8, 0x22u8, 0x3Au8]
}

/// `{"Err":`
pub open spec fn lit_err_pre() -> Seq<u8> {
    seq![0x7Bu8, 0x22u8, 0x45u8, 0x72u8, 0x72u8, 0x22u8, 0x3Au8]
}

/// `null`
pub open spec fn lit_null() -> Seq<u8> {
    seq![0x6Eu8, 0x75u8, 0x6Cu8, 0x6Cu8]
}

/// `}`
pub open spec fn lit_obj_end() -> Seq<u8> {
    seq![0x7Du8]
}

/// The canonical payload bytes of a request.
pub open spec fn req_json(q: RequestV) -> Seq<u8> {
    match q {
        RequestV::Put { key, value } => enc_field2(
            lit_set_pre(),
            vstd::utf8::encode_utf8(key),
            lit_val_mid(),
            vstd::utf8::encode_utf8(value),
            lit_objs_end(),
        ),
        RequestV::Get { key } => enc_field1(
            lit_get_pre(),
            vstd::utf8::encode_utf8(key),
            lit_objs_end(),
        ),
        RequestV::Rm { key } => enc_field1(
            lit_rm_pre(),
            vstd::utf8::encode_utf8(key),
            lit_objs_end(),
        ),
    }
}

/// Parse one request payload from the front of `d`.
pub open spec fn parse_req(d: Seq<u8>) -> Option<(RequestV, int)> {
    if starts_with(d, lit_set_pre()) {
        match parse_field2(d, lit_set_pre(), lit_val_mid(), lit_objs_end()) {
            Some(((kb, vb), n)) => if vstd::utf8::valid_utf8(kb) && vstd::utf8::valid_utf8(vb) {
                Some(
                    (
                        RequestV::Put {
                            key: vstd::utf8::decode_utf8(kb),
                            value: vstd::utf8::decode_utf8(vb),
                        },
                        n,
                    ),
                )
            } else {
                None
            },
            None => None,
        }
    } else if starts_with(d, lit_get_pre()) {
        match parse_field1(d, lit_get_pre(), lit_objs_end()) {
            Some((kb, n)) => if vstd::utf8::valid_utf8(kb) {
                Some((RequestV::Get { key: vstd::utf8::decode_utf8(kb) }, n))
            } else {
                None
            },
            None => None,
        }
    } else if starts_with(d, lit_rm_pre()) {
        match parse_field1(d, lit_rm_pre(), lit_objs_end()) {
            Some((kb, n)) => if vstd::utf8::valid_utf8(kb) {
                Some((RequestV::Rm { key: vstd::utf8::decode_utf8(kb) }, n))
            } else {
                None
            },
            None => None,
        }
    } else {
        None
    }
}

/// The canonical payload bytes of a response.
pub open spec fn resp_json(p: ResponseV) -> Seq<u8> {
    match p {
        ResponseV::Value(None) => lit_ok_pre() + lit_null() + lit_obj_end(),
        ResponseV::Value(Some(v)) => enc_field1(
            lit_ok_pre(),
            vstd::utf8::encode_utf8(v),
            lit_obj_end(),
        ),
        ResponseV::Error(m) => enc_field1(
            lit_err_pre(),
            vstd::utf8::encode_utf8(m),
            lit_obj_end(),
        ),
    }
}

/// Parse one response payload from the front of `d`.
pub open spec fn parse_resp(d: Seq<u8>) -> Option<(ResponseV, int)> {
    if starts_with(d, lit_ok_pre()) {
        if starts_with(d.skip(6), lit_null()) {
            if starts_with(d.skip(10), lit_obj_end()) {
                Some((ResponseV::Value(None), 11))
            } else {
                None
            }
        } else {
            match parse_field1(d, lit_ok_pre(), lit_obj_end()) {
                Some((vb, n)) => if vstd::utf8::valid_utf8(vb) {
                    Some((ResponseV::Value(Some(vstd::utf8::decode_utf8(vb))), n))
                } else {
                    None
                },
                None => None,
            }
        }
    } else if starts_with(d, lit_err_pre()) {
        match parse_field1(d, lit_err_pre(), lit_obj_end()) {
            Some((mb, n)) => if vstd::utf8::valid_utf8(mb) {
                Some((ResponseV::Error(vstd::utf8::decode_utf8(mb)), n))
            } else {
                None
            },
            None => None,
        }
    } else {
        None
    }
}

/// Protocol round trip for requests: every encoded request parses back to
/// itself, consuming exactly its own bytes.
pub proof fn lemma_request_round_trip(q: RequestV)
    ensures
        parse_req(req_json(q)) == Some((q, req_json(q).len() as int)),
{
    broadcast use vstd::utf8::encode_utf8_valid_utf8, vstd::utf8::encode_utf8_decode_utf8;

    let d = req_json(q);
    let empty = Seq::<u8>::empty();
    match q {
        RequestV::Put { key, value } => {
            lemma_parse_field2_enc(
                lit_set_pre(),
                vstd::utf8::encode_utf8(key),
                lit_val_mid(),
                vstd::utf8::encode_utf8(value),
                lit_objs_end(),
                empty,
            );
            assert(enc_field2(
                lit_set_pre(),
                vstd::utf8::encode_utf8(key),
                lit_val_mid(),
                vstd::utf8::encode_utf8(value),
                lit_objs_end(),
            ) + empty =~= d);
            assert(d.take(14) =~= lit_set_pre());
        },
        RequestV::Get { key } => {
            lemma_parse_field1_enc(lit_get_pre(), vstd::utf8::encode_utf8(key), lit_objs_end(), empty);
            assert(enc_field1(lit_get_pre(), vstd::utf8::encode_utf8(key), lit_objs_end()) + empty
                =~= d);
            assert(d.take(14) =~= lit_get_pre());
            assert(!starts_with(d, lit_set_pre())) by {
                assert(d[2] == 0x47);
                if starts_with(d, lit_set_pre()) {
                    assert(d.take(14)[2] == lit_set_pre()[2]);
                }
            }
        },
        RequestV::Rm { key } => {
            lemma_parse_field1_enc(lit_rm_pre(), vstd::utf8::encode_utf8(key), lit_objs_end(), empty);
            assert(enc_field1(lit_rm_pre(), vstd::utf8::encode_utf8(key), lit_objs_end()) + empty
                =~= d);
            assert(d.take(13) =~= lit_rm_pre());
            assert(!starts_with(d, lit_set_pre())) by {
                assert(d[2] == 0x52);
                if starts_with(d, lit_set_pre()) {
                    assert(d.take(14)[2] == lit_set_pre()[2]);
                }
            }
            assert(!starts_with(d, lit_get_pre())) by {
                assert(d[2] == 0x52);
                if starts_with(d, lit_get_pre()) {
                    assert(d.take(14)[2] == lit_get_pre()[2]);
                }
            }
        },
    }
}

/// Protocol round trip for responses.
pub proof fn lemma_response_round_trip(p: ResponseV)
    ensures
        parse_resp(resp_json(p)) == Some((p, resp_json(p).len() as int)),
{
    broadcast use vstd::utf8::encode_utf8_valid_utf8, vstd::utf8::encode_utf8_decode_utf8;

    let d = resp_json(p);
    let empty = Seq::<u8>::empty();
    match p {
        ResponseV::Value(None) => {
            assert(d.take(6) =~= lit_ok_pre());
            assert(d.skip(6).take(4) =~= lit_null());
            assert(d.skip(10).take(1) =~= lit_obj_end());
            assert(d.len() == 11);
        },
        ResponseV::Value(Some(v)) => {
            lemma_parse_field1_enc(lit_ok_pre(), vstd::utf8::encode_utf8(v), lit_obj_end(), empty);
            assert(enc_field1(lit_ok_pre(), vstd::utf8::encode_utf8(v), lit_obj_end()) + empty
                =~= d);
            assert(d.take(6) =~= lit_ok_pre());
            assert(!starts_with(d.skip(6), lit_null())) by {
                assert(d[6] == QUOTE);
                if starts_with(d.skip(6), lit_null()) {
                    assert(d.skip(6).take(4)[0] == lit_null()[0]);
                }
            }
        },
        ResponseV::Error(m) => {
            lemma_parse_field1_enc(lit_err_pre(), vstd::utf8::encode_utf8(m), lit_obj_end(), empty);
            assert(enc_field1(lit_err_pre(), vstd::utf8::encode_utf8(m), lit_obj_end()) + empty
                =~= d);
            assert(d.take(7) =~= lit_err_pre());
            assert(!starts_with(d, lit_ok_pre())) by {
                assert(d[2] == 0x45);
                if starts_with(d, lit_ok_pre()) {
                    assert(d.take(6)[2] == lit_ok_pre()[2]);
                }
            }
        },
    }
}

/// The four-byte big-endian spelling of a frame length.
pub open spec fn be32(x: u32) -> Seq<u8> {
    seq![
        (x / 0x1000000) as u8,
        ((x / 0x10000) % 0x100) as u8,
        ((x / 0x100) % 0x100) as u8,
        (x % 0x100) as u8,
    ]
}

/// The length read back from the first four bytes of `d`.
pub open spec fn be32_val(d: Seq<u8>) -> int
    recommends
        d.len() >= 4,
{
    d[0] as int * 0x1000000 + d[1] as int * 0x10000 + d[2] as int * 0x100 + d[3] as int
}

/// A complete frame: the payload length, big-endian, then the payload.
pub open spec fn frame_spec(p: Seq<u8>) -> Seq<u8>
    recommends
        p.len() <= u32::MAX,
{
    be32(p.len() as u32) + p
}

/// Parse one frame from the front of `d`: the payload and the bytes the
/// frame occupies. `None` when the frame is still incomplete.
pub open spec fn unframe_spec(d: Seq<u8>) -> Option<(Seq<u8>, int)> {
    if d.len() >= 4 {
        let n = be32_val(d);
        if d.len() >= 4 + n {
            Some((d.subrange(4, 4 + n), 4 + n))
        } else {
            None
        }
    } else {
        None
    }
}

/// Framing round trip: a framed payload followed by anything parses back
/// to the payload, consuming the frame exactly.
pub proof fn lemma_frame_round_trip(p: Seq<u8>, rest: Seq<u8>)
    requires
        p.len() <= u32::MAX,
    ensures
        unframe_spec(frame_spec(p) + rest) == Some((p, 4 + p.len() as int)),
{
    let x = p.len() as u32;
    let d = frame_spec(p) + rest;
    assert(x / 0x1000000 * 0x1000000 + x / 0x10000 % 0x100 * 0x10000 + x / 0x100 % 0x100 * 0x100
        + x % 0x100 == x) by (bit_vector);
    assert(x / 0x1000000 < 0x100 && x / 0x10000 % 0x100 < 0x100 && x / 0x100 % 0x100 < 0x100 && x
        % 0x100 < 0x100) by (bit_vector);
    assert(d[0] == (x / 0x1000000) as u8 && d[1] == ((x / 0x10000) % 0x100) as u8 && d[2] == ((x
        / 0x100) % 0x100) as u8 && d[3] == (x % 0x100) as u8);
    assert(be32_val(d) == p.len());
    assert(d.subrange(4, 4 + p.len() as int) =~= p);
}

/// Wrap a payload in a length-delimited frame. A payload too long for the
/// four-byte length field is refused.
pub fn frame_payload(p: &[u8]) -> (r: Result<Vec<u8>, KvsError>)
    ensures
        p@.len() <= u32::MAX ==> (r matches Ok(f) && f@ == frame_spec(p@)),
        p@.len() > u32::MAX ==> r is Err,
{
    if p.len() as u64 > 0xFFFF_FFFFu64 {
        return Err(KvsError::Serde(String::from_str("payload too long to frame")));
    }
    let n = p.len() as u32;
    let mut out: Vec<u8> = Vec::new();
    out.push((n / 0x1000000) as u8);
    out.push(((n / 0x10000) % 0x100) as u8);
    out.push(((n / 0x100) % 0x100) as u8);
    out.push((n % 0x100) as u8);
    push_bytes(&mut out, p);
    proof {
        assert(out@ =~= frame_spec(p@));
    }
    Ok(out)
}

/// Split one frame off the front of `d`; `None` while the frame is not yet
/// complete.
pub fn unframe_payload(d: &[u8]) -> (r: Option<(Vec<u8>, usize)>)
    ensures
        match unframe_spec(d@) {
            Some((p, n)) => r matches Some(pr) && pr.0@ == p && pr.1 == n,
            None => r is None,
        },
{
    if d.len() < 4 {
        return None;
    }
    let ln: usize = (d[0] as usize) * 0x1000000 + (d[1] as usize) * 0x10000 + (d[2] as usize)
        * 0x100 + (d[3] as usize);
    proof {
        assert(ln == be32_val(d@));
    }
    if d.len() - 4 < ln {
        return None;
    }
    let mut p: Vec<u8> = Vec::new();
    let mut i: usize = 0;
    while i < ln
        invariant
            i <= ln,
            4 + ln <= d@.len(),
            d@.len() <= usize::MAX,
            p@ == d@.subrange(4, 4 + i as int),
        decreases ln - i,
    {
        p.push(d[4 + i]);
        proof {
            assert(p@ =~= d@.subrange(4, 4 + i as int + 1));
        }
        i += 1;
    }
    Some((p, 4 + ln))
}

/// Encode one request into its canonical payload bytes.
pub fn encode_request(req: &Request) -> (out: Vec<u8>)
    ensures
        out@ == req_json(req@),
{
    let mut out: Vec<u8> = Vec::new();
    let end: [u8; 2] = [0x7D, 0x7D];
    proof {
        assert(end@ =~= lit_objs_end());
    }
    match req {
        Request::Put { key, value } => {
            let pre: [u8; 14] = [
                0x7B,
                0x22,
                0x53,
                0x65,
                0x74,
                0x22,
                0x3A,
                0x7B,
                0x22,
                0x6B,
                0x65,
                0x79,
                0x22,
                0x3A,
            ];
            let mid: [u8; 9] = [0x2C, 0x22, 0x76, 0x61, 0x6C, 0x75, 0x65, 0x22, 0x3A];
            proof {
                assert(pre@ =~= lit_set_pre());
                assert(mid@ =~= lit_val_mid());
            }
            push_bytes(&mut out, pre.as_slice());
            push_json_string(&mut out, key.as_str().as_bytes());
            push_bytes(&mut out, mid.as_slice());
            push_json_string(&mut out, value.as_str().as_bytes());
            push_bytes(&mut out, end.as_slice());
            proof {
                assert(out@ =~= req_json(req@));
            }
        },
        Request::Get { key } => {
            let pre: [u8; 14] = [
                0x7B,
                0x22,
                0x47,
                0x65,
                0x74,
                0x22,
                0x3A,
                0x7B,
                0x22,
                0x6B,
                0x65,
                0x79,
                0x22,
                0x3A,
            ];
            proof {
                assert(pre@ =~= lit_get_pre());
            }
            push_bytes(&mut out, pre.as_slice());
            push_json_string(&mut out, key.as_str().as_bytes());
            push_bytes(&mut out, end.as_slice());
            proof {
                assert(out@ =~= req_json(req@));
            }
        },
        Request::Rm { key } => {
            let pre: [u8; 13] = [
                0x7B,
                0x22,
                0x52,
                0x6D,
                0x22,
                0x3A,
                0x7B,
                0x22,
                0x6B,
                0x65,
                0x79,
                0x22,
                0x3A,
            ];
            proof {
                assert(pre@ =~= lit_rm_pre());
            }
            push_bytes(&mut out, pre.as_slice());
            push_json_string(&mut out, key.as_str().as_bytes());
            push_bytes(&mut out, end.as_slice());
            proof {
                assert(out@ =~= req_json(req@));
            }
        },
    }
    out
}

/// Encode one response into its canonical payload bytes.
pub fn encode_response(resp: &Response) -> (out: Vec<u8>)
    ensures
        out@ == resp_json(resp@),
{
    let mut out: Vec<u8> = Vec::new();
    match resp {
        Response::Value(o) => {
            let pre: [u8; 6] = [0x7B, 0x22, 0x4F, 0x6B, 0x22, 0x3A];
            proof {
                assert(pre@ =~= lit_ok_pre());
            }
            push_bytes(&mut out, pre.as_slice());
            match o {
                Some(v) => {
                    push_json_string(&mut out, v.as_str().as_bytes());
                },
                None => {
                    let null_lit: [u8; 4] = [0x6E, 0x75, 0x6C, 0x6C];
                    proof {
                        assert(null_lit@ =~= lit_null());
                    }
                    push_bytes(&mut out, null_lit.as_slice());
                },
            }
            out.push(0x7D);
            proof {
                assert(out@ =~= resp_json(resp@));
            }
        },
        Response::Error(m) => {
            let pre: [u8; 7] = [0x7B, 0x22, 0x45, 0x72, 0x72, 0x22, 0x3A];
            proof {
                assert(pre@ =~= lit_err_pre());
            }
            push_bytes(&mut out, pre.as_slice());
            push_json_string(&mut out, m.as_str().as_bytes());
            out.push(0x7D);
            proof {
                assert(out@ =~= resp_json(resp@));
            }
        },
    }
    out
}

/// Decode a whole request payload; trailing bytes are refused.
pub fn decode_request(d: &[u8]) -> (r: Option<Request>)
    ensures
        match parse_req(d@) {
            Some((q, n)) => if n == d@.len() {
                r matches Some(rq) && rq@ == q
            } else {
                r is None
            },
            None => r is None,
        },
{
    let set_pre: [u8; 14] = [
        0x7B,
        0x22,
        0x53,
        0x65,
        0x74,
        0x22,
        0x3A,
        0x7B,
        0x22,
        0x6B,
        0x65,
        0x79,
        0x22,
        0x3A,
    ];
    let get_pre: [u8; 14] = [
        0x7B,
        0x22,
        0x47,
        0x65,
        0x74,
        0x22,
        0x3A,
        0x7B,
        0x22,
        0x6B,
        0x65,
        0x79,
        0x22,
        0x3A,
    ];
    let rm_pre: [u8; 13] = [
        0x7B,
        0x22,
        0x52,
        0x6D,
        0x22,
        0x3A,
        0x7B,
        0x22,
        0x6B,
        0x65,
        0x79,
        0x22,
        0x3A,
    ];
    let mid: [u8; 9] = [0x2C, 0x22, 0x76, 0x61, 0x6C, 0x75, 0x65, 0x22, 0x3A];
    let end: [u8; 2] = [0x7D, 0x7D];
    let dlen = d.len();
    proof {
        assert(dlen == d@.len());
        assert(set_pre@ =~= lit_set_pre());
        assert(get_pre@ =~= lit_get_pre());
        assert(rm_pre@ =~= lit_rm_pre());
        assert(mid@ =~= lit_val_mid());
        assert(end@ =~= lit_objs_end());
        assert(d@.skip(0) =~= d@);
    }
    if match_lit(d, 0, set_pre.as_slice()) {
        let r1 = match parse_jstring_at(d, 14) {
            Some(p) => p,
            None => {
                return None;
            },
        };
        let (kb, e1) = r1;
        let ghost kbs = kb@;
        if !match_lit(d, e1, mid.as_slice()) {
            return None;
        }
        let r2 = match parse_jstring_at(d, e1 + 9) {
            Some(p) => p,
            None => {
                return None;
            },
        };
        let (vb, e2) = r2;
        let ghost vbs = vb@;
        if !match_lit(d, e2, end.as_slice()) {
            return None;
        }
        proof {
            assert(parse_field2(d@, lit_set_pre(), lit_val_mid(), lit_objs_end()) == Some(
                ((kbs, vbs), e2 + 2),
            ));
        }
        if e2 + 2 != dlen {
            return None;
        }
        let key = match bytes_to_string(kb) {
            Some(s) => s,
            None => {
                return None;
            },
        };
        let value = match bytes_to_string(vb) {
            Some(s) => s,
            None => {
                return None;
            },
        };
        Some(Request::Put { key, value })
    } else if match_lit(d, 0, get_pre.as_slice()) {
        let r1 = match parse_jstring_at(d, 14) {
            Some(p) => p,
            None => {
                return None;
            },
        };
        let (kb, e1) = r1;
        let ghost kbs = kb@;
        if !match_lit(d, e1, end.as_slice()) {
            return None;
        }
        proof {
            assert(parse_field1(d@, lit_get_pre(), lit_objs_end()) == Some((kbs, e1 + 2)));
        }
        if e1 + 2 != dlen {
            return None;
        }
        let key = match bytes_to_string(kb) {
            Some(s) => s,
            None => {
                return None;
            },
        };
        Some(Request::Get { key })
    } else if match_lit(d, 0, rm_pre.as_slice()) {
        let r1 = match parse_jstring_at(d, 13) {
            Some(p) => p,
            None => {
                return None;
            },
        };
        let (kb, e1) = r1;
        let ghost kbs = kb@;
        if !match_lit(d, e1, end.as_slice()) {
            return None;
        }
        proof {
            assert(parse_field1(d@, lit_rm_pre(), lit_objs_end()) == Some((kbs, e1 + 2)));
        }
        if e1 + 2 != dlen {
            return None;
        }
        let key = match bytes_to_string(kb) {
            Some(s) => s,
            None => {
                return None;
            },
        };
        Some(Request::Rm { key })
    } else {
        None
    }
}

/// Decode a whole response payload; trailing bytes are refused.
pub fn decode_response(d: &[u8]) -> (r: Option<Response>)
    ensures
        match parse_resp(d@) {
            Some((p, n)) => if n == d@.len() {
                r matches Some(rp) && rp@ == p
            } else {
                r is None
            },
            None => r is None,
        },
{
    let ok_pre: [u8; 6] = [0x7B, 0x22, 0x4F, 0x6B, 0x22, 0x3A];
    let err_pre: [u8; 7] = [0x7B, 0x22, 0x45, 0x72, 0x72, 0x22, 0x3A];
    let null_lit: [u8; 4] = [0x6E, 0x75, 0x6C, 0x6C];
    let end1: [u8; 1] = [0x7D];
    let dlen = d.len();
    proof {
        assert(dlen == d@.len());
        assert(ok_pre@ =~= lit_ok_pre());
        assert(err_pre@ =~= lit_err_pre());
        assert(null_lit@ =~= lit_null());
        assert(end1@ =~= lit_obj_end());
        assert(d@.skip(0) =~= d@);
    }
    if match_lit(d, 0, ok_pre.as_slice()) {
        if match_lit(d, 6, null_lit.as_slice()) {
            if !match_lit(d, 10, end1.as_slice()) {
                return None;
            }
            if dlen != 11 {
                return None;
            }
            Some(Response::Value(None))
        } else {
            let r1 = match parse_jstring_at(d, 6) {
                Some(p) => p,
                None => {
                    return None;
                },
            };
            let (vb, e1) = r1;
            let ghost vbs = vb@;
            if !match_lit(d, e1, end1.as_slice()) {
                return None;
            }
            proof {
                assert(parse_field1(d@, lit_ok_pre(), lit_obj_end()) == Some((vbs, e1 + 1)));
            }
            if e1 + 1 != dlen {
                return None;
            }
            let value = match bytes_to_string(vb) {
                Some(s) => s,
                None => {
                    return None;
                },
            };
            Some(Response::Value(Some(value)))
        }
    } else if match_lit(d, 0, err_pre.as_slice()) {
        let r1 = match parse_jstring_at(d, 7) {
            Some(p) => p,
            None => {
                return None;
            },
        };
        let (mb, e1) = r1;
        let ghost mbs = mb@;
        if !match_lit(d, e1, end1.as_slice()) {
            return None;
        }
        proof {
            assert(parse_field1(d@, lit_err_pre(), lit_obj_end()) == Some((mbs, e1 + 1)));
        }
        if e1 + 1 != dlen {
            return None;
        }
        let msg = match bytes_to_string(mb) {
            Some(s) => s,
            None => {
                return None;
            },
        };
        Some(Response::Error(msg))
    } else {
        None
    }
}

impl Response {
    /// What a `set` caller makes of this response: success is unit, a
    /// server-side error becomes a typed error carrying the message.
    pub fn into_set_result(self) -> (r: Result<(), KvsError>)
        ensures
            self@ matches ResponseV::Value(_) ==> r is Ok,
            self@ matches ResponseV::Error(m) ==> (r matches Err(e) && e matches
                KvsError::OtherError(s) && s@ == m),
    {
        match self {
            Response::Value(_) => Ok(()),
            Response::Error(m) => Err(KvsError::OtherError(m)),
        }
    }

    /// What a `get` caller makes of this response: the optional value.
    pub fn into_get_result(self) -> (r: Result<Option<String>, KvsError>)
        ensures
            self matches Response::Value(o) ==> (r matches Ok(ro) && ro == o),
            self@ matches ResponseV::Error(m) ==> (r matches Err(e) && e matches
                KvsError::OtherError(s) && s@ == m),
    {
        match self {
            Response::Value(o) => Ok(o),
            Response::Error(m) => Err(KvsError::OtherError(m)),
        }
    }

    /// What a `remove` caller makes of this response.
    pub fn into_remove_result(self) -> (r: Result<(), KvsError>)
        ensures
            self@ matches ResponseV::Value(_) ==> r is Ok,
            self@ matches ResponseV::Error(m) ==> (r matches Err(e) && e matches
                KvsError::OtherError(s) && s@ == m),
    {
        match self {
            Response::Value(_) => Ok(()),
            Response::Error(m) => Err(KvsError::OtherError(m)),
        }
    }
}

} // verus!
