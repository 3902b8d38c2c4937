use kvs::{
    decode_request, decode_response, encode_request, encode_response, frame_payload,
    unframe_payload, Request, Response,
};

fn assert_request_round_trip(req: Request) -> Request {
    let payload = encode_request(&req);
    decode_request(payload.as_slice()).expect("a canonical request payload must decode")
}

fn assert_response_round_trip(resp: Response) -> Response {
    let payload = encode_response(&resp);
    decode_response(payload.as_slice()).expect("a canonical response payload must decode")
}

#[test]
fn request_set_round_trip() {
    let back = assert_request_round_trip(Request::Put {
        key: "key1".to_owned(),
        value: "value1".to_owned(),
    });
    assert!(matches!(back, Request::Put { key, value } if key == "key1" && value == "value1"));
}

#[test]
fn request_get_round_trip() {
    let back = assert_request_round_trip(Request::Get { key: "some key".to_owned() });
    assert!(matches!(back, Request::Get { key } if key == "some key"));
}

#[test]
fn request_rm_round_trip() {
    let back = assert_request_round_trip(Request::Rm { key: "k".to_owned() });
    assert!(matches!(back, Request::Rm { key } if key == "k"));
}

#[test]
fn request_escapes_round_trip() {
    let key = "a\"b\\c\nd\u{1f}e".to_owned();
    let value = "emoji \u{1F600} and text".to_owned();
    let back = assert_request_round_trip(Request::Put { key: key.clone(), value: value.clone() });
    assert!(matches!(back, Request::Put { key: k, value: v } if k == key && v == value));
}

#[test]
fn request_wire_form_is_json() {
    let payload = encode_request(&Request::Put { key: "k".to_owned(), value: "v".to_owned() });
    assert_eq!(payload.as_slice(), &br#"{"Set":{"key":"k","value":"v"}}"#[..]);
    let get = encode_request(&Request::Get { key: "k".to_owned() });
    assert_eq!(get.as_slice(), &br#"{"Get":{"key":"k"}}"#[..]);
    let rm = encode_request(&Request::Rm { key: "k".to_owned() });
    assert_eq!(rm.as_slice(), &br#"{"Rm":{"key":"k"}}"#[..]);
}

#[test]
fn response_round_trips() {
    let back = assert_response_round_trip(Response::Value(Some("value1".to_owned())));
    assert!(matches!(back, Response::Value(Some(v)) if v == "value1"));

    let back = assert_response_round_trip(Response::Value(None));
    assert!(matches!(back, Response::Value(None)));

    let back = assert_response_round_trip(Response::Error("err: Key not found".to_owned()));
    assert!(matches!(back, Response::Error(m) if m == "err: Key not found"));
}

#[test]
fn response_wire_form_is_json() {
    let ok_none = encode_response(&Response::Value(None));
    assert_eq!(ok_none.as_slice(), &br#"{"Ok":null}"#[..]);
    let ok_some = encode_response(&Response::Value(Some("v".to_owned())));
    assert_eq!(ok_some.as_slice(), &br#"{"Ok":"v"}"#[..]);
    let err = encode_response(&Response::Error("m".to_owned()));
    assert_eq!(err.as_slice(), &br#"{"Err":"m"}"#[..]);
}

#[test]
fn malformed_payloads_are_refused() {
    assert!(decode_request(b"{\"Put\":{\"key\":\"k\"}}").is_none());
    assert!(decode_request(b"garbage").is_none());
    assert!(decode_request(b"").is_none());
    // trailing bytes after a complete payload are refused
    assert!(decode_request(b"{\"Get\":{\"key\":\"k\"}}x").is_none());
    assert!(decode_response(b"{\"Ok\":nul}").is_none());
}

#[test]
fn frame_round_trip() {
    let req = Request::Get { key: "key1".to_owned() };
    let payload = encode_request(&req);
    let frame = frame_payload(payload.as_slice()).unwrap();
    assert_eq!(frame.len(), payload.len() + 4);
    // four-byte big-endian length prefix
    assert_eq!(frame[0], 0);
    assert_eq!(frame[1], 0);
    assert_eq!(frame[2], 0);
    assert_eq!(frame[3], payload.len() as u8);

    let (back, consumed) = unframe_payload(frame.as_slice()).unwrap();
    assert_eq!(consumed, frame.len());
    assert_eq!(back, payload);
}

#[test]
fn incomplete_frame_waits() {
    let payload = encode_request(&Request::Get { key: "key1".to_owned() });
    let frame = frame_payload(payload.as_slice()).unwrap();
    // a partial frame parses to nothing until the rest arrives
    assert!(unframe_payload(&frame.as_slice()[..3]).is_none());
    assert!(unframe_payload(&frame.as_slice()[..frame.len() - 1]).is_none());
}

#[test]
fn response_interpretation() {
    assert!(Response::Value(None).into_set_result().is_ok());
    assert_eq!(
        Response::Value(Some("v".to_owned())).into_get_result().unwrap(),
        Some("v".to_owned())
    );
    let err = Response::Error("boom".to_owned()).into_remove_result().unwrap_err();
    assert!(matches!(err, kvs::KvsError::OtherError(m) if m == "boom"));
}
