use serde_json::Value;
use tog::proto::{encode_frame, frame_len, ProtoError, Request, Response, MAX_FRAME_BYTES};

/// The JSON document of a request: `{"method": .., "params": ..}`.
fn request_json(req: &Request) -> Vec<u8> {
    let mut m = serde_json::Map::new();
    match req {
        Request::SendRawTransaction(s) => {
            m.insert("method".to_string(), Value::String("sendRawTransaction".to_string()));
            m.insert("params".to_string(), Value::String(s.clone()));
        }
        Request::GetRawTransactions => {
            m.insert("method".to_string(), Value::String("getRawTransactions".to_string()));
        }
        Request::GetBestTransactionHashes => {
            m.insert("method".to_string(), Value::String("getBestTransactionHashes".to_string()));
        }
    }
    serde_json::to_vec(&Value::Object(m)).unwrap()
}

fn request_from_json(body: &[u8]) -> Request {
    let v: Value = serde_json::from_slice(body).unwrap();
    match v["method"].as_str().unwrap() {
        "sendRawTransaction" => Request::SendRawTransaction(v["params"].as_str().unwrap().to_string()),
        "getRawTransactions" => Request::GetRawTransactions,
        "getBestTransactionHashes" => Request::GetBestTransactionHashes,
        other => panic!("unknown method {other}"),
    }
}

fn strings(v: &[String]) -> Value {
    Value::Array(v.iter().map(|s| Value::String(s.clone())).collect())
}

fn from_strings(v: &Value) -> Vec<String> {
    v.as_array().unwrap().iter().map(|s| s.as_str().unwrap().to_string()).collect()
}

/// The JSON document of a response: `{"result": .., "data": ..}`.
fn response_json(resp: &Response) -> Vec<u8> {
    let mut m = serde_json::Map::new();
    let (tag, data) = match resp {
        Response::Hash(h) => ("hash", Value::String(h.clone())),
        Response::RawTransactions(v) => ("rawTransactions", strings(v)),
        Response::BestTransactionHashes(v) => ("bestTransactionHashes", strings(v)),
        Response::Error(e) => ("error", Value::String(e.clone())),
    };
    m.insert("result".to_string(), Value::String(tag.to_string()));
    m.insert("data".to_string(), data);
    serde_json::to_vec(&Value::Object(m)).unwrap()
}

fn response_from_json(body: &[u8]) -> Response {
    let v: Value = serde_json::from_slice(body).unwrap();
    match v["result"].as_str().unwrap() {
        "hash" => Response::Hash(v["data"].as_str().unwrap().to_string()),
        "rawTransactions" => Response::RawTransactions(from_strings(&v["data"])),
        "bestTransactionHashes" => Response::BestTransactionHashes(from_strings(&v["data"])),
        "error" => Response::Error(v["data"].as_str().unwrap().to_string()),
        other => panic!("unknown result {other}"),
    }
}

/// Splits one frame off the front of `buf`: its body.
fn read_body(buf: &[u8]) -> Vec<u8> {
    let len = frame_len([buf[0], buf[1], buf[2], buf[3]]).unwrap();
    buf[4..4 + len].to_vec()
}

#[test]
fn round_trips_over_a_pipe() {
    let req = Request::SendRawTransaction("0xdeadbeef".into());
    let buf = encode_frame(&request_json(&req)).unwrap();
    let got = request_from_json(&read_body(&buf));
    assert_eq!(req, got);
}

#[test]
fn response_variants_serialize_distinctly() {
    for resp in [
        Response::Hash("0x01".into()),
        Response::RawTransactions(vec!["0x02".into()]),
        Response::BestTransactionHashes(vec!["0x03".into()]),
        Response::Error("nope".into()),
    ] {
        let buf = encode_frame(&response_json(&resp)).unwrap();
        let got = response_from_json(&read_body(&buf));
        assert_eq!(resp, got);
    }
}

#[test]
fn unit_requests_round_trip() {
    for req in [Request::GetRawTransactions, Request::GetBestTransactionHashes] {
        let buf = encode_frame(&request_json(&req)).unwrap();
        assert_eq!(request_from_json(&read_body(&buf)), req);
    }
}

#[test]
fn frame_is_big_endian_length_then_body() {
    assert_eq!(encode_frame(b"ab").unwrap(), vec![0, 0, 0, 2, b'a', b'b']);
    assert_eq!(encode_frame(&[]).unwrap(), vec![0, 0, 0, 0]);
    let body = vec![7u8; 0x0102];
    let f = encode_frame(&body).unwrap();
    assert_eq!(&f[..4], &[0, 0, 1, 2]);
    assert_eq!(&f[4..], &body[..]);
}

#[test]
fn frame_len_reads_big_endian() {
    assert_eq!(frame_len([0, 0, 1, 2]).unwrap(), 258);
    assert_eq!(frame_len([0, 0, 0, 0]).unwrap(), 0);
    assert_eq!(frame_len([0, 0xa0, 0, 0]).unwrap(), MAX_FRAME_BYTES);
}

#[test]
fn oversized_frames_are_refused() {
    let body = vec![0u8; MAX_FRAME_BYTES + 1];
    assert!(matches!(encode_frame(&body), Err(ProtoError::FrameTooLarge(n)) if n == MAX_FRAME_BYTES + 1));
    assert!(matches!(frame_len([0, 0xa0, 0, 1]), Err(ProtoError::FrameTooLarge(n)) if n == MAX_FRAME_BYTES + 1));
    assert!(matches!(frame_len([0xff, 0xff, 0xff, 0xff]), Err(ProtoError::FrameTooLarge(n)) if n == 0xffff_ffff));
    let max = vec![1u8; MAX_FRAME_BYTES];
    assert_eq!(encode_frame(&max).unwrap().len(), MAX_FRAME_BYTES + 4);
}

#[test]
fn proto_error_messages() {
    assert_eq!(ProtoError::FrameTooLarge(11).message(), "frame too large: 11 bytes (max 10485760)");
    let io = ProtoError::Io(std::io::Error::new(std::io::ErrorKind::Other, "pipe"));
    assert_eq!(io.message(), "io: pipe");
}
