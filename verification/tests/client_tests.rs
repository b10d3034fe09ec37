use tog::client::{hash_from_reply, Client, ClientError, Connection};
use tog::proto::{ProtoError, Request, Response};

/// A connection that records requests and answers with canned replies.
struct Canned {
    sent: Vec<Request>,
    replies: Vec<Result<Response, ClientError>>,
}

impl Connection for Canned {
    fn round_trip(&mut self, req: Request) -> Result<Response, ClientError> {
        self.sent.push(req);
        self.replies.remove(0)
    }
}

fn client(replies: Vec<Result<Response, ClientError>>) -> Client<Canned> {
    Client::new(Canned { sent: Vec::new(), replies })
}

#[test]
fn send_returns_the_hash() {
    let mut c = client(vec![Ok(Response::Hash("0xab".into()))]);
    assert_eq!(c.send_raw_transaction("0x02").unwrap(), "0xab");
}

#[test]
fn server_errors_become_client_errors() {
    let mut c = client(vec![
        Ok(Response::Error("bad".into())),
        Ok(Response::Error("worse".into())),
        Ok(Response::Error("worst".into())),
    ]);
    assert!(matches!(c.send_raw_transaction("0x02"), Err(ClientError::Server(m)) if m == "bad"));
    assert!(matches!(c.get_raw_transactions(), Err(ClientError::Server(m)) if m == "worse"));
    assert!(matches!(c.get_best_transaction_hashes(), Err(ClientError::Server(m)) if m == "worst"));
}

#[test]
fn wrong_reply_kind_is_unexpected() {
    let mut c = client(vec![
        Ok(Response::RawTransactions(vec![])),
        Ok(Response::Hash("0x01".into())),
        Ok(Response::RawTransactions(vec!["0x02".into()])),
    ]);
    match c.send_raw_transaction("0x02") {
        Err(ClientError::Unexpected(m)) => assert_eq!(m, "RawTransactions([])"),
        other => panic!("unexpected {other:?}"),
    }
    assert!(matches!(c.get_raw_transactions(), Err(ClientError::Unexpected(m)) if m == r#"Hash("0x01")"#));
    assert!(matches!(c.get_best_transaction_hashes(), Err(ClientError::Unexpected(m)) if m == r#"RawTransactions(["0x02"])"#));
}

#[test]
fn lists_come_back_unchanged() {
    let mut c = client(vec![
        Ok(Response::RawTransactions(vec!["0x01".into(), "0x02".into()])),
        Ok(Response::BestTransactionHashes(vec!["0x03".into()])),
    ]);
    assert_eq!(c.get_raw_transactions().unwrap(), vec!["0x01".to_string(), "0x02".to_string()]);
    assert_eq!(c.get_best_transaction_hashes().unwrap(), vec!["0x03".to_string()]);
}

#[test]
fn transport_errors_pass_through() {
    let mut c = client(vec![Err(ClientError::Proto(ProtoError::FrameTooLarge(9)))]);
    assert!(matches!(c.send_raw_transaction("0x02"), Err(ClientError::Proto(ProtoError::FrameTooLarge(9)))));
}

#[test]
fn requests_carry_the_operation() {
    let mut conn = Canned {
        sent: Vec::new(),
        replies: vec![Ok(Response::Hash("0x".into()))],
    };
    conn.round_trip(Request::SendRawTransaction("0xff".into())).unwrap();
    assert_eq!(conn.sent, vec![Request::SendRawTransaction("0xff".into())]);
    assert!(matches!(hash_from_reply(Ok(Response::Hash("0x1".into()))), Ok(h) if h == "0x1"));
}

#[test]
fn client_error_messages() {
    assert_eq!(ClientError::Server("x".into()).message(), "enclave error: x");
    assert_eq!(ClientError::Tls("y".into()).message(), "tls: y");
    assert_eq!(ClientError::Unexpected("z".into()).message(), "unexpected response: z");
    assert_eq!(
        ClientError::Proto(ProtoError::FrameTooLarge(3)).message(),
        "protocol: frame too large: 3 bytes (max 10485760)"
    );
    let e: ClientError = std::io::Error::new(std::io::ErrorKind::Other, "gone").into();
    assert_eq!(e.message(), "io: gone");
    let p: ClientError = ProtoError::FrameTooLarge(1).into();
    assert!(matches!(p, ClientError::Proto(ProtoError::FrameTooLarge(1))));
}

#[test]
fn unexpected_text_escapes_like_debug() {
    let mut c = client(vec![
        Ok(Response::Hash("a\"b\\c\n".into())),
        Ok(Response::BestTransactionHashes(vec!["x".into(), "é".into()])),
    ]);
    match c.get_raw_transactions() {
        Err(ClientError::Unexpected(m)) => assert_eq!(m, format!("{:?}", Response::Hash("a\"b\\c\n".into()))),
        other => panic!("unexpected {other:?}"),
    }
    match c.send_raw_transaction("0x02") {
        Err(ClientError::Unexpected(m)) => assert_eq!(m, r#"BestTransactionHashes(["x", "é"])"#),
        other => panic!("unexpected {other:?}"),
    }
}
