//! Client side of the framed protocol: one request/response round trip per
//! operation over a connection that stays open across calls.

use vstd::prelude::*;
use vstd::string::StringExecFns;
use vstd::string::StrSliceExecFns;
use crate::proto::{proto_text, ProtoError, Request, Response};
use vstd::string::to_string_from_display_ensures;
use crate::chain::{sign_eip1559_2718, signed_eip1559_2718};
use crate::hexcodec::{hex0x, hex_encode_spec};

verus! {

/// Why a client operation failed.
#[derive(Debug)]
pub enum ClientError {
    Io(std::io::Error),
    Proto(ProtoError),
    /// The enclave answered with a handled error (bad hex, decoding or recovery failure).
    Server(String),
    /// TLS handshake or certificate verification failed.
    Tls(String),
    /// The enclave answered with a reply of the wrong kind.
    Unexpected(String),
}

impl ClientError {
    /// The human-readable message of the error.
    pub fn message(&self) -> (res: String)
        ensures
            self matches ClientError::Server(m) ==> res@ == "enclave error: "@ + m@,
            self matches ClientError::Tls(m) ==> res@ == "tls: "@ + m@,
            self matches ClientError::Unexpected(m) ==> res@ == "unexpected response: "@ + m@,
            self matches ClientError::Io(_) ==> res@.subrange(0, 4) == "io: "@,
            self matches ClientError::Proto(_) ==> res@.subrange(0, 10) == "protocol: "@,
            self matches ClientError::Io(e) ==> exists|t: String|
                #[trigger] to_string_from_display_ensures::<std::io::Error>(&e, t) && res@ == "io: "@ + t@,
            self matches ClientError::Proto(e) ==> exists|m: String|
                #[trigger] proto_text(*e, m@) && res@ == "protocol: "@ + m@,
    {
        match self {
            ClientError::Io(e) => {
                let mut s = String::from_str("io: ");
                proof {
                    reveal_strlit("io: ");
                }
                let ghost head = s@;
                let t = e.to_string();
                s.append(t.as_str());
                assert(s@.subrange(0, 4) =~= head);
                assert(to_string_from_display_ensures::<std::io::Error>(e, t) && s@ == "io: "@ + t@);
                s
            },
            ClientError::Proto(e) => {
                let mut s = String::from_str("protocol: ");
                proof {
                    reveal_strlit("protocol: ");
                }
                let ghost head = s@;
                let m = e.message();
                s.append(m.as_str());
                assert(s@.subrange(0, 10) =~= head);
                assert(proto_text(*e, m@) && s@ == "protocol: "@ + m@);
                s
            },
            ClientError::Server(m) => {
                let mut s = String::from_str("enclave error: ");
                s.append(m.as_str());
                s
            },
            ClientError::Tls(m) => {
                let mut s = String::from_str("tls: ");
                s.append(m.as_str());
                s
            },
            ClientError::Unexpected(m) => {
                let mut s = String::from_str("unexpected response: ");
                s.append(m.as_str());
                s
            },
        }
    }
}

impl From<std::io::Error> for ClientError {
    fn from(e: std::io::Error) -> (r: Self) {
        ClientError::Io(e)
    }
}

impl vstd::std_specs::convert::FromSpecImpl<std::io::Error> for ClientError {
    open spec fn obeys_from_spec() -> bool {
        true
    }

    open spec fn from_spec(e: std::io::Error) -> Self {
        ClientError::Io(e)
    }
}

impl From<ProtoError> for ClientError {
    fn from(e: ProtoError) -> (r: Self) {
        ClientError::Proto(e)
    }
}

impl vstd::std_specs::convert::FromSpecImpl<ProtoError> for ClientError {
    open spec fn obeys_from_spec() -> bool {
        true
    }

    open spec fn from_spec(e: ProtoError) -> Self {
        ClientError::Proto(e)
    }
}

/// A connection that carries one framed request and brings back one framed reply.
///
/// The connection is supplied by the user of the client. One that keeps the
/// records `sent` and `received` says so with `records`, and then promises that
/// each round trip adds its request and its reply to them. By default a
/// connection keeps no records and promises nothing about them.
pub trait Connection {
    /// Whether the connection keeps the records `sent` and `received`.
    closed spec fn records(&self) -> bool {
        false
    }

    /// The requests written to the connection so far, oldest first.
    closed spec fn sent(&self) -> Seq<Request> {
        Seq::empty()
    }

    /// The replies handed back so far, oldest first, one per request.
    closed spec fn received(&self) -> Seq<Result<Response, ClientError>> {
        Seq::empty()
    }

    /// Writes `req` as a frame and reads the reply frame; on a connection that
    /// keeps records, the request and the reply handed back become the newest
    /// of `sent` and `received`.
    fn round_trip(&mut self, req: Request) -> (res: Result<Response, ClientError>)
        ensures
            old(self).records() ==> final(self).records(),
            old(self).records() ==> final(self).sent() == old(self).sent().push(req),
            old(self).records() ==> final(self).received() == old(self).received().push(res),
    ;
}

/// std's `Debug` text of a string: the string in double quotes, with quotes,
/// backslashes, control and non-printable characters escaped.
pub uninterp spec fn str_debug(s: Seq<char>) -> Seq<char>;

/// Formats `s` with `format!("{:?}", s)`: std's `Debug` text of a string.
#[verifier::external_body]
fn str_debug_text(s: &str) -> (res: String)
    ensures
        res@ == str_debug(s@),
{
    format!("{:?}", s)
}

/// Printable ASCII other than `"` and `\`: characters that `Debug` leaves as they are.
pub open spec fn plain_text(s: Seq<char>) -> bool {
    forall|i: int| 0 <= i < s.len() ==> is_plain_char(#[trigger] s[i])
}

/// A printable ASCII character other than `"` and `\`.
pub open spec fn is_plain_char(c: char) -> bool {
    0x20 <= (c as u32) <= 0x7e && c != '"' && c != '\\'
}

/// The `Debug` text of a string: plain text is simply put in double quotes.
pub open spec fn quoted(s: Seq<char>) -> Seq<char> {
    if plain_text(s) {
        seq!['"'] + s + seq!['"']
    } else {
        str_debug(s)
    }
}

/// The `Debug` texts of the strings, separated by `, `.
pub open spec fn joined_debug(v: Seq<String>) -> Seq<char>
    decreases v.len(),
{
    if v.len() == 0 {
        Seq::empty()
    } else if v.len() == 1 {
        quoted(v[0]@)
    } else {
        joined_debug(v.drop_last()) + ", "@ + quoted(v.last()@)
    }
}

/// The `Debug` text of a list of strings.
pub open spec fn list_debug(v: Seq<String>) -> Seq<char> {
    "["@ + joined_debug(v) + "]"@
}

/// The `Debug` text of a reply, as `#[derive(Debug)]` writes it.
pub open spec fn response_debug(r: Response) -> Seq<char> {
    match r {
        Response::Hash(h) => "Hash("@ + quoted(h@) + ")"@,
        Response::RawTransactions(v) => "RawTransactions("@ + list_debug(v@) + ")"@,
        Response::BestTransactionHashes(v) => "BestTransactionHashes("@ + list_debug(v@) + ")"@,
        Response::Error(m) => "Error("@ + quoted(m@) + ")"@,
    }
}

/// The `Debug` text laws: plain text is printable ASCII other than `"` and `\`
/// and is put in double quotes as it is; a list is bracketed, with its items'
/// texts separated by `, `; a reply is its variant's name with its field in
/// parentheses.
pub proof fn lemma_debug_text(s: Seq<char>, v: Seq<String>, x: String)
    ensures
        plain_text(s) <==> forall|i: int| 0 <= i < s.len()
            ==> 0x20 <= (#[trigger] s[i] as u32) <= 0x7e && s[i] != '"' && s[i] != '\\',
        plain_text(s) ==> quoted(s) == seq!['"'] + s + seq!['"'],
        list_debug(Seq::empty()) == seq!['[', ']'],
        list_debug(seq![x]) == seq!['['] + quoted(x@) + seq![']'],
        v.len() > 0 ==> list_debug(v.push(x)) == list_debug(v).drop_last() + seq![',', ' '] + quoted(x@) + seq![']'],
        forall|h: String| #[trigger] response_debug(Response::Hash(h))
            == seq!['H', 'a', 's', 'h', '('] + quoted(h@) + seq![')'],
        forall|m: String| #[trigger] response_debug(Response::Error(m))
            == seq!['E', 'r', 'r', 'o', 'r', '('] + quoted(m@) + seq![')'],
{
    reveal_strlit("[");
    reveal_strlit("]");
    reveal_strlit(", ");
    reveal_strlit("Hash(");
    reveal_strlit("Error(");
    reveal_strlit(")");
    assert(list_debug(Seq::empty()) =~= seq!['[', ']']);
    assert(seq![x].len() == 1);
    assert(list_debug(seq![x]) =~= seq!['['] + quoted(x@) + seq![']']);
    if v.len() > 0 {
        let w = v.push(x);
        assert(w.drop_last() =~= v);
        assert(w.last() == x);
        assert(list_debug(v).drop_last() =~= seq!['['] + joined_debug(v));
        assert(list_debug(w) =~= list_debug(v).drop_last() + seq![',', ' '] + quoted(x@) + seq![']']);
    }
    assert forall|h: String| #[trigger] response_debug(Response::Hash(h))
        == seq!['H', 'a', 's', 'h', '('] + quoted(h@) + seq![')'] by {
        assert("Hash("@ =~= seq!['H', 'a', 's', 'h', '(']);
    }
    assert forall|m: String| #[trigger] response_debug(Response::Error(m))
        == seq!['E', 'r', 'r', 'o', 'r', '('] + quoted(m@) + seq![')'] by {
        assert("Error("@ =~= seq!['E', 'r', 'r', 'o', 'r', '(']);
    }
}

fn is_plain(s: &str) -> (r: bool)
    ensures
        r == plain_text(s@),
{
    let n = s.unicode_len();
    let mut i: usize = 0;
    while i < n
        invariant
            n == s@.len(),
            0 <= i <= n,
            forall|k: int| 0 <= k < i ==> is_plain_char(#[trigger] s@[k]),
        decreases n - i,
    {
        let c = s.get_char(i);
        let u = c as u32;
        if !(0x20 <= u && u <= 0x7e && c != '"' && c != '\\') {
            assert(!is_plain_char(s@[i as int]));
            return false;
        }
        i += 1;
    }
    true
}

/// The `Debug` text of a string.
fn debug_quoted(s: &str) -> (res: String)
    ensures
        res@ == quoted(s@),
{
    if is_plain(s) {
        let mut r = String::from_str("\"");
        proof {
            reveal_strlit("\"");
        }
        r.append(s);
        r.append("\"");
        r
    } else {
        str_debug_text(s)
    }
}

/// The `Debug` text of a list of strings.
fn debug_list(v: &Vec<String>) -> (res: String)
    ensures
        res@ == list_debug(v@),
{
    let mut r = String::from_str("[");
    let n = v.len();
    let mut i: usize = 0;
    while i < n
        invariant
            n == v@.len(),
            0 <= i <= n,
            r@ == "["@ + joined_debug(v@.subrange(0, i as int)),
        decreases n - i,
    {
        let ghost before = r@;
        if i > 0 {
            r.append(", ");
        }
        let q = debug_quoted(v[i].as_str());
        r.append(q.as_str());
        proof {
            let next = v@.subrange(0, i as int + 1);
            assert(next.drop_last() =~= v@.subrange(0, i as int));
            assert(next.last() == v@[i as int]);
            if i == 0 {
                assert(v@.subrange(0, 0) =~= Seq::<String>::empty());
                assert(joined_debug(next) == quoted(v@[0]@));
                assert(r@ =~= "["@ + joined_debug(next));
            } else {
                assert(r@ =~= "["@ + joined_debug(next));
            }
        }
        i += 1;
    }
    assert(v@.subrange(0, n as int) =~= v@);
    r.append("]");
    r
}

/// The `Debug` text of a reply.
fn debug_text(r: &Response) -> (res: String)
    ensures
        res@ == response_debug(*r),
{
    let (head, body) = match r {
        Response::Hash(h) => (String::from_str("Hash("), debug_quoted(h.as_str())),
        Response::RawTransactions(v) => (String::from_str("RawTransactions("), debug_list(v)),
        Response::BestTransactionHashes(v) => (String::from_str("BestTransactionHashes("), debug_list(v)),
        Response::Error(m) => (String::from_str("Error("), debug_quoted(m.as_str())),
    };
    let mut res = head;
    res.append(body.as_str());
    res.append(")");
    res
}

/// `res` is what a `SendRawTransaction` gives for `reply`.
pub open spec fn hash_reply(reply: Result<Response, ClientError>, res: Result<String, ClientError>) -> bool {
    match reply {
        Err(e) => res == Err::<String, ClientError>(e),
        Ok(Response::Hash(h)) => res == Ok::<String, ClientError>(h),
        Ok(Response::Error(m)) => res == Err::<String, ClientError>(ClientError::Server(m)),
        Ok(other) => res matches Err(ClientError::Unexpected(s)) && s@ == response_debug(other),
    }
}

/// `res` is what a `GetRawTransactions` gives for `reply`.
pub open spec fn raw_reply(reply: Result<Response, ClientError>, res: Result<Vec<String>, ClientError>) -> bool {
    match reply {
        Err(e) => res == Err::<Vec<String>, ClientError>(e),
        Ok(Response::RawTransactions(v)) => res == Ok::<Vec<String>, ClientError>(v),
        Ok(Response::Error(m)) => res == Err::<Vec<String>, ClientError>(ClientError::Server(m)),
        Ok(other) => res matches Err(ClientError::Unexpected(s)) && s@ == response_debug(other),
    }
}

/// `res` is what a `GetBestTransactionHashes` gives for `reply`.
pub open spec fn best_reply(reply: Result<Response, ClientError>, res: Result<Vec<String>, ClientError>) -> bool {
    match reply {
        Err(e) => res == Err::<Vec<String>, ClientError>(e),
        Ok(Response::BestTransactionHashes(v)) => res == Ok::<Vec<String>, ClientError>(v),
        Ok(Response::Error(m)) => res == Err::<Vec<String>, ClientError>(ClientError::Server(m)),
        Ok(other) => res matches Err(ClientError::Unexpected(s)) && s@ == response_debug(other),
    }
}

/// How each reply to a `SendRawTransaction` is read: a hash is the result, an
/// enclave error becomes `Server`, a transport error passes through, and any other
/// reply is `Unexpected` with its `Debug` text.
pub proof fn lemma_hash_reply_mapping(reply: Result<Response, ClientError>, res: Result<String, ClientError>)
    requires
        hash_reply(reply, res),
    ensures
        forall|h: String| reply == Ok::<Response, ClientError>(Response::Hash(h)) ==> res == Ok::<String, ClientError>(h),
        forall|m: String| reply == Ok::<Response, ClientError>(Response::Error(m))
            ==> res == Err::<String, ClientError>(ClientError::Server(m)),
        forall|e: ClientError| reply == Err::<Response, ClientError>(e) ==> res == Err::<String, ClientError>(e),
        forall|v: Vec<String>| reply == Ok::<Response, ClientError>(Response::RawTransactions(v))
            ==> (res matches Err(ClientError::Unexpected(s)) && s@ == response_debug(Response::RawTransactions(v))),
        forall|v: Vec<String>| reply == Ok::<Response, ClientError>(Response::BestTransactionHashes(v))
            ==> (res matches Err(ClientError::Unexpected(s)) && s@ == response_debug(Response::BestTransactionHashes(v))),
{
}

/// How each reply to a `GetRawTransactions` is read: any list, the empty one
/// included, is the result; an enclave error becomes `Server`; a transport error
/// passes through; any other reply is `Unexpected` with its `Debug` text.
pub proof fn lemma_raw_reply_mapping(reply: Result<Response, ClientError>, res: Result<Vec<String>, ClientError>)
    requires
        raw_reply(reply, res),
    ensures
        forall|v: Vec<String>| reply == Ok::<Response, ClientError>(Response::RawTransactions(v))
            ==> res == Ok::<Vec<String>, ClientError>(v),
        forall|m: String| reply == Ok::<Response, ClientError>(Response::Error(m))
            ==> res == Err::<Vec<String>, ClientError>(ClientError::Server(m)),
        forall|e: ClientError| reply == Err::<Response, ClientError>(e) ==> res == Err::<Vec<String>, ClientError>(e),
        forall|h: String| reply == Ok::<Response, ClientError>(Response::Hash(h))
            ==> (res matches Err(ClientError::Unexpected(s)) && s@ == response_debug(Response::Hash(h))),
        forall|v: Vec<String>| reply == Ok::<Response, ClientError>(Response::BestTransactionHashes(v))
            ==> (res matches Err(ClientError::Unexpected(s)) && s@ == response_debug(Response::BestTransactionHashes(v))),
{
}

/// How each reply to a `GetBestTransactionHashes` is read: any list, the empty
/// one included, is the result; an enclave error becomes `Server`; a transport
/// error passes through; any other reply is `Unexpected` with its `Debug` text.
pub proof fn lemma_best_reply_mapping(reply: Result<Response, ClientError>, res: Result<Vec<String>, ClientError>)
    requires
        best_reply(reply, res),
    ensures
        forall|v: Vec<String>| reply == Ok::<Response, ClientError>(Response::BestTransactionHashes(v))
            ==> res == Ok::<Vec<String>, ClientError>(v),
        forall|m: String| reply == Ok::<Response, ClientError>(Response::Error(m))
            ==> res == Err::<Vec<String>, ClientError>(ClientError::Server(m)),
        forall|e: ClientError| reply == Err::<Response, ClientError>(e) ==> res == Err::<Vec<String>, ClientError>(e),
        forall|h: String| reply == Ok::<Response, ClientError>(Response::Hash(h))
            ==> (res matches Err(ClientError::Unexpected(s)) && s@ == response_debug(Response::Hash(h))),
        forall|v: Vec<String>| reply == Ok::<Response, ClientError>(Response::RawTransactions(v))
            ==> (res matches Err(ClientError::Unexpected(s)) && s@ == response_debug(Response::RawTransactions(v))),
{
}

/// Interprets the reply to a `SendRawTransaction`: the hash, the enclave's
/// error, or an unexpected reply.
pub fn hash_from_reply(reply: Result<Response, ClientError>) -> (res: Result<String, ClientError>)
    ensures
        hash_reply(reply, res),
{
    match reply {
        Err(e) => Err(e),
        Ok(Response::Hash(h)) => Ok(h),
        Ok(Response::Error(m)) => Err(ClientError::Server(m)),
        Ok(other) => Err(ClientError::Unexpected(debug_text(&other))),
    }
}

/// Interprets the reply to a `GetRawTransactions`.
pub fn raw_from_reply(reply: Result<Response, ClientError>) -> (res: Result<Vec<String>, ClientError>)
    ensures
        raw_reply(reply, res),
{
    match reply {
        Err(e) => Err(e),
        Ok(Response::RawTransactions(v)) => Ok(v),
        Ok(Response::Error(m)) => Err(ClientError::Server(m)),
        Ok(other) => Err(ClientError::Unexpected(debug_text(&other))),
    }
}

/// Interprets the reply to a `GetBestTransactionHashes`.
pub fn best_from_reply(reply: Result<Response, ClientError>) -> (res: Result<Vec<String>, ClientError>)
    ensures
        best_reply(reply, res),
{
    match reply {
        Err(e) => Err(e),
        Ok(Response::BestTransactionHashes(v)) => Ok(v),
        Ok(Response::Error(m)) => Err(ClientError::Server(m)),
        Ok(other) => Err(ClientError::Unexpected(debug_text(&other))),
    }
}

/// `after` is `before` with one more round trip recorded: `req` sent and `reply`
/// received.
pub open spec fn exchanged<S: Connection>(before: S, after: S, req: Request, reply: Result<Response, ClientError>) -> bool {
    &&& after.records()
    &&& after.sent() == before.sent().push(req)
    &&& after.received() == before.received().push(reply)
}

/// A connected client.
pub struct Client<S> {
    conn: S,
}

impl<S: Connection> Client<S> {
    /// The connection the client talks over.
    pub closed spec fn connection(&self) -> S {
        self.conn
    }

    pub fn new(conn: S) -> (c: Self)
        ensures
            c.connection() == conn,
    {
        Client { conn }
    }

    /// Sends `req` over the connection and returns its reply.
    fn call(&mut self, req: Request) -> (res: Result<Response, ClientError>)
        ensures
            old(self).connection().records() ==> exchanged(old(self).connection(), final(self).connection(), req, res),
    {
        self.conn.round_trip(req)
    }

    /// `eth_sendRawTransaction`: submits `raw_hex` and returns the hash the
    /// enclave assigned, as its reply says.
    pub fn send_raw_transaction(&mut self, raw_hex: &str) -> (res: Result<String, ClientError>)
        ensures
            old(self).connection().records() ==> exists|s: String, reply: Result<Response, ClientError>| {
                &&& s@ == raw_hex@
                &&& exchanged(old(self).connection(), final(self).connection(), Request::SendRawTransaction(s), reply)
                &&& hash_reply(reply, res)
            },
    {
        let reply = self.call(Request::SendRawTransaction(String::from_str(raw_hex)));
        hash_from_reply(reply)
    }

    /// `tog_getRawTransactions`: drains and returns the enclave's raw buffer.
    pub fn get_raw_transactions(&mut self) -> (res: Result<Vec<String>, ClientError>)
        ensures
            old(self).connection().records() ==> exists|reply: Result<Response, ClientError>| {
                &&& exchanged(old(self).connection(), final(self).connection(), Request::GetRawTransactions, reply)
                &&& raw_reply(reply, res)
            },
    {
        let reply = self.call(Request::GetRawTransactions);
        raw_from_reply(reply)
    }

    /// `tog_getBestTransactionHashes`: the enclave-computed ordering.
    pub fn get_best_transaction_hashes(&mut self) -> (res: Result<Vec<String>, ClientError>)
        ensures
            old(self).connection().records() ==> exists|reply: Result<Response, ClientError>| {
                &&& exchanged(old(self).connection(), final(self).connection(), Request::GetBestTransactionHashes, reply)
                &&& best_reply(reply, res)
            },
    {
        let reply = self.call(Request::GetBestTransactionHashes);
        best_from_reply(reply)
    }
}

/// The sample transaction `sample_raw_tx` signs: on chain 10, a 21 000-gas call
/// of `0xabab…ab` from the key made of 32 copies of `key_byte`, with a fee cap of
/// `priority_fee` plus 1 gwei (`None` when it cannot be signed).
pub open spec fn sample_tx(key_byte: u8, nonce: u64, priority_fee: u128) -> Option<Seq<u8>> {
    signed_eip1559_2718(
        Seq::new(32, |i: int| key_byte),
        10,
        nonce,
        21_000,
        (priority_fee + 1_000_000_000) as u128,
        priority_fee,
        Seq::new(20, |i: int| 0xabu8),
    )
}

/// A signed EIP-1559 sample transaction as `0x`-prefixed 2718 hex: `key_byte`
/// picks a deterministic signer and `priority_fee` drives the tip ordering.
/// `None` exactly when signing fails (a `key_byte` of 0 or 0xff is no valid key).
pub fn sample_raw_tx(key_byte: u8, nonce: u64, priority_fee: u128) -> (res: Option<String>)
    requires
        priority_fee <= u128::MAX - 1_000_000_000,
    ensures
        res is Some <==> sample_tx(key_byte, nonce, priority_fee) is Some,
        res matches Some(s) ==> s@ == seq!['0', 'x'] + hex_encode_spec(sample_tx(key_byte, nonce, priority_fee)->0),
{
    let key = [key_byte; 32];
    let to = [0xabu8; 20];
    assert(key@ =~= Seq::new(32, |i: int| key_byte));
    assert(to@ =~= Seq::new(20, |i: int| 0xabu8));
    match sign_eip1559_2718(key, 10, nonce, 21_000, priority_fee + 1_000_000_000, priority_fee, to) {
        Some(raw) => Some(hex0x(raw.as_slice())),
        None => None,
    }
}

} // verus!
