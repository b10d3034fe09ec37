//! The framed request/response protocol spoken across the enclave boundary.
//!
//! A frame is a 4-byte big-endian body length followed by the body (a JSON
//! document; the JSON text itself is produced and read outside this crate).
//! There are exactly three operations.

use vstd::prelude::*;
use vstd::string::StringExecFns;
use vstd::string::to_string_from_display_ensures;

verus! {

/// `std::io::Error`, carried opaquely.
#[verifier::external_type_specification]
#[verifier::external_body]
pub struct ExIoError(std::io::Error);

/// `serde_json::Error`, carried opaquely.
#[verifier::external_type_specification]
#[verifier::external_body]
pub struct ExJsonError(serde_json::Error);

/// The largest frame body accepted or produced.
pub const MAX_FRAME_BYTES: usize = 10485760;

/// A request to the enclave.
#[derive(Clone, Debug, PartialEq, Eq)]
pub enum Request {
    /// `eth_sendRawTransaction`: one `0x`-prefixed EIP-2718 transaction.
    SendRawTransaction(String),
    /// `tog_getRawTransactions`: drain and return the raw transaction buffer.
    GetRawTransactions,
    /// `tog_getBestTransactionHashes`: the enclave-computed ordering.
    GetBestTransactionHashes,
}

/// A reply from the enclave.
#[derive(Clone, Debug, PartialEq, Eq)]
pub enum Response {
    /// Hash of an accepted transaction, `0x`-prefixed.
    Hash(String),
    /// Raw transactions as `0x`-prefixed hex, in arrival order.
    RawTransactions(Vec<String>),
    /// Transaction hashes, `0x`-prefixed, best first.
    BestTransactionHashes(Vec<String>),
    /// A handled error (bad hex, decoding or recovery failure).
    Error(String),
}

/// The attestation the enclave sends before serving requests. While no real
/// quote is available it is a stub, marked as such.
#[derive(Clone, Debug, PartialEq, Eq)]
pub struct StubAttestation {
    /// Always set: this is not a real SGX quote.
    pub stub: bool,
    pub mr_enclave: String,
    pub mr_signer: String,
    pub note: String,
}

/// Why a frame could not be written or read.
#[derive(Debug)]
pub enum ProtoError {
    Io(std::io::Error),
    Json(serde_json::Error),
    /// The body length exceeds `MAX_FRAME_BYTES`.
    FrameTooLarge(usize),
}

/// `text` is the message of `e`: a prefix naming the kind, then the `Display`
/// text of the underlying error (for an oversized frame, of its length).
pub open spec fn proto_text(e: ProtoError, text: Seq<char>) -> bool {
    match e {
        ProtoError::Io(io) => exists|t: String|
            #[trigger] to_string_from_display_ensures::<std::io::Error>(&io, t) && text == "io: "@ + t@,
        ProtoError::Json(j) => exists|t: String|
            #[trigger] to_string_from_display_ensures::<serde_json::Error>(&j, t) && text == "json: "@ + t@,
        ProtoError::FrameTooLarge(n) => exists|t: String|
            #[trigger] to_string_from_display_ensures::<usize>(&n, t) && text == "frame too large: "@ + t@
                + " bytes (max 10485760)"@,
    }
}

impl ProtoError {
    /// The human-readable message of the error.
    pub fn message(&self) -> (res: String)
        ensures
            proto_text(*self, res@),
            self matches ProtoError::FrameTooLarge(_) ==> res@.subrange(0, 17) == "frame too large: "@,
            self matches ProtoError::Io(_) ==> res@.subrange(0, 4) == "io: "@,
            self matches ProtoError::Json(_) ==> res@.subrange(0, 6) == "json: "@,
    {
        match self {
            ProtoError::Io(e) => {
                let mut s = String::from_str("io: ");
                proof {
                    reveal_strlit("io: ");
                }
                let ghost head = s@;
                let t = e.to_string();
                s.append(t.as_str());
                assert(s@.subrange(0, 4) =~= head);
                assert(to_string_from_display_ensures::<std::io::Error>(e, t) && s@ == "io: "@ + t@);
                s
            },
            ProtoError::Json(e) => {
                let mut s = String::from_str("json: ");
                proof {
                    reveal_strlit("json: ");
                }
                let ghost head = s@;
                let t = e.to_string();
                s.append(t.as_str());
                assert(s@.subrange(0, 6) =~= head);
                assert(to_string_from_display_ensures::<serde_json::Error>(e, t) && s@ == "json: "@ + t@);
                s
            },
            ProtoError::FrameTooLarge(n) => {
                let mut s = String::from_str("frame too large: ");
                proof {
                    reveal_strlit("frame too large: ");
                }
                let ghost head = s@;
                let t = n.to_string();
                s.append(t.as_str());
                s.append(" bytes (max 10485760)");
                assert(s@.subrange(0, 17) =~= head);
                assert(to_string_from_display_ensures::<usize>(n, t)
                    && s@ == "frame too large: "@ + t@ + " bytes (max 10485760)"@);
                s
            },
        }
    }
}

/// The 4-byte big-endian encoding of `n` (taken modulo 2^32).
pub open spec fn be_u32_bytes(n: nat) -> Seq<u8> {
    seq![
        ((n / 16777216) % 256) as u8,
        ((n / 65536) % 256) as u8,
        ((n / 256) % 256) as u8,
        (n % 256) as u8,
    ]
}

/// The number that four big-endian bytes stand for.
pub open spec fn be_u32_value(b: Seq<u8>) -> nat {
    (b[0] * 16777216 + b[1] * 65536 + b[2] * 256 + b[3]) as nat
}

/// The frame carrying `body`.
pub open spec fn frame_of(body: Seq<u8>) -> Seq<u8> {
    be_u32_bytes(body.len()) + body
}

/// Frames a body: its length as 4 big-endian bytes, then the body. Bodies larger
/// than `MAX_FRAME_BYTES` are refused.
pub fn encode_frame(body: &[u8]) -> (res: Result<Vec<u8>, ProtoError>)
    ensures
        res is Ok <==> body@.len() <= MAX_FRAME_BYTES,
        res matches Ok(f) ==> f@ == frame_of(body@),
        res matches Err(e) ==> e == ProtoError::FrameTooLarge(body@.len() as usize),
{
    let len = body.len();
    if len > MAX_FRAME_BYTES {
        return Err(ProtoError::FrameTooLarge(len));
    }
    let mut out: Vec<u8> = Vec::new();
    out.push(((len / 16777216) % 256) as u8);
    out.push(((len / 65536) % 256) as u8);
    out.push(((len / 256) % 256) as u8);
    out.push((len % 256) as u8);
    let mut i: usize = 0;
    while i < len
        invariant
            len == body@.len(),
            0 <= i <= len,
            out@ == be_u32_bytes(len as nat) + body@.subrange(0, i as int),
        decreases len - i,
    {
        out.push(body[i]);
        i += 1;
        assert(out@ =~= be_u32_bytes(len as nat) + body@.subrange(0, i as int));
    }
    assert(body@.subrange(0, len as int) =~= body@);
    Ok(out)
}

/// Reads a frame header: the body length it announces. Lengths larger than
/// `MAX_FRAME_BYTES` are refused.
pub fn frame_len(header: [u8; 4]) -> (res: Result<usize, ProtoError>)
    ensures
        res is Ok <==> be_u32_value(header@) <= MAX_FRAME_BYTES,
        res matches Ok(n) ==> n == be_u32_value(header@),
        res matches Err(e) ==> e == ProtoError::FrameTooLarge(be_u32_value(header@) as usize),
{
    let b0 = header[0] as u32;
    let b1 = header[1] as u32;
    let b2 = header[2] as u32;
    let b3 = header[3] as u32;
    assert(b0 * 16777216 + b1 * 65536 + b2 * 256 + b3 <= 0xffff_ffff) by (nonlinear_arith)
        requires
            b0 < 256,
            b1 < 256,
            b2 < 256,
            b3 < 256,
    ;
    let n = b0 * 16777216 + b1 * 65536 + b2 * 256 + b3;
    let len = n as usize;
    if len > MAX_FRAME_BYTES {
        Err(ProtoError::FrameTooLarge(len))
    } else {
        Ok(len)
    }
}

/// Reading back a frame header gives the length of the framed body, and the
/// body follows the header unchanged.
pub proof fn lemma_frame_round_trip(body: Seq<u8>)
    requires
        body.len() <= MAX_FRAME_BYTES,
    ensures
        be_u32_value(frame_of(body).subrange(0, 4)) == body.len(),
        frame_of(body).subrange(4, frame_of(body).len() as int) == body,
{
    let n = body.len();
    let f = frame_of(body);
    assert(f.subrange(4, f.len() as int) =~= body);
    let h = f.subrange(0, 4);
    assert(h[0] == ((n / 16777216) % 256) as u8);
    assert(h[1] == ((n / 65536) % 256) as u8);
    assert(h[2] == ((n / 256) % 256) as u8);
    assert(h[3] == (n % 256) as u8);
    assert(((n / 16777216) % 256) * 16777216 + ((n / 65536) % 256) * 65536 + ((n / 256) % 256) * 256 + n % 256 == n) by (nonlinear_arith)
        requires
            n <= 10485760,
    ;
}

} // verus!
