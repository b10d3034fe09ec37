//! What the enclave does with each request, and its connection transport.

use vstd::prelude::*;
use vstd::utf8::encode_utf8;
use crate::chain::{
    decode_error_text, decodes_2718, effective_tip_of, keccak256_of, nonce_of, recovery_error_text, signer_of,
};
use crate::hexcodec::{decode_hex, hex0x, hex_decode_spec, hex_encode_spec, hex_error_text, strip_0x};
use crate::mempool::{
    accepted, after_best, after_call, best_order, DecodedTx, PoolCall, Mempool, MempoolView,
};
use vstd::string::StringExecFns;
use crate::proto::{Request, Response, StubAttestation};

verus! {

/// `0x` followed by the lowercase hex of `bytes`.
pub open spec fn hex0x_spec(bytes: Seq<u8>) -> Seq<char> {
    seq!['0', 'x'] + hex_encode_spec(bytes)
}

/// Each byte string as `0x` hex, in order.
fn hex_each(items: &Vec<Vec<u8>>) -> (res: Vec<String>)
    ensures
        res@.len() == items@.len(),
        forall|i: int| 0 <= i < items@.len() ==> #[trigger] res@[i]@ == hex0x_spec(items@[i]@),
{
    let n = items.len();
    let mut res: Vec<String> = Vec::new();
    let mut i: usize = 0;
    while i < n
        invariant
            n == items@.len(),
            0 <= i <= n,
            res@.len() == i,
            forall|k: int| 0 <= k < i ==> #[trigger] res@[k]@ == hex0x_spec(items@[k]@),
        decreases n - i,
    {
        res.push(hex0x(items[i].as_slice()));
        i += 1;
    }
    res
}

/// Each hash as `0x` hex, in order.
fn hex_each_hash(items: &Vec<[u8; 32]>) -> (res: Vec<String>)
    ensures
        res@.len() == items@.len(),
        forall|i: int| 0 <= i < items@.len() ==> #[trigger] res@[i]@ == hex0x_spec(items@[i]@),
{
    let n = items.len();
    let mut res: Vec<String> = Vec::new();
    let mut i: usize = 0;
    while i < n
        invariant
            n == items@.len(),
            0 <= i <= n,
            res@.len() == i,
            forall|k: int| 0 <= k < i ==> #[trigger] res@[k]@ == hex0x_spec(items@[k]@),
        decreases n - i,
    {
        let h: [u8; 32] = items[i];
        res.push(hex0x(h.as_slice()));
        i += 1;
    }
    res
}

/// The pool and reply after a `SendRawTransaction` carrying `text`.
pub open spec fn send_outcome(old: MempoolView, new: MempoolView, text: Seq<char>, resp: Response) -> bool {
    match hex_decode_spec(strip_0x(encode_utf8(text))) {
        None => new == old && (resp matches Response::Error(m)
            && m@ == "invalid hex: "@ + hex_error_text(strip_0x(encode_utf8(text)))),
        Some(raw) => if decodes_2718(raw) && signer_of(raw) is Some {
            &&& resp matches Response::Hash(h) && h@ == hex0x_spec(keccak256_of(raw))
            &&& exists|sender: [u8; 20], hash: [u8; 32]|
                signer_of(raw) == Some(sender@) && hash@ == keccak256_of(raw) && new == accepted(
                    old,
                    raw,
                    hash,
                    (DecodedTx {
                        sender,
                        nonce: nonce_of(raw),
                        effective_tip: effective_tip_of(raw, old.base_fee),
                    }),
                )
        } else if decodes_2718(raw) {
            new == old && (resp matches Response::Error(m)
                && m@ == "could not recover signer: "@ + recovery_error_text(raw))
        } else {
            new == old && (resp matches Response::Error(m)
                && m@ == "could not decode 2718 transaction: "@ + decode_error_text(raw))
        },
    }
}

/// Serves one request against the pool.
pub fn dispatch(req: Request, pool: &mut Mempool) -> (resp: Response)
    requires
        old(pool)@.wf(),
        req is SendRawTransaction ==> old(pool)@.next_seq < u64::MAX,
        req is GetBestTransactionHashes ==> old(pool)@.best_calls < u64::MAX,
    ensures
        final(pool)@.wf(),
        req matches Request::SendRawTransaction(s) ==> send_outcome(old(pool)@, final(pool)@, s@, resp),
        req matches Request::SendRawTransaction(s) ==> final(pool)@ == match hex_decode_spec(strip_0x(encode_utf8(s@))) {
            Some(raw) => after_call(old(pool)@, PoolCall::Add(raw)),
            None => old(pool)@,
        },
        req is GetRawTransactions ==> final(pool)@ == after_call(old(pool)@, PoolCall::Drain),
        req is GetBestTransactionHashes ==> final(pool)@ == after_call(old(pool)@, PoolCall::Best),
        req is GetRawTransactions ==> {
            &&& resp matches Response::RawTransactions(v) && v@.len() == old(pool)@.raw_buffer.len()
                && forall|i: int| 0 <= i < v@.len() ==> #[trigger] v@[i]@ == hex0x_spec(old(pool)@.raw_buffer[i])
            &&& final(pool)@ == (MempoolView { raw_buffer: Seq::empty(), ..old(pool)@ })
        },
        req is GetBestTransactionHashes ==> {
            &&& resp matches Response::BestTransactionHashes(v) && v@.len() == best_order(old(pool)@).len()
                && forall|i: int| 0 <= i < v@.len() ==> #[trigger] v@[i]@ == hex0x_spec(best_order(old(pool)@)[i]@)
            &&& final(pool)@ == after_best(old(pool)@)
        },
{
    match req {
        Request::SendRawTransaction(hex_str) => {
            let bytes = match decode_hex(hex_str.as_str()) {
                Ok(b) => b,
                Err(e) => {
                    return Response::Error(e);
                },
            };
            match pool.add_raw_transaction(bytes) {
                Ok(hash) => Response::Hash(hex0x(hash.as_slice())),
                Err(e) => Response::Error(e.message()),
            }
        },
        Request::GetRawTransactions => {
            let raws = pool.drain_raw_transactions();
            let ghost buffered = raws@.map_values(|v: Vec<u8>| v@);
            let out = hex_each(&raws);
            assert forall|i: int| 0 <= i < out@.len() implies #[trigger] out@[i]@ == hex0x_spec(old(pool)@.raw_buffer[i]) by {
                assert(buffered[i] == raws@[i]@);
            }
            Response::RawTransactions(out)
        },
        Request::GetBestTransactionHashes => {
            let hashes = pool.best_transaction_hashes();
            Response::BestTransactionHashes(hex_each_hash(&hashes))
        },
    }
}

/// `n` copies of `unit`, one after the other.
pub open spec fn repeated(unit: Seq<char>, n: nat) -> Seq<char>
    decreases n,
{
    if n == 0 {
        Seq::empty()
    } else {
        repeated(unit, (n - 1) as nat) + unit
    }
}

/// `0x` followed by 32 copies of `pair`: a placeholder 32-byte measurement.
fn placeholder_measurement(pair: &str) -> (res: String)
    ensures
        res@ == seq!['0', 'x'] + repeated(pair@, 32),
{
    let mut s = String::from_str("0x");
    proof {
        reveal_strlit("0x");
    }
    let mut i: usize = 0;
    while i < 32
        invariant
            0 <= i <= 32,
            s@ == seq!['0', 'x'] + repeated(pair@, i as nat),
        decreases 32 - i,
    {
        s.append(pair);
        i += 1;
        assert(s@ =~= seq!['0', 'x'] + repeated(pair@, i as nat));
    }
    s
}

/// The development stub attestation: obvious placeholder measurements (`0xdede…`
/// and `0xbebe…`), the `stub` flag set, and a note saying that it proves nothing.
pub fn dev_stub_attestation() -> (a: StubAttestation)
    ensures
        a.stub,
        a.mr_enclave@ == seq!['0', 'x'] + repeated("de"@, 32),
        a.mr_signer@ == seq!['0', 'x'] + repeated("be"@, 32),
        a.note@ == "DEV STUB — NOT A REAL SGX QUOTE; proves nothing"@,
{
    StubAttestation {
        stub: true,
        mr_enclave: placeholder_measurement("de"),
        mr_signer: placeholder_measurement("be"),
        note: String::from_str("DEV STUB — NOT A REAL SGX QUOTE; proves nothing"),
    }
}

/// Per-process transport state. The transport is plaintext: a session is the
/// accepted connection itself.
pub struct Transport;

impl Transport {
    /// Sets the transport up once at startup.
    pub fn init() -> (res: Result<Transport, String>)
        ensures
            res is Ok,
    {
        Ok(Transport)
    }

    /// Wraps an accepted connection into a session.
    pub fn accept<S>(&self, stream: S) -> (res: Result<S, std::io::Error>)
        ensures
            res == Ok::<S, std::io::Error>(stream),
    {
        Ok(stream)
    }
}

} // verus!
