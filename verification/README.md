# tog — transaction-order guarantor

The trusted core of a transaction-ordering enclave, verified with Verus.

* `src/mempool.rs` — the pool: submissions are hashed (Keccak-256 of the raw
  bytes), decoded and signer-recovered; raw bytes go to a drain buffer, decoded
  transactions to a working set with hash dedup and replace-by-fee. The working
  set is cleared every `clear_every`-th ordering request. Each call's effect is a
  function of the pool and the call (`after_call`), so pools given the same calls
  order alike, and the ordering lists only hashes accepted since the last clear.
* `src/order.rs` — the ordering as a specification: a greedy merge of the ready
  per-sender heads by effective tip (those that cannot pay the base fee last,
  first seen wins ties), with its laws
  (each ready transaction exactly once, per-sender nonce order, tip order
  across senders, independence from storage order).
* `src/schedule.rs` — the executable ordering: per-sender queues sorted by nonce,
  cut to their ready runs, merged front by front.
* `src/proto.rs` — the wire protocol's messages and its length-prefixed framing.
* `src/hexcodec.rs` — `0x` hex text of bytes, with the `hex` crate.
* `src/chain.rs` — the calls into alloy (hashing, EIP-2718 decoding, signer
  recovery, nonce, effective tip, signing) and what they are trusted to return.
* `src/enclave.rs` — serving one request against the pool; the transport seam.
* `src/client.rs` — the client side: each operation writes one request to a
  user-supplied `Connection` (whose contract records what it sent and received)
  and interprets the reply; also the signed sample transaction of the demo.
* `src/rpc.rs` — the pool-facing half of the RPC API.
* `app/` — the enclave server (TCP, threads, JSON bodies) and the client CLI.

The client speaks the plaintext transport only; there is no RA-TLS connector.
Node-side RPC integration (a reth transaction pool and a JSON-RPC server) is not
part of this crate: `src/rpc.rs` holds only the pool-facing logic.
