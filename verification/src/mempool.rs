//! The in-enclave transaction pool.
//!
//! Every submission is decoded, its signer recovered and its effective tip
//! computed; the raw bytes go to a drain buffer (arrival order) and the decoded
//! transaction to the ordered working set. The ordering is computed on demand:
//!
//! * per-sender sequencing: only the contiguous nonce run from the sender's
//!   anchor is ready; anything past a gap is held until it fills. The anchor is
//!   the account nonce supplied with `set_account_nonce`, or else the lowest
//!   nonce pooled for that sender;
//! * replace-by-fee: a `(sender, nonce)` collision keeps the higher tip;
//! * cross-sender priority: ready heads are merged greedily by effective tip,
//!   those that cannot pay the base fee last, first seen winning ties.
//!
//! The raw buffer is drained by `drain_raw_transactions`, and the ordered set is
//! cleared after every `clear_every`-th call of `best_transaction_hashes`.

use vstd::prelude::*;
use vstd::string::StringExecFns;
use crate::chain::{
    decode_2718, decode_error_text, decodes_2718, effective_tip_of, recovery_error_text, effective_tip_per_gas, keccak256, keccak256_of,
    nonce_of, recover_signer, signer_of, tx_nonce,
};
use crate::schedule::{
    in_queues, lemma_ready_in_queue, merge_queues, nonces_increasing, pending_in, queue_anchor, queue_ready,
    queues_ok, queues_view, ready_range, sender_queues,
};
use crate::order::{
    bytes_eq, distinct_seqs, greedy_order, hashes_of, lemma_greedy_is_permutation,
    lemma_greedy_respects_nonces, lemma_greedy_sorted_when_senders_distinct, lemma_outranks_arith, outranks, tip_above, tip_above_exec, PoolEntry,
};

verus! {

/// Why a submission was refused.
#[derive(Debug)]
pub enum MempoolError {
    /// The bytes are not an EIP-2718 transaction; carries the decoder's message.
    Decode(String),
    /// The signature does not yield a signer; carries the recovery error's message.
    Recovery(String),
}

impl MempoolError {
    /// The human-readable message of the error.
    pub fn message(&self) -> (res: String)
        ensures
            self matches MempoolError::Decode(m) ==> res@ == "could not decode 2718 transaction: "@ + m@,
            self matches MempoolError::Recovery(m) ==> res@ == "could not recover signer: "@ + m@,
    {
        match self {
            MempoolError::Decode(m) => {
                let mut s = String::from_str("could not decode 2718 transaction: ");
                s.append(m.as_str());
                s
            },
            MempoolError::Recovery(m) => {
                let mut s = String::from_str("could not recover signer: ");
                s.append(m.as_str());
                s
            },
        }
    }
}

/// Counters describing the pool.
#[derive(Clone, Copy, Debug, PartialEq, Eq, Structural)]
pub struct PoolStats {
    /// Submissions waiting in the drain buffer.
    pub raw_buffered: usize,
    /// Transactions in the ordered working set.
    pub pooled: usize,
    /// Calls of `best_transaction_hashes` so far.
    pub best_calls: u64,
}

/// What decoding a submission yields.
#[derive(Clone, Copy, Debug)]
pub struct DecodedTx {
    pub sender: [u8; 20],
    pub nonce: u64,
    /// Effective tip at the pool's base fee; `None` when it cannot pay it.
    pub effective_tip: Option<u128>,
}

/// The abstract state of a pool.
pub struct MempoolView {
    pub base_fee: u64,
    /// Every accepted submission not yet drained, in arrival order.
    pub raw_buffer: Seq<Seq<u8>>,
    /// The ordered working set.
    pub entries: Seq<PoolEntry>,
    /// Account nonces supplied per sender.
    pub hints: Seq<([u8; 20], u64)>,
    pub next_seq: u64,
    pub best_calls: u64,
    pub clear_every: u64,
}

/// No two entries share a hash.
pub open spec fn distinct_hashes(e: Seq<PoolEntry>) -> bool {
    forall|i: int, j: int| 0 <= i < e.len() && 0 <= j < e.len() && i != j ==> #[trigger] e[i].hash != #[trigger] e[j].hash
}

/// No two entries share a sender and a nonce.
pub open spec fn distinct_slots(e: Seq<PoolEntry>) -> bool {
    forall|i: int, j: int| 0 <= i < e.len() && 0 <= j < e.len() && i != j && #[trigger] e[i].sender == #[trigger] e[j].sender ==> e[i].nonce != e[j].nonce
}

/// No sender has two account nonces.
pub open spec fn distinct_hint_senders(h: Seq<([u8; 20], u64)>) -> bool {
    forall|i: int, j: int| 0 <= i < h.len() && 0 <= j < h.len() && i != j ==> #[trigger] h[i].0 != #[trigger] h[j].0
}

impl MempoolView {
    /// The invariant of a pool.
    pub open spec fn wf(self) -> bool {
        &&& distinct_hashes(self.entries)
        &&& distinct_slots(self.entries)
        &&& distinct_seqs(self.entries)
        &&& forall|i: int| 0 <= i < self.entries.len() ==> #[trigger] self.entries[i].seq < self.next_seq
        &&& distinct_hint_senders(self.hints)
    }
}

/// Some entry of `sender` has nonce `n`.
pub open spec fn has_nonce(entries: Seq<PoolEntry>, sender: [u8; 20], n: int) -> bool {
    exists|j: int| 0 <= j < entries.len() && #[trigger] entries[j].sender == sender && entries[j].nonce == n
}

/// `n` is the lowest nonce pooled for `sender`.
pub open spec fn is_lowest_nonce(entries: Seq<PoolEntry>, sender: [u8; 20], n: int) -> bool {
    &&& has_nonce(entries, sender, n)
    &&& forall|j: int| 0 <= j < entries.len() && #[trigger] entries[j].sender == sender ==> n <= entries[j].nonce
}

/// The account nonce supplied for `sender`, if any.
pub open spec fn hint_of(hints: Seq<([u8; 20], u64)>, sender: [u8; 20]) -> Option<u64> {
    if exists|i: int| 0 <= i < hints.len() && #[trigger] hints[i].0 == sender {
        Some(hints[choose|i: int| 0 <= i < hints.len() && #[trigger] hints[i].0 == sender].1)
    } else {
        None
    }
}

/// Where the ready run of `sender` starts.
pub open spec fn anchor(entries: Seq<PoolEntry>, hints: Seq<([u8; 20], u64)>, sender: [u8; 20]) -> int {
    match hint_of(hints, sender) {
        Some(n) => n as int,
        None => choose|n: int| is_lowest_nonce(entries, sender, n),
    }
}

/// `e` lies in its sender's contiguous nonce run from the anchor.
pub open spec fn is_ready(entries: Seq<PoolEntry>, hints: Seq<([u8; 20], u64)>, e: PoolEntry) -> bool {
    let a = anchor(entries, hints, e.sender);
    &&& a <= e.nonce
    &&& forall|n: int| a <= n <= e.nonce ==> #[trigger] has_nonce(entries, e.sender, n)
}

/// The ready entries, in pool order.
pub open spec fn ready_entries(entries: Seq<PoolEntry>, hints: Seq<([u8; 20], u64)>) -> Seq<PoolEntry> {
    entries.filter(|e: PoolEntry| is_ready(entries, hints, e))
}

/// A pool's ready transactions, best first.
pub open spec fn best_entries(v: MempoolView) -> Seq<PoolEntry> {
    greedy_order(ready_entries(v.entries, v.hints))
}

/// The hashes of a pool's ready transactions, best first.
pub open spec fn best_order(v: MempoolView) -> Seq<[u8; 32]> {
    hashes_of(best_entries(v))
}

/// Some entry has hash `h`.
pub open spec fn has_hash(entries: Seq<PoolEntry>, h: [u8; 32]) -> bool {
    exists|i: int| 0 <= i < entries.len() && #[trigger] entries[i].hash == h
}

/// Some entry occupies the sender and nonce of `e`.
pub open spec fn has_slot(entries: Seq<PoolEntry>, e: PoolEntry) -> bool {
    exists|i: int| 0 <= i < entries.len() && #[trigger] entries[i].sender == e.sender && entries[i].nonce == e.nonce
}

/// Adding `e` to the working set: a known hash changes nothing; a taken
/// `(sender, nonce)` slot is replaced only by a tip that ranks strictly above
/// (see `tip_above`); otherwise
/// `e` is appended.
pub open spec fn insert_entry(entries: Seq<PoolEntry>, e: PoolEntry) -> Seq<PoolEntry> {
    if has_hash(entries, e.hash) {
        entries
    } else if has_slot(entries, e) {
        let i = choose|i: int| 0 <= i < entries.len() && #[trigger] entries[i].sender == e.sender && entries[i].nonce == e.nonce;
        if tip_above(e.effective_tip, entries[i].effective_tip) {
            entries.update(i, e)
        } else {
            entries
        }
    } else {
        entries.push(e)
    }
}

/// The entry that a decoded submission becomes.
pub open spec fn entry_of(hash: [u8; 32], tx: DecodedTx, seq: u64) -> PoolEntry {
    PoolEntry { hash, sender: tx.sender, nonce: tx.nonce, effective_tip: tx.effective_tip, seq }
}

/// The pool after accepting `raw`, decoded as `tx` with hash `hash`.
pub open spec fn accepted(v: MempoolView, raw: Seq<u8>, hash: [u8; 32], tx: DecodedTx) -> MempoolView {
    MempoolView {
        raw_buffer: v.raw_buffer.push(raw),
        entries: insert_entry(v.entries, entry_of(hash, tx, v.next_seq)),
        next_seq: (v.next_seq + 1) as u64,
        ..v
    }
}

/// The account nonces after recording `nonce` for `sender`: the sender's entry is
/// overwritten in place, or else one is appended.
pub open spec fn set_hint(hints: Seq<([u8; 20], u64)>, sender: [u8; 20], nonce: u64) -> Seq<([u8; 20], u64)> {
    if exists|i: int| 0 <= i < hints.len() && #[trigger] hints[i].0 == sender {
        hints.update(choose|i: int| 0 <= i < hints.len() && #[trigger] hints[i].0 == sender, (sender, nonce))
    } else {
        hints.push((sender, nonce))
    }
}

/// The pool after a call of `best_transaction_hashes`.
pub open spec fn after_best(v: MempoolView) -> MempoolView {
    MempoolView {
        best_calls: (v.best_calls + 1) as u64,
        entries: if clears(v) {
            Seq::empty()
        } else {
            v.entries
        },
        ..v
    }
}

/// Two byte arrays with the same contents are the same array.
pub proof fn lemma_bytes_view_injective<const N: usize>(a: [u8; N], b: [u8; N])
    requires
        a@ == b@,
    ensures
        a == b,
{
    assert forall|i: int| 0 <= i < N implies a[i] == b[i] by {
        assert(a@[i] == b@[i]);
    }
    assert(a =~= b);
}

/// A call that changes or reads a pool.
pub enum PoolCall {
    /// `add_raw_transaction` with these bytes.
    Add(Seq<u8>),
    /// `set_base_fee`.
    SetBaseFee(u64),
    /// `set_account_nonce` for a sender.
    SetAccountNonce([u8; 20], u64),
    /// `drain_raw_transactions`.
    Drain,
    /// `best_transaction_hashes`.
    Best,
}

/// The pool `Mempool::new(base_fee, clear_every)` makes.
pub open spec fn initial(base_fee: u64, clear_every: u64) -> MempoolView {
    MempoolView {
        base_fee,
        raw_buffer: Seq::empty(),
        entries: Seq::empty(),
        hints: Seq::empty(),
        next_seq: 0,
        best_calls: 0,
        clear_every,
    }
}

/// A submission is accepted exactly when it decodes and its signer is recovered.
pub open spec fn admits(raw: Seq<u8>) -> bool {
    decodes_2718(raw) && signer_of(raw) is Some
}

/// The hash of a submission, as a 32-byte array.
pub open spec fn hash_of(raw: Seq<u8>) -> [u8; 32] {
    choose|h: [u8; 32]| h@ == keccak256_of(raw)
}

/// What an accepted submission decodes to at `base_fee`.
pub open spec fn decoded_of(raw: Seq<u8>, base_fee: u64) -> DecodedTx {
    DecodedTx {
        sender: choose|s: [u8; 20]| signer_of(raw) == Some(s@),
        nonce: nonce_of(raw),
        effective_tip: effective_tip_of(raw, base_fee),
    }
}

/// The call of `best_transaction_hashes` on `v` empties the working set.
pub open spec fn clears(v: MempoolView) -> bool {
    let calls = (v.best_calls + 1) as u64;
    v.clear_every != 0 && calls % v.clear_every == 0
}

/// The pool after `call`.
pub open spec fn after_call(v: MempoolView, call: PoolCall) -> MempoolView {
    match call {
        PoolCall::Add(raw) => if admits(raw) {
            accepted(v, raw, hash_of(raw), decoded_of(raw, v.base_fee))
        } else {
            v
        },
        PoolCall::SetBaseFee(b) => MempoolView { base_fee: b, ..v },
        PoolCall::SetAccountNonce(sender, nonce) => MempoolView { hints: set_hint(v.hints, sender, nonce), ..v },
        PoolCall::Drain => MempoolView { raw_buffer: Seq::empty(), ..v },
        PoolCall::Best => after_best(v),
    }
}

/// The pool after `calls`, in order.
pub open spec fn replay(v: MempoolView, calls: Seq<PoolCall>) -> MempoolView
    decreases calls.len(),
{
    if calls.len() == 0 {
        v
    } else {
        after_call(replay(v, calls.drop_last()), calls.last())
    }
}

/// The hashes accepted during `calls` from `v` since the working set was last
/// emptied, in order.
pub open spec fn admitted(v: MempoolView, calls: Seq<PoolCall>) -> Seq<[u8; 32]>
    decreases calls.len(),
{
    if calls.len() == 0 {
        Seq::empty()
    } else {
        let prev = admitted(v, calls.drop_last());
        match calls.last() {
            PoolCall::Add(raw) => if admits(raw) { prev.push(hash_of(raw)) } else { prev },
            PoolCall::Best => if clears(replay(v, calls.drop_last())) { Seq::empty() } else { prev },
            _ => prev,
        }
    }
}

/// Determinism: pools that start alike and receive the same calls end alike,
/// and so list the same transactions in the same order.
pub proof fn lemma_same_calls_same_order(v1: MempoolView, v2: MempoolView, calls: Seq<PoolCall>)
    requires
        v1 == v2,
    ensures
        replay(v1, calls) == replay(v2, calls),
        best_order(replay(v1, calls)) == best_order(replay(v2, calls)),
{
}

/// The submissions accepted during `calls` from `v` since the raw buffer was last
/// drained, in arrival order (after those already buffered in `v`).
pub open spec fn buffered(v: MempoolView, calls: Seq<PoolCall>) -> Seq<Seq<u8>>
    decreases calls.len(),
{
    if calls.len() == 0 {
        v.raw_buffer
    } else {
        let prev = buffered(v, calls.drop_last());
        match calls.last() {
            PoolCall::Add(raw) => if admits(raw) { prev.push(raw) } else { prev },
            PoolCall::Drain => Seq::empty(),
            _ => prev,
        }
    }
}

/// The number of `Best` calls among `calls`.
pub open spec fn best_count(calls: Seq<PoolCall>) -> nat
    decreases calls.len(),
{
    if calls.len() == 0 {
        0
    } else {
        best_count(calls.drop_last()) + if calls.last() is Best { 1nat } else { 0nat }
    }
}

/// The raw buffer holds exactly the accepted submissions since the last drain,
/// and the call counter counts the ordering requests.
pub proof fn lemma_counters_follow_calls(v: MempoolView, calls: Seq<PoolCall>)
    requires
        v.best_calls + best_count(calls) <= u64::MAX,
    ensures
        replay(v, calls).raw_buffer == buffered(v, calls),
        replay(v, calls).best_calls == v.best_calls + best_count(calls),
    decreases calls.len(),
{
    if calls.len() > 0 {
        lemma_counters_follow_calls(v, calls.drop_last());
    }
}

/// Every pooled transaction of a pool that started empty was accepted since the
/// working set was last emptied.
pub proof fn lemma_entries_admitted(v: MempoolView, calls: Seq<PoolCall>)
    requires
        v.entries.len() == 0,
    ensures
        forall|i: int| 0 <= i < replay(v, calls).entries.len()
            ==> admitted(v, calls).contains(#[trigger] replay(v, calls).entries[i].hash),
    decreases calls.len(),
{
    if calls.len() > 0 {
        let prev = calls.drop_last();
        lemma_entries_admitted(v, prev);
        let w = replay(v, prev);
        let n = replay(v, calls);
        let a = admitted(v, calls);
        let pa = admitted(v, prev);
        assert(n == after_call(w, calls.last()));
        match calls.last() {
            PoolCall::Add(raw) => {
                if admits(raw) {
                    let e = entry_of(hash_of(raw), decoded_of(raw, w.base_fee), w.next_seq);
                    assert(a == pa.push(hash_of(raw)));
                    assert forall|i: int| 0 <= i < n.entries.len() implies a.contains(#[trigger] n.entries[i].hash) by {
                        if n.entries[i] == e {
                            assert(a[pa.len() as int] == e.hash);
                        } else {
                            lemma_insert_keeps_or_adds(w.entries, e, i);
                            let j = choose|j: int| 0 <= j < w.entries.len() && w.entries[j] == n.entries[i];
                            assert(pa.contains(w.entries[j].hash));
                            let k = choose|k: int| 0 <= k < pa.len() && pa[k] == w.entries[j].hash;
                            assert(a[k] == pa[k]);
                        }
                    }
                }
            },
            PoolCall::Best => {
                if !clears(w) {
                    assert(n.entries == w.entries);
                }
            },
            _ => {},
        }
    }
}

/// An entry after inserting `e` is `e` or was there before.
pub proof fn lemma_insert_keeps_or_adds(entries: Seq<PoolEntry>, e: PoolEntry, i: int)
    requires
        0 <= i < insert_entry(entries, e).len(),
        insert_entry(entries, e)[i] != e,
    ensures
        exists|j: int| 0 <= j < entries.len() && entries[j] == insert_entry(entries, e)[i],
{
    assert(entries[i] == insert_entry(entries, e)[i]);
}

/// The ordering of a pool that started empty lists only transactions accepted
/// since the working set was last emptied.
pub proof fn lemma_best_lists_only_admitted(v: MempoolView, calls: Seq<PoolCall>)
    requires
        v.entries.len() == 0,
        replay(v, calls).wf(),
    ensures
        forall|h: [u8; 32]| #[trigger] best_order(replay(v, calls)).contains(h) ==> admitted(v, calls).contains(h),
{
    let n = replay(v, calls);
    lemma_entries_admitted(v, calls);
    lemma_best_order_lists_ready(n);
    assert forall|h: [u8; 32]| #[trigger] best_order(n).contains(h) implies admitted(v, calls).contains(h) by {
        let i = choose|i: int| 0 <= i < n.entries.len() && #[trigger] n.entries[i].hash == h && is_ready(n.entries, n.hints, n.entries[i]);
        assert(admitted(v, calls).contains(n.entries[i].hash));
    }
}

/// Filtering keeps distinct insertion counters, and keeps only entries of the
/// filtered sequence.
pub proof fn lemma_filter_distinct_seqs(p: Seq<PoolEntry>, pred: spec_fn(PoolEntry) -> bool)
    requires
        distinct_seqs(p),
    ensures
        distinct_seqs(p.filter(pred)),
        forall|i: int| 0 <= i < p.filter(pred).len() ==> exists|j: int| 0 <= j < p.len() && #[trigger] p.filter(pred)[i] == p[j],
    decreases p.len(),
{
    if p.len() > 0 {
        let q = p.drop_last();
        assert forall|a: int, b: int| 0 <= a < q.len() && 0 <= b < q.len() && a != b implies #[trigger] q[a].seq != #[trigger] q[b].seq by {
            assert(p[a].seq != p[b].seq);
        }
        lemma_filter_distinct_seqs(q, pred);
        let fq = q.filter(pred);
        let f = p.filter(pred);
        reveal_with_fuel(Seq::<_>::filter, 1);
        assert(f == if pred(p.last()) { fq.push(p.last()) } else { fq });
        assert forall|i: int| 0 <= i < f.len() implies exists|j: int| 0 <= j < p.len() && #[trigger] f[i] == p[j] by {
            if i < fq.len() {
                let j = choose|j: int| 0 <= j < q.len() && #[trigger] fq[i] == q[j];
                assert(f[i] == p[j]);
            } else {
                assert(f[i] == p[p.len() - 1]);
            }
        }
        assert forall|a: int, b: int| 0 <= a < f.len() && 0 <= b < f.len() && a != b implies #[trigger] f[a].seq != #[trigger] f[b].seq by {
            if a < fq.len() && b < fq.len() {
                assert(fq[a].seq != fq[b].seq);
            } else if a < fq.len() {
                let j = choose|j: int| 0 <= j < q.len() && #[trigger] fq[a] == q[j];
                assert(p[j].seq != p[p.len() - 1].seq);
            } else {
                let j = choose|j: int| 0 <= j < q.len() && #[trigger] fq[b] == q[j];
                assert(p[j].seq != p[p.len() - 1].seq);
            }
        }
    }
}

/// At most one nonce is the lowest of a sender.
pub proof fn lemma_lowest_unique(entries: Seq<PoolEntry>, sender: [u8; 20], a: int, b: int)
    requires
        is_lowest_nonce(entries, sender, a),
        is_lowest_nonce(entries, sender, b),
    ensures
        a == b,
{
    let ja = choose|j: int| 0 <= j < entries.len() && #[trigger] entries[j].sender == sender && entries[j].nonce == a;
    let jb = choose|j: int| 0 <= j < entries.len() && #[trigger] entries[j].sender == sender && entries[j].nonce == b;
    assert(a <= entries[jb].nonce);
    assert(b <= entries[ja].nonce);
}

/// The account nonce supplied for `sender`, if any.
pub(crate) fn hint_lookup(hints: &Vec<([u8; 20], u64)>, sender: &[u8; 20]) -> (r: Option<u64>)
    requires
        distinct_hint_senders(hints@),
    ensures
        r == hint_of(hints@, *sender),
{
    let len = hints.len();
    let mut i: usize = 0;
    while i < len
        invariant
            len == hints.len(),
            distinct_hint_senders(hints@),
            0 <= i <= len,
            forall|k: int| 0 <= k < i ==> #[trigger] hints@[k].0 != *sender,
        decreases len - i,
    {
        if bytes_eq(&hints[i].0, sender) {
            proof {
                let c = choose|c: int| 0 <= c < hints@.len() && #[trigger] hints@[c].0 == *sender;
                if c != i as int {
                    assert(hints@[c].0 != hints@[i as int].0);
                }
            }
            return Some(hints[i].1);
        }
        i += 1;
    }
    None
}

/// The ready entries of a valid pool keep distinct insertion counters, and are
/// exactly the pooled entries that are ready.
proof fn lemma_ready_entries(v: MempoolView)
    requires
        v.wf(),
    ensures
        distinct_seqs(ready_entries(v.entries, v.hints)),
        forall|x: PoolEntry| #[trigger] ready_entries(v.entries, v.hints).contains(x) <==> v.entries.contains(x) && is_ready(v.entries, v.hints, x),
{
    let pred = |e: PoolEntry| is_ready(v.entries, v.hints, e);
    let r = ready_entries(v.entries, v.hints);
    lemma_filter_distinct_seqs(v.entries, pred);
    v.entries.filter_lemma(pred);
    assert forall|x: PoolEntry| #[trigger] r.contains(x) <==> v.entries.contains(x) && is_ready(v.entries, v.hints, x) by {
        if r.contains(x) {
            let i = choose|i: int| 0 <= i < r.len() && r[i] == x;
            assert(pred(r[i]));
            let j = choose|j: int| 0 <= j < v.entries.len() && #[trigger] r[i] == v.entries[j];
            assert(v.entries[j] == x);
        }
        if v.entries.contains(x) && is_ready(v.entries, v.hints, x) {
            let j = choose|j: int| 0 <= j < v.entries.len() && v.entries[j] == x;
            assert(pred(v.entries[j]));
        }
    }
}

/// The ordering lists the hash of every ready transaction exactly once, and no
/// other hash: in particular nothing past a nonce gap, and nothing below the
/// sender's account nonce.
pub proof fn lemma_best_order_lists_ready(v: MempoolView)
    requires
        v.wf(),
    ensures
        best_order(v).len() == ready_entries(v.entries, v.hints).len(),
        best_order(v).no_duplicates(),
        forall|h: [u8; 32]| #[trigger] best_order(v).contains(h) <==> exists|i: int|
            0 <= i < v.entries.len() && #[trigger] v.entries[i].hash == h && is_ready(v.entries, v.hints, v.entries[i]),
{
    let r = ready_entries(v.entries, v.hints);
    lemma_ready_entries(v);
    lemma_greedy_is_permutation(r);
    let g = greedy_order(r);
    let o = best_order(v);
    assert forall|h: [u8; 32]| #[trigger] o.contains(h) <==> exists|i: int|
        0 <= i < v.entries.len() && #[trigger] v.entries[i].hash == h && is_ready(v.entries, v.hints, v.entries[i]) by {
        if o.contains(h) {
            let k = choose|k: int| 0 <= k < o.len() && o[k] == h;
            assert(g.contains(g[k]));
            assert(r.contains(g[k]));
            let i = choose|i: int| 0 <= i < v.entries.len() && v.entries[i] == g[k];
            assert(v.entries[i].hash == h);
        }
        if exists|i: int| 0 <= i < v.entries.len() && #[trigger] v.entries[i].hash == h && is_ready(v.entries, v.hints, v.entries[i]) {
            let i = choose|i: int| 0 <= i < v.entries.len() && #[trigger] v.entries[i].hash == h && is_ready(v.entries, v.hints, v.entries[i]);
            assert(v.entries.contains(v.entries[i]));
            assert(r.contains(v.entries[i]));
            assert(g.contains(v.entries[i]));
            let k = choose|k: int| 0 <= k < g.len() && g[k] == v.entries[i];
            assert(o[k] == h);
        }
    }
    assert forall|a: int, b: int| 0 <= a < o.len() && 0 <= b < o.len() && a != b implies o[a] != o[b] by {
        assert(g[a] != g[b]);
        assert(g.contains(g[a]) && g.contains(g[b]));
        assert(r.contains(g[a]) && r.contains(g[b]));
        let ia = choose|i: int| 0 <= i < v.entries.len() && v.entries[i] == g[a];
        let ib = choose|i: int| 0 <= i < v.entries.len() && v.entries[i] == g[b];
        assert(v.entries[ia].hash != v.entries[ib].hash);
    }
}

/// Transactions of one sender come out in increasing nonce order, whatever their tips.
pub proof fn lemma_best_order_respects_nonces(v: MempoolView, a: int, b: int)
    requires
        v.wf(),
        0 <= a < best_entries(v).len(),
        0 <= b < best_entries(v).len(),
        best_entries(v)[a].sender == best_entries(v)[b].sender,
        best_entries(v)[a].nonce < best_entries(v)[b].nonce,
    ensures
        a < b,
{
    lemma_ready_entries(v);
    lemma_greedy_respects_nonces(ready_entries(v.entries, v.hints), a, b);
}

/// When the ready transactions all have different senders, they come out by
/// tip, highest first, equal tips in the order first seen.
pub proof fn lemma_best_order_by_tip(v: MempoolView, a: int, b: int)
    requires
        v.wf(),
        forall|x: int, y: int|
            0 <= x < ready_entries(v.entries, v.hints).len() && 0 <= y < ready_entries(v.entries, v.hints).len() && x != y
                ==> #[trigger] ready_entries(v.entries, v.hints)[x].sender != #[trigger] ready_entries(v.entries, v.hints)[y].sender,
        0 <= a < b < best_entries(v).len(),
    ensures
        outranks(best_entries(v)[a], best_entries(v)[b]),
{
    lemma_ready_entries(v);
    lemma_greedy_sorted_when_senders_distinct(ready_entries(v.entries, v.hints), a, b);
}

/// When the ready transactions all have different senders, a numerically higher
/// paying tip comes out first, and any paying tip comes out before one that
/// cannot pay the base fee.
pub proof fn lemma_best_order_higher_tip_first(v: MempoolView, a: int, b: int)
    requires
        v.wf(),
        forall|x: int, y: int|
            0 <= x < ready_entries(v.entries, v.hints).len() && 0 <= y < ready_entries(v.entries, v.hints).len() && x != y
                ==> #[trigger] ready_entries(v.entries, v.hints)[x].sender != #[trigger] ready_entries(v.entries, v.hints)[y].sender,
        0 <= a < best_entries(v).len(),
        0 <= b < best_entries(v).len(),
        best_entries(v)[a].effective_tip is Some,
        best_entries(v)[b].effective_tip is None || best_entries(v)[a].effective_tip->0 > best_entries(v)[b].effective_tip->0,
    ensures
        a < b,
{
    if b <= a {
        if b == a {
        } else {
            lemma_best_order_by_tip(v, b, a);
            lemma_outranks_arith(best_entries(v)[b], best_entries(v)[a]);
        }
    }
}

/// When the ready transactions all have different senders, of two with equal
/// tips the one inserted first comes out first, whatever their nonces.
pub proof fn lemma_best_order_ties_first_seen(v: MempoolView, a: int, b: int)
    requires
        v.wf(),
        forall|x: int, y: int|
            0 <= x < ready_entries(v.entries, v.hints).len() && 0 <= y < ready_entries(v.entries, v.hints).len() && x != y
                ==> #[trigger] ready_entries(v.entries, v.hints)[x].sender != #[trigger] ready_entries(v.entries, v.hints)[y].sender,
        0 <= a < best_entries(v).len(),
        0 <= b < best_entries(v).len(),
        best_entries(v)[a].effective_tip == best_entries(v)[b].effective_tip,
        best_entries(v)[a].seq < best_entries(v)[b].seq,
    ensures
        a < b,
{
    if b < a {
        lemma_best_order_by_tip(v, b, a);
        lemma_outranks_arith(best_entries(v)[b], best_entries(v)[a]);
    }
}

/// With an account nonce recorded for a sender, its ready run starts exactly
/// there; without one, at its lowest pooled nonce.
pub proof fn lemma_anchor_value(entries: Seq<PoolEntry>, hints: Seq<([u8; 20], u64)>, s: [u8; 20], m: int)
    ensures
        is_lowest_nonce(entries, s, m) <==> (
            (exists|j: int| 0 <= j < entries.len() && #[trigger] entries[j].sender == s && entries[j].nonce == m)
            && forall|j: int| 0 <= j < entries.len() && #[trigger] entries[j].sender == s ==> m <= entries[j].nonce),
        hint_of(hints, s) matches Some(n) ==> anchor(entries, hints, s) == n,
        hint_of(hints, s) is None && is_lowest_nonce(entries, s, m) ==> anchor(entries, hints, s) == m,
{
    if hint_of(hints, s) is None && is_lowest_nonce(entries, s, m) {
        let c = choose|n: int| is_lowest_nonce(entries, s, n);
        lemma_lowest_unique(entries, s, c, m);
    }
}

/// The account nonce of a sender is the one recorded with it, if any.
pub proof fn lemma_hint_of_value(hints: Seq<([u8; 20], u64)>, s: [u8; 20], i: int)
    requires
        distinct_hint_senders(hints),
    ensures
        0 <= i < hints.len() && hints[i].0 == s ==> hint_of(hints, s) == Some(hints[i].1),
        (forall|j: int| 0 <= j < hints.len() ==> #[trigger] hints[j].0 != s) ==> hint_of(hints, s) is None,
{
    if 0 <= i < hints.len() && hints[i].0 == s {
        let c = choose|c: int| 0 <= c < hints.len() && #[trigger] hints[c].0 == s;
        if c != i {
            assert(hints[c].0 != hints[i].0);
        }
    }
}

/// Readiness in arithmetic: a transaction is ready exactly when its nonce is at
/// least the sender's account nonce (or, with none recorded, its lowest pooled
/// nonce) and every nonce from there up to its own is pooled for the sender.
pub proof fn lemma_ready_arith(entries: Seq<PoolEntry>, hints: Seq<([u8; 20], u64)>, e: PoolEntry, m: int)
    ensures
        forall|k: int| #[trigger] has_nonce(entries, e.sender, k) <==> exists|j: int|
            0 <= j < entries.len() && entries[j].sender == e.sender && entries[j].nonce == k,
        hint_of(hints, e.sender) matches Some(n) ==> (is_ready(entries, hints, e) <==> (n <= e.nonce
            && forall|k: int| n <= k <= e.nonce ==> #[trigger] has_nonce(entries, e.sender, k))),
        hint_of(hints, e.sender) is None && is_lowest_nonce(entries, e.sender, m) ==> (is_ready(entries, hints, e) <==> (m <= e.nonce
            && forall|k: int| m <= k <= e.nonce ==> #[trigger] has_nonce(entries, e.sender, k))),
{
    lemma_anchor_value(entries, hints, e.sender, m);
}

/// No transaction below its sender's recorded account nonce is ever listed.
pub proof fn lemma_best_order_respects_account_nonce(v: MempoolView, s: [u8; 20], n: u64, i: int)
    requires
        v.wf(),
        hint_of(v.hints, s) == Some(n),
        0 <= i < best_entries(v).len(),
        best_entries(v)[i].sender == s,
    ensures
        n <= best_entries(v)[i].nonce,
{
    let r = ready_entries(v.entries, v.hints);
    lemma_ready_entries(v);
    lemma_greedy_is_permutation(r);
    let x = best_entries(v)[i];
    assert(greedy_order(r).contains(x));
    assert(r.contains(x));
    lemma_anchor_value(v.entries, v.hints, s, 0);
}

/// A call of `best_transaction_hashes` counts itself and empties the working set
/// exactly when `clear_every` is not 0 and the new call count is a multiple of
/// it; the rest of the pool is unchanged.
pub proof fn lemma_after_best_arith(v: MempoolView)
    requires
        v.best_calls < u64::MAX,
    ensures
        after_best(v).best_calls == v.best_calls + 1,
        v.clear_every != 0 && (v.best_calls + 1) % (v.clear_every as int) == 0 ==> after_best(v).entries.len() == 0,
        !(v.clear_every != 0 && (v.best_calls + 1) % (v.clear_every as int) == 0) ==> after_best(v).entries == v.entries,
        after_best(v).raw_buffer == v.raw_buffer,
        after_best(v).hints == v.hints,
        after_best(v).base_fee == v.base_fee,
        after_best(v).next_seq == v.next_seq,
        after_best(v).clear_every == v.clear_every,
{
}

/// Submitting the same transaction again, at the same base fee, leaves the
/// working set as the first submission left it.
pub proof fn lemma_resubmission_keeps_entries(v: MempoolView, raw: Seq<u8>, hash: [u8; 32], tx: DecodedTx)
    requires
        v.wf(),
    ensures
        accepted(accepted(v, raw, hash, tx), raw, hash, tx).entries == accepted(v, raw, hash, tx).entries,
{
    let e = entry_of(hash, tx, v.next_seq);
    let v1 = accepted(v, raw, hash, tx);
    let e2 = entry_of(hash, tx, v1.next_seq);
    if has_hash(v.entries, hash) {
    } else if has_slot(v.entries, e) {
        let i = choose|i: int| 0 <= i < v.entries.len() && #[trigger] v.entries[i].sender == e.sender && v.entries[i].nonce == e.nonce;
        if tip_above(e.effective_tip, v.entries[i].effective_tip) {
            assert(v1.entries[i].hash == hash);
        } else {
            assert(has_slot(v1.entries, e2));
        }
    } else {
        assert(v1.entries[v.entries.len() as int].hash == hash);
    }
}

/// Replace-by-fee: when a new transaction takes the sender and nonce of a pooled
/// one, the slot ends up holding exactly one transaction, the one with the
/// higher tip (the pooled one on a tie); every other entry stays as it was.
pub proof fn lemma_replace_by_fee(v: MempoolView, raw: Seq<u8>, hash: [u8; 32], tx: DecodedTx, i: int)
    requires
        v.wf(),
        !has_hash(v.entries, hash),
        0 <= i < v.entries.len(),
        v.entries[i].sender == tx.sender,
        v.entries[i].nonce == tx.nonce,
    ensures
        accepted(v, raw, hash, tx).entries.len() == v.entries.len(),
        accepted(v, raw, hash, tx).entries[i] == if tip_above(tx.effective_tip, v.entries[i].effective_tip) {
            entry_of(hash, tx, v.next_seq)
        } else {
            v.entries[i]
        },
        forall|k: int| 0 <= k < v.entries.len() && k != i ==> #[trigger] accepted(v, raw, hash, tx).entries[k] == v.entries[k],
{
    let e = entry_of(hash, tx, v.next_seq);
    assert(has_slot(v.entries, e));
    let c = choose|c: int| 0 <= c < v.entries.len() && #[trigger] v.entries[c].sender == e.sender && v.entries[c].nonce == e.nonce;
    if c != i {
        assert(v.entries[c].sender == v.entries[i].sender);
    }
}

/// In-enclave transaction pool with deterministic tip ordering.
#[derive(Debug)]
pub struct Mempool {
    base_fee: u64,
    raw_buffer: Vec<Vec<u8>>,
    entries: Vec<PoolEntry>,
    hints: Vec<([u8; 20], u64)>,
    next_seq: u64,
    best_calls: u64,
    clear_every: u64,
}

impl View for Mempool {
    type V = MempoolView;

    closed spec fn view(&self) -> MempoolView {
        MempoolView {
            base_fee: self.base_fee,
            raw_buffer: self.raw_buffer@.map_values(|v: Vec<u8>| v@),
            entries: self.entries@,
            hints: self.hints@,
            next_seq: self.next_seq,
            best_calls: self.best_calls,
            clear_every: self.clear_every,
        }
    }
}

impl Default for Mempool {
    /// A pool with base fee 0 that clears its ordered set every 7 calls.
    fn default() -> (p: Self)
        ensures
            p@ == initial(0, 7),
            p@.wf(),
            p@.base_fee == 0,
            p@.clear_every == 7,
            p@.raw_buffer.len() == 0,
            p@.entries.len() == 0,
            p@.hints.len() == 0,
            p@.next_seq == 0,
            p@.best_calls == 0,
    {
        Mempool::new(0, 7)
    }
}

impl Mempool {
    /// An empty pool. `clear_every == 0` disables the periodic clear.
    pub fn new(base_fee: u64, clear_every: u64) -> (p: Self)
        ensures
            p@ == initial(base_fee, clear_every),
            p@.wf(),
            p@.base_fee == base_fee,
            p@.clear_every == clear_every,
            p@.raw_buffer.len() == 0,
            p@.entries.len() == 0,
            p@.hints.len() == 0,
            p@.next_seq == 0,
            p@.best_calls == 0,
    {
        let p = Mempool {
            base_fee,
            raw_buffer: Vec::new(),
            entries: Vec::new(),
            hints: Vec::new(),
            next_seq: 0,
            best_calls: 0,
            clear_every,
        };
        proof {
            assert(p.raw_buffer@.map_values(|v: Vec<u8>| v@) =~= Seq::<Seq<u8>>::empty());
            assert(p@.entries =~= Seq::<PoolEntry>::empty());
            assert(p@.hints =~= Seq::<([u8; 20], u64)>::empty());
        }
        p
    }

    /// Sets the base fee used for the tips of later submissions.
    pub fn set_base_fee(&mut self, base_fee: u64)
        requires
            old(self)@.wf(),
        ensures
            final(self)@ == (MempoolView { base_fee, ..old(self)@ }),
            final(self)@ == after_call(old(self)@, PoolCall::SetBaseFee(base_fee)),
            final(self)@.wf(),
    {
        self.base_fee = base_fee;
    }

    /// The insertion counter the next accepted submission will get.
    pub fn next_seq(&self) -> (r: u64)
        ensures
            r == self@.next_seq,
    {
        self.next_seq
    }

    /// Adds `e` to the working set (see `insert_entry`).
    fn insert_entry_exec(entries: &mut Vec<PoolEntry>, e: PoolEntry)
        requires
            distinct_hashes(old(entries)@),
            distinct_slots(old(entries)@),
            distinct_seqs(old(entries)@),
            forall|i: int| 0 <= i < old(entries)@.len() ==> #[trigger] old(entries)@[i].seq < e.seq,
        ensures
            final(entries)@ == insert_entry(old(entries)@, e),
            distinct_hashes(final(entries)@),
            distinct_slots(final(entries)@),
            distinct_seqs(final(entries)@),
            forall|i: int| 0 <= i < final(entries)@.len() ==> #[trigger] final(entries)@[i].seq <= e.seq,
    {
        let n = entries.len();
        let mut i: usize = 0;
        while i < n
            invariant
                n == entries.len(),
                0 <= i <= n,
                entries@ == old(entries)@,
                distinct_hashes(old(entries)@),
                distinct_slots(old(entries)@),
                distinct_seqs(old(entries)@),
                forall|k: int| 0 <= k < old(entries)@.len() ==> #[trigger] old(entries)@[k].seq < e.seq,
                forall|j: int| 0 <= j < i ==> #[trigger] entries@[j].hash != e.hash,
            decreases n - i,
        {
            if bytes_eq(&entries[i].hash, &e.hash) {
                assert(has_hash(entries@, e.hash));
                proof {
                    assert forall|k: int| 0 <= k < entries@.len() implies #[trigger] entries@[k].seq <= e.seq by {}
                }
                return;
            }
            i += 1;
        }
        assert(!has_hash(entries@, e.hash));
        let mut j: usize = 0;
        while j < n
            invariant
                n == entries.len(),
                0 <= j <= n,
                !has_hash(old(entries)@, e.hash),
                entries@ == old(entries)@,
                distinct_hashes(old(entries)@),
                distinct_slots(old(entries)@),
                distinct_seqs(old(entries)@),
                forall|k: int| 0 <= k < old(entries)@.len() ==> #[trigger] old(entries)@[k].seq < e.seq,
                forall|k: int| 0 <= k < j ==> !(#[trigger] entries@[k].sender == e.sender && entries@[k].nonce == e.nonce),
            decreases n - j,
        {
            if bytes_eq(&entries[j].sender, &e.sender) && entries[j].nonce == e.nonce {
                let ghost old_entries = entries@;
                proof {
                    assert(has_slot(old_entries, e));
                    let c = choose|c: int| 0 <= c < old_entries.len() && #[trigger] old_entries[c].sender == e.sender && old_entries[c].nonce == e.nonce;
                    if c != j as int {
                        assert(old_entries[c].sender == old_entries[j as int].sender);
                    }
                    assert(c == j as int);
                }
                if tip_above_exec(e.effective_tip, entries[j].effective_tip) {
                    entries.set(j, e);
                    proof {
                        let ne = entries@;
                        assert forall|a: int, b: int| 0 <= a < ne.len() && 0 <= b < ne.len() && a != b implies #[trigger] ne[a].hash != #[trigger] ne[b].hash by {
                            if a != j as int && b != j as int {
                                assert(old_entries[a].hash != old_entries[b].hash);
                            }
                        }
                        assert forall|a: int, b: int| 0 <= a < ne.len() && 0 <= b < ne.len() && a != b && #[trigger] ne[a].sender == #[trigger] ne[b].sender implies ne[a].nonce != ne[b].nonce by {
                            if a != j as int && b != j as int {
                                assert(old_entries[a].sender == old_entries[b].sender);
                            } else if a == j as int {
                                assert(old_entries[j as int].sender == old_entries[b].sender);
                            } else {
                                assert(old_entries[a].sender == old_entries[j as int].sender);
                            }
                        }
                        assert forall|a: int, b: int| 0 <= a < ne.len() && 0 <= b < ne.len() && a != b implies #[trigger] ne[a].seq != #[trigger] ne[b].seq by {
                            if a != j as int && b != j as int {
                                assert(old_entries[a].seq != old_entries[b].seq);
                            } else if a == j as int {
                                assert(old_entries[b].seq < e.seq);
                            } else {
                                assert(old_entries[a].seq < e.seq);
                            }
                        }
                        assert forall|k: int| 0 <= k < ne.len() implies #[trigger] ne[k].seq <= e.seq by {
                            if k != j as int {
                                assert(old_entries[k].seq < e.seq);
                            }
                        }
                    }
                } else {
                    proof {
                        assert forall|k: int| 0 <= k < entries@.len() implies #[trigger] entries@[k].seq <= e.seq by {}
                    }
                }
                return;
            }
            j += 1;
        }
        assert(!has_slot(entries@, e));
        let ghost old_entries = entries@;
        assert(old_entries == old(entries)@);
        assert forall|k: int| 0 <= k < n implies #[trigger] old_entries[k].hash != e.hash by {
            assert(entries@[k].hash != e.hash);
        }
        assert(distinct_hashes(old_entries));
        entries.push(e);
        proof {
            let ne = entries@;
            assert forall|a: int, b: int| 0 <= a < ne.len() && 0 <= b < ne.len() && a != b implies #[trigger] ne[a].hash != #[trigger] ne[b].hash by {
                if a < n && b < n {
                    assert(old_entries[a].hash != old_entries[b].hash);
                } else if a == n {
                    assert(old_entries[b].hash != e.hash);
                } else {
                    assert(old_entries[a].hash != e.hash);
                }
            }
            assert forall|a: int, b: int| 0 <= a < ne.len() && 0 <= b < ne.len() && a != b && #[trigger] ne[a].sender == #[trigger] ne[b].sender implies ne[a].nonce != ne[b].nonce by {
                if a < n && b < n {
                    assert(old_entries[a].sender == old_entries[b].sender);
                } else if a == n {
                    assert(!(old_entries[b].sender == e.sender && old_entries[b].nonce == e.nonce));
                } else {
                    assert(!(old_entries[a].sender == e.sender && old_entries[a].nonce == e.nonce));
                }
            }
            assert forall|a: int, b: int| 0 <= a < ne.len() && 0 <= b < ne.len() && a != b implies #[trigger] ne[a].seq != #[trigger] ne[b].seq by {
                if a < n && b < n {
                    assert(old_entries[a].seq != old_entries[b].seq);
                } else if a == n {
                    assert(old_entries[b].seq < e.seq);
                } else {
                    assert(old_entries[a].seq < e.seq);
                }
            }
            assert forall|k: int| 0 <= k < ne.len() implies #[trigger] ne[k].seq <= e.seq by {
                if k < n {
                    assert(old_entries[k].seq < e.seq);
                }
            }
        }
    }

    /// Accepts a submission that has already been hashed and decoded: the raw
    /// bytes join the drain buffer and the transaction the working set.
    pub fn insert_decoded(&mut self, raw: Vec<u8>, hash: [u8; 32], tx: DecodedTx)
        requires
            old(self)@.wf(),
            old(self)@.next_seq < u64::MAX,
        ensures
            final(self)@ == accepted(old(self)@, raw@, hash, tx),
            final(self)@.wf(),
    {
        let e = PoolEntry {
            hash,
            sender: tx.sender,
            nonce: tx.nonce,
            effective_tip: tx.effective_tip,
            seq: self.next_seq,
        };
        let ghost old_raw = self.raw_buffer@.map_values(|v: Vec<u8>| v@);
        Self::insert_entry_exec(&mut self.entries, e);
        self.next_seq = self.next_seq + 1;
        self.raw_buffer.push(raw);
        proof {
            assert(self.raw_buffer@.map_values(|v: Vec<u8>| v@) =~= old_raw.push(raw@));
        }
    }

    /// Accepts a raw EIP-2718 transaction and returns its hash, the Keccak-256
    /// of exactly the submitted bytes. The bytes join the drain buffer and the
    /// decoded transaction the working set; a refused submission changes nothing.
    pub fn add_raw_transaction(&mut self, raw: Vec<u8>) -> (res: Result<[u8; 32], MempoolError>)
        requires
            old(self)@.wf(),
            old(self)@.next_seq < u64::MAX,
        ensures
            final(self)@.wf(),
            final(self)@ == after_call(old(self)@, PoolCall::Add(raw@)),
            res is Ok <==> decodes_2718(raw@) && signer_of(raw@) is Some,
            res matches Err(MempoolError::Decode(_)) <==> !decodes_2718(raw@),
            res matches Err(MempoolError::Decode(m)) ==> m@ == decode_error_text(raw@),
            res matches Err(MempoolError::Recovery(m)) ==> m@ == recovery_error_text(raw@),
            res is Err ==> final(self)@ == old(self)@,
            res matches Ok(h) ==> h@ == keccak256_of(raw@),
            res matches Ok(h) ==> exists|s: [u8; 20]|
                signer_of(raw@) == Some(s@) && final(self)@ == accepted(
                    old(self)@,
                    raw@,
                    h,
                    (DecodedTx {
                        sender: s,
                        nonce: nonce_of(raw@),
                        effective_tip: effective_tip_of(raw@, old(self)@.base_fee),
                    }),
                ),
    {
        let hash = keccak256(raw.as_slice());
        let decoded = match decode_2718(raw.as_slice()) {
            Ok(d) => d,
            Err(e) => {
                return Err(MempoolError::Decode(e));
            },
        };
        let sender = match recover_signer(&decoded) {
            Ok(a) => a,
            Err(e) => {
                return Err(MempoolError::Recovery(e));
            },
        };
        let effective_tip = effective_tip_per_gas(&decoded, self.base_fee);
        let nonce = tx_nonce(&decoded);
        let tx = DecodedTx { sender, nonce, effective_tip };
        let ghost before = self@;
        let ghost raw_view = raw@;
        self.insert_decoded(raw, hash, tx);
        assert(signer_of(raw_view) == Some(sender@) && self@ == accepted(before, raw_view, hash, tx));
        proof {
            lemma_bytes_view_injective(hash, hash_of(raw_view));
            let s = choose|s: [u8; 20]| signer_of(raw_view) == Some(s@);
            lemma_bytes_view_injective(sender, s);
            assert(tx == decoded_of(raw_view, before.base_fee));
        }
        Ok(hash)
    }

    /// Records the on-chain account nonce of `sender`: its ready run starts there
    /// from now on, in place of its lowest pooled nonce.
    pub fn set_account_nonce(&mut self, sender: [u8; 20], nonce: u64)
        requires
            old(self)@.wf(),
        ensures
            final(self)@.wf(),
            forall|s: [u8; 20]| #[trigger] hint_of(final(self)@.hints, s) == if s == sender {
                Some(nonce)
            } else {
                hint_of(old(self)@.hints, s)
            },
            final(self)@ == (MempoolView { hints: set_hint(old(self)@.hints, sender, nonce), ..old(self)@ }),
            final(self)@ == after_call(old(self)@, PoolCall::SetAccountNonce(sender, nonce)),
    {
        let n = self.hints.len();
        let ghost h0 = self.hints@;
        let mut i: usize = 0;
        while i < n
            invariant
                n == self.hints.len(),
                self.hints@ == h0,
                self@ == old(self)@,
                old(self)@.wf(),
                distinct_hint_senders(h0),
                0 <= i <= n,
                forall|k: int| 0 <= k < i ==> #[trigger] h0[k].0 != sender,
            decreases n - i,
        {
            if bytes_eq(&self.hints[i].0, &sender) {
                self.hints.set(i, (sender, nonce));
                proof {
                    let h1 = self.hints@;
                    let c = choose|c: int| 0 <= c < h0.len() && #[trigger] h0[c].0 == sender;
                    if c != i as int {
                        assert(h0[c].0 != h0[i as int].0);
                    }
                    assert(h1 == set_hint(h0, sender, nonce));
                    assert forall|a: int, b: int| 0 <= a < h1.len() && 0 <= b < h1.len() && a != b implies #[trigger] h1[a].0 != #[trigger] h1[b].0 by {
                        if a != i as int && b != i as int {
                            assert(h0[a].0 != h0[b].0);
                        } else if a == i as int {
                            assert(h0[i as int].0 != h0[b].0);
                        } else {
                            assert(h0[a].0 != h0[i as int].0);
                        }
                    }
                    assert forall|s: [u8; 20]| #[trigger] hint_of(h1, s) == if s == sender { Some(nonce) } else { hint_of(h0, s) } by {
                        if s == sender {
                            assert(h1[i as int].0 == s);
                            let c = choose|c: int| 0 <= c < h1.len() && #[trigger] h1[c].0 == s;
                            if c != i as int {
                                assert(h1[c].0 != h1[i as int].0);
                            }
                        } else {
                            if exists|c: int| 0 <= c < h0.len() && #[trigger] h0[c].0 == s {
                                let c = choose|c: int| 0 <= c < h0.len() && #[trigger] h0[c].0 == s;
                                assert(h1[c].0 == s);
                                let d = choose|d: int| 0 <= d < h1.len() && #[trigger] h1[d].0 == s;
                                if d != c {
                                    if d == i as int {
                                        assert(false);
                                    } else {
                                        assert(h0[d].0 == s);
                                        assert(h0[c].0 != h0[d].0);
                                    }
                                }
                            } else {
                                assert forall|c: int| 0 <= c < h1.len() implies #[trigger] h1[c].0 != s by {
                                    if c != i as int {
                                        assert(h0[c].0 != s);
                                    }
                                }
                            }
                        }
                    }
                }
                return;
            }
            i += 1;
        }
        self.hints.push((sender, nonce));
        proof {
            let h1 = self.hints@;
            assert(h1 == set_hint(h0, sender, nonce));
            assert forall|a: int, b: int| 0 <= a < h1.len() && 0 <= b < h1.len() && a != b implies #[trigger] h1[a].0 != #[trigger] h1[b].0 by {
                if a < n && b < n {
                    assert(h0[a].0 != h0[b].0);
                } else if a == n {
                    assert(h0[b].0 != sender);
                } else {
                    assert(h0[a].0 != sender);
                }
            }
            assert forall|s: [u8; 20]| #[trigger] hint_of(h1, s) == if s == sender { Some(nonce) } else { hint_of(h0, s) } by {
                if s == sender {
                    assert(h1[n as int].0 == s);
                    let c = choose|c: int| 0 <= c < h1.len() && #[trigger] h1[c].0 == s;
                    if c != n as int {
                        assert(h0[c].0 != sender);
                    }
                } else {
                    if exists|c: int| 0 <= c < h0.len() && #[trigger] h0[c].0 == s {
                        let c = choose|c: int| 0 <= c < h0.len() && #[trigger] h0[c].0 == s;
                        assert(h1[c].0 == s);
                        let d = choose|d: int| 0 <= d < h1.len() && #[trigger] h1[d].0 == s;
                        if d != c {
                            assert(h0[d].0 == s);
                            assert(h0[c].0 != h0[d].0);
                        }
                    } else {
                        assert forall|c: int| 0 <= c < h1.len() implies #[trigger] h1[c].0 != s by {
                            if c < n {
                                assert(h0[c].0 != s);
                            }
                        }
                    }
                }
            }
        }
    }

    /// Hands out the raw submissions in arrival order and empties the buffer.
    /// The working set is not touched.
    pub fn drain_raw_transactions(&mut self) -> (res: Vec<Vec<u8>>)
        requires
            old(self)@.wf(),
        ensures
            final(self)@.wf(),
            res@.map_values(|v: Vec<u8>| v@) == old(self)@.raw_buffer,
            final(self)@ == (MempoolView { raw_buffer: Seq::empty(), ..old(self)@ }),
            final(self)@ == after_call(old(self)@, PoolCall::Drain),
    {
        let mut out: Vec<Vec<u8>> = Vec::new();
        std::mem::swap(&mut out, &mut self.raw_buffer);
        proof {
            assert(self.raw_buffer@.map_values(|v: Vec<u8>| v@) =~= Seq::<Seq<u8>>::empty());
        }
        out
    }

    /// The best-first ordering of the ready transactions, without side effects.
    pub fn compute_order(&self) -> (res: Vec<[u8; 32]>)
        requires
            self@.wf(),
        ensures
            res@ == best_order(self@),
    {
        let ghost ev = self.entries@;
        let ghost hv = self.hints@;
        let qs = sender_queues(&self.entries);
        let ghost qv = queues_view(qs@);
        let ng = qs.len();
        let mut starts: Vec<usize> = Vec::new();
        let mut ends: Vec<usize> = Vec::new();
        let mut g: usize = 0;
        while g < ng
            invariant
                ng == qs@.len(),
                qv == queues_view(qs@),
                queues_ok(qv),
                forall|y: PoolEntry| #[trigger] in_queues(qv, y) <==> ev.contains(y),
                ev == self.entries@,
                hv == self.hints@,
                distinct_hint_senders(hv),
                0 <= g <= ng,
                starts@.len() == g,
                ends@.len() == g,
                forall|h: int| 0 <= h < g ==> starts@[h] <= #[trigger] ends@[h] <= qv[h].len(),
                forall|h: int, j: int| 0 <= h < g && 0 <= j < qv[h].len()
                    ==> (starts@[h] <= j < ends@[h] <==> is_ready(ev, hv, #[trigger] qv[h][j])),
            decreases ng - g,
        {
            assert(qv[g as int] == qs@[g as int]@);
            let q = &qs[g];
            let a = match hint_lookup(&self.hints, &q[0].sender) {
                Some(n) => n,
                None => q[0].nonce,
            };
            assert(a as int == queue_anchor(hv, qv[g as int]));
            assert(nonces_increasing(q@));
            let (st, en) = ready_range(q, a);
            proof {
                assert forall|j: int| 0 <= j < qv[g as int].len() implies (st <= j < en <==> is_ready(ev, hv, #[trigger] qv[g as int][j])) by {
                    lemma_ready_in_queue(ev, hv, qv, g as int, j);
                    assert(st <= j < en <==> queue_ready(q@, a as int, j));
                }
            }
            starts.push(st);
            ends.push(en);
            g += 1;
        }
        let ghost rem0 = ready_entries(ev, hv);
        proof {
            lemma_ready_entries(self@);
            assert forall|y: PoolEntry| #[trigger] rem0.contains(y) <==> pending_in(qv, starts@, ends@, y) by {
                if rem0.contains(y) {
                    assert(in_queues(qv, y));
                    let (h, j) = choose|h: int, j: int| 0 <= h < qv.len() && 0 <= j < qv[h].len() && #[trigger] qv[h][j] == y;
                    assert(starts@[h] <= j < ends@[h]);
                }
                if pending_in(qv, starts@, ends@, y) {
                    let (h, j) = choose|h: int, j: int| 0 <= h < qv.len() && starts@[h] <= j < ends@[h] && #[trigger] qv[h][j] == y;
                    assert(in_queues(qv, y));
                    assert(is_ready(ev, hv, qv[h][j]));
                }
            }
        }
        merge_queues(&qs, starts, &ends, Ghost(rem0))
    }

    /// The best-first ordering of the ready transactions. Every `clear_every`-th
    /// call (none when `clear_every` is 0) empties the working set afterwards.
    pub fn best_transaction_hashes(&mut self) -> (res: Vec<[u8; 32]>)
        requires
            old(self)@.wf(),
            old(self)@.best_calls < u64::MAX,
        ensures
            res@ == best_order(old(self)@),
            final(self)@ == after_best(old(self)@),
            final(self)@ == after_call(old(self)@, PoolCall::Best),
            final(self)@.wf(),
    {
        let ordered = self.compute_order();
        self.best_calls = self.best_calls + 1;
        if self.clear_every != 0 && self.best_calls % self.clear_every == 0 {
            self.entries.clear();
        }
        ordered
    }

    /// Buffer, pool and call counters.
    pub fn stats(&self) -> (s: PoolStats)
        ensures
            s.raw_buffered == self@.raw_buffer.len(),
            s.pooled == self@.entries.len(),
            s.best_calls == self@.best_calls,
    {
        PoolStats {
            raw_buffered: self.raw_buffer.len(),
            pooled: self.entries.len(),
            best_calls: self.best_calls,
        }
    }
}

} // verus!
