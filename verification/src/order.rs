//! Deterministic tip-priority ordering of pooled transactions.
//!
//! The pending transactions are merged greedily: at every step the *head* of
//! some sender (its lowest outstanding nonce) with the highest effective tip is
//! emitted; equal tips go to the transaction seen first.

use vstd::prelude::*;

verus! {

/// One transaction held in the pool.
#[derive(Clone, Copy, Debug)]
pub struct PoolEntry {
    /// Keccak-256 of the raw bytes that were submitted.
    pub hash: [u8; 32],
    /// Recovered signer.
    pub sender: [u8; 20],
    pub nonce: u64,
    /// Effective tip per gas at the base fee in force when it was added; `None`
    /// when it cannot pay that base fee (kept, but sorted last).
    pub effective_tip: Option<u128>,
    /// Insertion counter: the tie-break, first seen wins.
    pub seq: u64,
}

/// Tip `a` ranks above tip `b`: a transaction that pays the base fee ranks above
/// one that cannot, and of two that pay, the higher tip ranks above.
pub open spec fn tip_above(a: Option<u128>, b: Option<u128>) -> bool {
    match a {
        Some(x) => match b {
            Some(y) => x > y,
            None => true,
        },
        None => false,
    }
}

/// `a` is emitted before `b` when both are ready heads: higher tip first (those
/// that cannot pay the base fee last), then earlier insertion.
pub open spec fn outranks(a: PoolEntry, b: PoolEntry) -> bool {
    tip_above(a.effective_tip, b.effective_tip) || (a.effective_tip == b.effective_tip && a.seq < b.seq)
}

/// Of two tips that both pay the base fee, the numerically larger ranks above.
pub proof fn lemma_tip_above_paying(x: u128, y: u128)
    ensures
        tip_above(Some(x), Some(y)) <==> x > y,
{
}

/// A tip that pays the base fee ranks above one that cannot, and one that cannot
/// pay ranks above no tip.
pub proof fn lemma_tip_above_unpayable(x: u128, t: Option<u128>)
    ensures
        tip_above(Some(x), None),
        !tip_above(None, t),
{
}

/// Which of two ready heads goes first, in arithmetic on their tips and
/// insertion counters: the higher paying tip; a paying tip before one that cannot
/// pay; on equal tips (or two that cannot pay) the one inserted first, whatever
/// the nonces.
pub proof fn lemma_outranks_arith(a: PoolEntry, b: PoolEntry)
    ensures
        a.effective_tip is Some && b.effective_tip is Some ==> (outranks(a, b) <==> (
            a.effective_tip->0 > b.effective_tip->0
                || (a.effective_tip->0 == b.effective_tip->0 && a.seq < b.seq))),
        a.effective_tip is Some && b.effective_tip is None ==> outranks(a, b),
        a.effective_tip is None && b.effective_tip is Some ==> !outranks(a, b),
        a.effective_tip is None && b.effective_tip is None ==> (outranks(a, b) <==> a.seq < b.seq),
{
}

/// `p[i]` is the next transaction of its sender: no entry of the same sender in
/// `p` has a lower nonce.
pub open spec fn is_head(p: Seq<PoolEntry>, i: int) -> bool {
    &&& 0 <= i < p.len()
    &&& forall|j: int| 0 <= j < p.len() && #[trigger] p[j].sender == p[i].sender ==> p[i].nonce <= p[j].nonce
}

/// `p[i]` is the head that outranks every other head of `p`.
pub open spec fn is_best_head(p: Seq<PoolEntry>, i: int) -> bool {
    &&& is_head(p, i)
    &&& forall|j: int| #[trigger] is_head(p, j) && j != i ==> outranks(p[i], p[j])
}

/// No two entries share an insertion counter.
pub open spec fn distinct_seqs(p: Seq<PoolEntry>) -> bool {
    forall|i: int, j: int| 0 <= i < p.len() && 0 <= j < p.len() && i != j ==> #[trigger] p[i].seq != #[trigger] p[j].seq
}

/// The greedy merge: emit the best head, then order what is left.
pub open spec fn greedy_order(p: Seq<PoolEntry>) -> Seq<PoolEntry>
    decreases p.len(),
{
    if exists|i: int| is_best_head(p, i) {
        let i = choose|i: int| is_best_head(p, i);
        seq![p[i]] + greedy_order(p.remove(i))
    } else {
        Seq::empty()
    }
}

/// The hashes of a sequence of entries.
pub open spec fn hashes_of(p: Seq<PoolEntry>) -> Seq<[u8; 32]> {
    p.map_values(|e: PoolEntry| e.hash)
}

/// At most one entry is the best head.
pub proof fn lemma_best_head_unique(p: Seq<PoolEntry>, i: int, j: int)
    requires
        is_best_head(p, i),
        is_best_head(p, j),
    ensures
        i == j,
{
    if i != j {
        assert(is_head(p, j));
        assert(is_head(p, i));
        assert(outranks(p[i], p[j]));
        assert(outranks(p[j], p[i]));
    }
}

/// One step of the merge: with `p[i]` the best head, the order is `p[i]` then
/// the order of the rest.
pub proof fn lemma_greedy_step(p: Seq<PoolEntry>, i: int)
    requires
        is_best_head(p, i),
    ensures
        greedy_order(p) == seq![p[i]] + greedy_order(p.remove(i)),
{
    let k = choose|k: int| is_best_head(p, k);
    lemma_best_head_unique(p, i, k);
}

/// Removing one entry keeps the insertion counters distinct.
pub proof fn lemma_remove_distinct(p: Seq<PoolEntry>, i: int)
    requires
        distinct_seqs(p),
        0 <= i < p.len(),
    ensures
        distinct_seqs(p.remove(i)),
        forall|x: PoolEntry| #[trigger] p.remove(i).contains(x) <==> p.contains(x) && x != p[i],
{
    let r = p.remove(i);
    p.remove_ensures(i);
    assert forall|a: int, b: int| 0 <= a < r.len() && 0 <= b < r.len() && a != b implies #[trigger] r[a].seq != #[trigger] r[b].seq by {
        let a0 = if a < i { a } else { a + 1 };
        let b0 = if b < i { b } else { b + 1 };
        assert(p[a0].seq != p[b0].seq);
    }
    assert forall|x: PoolEntry| #[trigger] r.contains(x) <==> p.contains(x) && x != p[i] by {
        if r.contains(x) {
            let m = choose|m: int| 0 <= m < r.len() && r[m] == x;
            let m0 = if m < i { m } else { m + 1 };
            assert(p[m0] == x);
            assert(p[m0].seq != p[i].seq);
        }
        if p.contains(x) && x != p[i] {
            let m = choose|m: int| 0 <= m < p.len() && p[m] == x;
            if m < i {
                assert(r[m] == x);
            } else {
                assert(r[m - 1] == x);
            }
        }
    }
}

/// A non-empty sequence has a head.
pub proof fn lemma_exists_head(p: Seq<PoolEntry>)
    requires
        p.len() > 0,
    ensures
        exists|i: int| is_head(p, i),
    decreases p.len(),
{
    if p.len() == 1 {
        assert(is_head(p, 0));
    } else {
        let q = p.drop_last();
        lemma_exists_head(q);
        let h = choose|i: int| is_head(q, i);
        let x = p.last();
        if x.sender == q[h].sender && x.nonce < q[h].nonce {
            let l = p.len() - 1;
            assert forall|j: int| 0 <= j < p.len() && #[trigger] p[j].sender == p[l].sender implies p[l].nonce <= p[j].nonce by {
                if j < l {
                    assert(q[j].sender == q[h].sender);
                }
            }
            assert(is_head(p, l));
        } else {
            assert forall|j: int| 0 <= j < p.len() && #[trigger] p[j].sender == p[h].sender implies p[h].nonce <= p[j].nonce by {
                if j < p.len() - 1 {
                    assert(q[j].sender == q[h].sender);
                }
            }
            assert(is_head(p, h));
        }
    }
}

/// Among the first `k` positions, some head outranks every other head.
proof fn lemma_best_head_upto(p: Seq<PoolEntry>, k: int)
    requires
        p.len() > 0,
        distinct_seqs(p),
        0 <= k <= p.len(),
    ensures
        exists|b: int| is_head(p, b) && forall|j: int| 0 <= j < k && #[trigger] is_head(p, j) && j != b ==> outranks(p[b], p[j]),
    decreases k,
{
    if k == 0 {
        lemma_exists_head(p);
        let b = choose|i: int| is_head(p, i);
        assert(is_head(p, b) && forall|j: int| 0 <= j < k && #[trigger] is_head(p, j) && j != b ==> outranks(p[b], p[j]));
    } else {
        lemma_best_head_upto(p, k - 1);
        let b = choose|b: int| is_head(p, b) && forall|j: int| 0 <= j < k - 1 && #[trigger] is_head(p, j) && j != b ==> outranks(p[b], p[j]);
        let c = k - 1;
        if is_head(p, c) && c != b && outranks(p[c], p[b]) {
            assert forall|j: int| 0 <= j < k && #[trigger] is_head(p, j) && j != c implies outranks(p[c], p[j]) by {
                if j != b {
                    assert(outranks(p[b], p[j]));
                }
            }
        } else {
            if is_head(p, c) && c != b {
                assert(p[c].seq != p[b].seq);
            }
            assert(is_head(p, b) && forall|j: int| 0 <= j < k && #[trigger] is_head(p, j) && j != b ==> outranks(p[b], p[j]));
        }
    }
}

/// A non-empty sequence with distinct insertion counters has a best head.
pub proof fn lemma_exists_best_head(p: Seq<PoolEntry>)
    requires
        p.len() > 0,
        distinct_seqs(p),
    ensures
        exists|i: int| is_best_head(p, i),
{
    lemma_best_head_upto(p, p.len() as int);
    let b = choose|b: int| is_head(p, b) && forall|j: int| 0 <= j < p.len() && #[trigger] is_head(p, j) && j != b ==> outranks(p[b], p[j]);
    assert(is_best_head(p, b));
}

/// The ordering lists every pending transaction exactly once and nothing else.
pub proof fn lemma_greedy_is_permutation(p: Seq<PoolEntry>)
    requires
        distinct_seqs(p),
    ensures
        greedy_order(p).len() == p.len(),
        greedy_order(p).no_duplicates(),
        forall|x: PoolEntry| #[trigger] greedy_order(p).contains(x) <==> p.contains(x),
    decreases p.len(),
{
    if p.len() == 0 {
        assert(!exists|i: int| is_best_head(p, i));
    } else {
        lemma_exists_best_head(p);
        let i = choose|i: int| is_best_head(p, i);
        lemma_greedy_step(p, i);
        lemma_remove_distinct(p, i);
        lemma_greedy_is_permutation(p.remove(i));
        let g = greedy_order(p);
        let rest = greedy_order(p.remove(i));
        assert forall|x: PoolEntry| #[trigger] g.contains(x) <==> p.contains(x) by {
            if g.contains(x) {
                let m = choose|m: int| 0 <= m < g.len() && g[m] == x;
                if m > 0 {
                    assert(rest[m - 1] == x);
                    assert(rest.contains(x));
                }
            }
            if p.contains(x) {
                if x == p[i] {
                    assert(g[0] == x);
                } else {
                    assert(rest.contains(x));
                    let m = choose|m: int| 0 <= m < rest.len() && rest[m] == x;
                    assert(g[m + 1] == x);
                }
            }
        }
        assert forall|a: int, b: int| 0 <= a < g.len() && 0 <= b < g.len() && a != b implies g[a] != g[b] by {
            if a > 0 && b > 0 {
                assert(rest[a - 1] == g[a]);
                assert(rest[b - 1] == g[b]);
            } else if a == 0 {
                assert(rest[b - 1] == g[b]);
                assert(rest.contains(g[b]));
            } else {
                assert(rest[a - 1] == g[a]);
                assert(rest.contains(g[a]));
            }
        }
    }
}

/// Transactions of one sender come out in increasing nonce order.
pub proof fn lemma_greedy_respects_nonces(p: Seq<PoolEntry>, a: int, b: int)
    requires
        distinct_seqs(p),
        0 <= a < greedy_order(p).len(),
        0 <= b < greedy_order(p).len(),
        greedy_order(p)[a].sender == greedy_order(p)[b].sender,
        greedy_order(p)[a].nonce < greedy_order(p)[b].nonce,
    ensures
        a < b,
    decreases p.len(),
{
    lemma_greedy_is_permutation(p);
    lemma_exists_best_head(p);
    let i = choose|i: int| is_best_head(p, i);
    lemma_greedy_step(p, i);
    lemma_remove_distinct(p, i);
    let g = greedy_order(p);
    let rest = greedy_order(p.remove(i));
    if b == 0 {
        assert(g.contains(g[a]));
        let j = choose|j: int| 0 <= j < p.len() && p[j] == g[a];
        assert(p[j].sender == p[i].sender);
    } else if a > 0 {
        assert(rest[a - 1] == g[a]);
        assert(rest[b - 1] == g[b]);
        lemma_greedy_respects_nonces(p.remove(i), a - 1, b - 1);
    }
}

/// When no two pending transactions share a sender, the ordering is by tip,
/// highest first, equal tips in the order first seen.
pub proof fn lemma_greedy_sorted_when_senders_distinct(p: Seq<PoolEntry>, a: int, b: int)
    requires
        distinct_seqs(p),
        forall|x: int, y: int| 0 <= x < p.len() && 0 <= y < p.len() && x != y ==> #[trigger] p[x].sender != #[trigger] p[y].sender,
        0 <= a < b < greedy_order(p).len(),
    ensures
        outranks(greedy_order(p)[a], greedy_order(p)[b]),
    decreases p.len(),
{
    lemma_greedy_is_permutation(p);
    lemma_exists_best_head(p);
    let i = choose|i: int| is_best_head(p, i);
    lemma_greedy_step(p, i);
    lemma_remove_distinct(p, i);
    let g = greedy_order(p);
    let q = p.remove(i);
    let rest = greedy_order(q);
    lemma_greedy_is_permutation(q);
    if a == 0 {
        assert(rest[b - 1] == g[b]);
        assert(rest.contains(g[b]));
        assert(q.contains(g[b]));
        let j = choose|j: int| 0 <= j < p.len() && p[j] == g[b];
        assert(j != i);
        assert forall|k: int| 0 <= k < p.len() && #[trigger] p[k].sender == p[j].sender implies p[j].nonce <= p[k].nonce by {
            if k != j {
                assert(p[k].sender != p[j].sender);
            }
        }
        assert(is_head(p, j));
    } else {
        p.remove_ensures(i);
        assert forall|x: int, y: int| 0 <= x < q.len() && 0 <= y < q.len() && x != y implies #[trigger] q[x].sender != #[trigger] q[y].sender by {
            let x0 = if x < i { x } else { x + 1 };
            let y0 = if y < i { y } else { y + 1 };
            assert(p[x0].sender != p[y0].sender);
        }
        assert(rest[a - 1] == g[a]);
        assert(rest[b - 1] == g[b]);
        lemma_greedy_sorted_when_senders_distinct(q, a - 1, b - 1);
    }
}

/// The ordering depends only on which transactions are pending, not on the order
/// in which they are stored.
pub proof fn lemma_greedy_ignores_storage_order(p: Seq<PoolEntry>, q: Seq<PoolEntry>)
    requires
        distinct_seqs(p),
        distinct_seqs(q),
        p.len() == q.len(),
        forall|x: PoolEntry| #[trigger] p.contains(x) <==> q.contains(x),
    ensures
        greedy_order(p) == greedy_order(q),
    decreases p.len(),
{
    if p.len() == 0 {
        assert(!exists|i: int| is_best_head(p, i));
        assert(!exists|i: int| is_best_head(q, i));
    } else {
        lemma_exists_best_head(p);
        let i = choose|i: int| is_best_head(p, i);
        let x = p[i];
        assert(p.contains(x));
        assert(q.contains(x));
        let k = choose|k: int| 0 <= k < q.len() && q[k] == x;
        assert forall|a: int, b: int| 0 <= a < p.len() && 0 <= b < q.len() && p[a] == q[b] implies (is_head(p, a) <==> is_head(q, b)) by {
            if is_head(p, a) {
                assert forall|j: int| 0 <= j < q.len() && #[trigger] q[j].sender == q[b].sender implies q[b].nonce <= q[j].nonce by {
                    assert(q.contains(q[j]));
                    assert(p.contains(q[j]));
                    let m = choose|m: int| 0 <= m < p.len() && p[m] == q[j];
                    assert(p[m].sender == p[a].sender);
                }
            }
            if is_head(q, b) {
                assert forall|j: int| 0 <= j < p.len() && #[trigger] p[j].sender == p[a].sender implies p[a].nonce <= p[j].nonce by {
                    assert(p.contains(p[j]));
                    assert(q.contains(p[j]));
                    let m = choose|m: int| 0 <= m < q.len() && q[m] == p[j];
                    assert(q[m].sender == q[b].sender);
                }
            }
        }
        assert(is_best_head(q, k)) by {
            assert(is_head(q, k));
            assert forall|j: int| #[trigger] is_head(q, j) && j != k implies outranks(q[k], q[j]) by {
                assert(q.contains(q[j]));
                assert(p.contains(q[j]));
                let m = choose|m: int| 0 <= m < p.len() && p[m] == q[j];
                assert(is_head(p, m));
                if m == i {
                    assert(q[j] == q[k]);
                    assert(q[j].seq == q[k].seq);
                }
            }
        }
        lemma_greedy_step(p, i);
        lemma_greedy_step(q, k);
        lemma_remove_distinct(p, i);
        lemma_remove_distinct(q, k);
        p.remove_ensures(i);
        q.remove_ensures(k);
        lemma_greedy_ignores_storage_order(p.remove(i), q.remove(k));
    }
}

/// Byte-wise equality of two fixed-size byte arrays.
pub fn bytes_eq<const N: usize>(a: &[u8; N], b: &[u8; N]) -> (r: bool)
    ensures
        r == (*a == *b),
{
    let mut i: usize = 0;
    while i < N
        invariant
            0 <= i <= N,
            a@.len() == N,
            b@.len() == N,
            forall|j: int| 0 <= j < i ==> a@[j] == b@[j],
        decreases N - i,
    {
        if a[i] != b[i] {
            assert(a@[i as int] != b@[i as int]);
            return false;
        }
        i += 1;
    }
    assert(*a =~= *b);
    true
}

/// Exec form of `tip_above`.
pub fn tip_above_exec(a: Option<u128>, b: Option<u128>) -> (r: bool)
    ensures
        r == tip_above(a, b),
{
    match a {
        Some(x) => match b {
            Some(y) => x > y,
            None => true,
        },
        None => false,
    }
}

/// Whether two recorded tips are equal.
fn same_tip(a: Option<u128>, b: Option<u128>) -> (r: bool)
    ensures
        r == (a == b),
{
    match a {
        Some(x) => match b {
            Some(y) => x == y,
            None => false,
        },
        None => b.is_none(),
    }
}

/// Exec form of `outranks`.
pub fn outranks_exec(a: &PoolEntry, b: &PoolEntry) -> (r: bool)
    ensures
        r == outranks(*a, *b),
{
    tip_above_exec(a.effective_tip, b.effective_tip) || (same_tip(a.effective_tip, b.effective_tip) && a.seq < b.seq)
}

} // verus!
