//! Computing the ordering efficiently: the pool is split into per-sender queues
//! sorted by nonce, each queue is cut to its ready run, and the queues are merged
//! by repeatedly taking the best queue front.

use vstd::prelude::*;
use crate::mempool::{
    anchor, distinct_slots, has_nonce, hint_of, is_lowest_nonce, is_ready, lemma_lowest_unique,
};
use crate::order::{
    bytes_eq, distinct_seqs, greedy_order, hashes_of, is_best_head, is_head, lemma_greedy_step, lemma_remove_distinct,
    outranks, outranks_exec, PoolEntry,
};

verus! {

/// The contents of the queues.
pub open spec fn queues_view(qs: Seq<Vec<PoolEntry>>) -> Seq<Seq<PoolEntry>> {
    qs.map_values(|v: Vec<PoolEntry>| v@)
}

/// Non-empty queues, one per sender, each sorted by strictly increasing nonce.
pub open spec fn queues_ok(qs: Seq<Seq<PoolEntry>>) -> bool {
    &&& forall|g: int| 0 <= g < qs.len() ==> #[trigger] qs[g].len() > 0
    &&& forall|g: int, j: int| 0 <= g < qs.len() && 0 <= j < qs[g].len() ==> #[trigger] qs[g][j].sender == qs[g][0].sender
    &&& forall|g1: int, g2: int| 0 <= g1 < qs.len() && 0 <= g2 < qs.len() && g1 != g2 ==> #[trigger] qs[g1][0].sender != #[trigger] qs[g2][0].sender
    &&& forall|g: int, j1: int, j2: int| 0 <= g < qs.len() && 0 <= j1 < j2 < qs[g].len() ==> #[trigger] qs[g][j1].nonce < #[trigger] qs[g][j2].nonce
}

/// `y` sits in some queue.
pub open spec fn in_queues(qs: Seq<Seq<PoolEntry>>, y: PoolEntry) -> bool {
    exists|g: int, j: int| 0 <= g < qs.len() && 0 <= j < qs[g].len() && #[trigger] qs[g][j] == y
}

/// The index of the queue of `sender`, or the number of queues when there is none.
fn find_queue(qs: &Vec<Vec<PoolEntry>>, sender: &[u8; 20]) -> (g: usize)
    requires
        queues_ok(queues_view(qs@)),
    ensures
        g <= qs.len(),
        g < qs.len() ==> queues_view(qs@)[g as int][0].sender == *sender,
        forall|h: int| 0 <= h < g ==> #[trigger] queues_view(qs@)[h][0].sender != *sender,
{
    let ghost qv = queues_view(qs@);
    let ng = qs.len();
    let mut g: usize = 0;
    while g < ng
        invariant
            ng == qs.len(),
            qv == queues_view(qs@),
            queues_ok(qv),
            0 <= g <= ng,
            forall|h: int| 0 <= h < g ==> #[trigger] qv[h][0].sender != *sender,
        decreases ng - g,
    {
        assert(qv[g as int] == qs@[g as int]@);
        assert(qv[g as int].len() > 0);
        if bytes_eq(&qs[g][0].sender, sender) {
            return g;
        }
        g += 1;
    }
    g
}

/// Splits `entries` into per-sender queues sorted by nonce.
pub fn sender_queues(entries: &Vec<PoolEntry>) -> (qs: Vec<Vec<PoolEntry>>)
    requires
        distinct_slots(entries@),
        distinct_seqs(entries@),
    ensures
        queues_ok(queues_view(qs@)),
        forall|y: PoolEntry| #[trigger] in_queues(queues_view(qs@), y) <==> entries@.contains(y),
{
    let n = entries.len();
    let mut qs: Vec<Vec<PoolEntry>> = Vec::new();
    let mut k: usize = 0;
    while k < n
        invariant
            n == entries.len(),
            0 <= k <= n,
            distinct_slots(entries@),
            distinct_seqs(entries@),
            queues_ok(queues_view(qs@)),
            forall|y: PoolEntry| #[trigger] in_queues(queues_view(qs@), y) <==> entries@.take(k as int).contains(y),
        decreases n - k,
    {
        let e = entries[k];
        let ghost before = queues_view(qs@);
        let ng = qs.len();
        let g = find_queue(&qs, &e.sender);
        if g < ng {
            let len = qs[g].len();
            let mut p: usize = 0;
            while p < len && qs[g][p].nonce < e.nonce
                invariant
                    ng == qs.len(),
                    g < ng,
                    len == before[g as int].len(),
                    0 <= p <= len,
                    queues_view(qs@) == before,
                    forall|j: int| 0 <= j < p ==> #[trigger] before[g as int][j].nonce < e.nonce,
                decreases len - p,
            {
                p += 1;
            }
            qs[g].insert(p, e);
            proof {
                let nq = before[g as int].insert(p as int, e);
                let after = queues_view(qs@);
                assert(after =~= before.update(g as int, nq));
                let s0 = before[g as int][0].sender;
                assert(s0 == e.sender);
                assert forall|j: int| 0 <= j < nq.len() implies #[trigger] nq[j].sender == s0 by {
                    if j < p {
                        assert(nq[j] == before[g as int][j]);
                    } else if j > p {
                        assert(nq[j] == before[g as int][j - 1]);
                    }
                }
                assert forall|j: int| p <= j < len implies #[trigger] before[g as int][j].nonce > e.nonce by {
                    let y = before[g as int][j];
                    assert(in_queues(before, y));
                    assert(entries@.take(k as int).contains(y));
                    let t0 = entries@.take(k as int);
                    let i = choose|i: int| 0 <= i < t0.len() && t0[i] == y;
                    assert(entries@[i] == y);
                    assert(entries@[i].sender == entries@[k as int].sender);
                    assert(entries@[i].nonce != entries@[k as int].nonce);
                    if p < j {
                        assert(before[g as int][p as int].nonce < before[g as int][j].nonce);
                    }
                }
                assert forall|j1: int, j2: int| 0 <= j1 < j2 < nq.len() implies #[trigger] nq[j1].nonce < #[trigger] nq[j2].nonce by {
                    if j2 < p {
                        assert(nq[j1] == before[g as int][j1] && nq[j2] == before[g as int][j2]);
                    } else if j2 == p {
                        assert(nq[j1] == before[g as int][j1]);
                    } else if j1 < p {
                        assert(nq[j1] == before[g as int][j1] && nq[j2] == before[g as int][j2 - 1]);
                    } else if j1 == p {
                        assert(nq[j2] == before[g as int][j2 - 1]);
                    } else {
                        assert(nq[j1] == before[g as int][j1 - 1] && nq[j2] == before[g as int][j2 - 1]);
                    }
                }
                assert(nq[0].sender == s0);
                assert(queues_ok(after)) by {
                    assert forall|g1: int, g2: int| 0 <= g1 < after.len() && 0 <= g2 < after.len() && g1 != g2 implies #[trigger] after[g1][0].sender != #[trigger] after[g2][0].sender by {
                        assert(before[g1][0].sender != before[g2][0].sender);
                    }
                    assert forall|h: int, j: int| 0 <= h < after.len() && 0 <= j < after[h].len() implies #[trigger] after[h][j].sender == after[h][0].sender by {
                        if h != g as int {
                            assert(before[h][j].sender == before[h][0].sender);
                        }
                    }
                }
                assert(entries@.take(k + 1) =~= entries@.take(k as int).push(e));
                assert forall|y: PoolEntry| #[trigger] in_queues(after, y) implies entries@.take(k + 1).contains(y) by {
                    let (h, j) = choose|h: int, j: int| 0 <= h < after.len() && 0 <= j < after[h].len() && #[trigger] after[h][j] == y;
                    if h == g as int && j == p as int {
                        assert(y == e);
                        assert(entries@.take(k + 1)[k as int] == y);
                    } else {
                        assert(in_queues(before, y)) by {
                            if h == g as int {
                                if j < p {
                                    assert(before[h][j] == y);
                                } else {
                                    assert(before[h][j - 1] == y);
                                }
                            } else {
                                assert(before[h][j] == y);
                            }
                        }
                        assert(entries@.take(k as int).contains(y));
                        let t0 = entries@.take(k as int);
                        let i = choose|i: int| 0 <= i < t0.len() && t0[i] == y;
                        assert(entries@.take(k + 1)[i] == y);
                    }
                }
                assert forall|y: PoolEntry| #[trigger] in_queues(after, y) <==> entries@.take(k + 1).contains(y) by {
                    if entries@.take(k + 1).contains(y) {
                        if y == e {
                            assert(after[g as int][p as int] == y);
                        } else {
                            assert(entries@.take(k as int).contains(y)) by {
                                let t1 = entries@.take(k + 1);
                                let i = choose|i: int| 0 <= i < t1.len() && t1[i] == y;
                                assert(entries@.take(k as int)[i] == y);
                            }
                            assert(in_queues(before, y));
                            let (h, j) = choose|h: int, j: int| 0 <= h < before.len() && 0 <= j < before[h].len() && #[trigger] before[h][j] == y;
                            if h == g as int {
                                if j < p {
                                    assert(after[h][j] == y);
                                } else {
                                    assert(after[h][j + 1] == y);
                                }
                            } else {
                                assert(after[h][j] == y);
                            }
                        }
                    }
                }
            }
        } else {
            let mut q: Vec<PoolEntry> = Vec::new();
            q.push(e);
            qs.push(q);
            proof {
                let after = queues_view(qs@);
                assert(after =~= before.push(seq![e]));
                assert(queues_ok(after)) by {
                    assert forall|g1: int, g2: int| 0 <= g1 < after.len() && 0 <= g2 < after.len() && g1 != g2 implies #[trigger] after[g1][0].sender != #[trigger] after[g2][0].sender by {
                        if g1 < ng && g2 < ng {
                            assert(before[g1][0].sender != before[g2][0].sender);
                        }
                    }
                    assert forall|h: int, j: int| 0 <= h < after.len() && 0 <= j < after[h].len() implies #[trigger] after[h][j].sender == after[h][0].sender by {
                        if h < ng {
                            assert(before[h][j].sender == before[h][0].sender);
                        }
                    }
                    assert forall|h: int, j1: int, j2: int| 0 <= h < after.len() && 0 <= j1 < j2 < after[h].len() implies #[trigger] after[h][j1].nonce < #[trigger] after[h][j2].nonce by {
                        assert(before[h][j1].nonce < before[h][j2].nonce);
                    }
                }
                assert(entries@.take(k + 1) =~= entries@.take(k as int).push(e));
                assert forall|y: PoolEntry| #[trigger] in_queues(after, y) implies entries@.take(k + 1).contains(y) by {
                    let (h, j) = choose|h: int, j: int| 0 <= h < after.len() && 0 <= j < after[h].len() && #[trigger] after[h][j] == y;
                    if h < ng {
                        assert(before[h][j] == y);
                        assert(in_queues(before, y));
                        assert(entries@.take(k as int).contains(y));
                        let t0 = entries@.take(k as int);
                        let i = choose|i: int| 0 <= i < t0.len() && t0[i] == y;
                        assert(entries@.take(k + 1)[i] == y);
                    } else {
                        assert(y == e);
                        assert(entries@.take(k + 1)[k as int] == y);
                    }
                }
                assert forall|y: PoolEntry| #[trigger] in_queues(after, y) <==> entries@.take(k + 1).contains(y) by {
                    if entries@.take(k + 1).contains(y) {
                        if y == e {
                            assert(after[ng as int][0] == y);
                        } else {
                            assert(entries@.take(k as int).contains(y)) by {
                                let t1 = entries@.take(k + 1);
                                let i = choose|i: int| 0 <= i < t1.len() && t1[i] == y;
                                assert(entries@.take(k as int)[i] == y);
                            }
                            assert(in_queues(before, y));
                            let (h, j) = choose|h: int, j: int| 0 <= h < before.len() && 0 <= j < before[h].len() && #[trigger] before[h][j] == y;
                            assert(after[h][j] == y);
                        }
                    }
                }
            }
        }
        k += 1;
    }
    proof {
        assert(entries@.take(n as int) =~= entries@);
    }
    qs
}

/// Some transaction of the queue has nonce `n`.
pub open spec fn queue_has(q: Seq<PoolEntry>, n: int) -> bool {
    exists|i: int| 0 <= i < q.len() && #[trigger] q[i].nonce == n
}

/// `q[j]` lies in the contiguous nonce run of `q` that starts at `anchor`.
pub open spec fn queue_ready(q: Seq<PoolEntry>, anchor: int, j: int) -> bool {
    &&& anchor <= q[j].nonce
    &&& forall|n: int| anchor <= n <= q[j].nonce ==> #[trigger] queue_has(q, n)
}

/// Strictly increasing nonces.
pub open spec fn nonces_increasing(q: Seq<PoolEntry>) -> bool {
    forall|j1: int, j2: int| 0 <= j1 < j2 < q.len() ==> #[trigger] q[j1].nonce < #[trigger] q[j2].nonce
}

/// The positions `[start, end)` of the run of `q` that starts at nonce `anchor`.
pub fn ready_range(q: &Vec<PoolEntry>, anchor: u64) -> (r: (usize, usize))
    requires
        nonces_increasing(q@),
    ensures
        r.0 <= r.1 <= q@.len(),
        forall|j: int| 0 <= j < q@.len() ==> (r.0 <= j < r.1 <==> #[trigger] queue_ready(q@, anchor as int, j)),
{
    let len = q.len();
    let mut st: usize = 0;
    while st < len && q[st].nonce < anchor
        invariant
            len == q@.len(),
            0 <= st <= len,
            forall|j: int| 0 <= j < st ==> #[trigger] q@[j].nonce < anchor,
        decreases len - st,
    {
        st += 1;
    }
    if st == len || q[st].nonce != anchor {
        proof {
            assert(!queue_has(q@, anchor as int)) by {
                if queue_has(q@, anchor as int) {
                    let i = choose|i: int| 0 <= i < q@.len() && #[trigger] q@[i].nonce == anchor;
                    if i >= st {
                        if i > st {
                            assert(q@[st as int].nonce < q@[i].nonce);
                        }
                    }
                }
            }
            assert forall|j: int| 0 <= j < q@.len() implies !(#[trigger] queue_ready(q@, anchor as int, j)) by {
                if anchor <= q@[j].nonce {
                    assert(!queue_has(q@, anchor as int));
                }
            }
        }
        return (st, st);
    }
    let mut en: usize = st + 1;
    while en < len && q[en - 1].nonce < q[en].nonce && q[en].nonce - q[en - 1].nonce == 1
        invariant
            len == q@.len(),
            nonces_increasing(q@),
            0 <= st < en <= len,
            forall|j: int| 0 <= j < st ==> #[trigger] q@[j].nonce < anchor,
            forall|t: int| st <= t < en ==> #[trigger] q@[t].nonce == anchor + (t - st),
        decreases len - en,
    {
        en += 1;
    }
    proof {
        assert forall|j: int| 0 <= j < q@.len() implies (st <= j < en <==> #[trigger] queue_ready(q@, anchor as int, j)) by {
            if st <= j < en {
                assert forall|n: int| anchor <= n <= q@[j].nonce implies #[trigger] queue_has(q@, n) by {
                    let t = st + (n - anchor);
                    assert(q@[t].nonce == n);
                }
            } else if j >= en {
                let n0 = anchor + (en - st);
                assert(q@[en - 1].nonce == n0 - 1);
                assert(q@[en as int].nonce > q@[en - 1].nonce);
                assert(q@[en as int].nonce != n0);
                if j > en {
                    assert(q@[en as int].nonce < q@[j].nonce);
                }
                assert(!queue_has(q@, n0)) by {
                    if queue_has(q@, n0) {
                        let i = choose|i: int| 0 <= i < q@.len() && #[trigger] q@[i].nonce == n0;
                        if i < en - 1 {
                            assert(q@[i].nonce < q@[en - 1].nonce);
                        } else if i > en {
                            assert(q@[en as int].nonce < q@[i].nonce);
                        }
                    }
                }
            }
        }
    }
    (st, en)
}

/// The transactions still to be emitted: queue `g` from `pos[g]` up to `ends[g]`.
pub open spec fn pending_in(qs: Seq<Seq<PoolEntry>>, pos: Seq<usize>, ends: Seq<usize>, y: PoolEntry) -> bool {
    exists|g: int, j: int| 0 <= g < qs.len() && pos[g] <= j < ends[g] && #[trigger] qs[g][j] == y
}

/// Merges the queue segments `[starts[g], ends[g])` best first; `rem0` lists the
/// same transactions.
pub fn merge_queues(
    qs: &Vec<Vec<PoolEntry>>,
    starts: Vec<usize>,
    ends: &Vec<usize>,
    Ghost(rem0): Ghost<Seq<PoolEntry>>,
) -> (out: Vec<[u8; 32]>)
    requires
        queues_ok(queues_view(qs@)),
        starts@.len() == qs@.len(),
        ends@.len() == qs@.len(),
        forall|g: int| 0 <= g < qs@.len() ==> #[trigger] starts@[g] <= ends@[g] && ends@[g] <= queues_view(qs@)[g].len(),
        distinct_seqs(rem0),
        forall|y: PoolEntry| #[trigger] rem0.contains(y) <==> pending_in(queues_view(qs@), starts@, ends@, y),
    ensures
        out@ == hashes_of(greedy_order(rem0)),
{
    let ghost qv = queues_view(qs@);
    let ng = qs.len();
    let mut pos = starts;
    let mut out: Vec<[u8; 32]> = Vec::new();
    let ghost mut rem = rem0;
    loop
        invariant
            ng == qs@.len(),
            qv == queues_view(qs@),
            queues_ok(qv),
            pos@.len() == ng,
            ends@.len() == ng,
            forall|g: int| 0 <= g < ng ==> pos@[g] <= #[trigger] ends@[g] <= qv[g].len(),
            distinct_seqs(rem),
            forall|y: PoolEntry| #[trigger] rem.contains(y) <==> pending_in(qv, pos@, ends@, y),
            out@ + hashes_of(greedy_order(rem)) == hashes_of(greedy_order(rem0)),
        ensures
            out@ == hashes_of(greedy_order(rem0)),
        decreases rem.len(),
    {
        let mut best: usize = ng;
        let mut g: usize = 0;
        assert(forall|h: int| 0 <= h < ng ==> pos@[h] <= #[trigger] ends@[h] <= qv[h].len());
        while g < ng
            invariant
                ng == qs@.len(),
                qv == queues_view(qs@),
                queues_ok(qv),
                pos@.len() == ng,
                ends@.len() == ng,
                forall|h: int| 0 <= h < ng ==> pos@[h] <= #[trigger] ends@[h] <= qv[h].len(),
                0 <= g <= ng,
                best <= ng,
                distinct_seqs(rem),
                forall|y: PoolEntry| #[trigger] rem.contains(y) <==> pending_in(qv, pos@, ends@, y),
                best == ng ==> forall|h: int| 0 <= h < g ==> #[trigger] pos@[h] >= ends@[h],
                best < ng ==> best < g && pos@[best as int] < ends@[best as int],
                best < ng ==> forall|h: int| 0 <= h < g && h != best && #[trigger] pos@[h] < ends@[h]
                    ==> outranks(qv[best as int][pos@[best as int] as int], qv[h][pos@[h] as int]),
            decreases ng - g,
        {
            if pos[g] < ends[g] {
                assert(qv[g as int] == qs@[g as int]@);
                if best == ng {
                    best = g;
                } else {
                    assert(qv[best as int] == qs@[best as int]@);
                    if outranks_exec(&qs[g][pos[g]], &qs[best][pos[best]]) {
                        proof {
                            let nb = qv[g as int][pos@[g as int] as int];
                            let ob = qv[best as int][pos@[best as int] as int];
                            assert forall|h: int| 0 <= h < g + 1 && h != g && #[trigger] pos@[h] < ends@[h]
                                implies outranks(nb, qv[h][pos@[h] as int]) by {
                                if h != best {
                                    assert(outranks(ob, qv[h][pos@[h] as int]));
                                }
                            }
                        }
                        best = g;
                    } else {
                        proof {
                            let nb = qv[g as int][pos@[g as int] as int];
                            let ob = qv[best as int][pos@[best as int] as int];
                            assert(in_queues(qv, nb));
                            assert(nb.sender != ob.sender) by {
                                assert(nb.sender == qv[g as int][0].sender);
                                assert(ob.sender == qv[best as int][0].sender);
                            }
                            assert(nb.seq != ob.seq) by {
                                assert(pending_in(qv, pos@, ends@, nb));
                                assert(pending_in(qv, pos@, ends@, ob));
                                assert(rem.contains(nb) && rem.contains(ob));
                                let a = choose|a: int| 0 <= a < rem.len() && rem[a] == nb;
                                let b = choose|b: int| 0 <= b < rem.len() && rem[b] == ob;
                            }
                        }
                    }
                }
            }
            g += 1;
        }
        if best == ng {
            proof {
                assert forall|y: PoolEntry| !(#[trigger] rem.contains(y)) by {
                    if pending_in(qv, pos@, ends@, y) {
                        let (h, j) = choose|h: int, j: int| 0 <= h < qv.len() && pos@[h] <= j < ends@[h] && #[trigger] qv[h][j] == y;
                        assert(pos@[h] >= ends@[h]);
                    }
                }
                if rem.len() > 0 {
                    assert(rem.contains(rem[0]));
                }
                assert(!exists|i: int| is_best_head(rem, i));
                assert(out@ =~= hashes_of(greedy_order(rem0)));
            }
            break;
        }
        assert(qv[best as int] == qs@[best as int]@);
        let x = qs[best][pos[best]];
        proof {
            assert(pending_in(qv, pos@, ends@, x));
            assert(rem.contains(x));
            let i = choose|i: int| 0 <= i < rem.len() && rem[i] == x;
            assert(is_best_head(rem, i)) by {
                assert forall|k: int| 0 <= k < rem.len() && #[trigger] rem[k].sender == rem[i].sender implies rem[i].nonce <= rem[k].nonce by {
                    assert(rem.contains(rem[k]));
                    let (h, j) = choose|h: int, j: int| 0 <= h < qv.len() && pos@[h] <= j < ends@[h] && #[trigger] qv[h][j] == rem[k];
                    assert(qv[h][j].sender == qv[h][0].sender);
                    assert(x.sender == qv[best as int][0].sender);
                    if h != best as int {
                        assert(qv[h][0].sender != qv[best as int][0].sender);
                    }
                    if j > pos@[best as int] {
                        assert(qv[h][pos@[best as int] as int].nonce < qv[h][j].nonce);
                    }
                }
                assert(is_head(rem, i));
                assert forall|k: int| #[trigger] is_head(rem, k) && k != i implies outranks(rem[i], rem[k]) by {
                    assert(rem.contains(rem[k]));
                    let (h, j) = choose|h: int, j: int| 0 <= h < qv.len() && pos@[h] <= j < ends@[h] && #[trigger] qv[h][j] == rem[k];
                    let z = qv[h][pos@[h] as int];
                    assert(pending_in(qv, pos@, ends@, z));
                    assert(rem.contains(z));
                    let m = choose|m: int| 0 <= m < rem.len() && rem[m] == z;
                    assert(z.sender == qv[h][0].sender);
                    assert(rem[k].sender == qv[h][0].sender);
                    assert(rem[k].nonce <= rem[m].nonce);
                    if j > pos@[h] {
                        assert(qv[h][pos@[h] as int].nonce < qv[h][j].nonce);
                    }
                    assert(rem[k] == z);
                    if h == best as int {
                        assert(rem[k] == rem[i]);
                        assert(rem[k].seq == rem[i].seq);
                    }
                }
            }
            lemma_greedy_step(rem, i);
            lemma_remove_distinct(rem, i);
            assert(hashes_of(seq![rem[i]] + greedy_order(rem.remove(i)))
                =~= seq![x.hash] + hashes_of(greedy_order(rem.remove(i))));
        }
        let ghost old_pos = pos@;
        let ghost old_rem = rem;
        let ghost i = choose|i: int| 0 <= i < rem.len() && rem[i] == x;
        out.push(x.hash);
        let np = pos[best] + 1;
        pos.set(best, np);
        proof {
            rem = old_rem.remove(i);
            assert forall|y: PoolEntry| #[trigger] rem.contains(y) <==> pending_in(qv, pos@, ends@, y) by {
                if pending_in(qv, pos@, ends@, y) {
                    let (h, j) = choose|h: int, j: int| 0 <= h < qv.len() && pos@[h] <= j < ends@[h] && #[trigger] qv[h][j] == y;
                    assert(pending_in(qv, old_pos, ends@, y));
                    if y == x {
                        assert(qv[h][j].sender == qv[h][0].sender);
                        assert(x.sender == qv[best as int][0].sender);
                        if h != best as int {
                            assert(qv[h][0].sender != qv[best as int][0].sender);
                        }
                        assert(j > old_pos[best as int]);
                        assert(qv[h][old_pos[best as int] as int].nonce < qv[h][j].nonce);
                    }
                }
                if rem.contains(y) {
                    assert(old_rem.contains(y) && y != x);
                    let (h, j) = choose|h: int, j: int| 0 <= h < qv.len() && old_pos[h] <= j < ends@[h] && #[trigger] qv[h][j] == y;
                    assert(pending_in(qv, pos@, ends@, y)) by {
                        if h == best as int && j == old_pos[h] {
                            assert(y == x);
                        }
                    }
                }
            }
            assert(out@ + hashes_of(greedy_order(rem)) =~= hashes_of(greedy_order(rem0)));
        }
    }
    out
}

/// The anchor of the sender of queue `g`: its account nonce, or the queue's
/// lowest nonce.
pub open spec fn queue_anchor(hints: Seq<([u8; 20], u64)>, q: Seq<PoolEntry>) -> int {
    match hint_of(hints, q[0].sender) {
        Some(n) => n as int,
        None => q[0].nonce as int,
    }
}

/// Readiness of a pooled transaction, read off the queue of its sender.
pub proof fn lemma_ready_in_queue(
    entries: Seq<PoolEntry>,
    hints: Seq<([u8; 20], u64)>,
    qv: Seq<Seq<PoolEntry>>,
    g: int,
    j: int,
)
    requires
        queues_ok(qv),
        forall|y: PoolEntry| #[trigger] in_queues(qv, y) <==> entries.contains(y),
        0 <= g < qv.len(),
        0 <= j < qv[g].len(),
    ensures
        is_ready(entries, hints, qv[g][j]) <==> queue_ready(qv[g], queue_anchor(hints, qv[g]), j),
{
    let q = qv[g];
    let s = q[0].sender;
    assert(q[j].sender == s);
    assert forall|n: int| #[trigger] has_nonce(entries, s, n) <==> queue_has(q, n) by {
        if has_nonce(entries, s, n) {
            let i = choose|i: int| 0 <= i < entries.len() && #[trigger] entries[i].sender == s && entries[i].nonce == n;
            assert(entries.contains(entries[i]));
            assert(in_queues(qv, entries[i]));
            let (h, t) = choose|h: int, t: int| 0 <= h < qv.len() && 0 <= t < qv[h].len() && #[trigger] qv[h][t] == entries[i];
            assert(qv[h][t].sender == qv[h][0].sender);
            if h != g {
                assert(qv[h][0].sender != qv[g][0].sender);
            }
            assert(q[t].nonce == n);
        }
        if queue_has(q, n) {
            let t = choose|t: int| 0 <= t < q.len() && #[trigger] q[t].nonce == n;
            assert(in_queues(qv, q[t]));
            assert(entries.contains(q[t]));
            let i = choose|i: int| 0 <= i < entries.len() && entries[i] == q[t];
            assert(q[t].sender == s);
            assert(entries[i].sender == s && entries[i].nonce == n);
        }
    }
    if hint_of(hints, s) is None {
        assert(is_lowest_nonce(entries, s, q[0].nonce as int)) by {
            assert(queue_has(q, q[0].nonce as int));
            assert(has_nonce(entries, s, q[0].nonce as int));
            assert forall|i: int| 0 <= i < entries.len() && #[trigger] entries[i].sender == s implies q[0].nonce <= entries[i].nonce by {
                assert(entries.contains(entries[i]));
                assert(in_queues(qv, entries[i]));
                let (h, t) = choose|h: int, t: int| 0 <= h < qv.len() && 0 <= t < qv[h].len() && #[trigger] qv[h][t] == entries[i];
                assert(qv[h][t].sender == qv[h][0].sender);
                if h != g {
                    assert(qv[h][0].sender != qv[g][0].sender);
                }
                if t > 0 {
                    assert(q[0].nonce < q[t].nonce);
                }
            }
        }
        let c = choose|c: int| is_lowest_nonce(entries, s, c);
        lemma_lowest_unique(entries, s, c, q[0].nonce as int);
    }
    let a = queue_anchor(hints, q);
    assert(anchor(entries, hints, s) == a);
    let e = q[j];
    if is_ready(entries, hints, e) {
        assert forall|n: int| a <= n <= e.nonce implies #[trigger] queue_has(q, n) by {
            assert(has_nonce(entries, e.sender, n));
        }
    }
    if queue_ready(q, a, j) {
        assert forall|n: int| a <= n <= e.nonce implies #[trigger] has_nonce(entries, e.sender, n) by {
            assert(queue_has(q, n));
        }
    }
}

} // verus!
