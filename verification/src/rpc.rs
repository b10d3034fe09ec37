//! The pool-facing half of the guarantor's RPC API.

use vstd::prelude::*;
use crate::mempool::{best_order, Mempool};

verus! {

/// A transaction pool that can list its transactions best first.
pub trait TransactionPool {
    type Transaction;

    /// The pool is in a consistent state.
    spec fn is_valid(&self) -> bool;

    /// The pool's transactions in the order the pool ranks them, best first.
    spec fn best_seq(&self) -> Seq<Self::Transaction>;

    /// The pool's transactions, best first.
    fn best_transactions(&self) -> (res: Vec<Self::Transaction>)
        requires
            self.is_valid(),
        ensures
            res@ == self.best_seq(),
    ;
}

impl TransactionPool for Mempool {
    type Transaction = [u8; 32];

    open spec fn is_valid(&self) -> bool {
        self@.wf()
    }

    open spec fn best_seq(&self) -> Seq<[u8; 32]> {
        best_order(self@)
    }

    fn best_transactions(&self) -> (res: Vec<[u8; 32]>) {
        self.compute_order()
    }
}

/// Holds the node's transaction pool.
pub struct OpEthExtApiInner<Pool> {
    pool: Pool,
}

impl<Pool: TransactionPool> OpEthExtApiInner<Pool> {
    /// The pool served.
    pub closed spec fn pool_spec(&self) -> Pool {
        self.pool
    }

    pub fn new(pool: Pool) -> (r: Self)
        ensures
            r.pool_spec() == pool,
    {
        OpEthExtApiInner { pool }
    }

    /// The pool's transactions, best first.
    pub fn best_transactions(&self) -> (res: Vec<Pool::Transaction>)
        requires
            self.pool_spec().is_valid(),
        ensures
            res@ == self.pool_spec().best_seq(),
    {
        self.pool().best_transactions()
    }

    fn pool(&self) -> (r: &Pool)
        ensures
            *r == self.pool_spec(),
    {
        &self.pool
    }
}

} // verus!
