use alloy_consensus::{SignableTransaction, TxEip1559, TxEnvelope};
use alloy_eips::eip2718::Encodable2718;
use alloy_primitives::{keccak256, Address, TxKind, B256, U256};
use alloy_signer::SignerSync;
use alloy_signer_local::PrivateKeySigner;
use tog::client::sample_raw_tx;
use tog::hexcodec::hex0x;
use tog::mempool::{Mempool, MempoolError};

/// A signed EIP-1559 transaction as the raw 2718 bytes a client would submit.
fn raw_tx(key_byte: u8, nonce: u64, priority_fee: u128) -> Vec<u8> {
    let signer = PrivateKeySigner::from_bytes(&B256::repeat_byte(key_byte)).unwrap();
    let tx = TxEip1559 {
        chain_id: 10,
        nonce,
        gas_limit: 21_000,
        max_fee_per_gas: priority_fee + 1_000_000_000,
        max_priority_fee_per_gas: priority_fee,
        to: TxKind::Call(Address::repeat_byte(0xab)),
        value: U256::ZERO,
        access_list: Default::default(),
        input: Default::default(),
    };
    let sig = signer.sign_hash_sync(&tx.signature_hash()).unwrap();
    let env: TxEnvelope = tx.into_signed(sig).into();
    env.encoded_2718()
}

fn signer_address(key_byte: u8) -> [u8; 20] {
    PrivateKeySigner::from_bytes(&B256::repeat_byte(key_byte)).unwrap().address().into_array()
}

#[test]
fn decodes_recovers_and_hashes() {
    let mut pool = Mempool::default();
    let raw = raw_tx(0x11, 0, 5);
    let hash = pool.add_raw_transaction(raw.clone()).unwrap();
    assert_eq!(hash, keccak256(&raw).0);
    assert_eq!(pool.stats().pooled, 1);
    assert_eq!(pool.stats().raw_buffered, 1);
}

#[test]
fn orders_distinct_senders_by_tip_desc() {
    let mut pool = Mempool::new(0, 0);
    let low = pool.add_raw_transaction(raw_tx(0x11, 0, 1)).unwrap();
    let high = pool.add_raw_transaction(raw_tx(0x22, 0, 100)).unwrap();
    let mid = pool.add_raw_transaction(raw_tx(0x33, 0, 50)).unwrap();
    assert_eq!(pool.best_transaction_hashes(), vec![high, mid, low]);
}

#[test]
fn respects_per_sender_nonce_order_regardless_of_tip() {
    let mut pool = Mempool::new(0, 0);
    let n0 = pool.add_raw_transaction(raw_tx(0x11, 0, 1)).unwrap();
    let n1 = pool.add_raw_transaction(raw_tx(0x11, 1, 999)).unwrap();
    assert_eq!(pool.best_transaction_hashes(), vec![n0, n1]);
}

#[test]
fn drain_empties_raw_buffer_but_keeps_pool() {
    let mut pool = Mempool::new(0, 0);
    pool.add_raw_transaction(raw_tx(0x11, 0, 1)).unwrap();
    assert_eq!(pool.drain_raw_transactions().len(), 1);
    assert_eq!(pool.drain_raw_transactions().len(), 0);
    assert_eq!(pool.best_transaction_hashes().len(), 1);
}

#[test]
fn clears_ordered_set_every_n_calls() {
    let mut pool = Mempool::new(0, 3);
    pool.add_raw_transaction(raw_tx(0x11, 0, 1)).unwrap();
    assert_eq!(pool.best_transaction_hashes().len(), 1);
    assert_eq!(pool.best_transaction_hashes().len(), 1);
    assert_eq!(pool.best_transaction_hashes().len(), 1);
    assert_eq!(pool.best_transaction_hashes().len(), 0);
}

#[test]
fn dedups_resent_transaction() {
    let mut pool = Mempool::new(0, 0);
    let raw = raw_tx(0x11, 0, 1);
    let h1 = pool.add_raw_transaction(raw.clone()).unwrap();
    let h2 = pool.add_raw_transaction(raw).unwrap();
    assert_eq!(h1, h2);
    assert_eq!(pool.stats().pooled, 1);
    assert_eq!(pool.stats().raw_buffered, 2);
}

#[test]
fn drain_returns_submissions_in_arrival_order() {
    let mut pool = Mempool::new(0, 0);
    let a = raw_tx(0x11, 0, 1);
    let b = raw_tx(0x22, 0, 2);
    pool.add_raw_transaction(a.clone()).unwrap();
    pool.add_raw_transaction(b.clone()).unwrap();
    pool.add_raw_transaction(a.clone()).unwrap();
    assert_eq!(pool.drain_raw_transactions(), vec![a.clone(), b, a]);
}

#[test]
fn holds_transactions_past_a_nonce_gap() {
    let mut pool = Mempool::new(0, 0);
    let n0 = pool.add_raw_transaction(raw_tx(0x11, 0, 1)).unwrap();
    let _n2 = pool.add_raw_transaction(raw_tx(0x11, 2, 50)).unwrap();
    assert_eq!(pool.best_transaction_hashes(), vec![n0]);
    let n1 = pool.add_raw_transaction(raw_tx(0x11, 1, 5)).unwrap();
    assert_eq!(pool.best_transaction_hashes(), vec![n0, n1, _n2]);
}

#[test]
fn anchors_on_lowest_pooled_nonce() {
    let mut pool = Mempool::new(0, 0);
    let n5 = pool.add_raw_transaction(raw_tx(0x11, 5, 1)).unwrap();
    let n6 = pool.add_raw_transaction(raw_tx(0x11, 6, 1)).unwrap();
    assert_eq!(pool.best_transaction_hashes(), vec![n5, n6]);
}

#[test]
fn account_nonce_moves_the_anchor() {
    let mut pool = Mempool::new(0, 0);
    let n3 = pool.add_raw_transaction(raw_tx(0x11, 3, 1)).unwrap();
    let n4 = pool.add_raw_transaction(raw_tx(0x11, 4, 1)).unwrap();
    pool.set_account_nonce(signer_address(0x11), 4);
    assert_eq!(pool.best_transaction_hashes(), vec![n4]);
    pool.set_account_nonce(signer_address(0x11), 2);
    assert_eq!(pool.best_transaction_hashes(), Vec::<[u8; 32]>::new());
    pool.set_account_nonce(signer_address(0x11), 3);
    assert_eq!(pool.best_transaction_hashes(), vec![n3, n4]);
}

#[test]
fn replace_by_fee_keeps_higher_tip() {
    let mut pool = Mempool::new(0, 0);
    let cheap = pool.add_raw_transaction(raw_tx(0x11, 0, 1)).unwrap();
    let dear = pool.add_raw_transaction(raw_tx(0x11, 0, 7)).unwrap();
    assert_ne!(cheap, dear);
    assert_eq!(pool.stats().pooled, 1);
    assert_eq!(pool.best_transaction_hashes(), vec![dear]);
    let cheaper = pool.add_raw_transaction(raw_tx(0x11, 0, 3)).unwrap();
    assert_ne!(cheaper, dear);
    assert_eq!(pool.stats().pooled, 1);
    assert_eq!(pool.stats().raw_buffered, 3);
    assert_eq!(pool.best_transaction_hashes(), vec![dear]);
}

#[test]
fn equal_tips_keep_first_seen_first() {
    let mut pool = Mempool::new(0, 0);
    let first = pool.add_raw_transaction(raw_tx(0x33, 0, 9)).unwrap();
    let second = pool.add_raw_transaction(raw_tx(0x22, 0, 9)).unwrap();
    assert_eq!(pool.best_transaction_hashes(), vec![first, second]);
}

#[test]
fn interleaves_senders_by_ready_heads() {
    let mut pool = Mempool::new(0, 0);
    let a0 = pool.add_raw_transaction(raw_tx(0x11, 0, 10)).unwrap();
    let a1 = pool.add_raw_transaction(raw_tx(0x11, 1, 1)).unwrap();
    let b0 = pool.add_raw_transaction(raw_tx(0x22, 0, 5)).unwrap();
    assert_eq!(pool.best_transaction_hashes(), vec![a0, b0, a1]);
}

#[test]
fn base_fee_caps_tip_and_unpayable_sorts_last() {
    // max fee = tip + 1 gwei; at a base fee of 1 gwei + 2 the tip-1000 tx keeps 998,
    // the tip-1 tx cannot pay it and is kept, but sorted last.
    let mut pool = Mempool::new(1_000_000_002, 0);
    let poor = pool.add_raw_transaction(raw_tx(0x11, 0, 1)).unwrap();
    let rich = pool.add_raw_transaction(raw_tx(0x22, 0, 1000)).unwrap();
    assert_eq!(pool.best_transaction_hashes(), vec![rich, poor]);
    pool.set_base_fee(0);
    assert_eq!(pool.stats().pooled, 2);
}

#[test]
fn unpayable_sorts_after_a_zero_tip() {
    // At a base fee of 2 gwei the first tx (max fee 1 gwei + 5) cannot pay; the
    // second (max fee exactly 2 gwei) pays with an effective tip of 0.
    let mut pool = Mempool::new(2_000_000_000, 0);
    let unpayable = pool.add_raw_transaction(raw_tx(0x11, 0, 5)).unwrap();
    let zero_tip = pool.add_raw_transaction(raw_tx(0x22, 0, 1_000_000_000)).unwrap();
    assert_eq!(pool.best_transaction_hashes(), vec![zero_tip, unpayable]);
}

#[test]
fn rejects_garbage_without_changing_the_pool() {
    let mut pool = Mempool::new(0, 0);
    match pool.add_raw_transaction(vec![0x02, 0x01, 0x02]) {
        Err(MempoolError::Decode(_)) => {}
        _ => panic!("expected a decode error"),
    }
    match pool.add_raw_transaction(Vec::new()) {
        Err(MempoolError::Decode(_)) => {}
        _ => panic!("expected a decode error"),
    }
    assert_eq!(pool.stats().pooled, 0);
    assert_eq!(pool.stats().raw_buffered, 0);
    assert_eq!(pool.next_seq(), 0);
}

#[test]
fn rejects_unrecoverable_signature() {
    let tx = TxEip1559 {
        chain_id: 10,
        nonce: 0,
        gas_limit: 21_000,
        max_fee_per_gas: 1_000_000_001,
        max_priority_fee_per_gas: 1,
        to: TxKind::Call(Address::repeat_byte(0xab)),
        value: U256::ZERO,
        access_list: Default::default(),
        input: Default::default(),
    };
    // r above the curve order: no public key can be recovered.
    let sig = alloy_primitives::Signature::new(U256::MAX, U256::from(1u64), false);
    let env: TxEnvelope = tx.into_signed(sig).into();
    let raw = env.encoded_2718();
    let mut pool = Mempool::new(0, 0);
    match pool.add_raw_transaction(raw) {
        Err(MempoolError::Recovery(m)) => {
            let e = MempoolError::Recovery(m.clone());
            assert_eq!(e.message(), format!("could not recover signer: {m}"));
        }
        Err(MempoolError::Decode(m)) => panic!("unexpected decode error {m}"),
        Ok(_) => panic!("expected a recovery error"),
    }
    assert_eq!(pool.stats().pooled, 0);
}

#[test]
fn compute_order_has_no_side_effects() {
    let mut pool = Mempool::new(0, 1);
    let h = pool.add_raw_transaction(raw_tx(0x11, 0, 1)).unwrap();
    assert_eq!(pool.compute_order(), vec![h]);
    assert_eq!(pool.compute_order(), vec![h]);
    assert_eq!(pool.stats().best_calls, 0);
    assert_eq!(pool.best_transaction_hashes(), vec![h]);
    assert_eq!(pool.stats().best_calls, 1);
    assert_eq!(pool.compute_order(), Vec::<[u8; 32]>::new());
}

#[test]
fn decode_error_message_names_the_decoder() {
    let e = MempoolError::Decode("boom".to_string());
    assert_eq!(e.message(), "could not decode 2718 transaction: boom");
}

#[test]
fn ordering_ignores_submission_order_for_distinct_tips() {
    let txs = [raw_tx(0x11, 0, 3), raw_tx(0x11, 1, 8), raw_tx(0x22, 0, 5), raw_tx(0x33, 0, 1)];
    let mut forward = Mempool::new(0, 0);
    for t in txs.iter() {
        forward.add_raw_transaction(t.clone()).unwrap();
    }
    let mut backward = Mempool::new(0, 0);
    for t in txs.iter().rev() {
        backward.add_raw_transaction(t.clone()).unwrap();
    }
    let order = forward.best_transaction_hashes();
    assert_eq!(order, backward.best_transaction_hashes());
    let h = |t: &Vec<u8>| keccak256(t).0;
    assert_eq!(order, vec![h(&txs[2]), h(&txs[0]), h(&txs[1]), h(&txs[3])]);
}

#[test]
fn many_senders_many_nonces() {
    let mut pool = Mempool::new(0, 0);
    let mut expected_len = 0;
    for key in 1u8..=6 {
        for nonce in 0..4u64 {
            pool.add_raw_transaction(raw_tx(key, nonce, (key as u128) * 10 + nonce as u128)).unwrap();
            expected_len += 1;
        }
    }
    let order = pool.best_transaction_hashes();
    assert_eq!(order.len(), expected_len);
    // The richest sender's nonce-0 transaction leads.
    assert_eq!(order[0], keccak256(raw_tx(6, 0, 60)).0);
}

#[test]
fn sample_raw_tx_is_the_signed_transfer() {
    let expected = hex0x(&raw_tx(0x11, 3, 7));
    assert_eq!(sample_raw_tx(0x11, 3, 7), Some(expected));
    assert_ne!(sample_raw_tx(0x11, 3, 7), sample_raw_tx(0x11, 4, 7));
}

#[test]
fn sample_raw_tx_refuses_an_invalid_key() {
    assert_eq!(sample_raw_tx(0, 0, 1), None);
    assert_eq!(sample_raw_tx(0xff, 0, 1), None);
}

#[test]
fn same_calls_give_same_order() {
    let run = || {
        let mut pool = Mempool::new(1_000_000_002, 3);
        pool.add_raw_transaction(raw_tx(0x11, 0, 1)).unwrap();
        pool.add_raw_transaction(raw_tx(0x22, 1, 40)).unwrap();
        pool.add_raw_transaction(raw_tx(0x22, 0, 7)).unwrap();
        pool.set_base_fee(0);
        pool.add_raw_transaction(raw_tx(0x33, 0, 7)).unwrap();
        pool.drain_raw_transactions();
        pool.best_transaction_hashes()
    };
    let first = run();
    assert_eq!(first.len(), 4);
    assert_eq!(first, run());
}

#[test]
fn only_hashes_accepted_since_the_last_clear_are_listed() {
    let mut pool = Mempool::new(0, 1);
    let old = pool.add_raw_transaction(raw_tx(0x11, 0, 1)).unwrap();
    assert_eq!(pool.best_transaction_hashes(), vec![old]);
    let new = pool.add_raw_transaction(raw_tx(0x22, 0, 1)).unwrap();
    assert_eq!(pool.best_transaction_hashes(), vec![new]);
}
