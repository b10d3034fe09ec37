use alloy_consensus::{SignableTransaction, TxEip1559, TxEnvelope};
use alloy_eips::eip2718::Encodable2718;
use alloy_primitives::{keccak256, Address, TxKind, B256, U256};
use alloy_signer::SignerSync;
use alloy_signer_local::PrivateKeySigner;
use tog::enclave::{dev_stub_attestation, dispatch, Transport};
use tog::hexcodec::{decode_hex, hex0x};
use tog::mempool::Mempool;
use tog::proto::{Request, Response};
use tog::rpc::OpEthExtApiInner;

fn raw_tx(key_byte: u8, nonce: u64, priority_fee: u128) -> Vec<u8> {
    let signer = PrivateKeySigner::from_bytes(&B256::repeat_byte(key_byte)).unwrap();
    let tx = TxEip1559 {
        chain_id: 10,
        nonce,
        gas_limit: 21_000,
        max_fee_per_gas: priority_fee + 1_000_000_000,
        max_priority_fee_per_gas: priority_fee,
        to: TxKind::Call(Address::repeat_byte(0xab)),
        value: U256::ZERO,
        access_list: Default::default(),
        input: Default::default(),
    };
    let sig = signer.sign_hash_sync(&tx.signature_hash()).unwrap();
    let env: TxEnvelope = tx.into_signed(sig).into();
    env.encoded_2718()
}

#[test]
fn hex0x_is_lowercase_with_prefix() {
    assert_eq!(hex0x(&[0xde, 0xad, 0xbe, 0xef]), "0xdeadbeef");
    assert_eq!(hex0x(&[]), "0x");
    assert_eq!(hex0x(&[0x00, 0x0f, 0xa0]), "0x000fa0");
}

#[test]
fn decode_hex_accepts_either_case_and_optional_prefix() {
    assert_eq!(decode_hex("0xDEad").unwrap(), vec![0xde, 0xad]);
    assert_eq!(decode_hex("dead").unwrap(), vec![0xde, 0xad]);
    assert_eq!(decode_hex("0x").unwrap(), Vec::<u8>::new());
    assert_eq!(decode_hex("").unwrap(), Vec::<u8>::new());
}

#[test]
fn decode_hex_refuses_bad_text() {
    assert_eq!(decode_hex("0x123").unwrap_err(), "invalid hex: Odd number of digits");
    assert_eq!(decode_hex("0xzz").unwrap_err(), "invalid hex: Invalid character 'z' at position 0");
    assert_eq!(decode_hex("zz"), decode_hex("0xzz"));
    assert!(decode_hex("0x0x00").is_err());
}

#[test]
fn hex_round_trip() {
    let bytes: Vec<u8> = (0..=255u8).collect();
    assert_eq!(decode_hex(&hex0x(&bytes)).unwrap(), bytes);
}

#[test]
fn dispatch_serves_the_three_operations() {
    let mut pool = Mempool::new(0, 7);
    let raw = raw_tx(0x11, 0, 5);
    let resp = dispatch(Request::SendRawTransaction(hex0x(&raw)), &mut pool);
    let expected_hash = hex0x(&keccak256(&raw).0);
    assert_eq!(resp, Response::Hash(expected_hash.clone()));
    assert_eq!(
        dispatch(Request::GetBestTransactionHashes, &mut pool),
        Response::BestTransactionHashes(vec![expected_hash])
    );
    assert_eq!(dispatch(Request::GetRawTransactions, &mut pool), Response::RawTransactions(vec![hex0x(&raw)]));
    assert_eq!(dispatch(Request::GetRawTransactions, &mut pool), Response::RawTransactions(vec![]));
    assert_eq!(pool.stats().best_calls, 1);
}

#[test]
fn dispatch_accepts_unprefixed_hex() {
    let mut pool = Mempool::new(0, 7);
    let raw = raw_tx(0x22, 0, 5);
    let resp = dispatch(Request::SendRawTransaction(hex0x(&raw)[2..].to_string()), &mut pool);
    assert_eq!(resp, Response::Hash(hex0x(&keccak256(&raw).0)));
}

#[test]
fn dispatch_reports_bad_hex_and_bad_transactions() {
    let mut pool = Mempool::new(0, 7);
    match dispatch(Request::SendRawTransaction("0xnothex".to_string()), &mut pool) {
        Response::Error(e) => assert!(e.starts_with("invalid hex: ")),
        other => panic!("unexpected {other:?}"),
    }
    match dispatch(Request::SendRawTransaction("0x0201".to_string()), &mut pool) {
        Response::Error(e) => assert!(e.starts_with("could not decode 2718 transaction: ")),
        other => panic!("unexpected {other:?}"),
    }
    assert_eq!(pool.stats().raw_buffered, 0);
    assert_eq!(pool.stats().pooled, 0);
}

#[test]
fn dispatch_orders_by_tip() {
    let mut pool = Mempool::new(0, 7);
    let mut hashes = Vec::new();
    for (key, tip) in [(0x11u8, 5u128), (0x22, 100), (0x33, 50)] {
        match dispatch(Request::SendRawTransaction(hex0x(&raw_tx(key, 0, tip))), &mut pool) {
            Response::Hash(h) => hashes.push(h),
            other => panic!("unexpected {other:?}"),
        }
    }
    assert_eq!(
        dispatch(Request::GetBestTransactionHashes, &mut pool),
        Response::BestTransactionHashes(vec![hashes[1].clone(), hashes[2].clone(), hashes[0].clone()])
    );
}

#[test]
fn stub_attestation_is_marked_and_obvious() {
    let a = dev_stub_attestation();
    assert!(a.stub);
    assert_eq!(a.mr_enclave, format!("0x{}", "de".repeat(32)));
    assert_eq!(a.mr_signer, format!("0x{}", "be".repeat(32)));
    assert_eq!(a.note, "DEV STUB — NOT A REAL SGX QUOTE; proves nothing");
}

#[test]
fn transport_is_plaintext() {
    let t = Transport::init().unwrap();
    assert_eq!(t.accept(42u32).unwrap(), 42);
}

#[test]
fn api_inner_lists_pool_order() {
    let mut pool = Mempool::new(0, 0);
    let a = pool.add_raw_transaction(raw_tx(0x11, 0, 1)).unwrap();
    let b = pool.add_raw_transaction(raw_tx(0x22, 0, 2)).unwrap();
    let api = OpEthExtApiInner::new(pool);
    assert_eq!(api.best_transactions(), vec![b, a]);
    assert_eq!(api.best_transactions(), vec![b, a]);
}
