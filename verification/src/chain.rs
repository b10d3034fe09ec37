//! Transaction decoding, hashing and signer recovery, provided by alloy.

use vstd::prelude::*;
use alloy_consensus::{SignableTransaction, TxEip1559, TxEnvelope};
use alloy_eips::eip2718::Encodable2718;
use alloy_primitives::{Address, TxKind, B256, U256};
use alloy_signer::SignerSync;
use alloy_signer_local::PrivateKeySigner;

verus! {

/// alloy's transaction envelope, carried opaquely.
#[verifier::external_type_specification]
#[verifier::external_body]
#[verifier::reject_recursive_types(Eip4844)]
pub struct ExEthereumTxEnvelope<Eip4844>(alloy_consensus::EthereumTxEnvelope<Eip4844>);

/// alloy's EIP-4844 transaction variant (a type argument of `TxEnvelope`), carried opaquely.
#[verifier::external_type_specification]
#[verifier::external_body]
#[verifier::reject_recursive_types(T)]
pub struct ExTxEip4844Variant<T>(alloy_consensus::TxEip4844Variant<T>);

/// alloy's blob sidecar type (a type argument of `TxEnvelope`), carried opaquely.
#[verifier::external_type_specification]
#[verifier::external_body]
pub struct ExBlobTransactionSidecarVariant(alloy_eips::eip7594::BlobTransactionSidecarVariant);

/// Keccak-256 digest of a byte string.
pub uninterp spec fn keccak256_of(data: Seq<u8>) -> Seq<u8>;

/// Calls `alloy_primitives::keccak256`: the result is the Keccak-256 digest of `data`.
#[verifier::external_body]
pub(crate) fn keccak256(data: &[u8]) -> (res: [u8; 32])
    ensures
        res@ == keccak256_of(data@),
{
    alloy_primitives::keccak256(data).0
}

/// A transaction envelope together with the bytes it was decoded from. Only
/// `decode_2718` builds one, so `source` is always what `env` was decoded from.
pub struct Decoded2718 {
    env: alloy_consensus::TxEnvelope,
    source: Ghost<Seq<u8>>,
}

impl Decoded2718 {
    pub closed spec fn source(&self) -> Seq<u8> {
        self.source@
    }
}

/// Whether EIP-2718 decoding of these bytes succeeds.
pub uninterp spec fn decodes_2718(raw: Seq<u8>) -> bool;

/// The `Display` text of the error that EIP-2718 decoding of these bytes gives.
pub uninterp spec fn decode_error_text(raw: Seq<u8>) -> Seq<char>;

/// Calls `Decodable2718::decode_2718` for `TxEnvelope` on `raw`: it succeeds exactly when
/// `decodes_2718(raw)`, and the envelope keeps the bytes it was decoded from. A
/// failure is handed back as the error's `to_string()`.
#[verifier::external_body]
pub(crate) fn decode_2718(raw: &[u8]) -> (res: Result<Decoded2718, String>)
    ensures
        res is Ok <==> decodes_2718(raw@),
        res matches Ok(d) ==> d.source() == raw@,
        res matches Err(m) ==> m@ == decode_error_text(raw@),
{
    let mut slice: &[u8] = raw;
    match <alloy_consensus::TxEnvelope as alloy_eips::eip2718::Decodable2718>::decode_2718(&mut slice) {
        Ok(env) => Ok(Decoded2718 { env, source: Ghost(raw@) }),
        Err(e) => Err(e.to_string()),
    }
}

/// The address that signed the transaction encoded by `raw`, if it can be recovered.
pub uninterp spec fn signer_of(raw: Seq<u8>) -> Option<Seq<u8>>;

/// The `Display` text of the error that signer recovery gives for the
/// transaction encoded by `raw`.
pub uninterp spec fn recovery_error_text(raw: Seq<u8>) -> Seq<char>;

/// Calls `SignerRecoverable::recover_signer` on the envelope: it succeeds exactly when
/// `signer_of` of the decoded bytes is some address, and then returns that address.
/// A failure is handed back as the error's `to_string()`.
#[verifier::external_body]
pub(crate) fn recover_signer(d: &Decoded2718) -> (res: Result<[u8; 20], String>)
    ensures
        res is Ok <==> signer_of(d.source()) is Some,
        res matches Ok(a) ==> signer_of(d.source()) == Some(a@),
        res matches Err(m) ==> m@ == recovery_error_text(d.source()),
{
    match alloy_consensus::transaction::SignerRecoverable::recover_signer(&d.env) {
        Ok(a) => Ok(a.into_array()),
        Err(e) => Err(e.to_string()),
    }
}

/// The nonce of the transaction encoded by `raw`.
pub uninterp spec fn nonce_of(raw: Seq<u8>) -> u64;

/// Calls `Transaction::nonce` on the envelope: the nonce of the decoded transaction.
#[verifier::external_body]
pub(crate) fn tx_nonce(d: &Decoded2718) -> (res: u64)
    ensures
        res == nonce_of(d.source()),
{
    alloy_consensus::Transaction::nonce(&d.env)
}

/// The effective tip per gas of the transaction encoded by `raw` at `base_fee`
/// (`None` when its fee cap is below the base fee).
pub uninterp spec fn effective_tip_of(raw: Seq<u8>, base_fee: u64) -> Option<u128>;

/// Calls `Transaction::effective_tip_per_gas` on the envelope with `base_fee`.
#[verifier::external_body]
pub(crate) fn effective_tip_per_gas(d: &Decoded2718, base_fee: u64) -> (res: Option<u128>)
    ensures
        res == effective_tip_of(d.source(), base_fee),
{
    alloy_consensus::Transaction::effective_tip_per_gas(&d.env, base_fee)
}

/// The EIP-2718 encoding of the EIP-1559 transaction with these fields, value 0,
/// no input and an empty access list, calling `to`, signed with the secp256k1
/// secret key `key` (RFC 6979 deterministic nonce); `None` when `key` is not a
/// valid secret scalar or the signing of this transaction fails. Signing is
/// deterministic, so this is a function of the arguments alone.
pub uninterp spec fn signed_eip1559_2718(
    key: Seq<u8>,
    chain_id: u64,
    nonce: u64,
    gas_limit: u64,
    max_fee_per_gas: u128,
    max_priority_fee_per_gas: u128,
    to: Seq<u8>,
) -> Option<Seq<u8>>;

/// Builds that transaction as alloy's `TxEip1559`, signs its signature hash with
/// `PrivateKeySigner::from_bytes(key)` and `sign_hash_sync`, and returns
/// `encoded_2718` of the signed envelope; `None` exactly when `from_bytes` or
/// `sign_hash_sync` returns an error, as `signed_eip1559_2718` says.
#[verifier::external_body]
pub(crate) fn sign_eip1559_2718(
    key: [u8; 32],
    chain_id: u64,
    nonce: u64,
    gas_limit: u64,
    max_fee_per_gas: u128,
    max_priority_fee_per_gas: u128,
    to: [u8; 20],
) -> (res: Option<Vec<u8>>)
    ensures
        res is Some <==> signed_eip1559_2718(
            key@,
            chain_id,
            nonce,
            gas_limit,
            max_fee_per_gas,
            max_priority_fee_per_gas,
            to@,
        ) is Some,
        res matches Some(v) ==> Some(v@) == signed_eip1559_2718(
            key@,
            chain_id,
            nonce,
            gas_limit,
            max_fee_per_gas,
            max_priority_fee_per_gas,
            to@,
        ),
{
    let signer = match PrivateKeySigner::from_bytes(&B256::from(key)) { Ok(s) => s, Err(_) => return None };
    let tx = TxEip1559 { chain_id, nonce, gas_limit, max_fee_per_gas, max_priority_fee_per_gas,
        to: TxKind::Call(Address::from(to)), value: U256::ZERO, access_list: Default::default(), input: Default::default() };
    let sig = match signer.sign_hash_sync(&tx.signature_hash()) { Ok(s) => s, Err(_) => return None };
    let env: TxEnvelope = tx.into_signed(sig).into();
    Some(env.encoded_2718())
}

} // verus!
