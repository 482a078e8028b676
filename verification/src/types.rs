//! Data carried through the relay: transfer records, registry entries, and
//! the outgoing-event payload.

use crate::codec::spec_enc_fields;
use vstd::bytes::{spec_u128_to_le_bytes, spec_u32_to_le_bytes, u128_to_le_bytes, u32_to_le_bytes};
use vstd::prelude::*;

verus! {

/// Lifecycle of a stored transfer report.  Every submission is stored as
/// `Received`; consensus removes the record instead of advancing it.
#[derive(Clone, Copy, Debug, PartialEq, Eq, Structural)]
pub enum TransferStatus {
    Received,
}

/// One operator's report of a cross-chain transfer, as its receptacle stores
/// it: the raw id, the origin chain, the reported sender, and the fields the
/// payload decoder extracted.
#[derive(Clone, Debug)]
pub struct TransferRecord {
    pub tx_id: Vec<u8>,
    pub origin_chain: u32,
    pub sender: Vec<u8>,
    pub recipient: Vec<u8>,
    pub token: Vec<u8>,
    pub amount: i128,
    pub status: TransferStatus,
}

/// The structured fields handed to the settlement collaborator.
#[derive(Clone, Debug)]
pub struct TransferData {
    pub recipient: Vec<u8>,
    pub token: Vec<u8>,
    pub amount: i128,
}

/// A registered operator together with the handle of its receptacle store.
#[derive(Clone, Debug)]
pub struct ReceptacleDetails {
    pub operator: Vec<u8>,
    pub receptacle_address: u64,
}

/// A supported origin chain and the oracle address serving it.
#[derive(Clone, Debug)]
pub struct ChainOracleDetails {
    pub chain_name: Vec<u8>,
    pub chain_id: u32,
    pub oracle_address: Vec<u8>,
}

/// The destination-token mapping of one (token, chain) pair.
#[derive(Clone, Debug, PartialEq, Eq)]
pub struct DestinationChainDetails {
    pub chain_id: u32,
    pub destination_token: Vec<u8>,
}

/// The outgoing-transfer event handed to off-chain relayers; its schema is a
/// compatibility boundary with existing relayer deployments.
#[derive(Clone, Debug)]
pub struct OutgoingTransferEvent {
    pub tx_id: u64,
    pub destination_chain_id: u32,
    pub destination_oracle_address: Vec<u8>,
    pub initiating_user: Vec<u8>,
    pub data: TransferData,
}

/// The flattened field list of a record: id, origin chain, sender, recipient,
/// token, and the amount's 128 bits, integers in little-endian bytes.
pub open spec fn spec_record_fields(r: TransferRecord) -> Seq<Seq<u8>> {
    seq![
        r.tx_id@,
        spec_u32_to_le_bytes(r.origin_chain),
        r.sender@,
        r.recipient@,
        r.token@,
        spec_u128_to_le_bytes(r.amount as u128),
    ]
}

/// The record's fields all fit a four-byte length prefix.
pub open spec fn record_encodable(r: TransferRecord) -> bool {
    &&& r.tx_id@.len() <= u32::MAX
    &&& r.sender@.len() <= u32::MAX
    &&& r.recipient@.len() <= u32::MAX
    &&& r.token@.len() <= u32::MAX
}

/// One receptacle's answer for a transfer id: the record's field list when a
/// record is present, the empty list when none is.
pub open spec fn spec_answer_fields(ans: Option<TransferRecord>) -> Seq<Seq<u8>> {
    match ans {
        Some(r) => spec_record_fields(r),
        None => Seq::<Seq<u8>>::empty(),
    }
}

/// The canonical vote key of one receptacle's answer for a transfer id.
pub open spec fn spec_answer_key(ans: Option<TransferRecord>) -> Seq<u8> {
    spec_enc_fields(spec_answer_fields(ans))
}

/// A record's amount bits, read back from the canonical amount field.
pub open spec fn spec_amount_of_field(b: Seq<u8>) -> i128 {
    vstd::bytes::spec_u128_from_le_bytes(b) as i128
}

/// Reads an amount back from its 16-byte little-endian field.
pub fn amount_from_field(b: &Vec<u8>) -> (r: i128)
    requires
        b@.len() == 16,
    ensures
        r == spec_amount_of_field(b@),
{
    let bits = vstd::bytes::u128_from_le_bytes(b.as_slice());
    #[verifier::truncate] (bits as i128)
}

/// An answer's fields always fit the canonical key encoding, provided the
/// record itself does.
pub proof fn lemma_answer_fields_encodable(ans: Option<TransferRecord>)
    requires
        match ans {
            Some(r) => record_encodable(r),
            None => true,
        },
    ensures
        crate::codec::fields_encodable(spec_answer_fields(ans)),
{
    vstd::bytes::lemma_auto_spec_u32_to_from_le_bytes();
    vstd::bytes::lemma_auto_spec_u128_to_from_le_bytes();
    match ans {
        Some(r) => {
            let fs = spec_record_fields(r);
            assert(fs[0].len() <= u32::MAX);
            assert(fs[1].len() == 4);
            assert(fs[2].len() <= u32::MAX);
            assert(fs[3].len() <= u32::MAX);
            assert(fs[4].len() <= u32::MAX);
            assert(fs[5].len() == 16);
            assert forall|i: int| 0 <= i < fs.len() implies #[trigger] fs[i].len() <= u32::MAX
                by {}
        },
        None => {},
    }
}

/// Copies a byte vector.
pub fn bytes_clone(v: &Vec<u8>) -> (r: Vec<u8>)
    ensures
        r@ == v@,
{
    let r = v.clone();
    proof {
        assert(r@ =~= v@);
    }
    r
}

/// Flattens a record to the field list its vote key encodes.
pub fn record_fields(r: &TransferRecord) -> (fs: Vec<Vec<u8>>)
    ensures
        fs.deep_view() == spec_record_fields(*r),
{
    let mut fs: Vec<Vec<u8>> = Vec::new();
    fs.push(bytes_clone(&r.tx_id));
    fs.push(u32_to_le_bytes(r.origin_chain));
    fs.push(bytes_clone(&r.sender));
    fs.push(bytes_clone(&r.recipient));
    fs.push(bytes_clone(&r.token));
    let amount_bits: u128 = #[verifier::truncate] (r.amount as u128);
    fs.push(u128_to_le_bytes(amount_bits));
    proof {
        assert(fs.deep_view() =~~= spec_record_fields(*r));
    }
    fs
}

} // verus!
