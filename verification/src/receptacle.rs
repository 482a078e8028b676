//! The per-operator receptacle store.
//!
//! Each registered operator owns one receptacle.  It is bound once to an
//! oracle authority and an operator; the operator submits raw transfer
//! payloads, which are decoded and stored keyed by transfer id, and the
//! oracle authority orders transfers discarded once consensus settles them.
//! An ordered index keeps the active ids in insertion order; submission
//! always appends (a resubmitted id overwrites its record in place but is
//! appended to the index again, as the store makes no duplicate check).

use crate::decode::{decode_transfer_data, spec_amount, spec_recipient_field, spec_token_field};
use crate::errors::ContractError;
use crate::types::{
    bytes_clone, record_fields, record_encodable, spec_answer_fields, TransferRecord,
    TransferStatus,
};
use crate::codec::bytes_eq;
use vstd::prelude::*;

verus! {

/// The first record at or after position `i` whose id is `id`.
pub open spec fn find_rec_from(rs: Seq<TransferRecord>, id: Seq<u8>, i: int) -> Option<
    TransferRecord,
>
    decreases rs.len() - i,
{
    if i < 0 || i >= rs.len() {
        None
    } else if rs[i].tx_id@ == id {
        Some(rs[i])
    } else {
        find_rec_from(rs, id, i + 1)
    }
}

/// The record stored under `id`, if any.
pub open spec fn find_rec(rs: Seq<TransferRecord>, id: Seq<u8>) -> Option<TransferRecord> {
    find_rec_from(rs, id, 0)
}

/// No two records share an id.
pub open spec fn ids_distinct(rs: Seq<TransferRecord>) -> bool {
    forall|i: int, j: int|
        0 <= i < j < rs.len() ==> (#[trigger] rs[i].tx_id@) != (#[trigger] rs[j].tx_id@)
}

/// The index with the first occurrence of `id` deleted; unchanged when `id`
/// is absent.
pub open spec fn spec_remove_first(s: Seq<Seq<u8>>, id: Seq<u8>) -> Seq<Seq<u8>>
    decreases s.len(),
{
    if s.len() == 0 {
        s
    } else if s[0] == id {
        s.drop_first()
    } else {
        seq![s[0]] + spec_remove_first(s.drop_first(), id)
    }
}

/// Searching from `i` equals searching from `m` when nothing in between
/// matches.
pub proof fn lemma_find_from_skip(rs: Seq<TransferRecord>, id: Seq<u8>, i: int, m: int)
    requires
        0 <= i <= m <= rs.len(),
        forall|j: int| i <= j < m ==> (#[trigger] rs[j].tx_id@) != id,
    ensures
        find_rec_from(rs, id, i) == find_rec_from(rs, id, m),
    decreases m - i,
{
    if i < m {
        lemma_find_from_skip(rs, id, i + 1, m);
    }
}

/// Appending a record only changes a search that would have found nothing.
pub proof fn lemma_find_from_push(rs: Seq<TransferRecord>, r: TransferRecord, id: Seq<u8>, i: int)
    requires
        0 <= i <= rs.len(),
    ensures
        find_rec_from(rs.push(r), id, i) == match find_rec_from(rs, id, i) {
            Some(x) => Some(x),
            None => if r.tx_id@ == id {
                Some(r)
            } else {
                None
            },
        },
    decreases rs.len() - i,
{
    assert(rs.push(r).len() == rs.len() + 1);
    if i < rs.len() {
        assert(rs.push(r)[i] == rs[i]);
        lemma_find_from_push(rs, r, id, i + 1);
    } else {
        assert(rs.push(r)[i] == r);
    }
}

/// Overwriting position `m` with a record of the same id leaves searches for
/// every other id unchanged.
pub proof fn lemma_find_from_update_other(
    rs: Seq<TransferRecord>,
    m: int,
    rp: TransferRecord,
    id2: Seq<u8>,
    i: int,
)
    requires
        0 <= m < rs.len(),
        rp.tx_id@ == rs[m].tx_id@,
        id2 != rs[m].tx_id@,
        0 <= i <= rs.len(),
    ensures
        find_rec_from(rs.update(m, rp), id2, i) == find_rec_from(rs, id2, i),
    decreases rs.len() - i,
{
    if i < rs.len() {
        if i != m {
            assert(rs.update(m, rp)[i] == rs[i]);
        } else {
            assert(rs.update(m, rp)[i] == rp);
        }
        lemma_find_from_update_other(rs, m, rp, id2, i + 1);
    }
}

/// Past the deleted position, searching the shortened list equals searching
/// the original one step later.
pub proof fn lemma_find_from_remove_tail(rs: Seq<TransferRecord>, m: int, id: Seq<u8>, i: int)
    requires
        0 <= m < rs.len(),
        m <= i <= rs.len() - 1,
    ensures
        find_rec_from(rs.remove(m), id, i) == find_rec_from(rs, id, i + 1),
    decreases rs.len() - i,
{
    assert(rs.remove(m).len() == rs.len() - 1);
    if i < rs.len() - 1 {
        assert(rs.remove(m)[i] == rs[i + 1]);
        lemma_find_from_remove_tail(rs, m, id, i + 1);
    }
}

/// Before the deleted position, searching for another id is unchanged.
pub proof fn lemma_find_from_remove_front(rs: Seq<TransferRecord>, m: int, id: Seq<u8>, i: int)
    requires
        0 <= i <= m < rs.len(),
        id != rs[m].tx_id@,
    ensures
        find_rec_from(rs.remove(m), id, i) == find_rec_from(rs, id, i),
    decreases m - i,
{
    if i == m {
        lemma_find_from_remove_tail(rs, m, id, m);
    } else {
        assert(rs.remove(m)[i] == rs[i]);
        lemma_find_from_remove_front(rs, m, id, i + 1);
    }
}

/// Deleting the first matching index realizes `spec_remove_first`.
pub proof fn lemma_remove_first_at(s: Seq<Seq<u8>>, id: Seq<u8>, m: int)
    requires
        0 <= m < s.len(),
        s[m] == id,
        forall|j: int| 0 <= j < m ==> s[j] != id,
    ensures
        spec_remove_first(s, id) == s.remove(m),
    decreases m,
{
    if m == 0 {
        assert(spec_remove_first(s, id) =~= s.remove(0));
    } else {
        assert(forall|j: int|
            0 <= j < m - 1 ==> s.drop_first()[j] == s[j + 1] && s.drop_first()[j] != id);
        assert(s.drop_first()[m - 1] == id);
        lemma_remove_first_at(s.drop_first(), id, m - 1);
        assert(seq![s[0]] + s.drop_first().remove(m - 1) =~= s.remove(m));
    }
}

/// Deleting an absent id leaves the index unchanged.
pub proof fn lemma_remove_first_absent(s: Seq<Seq<u8>>, id: Seq<u8>)
    requires
        forall|j: int| 0 <= j < s.len() ==> s[j] != id,
    ensures
        spec_remove_first(s, id) == s,
    decreases s.len(),
{
    if s.len() > 0 {
        assert(forall|j: int|
            0 <= j < s.drop_first().len() ==> s.drop_first()[j] == s[j + 1]
                && s.drop_first()[j] != id);
        lemma_remove_first_absent(s.drop_first(), id);
        assert(seq![s[0]] + s.drop_first() =~= s);
    }
}

/// The record an authenticated submission must have stored for its id.
pub open spec fn committed_record(
    ans: Option<TransferRecord>,
    id: Seq<u8>,
    origin_chain: u32,
    sender: Seq<u8>,
    payload: Seq<u8>,
) -> bool {
    match ans {
        Some(r) => {
            &&& r.tx_id@ == id
            &&& r.origin_chain == origin_chain
            &&& r.sender@ == sender
            &&& r.recipient@ == spec_recipient_field(payload)
            &&& r.token@ == spec_token_field(payload)
            &&& r.amount == spec_amount(payload)
            &&& r.status == TransferStatus::Received
        },
        None => false,
    }
}

/// A search only ever yields one of the listed records.
proof fn lemma_find_from_is_element(rs: Seq<TransferRecord>, id: Seq<u8>, i: int)
    ensures
        match find_rec_from(rs, id, i) {
            Some(x) => exists|j: int| i <= j < rs.len() && rs[j] == x,
            None => true,
        },
    decreases rs.len() - i,
{
    if 0 <= i < rs.len() {
        if rs[i].tx_id@ == id {
            assert(rs[i] == rs[i]);
        } else {
            lemma_find_from_is_element(rs, id, i + 1);
        }
    }
}

/// The flattened field list a submission stores: id, origin chain, sender,
/// then the recipient, token and amount decoded from the payload.
pub open spec fn committed_fields(
    id: Seq<u8>,
    origin_chain: u32,
    sender: Seq<u8>,
    payload: Seq<u8>,
) -> Seq<Seq<u8>> {
    seq![
        id,
        vstd::bytes::spec_u32_to_le_bytes(origin_chain),
        sender,
        spec_recipient_field(payload),
        spec_token_field(payload),
        vstd::bytes::spec_u128_to_le_bytes(spec_amount(payload) as u128),
    ]
}

/// Round trip: fetching a transfer right after submitting it yields exactly
/// the fields decoded from the submitted payload — the id, origin chain and
/// sender as given, and recipient, token and amount as the decoder extracts
/// them.
pub proof fn lemma_submit_fetch_roundtrip(
    ans: Option<TransferRecord>,
    id: Seq<u8>,
    origin_chain: u32,
    sender: Seq<u8>,
    payload: Seq<u8>,
)
    requires
        committed_record(ans, id, origin_chain, sender, payload),
    ensures
        crate::types::spec_answer_fields(ans) == committed_fields(
            id,
            origin_chain,
            sender,
            payload,
        ),
{
    if let Some(r) = ans {
        assert(crate::types::spec_record_fields(r) =~~= committed_fields(
            id,
            origin_chain,
            sender,
            payload,
        ));
    }
}


/// In a well-formed store, whatever a lookup yields fits the canonical key
/// encoding.
pub proof fn lemma_lookup_encodable(r: Receptacle, id: Seq<u8>)
    requires
        r.wf(),
    ensures
        match r.lookup(id) {
            Some(rec) => record_encodable(rec),
            None => true,
        },
{
    lemma_find_from_is_element(r.records@, id, 0);
    if let Some(rec) = r.lookup(id) {
        let j = choose|j: int| 0 <= j < r.records@.len() && r.records@[j] == rec;
        assert(record_encodable(r.records@[j]));
    }
}

/// A per-operator store of pending transfer reports.
pub struct Receptacle {
    oracle: Option<Vec<u8>>,
    operator: Option<Vec<u8>>,
    payer: Option<Vec<u8>>,
    records: Vec<TransferRecord>,
    index: Vec<Vec<u8>>,
}

impl Receptacle {
    /// The bound oracle authority, if the store is initialized.
    pub closed spec fn oracle_id(self) -> Option<Seq<u8>> {
        match self.oracle {
            Some(v) => Some(v@),
            None => None,
        }
    }

    /// The bound operator, if the store is initialized.
    pub closed spec fn operator_id(self) -> Option<Seq<u8>> {
        match self.operator {
            Some(v) => Some(v@),
            None => None,
        }
    }

    /// The bound payer, if the store is initialized.
    pub closed spec fn payer_id(self) -> Option<Seq<u8>> {
        match self.payer {
            Some(v) => Some(v@),
            None => None,
        }
    }

    /// The record stored under `id`, if any.
    pub closed spec fn lookup(self, id: Seq<u8>) -> Option<TransferRecord> {
        find_rec(self.records@, id)
    }

    /// The active ids, in insertion order.
    pub closed spec fn pending_ids(self) -> Seq<Seq<u8>> {
        self.index.deep_view()
    }

    /// Well-formedness: the three bindings are set together, record ids are
    /// unique, and every stored record fits the canonical key encoding.
    pub closed spec fn wf(self) -> bool {
        &&& (self.oracle is Some <==> self.operator is Some)
        &&& (self.payer is Some <==> self.operator is Some)
        &&& ids_distinct(self.records@)
        &&& forall|i: int|
            0 <= i < self.records@.len() ==> record_encodable(#[trigger] self.records@[i])
    }

    /// An empty, unbound store.
    pub fn new() -> (r: Receptacle)
        ensures
            r.wf(),
            r.oracle_id() is None,
            r.operator_id() is None,
            r.payer_id() is None,
            forall|id: Seq<u8>| r.lookup(id) is None,
            r.pending_ids() == Seq::<Seq<u8>>::empty(),
    {
        let r = Receptacle {
            oracle: None,
            operator: None,
            payer: None,
            records: Vec::new(),
            index: Vec::new(),
        };
        proof {
            assert(r.records@ =~= Seq::<TransferRecord>::empty());
            assert(r.pending_ids() =~= Seq::<Seq<u8>>::empty());
        }
        r
    }

    /// One-time binding of the store to its oracle authority and operator;
    /// the payer starts as the operator.  Fails once an operator is bound.
    pub fn initialize(&mut self, oracle: &Vec<u8>, node_operator: &Vec<u8>) -> (r: Result<
        (),
        ContractError,
    >)
        requires
            old(self).wf(),
        ensures
            final(self).wf(),
            old(self).operator_id() is Some ==> r == Err::<(), ContractError>(
                ContractError::AlreadyInitialized,
            ) && *final(self) == *old(self),
            old(self).operator_id() is None ==> {
                &&& r == Ok::<(), ContractError>(())
                &&& final(self).oracle_id() == Some(oracle@)
                &&& final(self).operator_id() == Some(node_operator@)
                &&& final(self).payer_id() == Some(node_operator@)
                &&& forall|id: Seq<u8>| final(self).lookup(id) == old(self).lookup(id)
                &&& final(self).pending_ids() == old(self).pending_ids()
            },
    {
        if self.operator.is_some() {
            return Err(ContractError::AlreadyInitialized);
        }
        self.oracle = Some(bytes_clone(oracle));
        self.operator = Some(bytes_clone(node_operator));
        self.payer = Some(bytes_clone(node_operator));
        Ok(())
    }

    /// Rebinds the operator; only the current operator may do so.
    pub fn set_operator(&mut self, caller: &Vec<u8>, node_operator: &Vec<u8>)
        requires
            old(self).wf(),
            old(self).operator_id() == Some(caller@),
        ensures
            final(self).wf(),
            final(self).operator_id() == Some(node_operator@),
            final(self).oracle_id() == old(self).oracle_id(),
            final(self).payer_id() == old(self).payer_id(),
            forall|id: Seq<u8>| final(self).lookup(id) == old(self).lookup(id),
            final(self).pending_ids() == old(self).pending_ids(),
    {
        self.operator = Some(bytes_clone(node_operator));
    }

    /// Rebinds the payer; only the current operator may do so.
    pub fn set_payer(&mut self, caller: &Vec<u8>, payer: &Vec<u8>)
        requires
            old(self).wf(),
            old(self).operator_id() == Some(caller@),
        ensures
            final(self).wf(),
            final(self).payer_id() == Some(payer@),
            final(self).oracle_id() == old(self).oracle_id(),
            final(self).operator_id() == old(self).operator_id(),
            forall|id: Seq<u8>| final(self).lookup(id) == old(self).lookup(id),
            final(self).pending_ids() == old(self).pending_ids(),
    {
        self.payer = Some(bytes_clone(payer));
    }

    /// The bound payer.
    pub fn get_payer(&self) -> (r: Vec<u8>)
        requires
            self.wf(),
            self.payer_id() is Some,
        ensures
            self.payer_id() == Some(r@),
    {
        if let Some(p) = &self.payer {
            bytes_clone(p)
        } else {
            proof {
                assert(false);
            }
            Vec::new()
        }
    }

    /// Decodes an authenticated submission and stores it under its id: the
    /// record is created (or overwritten in place when the id was already
    /// present), and the id is appended to the index either way.
    pub fn commit_transfer(
        &mut self,
        caller: &Vec<u8>,
        tx_id: Vec<u8>,
        origin_chain: u32,
        sender: Vec<u8>,
        transfer_data: &Vec<u8>,
    )
        requires
            old(self).wf(),
            old(self).operator_id() == Some(caller@),
            transfer_data@.len() >= 312,
            tx_id@.len() <= u32::MAX,
            sender@.len() <= u32::MAX,
        ensures
            final(self).wf(),
            final(self).oracle_id() == old(self).oracle_id(),
            final(self).operator_id() == old(self).operator_id(),
            final(self).payer_id() == old(self).payer_id(),
            committed_record(
                final(self).lookup(tx_id@),
                tx_id@,
                origin_chain,
                sender@,
                transfer_data@,
            ),
            forall|id2: Seq<u8>| id2 != tx_id@ ==> final(self).lookup(id2) == old(self).lookup(
                id2,
            ),
            final(self).pending_ids() == old(self).pending_ids().push(tx_id@),
    {
        let d = decode_transfer_data(transfer_data).unwrap();
        let rec = TransferRecord {
            tx_id: bytes_clone(&tx_id),
            origin_chain,
            sender,
            recipient: d.recipient,
            token: d.token,
            amount: d.amount,
            status: TransferStatus::Received,
        };
        let ghost old_records = self.records@;
        let mut i: usize = 0;
        let mut found = false;
        while i < self.records.len() && !found
            invariant
                old(self).wf(),
                self.records@ == old_records,
                i <= old_records.len(),
                !found ==> forall|j: int| 0 <= j < i ==> (#[trigger] old_records[j].tx_id@)
                    != tx_id@,
                found ==> i < old_records.len() && old_records[i as int].tx_id@ == tx_id@
                    && forall|j: int| 0 <= j < i ==> (#[trigger] old_records[j].tx_id@) != tx_id@,
            decreases old_records.len() - i + (if found {
                0int
            } else {
                1int
            }),
    {
            if bytes_eq(&self.records[i].tx_id, &tx_id) {
                found = true;
            } else {
                i = i + 1;
            }
        }
        if found {
            proof {
                lemma_find_from_skip(old_records.update(i as int, rec), tx_id@, 0, i as int);
                assert(old_records.update(i as int, rec)[i as int] == rec);
                assert forall|id2: Seq<u8>| id2 != tx_id@ implies find_rec(
                    old_records.update(i as int, rec),
                    id2,
                ) == find_rec(old_records, id2) by {
                    lemma_find_from_update_other(old_records, i as int, rec, id2, 0);
                }
            }
            self.records[i] = rec;
        } else {
            proof {
                lemma_find_from_skip(old_records, tx_id@, 0, old_records.len() as int);
                lemma_find_from_push(old_records, rec, tx_id@, 0);
                assert forall|id2: Seq<u8>| id2 != tx_id@ implies find_rec(
                    old_records.push(rec),
                    id2,
                ) == find_rec(old_records, id2) by {
                    lemma_find_from_push(old_records, rec, id2, 0);
                }
            }
            self.records.push(rec);
        }
        let ghost mid_index = self.index.deep_view();
        let ghost id_view = tx_id@;
        self.index.push(tx_id);
        proof {
            assert(self.index.deep_view() =~~= mid_index.push(id_view));
        }
    }

    /// Discards a transfer on the oracle authority's order: the record is
    /// deleted if present, and the first occurrence of the id leaves the
    /// index.  Discarding an absent id is a harmless no-op.
    pub fn remove_transfer(&mut self, caller: &Vec<u8>, tx_id: &Vec<u8>)
        requires
            old(self).wf(),
            old(self).oracle_id() == Some(caller@),
        ensures
            final(self).wf(),
            final(self).oracle_id() == old(self).oracle_id(),
            final(self).operator_id() == old(self).operator_id(),
            final(self).payer_id() == old(self).payer_id(),
            final(self).lookup(tx_id@) is None,
            forall|id2: Seq<u8>| id2 != tx_id@ ==> final(self).lookup(id2) == old(self).lookup(
                id2,
            ),
            final(self).pending_ids() == spec_remove_first(old(self).pending_ids(), tx_id@),
    {
        let ghost old_records = self.records@;
        let mut i: usize = 0;
        let mut found = false;
        while i < self.records.len() && !found
            invariant
                old(self).wf(),
                self.records@ == old_records,
                i <= old_records.len(),
                !found ==> forall|j: int| 0 <= j < i ==> (#[trigger] old_records[j].tx_id@)
                    != tx_id@,
                found ==> i < old_records.len() && old_records[i as int].tx_id@ == tx_id@,
            decreases old_records.len() - i + (if found {
                0int
            } else {
                1int
            }),
        {
            if bytes_eq(&self.records[i].tx_id, tx_id) {
                found = true;
            } else {
                i = i + 1;
            }
        }
        if found {
            proof {
                let new_records = old_records.remove(i as int);
                assert forall|j: int| 0 <= j < new_records.len() implies (
                #[trigger] new_records[j].tx_id@) != tx_id@ by {
                    if j < i {
                        assert(new_records[j] == old_records[j]);
                    } else {
                        assert(new_records[j] == old_records[j + 1]);
                    }
                }
                lemma_find_from_skip(new_records, tx_id@, 0, new_records.len() as int);
                assert forall|id2: Seq<u8>| id2 != tx_id@ implies find_rec(new_records, id2)
                    == find_rec(old_records, id2) by {
                    lemma_find_from_remove_front(old_records, i as int, id2, 0);
                }
            }
            self.records.remove(i);
        } else {
            proof {
                lemma_find_from_skip(old_records, tx_id@, 0, old_records.len() as int);
            }
        }
        let ghost old_index = self.index.deep_view();
        let mut j: usize = 0;
        let mut found_idx = false;
        while j < self.index.len() && !found_idx
            invariant
                self.index.deep_view() == old_index,
                j <= old_index.len(),
                !found_idx ==> forall|k: int| 0 <= k < j ==> (#[trigger] old_index[k]) != tx_id@,
                found_idx ==> j < old_index.len() && old_index[j as int] == tx_id@ && forall|
                    k: int,
                |
                    0 <= k < j ==> (#[trigger] old_index[k]) != tx_id@,
            decreases old_index.len() - j + (if found_idx {
                0int
            } else {
                1int
            }),
        {
            proof {
                assert(self.index@[j as int]@ == old_index[j as int]);
            }
            if bytes_eq(&self.index[j], tx_id) {
                found_idx = true;
            } else {
                j = j + 1;
            }
        }
        if found_idx {
            proof {
                lemma_remove_first_at(old_index, tx_id@, j as int);
            }
            self.index.remove(j);
            proof {
                assert(self.index.deep_view() =~~= old_index.remove(j as int));
            }
        } else {
            proof {
                lemma_remove_first_absent(old_index, tx_id@);
            }
        }
    }

    /// The active transfer ids, in insertion order.
    pub fn get_transfer_id_list(&self) -> (r: Vec<Vec<u8>>)
        ensures
            r.deep_view() == self.pending_ids(),
    {
        let mut r: Vec<Vec<u8>> = Vec::new();
        let mut i: usize = 0;
        while i < self.index.len()
            invariant
                i <= self.index@.len(),
                r.deep_view() == self.index.deep_view().take(i as int),
            decreases self.index@.len() - i,
        {
            let ghost before = r.deep_view();
            r.push(bytes_clone(&self.index[i]));
            proof {
                assert(r.deep_view() =~~= before.push(self.index@[i as int]@));
                assert(before.push(self.index@[i as int]@) =~~= self.index.deep_view().take(
                    i + 1,
                ));
            }
            i = i + 1;
        }
        proof {
            assert(self.index.deep_view().take(self.index@.len() as int) =~~= self
                .index
                .deep_view());
        }
        r
    }

    /// The stored record's field list for an id, flattened for voting; empty
    /// when the store holds nothing under the id.  Absence is not an error:
    /// the caller treats an empty answer as "not yet reported".
    pub fn get_transfer(&self, tx_id: &Vec<u8>) -> (r: Vec<Vec<u8>>)
        requires
            self.wf(),
        ensures
            r.deep_view() == spec_answer_fields(self.lookup(tx_id@)),
    {
        let mut i: usize = 0;
        while i < self.records.len()
            invariant
                self.wf(),
                i <= self.records@.len(),
                forall|j: int| 0 <= j < i ==> (#[trigger] self.records@[j].tx_id@) != tx_id@,
            decreases self.records@.len() - i,
        {
            if bytes_eq(&self.records[i].tx_id, tx_id) {
                proof {
                    lemma_find_from_skip(self.records@, tx_id@, 0, i as int);
                }
                return record_fields(&self.records[i]);
            }
            i = i + 1;
        }
        proof {
            lemma_find_from_skip(self.records@, tx_id@, 0, self.records@.len() as int);
        }
        let r: Vec<Vec<u8>> = Vec::new();
        proof {
            assert(r.deep_view() =~~= Seq::<Seq<u8>>::empty());
        }
        r
    }
}

} // verus!
