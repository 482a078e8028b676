//! The oracle coordinator.
//!
//! The coordinator owns the operator registry — one receptacle store per
//! registered operator, the registry's cardinality being the consensus
//! threshold — together with the chain registry, the token destination map
//! and the persistent consensus tally.  Its upkeep routine polls every
//! receptacle for each pending transfer id of the designated seed
//! receptacle, serializes each answer to a canonical vote key, tallies the
//! keys, and, when one key gathers votes up to the registered-operator
//! count, decodes it into a settlement instruction and orders every
//! receptacle to discard the transfer.

use crate::chains::{chain_find, ChainModel, ChainRegistry};
use crate::codec::{dec_fields, enc_fields, spec_dec_fields, spec_enc_fields};
use crate::consensus::{bump_all, spec_distinct, spec_winner, ConsensusTally};
use crate::errors::ContractError;
use crate::receptacle::{committed_fields, spec_remove_first, Receptacle};
use crate::tokens::{
    dest_models, token_destinations, token_find, token_supported, TokenModel, TokenRegistry,
};
use crate::types::{
    amount_from_field, bytes_clone, lemma_answer_fields_encodable, spec_amount_of_field,
    ChainOracleDetails, DestinationChainDetails, OutgoingTransferEvent, ReceptacleDetails,
    TransferData,
};
use vstd::prelude::*;

verus! {

/// The ghost model of one receptacle store: the flattened answer it gives
/// for every transfer id (empty when it holds nothing under the id), and its
/// pending ids in insertion order.
#[verifier::ext_equal]
pub struct StoreModel {
    pub answers: Map<Seq<u8>, Seq<Seq<u8>>>,
    pub pending: Seq<Seq<u8>>,
}

/// A settlement instruction's model: recipient, token, amount.
pub type SettleModel = (Seq<u8>, Seq<u8>, i128);

/// The ghost state one upkeep pass threads from id to id: the stores, the
/// tally counts, the settlements emitted so far, and the round-wide list of
/// keys to clear at the end.
#[verifier::ext_equal]
pub struct UpkeepState {
    pub stores: Seq<StoreModel>,
    pub tally: Map<Seq<u8>, u32>,
    pub settlements: Seq<SettleModel>,
    pub reset: Seq<Seq<u8>>,
}

/// The model of a store that holds nothing.
pub open spec fn empty_store_model() -> StoreModel {
    StoreModel {
        answers: Map::new(|id: Seq<u8>| true, |id: Seq<u8>| Seq::<Seq<u8>>::empty()),
        pending: Seq::<Seq<u8>>::empty(),
    }
}

/// The model of a live store.
pub open spec fn store_model_of(r: Receptacle) -> StoreModel {
    StoreModel {
        answers: Map::new(
            |id: Seq<u8>| true,
            |id: Seq<u8>| crate::types::spec_answer_fields(r.lookup(id)),
        ),
        pending: r.pending_ids(),
    }
}

/// The vote keys one id draws, one per store, in registry order.
pub open spec fn batch_keys(stores: Seq<StoreModel>, id: Seq<u8>) -> Seq<Seq<u8>> {
    Seq::new(stores.len(), |j: int| spec_enc_fields(stores[j].answers[id]))
}

/// Every store with the id discarded: its answer emptied, the first
/// occurrence of the id gone from its pending list.
pub open spec fn discard_all(stores: Seq<StoreModel>, id: Seq<u8>) -> Seq<StoreModel> {
    Seq::new(
        stores.len(),
        |j: int|
            StoreModel {
                answers: stores[j].answers.insert(id, Seq::<Seq<u8>>::empty()),
                pending: spec_remove_first(stores[j].pending, id),
            },
    )
}

/// One pending id processed: every store's answer key is tallied and joins
/// the reset list; if a key reaches the threshold and decodes to a
/// well-formed record (more than five fields), its recipient, token and
/// amount become a settlement and the winning id is discarded everywhere.
pub open spec fn upkeep_step(s: UpkeepState, id: Seq<u8>, threshold: u32) -> UpkeepState {
    let batch = batch_keys(s.stores, id);
    let t2 = bump_all(s.tally, batch);
    let reset2 = s.reset + batch;
    match spec_winner(t2, spec_distinct(batch), threshold) {
        Some(w) => match spec_dec_fields(w) {
            Some(arr) => if arr.len() > 5 {
                UpkeepState {
                    stores: discard_all(s.stores, arr[0]),
                    tally: t2,
                    settlements: s.settlements.push(
                        (arr[3], arr[4], spec_amount_of_field(arr[5])),
                    ),
                    reset: reset2,
                }
            } else {
                UpkeepState { stores: s.stores, tally: t2, settlements: s.settlements, reset: reset2 }
            },
            None => UpkeepState {
                stores: s.stores,
                tally: t2,
                settlements: s.settlements,
                reset: reset2,
            },
        },
        None => UpkeepState { stores: s.stores, tally: t2, settlements: s.settlements, reset: reset2 },
    }
}

/// The first `k` pending ids processed in order.
pub open spec fn upkeep_run(
    s: UpkeepState,
    ids: Seq<Seq<u8>>,
    threshold: u32,
    k: int,
) -> UpkeepState
    decreases k,
{
    if k <= 0 {
        s
    } else {
        upkeep_step(upkeep_run(s, ids, threshold, k - 1), ids[k - 1], threshold)
    }
}

/// The first `k` reset keys cleared back to zero, in order.
pub open spec fn clear_keys(m: Map<Seq<u8>, u32>, reset: Seq<Seq<u8>>, k: int) -> Map<Seq<u8>, u32>
    decreases k,
{
    if k <= 0 {
        m
    } else {
        clear_keys(m, reset, k - 1).insert(reset[k - 1], 0)
    }
}

/// The models of a settlement list.
pub open spec fn settle_models(v: Seq<TransferData>) -> Seq<SettleModel> {
    v.map_values(|d: TransferData| (d.recipient@, d.token@, d.amount))
}

/// One registered operator and its receptacle store.
struct OperatorEntry {
    operator: Vec<u8>,
    receptacle_address: u64,
    receptacle: Receptacle,
}

/// The oracle coordinator's state.
pub struct Oracle {
    admin: Option<Vec<u8>>,
    own_address: Option<Vec<u8>>,
    bridge: Option<Vec<u8>>,
    registry: Vec<OperatorEntry>,
    next_receptacle_id: u64,
    threshold: u32,
    chains: ChainRegistry,
    tokens: TokenRegistry,
    tally: ConsensusTally,
}

impl Oracle {
    /// The bound admin, if initialized.
    pub closed spec fn admin_id(self) -> Option<Seq<u8>> {
        match self.admin {
            Some(a) => Some(a@),
            None => None,
        }
    }

    /// The coordinator's own address, bound into each receptacle as its
    /// oracle authority.
    pub closed spec fn self_address(self) -> Option<Seq<u8>> {
        match self.own_address {
            Some(a) => Some(a@),
            None => None,
        }
    }

    /// The configured bridge endpoint, if any.
    pub closed spec fn bridge_id(self) -> Option<Seq<u8>> {
        match self.bridge {
            Some(a) => Some(a@),
            None => None,
        }
    }

    /// The consensus threshold.
    pub closed spec fn threshold(self) -> u32 {
        self.threshold
    }

    /// How many operators are registered.
    pub open spec fn n_operators(self) -> int {
        self.operators().len() as int
    }

    /// The registered operators, in registration order.
    pub closed spec fn operators(self) -> Seq<Seq<u8>> {
        self.registry@.map_values(|e: OperatorEntry| e.operator@)
    }

    /// The receptacle handles, in registration order.
    pub closed spec fn addresses(self) -> Seq<u64> {
        self.registry@.map_values(|e: OperatorEntry| e.receptacle_address)
    }

    /// The models of the receptacle stores, in registration order.
    pub closed spec fn store_models(self) -> Seq<StoreModel> {
        self.registry@.map_values(|e: OperatorEntry| store_model_of(e.receptacle))
    }

    /// The persisted tally counts.
    pub closed spec fn tally_counts(self) -> Map<Seq<u8>, u32> {
        self.tally.counts()
    }

    /// The chain registry's entries.
    pub closed spec fn chain_models(self) -> Seq<ChainModel> {
        self.chains.models()
    }

    /// The token destination map's entries.
    pub closed spec fn token_models(self) -> Seq<TokenModel> {
        self.tokens.models()
    }

    /// The caller holds the admin capability.
    pub open spec fn is_admin(self, caller: Seq<u8>) -> bool {
        self.admin_id() == Some(caller)
    }

    /// Well-formedness: the threshold equals the operator count, operators
    /// are distinct, every receptacle is well-formed and bound to this
    /// coordinator and to its registry operator, and the inner registries
    /// are well-formed.
    pub closed spec fn wf(self) -> bool {
        &&& self.threshold as int == self.registry@.len()
        &&& self.registry@.len() <= u32::MAX
        &&& (self.admin is Some <==> self.own_address is Some)
        &&& self.registry@.len() > 0 ==> self.own_address is Some
        &&& forall|i: int, j: int|
            0 <= i < j < self.registry@.len() ==> (#[trigger] self.registry@[i].operator@) != (
            #[trigger] self.registry@[j].operator@)
        &&& forall|i: int|
            0 <= i < self.registry@.len() ==> (#[trigger] self.registry@[i].receptacle).wf()
        &&& forall|i: int|
            0 <= i < self.registry@.len() ==> (#[trigger] self.registry@[i].receptacle).oracle_id()
                == self.self_address()
        &&& forall|i: int|
            0 <= i < self.registry@.len() ==> (
            #[trigger] self.registry@[i].receptacle).operator_id() == Some(
                self.registry@[i].operator@,
            )
        &&& self.chains.wf()
        &&& self.tokens.wf()
        &&& self.tally.wf()
    }

    /// A fresh, uninitialized coordinator.
    pub fn new() -> (r: Oracle)
        ensures
            r.wf(),
            r.admin_id() is None,
            r.bridge_id() is None,
            r.n_operators() == 0,
            r.store_models() == Seq::<StoreModel>::empty(),
            r.addresses() == Seq::<u64>::empty(),
            r.threshold() == 0,
            r.chain_models() == Seq::<ChainModel>::empty(),
            r.token_models() == Seq::<TokenModel>::empty(),
            forall|k: Seq<u8>| r.tally_counts()[k] == 0,
    {
        let r = Oracle {
            admin: None,
            own_address: None,
            bridge: None,
            registry: Vec::new(),
            next_receptacle_id: 0,
            threshold: 0,
            chains: ChainRegistry::new(),
            tokens: TokenRegistry::new(),
            tally: ConsensusTally::new(),
        };
        proof {
            assert(r.operators() =~= Seq::<Seq<u8>>::empty());
            assert(r.store_models() =~= Seq::<StoreModel>::empty());
            assert(r.addresses() =~= Seq::<u64>::empty());
        }
        r
    }

    /// One-time binding of the admin and of the coordinator's own address
    /// (the oracle authority its receptacles will answer to).
    pub fn initialize(&mut self, admin: &Vec<u8>, own_address: &Vec<u8>) -> (r: Result<
        (),
        ContractError,
    >)
        requires
            old(self).wf(),
        ensures
            final(self).wf(),
            old(self).admin_id() is Some ==> r == Err::<(), ContractError>(
                ContractError::AlreadyInitialized,
            ) && *final(self) == *old(self),
            old(self).admin_id() is None ==> {
                &&& r == Ok::<(), ContractError>(())
                &&& final(self).admin_id() == Some(admin@)
                &&& final(self).self_address() == Some(own_address@)
                &&& final(self).bridge_id() == old(self).bridge_id()
                &&& final(self).operators() == old(self).operators()
                &&& final(self).addresses() == old(self).addresses()
                &&& final(self).store_models() == old(self).store_models()
                &&& final(self).threshold() == old(self).threshold()
                &&& final(self).chain_models() == old(self).chain_models()
                &&& final(self).token_models() == old(self).token_models()
                &&& final(self).tally_counts() == old(self).tally_counts()
            },
    {
        if self.admin.is_some() {
            return Err(ContractError::AlreadyInitialized);
        }
        self.admin = Some(bytes_clone(admin));
        self.own_address = Some(bytes_clone(own_address));
        Ok(())
    }

    /// Configures the bridge endpoint the settlement instructions are meant
    /// for; admin only.
    pub fn setup_bridge(&mut self, caller: &Vec<u8>, bridge_contract: &Vec<u8>)
        requires
            old(self).wf(),
            old(self).is_admin(caller@),
        ensures
            final(self).wf(),
            final(self).bridge_id() == Some(bridge_contract@),
            final(self).admin_id() == old(self).admin_id(),
            final(self).self_address() == old(self).self_address(),
            final(self).operators() == old(self).operators(),
            final(self).addresses() == old(self).addresses(),
            final(self).store_models() == old(self).store_models(),
            final(self).threshold() == old(self).threshold(),
            final(self).chain_models() == old(self).chain_models(),
            final(self).token_models() == old(self).token_models(),
            final(self).tally_counts() == old(self).tally_counts(),
    {
        self.bridge = Some(bytes_clone(bridge_contract));
    }

    /// Registers an operator: a fresh receptacle store is created, bound to
    /// this coordinator and to the operator, and appended to the registry;
    /// the consensus threshold rises by one.  Admin only; a registered
    /// operator is rejected.
    pub fn setup_new_node(&mut self, caller: &Vec<u8>, operator: &Vec<u8>) -> (r: Result<
        u64,
        ContractError,
    >)
        requires
            old(self).wf(),
            old(self).is_admin(caller@),
            old(self).n_operators() < u32::MAX,
        ensures
            final(self).wf(),
            old(self).operators().contains(operator@) ==> r == Err::<u64, ContractError>(
                ContractError::AlreadyRegisteredOperator,
            ) && *final(self) == *old(self),
            !old(self).operators().contains(operator@) ==> {
                &&& (r matches Ok(addr) && final(self).addresses() == old(self).addresses().push(
                    addr,
                ))
                &&& final(self).operators() == old(self).operators().push(operator@)
                &&& final(self).store_models() == old(self).store_models().push(
                    empty_store_model(),
                )
                &&& final(self).threshold() == old(self).threshold() + 1
                &&& final(self).admin_id() == old(self).admin_id()
                &&& final(self).self_address() == old(self).self_address()
                &&& final(self).bridge_id() == old(self).bridge_id()
                &&& final(self).chain_models() == old(self).chain_models()
                &&& final(self).token_models() == old(self).token_models()
                &&& final(self).tally_counts() == old(self).tally_counts()
            },
    {
        let ghost old_regs = self.registry@;
        let mut i: usize = 0;
        while i < self.registry.len()
            invariant
                *self == *old(self),
                old(self).wf(),
                self.registry@ == old_regs,
                i <= old_regs.len(),
                forall|j: int| 0 <= j < i ==> (#[trigger] old_regs[j].operator@) != operator@,
            decreases old_regs.len() - i,
        {
            if crate::codec::bytes_eq(&self.registry[i].operator, operator) {
                proof {
                    assert(old(self).operators()[i as int] == operator@);
                    assert(old(self).operators().contains(operator@));
                }
                return Err(ContractError::AlreadyRegisteredOperator);
            }
            i = i + 1;
        }
        proof {
            assert forall|j: int| 0 <= j < old(self).operators().len() implies (
            #[trigger] old(self).operators()[j]) != operator@ by {
                assert(old(self).operators()[j] == old_regs[j].operator@);
            }
            if old(self).operators().contains(operator@) {
                let j = choose|j: int|
                    0 <= j < old(self).operators().len() && old(self).operators()[j] == operator@;
                assert(false);
            }
        }
        let own = if let Some(a) = &self.own_address {
            bytes_clone(a)
        } else {
            proof {
                assert(false);
            }
            Vec::new()
        };
        let mut receptacle = Receptacle::new();
        let init_result = receptacle.initialize(&own, operator);
        proof {
            assert(init_result is Ok);
        }
        let addr = self.next_receptacle_id;
        self.next_receptacle_id = if self.next_receptacle_id < u64::MAX {
            self.next_receptacle_id + 1
        } else {
            self.next_receptacle_id
        };
        let ghost new_rec = receptacle;
        let entry = OperatorEntry {
            operator: bytes_clone(operator),
            receptacle_address: addr,
            receptacle,
        };
        self.registry.push(entry);
        self.threshold = self.threshold + 1;
        proof {
            assert(self.operators() =~= old(self).operators().push(operator@));
            assert(self.addresses() =~= old(self).addresses().push(addr));
            assert(store_model_of(new_rec) =~~= empty_store_model());
            assert(self.store_models() =~~= old(self).store_models().push(empty_store_model()));
            assert forall|a: int, b: int| 0 <= a < b < self.registry@.len() implies (
            #[trigger] self.registry@[a].operator@) != (#[trigger] self.registry@[b].operator@)
                by {
                if b < old_regs.len() {
                    assert(self.registry@[a] == old_regs[a]);
                    assert(self.registry@[b] == old_regs[b]);
                } else {
                    assert(self.registry@[a] == old_regs[a]);
                    assert(self.registry@[b].operator@ == operator@);
                }
            }
        }
        Ok(addr)
    }

    /// Unregisters an operator: its entry leaves the registry and the
    /// consensus threshold falls by one — never below zero, since the
    /// threshold always equals the registry's length.  Admin only.
    pub fn remove_node(&mut self, caller: &Vec<u8>, operator: &Vec<u8>) -> (r: Result<
        (),
        ContractError,
    >)
        requires
            old(self).wf(),
            old(self).is_admin(caller@),
        ensures
            final(self).wf(),
            !old(self).operators().contains(operator@) ==> r == Err::<(), ContractError>(
                ContractError::OperatorNotFound,
            ) && *final(self) == *old(self),
            old(self).operators().contains(operator@) ==> {
                &&& r == Ok::<(), ContractError>(())
                &&& exists|m: int|
                    0 <= m < old(self).operators().len() && (#[trigger] old(self).operators()[m])
                        == operator@ && final(self).operators() == old(self).operators().remove(m)
                        && final(self).addresses() == old(self).addresses().remove(m)
                        && final(self).store_models() == old(self).store_models().remove(m)
                &&& final(self).threshold() == old(self).threshold() - 1
                &&& final(self).admin_id() == old(self).admin_id()
                &&& final(self).self_address() == old(self).self_address()
                &&& final(self).bridge_id() == old(self).bridge_id()
                &&& final(self).chain_models() == old(self).chain_models()
                &&& final(self).token_models() == old(self).token_models()
                &&& final(self).tally_counts() == old(self).tally_counts()
            },
    {
        let ghost old_regs = self.registry@;
        let mut i: usize = 0;
        while i < self.registry.len()
            invariant
                *self == *old(self),
                self.registry@ == old_regs,
                old_regs == old(self).registry@,
                old(self).wf(),
                i <= old_regs.len(),
                forall|j: int| 0 <= j < i ==> (#[trigger] old_regs[j].operator@) != operator@,
            decreases old_regs.len() - i,
        {
            if crate::codec::bytes_eq(&self.registry[i].operator, operator) {
                proof {
                    assert(old(self).operators()[i as int] == operator@);
                    assert(old(self).operators().contains(operator@));
                    let new_regs = old_regs.remove(i as int);
                    assert forall|a: int, b: int| 0 <= a < b < new_regs.len() implies (
                    #[trigger] new_regs[a].operator@) != (#[trigger] new_regs[b].operator@) by {
                        let a0: int = if a < i {
                            a
                        } else {
                            a + 1
                        };
                        let b0: int = if b < i {
                            b
                        } else {
                            b + 1
                        };
                        assert(new_regs[a] == old_regs[a0]);
                        assert(new_regs[b] == old_regs[b0]);
                        assert(old_regs[a0].operator@ != old_regs[b0].operator@);
                    }
                }
                self.registry.remove(i);
                self.threshold = self.threshold - 1;
                proof {
                    assert(self.operators() =~= old(self).operators().remove(i as int));
                    assert(self.addresses() =~= old(self).addresses().remove(i as int));
                    assert(self.store_models() =~~= old(self).store_models().remove(i as int));
                    assert forall|j: int| 0 <= j < self.registry@.len() implies ((
                    #[trigger] self.registry@[j].receptacle).wf() && self.registry@[
                        j
                    ].receptacle.oracle_id() == self.self_address() && self.registry@[
                        j
                    ].receptacle.operator_id() == Some(self.registry@[j].operator@)) by {
                        let j0: int = if j < i {
                            j
                        } else {
                            j + 1
                        };
                        assert(self.registry@[j] == old_regs[j0]);
                        assert((old(self).registry@[j0].receptacle).wf());
                        assert(old(self).registry@[j0].receptacle.oracle_id() == old(
                            self,
                        ).self_address());
                        assert(old(self).registry@[j0].receptacle.operator_id() == Some(
                            old(self).registry@[j0].operator@,
                        ));
                    }
                    assert(self.wf());
                }
                return Ok(());
            }
            i = i + 1;
        }
        proof {
            assert forall|j: int| 0 <= j < old(self).operators().len() implies (
            #[trigger] old(self).operators()[j]) != operator@ by {
                assert(old(self).operators()[j] == old_regs[j].operator@);
            }
            if old(self).operators().contains(operator@) {
                let j = choose|j: int|
                    0 <= j < old(self).operators().len() && old(self).operators()[j] == operator@;
                assert(false);
            }
        }
        Err(ContractError::OperatorNotFound)
    }

    /// The bound admin.
    pub fn get_admin(&self) -> (r: Vec<u8>)
        requires
            self.wf(),
            self.admin_id() is Some,
        ensures
            self.admin_id() == Some(r@),
    {
        if let Some(a) = &self.admin {
            bytes_clone(a)
        } else {
            proof {
                assert(false);
            }
            Vec::new()
        }
    }

    /// The consensus threshold: the number of registered operators.
    pub fn get_consensus_threshold(&self) -> (r: u32)
        ensures
            r == self.threshold(),
    {
        self.threshold
    }

    /// The receptacle handle registered for an operator.
    pub fn get_receptacle_address(&self, operator: &Vec<u8>) -> (r: Result<u64, ContractError>)
        requires
            self.wf(),
        ensures
            !self.operators().contains(operator@) ==> r == Err::<u64, ContractError>(
                ContractError::ReceptacleNotFound,
            ),
            self.operators().contains(operator@) ==> (r matches Ok(addr) && exists|m: int|
                0 <= m < self.operators().len() && (#[trigger] self.operators()[m]) == operator@
                    && self.addresses()[m] == addr),
    {
        let mut i: usize = 0;
        while i < self.registry.len()
            invariant
                i <= self.registry@.len(),
                forall|j: int| 0 <= j < i ==> (#[trigger] self.registry@[j].operator@)
                    != operator@,
            decreases self.registry@.len() - i,
        {
            if crate::codec::bytes_eq(&self.registry[i].operator, operator) {
                proof {
                    assert((#[trigger] self.operators()[i as int]) == operator@);
                    assert(self.addresses()[i as int] == self.registry@[i as int
                    ].receptacle_address);
                }
                return Ok(self.registry[i].receptacle_address);
            }
            i = i + 1;
        }
        proof {
            assert forall|j: int| 0 <= j < self.operators().len() implies (
            #[trigger] self.operators()[j]) != operator@ by {
                assert(self.operators()[j] == self.registry@[j].operator@);
            }
            if self.operators().contains(operator@) {
                let j = choose|j: int|
                    0 <= j < self.operators().len() && self.operators()[j] == operator@;
                assert(false);
            }
        }
        Err(ContractError::ReceptacleNotFound)
    }

    /// Every registered operator with its receptacle handle, in order.
    pub fn get_receptacle_list(&self) -> (r: Vec<ReceptacleDetails>)
        ensures
            r@.len() == self.n_operators(),
            forall|j: int|
                0 <= j < r@.len() ==> (#[trigger] r@[j].operator@) == self.operators()[j] && r@[
                    j
                ].receptacle_address == self.addresses()[j],
    {
        let mut r: Vec<ReceptacleDetails> = Vec::new();
        let mut i: usize = 0;
        while i < self.registry.len()
            invariant
                i <= self.registry@.len(),
                r@.len() == i,
                forall|j: int|
                    0 <= j < i ==> (#[trigger] r@[j].operator@) == self.operators()[j] && r@[
                        j
                    ].receptacle_address == self.addresses()[j],
            decreases self.registry@.len() - i,
        {
            r.push(
                ReceptacleDetails {
                    operator: bytes_clone(&self.registry[i].operator),
                    receptacle_address: self.registry[i].receptacle_address,
                },
            );
            proof {
                assert(self.operators()[i as int] == self.registry@[i as int].operator@);
                assert(self.addresses()[i as int] == self.registry@[i as int].receptacle_address);
            }
            i = i + 1;
        }
        r
    }

    /// Registers a new origin chain; admin only.  A chain id already
    /// present is rejected.
    pub fn add_new_chain(
        &mut self,
        caller: &Vec<u8>,
        chain_name: Vec<u8>,
        chain_id: u32,
        oracle_address: &Vec<u8>,
    ) -> (r: Result<(), ContractError>)
        requires
            old(self).wf(),
            old(self).is_admin(caller@),
        ensures
            final(self).wf(),
            chain_find(old(self).chain_models(), chain_id) is Some ==> r == Err::<
                (),
                ContractError,
            >(ContractError::ChainAlreadyAdded) && *final(self) == *old(self),
            chain_find(old(self).chain_models(), chain_id) is None ==> {
                &&& r == Ok::<(), ContractError>(())
                &&& final(self).chain_models() == old(self).chain_models().push(
                    (chain_name@, chain_id, oracle_address@),
                )
                &&& same_registry_state(*final(self), *old(self))
                &&& final(self).token_models() == old(self).token_models()
            },
    {
        if self.chains.chain_is_supported(chain_id) {
            return Err(ContractError::ChainAlreadyAdded);
        }
        self.chains.write_chain(chain_name, chain_id, oracle_address);
        Ok(())
    }

    /// Unregisters an origin chain; admin only.  An absent chain id is
    /// rejected.
    pub fn remove_chain(&mut self, caller: &Vec<u8>, chain_id: u32) -> (r: Result<
        (),
        ContractError,
    >)
        requires
            old(self).wf(),
            old(self).is_admin(caller@),
        ensures
            final(self).wf(),
            chain_find(old(self).chain_models(), chain_id) is None ==> r == Err::<
                (),
                ContractError,
            >(ContractError::ChainNotFound) && *final(self) == *old(self),
            chain_find(old(self).chain_models(), chain_id) is Some ==> {
                &&& r == Ok::<(), ContractError>(())
                &&& chain_find(final(self).chain_models(), chain_id) is None
                &&& forall|c2: u32|
                    c2 != chain_id ==> chain_find(final(self).chain_models(), c2) == chain_find(
                        old(self).chain_models(),
                        c2,
                    )
                &&& same_registry_state(*final(self), *old(self))
                &&& final(self).token_models() == old(self).token_models()
            },
    {
        if !self.chains.chain_is_supported(chain_id) {
            return Err(ContractError::ChainNotFound);
        }
        self.chains.delete_chain(chain_id);
        Ok(())
    }

    /// Maps a token to its address on a destination chain; admin only.  The
    /// chain must be registered; an existing mapping is overwritten.
    pub fn add_token_destination_map(
        &mut self,
        caller: &Vec<u8>,
        token_id: &Vec<u8>,
        chain_id: u32,
        destination_token: Vec<u8>,
    ) -> (r: Result<(), ContractError>)
        requires
            old(self).wf(),
            old(self).is_admin(caller@),
        ensures
            final(self).wf(),
            chain_find(old(self).chain_models(), chain_id) is None ==> r == Err::<
                (),
                ContractError,
            >(ContractError::ChainNotFound) && *final(self) == *old(self),
            chain_find(old(self).chain_models(), chain_id) is Some ==> {
                &&& r == Ok::<(), ContractError>(())
                &&& token_find(final(self).token_models(), token_id@, chain_id) == Some(
                    (token_id@, chain_id, destination_token@),
                )
                &&& forall|t2: Seq<u8>, c2: u32|
                    !(t2 == token_id@ && c2 == chain_id) ==> token_find(
                        final(self).token_models(),
                        t2,
                        c2,
                    ) == token_find(old(self).token_models(), t2, c2)
                &&& same_registry_state(*final(self), *old(self))
                &&& final(self).chain_models() == old(self).chain_models()
            },
    {
        if !self.chains.chain_is_supported(chain_id) {
            return Err(ContractError::ChainNotFound);
        }
        self.tokens.write_token_chain_map(token_id, chain_id, destination_token);
        Ok(())
    }

    /// Unmaps a (token, chain) pair; admin only.  The token, the chain and
    /// the pair are each checked, in that order.
    pub fn remove_token_destination_map(
        &mut self,
        caller: &Vec<u8>,
        token_id: &Vec<u8>,
        chain_id: u32,
    ) -> (r: Result<(), ContractError>)
        requires
            old(self).wf(),
            old(self).is_admin(caller@),
        ensures
            final(self).wf(),
            !token_supported(old(self).token_models(), token_id@) ==> r == Err::<
                (),
                ContractError,
            >(ContractError::TokenNotSupported) && *final(self) == *old(self),
            token_supported(old(self).token_models(), token_id@) && chain_find(
                old(self).chain_models(),
                chain_id,
            ) is None ==> r == Err::<(), ContractError>(ContractError::ChainNotFound)
                && *final(self) == *old(self),
            token_supported(old(self).token_models(), token_id@) && chain_find(
                old(self).chain_models(),
                chain_id,
            ) is Some && token_find(old(self).token_models(), token_id@, chain_id) is None ==> r
                == Err::<(), ContractError>(ContractError::TokenChainMappingNotFound)
                && *final(self) == *old(self),
            token_supported(old(self).token_models(), token_id@) && chain_find(
                old(self).chain_models(),
                chain_id,
            ) is Some && token_find(old(self).token_models(), token_id@, chain_id) is Some ==> {
                &&& r == Ok::<(), ContractError>(())
                &&& token_find(final(self).token_models(), token_id@, chain_id) is None
                &&& forall|t2: Seq<u8>, c2: u32|
                    !(t2 == token_id@ && c2 == chain_id) ==> token_find(
                        final(self).token_models(),
                        t2,
                        c2,
                    ) == token_find(old(self).token_models(), t2, c2)
                &&& same_registry_state(*final(self), *old(self))
                &&& final(self).chain_models() == old(self).chain_models()
            },
    {
        if !self.tokens.read_token_is_supported(token_id) {
            return Err(ContractError::TokenNotSupported);
        }
        if !self.chains.chain_is_supported(chain_id) {
            return Err(ContractError::ChainNotFound);
        }
        if !self.tokens.read_token_chain_is_supported(token_id, chain_id) {
            return Err(ContractError::TokenChainMappingNotFound);
        }
        self.tokens.delete_token_chain_map(token_id, chain_id);
        Ok(())
    }

    /// The destination details mapped for a (token, chain) pair.  The
    /// token, the chain and the pair are each checked, in that order.
    pub fn get_destination_chain_token(&self, token_id: &Vec<u8>, chain_id: u32) -> (r: Result<
        DestinationChainDetails,
        ContractError,
    >)
        requires
            self.wf(),
        ensures
            !token_supported(self.token_models(), token_id@) ==> r == Err::<
                DestinationChainDetails,
                ContractError,
            >(ContractError::TokenNotSupported),
            token_supported(self.token_models(), token_id@) && chain_find(
                self.chain_models(),
                chain_id,
            ) is None ==> r == Err::<DestinationChainDetails, ContractError>(
                ContractError::ChainNotFound,
            ),
            token_supported(self.token_models(), token_id@) && chain_find(
                self.chain_models(),
                chain_id,
            ) is Some && token_find(self.token_models(), token_id@, chain_id) is None ==> r
                == Err::<DestinationChainDetails, ContractError>(
                ContractError::TokenChainMappingNotFound,
            ),
            token_supported(self.token_models(), token_id@) && chain_find(
                self.chain_models(),
                chain_id,
            ) is Some && token_find(self.token_models(), token_id@, chain_id) is Some ==> (
            r matches Ok(d) && d.chain_id == chain_id && token_find(
                self.token_models(),
                token_id@,
                chain_id,
            ) == Some((token_id@, chain_id, d.destination_token@))),
    {
        if !self.tokens.read_token_is_supported(token_id) {
            return Err(ContractError::TokenNotSupported);
        }
        if !self.chains.chain_is_supported(chain_id) {
            return Err(ContractError::ChainNotFound);
        }
        if !self.tokens.read_token_chain_is_supported(token_id, chain_id) {
            return Err(ContractError::TokenChainMappingNotFound);
        }
        if let Some(d) = self.tokens.read_destination_chain_token(token_id, chain_id) {
            Ok(d)
        } else {
            proof {
                assert(false);
            }
            Err(ContractError::TokenChainMappingNotFound)
        }
    }

    /// Every destination mapped for a token, in insertion order.  An
    /// unmapped token is rejected.
    pub fn get_destination_chain_list(&self, token_id: &Vec<u8>) -> (r: Result<
        Vec<DestinationChainDetails>,
        ContractError,
    >)
        requires
            self.wf(),
        ensures
            !token_supported(self.token_models(), token_id@) ==> r == Err::<
                Vec<DestinationChainDetails>,
                ContractError,
            >(ContractError::TokenNotSupported),
            token_supported(self.token_models(), token_id@) ==> (r matches Ok(l) && dest_models(
                l@,
            ) == token_destinations(self.token_models(), token_id@)),
    {
        if !self.tokens.read_token_is_supported(token_id) {
            return Err(ContractError::TokenNotSupported);
        }
        Ok(self.tokens.read_destination_token_list(token_id))
    }

    /// All registered chains, in insertion order.
    pub fn get_all_supported_chains(&self) -> (r: Vec<ChainOracleDetails>)
        ensures
            crate::chains::details_models(r@) == self.chain_models(),
    {
        self.chains.read_supported_chain_list()
    }

    /// Whether an upkeep pass has work: true exactly when operators are
    /// registered and the seed receptacle (registry entry zero) lists at
    /// least one pending id.  Only the seed is consulted; other receptacles
    /// may hold pending ids the seed lacks, and those do not count.
    pub fn get_upkeep_required(&self) -> (r: bool)
        requires
            self.wf(),
        ensures
            r == (self.n_operators() > 0 && self.store_models()[0].pending.len() > 0),
    {
        if self.registry.len() == 0 {
            return false;
        }
        let ids = self.registry[0].receptacle.get_transfer_id_list();
        proof {
            assert(self.store_models()[0] == store_model_of(self.registry@[0].receptacle));
        }
        ids.len() > 0
    }

    /// Emits the outgoing-transfer event for a user-initiated transfer to a
    /// destination chain, once the bridge, the token, the chain and the
    /// (token, chain) mapping are all configured — checked in that order.
    /// The caller supplies the transfer id; the bridge collaborator moves
    /// the funds.
    pub fn initiate_outgoing_transfer(
        &self,
        user: &Vec<u8>,
        chain_id: u32,
        recipient: &Vec<u8>,
        token_id: &Vec<u8>,
        amount: i128,
        tx_id: u64,
    ) -> (r: Result<OutgoingTransferEvent, ContractError>)
        requires
            self.wf(),
        ensures
            outgoing_transfer_post(
                *self,
                user@,
                chain_id,
                recipient@,
                token_id@,
                amount,
                tx_id,
                r,
            ),
    {
        self.outgoing_event(user, chain_id, recipient, token_id, amount, tx_id)
    }

    /// Emits the outgoing-transfer event for a rebalancing transfer; the
    /// checks, the event schema and the contract are those of
    /// `initiate_outgoing_transfer` — only the bridge action the
    /// collaborator performs differs.
    pub fn initiate_rebalancing(
        &self,
        user: &Vec<u8>,
        chain_id: u32,
        recipient: &Vec<u8>,
        token_id: &Vec<u8>,
        amount: i128,
        tx_id: u64,
    ) -> (r: Result<OutgoingTransferEvent, ContractError>)
        requires
            self.wf(),
        ensures
            outgoing_transfer_post(
                *self,
                user@,
                chain_id,
                recipient@,
                token_id@,
                amount,
                tx_id,
                r,
            ),
    {
        self.outgoing_event(user, chain_id, recipient, token_id, amount, tx_id)
    }

    /// The shared check-and-build of the two initiation entry points.
    fn outgoing_event(
        &self,
        user: &Vec<u8>,
        chain_id: u32,
        recipient: &Vec<u8>,
        token_id: &Vec<u8>,
        amount: i128,
        tx_id: u64,
    ) -> (r: Result<OutgoingTransferEvent, ContractError>)
        requires
            self.wf(),
        ensures
            outgoing_transfer_post(
                *self,
                user@,
                chain_id,
                recipient@,
                token_id@,
                amount,
                tx_id,
                r,
            ),
    {
        if self.bridge.is_none() {
            return Err(ContractError::BridgeEndpointNotConfigured);
        }
        if !self.tokens.read_token_is_supported(token_id) {
            return Err(ContractError::TokenNotSupported);
        }
        if !self.chains.chain_is_supported(chain_id) {
            return Err(ContractError::ChainNotFound);
        }
        if !self.tokens.read_token_chain_is_supported(token_id, chain_id) {
            return Err(ContractError::TokenChainMappingNotFound);
        }
        let dest = if let Some(d) = self.tokens.read_destination_chain_token(
            token_id,
            chain_id,
        ) {
            d
        } else {
            proof {
                assert(false);
            }
            return Err(ContractError::TokenChainMappingNotFound);
        };
        let chain = if let Some(c) = self.chains.read_chain(chain_id) {
            c
        } else {
            proof {
                assert(false);
            }
            return Err(ContractError::ChainNotFound);
        };
        Ok(
            OutgoingTransferEvent {
                tx_id,
                destination_chain_id: chain_id,
                destination_oracle_address: chain.oracle_address,
                initiating_user: bytes_clone(user),
                data: TransferData {
                    recipient: bytes_clone(recipient),
                    token: dest.destination_token,
                    amount,
                },
            },
        )
    }

    /// Routes an operator's submission to its own receptacle: the payload
    /// is decoded and stored under the id, and the id joins the
    /// receptacle's pending list.
    pub fn submit_transfer(
        &mut self,
        caller: &Vec<u8>,
        tx_id: Vec<u8>,
        origin_chain: u32,
        sender: Vec<u8>,
        transfer_data: &Vec<u8>,
    ) -> (r: Result<(), ContractError>)
        requires
            old(self).wf(),
            transfer_data@.len() >= 312,
            tx_id@.len() <= u32::MAX,
            sender@.len() <= u32::MAX,
        ensures
            final(self).wf(),
            !old(self).operators().contains(caller@) ==> r == Err::<(), ContractError>(
                ContractError::OperatorNotFound,
            ) && *final(self) == *old(self),
            old(self).operators().contains(caller@) ==> {
                &&& r == Ok::<(), ContractError>(())
                &&& exists|m: int|
                    0 <= m < old(self).operators().len() && (#[trigger] old(self).operators()[m])
                        == caller@ && final(self).store_models() == old(
                        self,
                    ).store_models().update(
                        m,
                        StoreModel {
                            answers: old(self).store_models()[m].answers.insert(
                                tx_id@,
                                committed_fields(tx_id@, origin_chain, sender@, transfer_data@),
                            ),
                            pending: old(self).store_models()[m].pending.push(tx_id@),
                        },
                    )
                &&& final(self).operators() == old(self).operators()
                &&& final(self).addresses() == old(self).addresses()
                &&& final(self).admin_id() == old(self).admin_id()
                &&& final(self).self_address() == old(self).self_address()
                &&& final(self).bridge_id() == old(self).bridge_id()
                &&& final(self).threshold() == old(self).threshold()
                &&& final(self).chain_models() == old(self).chain_models()
                &&& final(self).token_models() == old(self).token_models()
                &&& final(self).tally_counts() == old(self).tally_counts()
            },
    {
        let ghost old_regs = self.registry@;
        let mut i: usize = 0;
        while i < self.registry.len()
            invariant
                *self == *old(self),
                old(self).wf(),
                self.registry@ == old_regs,
                i <= old_regs.len(),
                transfer_data@.len() >= 312,
                tx_id@.len() <= u32::MAX,
                sender@.len() <= u32::MAX,
                forall|j: int| 0 <= j < i ==> (#[trigger] old_regs[j].operator@) != caller@,
            decreases old_regs.len() - i,
        {
            if crate::codec::bytes_eq(&self.registry[i].operator, caller) {
                proof {
                    assert(old(self).operators()[i as int] == caller@);
                    assert(old(self).operators().contains(caller@));
                    assert((old_regs[i as int].receptacle).wf());
                    assert((old_regs[i as int].receptacle).operator_id() == Some(
                        old_regs[i as int].operator@,
                    ));
                }
                let ghost old_store = store_model_of(old_regs[i as int].receptacle);
                let ghost id_view = tx_id@;
                let ghost sender_view = sender@;
                let entry = &mut self.registry[i];
                entry.receptacle.commit_transfer(
                    caller,
                    tx_id,
                    origin_chain,
                    sender,
                    transfer_data,
                );
                proof {
                    crate::receptacle::lemma_submit_fetch_roundtrip(
                        entry.receptacle.lookup(id_view),
                        id_view,
                        origin_chain,
                        sender_view,
                        transfer_data@,
                    );
                }
                proof {
                    assert(self.registry@ =~= old_regs.update(i as int, self.registry@[i as int]));
                    assert(self.registry@[i as int].operator@ == old_regs[i as int].operator@);
                    assert(self.registry@[i as int].receptacle_address == old_regs[i as int
                    ].receptacle_address);
                    let new_store = store_model_of(self.registry@[i as int].receptacle);
                    assert(new_store.answers =~= old_store.answers.insert(
                        id_view,
                        committed_fields(id_view, origin_chain, sender_view, transfer_data@),
                    ));
                    assert(new_store =~~= (StoreModel {
                        answers: old_store.answers.insert(
                            id_view,
                            committed_fields(id_view, origin_chain, sender_view, transfer_data@),
                        ),
                        pending: old_store.pending.push(id_view),
                    }));
                    assert(self.store_models() =~~= old(self).store_models().update(
                        i as int,
                        new_store,
                    ));
                    assert(self.operators() =~= old(self).operators());
                    assert(self.addresses() =~= old(self).addresses());
                    assert forall|a: int, b: int| 0 <= a < b < self.registry@.len() implies (
                    #[trigger] self.registry@[a].operator@) != (
                    #[trigger] self.registry@[b].operator@) by {
                        assert(self.registry@[a].operator@ == old_regs[a].operator@);
                        assert(self.registry@[b].operator@ == old_regs[b].operator@);
                    }
                    assert forall|j: int| 0 <= j < self.registry@.len() implies ((
                    #[trigger] self.registry@[j].receptacle).wf() && self.registry@[
                        j
                    ].receptacle.oracle_id() == self.self_address() && self.registry@[
                        j
                    ].receptacle.operator_id() == Some(self.registry@[j].operator@)) by {
                        if j != i {
                            assert(self.registry@[j] == old_regs[j]);
                        }
                    }
                    assert(self.wf());
                }
                return Ok(());
            }
            i = i + 1;
        }
        proof {
            assert forall|j: int| 0 <= j < old(self).operators().len() implies (
            #[trigger] old(self).operators()[j]) != caller@ by {
                assert(old(self).operators()[j] == old_regs[j].operator@);
            }
            if old(self).operators().contains(caller@) {
                let j = choose|j: int|
                    0 <= j < old(self).operators().len() && old(self).operators()[j] == caller@;
                assert(false);
            }
        }
        Err(ContractError::OperatorNotFound)
    }

    /// The pending transfer ids of an operator's receptacle, in insertion
    /// order.
    pub fn list_pending_ids(&self, operator: &Vec<u8>) -> (r: Result<Vec<Vec<u8>>, ContractError>)
        requires
            self.wf(),
        ensures
            !self.operators().contains(operator@) ==> r == Err::<Vec<Vec<u8>>, ContractError>(
                ContractError::ReceptacleNotFound,
            ),
            self.operators().contains(operator@) ==> (r matches Ok(l) && exists|m: int|
                0 <= m < self.operators().len() && (#[trigger] self.operators()[m]) == operator@
                    && l.deep_view() == self.store_models()[m].pending),
    {
        let mut i: usize = 0;
        while i < self.registry.len()
            invariant
                i <= self.registry@.len(),
                forall|j: int|
                    0 <= j < i ==> (#[trigger] self.registry@[j].operator@) != operator@,
            decreases self.registry@.len() - i,
        {
            if crate::codec::bytes_eq(&self.registry[i].operator, operator) {
                let l = self.registry[i].receptacle.get_transfer_id_list();
                proof {
                    assert((#[trigger] self.operators()[i as int]) == operator@);
                    assert(self.store_models()[i as int] == store_model_of(
                        self.registry@[i as int].receptacle,
                    ));
                }
                return Ok(l);
            }
            i = i + 1;
        }
        proof {
            assert forall|j: int| 0 <= j < self.operators().len() implies (
            #[trigger] self.operators()[j]) != operator@ by {
                assert(self.operators()[j] == self.registry@[j].operator@);
            }
            if self.operators().contains(operator@) {
                let j = choose|j: int|
                    0 <= j < self.operators().len() && self.operators()[j] == operator@;
                assert(false);
            }
        }
        Err(ContractError::ReceptacleNotFound)
    }

    /// The flattened answer an operator's receptacle gives for a transfer
    /// id; empty when it holds nothing under the id.
    pub fn fetch_transfer(&self, operator: &Vec<u8>, tx_id: &Vec<u8>) -> (r: Result<
        Vec<Vec<u8>>,
        ContractError,
    >)
        requires
            self.wf(),
        ensures
            !self.operators().contains(operator@) ==> r == Err::<Vec<Vec<u8>>, ContractError>(
                ContractError::ReceptacleNotFound,
            ),
            self.operators().contains(operator@) ==> (r matches Ok(l) && exists|m: int|
                0 <= m < self.operators().len() && (#[trigger] self.operators()[m]) == operator@
                    && l.deep_view() == self.store_models()[m].answers[tx_id@]),
    {
        let mut i: usize = 0;
        while i < self.registry.len()
            invariant
                self.wf(),
                i <= self.registry@.len(),
                forall|j: int|
                    0 <= j < i ==> (#[trigger] self.registry@[j].operator@) != operator@,
            decreases self.registry@.len() - i,
        {
            if crate::codec::bytes_eq(&self.registry[i].operator, operator) {
                proof {
                    assert((self.registry@[i as int].receptacle).wf());
                }
                let l = self.registry[i].receptacle.get_transfer(tx_id);
                proof {
                    assert((#[trigger] self.operators()[i as int]) == operator@);
                    assert(self.store_models()[i as int] == store_model_of(
                        self.registry@[i as int].receptacle,
                    ));
                }
                return Ok(l);
            }
            i = i + 1;
        }
        proof {
            assert forall|j: int| 0 <= j < self.operators().len() implies (
            #[trigger] self.operators()[j]) != operator@ by {
                assert(self.operators()[j] == self.registry@[j].operator@);
            }
            if self.operators().contains(operator@) {
                let j = choose|j: int|
                    0 <= j < self.operators().len() && self.operators()[j] == operator@;
                assert(false);
            }
        }
        Err(ContractError::ReceptacleNotFound)
    }

    /// One upkeep pass, callable by anyone: the seed receptacle's pending
    /// ids are read (at most five are processed); for each id every
    /// receptacle's answer is serialized to a vote key and tallied; a key
    /// that gathers votes up to the threshold and decodes to a well-formed
    /// record (more than five fields) yields a settlement instruction for
    /// the external collaborator, and the winning id is discarded from every
    /// receptacle.  After the batch, every key tallied this round is
    /// cleared — win or lose — so a later pass re-tallies those ids from
    /// zero.  Aborting when no operator is registered is deliberate: there
    /// is nothing useful to do.
    pub fn perform_upkeep(&mut self) -> (settlements: Vec<TransferData>)
        requires
            old(self).wf(),
            old(self).n_operators() > 0,
        ensures
            final(self).wf(),
            final(self).admin_id() == old(self).admin_id(),
            final(self).self_address() == old(self).self_address(),
            final(self).bridge_id() == old(self).bridge_id(),
            final(self).operators() == old(self).operators(),
            final(self).addresses() == old(self).addresses(),
            final(self).threshold() == old(self).threshold(),
            final(self).chain_models() == old(self).chain_models(),
            final(self).token_models() == old(self).token_models(),
            ({
                let s0 = UpkeepState {
                    stores: old(self).store_models(),
                    tally: old(self).tally_counts(),
                    settlements: Seq::<SettleModel>::empty(),
                    reset: Seq::<Seq<u8>>::empty(),
                };
                let ids = old(self).store_models()[0].pending;
                let n: int = if ids.len() <= 5 {
                    ids.len() as int
                } else {
                    5
                };
                let s1 = upkeep_run(s0, ids, old(self).threshold(), n);
                &&& final(self).store_models() == s1.stores
                &&& final(self).tally_counts() == clear_keys(
                    s1.tally,
                    s1.reset,
                    s1.reset.len() as int,
                )
                &&& settle_models(settlements@) == s1.settlements
            }),
    {
        let ghost s0 = UpkeepState {
            stores: self.store_models(),
            tally: self.tally_counts(),
            settlements: Seq::<SettleModel>::empty(),
            reset: Seq::<Seq<u8>>::empty(),
        };
        let threshold = self.threshold;
        let own = if let Some(a) = &self.own_address {
            bytes_clone(a)
        } else {
            proof {
                assert(false);
            }
            Vec::new()
        };
        let tx_id_list = self.registry[0].receptacle.get_transfer_id_list();
        let ghost ids = tx_id_list.deep_view();
        proof {
            assert(self.store_models()[0] == store_model_of(self.registry@[0].receptacle));
            assert(ids == old(self).store_models()[0].pending);
            assert(ids.len() == tx_id_list@.len());
        }
        let limit: usize = if tx_id_list.len() < 5 {
            tx_id_list.len()
        } else {
            5
        };
        let mut settlements: Vec<TransferData> = Vec::new();
        let mut reset_list: Vec<Vec<u8>> = Vec::new();
        let mut i: usize = 0;
        proof {
            assert(settle_models(settlements@) =~= Seq::<SettleModel>::empty());
            assert(reset_list.deep_view() =~= Seq::<Seq<u8>>::empty());
        }
        while i < limit
            invariant
                self.wf(),
                self.registry@.len() > 0,
                i <= limit,
                limit as int == (if ids.len() <= 5 {
                    ids.len() as int
                } else {
                    5
                }),
                ids == tx_id_list.deep_view(),
                tx_id_list@.len() == ids.len(),
                threshold == old(self).threshold(),
                Some(own@) == self.self_address(),
                self.operators() == old(self).operators(),
                self.addresses() == old(self).addresses(),
                self.threshold() == old(self).threshold(),
                self.admin_id() == old(self).admin_id(),
                self.self_address() == old(self).self_address(),
                self.bridge_id() == old(self).bridge_id(),
                self.chain_models() == old(self).chain_models(),
                self.token_models() == old(self).token_models(),
                s0 == (UpkeepState {
                    stores: old(self).store_models(),
                    tally: old(self).tally_counts(),
                    settlements: Seq::<SettleModel>::empty(),
                    reset: Seq::<Seq<u8>>::empty(),
                }),
                self.store_models() == upkeep_run(s0, ids, threshold, i as int).stores,
                self.tally_counts() == upkeep_run(s0, ids, threshold, i as int).tally,
                settle_models(settlements@) == upkeep_run(s0, ids, threshold, i as int).settlements,
                reset_list.deep_view() == upkeep_run(s0, ids, threshold, i as int).reset,
            decreases limit - i,
        {
            let ghost cur = upkeep_run(s0, ids, threshold, i as int);
            let tx_id = &tx_id_list[i];
            proof {
                assert(tx_id@ == ids[i as int]);
            }
            let ghost id = ids[i as int];
            let ghost batch = batch_keys(cur.stores, id);
            let ghost snap = *self;
            let ghost reset_before = reset_list.deep_view();
            let mut data_list: Vec<Vec<u8>> = Vec::new();
            let mut j: usize = 0;
            proof {
                assert(data_list.deep_view() =~= batch.take(0));
                assert(reset_before + batch.take(0) =~= reset_before);
            }
            while j < self.registry.len()
                invariant
                    *self == snap,
                    snap.wf(),
                    batch == batch_keys(snap.store_models(), id),
                    j <= self.registry@.len(),
                    batch.len() == self.registry@.len(),
                    data_list.deep_view() == batch.take(j as int),
                    reset_list.deep_view() == reset_before + batch.take(j as int),
                    tx_id@ == id,
                decreases self.registry@.len() - j,
            {
                proof {
                    assert((self.registry@[j as int].receptacle).wf());
                    assert(self.store_models()[j as int] == store_model_of(
                        self.registry@[j as int].receptacle,
                    ));
                    crate::receptacle::lemma_lookup_encodable(
                        self.registry@[j as int].receptacle,
                        id,
                    );
                    lemma_answer_fields_encodable(self.registry@[j as int].receptacle.lookup(id));
                }
                let fields = self.registry[j].receptacle.get_transfer(tx_id);
                let key = enc_fields(&fields);
                proof {
                    assert(key@ == batch[j as int]);
                }
                let ghost dl_before = data_list.deep_view();
                let ghost rl_before = reset_list.deep_view();
                reset_list.push(bytes_clone(&key));
                data_list.push(key);
                proof {
                    assert(data_list.deep_view() =~~= dl_before.push(batch[j as int]));
                    assert(dl_before.push(batch[j as int]) =~= batch.take(j + 1));
                    assert(reset_list.deep_view() =~~= rl_before.push(batch[j as int]));
                    assert(rl_before.push(batch[j as int]) =~= reset_before + batch.take(j + 1));
                }
                j = j + 1;
            }
            proof {
                assert(batch.take(self.registry@.len() as int) =~= batch);
                assert(data_list.deep_view() == batch);
                assert(reset_list.deep_view() == reset_before + batch);
            }
            let winner = self.tally.threshold_validation(threshold, &data_list);
            let ghost t2 = bump_all(cur.tally, batch);
            proof {
                assert(data_list@.len() == batch.len());
                assert(data_list@.len() > 0);
                assert(self.tally_counts() == t2);
                assert(self.store_models() == cur.stores);
            }
            if let Some(validated) = winner {
                proof {
                    assert(Some(validated@) == spec_winner(t2, spec_distinct(batch), threshold));
                    crate::consensus::lemma_winner_member(t2, spec_distinct(batch), threshold, 0);
                    crate::consensus::lemma_distinct_subset(batch, batch.len() as int);
                    assert(spec_distinct(batch).contains(validated@));
                    assert(batch.contains(validated@));
                }
                let arr_opt = dec_fields(&validated);
                if let Some(arr) = arr_opt {
                    if arr.len() > 5 {
                        proof {
                            let jw = choose|jw: int|
                                0 <= jw < batch.len() && batch[jw] == validated@;
                            assert(validated@ == spec_enc_fields(cur.stores[jw].answers[id]));
                            let rec_r = self.registry@[jw].receptacle;
                            assert(cur.stores[jw] == store_model_of(rec_r));
                            assert(cur.stores[jw].answers[id]
                                == crate::types::spec_answer_fields(rec_r.lookup(id)));
                            assert((rec_r).wf());
                            crate::receptacle::lemma_lookup_encodable(rec_r, id);
                            lemma_answer_fields_encodable(rec_r.lookup(id));
                            crate::codec::lemma_dec_enc_fields(
                                crate::types::spec_answer_fields(rec_r.lookup(id)),
                            );
                            assert(spec_dec_fields(validated@) == Some(
                                crate::types::spec_answer_fields(rec_r.lookup(id)),
                            ));
                            assert(arr.deep_view() == crate::types::spec_answer_fields(
                                rec_r.lookup(id),
                            ));
                            assert(arr.deep_view().len() == arr@.len());
                            match rec_r.lookup(id) {
                                Some(rr) => {
                                    vstd::bytes::lemma_auto_spec_u128_to_from_le_bytes();
                                    assert(arr.deep_view()[5].len() == 16);
                                },
                                None => {
                                    assert(false);
                                },
                            }
                            assert(arr@[5]@ == arr.deep_view()[5]);
                        }
                        let amount = amount_from_field(&arr[5]);
                        let recipient = bytes_clone(&arr[3]);
                        let token = bytes_clone(&arr[4]);
                        let ghost settle_before = settle_models(settlements@);
                        settlements.push(TransferData { recipient, token, amount });
                        proof {
                            assert(settle_models(settlements@) =~~= settle_before.push(
                                (
                                    arr.deep_view()[3],
                                    arr.deep_view()[4],
                                    spec_amount_of_field(arr.deep_view()[5]),
                                ),
                            ));
                        }
                        let win_id = &arr[0];
                        let ghost wid = arr.deep_view()[0];
                        proof {
                            assert(win_id@ == wid);
                        }
                        let ghost stores_pre = self.store_models();
                        let ghost t_now = self.tally_counts();
                        let ghost snap2 = *self;
                        let mut j2: usize = 0;
                        while j2 < self.registry.len()
                            invariant
                                j2 <= self.registry@.len(),
                                self.registry@.len() == stores_pre.len(),
                                self.wf(),
                                Some(own@) == self.self_address(),
                                wid == win_id@,
                                self.tally_counts() == t_now,
                                self.operators() == snap2.operators(),
                                self.addresses() == snap2.addresses(),
                                self.threshold() == snap2.threshold(),
                                self.admin_id() == snap2.admin_id(),
                                self.self_address() == snap2.self_address(),
                                self.bridge_id() == snap2.bridge_id(),
                                self.chain_models() == snap2.chain_models(),
                                self.token_models() == snap2.token_models(),
                                stores_pre == snap2.store_models(),
                                t_now == snap2.tally_counts(),
                                forall|jj: int|
                                    0 <= jj < j2 ==> (#[trigger] self.store_models()[jj])
                                        == (StoreModel {
                                        answers: stores_pre[jj].answers.insert(
                                            wid,
                                            Seq::<Seq<u8>>::empty(),
                                        ),
                                        pending: spec_remove_first(stores_pre[jj].pending, wid),
                                    }),
                                forall|jj: int|
                                    j2 <= jj < stores_pre.len() ==> (
                                    #[trigger] self.store_models()[jj]) == stores_pre[jj],
                            decreases self.registry@.len() - j2,
                        {
                            let ghost regs_before = self.registry@;
                            proof {
                                assert((self.registry@[j2 as int].receptacle).wf());
                                assert(self.registry@[j2 as int].receptacle.oracle_id() == Some(
                                    own@,
                                ));
                            }
                            let ghost store_before = store_model_of(
                                self.registry@[j2 as int].receptacle,
                            );
                            let ghost models_before = self.store_models();
                            let entry = &mut self.registry[j2];
                            entry.receptacle.remove_transfer(&own, win_id);
                            proof {
                                assert(self.registry@ =~= regs_before.update(
                                    j2 as int,
                                    self.registry@[j2 as int],
                                ));
                                assert(self.registry@[j2 as int].operator@ == regs_before[
                                    j2 as int
                                ].operator@);
                                assert(self.registry@[j2 as int].receptacle_address
                                    == regs_before[j2 as int].receptacle_address);
                                let new_store = store_model_of(
                                    self.registry@[j2 as int].receptacle,
                                );
                                assert(new_store.answers =~= store_before.answers.insert(
                                    wid,
                                    Seq::<Seq<u8>>::empty(),
                                ));
                                assert(new_store =~~= (StoreModel {
                                    answers: store_before.answers.insert(
                                        wid,
                                        Seq::<Seq<u8>>::empty(),
                                    ),
                                    pending: spec_remove_first(store_before.pending, wid),
                                }));
                                assert(store_before == models_before[j2 as int]);
                                assert(models_before[j2 as int] == stores_pre[j2 as int]);
                                assert forall|jj: int|
                                    0 <= jj < self.registry@.len() && jj != j2 implies (
                                #[trigger] self.store_models()[jj]) == models_before[jj] by {
                                    assert(self.registry@[jj] == regs_before[jj]);
                                    assert(models_before[jj] == store_model_of(
                                        regs_before[jj].receptacle,
                                    ));
                                }
                                assert(self.store_models()[j2 as int] == new_store);
                                assert(new_store =~~= (StoreModel {
                                    answers: stores_pre[j2 as int].answers.insert(
                                        wid,
                                        Seq::<Seq<u8>>::empty(),
                                    ),
                                    pending: spec_remove_first(
                                        stores_pre[j2 as int].pending,
                                        wid,
                                    ),
                                }));
                                assert(self.operators() =~= snap2.operators());
                                assert(self.addresses() =~= snap2.addresses());
                                assert forall|a: int, b: int|
                                    0 <= a < b < self.registry@.len() implies (
                                #[trigger] self.registry@[a].operator@) != (
                                #[trigger] self.registry@[b].operator@) by {
                                    assert(self.registry@[a].operator@ == regs_before[
                                        a
                                    ].operator@);
                                    assert(self.registry@[b].operator@ == regs_before[
                                        b
                                    ].operator@);
                                }
                                assert forall|jj: int| 0 <= jj < self.registry@.len() implies ((
                                #[trigger] self.registry@[jj].receptacle).wf() && self.registry@[
                                    jj
                                ].receptacle.oracle_id() == self.self_address()
                                    && self.registry@[jj].receptacle.operator_id() == Some(
                                    self.registry@[jj].operator@,
                                )) by {
                                    if jj != j2 {
                                        assert(self.registry@[jj] == regs_before[jj]);
                                    }
                                }
                                assert(self.wf());
                            }
                            j2 = j2 + 1;
                        }
                        proof {
                            assert(self.store_models() =~~= discard_all(stores_pre, wid));
                        }
                    }
                }
            }
            proof {
                let next = upkeep_run(s0, ids, threshold, i + 1);
                assert(next == upkeep_step(cur, ids[i as int], threshold));
                assert(self.store_models() =~~= next.stores);
                assert(self.tally_counts() =~= next.tally);
                assert(settle_models(settlements@) =~~= next.settlements);
                assert(reset_list.deep_view() =~~= next.reset);
            }
            i = i + 1;
        }
        let ghost s1 = upkeep_run(s0, ids, threshold, limit as int);
        let ghost snap3 = *self;
        let mut k: usize = 0;
        while k < reset_list.len()
            invariant
                k <= reset_list@.len(),
                reset_list.deep_view() == s1.reset,
                reset_list@.len() == s1.reset.len(),
                self.tally_counts() == clear_keys(s1.tally, s1.reset, k as int),
                self.wf(),
                self.store_models() == snap3.store_models(),
                self.operators() == snap3.operators(),
                self.addresses() == snap3.addresses(),
                self.threshold() == snap3.threshold(),
                self.admin_id() == snap3.admin_id(),
                self.self_address() == snap3.self_address(),
                self.bridge_id() == snap3.bridge_id(),
                self.chain_models() == snap3.chain_models(),
                self.token_models() == snap3.token_models(),
            decreases reset_list@.len() - k,
        {
            proof {
                assert(reset_list@[k as int]@ == s1.reset[k as int]);
            }
            self.tally.clear_consensus_count(&reset_list[k]);
            proof {
                assert(self.tally_counts() =~= clear_keys(s1.tally, s1.reset, k + 1));
            }
            k = k + 1;
        }
        settlements
    }
}

/// Everything of the coordinator but the two lookup registries: bindings,
/// operators, receptacle stores, threshold and tally.
pub open spec fn same_registry_state(a: Oracle, b: Oracle) -> bool {
    &&& a.admin_id() == b.admin_id()
    &&& a.self_address() == b.self_address()
    &&& a.bridge_id() == b.bridge_id()
    &&& a.operators() == b.operators()
    &&& a.addresses() == b.addresses()
    &&& a.store_models() == b.store_models()
    &&& a.threshold() == b.threshold()
    &&& a.tally_counts() == b.tally_counts()
}

/// What the two initiation entry points promise: each configuration check
/// failing yields its error, in order — bridge endpoint, token, chain,
/// mapping — and with everything configured the event carries the given id,
/// chain, user, recipient and amount, the token's mapped destination
/// address, and the chain's registered oracle address.
pub open spec fn outgoing_transfer_post(
    o: Oracle,
    user: Seq<u8>,
    chain_id: u32,
    recipient: Seq<u8>,
    token_id: Seq<u8>,
    amount: i128,
    tx_id: u64,
    r: Result<OutgoingTransferEvent, ContractError>,
) -> bool {
    &&& o.bridge_id() is None ==> r == Err::<OutgoingTransferEvent, ContractError>(
        ContractError::BridgeEndpointNotConfigured,
    )
    &&& o.bridge_id() is Some && !token_supported(o.token_models(), token_id) ==> r == Err::<
        OutgoingTransferEvent,
        ContractError,
    >(ContractError::TokenNotSupported)
    &&& o.bridge_id() is Some && token_supported(o.token_models(), token_id) && chain_find(
        o.chain_models(),
        chain_id,
    ) is None ==> r == Err::<OutgoingTransferEvent, ContractError>(ContractError::ChainNotFound)
    &&& o.bridge_id() is Some && token_supported(o.token_models(), token_id) && chain_find(
        o.chain_models(),
        chain_id,
    ) is Some && token_find(o.token_models(), token_id, chain_id) is None ==> r == Err::<
        OutgoingTransferEvent,
        ContractError,
    >(ContractError::TokenChainMappingNotFound)
    &&& o.bridge_id() is Some && token_supported(o.token_models(), token_id) && chain_find(
        o.chain_models(),
        chain_id,
    ) is Some && token_find(o.token_models(), token_id, chain_id) is Some ==> (r matches Ok(ev)
        && {
        &&& ev.tx_id == tx_id
        &&& ev.destination_chain_id == chain_id
        &&& ev.initiating_user@ == user
        &&& ev.data.recipient@ == recipient
        &&& ev.data.amount == amount
        &&& token_find(o.token_models(), token_id, chain_id) == Some(
            (token_id, chain_id, ev.data.token@),
        )
        &&& (chain_find(o.chain_models(), chain_id) matches Some(c) && ev
            .destination_oracle_address@ == c.2)
    })
}

/// The consensus threshold is the operator registry's cardinality:
/// registering an operator raises it by one and removing one lowers it by
/// one, and since it always equals the registry's length it can never be
/// driven below zero — in particular, removing the last registered operator
/// leaves it at exactly zero.
pub proof fn lemma_threshold_is_operator_count(o: Oracle)
    requires
        o.wf(),
    ensures
        o.threshold() as int == o.operators().len(),
        o.threshold() >= 0,
{
}

/// Unanimity reaches quorum: when every receptacle reports byte-identical
/// fields for an id (a well-formed record of six fields) and that vote key
/// starts the round untallied, one upkeep step over the id gathers exactly
/// one vote per store — the registered-operator count, which is the
/// threshold — and so settles exactly once, with the record's recipient,
/// token and amount, and discards the winning id from every store.
pub proof fn lemma_unanimous_reports_settle(
    s: UpkeepState,
    id: Seq<u8>,
    fields: Seq<Seq<u8>>,
    threshold: u32,
)
    requires
        s.stores.len() == threshold as int,
        threshold >= 1,
        forall|j: int| 0 <= j < s.stores.len() ==> (#[trigger] s.stores[j]).answers[id] == fields,
        fields.len() == 6,
        crate::codec::fields_encodable(fields),
        s.tally[spec_enc_fields(fields)] == 0,
    ensures
        upkeep_step(s, id, threshold).settlements == s.settlements.push(
            (fields[3], fields[4], spec_amount_of_field(fields[5])),
        ),
        upkeep_step(s, id, threshold).stores == discard_all(s.stores, fields[0]),
{
    let w = spec_enc_fields(fields);
    let batch = batch_keys(s.stores, id);
    assert(forall|j: int| 0 <= j < batch.len() ==> (#[trigger] batch[j]) == w);
    crate::consensus::lemma_bump_all_constant(s.tally, batch, w);
    let t2 = bump_all(s.tally, batch);
    assert(t2[w] == threshold);
    crate::consensus::lemma_distinct_constant(batch, w, batch.len() as int);
    assert(spec_distinct(batch) == seq![w]);
    assert(seq![w][0] == w);
    assert(spec_winner(t2, spec_distinct(batch), threshold) == Some(w));
    crate::codec::lemma_dec_enc_fields(fields);
    assert(spec_dec_fields(w) == Some(fields));
}

} // verus!
