//! The chain registry: a lookup table of supported origin chains, keyed by
//! chain id, kept in insertion order.

use crate::codec::bytes_eq;
use crate::types::{bytes_clone, ChainOracleDetails};
use vstd::prelude::*;

verus! {

/// What a chain entry holds: name, chain id, and the oracle address serving
/// the chain.
pub type ChainModel = (Seq<u8>, u32, Seq<u8>);

/// The model of one entry.
pub open spec fn chain_model(c: ChainOracleDetails) -> ChainModel {
    (c.chain_name@, c.chain_id, c.oracle_address@)
}

/// The models of a list of entries, in order.
pub open spec fn details_models(v: Seq<ChainOracleDetails>) -> Seq<ChainModel> {
    v.map_values(|c: ChainOracleDetails| chain_model(c))
}

/// The first entry model at or after `i` with the given chain id.
pub open spec fn chain_find_from(ms: Seq<ChainModel>, chain_id: u32, i: int) -> Option<ChainModel>
    decreases ms.len() - i,
{
    if i < 0 || i >= ms.len() {
        None
    } else if ms[i].1 == chain_id {
        Some(ms[i])
    } else {
        chain_find_from(ms, chain_id, i + 1)
    }
}

/// The registered entry for a chain id, if any.
pub open spec fn chain_find(ms: Seq<ChainModel>, chain_id: u32) -> Option<ChainModel> {
    chain_find_from(ms, chain_id, 0)
}

/// No two entries share a chain id.
pub open spec fn chain_ids_distinct(ms: Seq<ChainModel>) -> bool {
    forall|i: int, j: int| 0 <= i < j < ms.len() ==> (#[trigger] ms[i].1) != (#[trigger] ms[j].1)
}

/// Searching from `i` equals searching from `m` when nothing in between
/// matches.
pub proof fn lemma_chain_find_skip(ms: Seq<ChainModel>, chain_id: u32, i: int, m: int)
    requires
        0 <= i <= m <= ms.len(),
        forall|j: int| i <= j < m ==> (#[trigger] ms[j].1) != chain_id,
    ensures
        chain_find_from(ms, chain_id, i) == chain_find_from(ms, chain_id, m),
    decreases m - i,
{
    if i < m {
        lemma_chain_find_skip(ms, chain_id, i + 1, m);
    }
}

/// Appending an entry only changes a search that would have found nothing.
pub proof fn lemma_chain_find_push(ms: Seq<ChainModel>, x: ChainModel, chain_id: u32, i: int)
    requires
        0 <= i <= ms.len(),
    ensures
        chain_find_from(ms.push(x), chain_id, i) == match chain_find_from(ms, chain_id, i) {
            Some(c) => Some(c),
            None => if x.1 == chain_id {
                Some(x)
            } else {
                None
            },
        },
    decreases ms.len() - i,
{
    assert(ms.push(x).len() == ms.len() + 1);
    if i < ms.len() {
        assert(ms.push(x)[i] == ms[i]);
        lemma_chain_find_push(ms, x, chain_id, i + 1);
    } else {
        assert(ms.push(x)[i] == x);
    }
}

/// Past the deleted position, searching the shortened list equals searching
/// the original one step later.
pub proof fn lemma_chain_find_remove_tail(ms: Seq<ChainModel>, m: int, chain_id: u32, i: int)
    requires
        0 <= m < ms.len(),
        m <= i <= ms.len() - 1,
    ensures
        chain_find_from(ms.remove(m), chain_id, i) == chain_find_from(ms, chain_id, i + 1),
    decreases ms.len() - i,
{
    assert(ms.remove(m).len() == ms.len() - 1);
    if i < ms.len() - 1 {
        assert(ms.remove(m)[i] == ms[i + 1]);
        lemma_chain_find_remove_tail(ms, m, chain_id, i + 1);
    }
}

/// Before the deleted position, searching for another id is unchanged.
pub proof fn lemma_chain_find_remove_front(ms: Seq<ChainModel>, m: int, chain_id: u32, i: int)
    requires
        0 <= i <= m < ms.len(),
        chain_id != ms[m].1,
    ensures
        chain_find_from(ms.remove(m), chain_id, i) == chain_find_from(ms, chain_id, i),
    decreases m - i,
{
    if i == m {
        lemma_chain_find_remove_tail(ms, m, chain_id, m);
    } else {
        assert(ms.remove(m)[i] == ms[i]);
        lemma_chain_find_remove_front(ms, m, chain_id, i + 1);
    }
}

/// Copies one chain entry.
pub fn chain_details_clone(c: &ChainOracleDetails) -> (r: ChainOracleDetails)
    ensures
        chain_model(r) == chain_model(*c),
{
    ChainOracleDetails {
        chain_name: bytes_clone(&c.chain_name),
        chain_id: c.chain_id,
        oracle_address: bytes_clone(&c.oracle_address),
    }
}

/// The registry of supported origin chains.
pub struct ChainRegistry {
    chains: Vec<ChainOracleDetails>,
}

impl ChainRegistry {
    /// The registered entries' models, in insertion order.
    pub closed spec fn models(self) -> Seq<ChainModel> {
        details_models(self.chains@)
    }

    /// Well-formedness: chain ids are unique.
    pub closed spec fn wf(self) -> bool {
        chain_ids_distinct(self.models())
    }

    /// An empty registry.
    pub fn new() -> (r: ChainRegistry)
        ensures
            r.wf(),
            r.models() == Seq::<ChainModel>::empty(),
    {
        let r = ChainRegistry { chains: Vec::new() };
        proof {
            assert(r.models() =~= Seq::<ChainModel>::empty());
        }
        r
    }

    /// Whether the chain id has an entry.
    pub fn chain_is_supported(&self, chain_id: u32) -> (r: bool)
        ensures
            r <==> chain_find(self.models(), chain_id) is Some,
    {
        let mut i: usize = 0;
        while i < self.chains.len()
            invariant
                i <= self.chains@.len(),
                forall|j: int| 0 <= j < i ==> (#[trigger] self.models()[j].1) != chain_id,
            decreases self.chains@.len() - i,
        {
            if self.chains[i].chain_id == chain_id {
                proof {
                    lemma_chain_find_skip(self.models(), chain_id, 0, i as int);
                    assert(self.models()[i as int].1 == chain_id);
                }
                return true;
            }
            proof {
                assert(self.models()[i as int].1 == self.chains@[i as int].chain_id);
            }
            i = i + 1;
        }
        proof {
            lemma_chain_find_skip(self.models(), chain_id, 0, self.models().len() as int);
        }
        false
    }

    /// The registered entry for a chain id; `None` when the chain is
    /// unsupported.
    pub fn read_chain(&self, chain_id: u32) -> (r: Option<ChainOracleDetails>)
        ensures
            match r {
                Some(c) => chain_find(self.models(), chain_id) == Some(chain_model(c)),
                None => chain_find(self.models(), chain_id) is None,
            },
    {
        let mut i: usize = 0;
        while i < self.chains.len()
            invariant
                i <= self.chains@.len(),
                forall|j: int| 0 <= j < i ==> (#[trigger] self.models()[j].1) != chain_id,
            decreases self.chains@.len() - i,
        {
            if self.chains[i].chain_id == chain_id {
                proof {
                    lemma_chain_find_skip(self.models(), chain_id, 0, i as int);
                    assert(self.models()[i as int].1 == chain_id);
                }
                return Some(chain_details_clone(&self.chains[i]));
            }
            proof {
                assert(self.models()[i as int].1 == self.chains@[i as int].chain_id);
            }
            i = i + 1;
        }
        proof {
            lemma_chain_find_skip(self.models(), chain_id, 0, self.models().len() as int);
        }
        None
    }

    /// Registers a chain: the entry is appended.  The caller rejects a
    /// duplicate id beforehand, which keeps ids unique here.
    pub fn write_chain(&mut self, chain_name: Vec<u8>, chain_id: u32, oracle_address: &Vec<u8>)
        requires
            old(self).wf(),
            chain_find(old(self).models(), chain_id) is None,
        ensures
            final(self).wf(),
            final(self).models() == old(self).models().push(
                (chain_name@, chain_id, oracle_address@),
            ),
    {
        let ghost old_models = self.models();
        let entry = ChainOracleDetails {
            chain_name,
            chain_id,
            oracle_address: bytes_clone(oracle_address),
        };
        proof {
            lemma_chain_find_from_none_all(old_models, chain_id);
        }
        self.chains.push(entry);
        proof {
            assert(self.models() =~= old_models.push(chain_model(entry)));
        }
    }

    /// Unregisters a chain: its entry (if any) leaves the registry; the
    /// order of the rest is kept.
    pub fn delete_chain(&mut self, chain_id: u32)
        requires
            old(self).wf(),
        ensures
            final(self).wf(),
            chain_find(final(self).models(), chain_id) is None,
            forall|c2: u32| c2 != chain_id ==> chain_find(final(self).models(), c2) == chain_find(
                old(self).models(),
                c2,
            ),
            chain_find(old(self).models(), chain_id) is None ==> final(self).models() == old(self).models(),
            chain_find(old(self).models(), chain_id) is Some ==> exists|m: int|
                0 <= m < old(self).models().len() && (#[trigger] old(self).models()[m]).1 == chain_id
                    && final(self).models() == old(self).models().remove(m),
    {
        let ghost old_models = self.models();
        let mut i: usize = 0;
        while i < self.chains.len()
            invariant
                self.models() == old_models,
                old_models == old(self).models(),
                old(self).wf(),
                i <= old_models.len(),
                old_models.len() == self.chains@.len(),
                forall|j: int| 0 <= j < i ==> (#[trigger] old_models[j].1) != chain_id,
            decreases old_models.len() - i,
        {
            if self.chains[i].chain_id == chain_id {
                proof {
                    assert(old_models[i as int].1 == chain_id);
                    lemma_chain_find_found(old_models, chain_id, 0, i as int);
                    let new_models = old_models.remove(i as int);
                    assert forall|j: int| 0 <= j < new_models.len() implies (
                    #[trigger] new_models[j].1) != chain_id by {
                        if j < i {
                            assert(new_models[j] == old_models[j]);
                        } else {
                            assert(new_models[j] == old_models[j + 1]);
                            assert(old_models[j + 1].1 != old_models[i as int].1);
                        }
                    }
                    lemma_chain_find_skip(new_models, chain_id, 0, new_models.len() as int);
                    assert forall|c2: u32| c2 != chain_id implies chain_find(new_models, c2)
                        == chain_find(old_models, c2) by {
                        lemma_chain_find_remove_front(old_models, i as int, c2, 0);
                    }
                    assert forall|a: int, b: int| 0 <= a < b < new_models.len() implies (
                    #[trigger] new_models[a].1) != (#[trigger] new_models[b].1) by {
                        let a0: int = if a < i {
                            a
                        } else {
                            a + 1
                        };
                        let b0: int = if b < i {
                            b
                        } else {
                            b + 1
                        };
                        assert(new_models[a] == old_models[a0]);
                        assert(new_models[b] == old_models[b0]);
                        assert(old_models[a0].1 != old_models[b0].1);
                    }
                }
                self.chains.remove(i);
                proof {
                    assert(self.models() =~= old_models.remove(i as int));
                }
                return ;
            }
            proof {
                assert(old_models[i as int].1 == self.chains@[i as int].chain_id);
            }
            i = i + 1;
        }
        proof {
            lemma_chain_find_skip(old_models, chain_id, 0, old_models.len() as int);
        }
    }

    /// The registered chain ids, in insertion order.
    pub fn read_chain_id_list(&self) -> (r: Vec<u32>)
        ensures
            r@.len() == self.models().len(),
            forall|j: int| 0 <= j < r@.len() ==> r@[j] == (#[trigger] self.models()[j]).1,
    {
        let mut r: Vec<u32> = Vec::new();
        let mut i: usize = 0;
        while i < self.chains.len()
            invariant
                i <= self.chains@.len(),
                self.chains@.len() == self.models().len(),
                r@.len() == i,
                forall|j: int| 0 <= j < i ==> r@[j] == (#[trigger] self.models()[j]).1,
            decreases self.chains@.len() - i,
        {
            r.push(self.chains[i].chain_id);
            proof {
                assert(self.models()[i as int].1 == self.chains@[i as int].chain_id);
            }
            i = i + 1;
        }
        r
    }

    /// All registered entries, in insertion order.
    pub fn read_supported_chain_list(&self) -> (r: Vec<ChainOracleDetails>)
        ensures
            details_models(r@) == self.models(),
    {
        let mut r: Vec<ChainOracleDetails> = Vec::new();
        let mut i: usize = 0;
        while i < self.chains.len()
            invariant
                i <= self.chains@.len(),
                details_models(r@) == self.models().take(i as int),
            decreases self.chains@.len() - i,
        {
            let ghost before = details_models(r@);
            r.push(chain_details_clone(&self.chains[i]));
            proof {
                assert(details_models(r@) =~= before.push(self.models()[i as int]));
                assert(before.push(self.models()[i as int]) =~= self.models().take(i + 1));
            }
            i = i + 1;
        }
        proof {
            assert(self.models().take(self.models().len() as int) =~= self.models());
        }
        r
    }
}

/// An id that no entry carries is found nowhere in the list.
pub proof fn lemma_chain_find_from_none_all(ms: Seq<ChainModel>, chain_id: u32)
    requires
        chain_find(ms, chain_id) is None,
    ensures
        forall|j: int| 0 <= j < ms.len() ==> (#[trigger] ms[j].1) != chain_id,
    decreases ms.len(),
{
    assert forall|j: int| 0 <= j < ms.len() implies (#[trigger] ms[j].1) != chain_id by {
        if ms[j].1 == chain_id {
            lemma_chain_find_found(ms, chain_id, 0, j);
        }
    }
}

proof fn lemma_chain_find_found(ms: Seq<ChainModel>, chain_id: u32, i: int, j: int)
    requires
        0 <= i <= j < ms.len(),
        ms[j].1 == chain_id,
    ensures
        chain_find_from(ms, chain_id, i) is Some,
    decreases j - i,
{
    if i < j && ms[i].1 != chain_id {
        lemma_chain_find_found(ms, chain_id, i + 1, j);
    }
}

} // verus!
