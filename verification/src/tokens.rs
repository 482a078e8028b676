//! The token destination map: for each (token, chain) pair, the token's
//! address on the destination chain.  Entries are kept in insertion order.

use crate::codec::bytes_eq;
use crate::types::{bytes_clone, DestinationChainDetails};
use vstd::prelude::*;

verus! {

/// What a mapping entry holds: token, destination chain id, and the token's
/// address on that chain.
pub type TokenModel = (Seq<u8>, u32, Seq<u8>);

/// The first entry model at or after `i` for the (token, chain) pair.
pub open spec fn token_find_from(
    ms: Seq<TokenModel>,
    token: Seq<u8>,
    chain_id: u32,
    i: int,
) -> Option<TokenModel>
    decreases ms.len() - i,
{
    if i < 0 || i >= ms.len() {
        None
    } else if ms[i].0 == token && ms[i].1 == chain_id {
        Some(ms[i])
    } else {
        token_find_from(ms, token, chain_id, i + 1)
    }
}

/// The mapping entry for a (token, chain) pair, if any.
pub open spec fn token_find(ms: Seq<TokenModel>, token: Seq<u8>, chain_id: u32) -> Option<
    TokenModel,
> {
    token_find_from(ms, token, chain_id, 0)
}

/// The token is mapped on at least one chain.
pub open spec fn token_supported(ms: Seq<TokenModel>, token: Seq<u8>) -> bool {
    exists|j: int| 0 <= j < ms.len() && (#[trigger] ms[j]).0 == token
}

/// No two entries share a (token, chain) pair.
pub open spec fn token_pairs_distinct(ms: Seq<TokenModel>) -> bool {
    forall|i: int, j: int|
        0 <= i < j < ms.len() ==> !((#[trigger] ms[i]).0 == (#[trigger] ms[j]).0 && ms[i].1
            == ms[j].1)
}

/// The (chain id, destination token) pairs of the entries at or after `i`
/// that map the token, in order.
pub open spec fn token_destinations_from(ms: Seq<TokenModel>, token: Seq<u8>, i: int) -> Seq<
    (u32, Seq<u8>),
>
    decreases ms.len() - i,
{
    if i < 0 || i >= ms.len() {
        Seq::empty()
    } else if ms[i].0 == token {
        seq![(ms[i].1, ms[i].2)] + token_destinations_from(ms, token, i + 1)
    } else {
        token_destinations_from(ms, token, i + 1)
    }
}

/// All destinations mapped for the token, in insertion order.
pub open spec fn token_destinations(ms: Seq<TokenModel>, token: Seq<u8>) -> Seq<(u32, Seq<u8>)> {
    token_destinations_from(ms, token, 0)
}

/// The models of a destination list.
pub open spec fn dest_models(v: Seq<DestinationChainDetails>) -> Seq<(u32, Seq<u8>)> {
    v.map_values(|d: DestinationChainDetails| (d.chain_id, d.destination_token@))
}

/// Searching from `i` equals searching from `m` when nothing in between
/// matches.
pub proof fn lemma_token_find_skip(
    ms: Seq<TokenModel>,
    token: Seq<u8>,
    chain_id: u32,
    i: int,
    m: int,
)
    requires
        0 <= i <= m <= ms.len(),
        forall|j: int| i <= j < m ==> !((#[trigger] ms[j]).0 == token && ms[j].1 == chain_id),
    ensures
        token_find_from(ms, token, chain_id, i) == token_find_from(ms, token, chain_id, m),
    decreases m - i,
{
    if i < m {
        lemma_token_find_skip(ms, token, chain_id, i + 1, m);
    }
}

/// A matching entry at `j` makes every search from at or before `j` succeed.
pub proof fn lemma_token_find_found(
    ms: Seq<TokenModel>,
    token: Seq<u8>,
    chain_id: u32,
    i: int,
    j: int,
)
    requires
        0 <= i <= j < ms.len(),
        ms[j].0 == token && ms[j].1 == chain_id,
    ensures
        token_find_from(ms, token, chain_id, i) is Some,
    decreases j - i,
{
    if i < j && !(ms[i].0 == token && ms[i].1 == chain_id) {
        lemma_token_find_found(ms, token, chain_id, i + 1, j);
    }
}

/// Appending an entry only changes a search that would have found nothing.
pub proof fn lemma_token_find_push(
    ms: Seq<TokenModel>,
    x: TokenModel,
    token: Seq<u8>,
    chain_id: u32,
    i: int,
)
    requires
        0 <= i <= ms.len(),
    ensures
        token_find_from(ms.push(x), token, chain_id, i) == match token_find_from(
            ms,
            token,
            chain_id,
            i,
        ) {
            Some(c) => Some(c),
            None => if x.0 == token && x.1 == chain_id {
                Some(x)
            } else {
                None
            },
        },
    decreases ms.len() - i,
{
    assert(ms.push(x).len() == ms.len() + 1);
    if i < ms.len() {
        assert(ms.push(x)[i] == ms[i]);
        lemma_token_find_push(ms, x, token, chain_id, i + 1);
    } else {
        assert(ms.push(x)[i] == x);
    }
}

/// Overwriting position `m` with an entry for the same pair leaves searches
/// for every other pair unchanged.
pub proof fn lemma_token_find_update_other(
    ms: Seq<TokenModel>,
    m: int,
    x: TokenModel,
    token: Seq<u8>,
    chain_id: u32,
    i: int,
)
    requires
        0 <= m < ms.len(),
        x.0 == ms[m].0 && x.1 == ms[m].1,
        !(token == ms[m].0 && chain_id == ms[m].1),
        0 <= i <= ms.len(),
    ensures
        token_find_from(ms.update(m, x), token, chain_id, i) == token_find_from(
            ms,
            token,
            chain_id,
            i,
        ),
    decreases ms.len() - i,
{
    if i < ms.len() {
        if i != m {
            assert(ms.update(m, x)[i] == ms[i]);
        } else {
            assert(ms.update(m, x)[i] == x);
        }
        lemma_token_find_update_other(ms, m, x, token, chain_id, i + 1);
    }
}

/// Past the deleted position, searching the shortened list equals searching
/// the original one step later.
pub proof fn lemma_token_find_remove_tail(
    ms: Seq<TokenModel>,
    m: int,
    token: Seq<u8>,
    chain_id: u32,
    i: int,
)
    requires
        0 <= m < ms.len(),
        m <= i <= ms.len() - 1,
    ensures
        token_find_from(ms.remove(m), token, chain_id, i) == token_find_from(
            ms,
            token,
            chain_id,
            i + 1,
        ),
    decreases ms.len() - i,
{
    assert(ms.remove(m).len() == ms.len() - 1);
    if i < ms.len() - 1 {
        assert(ms.remove(m)[i] == ms[i + 1]);
        lemma_token_find_remove_tail(ms, m, token, chain_id, i + 1);
    }
}

/// Before the deleted position, searching for another pair is unchanged.
pub proof fn lemma_token_find_remove_front(
    ms: Seq<TokenModel>,
    m: int,
    token: Seq<u8>,
    chain_id: u32,
    i: int,
)
    requires
        0 <= i <= m < ms.len(),
        !(token == ms[m].0 && chain_id == ms[m].1),
    ensures
        token_find_from(ms.remove(m), token, chain_id, i) == token_find_from(
            ms,
            token,
            chain_id,
            i,
        ),
    decreases m - i,
{
    if i == m {
        lemma_token_find_remove_tail(ms, m, token, chain_id, m);
    } else {
        assert(ms.remove(m)[i] == ms[i]);
        lemma_token_find_remove_front(ms, m, token, chain_id, i + 1);
    }
}

/// One mapping entry.
struct TokenChainEntry {
    token: Vec<u8>,
    chain_id: u32,
    destination_token: Vec<u8>,
}

/// The registry of token destination mappings.
pub struct TokenRegistry {
    entries: Vec<TokenChainEntry>,
}

impl TokenRegistry {
    /// The registered entries' models, in insertion order.
    pub closed spec fn models(self) -> Seq<TokenModel> {
        self.entries@.map_values(
            |e: TokenChainEntry| (e.token@, e.chain_id, e.destination_token@),
        )
    }

    /// Well-formedness: (token, chain) pairs are unique.
    pub closed spec fn wf(self) -> bool {
        token_pairs_distinct(self.models())
    }

    /// An empty registry.
    pub fn new() -> (r: TokenRegistry)
        ensures
            r.wf(),
            r.models() == Seq::<TokenModel>::empty(),
    {
        let r = TokenRegistry { entries: Vec::new() };
        proof {
            assert(r.models() =~= Seq::<TokenModel>::empty());
        }
        r
    }

    /// Whether the token is mapped on at least one chain.
    pub fn read_token_is_supported(&self, token: &Vec<u8>) -> (r: bool)
        ensures
            r <==> token_supported(self.models(), token@),
    {
        let mut i: usize = 0;
        while i < self.entries.len()
            invariant
                i <= self.entries@.len(),
                self.entries@.len() == self.models().len(),
                forall|j: int| 0 <= j < i ==> (#[trigger] self.models()[j]).0 != token@,
            decreases self.entries@.len() - i,
        {
            if bytes_eq(&self.entries[i].token, token) {
                proof {
                    assert((self.models()[i as int]).0 == token@);
                }
                return true;
            }
            proof {
                assert((self.models()[i as int]).0 == self.entries@[i as int].token@);
            }
            i = i + 1;
        }
        false
    }

    /// Whether the (token, chain) pair is mapped.
    pub fn read_token_chain_is_supported(&self, token: &Vec<u8>, chain_id: u32) -> (r: bool)
        ensures
            r <==> token_find(self.models(), token@, chain_id) is Some,
    {
        let mut i: usize = 0;
        while i < self.entries.len()
            invariant
                i <= self.entries@.len(),
                self.entries@.len() == self.models().len(),
                forall|j: int|
                    0 <= j < i ==> !((#[trigger] self.models()[j]).0 == token@ && self.models()[
                        j
                    ].1 == chain_id),
            decreases self.entries@.len() - i,
        {
            if bytes_eq(&self.entries[i].token, token) && self.entries[i].chain_id == chain_id {
                proof {
                    lemma_token_find_found(self.models(), token@, chain_id, 0, i as int);
                }
                return true;
            }
            proof {
                assert((self.models()[i as int]).0 == self.entries@[i as int].token@);
                assert((self.models()[i as int]).1 == self.entries@[i as int].chain_id);
            }
            i = i + 1;
        }
        proof {
            lemma_token_find_skip(self.models(), token@, chain_id, 0, self.models().len() as int);
        }
        false
    }

    /// The destination details for a (token, chain) pair; `None` when the
    /// pair is unmapped.
    pub fn read_destination_chain_token(&self, token: &Vec<u8>, chain_id: u32) -> (r: Option<
        DestinationChainDetails,
    >)
        ensures
            match r {
                Some(d) => d.chain_id == chain_id && token_find(self.models(), token@, chain_id)
                    == Some((token@, chain_id, d.destination_token@)),
                None => token_find(self.models(), token@, chain_id) is None,
            },
    {
        let mut i: usize = 0;
        while i < self.entries.len()
            invariant
                i <= self.entries@.len(),
                self.entries@.len() == self.models().len(),
                forall|j: int|
                    0 <= j < i ==> !((#[trigger] self.models()[j]).0 == token@ && self.models()[
                        j
                    ].1 == chain_id),
            decreases self.entries@.len() - i,
        {
            if bytes_eq(&self.entries[i].token, token) && self.entries[i].chain_id == chain_id {
                proof {
                    lemma_token_find_skip(self.models(), token@, chain_id, 0, i as int);
                    assert((self.models()[i as int]).0 == token@);
                    assert((self.models()[i as int]).1 == chain_id);
                }
                return Some(
                    DestinationChainDetails {
                        chain_id,
                        destination_token: bytes_clone(&self.entries[i].destination_token),
                    },
                );
            }
            proof {
                assert((self.models()[i as int]).0 == self.entries@[i as int].token@);
                assert((self.models()[i as int]).1 == self.entries@[i as int].chain_id);
            }
            i = i + 1;
        }
        proof {
            lemma_token_find_skip(self.models(), token@, chain_id, 0, self.models().len() as int);
        }
        None
    }

    /// Maps a (token, chain) pair to a destination token: an existing entry
    /// is overwritten in place, a new pair is appended.
    pub fn write_token_chain_map(
        &mut self,
        token: &Vec<u8>,
        chain_id: u32,
        destination_token: Vec<u8>,
    )
        requires
            old(self).wf(),
        ensures
            final(self).wf(),
            token_find(final(self).models(), token@, chain_id) == Some(
                (token@, chain_id, destination_token@),
            ),
            forall|t2: Seq<u8>, c2: u32|
                !(t2 == token@ && c2 == chain_id) ==> token_find(final(self).models(), t2, c2)
                    == token_find(old(self).models(), t2, c2),
            forall|t2: Seq<u8>|
                token_supported(final(self).models(), t2) <==> (token_supported(
                    old(self).models(),
                    t2,
                ) || t2 == token@),
    {
        let ghost old_models = self.models();
        let entry = TokenChainEntry {
            token: bytes_clone(token),
            chain_id,
            destination_token,
        };
        let ghost x = (token@, chain_id, entry.destination_token@);
        let mut i: usize = 0;
        let mut found = false;
        while i < self.entries.len() && !found
            invariant
                self.models() == old_models,
                old_models == old(self).models(),
                old(self).wf(),
                i <= old_models.len(),
                old_models.len() == self.entries@.len(),
                !found ==> forall|j: int|
                    0 <= j < i ==> !((#[trigger] old_models[j]).0 == token@ && old_models[j].1
                        == chain_id),
                found ==> i < old_models.len() && old_models[i as int].0 == token@
                    && old_models[i as int].1 == chain_id && forall|j: int|
                    0 <= j < i ==> !((#[trigger] old_models[j]).0 == token@ && old_models[j].1
                        == chain_id),
            decreases old_models.len() - i + (if found {
                0int
            } else {
                1int
            }),
        {
            if bytes_eq(&self.entries[i].token, token) && self.entries[i].chain_id == chain_id {
                found = true;
            } else {
                proof {
                    assert((old_models[i as int]).0 == self.entries@[i as int].token@);
                    assert((old_models[i as int]).1 == self.entries@[i as int].chain_id);
                }
                i = i + 1;
            }
        }
        if found {
            proof {
                let new_models = old_models.update(i as int, x);
                assert(forall|j: int|
                    0 <= j < new_models.len() && j != i ==> new_models[j] == old_models[j]);
                assert(new_models[i as int] == x);
                lemma_token_find_skip(new_models, token@, chain_id, 0, i as int);
                assert forall|t2: Seq<u8>, c2: u32| !(t2 == token@ && c2 == chain_id) implies
                    token_find(new_models, t2, c2) == token_find(old_models, t2, c2) by {
                    lemma_token_find_update_other(old_models, i as int, x, t2, c2, 0);
                }
            }
            self.entries[i] = entry;
            proof {
                assert(self.models() =~= old_models.update(
                    i as int,
                    (token@, chain_id, destination_token@),
                ));
                assert forall|a: int, b: int|
                    0 <= a < b < self.models().len() implies !((#[trigger] self.models()[a]).0
                        == (#[trigger] self.models()[b]).0 && self.models()[a].1 == self.models()[
                        b
                    ].1) by {
                    assert(self.models()[a].0 == old_models[a].0 && self.models()[a].1
                        == old_models[a].1);
                    assert(self.models()[b].0 == old_models[b].0 && self.models()[b].1
                        == old_models[b].1);
                }
                assert forall|t2: Seq<u8>| token_supported(self.models(), t2) implies (
                token_supported(old_models, t2) || t2 == token@) by {
                    let j = choose|j: int|
                        0 <= j < self.models().len() && (#[trigger] self.models()[j]).0 == t2;
                    if j != i {
                        assert(old_models[j].0 == t2);
                    }
                }
                assert forall|t2: Seq<u8>| token_supported(old_models, t2) || t2 == token@
                    implies token_supported(self.models(), t2) by {
                    if t2 == token@ {
                        assert((self.models()[i as int]).0 == t2);
                    } else {
                        let j = choose|j: int|
                            0 <= j < old_models.len() && (#[trigger] old_models[j]).0 == t2;
                        assert((self.models()[j]).0 == t2);
                    }
                }
            }
        } else {
            proof {
                lemma_token_find_skip(old_models, token@, chain_id, 0, old_models.len() as int);
                assert forall|t2: Seq<u8>, c2: u32| true implies token_find(
                    old_models.push(x),
                    t2,
                    c2,
                ) == (if t2 == token@ && c2 == chain_id {
                    Some(x)
                } else {
                    token_find(old_models, t2, c2)
                }) by {
                    lemma_token_find_push(old_models, x, t2, c2, 0);
                    if t2 == token@ && c2 == chain_id {
                    }
                }
            }
            self.entries.push(entry);
            proof {
                assert(self.models() =~= old_models.push(
                    (token@, chain_id, destination_token@),
                ));
                assert forall|a: int, b: int|
                    0 <= a < b < self.models().len() implies !((#[trigger] self.models()[a]).0
                        == (#[trigger] self.models()[b]).0 && self.models()[a].1 == self.models()[
                        b
                    ].1) by {
                    if b < old_models.len() {
                        assert(self.models()[a] == old_models[a]);
                        assert(self.models()[b] == old_models[b]);
                    } else {
                        assert(self.models()[a] == old_models[a]);
                        assert(self.models()[b] == x);
                    }
                }
                assert forall|t2: Seq<u8>| token_supported(self.models(), t2) implies (
                token_supported(old_models, t2) || t2 == token@) by {
                    let j = choose|j: int|
                        0 <= j < self.models().len() && (#[trigger] self.models()[j]).0 == t2;
                    if j < old_models.len() {
                        assert(old_models[j].0 == t2);
                    }
                }
                assert forall|t2: Seq<u8>| token_supported(old_models, t2) || t2 == token@
                    implies token_supported(self.models(), t2) by {
                    if t2 == token@ {
                        assert((self.models()[old_models.len() as int]).0 == t2);
                    } else {
                        let j = choose|j: int|
                            0 <= j < old_models.len() && (#[trigger] old_models[j]).0 == t2;
                        assert((self.models()[j]).0 == t2);
                    }
                }
            }
        }
    }

    /// Unmaps a (token, chain) pair; unmapping an absent pair is a no-op.
    pub fn delete_token_chain_map(&mut self, token: &Vec<u8>, chain_id: u32)
        requires
            old(self).wf(),
        ensures
            final(self).wf(),
            token_find(final(self).models(), token@, chain_id) is None,
            forall|t2: Seq<u8>, c2: u32|
                !(t2 == token@ && c2 == chain_id) ==> token_find(final(self).models(), t2, c2)
                    == token_find(old(self).models(), t2, c2),
    {
        let ghost old_models = self.models();
        let mut i: usize = 0;
        while i < self.entries.len()
            invariant
                self.models() == old_models,
                old_models == old(self).models(),
                old(self).wf(),
                i <= old_models.len(),
                old_models.len() == self.entries@.len(),
                forall|j: int|
                    0 <= j < i ==> !((#[trigger] old_models[j]).0 == token@ && old_models[j].1
                        == chain_id),
            decreases old_models.len() - i,
        {
            if bytes_eq(&self.entries[i].token, token) && self.entries[i].chain_id == chain_id {
                proof {
                    assert(old_models[i as int].0 == token@ && old_models[i as int].1 == chain_id);
                    let new_models = old_models.remove(i as int);
                    assert forall|j: int| 0 <= j < new_models.len() implies !((
                    #[trigger] new_models[j]).0 == token@ && new_models[j].1 == chain_id) by {
                        if j < i {
                            assert(new_models[j] == old_models[j]);
                        } else {
                            assert(new_models[j] == old_models[j + 1]);
                        }
                    }
                    lemma_token_find_skip(new_models, token@, chain_id, 0, new_models.len() as int);
                    assert forall|t2: Seq<u8>, c2: u32| !(t2 == token@ && c2 == chain_id) implies
                        token_find(new_models, t2, c2) == token_find(old_models, t2, c2) by {
                        lemma_token_find_remove_front(old_models, i as int, t2, c2, 0);
                    }
                    assert forall|a: int, b: int| 0 <= a < b < new_models.len() implies !((
                    #[trigger] new_models[a]).0 == (#[trigger] new_models[b]).0 && new_models[a].1
                        == new_models[b].1) by {
                        let a0: int = if a < i {
                            a
                        } else {
                            a + 1
                        };
                        let b0: int = if b < i {
                            b
                        } else {
                            b + 1
                        };
                        assert(new_models[a] == old_models[a0]);
                        assert(new_models[b] == old_models[b0]);
                    }
                }
                self.entries.remove(i);
                proof {
                    assert(self.models() =~= old_models.remove(i as int));
                }
                return ;
            }
            proof {
                assert((old_models[i as int]).0 == self.entries@[i as int].token@);
                assert((old_models[i as int]).1 == self.entries@[i as int].chain_id);
            }
            i = i + 1;
        }
        proof {
            lemma_token_find_skip(old_models, token@, chain_id, 0, old_models.len() as int);
        }
    }

    /// All destinations mapped for the token, in insertion order.
    pub fn read_destination_token_list(&self, token: &Vec<u8>) -> (r: Vec<DestinationChainDetails>)
        ensures
            dest_models(r@) == token_destinations(self.models(), token@),
    {
        let mut r: Vec<DestinationChainDetails> = Vec::new();
        let mut i: usize = 0;
        proof {
            assert(dest_models(r@) =~= Seq::<(u32, Seq<u8>)>::empty());
        }
        while i < self.entries.len()
            invariant
                i <= self.entries@.len(),
                self.entries@.len() == self.models().len(),
                token_destinations(self.models(), token@) =~= dest_models(r@)
                    + token_destinations_from(self.models(), token@, i as int),
            decreases self.entries@.len() - i,
        {
            let ghost before = dest_models(r@);
            if bytes_eq(&self.entries[i].token, token) {
                r.push(
                    DestinationChainDetails {
                        chain_id: self.entries[i].chain_id,
                        destination_token: bytes_clone(&self.entries[i].destination_token),
                    },
                );
                proof {
                    let m = self.models()[i as int];
                    assert(m.0 == token@);
                    assert(dest_models(r@) =~= before.push((m.1, m.2)));
                    assert(before + (seq![(m.1, m.2)] + token_destinations_from(
                        self.models(),
                        token@,
                        i + 1,
                    )) =~= dest_models(r@) + token_destinations_from(
                        self.models(),
                        token@,
                        i + 1,
                    ));
                }
            } else {
                proof {
                    assert((self.models()[i as int]).0 == self.entries@[i as int].token@);
                }
            }
            i = i + 1;
        }
        proof {
            assert(token_destinations_from(self.models(), token@, self.models().len() as int)
                =~= Seq::<(u32, Seq<u8>)>::empty());
            assert(dest_models(r@) + Seq::<(u32, Seq<u8>)>::empty() =~= dest_models(r@));
        }
        r
    }
}

} // verus!
