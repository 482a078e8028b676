//! The consensus tally: a persistent vote count over opaque byte keys.
//!
//! Counts persist across coordinator passes until a key is explicitly
//! cleared, so a transfer that misses quorum in one pass keeps its partial
//! votes into the next.  A batch of observed keys (one per reporting
//! receptacle, duplicates included) is tallied by incrementing every key's
//! persisted count, then scanning the batch's distinct keys in
//! first-occurrence order for the first whose cumulative count reaches the
//! threshold.  Counts saturate at `u32::MAX` rather than wrapping.

use crate::codec::bytes_eq;
use crate::types::bytes_clone;
use vstd::prelude::*;

verus! {

/// One persisted vote count.
struct CountEntry {
    key: Vec<u8>,
    count: u32,
}

/// The count of the first entry at or after `i` whose key is `k`; zero when
/// no entry holds the key.
spec fn count_from(es: Seq<CountEntry>, k: Seq<u8>, i: int) -> u32
    decreases es.len() - i,
{
    if i < 0 || i >= es.len() {
        0u32
    } else if es[i].key@ == k {
        es[i].count
    } else {
        count_from(es, k, i + 1)
    }
}

/// One vote for `k`: its count rises by one, saturating at `u32::MAX`.
pub open spec fn bump(m: Map<Seq<u8>, u32>, k: Seq<u8>) -> Map<Seq<u8>, u32> {
    m.insert(
        k,
        if m[k] < u32::MAX {
            (m[k] + 1) as u32
        } else {
            u32::MAX
        },
    )
}

/// Every key of the batch voted for in order, duplicates counted separately.
pub open spec fn bump_all(m: Map<Seq<u8>, u32>, batch: Seq<Seq<u8>>) -> Map<Seq<u8>, u32>
    decreases batch.len(),
{
    if batch.len() == 0 {
        m
    } else {
        bump_all(bump(m, batch[0]), batch.drop_first())
    }
}

/// The distinct keys of the first `i` batch entries, in first-occurrence
/// order.
pub open spec fn distinct_prefix(batch: Seq<Seq<u8>>, i: int) -> Seq<Seq<u8>>
    decreases i,
{
    if i <= 0 {
        Seq::empty()
    } else {
        let d = distinct_prefix(batch, i - 1);
        if d.contains(batch[i - 1]) {
            d
        } else {
            d.push(batch[i - 1])
        }
    }
}

/// The batch's distinct keys, in first-occurrence order.
pub open spec fn spec_distinct(batch: Seq<Seq<u8>>) -> Seq<Seq<u8>> {
    distinct_prefix(batch, batch.len() as int)
}

/// The first key at or after position `i` whose count reaches the threshold.
pub open spec fn first_winner_from(
    m: Map<Seq<u8>, u32>,
    d: Seq<Seq<u8>>,
    threshold: u32,
    i: int,
) -> Option<Seq<u8>>
    decreases d.len() - i,
{
    if i < 0 || i >= d.len() {
        None
    } else if m[d[i]] >= threshold {
        Some(d[i])
    } else {
        first_winner_from(m, d, threshold, i + 1)
    }
}

/// The first key of `d` whose count reaches the threshold, if any.
pub open spec fn spec_winner(m: Map<Seq<u8>, u32>, d: Seq<Seq<u8>>, threshold: u32) -> Option<
    Seq<u8>,
> {
    first_winner_from(m, d, threshold, 0)
}

proof fn lemma_count_from_skip(es: Seq<CountEntry>, k: Seq<u8>, i: int, m: int)
    requires
        0 <= i <= m <= es.len(),
        forall|j: int| i <= j < m ==> (#[trigger] es[j].key@) != k,
    ensures
        count_from(es, k, i) == count_from(es, k, m),
    decreases m - i,
{
    if i < m {
        lemma_count_from_skip(es, k, i + 1, m);
    }
}

proof fn lemma_count_from_push(es: Seq<CountEntry>, e: CountEntry, k: Seq<u8>, i: int)
    requires
        0 <= i <= es.len(),
    ensures
        count_from(es.push(e), k, i) == if count_has(es, k, i) {
            count_from(es, k, i)
        } else if e.key@ == k {
            e.count
        } else {
            0u32
        },
    decreases es.len() - i,
{
    assert(es.push(e).len() == es.len() + 1);
    if i < es.len() {
        assert(es.push(e)[i] == es[i]);
        lemma_count_from_push(es, e, k, i + 1);
    } else {
        assert(es.push(e)[i] == e);
        assert(count_from(es.push(e), k, i + 1) == 0);
    }
}

/// Some entry at or after `i` holds key `k`.
spec fn count_has(es: Seq<CountEntry>, k: Seq<u8>, i: int) -> bool
    decreases es.len() - i,
{
    if i < 0 || i >= es.len() {
        false
    } else if es[i].key@ == k {
        true
    } else {
        count_has(es, k, i + 1)
    }
}

proof fn lemma_count_from_update_other(
    es: Seq<CountEntry>,
    m: int,
    e: CountEntry,
    k: Seq<u8>,
    i: int,
)
    requires
        0 <= m < es.len(),
        e.key@ == es[m].key@,
        k != es[m].key@,
        0 <= i <= es.len(),
    ensures
        count_from(es.update(m, e), k, i) == count_from(es, k, i),
    decreases es.len() - i,
{
    if i < es.len() {
        if i != m {
            assert(es.update(m, e)[i] == es[i]);
        } else {
            assert(es.update(m, e)[i] == e);
        }
        lemma_count_from_update_other(es, m, e, k, i + 1);
    }
}

proof fn lemma_count_from_remove_tail(es: Seq<CountEntry>, m: int, k: Seq<u8>, i: int)
    requires
        0 <= m < es.len(),
        m <= i <= es.len() - 1,
    ensures
        count_from(es.remove(m), k, i) == count_from(es, k, i + 1),
    decreases es.len() - i,
{
    assert(es.remove(m).len() == es.len() - 1);
    if i < es.len() - 1 {
        assert(es.remove(m)[i] == es[i + 1]);
        lemma_count_from_remove_tail(es, m, k, i + 1);
    }
}

proof fn lemma_count_from_remove_front(es: Seq<CountEntry>, m: int, k: Seq<u8>, i: int)
    requires
        0 <= i <= m < es.len(),
        k != es[m].key@,
    ensures
        count_from(es.remove(m), k, i) == count_from(es, k, i),
    decreases m - i,
{
    if i == m {
        lemma_count_from_remove_tail(es, m, k, m);
    } else {
        assert(es.remove(m)[i] == es[i]);
        lemma_count_from_remove_front(es, m, k, i + 1);
    }
}

/// The persistent vote-counting table.
pub struct ConsensusTally {
    entries: Vec<CountEntry>,
}

impl ConsensusTally {
    /// The persisted count of every key; keys never voted for count zero.
    pub closed spec fn counts(self) -> Map<Seq<u8>, u32> {
        Map::new(|k: Seq<u8>| true, |k: Seq<u8>| count_from(self.entries@, k, 0))
    }

    /// Well-formedness: one entry per key.
    pub closed spec fn wf(self) -> bool {
        forall|i: int, j: int|
            0 <= i < j < self.entries@.len() ==> (#[trigger] self.entries@[i].key@) != (
            #[trigger] self.entries@[j].key@)
    }

    /// An empty table: every count is zero.
    pub fn new() -> (r: ConsensusTally)
        ensures
            r.wf(),
            forall|k: Seq<u8>| r.counts()[k] == 0,
    {
        let r = ConsensusTally { entries: Vec::new() };
        proof {
            assert(forall|k: Seq<u8>| count_from(r.entries@, k, 0) == 0);
        }
        r
    }

    /// The persisted count for a key; zero when the key is absent.
    pub fn read_consensus_count(&self, key: &Vec<u8>) -> (r: u32)
        requires
            self.wf(),
        ensures
            r == self.counts()[key@],
    {
        let mut i: usize = 0;
        while i < self.entries.len()
            invariant
                i <= self.entries@.len(),
                forall|j: int| 0 <= j < i ==> (#[trigger] self.entries@[j].key@) != key@,
            decreases self.entries@.len() - i,
        {
            if bytes_eq(&self.entries[i].key, key) {
                proof {
                    lemma_count_from_skip(self.entries@, key@, 0, i as int);
                }
                return self.entries[i].count;
            }
            i = i + 1;
        }
        proof {
            lemma_count_from_skip(self.entries@, key@, 0, self.entries@.len() as int);
        }
        0
    }

    /// Writes the persisted count for a key.
    pub fn write_consensus_count(&mut self, key: &Vec<u8>, count: u32)
        requires
            old(self).wf(),
        ensures
            final(self).wf(),
            final(self).counts() == old(self).counts().insert(key@, count),
    {
        let ghost old_entries = self.entries@;
        let mut i: usize = 0;
        while i < self.entries.len()
            invariant
                self.entries@ == old_entries,
                old_entries == old(self).entries@,
                old(self).wf(),
                i <= old_entries.len(),
                forall|j: int| 0 <= j < i ==> (#[trigger] old_entries[j].key@) != key@,
            decreases old_entries.len() - i,
        {
            if bytes_eq(&self.entries[i].key, key) {
                let e = CountEntry { key: bytes_clone(key), count };
                proof {
                    let new_entries = old_entries.update(i as int, e);
                    assert(forall|j: int|
                        0 <= j < new_entries.len() && j != i ==> new_entries[j] == old_entries[
                            j
                        ]);
                    lemma_count_from_skip(new_entries, key@, 0, i as int);
                    assert(new_entries[i as int] == e);
                    assert forall|k: Seq<u8>| k != key@ implies count_from(new_entries, k, 0)
                        == count_from(old_entries, k, 0) by {
                        lemma_count_from_update_other(old_entries, i as int, e, k, 0);
                    }
                }
                self.entries[i] = e;
                proof {
                    assert(forall|j: int|
                        0 <= j < self.entries@.len() ==> (#[trigger] self.entries@[j].key@)
                            == old_entries[j].key@);
                    assert(self.wf());
                    assert(self.counts() =~= old(self).counts().insert(key@, count));
                }
                return ;
            }
            i = i + 1;
        }
        let e = CountEntry { key: bytes_clone(key), count };
        proof {
            assert forall|k: Seq<u8>| true implies count_from(old_entries.push(e), k, 0) == (
            if k == key@ {
                count
            } else {
                count_from(old_entries, k, 0)
            }) by {
                lemma_count_from_push(old_entries, e, k, 0);
                if !count_has(old_entries, k, 0) {
                    lemma_count_absent_zero(old_entries, k, 0);
                }
                if k == key@ {
                    lemma_find_key_absent(old_entries, k, 0);
                }
            }
        }
        self.entries.push(e);
        proof {
            assert(self.entries@ == old_entries.push(e));
            assert(forall|j: int|
                0 <= j < old_entries.len() ==> (#[trigger] self.entries@[j]) == old_entries[j]);
            assert(self.entries@[old_entries.len() as int].key@ == key@);
            assert(self.wf());
            assert(self.counts() =~= old(self).counts().insert(key@, count));
        }
    }

    /// Clears one key's count back to zero (the entry is deleted).
    pub fn clear_consensus_count(&mut self, key: &Vec<u8>)
        requires
            old(self).wf(),
        ensures
            final(self).wf(),
            final(self).counts() == old(self).counts().insert(key@, 0),
    {
        let ghost old_entries = self.entries@;
        let mut i: usize = 0;
        while i < self.entries.len()
            invariant
                self.entries@ == old_entries,
                old_entries == old(self).entries@,
                old(self).wf(),
                i <= old_entries.len(),
                forall|j: int| 0 <= j < i ==> (#[trigger] old_entries[j].key@) != key@,
            decreases old_entries.len() - i,
        {
            if bytes_eq(&self.entries[i].key, key) {
                proof {
                    let new_entries = old_entries.remove(i as int);
                    assert(old_entries[i as int].key@ == key@);
                    assert forall|j: int| 0 <= j < new_entries.len() implies (
                    #[trigger] new_entries[j].key@) != key@ by {
                        if j < i {
                            assert(new_entries[j] == old_entries[j]);
                        } else {
                            assert(new_entries[j] == old_entries[j + 1]);
                            assert(old_entries[j + 1].key@ != old_entries[i as int].key@);
                        }
                    }
                    lemma_count_from_skip(new_entries, key@, 0, new_entries.len() as int);
                    assert forall|k: Seq<u8>| k != key@ implies count_from(new_entries, k, 0)
                        == count_from(old_entries, k, 0) by {
                        lemma_count_from_remove_front(old_entries, i as int, k, 0);
                    }
                }
                self.entries.remove(i);
                proof {
                    let new_entries = old_entries.remove(i as int);
                    assert forall|a: int, b: int| 0 <= a < b < new_entries.len() implies (
                    #[trigger] new_entries[a].key@) != (#[trigger] new_entries[b].key@) by {
                        let a0: int = if a < i { a } else { a + 1 };
                        let b0: int = if b < i { b } else { b + 1 };
                        assert(new_entries[a] == old_entries[a0]);
                        assert(new_entries[b] == old_entries[b0]);
                        assert(old_entries[a0].key@ != old_entries[b0].key@);
                    }
                    assert(self.wf());
                    assert(self.counts() =~= old(self).counts().insert(key@, 0));
                }
                return ;
            }
            i = i + 1;
        }
        proof {
            lemma_count_from_skip(old_entries, key@, 0, old_entries.len() as int);
            assert(self.counts() =~= old(self).counts().insert(key@, 0));
        }
    }

    /// Records one vote for every key of the batch (duplicates vote
    /// separately), then scans the batch's distinct keys in first-occurrence
    /// order and returns the first whose cumulative count reaches the
    /// threshold.  An empty batch changes nothing and yields no winner.
    pub fn threshold_validation(&mut self, threshold: u32, data_list: &Vec<Vec<u8>>) -> (r:
        Option<Vec<u8>>)
        requires
            old(self).wf(),
        ensures
            final(self).wf(),
            data_list@.len() == 0 ==> r is None && final(self).counts() == old(self).counts(),
            data_list@.len() > 0 ==> ({
                let m2 = bump_all(old(self).counts(), data_list.deep_view());
                &&& final(self).counts() == m2
                &&& (match r {
                    Some(v) => Some(v@),
                    None => None::<Seq<u8>>,
                }) == spec_winner(m2, spec_distinct(data_list.deep_view()), threshold)
            }),
    {
        if data_list.len() == 0 {
            return None;
        }
        let ghost batch = data_list.deep_view();
        let ghost m0 = old(self).counts();
        let mut distinct_list: Vec<Vec<u8>> = Vec::new();
        let mut i: usize = 0;
        proof {
            assert(batch.take(0) =~= Seq::<Seq<u8>>::empty());
            assert(distinct_list.deep_view() =~= Seq::<Seq<u8>>::empty());
        }
        while i < data_list.len()
            invariant
                self.wf(),
                i <= batch.len(),
                batch == data_list.deep_view(),
                data_list@.len() == batch.len(),
                m0 == old(self).counts(),
                self.counts() == bump_all(m0, batch.take(i as int)),
                distinct_list.deep_view() == distinct_prefix(batch, i as int),
            decreases batch.len() - i,
        {
            let key = &data_list[i];
            proof {
                assert(key@ == batch[i as int]);
            }
            let c = self.read_consensus_count(key);
            let newc = if c < u32::MAX {
                c + 1
            } else {
                c
            };
            if !contains_bytes(&distinct_list, key) {
                let ghost d_before = distinct_list.deep_view();
                distinct_list.push(bytes_clone(key));
                proof {
                    assert(distinct_list.deep_view() =~~= d_before.push(batch[i as int]));
                }
            }
            self.write_consensus_count(key, newc);
            proof {
                lemma_bump_all_push(m0, batch.take(i as int), batch[i as int]);
                assert(batch.take(i as int).push(batch[i as int]) =~= batch.take(i + 1));
                assert(self.counts() =~= bump(bump_all(m0, batch.take(i as int)), batch[
                    i as int
                ]));
            }
            i = i + 1;
        }
        proof {
            assert(batch.take(batch.len() as int) =~= batch);
        }
        let ghost m2 = self.counts();
        let ghost d = distinct_list.deep_view();
        let mut w: usize = 0;
        while w < distinct_list.len()
            invariant
                self.wf(),
                self.counts() == m2,
                w <= d.len(),
                d == distinct_list.deep_view(),
                data_list@.len() > 0,
                m2 == bump_all(old(self).counts(), data_list.deep_view()),
                d == spec_distinct(data_list.deep_view()),
                forall|j: int| 0 <= j < w ==> m2[#[trigger] d[j]] < threshold,
            decreases d.len() - w,
        {
            let key = &distinct_list[w];
            proof {
                assert(key@ == d[w as int]);
            }
            let c = self.read_consensus_count(key);
            if c >= threshold {
                proof {
                    lemma_winner_skip(m2, d, threshold, 0, w as int);
                }
                return Some(bytes_clone(key));
            }
            w = w + 1;
        }
        proof {
            lemma_winner_skip(m2, d, threshold, 0, d.len() as int);
        }
        None
    }
}

/// True when some element of the list holds the same bytes as the key.
fn contains_bytes(v: &Vec<Vec<u8>>, key: &Vec<u8>) -> (r: bool)
    ensures
        r <==> v.deep_view().contains(key@),
{
    let mut i: usize = 0;
    while i < v.len()
        invariant
            i <= v@.len(),
            forall|j: int| 0 <= j < i ==> (#[trigger] v@[j]@) != key@,
        decreases v@.len() - i,
    {
        if bytes_eq(&v[i], key) {
            proof {
                assert(v.deep_view()[i as int] == key@);
            }
            return true;
        }
        i = i + 1;
    }
    proof {
        assert forall|j: int| 0 <= j < v.deep_view().len() implies (#[trigger] v.deep_view()[j])
            != key@ by {
            assert(v.deep_view()[j] == v@[j]@);
        }
    }
    false
}

/// Voting for the keys of a batch and then once more for `x` is voting for
/// the keys of the batch with `x` appended.
pub proof fn lemma_bump_all_push(m: Map<Seq<u8>, u32>, s: Seq<Seq<u8>>, x: Seq<u8>)
    ensures
        bump_all(m, s.push(x)) == bump(bump_all(m, s), x),
    decreases s.len(),
{
    if s.len() == 0 {
        assert(s.push(x)[0] == x);
        assert(s.push(x).drop_first() =~= Seq::<Seq<u8>>::empty());
        assert(bump_all(bump(m, x), Seq::<Seq<u8>>::empty()) == bump(m, x));
    } else {
        assert(s.push(x)[0] == s[0]);
        assert(s.push(x).drop_first() =~= s.drop_first().push(x));
        lemma_bump_all_push(bump(m, s[0]), s.drop_first(), x);
    }
}

/// Scanning for a winner from `i` equals scanning from `w` when no key in
/// between qualifies.
pub proof fn lemma_winner_skip(
    m: Map<Seq<u8>, u32>,
    d: Seq<Seq<u8>>,
    threshold: u32,
    i: int,
    w: int,
)
    requires
        0 <= i <= w <= d.len(),
        forall|j: int| i <= j < w ==> m[#[trigger] d[j]] < threshold,
    ensures
        first_winner_from(m, d, threshold, i) == first_winner_from(m, d, threshold, w),
    decreases w - i,
{
    if i < w {
        lemma_winner_skip(m, d, threshold, i + 1, w);
    }
}

/// A winning key is one of the scanned keys.
pub proof fn lemma_winner_member(m: Map<Seq<u8>, u32>, d: Seq<Seq<u8>>, threshold: u32, i: int)
    requires
        0 <= i <= d.len(),
    ensures
        first_winner_from(m, d, threshold, i) matches Some(w) ==> d.contains(w),
    decreases d.len() - i,
{
    if i < d.len() {
        if m[d[i]] >= threshold {
        } else {
            lemma_winner_member(m, d, threshold, i + 1);
        }
    }
}

/// Every distinct key came from the batch.
pub proof fn lemma_distinct_subset(batch: Seq<Seq<u8>>, i: int)
    requires
        0 <= i <= batch.len(),
    ensures
        forall|x: Seq<u8>| distinct_prefix(batch, i).contains(x) ==> batch.contains(x),
    decreases i,
{
    if i > 0 {
        lemma_distinct_subset(batch, i - 1);
        let d = distinct_prefix(batch, i - 1);
        if !d.contains(batch[i - 1]) {
            assert forall|x: Seq<u8>| distinct_prefix(batch, i).contains(x) implies batch.contains(
                x,
            ) by {
                let dp = d.push(batch[i - 1]);
                if x == batch[i - 1] {
                    assert(batch[i - 1] == x);
                } else {
                    let j = choose|j: int| 0 <= j < dp.len() && dp[j] == x;
                    assert(dp[j] == x && j < d.len());
                    assert(d.contains(x));
                }
            }
        }
    }
}

/// Tallying a batch of identical keys raises that key's count by the
/// batch's length.
pub proof fn lemma_bump_all_constant(m: Map<Seq<u8>, u32>, batch: Seq<Seq<u8>>, k: Seq<u8>)
    requires
        forall|j: int| 0 <= j < batch.len() ==> (#[trigger] batch[j]) == k,
        m[k] + batch.len() <= u32::MAX,
    ensures
        bump_all(m, batch)[k] == m[k] + batch.len(),
    decreases batch.len(),
{
    if batch.len() > 0 {
        assert(batch[0] == k);
        assert(forall|j: int|
            0 <= j < batch.drop_first().len() ==> (#[trigger] batch.drop_first()[j]) == batch[
                j + 1
            ] && batch.drop_first()[j] == k);
        lemma_bump_all_constant(bump(m, k), batch.drop_first(), k);
    }
}

/// A batch of identical keys has exactly one distinct key.
pub proof fn lemma_distinct_constant(batch: Seq<Seq<u8>>, k: Seq<u8>, i: int)
    requires
        1 <= i <= batch.len(),
        forall|j: int| 0 <= j < batch.len() ==> (#[trigger] batch[j]) == k,
    ensures
        distinct_prefix(batch, i) == seq![k],
    decreases i,
{
    if i == 1 {
        assert(distinct_prefix(batch, 0) =~= Seq::<Seq<u8>>::empty());
        assert(!Seq::<Seq<u8>>::empty().contains(k));
        assert(distinct_prefix(batch, 1) =~= seq![k]);
    } else {
        lemma_distinct_constant(batch, k, i - 1);
        assert(seq![k][0] == k);
        assert(seq![k].contains(k));
    }
}

/// How many votes a batch casts for one key.
pub open spec fn key_votes(batch: Seq<Seq<u8>>, k: Seq<u8>) -> int
    decreases batch.len(),
{
    if batch.len() == 0 {
        0
    } else {
        (if batch[0] == k {
            1int
        } else {
            0int
        }) + key_votes(batch.drop_first(), k)
    }
}

/// A batch casts at most one vote per entry.
pub proof fn lemma_key_votes_bound(batch: Seq<Seq<u8>>, k: Seq<u8>)
    ensures
        0 <= key_votes(batch, k) <= batch.len(),
    decreases batch.len(),
{
    if batch.len() > 0 {
        lemma_key_votes_bound(batch.drop_first(), k);
    }
}

/// An entry holding a different key costs the key one possible vote.
pub proof fn lemma_key_votes_strict(batch: Seq<Seq<u8>>, k: Seq<u8>, j: int)
    requires
        0 <= j < batch.len(),
        batch[j] != k,
    ensures
        key_votes(batch, k) <= batch.len() - 1,
    decreases batch.len(),
{
    if j == 0 {
        lemma_key_votes_bound(batch.drop_first(), k);
    } else {
        assert(batch.drop_first()[j - 1] == batch[j]);
        lemma_key_votes_strict(batch.drop_first(), k, j - 1);
    }
}

/// Tallying a batch raises a key's count by at most its votes in the batch.
pub proof fn lemma_bump_all_votes(m: Map<Seq<u8>, u32>, batch: Seq<Seq<u8>>, k: Seq<u8>)
    ensures
        bump_all(m, batch)[k] <= m[k] + key_votes(batch, k),
    decreases batch.len(),
{
    if batch.len() > 0 {
        lemma_bump_all_votes(bump(m, batch[0]), batch.drop_first(), k);
    }
}

/// Between clears, counts only ever increase: tallying any batch leaves no
/// key's count lower than before.
pub proof fn lemma_counts_monotone(m: Map<Seq<u8>, u32>, batch: Seq<Seq<u8>>, k: Seq<u8>)
    ensures
        bump_all(m, batch)[k] >= m[k],
    decreases batch.len(),
{
    if batch.len() > 0 {
        lemma_counts_monotone(bump(m, batch[0]), batch.drop_first(), k);
    }
}

/// A key first reaches a qualifying state exactly when its cumulative count
/// crosses the threshold: after one more vote for `k`, `k` wins a
/// single-key batch if and only if its previous count was at least
/// `threshold - 1`, that is, the count moved from `threshold - 1` to
/// `threshold` or beyond.
pub proof fn lemma_quorum_transition(m: Map<Seq<u8>, u32>, k: Seq<u8>, threshold: u32)
    requires
        threshold >= 1,
        m[k] < u32::MAX,
    ensures
        bump_all(m, seq![k])[k] == m[k] + 1,
        spec_winner(bump_all(m, seq![k]), spec_distinct(seq![k]), threshold) == (if m[k] + 1
            >= threshold {
            Some(k)
        } else {
            None::<Seq<u8>>
        }),
{
    let s = seq![k];
    assert(s[0] == k);
    assert(s.drop_first() =~= Seq::<Seq<u8>>::empty());
    assert(bump_all(bump(m, k), Seq::<Seq<u8>>::empty()) == bump(m, k));
    assert(distinct_prefix(s, 0) =~= Seq::<Seq<u8>>::empty());
    assert(!Seq::<Seq<u8>>::empty().contains(k));
    assert(spec_distinct(s) =~= seq![k]);
    assert(first_winner_from(bump_all(m, s), spec_distinct(s), threshold, 1) is None);
}

/// Among several simultaneously qualifying keys, the first in
/// first-occurrence order wins.
pub proof fn lemma_first_qualifier_wins(
    m: Map<Seq<u8>, u32>,
    d: Seq<Seq<u8>>,
    threshold: u32,
    i: int,
)
    requires
        0 <= i < d.len(),
        m[d[i]] >= threshold,
        forall|j: int| 0 <= j < i ==> m[#[trigger] d[j]] < threshold,
    ensures
        spec_winner(m, d, threshold) == Some(d[i]),
{
    lemma_winner_skip(m, d, threshold, 0, i);
}

proof fn lemma_count_absent_zero(es: Seq<CountEntry>, k: Seq<u8>, i: int)
    requires
        0 <= i <= es.len(),
        !count_has(es, k, i),
    ensures
        count_from(es, k, i) == 0,
    decreases es.len() - i,
{
    if i < es.len() {
        lemma_count_absent_zero(es, k, i + 1);
    }
}

proof fn lemma_find_key_absent(es: Seq<CountEntry>, k: Seq<u8>, i: int)
    requires
        0 <= i <= es.len(),
        forall|j: int| 0 <= j < es.len() ==> (#[trigger] es[j].key@) != k,
    ensures
        !count_has(es, k, i),
    decreases es.len() - i,
{
    if i < es.len() {
        lemma_find_key_absent(es, k, i + 1);
    }
}

/// Vote splitting blocks quorum: when a batch the size of the threshold
/// contains two differing keys (a semantically equal but byte-differing
/// serialization splits the vote this way) and every key in it starts the
/// round untallied, no key can gather threshold votes, so no winner is
/// found.
pub proof fn lemma_split_vote_blocks_quorum(
    m: Map<Seq<u8>, u32>,
    batch: Seq<Seq<u8>>,
    threshold: u32,
    j1: int,
    j2: int,
)
    requires
        batch.len() == threshold as int,
        0 <= j1 < batch.len(),
        0 <= j2 < batch.len(),
        batch[j1] != batch[j2],
        forall|k: Seq<u8>| batch.contains(k) ==> m[k] == 0,
    ensures
        spec_winner(bump_all(m, batch), spec_distinct(batch), threshold) is None,
{
    let t2 = bump_all(m, batch);
    let d = spec_distinct(batch);
    lemma_distinct_subset(batch, batch.len() as int);
    assert forall|i: int| 0 <= i < d.len() implies t2[#[trigger] d[i]] < threshold by {
        assert(d.contains(d[i]));
        assert(batch.contains(d[i]));
        lemma_bump_all_votes(m, batch, d[i]);
        if batch[j1] != d[i] {
            lemma_key_votes_strict(batch, d[i], j1);
        } else {
            lemma_key_votes_strict(batch, d[i], j2);
        }
    }
    lemma_winner_skip(t2, d, threshold, 0, d.len() as int);
}

} // verus!
