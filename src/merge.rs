//! Merging many sorted sources into one sorted stream without duplicate keys.
//! On a key held by several sources, the source with the lowest index wins.
use vstd::prelude::*;

use crate::key::{
    compare_keys, key_le, key_lt, lemma_key_lt_asymmetric, lemma_key_lt_irreflexive,
    lemma_key_lt_total, lemma_key_lt_transitive, strictly_ascending,
};
use crate::table::keys_of;
use crate::LsmError;

verus! {

/// A sorted stream of key-value entries, read one entry at a time.
pub trait StorageIterator {
    /// The entries not yet passed, the current one first.
    spec fn remaining(&self) -> Seq<(Seq<u8>, Seq<u8>)>;

    /// The source's internal state is consistent.
    spec fn inv(&self) -> bool;

    fn key(&self) -> (r: &[u8])
        requires
            self.inv(),
            self.remaining().len() > 0,
        ensures
            r@ == self.remaining()[0].0,
    ;

    fn value(&self) -> (r: &[u8])
        requires
            self.inv(),
            self.remaining().len() > 0,
        ensures
            r@ == self.remaining()[0].1,
    ;

    fn is_valid(&self) -> (r: bool)
        requires
            self.inv(),
        ensures
            r == (self.remaining().len() > 0),
    ;

    /// Moves past the current entry; a failure is reported as `Source` and
    /// leaves the source unusable.
    fn next(&mut self) -> (r: Result<(), LsmError>)
        requires
            old(self).inv(),
            old(self).remaining().len() > 0,
        ensures
            r is Ok ==> final(self).inv(),
            r is Ok ==> final(self).remaining() == old(self).remaining().drop_first(),
            r is Err ==> r == Err::<(), LsmError>(LsmError::Source),
    ;
}

/// A source over entries held in memory.
pub struct VecIterator {
    entries: Vec<(Vec<u8>, Vec<u8>)>,
    pos: usize,
}

pub open spec fn entries_view(es: Seq<(Vec<u8>, Vec<u8>)>) -> Seq<(Seq<u8>, Seq<u8>)> {
    es.map_values(|e: (Vec<u8>, Vec<u8>)| (e.0@, e.1@))
}

impl VecIterator {
    /// A source positioned at the first of `entries`.
    pub fn new(entries: Vec<(Vec<u8>, Vec<u8>)>) -> (r: Self)
        ensures
            r.inv(),
            r.remaining() == entries_view(entries@),
    {
        let r = VecIterator { entries, pos: 0 };
        assert(r.entries@.skip(0) =~= r.entries@);
        r
    }
}

impl StorageIterator for VecIterator {
    closed spec fn remaining(&self) -> Seq<(Seq<u8>, Seq<u8>)> {
        if self.pos <= self.entries@.len() {
            entries_view(self.entries@.skip(self.pos as int))
        } else {
            Seq::empty()
        }
    }

    closed spec fn inv(&self) -> bool {
        true
    }

    fn key(&self) -> (r: &[u8]) {
        self.entries[self.pos].0.as_slice()
    }

    fn value(&self) -> (r: &[u8]) {
        self.entries[self.pos].1.as_slice()
    }

    fn is_valid(&self) -> (r: bool) {
        self.pos < self.entries.len()
    }

    fn next(&mut self) -> (r: Result<(), LsmError>) {
        assert(self.remaining().len() > 0);
        if self.pos < self.entries.len() {
            self.pos = self.pos + 1;
        }
        assert(self.entries@.skip(self.pos as int) =~= old(self).entries@.skip(old(self).pos as int).drop_first());
        Ok(())
    }
}

/// The keys of the source ascend strictly.
pub open spec fn sorted_source(s: Seq<(Seq<u8>, Seq<u8>)>) -> bool {
    strictly_ascending(keys_of(s))
}

/// Every live source has an entry left and is sorted.
pub open spec fn sources_wf(v: Seq<Option<Seq<(Seq<u8>, Seq<u8>)>>>) -> bool {
    forall|i: int|
        0 <= i < v.len() && (#[trigger] v[i]) is Some ==> v[i].unwrap().len() > 0 && sorted_source(
            v[i].unwrap(),
        )
}

pub open spec fn head_key(v: Seq<Option<Seq<(Seq<u8>, Seq<u8>)>>>, i: int) -> Seq<u8> {
    v[i].unwrap()[0].0
}

/// Source `i` comes before source `j`: a smaller current key, or the same
/// key and a lower index.
pub open spec fn precedes(v: Seq<Option<Seq<(Seq<u8>, Seq<u8>)>>>, i: int, j: int) -> bool {
    key_lt(head_key(v, i), head_key(v, j)) || (head_key(v, i) == head_key(v, j) && i < j)
}

/// Source `c` is live and comes before every other live source.
pub open spec fn is_min(v: Seq<Option<Seq<(Seq<u8>, Seq<u8>)>>>, c: int) -> bool {
    &&& 0 <= c < v.len()
    &&& v[c] is Some
    &&& forall|j: int| 0 <= j < v.len() && j != c && (#[trigger] v[j]) is Some ==> precedes(v, c, j)
}

/// Some entry of `s` has the key `k`.
pub open spec fn has_key(s: Seq<(Seq<u8>, Seq<u8>)>, k: Seq<u8>) -> bool {
    exists|p: int| 0 <= p < s.len() && (#[trigger] s[p]).0 == k
}

/// The keys that the live sources still hold.
pub open spec fn pending_keys(v: Seq<Option<Seq<(Seq<u8>, Seq<u8>)>>>) -> Set<Seq<u8>> {
    Set::new(
        |k: Seq<u8>|
            exists|i: int| 0 <= i < v.len() && (#[trigger] v[i]) is Some && has_key(v[i].unwrap(), k),
    )
}

/// A source after the key `k` is emitted: moved past `k` if that is its
/// current key, and dropped if that leaves it empty.
pub open spec fn advance_past(s: Option<Seq<(Seq<u8>, Seq<u8>)>>, k: Seq<u8>) -> Option<
    Seq<(Seq<u8>, Seq<u8>)>,
> {
    match s {
        Some(r) => if r.len() > 0 && r[0].0 == k {
            if r.len() > 1 {
                Some(r.drop_first())
            } else {
                None
            }
        } else {
            s
        },
        None => None,
    }
}

/// All sources after the key `k` is emitted.
pub open spec fn step(v: Seq<Option<Seq<(Seq<u8>, Seq<u8>)>>>, k: Seq<u8>) -> Seq<
    Option<Seq<(Seq<u8>, Seq<u8>)>>,
> {
    v.map_values(|s: Option<Seq<(Seq<u8>, Seq<u8>)>>| advance_past(s, k))
}

/// The source view of a slot.
pub open spec fn slot_view<I: StorageIterator>(s: Option<Box<I>>) -> Option<Seq<(Seq<u8>, Seq<u8>)>> {
    match s {
        Some(b) => Some(b.remaining()),
        None => None,
    }
}

/// The source view of each slot.
pub open spec fn slots_view<I: StorageIterator>(slots: Seq<Option<Box<I>>>) -> Seq<Option<Seq<(Seq<u8>, Seq<u8>)>>> {
    slots.map_values(|s: Option<Box<I>>| slot_view(s))
}

/// Every source held in a slot is in a consistent state.
pub open spec fn slots_inv<I: StorageIterator>(slots: Seq<Option<Box<I>>>) -> bool {
    forall|i: int| 0 <= i < slots.len() && (#[trigger] slots[i]) is Some ==> slots[i].unwrap().inv()
}

proof fn lemma_sorted_tail(s: Seq<(Seq<u8>, Seq<u8>)>)
    requires
        sorted_source(s),
        s.len() > 0,
    ensures
        sorted_source(s.drop_first()),
        forall|p: int| 0 < p < s.len() ==> key_lt(s[0].0, #[trigger] s[p].0),
{
    let ks = keys_of(s);
    assert(keys_of(s.drop_first()) =~= ks.drop_first());
    assert forall|p: int| 0 < p < s.len() implies key_lt(s[0].0, #[trigger] s[p].0) by {
        assert(ks[0] == s[0].0 && ks[p] == s[p].0);
    }
}

/// The current entry of the merge is the smallest key still pending, and no
/// source of lower index than the current one holds that key.
pub proof fn lemma_merge_head_is_min(v: Seq<Option<Seq<(Seq<u8>, Seq<u8>)>>>, c: int)
    requires
        sources_wf(v),
        is_min(v, c),
    ensures
        pending_keys(v).contains(head_key(v, c)),
        forall|k: Seq<u8>| #[trigger] pending_keys(v).contains(k) ==> key_le(head_key(v, c), k),
        forall|j: int|
            0 <= j < v.len() && (#[trigger] v[j]) is Some && has_key(v[j].unwrap(), head_key(v, c))
                ==> c <= j,
{
    let kc = head_key(v, c);
    assert(v[c].unwrap()[0].0 == kc);
    assert(has_key(v[c].unwrap(), kc));
    assert forall|k: Seq<u8>| #[trigger] pending_keys(v).contains(k) implies key_le(kc, k) by {
        let i = choose|i: int| 0 <= i < v.len() && (#[trigger] v[i]) is Some && has_key(v[i].unwrap(), k);
        let p = choose|p: int| 0 <= p < v[i].unwrap().len() && (#[trigger] v[i].unwrap()[p]).0 == k;
        lemma_sorted_tail(v[i].unwrap());
        if p > 0 && i != c {
            if key_lt(kc, head_key(v, i)) {
                lemma_key_lt_transitive(kc, head_key(v, i), k);
            }
        }
    }
    assert forall|j: int|
        0 <= j < v.len() && (#[trigger] v[j]) is Some && has_key(v[j].unwrap(), kc) implies c <= j by {
        if j < c {
            let p = choose|p: int| 0 <= p < v[j].unwrap().len() && (#[trigger] v[j].unwrap()[p]).0 == kc;
            assert(precedes(v, c, j));
            lemma_sorted_tail(v[j].unwrap());
            if p > 0 {
                lemma_key_lt_transitive(kc, head_key(v, j), kc);
            }
            lemma_key_lt_irreflexive(kc);
        }
    }
}

/// Emitting the smallest key removes exactly that key from the pending keys,
/// and every source left live then has a current key above it.
pub proof fn lemma_step_pending(v: Seq<Option<Seq<(Seq<u8>, Seq<u8>)>>>, c: int)
    requires
        sources_wf(v),
        is_min(v, c),
    ensures
        pending_keys(step(v, head_key(v, c))) == pending_keys(v).remove(head_key(v, c)),
        sources_wf(step(v, head_key(v, c))),
        forall|j: int|
            0 <= j < v.len() && (#[trigger] step(v, head_key(v, c))[j]) is Some ==> key_lt(
                head_key(v, c),
                head_key(step(v, head_key(v, c)), j),
            ),
{
    let k0 = head_key(v, c);
    let w = step(v, k0);
    // Every live source's keys are at or above its current key, which is at or above k0.
    assert forall|j: int| 0 <= j < v.len() && (#[trigger] v[j]) is Some implies key_le(k0, head_key(v, j)) by {
        if j != c {
            assert(precedes(v, c, j));
        }
    }
    assert forall|j: int| 0 <= j < w.len() && (#[trigger] w[j]) is Some implies w[j].unwrap().len() > 0
        && sorted_source(w[j].unwrap()) && key_lt(k0, head_key(w, j)) by {
        let r = v[j].unwrap();
        lemma_sorted_tail(r);
        if r[0].0 == k0 {
            assert(w[j] == Some(r.drop_first()));
            assert(r.drop_first()[0] == r[1]);
        } else {
            assert(w[j] == v[j]);
            assert(key_le(k0, head_key(v, j)));
        }
    }
    assert forall|k: Seq<u8>| pending_keys(w).contains(k) implies #[trigger] pending_keys(v).remove(k0).contains(k) by {
        let i = choose|i: int| 0 <= i < w.len() && (#[trigger] w[i]) is Some && has_key(w[i].unwrap(), k);
        let p = choose|p: int| 0 <= p < w[i].unwrap().len() && (#[trigger] w[i].unwrap()[p]).0 == k;
        let r = v[i].unwrap();
        lemma_sorted_tail(r);
        lemma_sorted_tail(w[i].unwrap());
        if r[0].0 == k0 {
            assert(w[i].unwrap()[p] == r[p + 1]);
            assert(has_key(r, k));
            lemma_key_lt_irreflexive(k0);
        } else {
            assert(w[i] == v[i]);
            assert(has_key(r, k));
            if p > 0 {
                lemma_key_lt_transitive(k0, head_key(w, i), k);
            }
            lemma_key_lt_irreflexive(k0);
        }
        assert(v[i] is Some);
    }
    assert forall|k: Seq<u8>| #[trigger] pending_keys(v).remove(k0).contains(k) implies pending_keys(w).contains(k) by {
        let i = choose|i: int| 0 <= i < v.len() && (#[trigger] v[i]) is Some && has_key(v[i].unwrap(), k);
        let p = choose|p: int| 0 <= p < v[i].unwrap().len() && (#[trigger] v[i].unwrap()[p]).0 == k;
        let r = v[i].unwrap();
        if r[0].0 == k0 {
            assert(p > 0);
            assert(w[i] == Some(r.drop_first()));
            assert(r.drop_first()[p - 1] == r[p]);
            assert(has_key(w[i].unwrap(), k));
        } else {
            assert(w[i] == v[i]);
        }
        assert(w[i] is Some);
    }
    assert(pending_keys(w) =~= pending_keys(v).remove(k0));
}

/// The number of entries a source still holds.
pub open spec fn slot_len(s: Option<Seq<(Seq<u8>, Seq<u8>)>>) -> nat {
    match s {
        Some(r) => r.len(),
        None => 0,
    }
}

/// The number of entries all sources still hold.
pub open spec fn total_len(v: Seq<Option<Seq<(Seq<u8>, Seq<u8>)>>>) -> nat
    decreases v.len(),
{
    if v.len() == 0 {
        0
    } else {
        total_len(v.drop_last()) + slot_len(v.last())
    }
}

/// The stream a merge of `v` emits in at most `fuel` steps: each step emits
/// the current entry of the source that comes first, then moves every source
/// past that key.
pub open spec fn merged_from(v: Seq<Option<Seq<(Seq<u8>, Seq<u8>)>>>, fuel: nat) -> Seq<
    (Seq<u8>, Seq<u8>),
>
    decreases fuel,
{
    if fuel > 0 && exists|c: int| is_min(v, c) {
        let c = choose|c: int| is_min(v, c);
        seq![v[c].unwrap()[0]] + merged_from(step(v, head_key(v, c)), (fuel - 1) as nat)
    } else {
        Seq::empty()
    }
}

/// The whole stream a merge of `v` emits; every step emits one entry, so
/// `total_len(v)` steps are enough.
pub open spec fn merged(v: Seq<Option<Seq<(Seq<u8>, Seq<u8>)>>>) -> Seq<(Seq<u8>, Seq<u8>)> {
    merged_from(v, total_len(v))
}

proof fn lemma_is_min_unique(v: Seq<Option<Seq<(Seq<u8>, Seq<u8>)>>>, a: int, b: int)
    requires
        is_min(v, a),
        is_min(v, b),
    ensures
        a == b,
{
    if a != b {
        assert(precedes(v, a, b) && precedes(v, b, a));
        lemma_key_lt_asymmetric(head_key(v, a), head_key(v, b));
        lemma_key_lt_irreflexive(head_key(v, a));
    }
}

proof fn lemma_total_len_at_least(v: Seq<Option<Seq<(Seq<u8>, Seq<u8>)>>>, i: int)
    requires
        0 <= i < v.len(),
    ensures
        slot_len(v[i]) <= total_len(v),
    decreases v.len(),
{
    if i < v.len() - 1 {
        assert(v.drop_last()[i] == v[i]);
        lemma_total_len_at_least(v.drop_last(), i);
    }
}

proof fn lemma_total_len_step(v: Seq<Option<Seq<(Seq<u8>, Seq<u8>)>>>, k: Seq<u8>, c: int)
    requires
        sources_wf(v),
        0 <= c < v.len(),
        v[c] is Some,
        head_key(v, c) == k,
    ensures
        total_len(step(v, k)) < total_len(v),
    decreases v.len(),
{
    lemma_total_len_step_le(v, k);
    let d = v.drop_last();
    assert(step(v, k).drop_last() =~= step(d, k));
    assert(sources_wf(d)) by {
        assert forall|i: int| 0 <= i < d.len() && (#[trigger] d[i]) is Some implies d[i].unwrap().len() > 0
            && sorted_source(d[i].unwrap()) by {
            assert(d[i] == v[i]);
        }
    }
    if c < v.len() - 1 {
        assert(d[c] == v[c]);
        lemma_total_len_step(d, k, c);
        assert(step(v, k).last() == advance_past(v.last(), k));
    } else {
        lemma_total_len_step_le(d, k);
        assert(step(v, k).last() == advance_past(v.last(), k));
    }
}

proof fn lemma_total_len_step_le(v: Seq<Option<Seq<(Seq<u8>, Seq<u8>)>>>, k: Seq<u8>)
    ensures
        total_len(step(v, k)) <= total_len(v),
    decreases v.len(),
{
    if v.len() > 0 {
        let d = v.drop_last();
        assert(step(v, k).drop_last() =~= step(d, k));
        assert(step(v, k).last() == advance_past(v.last(), k));
        lemma_total_len_step_le(d, k);
    }
}

proof fn lemma_merged_fuel(v: Seq<Option<Seq<(Seq<u8>, Seq<u8>)>>>, n: nat, m: nat)
    requires
        sources_wf(v),
        n >= total_len(v),
        m >= total_len(v),
    ensures
        merged_from(v, n) == merged_from(v, m),
    decreases n,
{
    if exists|c: int| is_min(v, c) {
        let c = choose|c: int| is_min(v, c);
        lemma_total_len_at_least(v, c);
        let k = head_key(v, c);
        lemma_total_len_step(v, k, c);
        lemma_step_pending(v, c);
        lemma_merged_fuel(step(v, k), (n - 1) as nat, (m - 1) as nat);
    }
}

/// Merges sorted sources into one sorted stream. Each key is emitted once,
/// with the value of the lowest-index source that holds it.
pub struct MergeIterator<I: StorageIterator> {
    /// One slot per source, by index; a source leaves its slot once exhausted.
    slots: Vec<Option<Box<I>>>,
    /// The slot holding the current entry.
    current: Option<usize>,
}

impl<I: StorageIterator> MergeIterator<I> {
    /// What each source still holds, by index; `None` once it is exhausted.
    pub closed spec fn sources(&self) -> Seq<Option<Seq<(Seq<u8>, Seq<u8>)>>> {
        slots_view(self.slots@)
    }

    /// The sources themselves, by index.
    pub closed spec fn slots_seq(&self) -> Seq<Option<Box<I>>> {
        self.slots@
    }

    /// The index of the source holding the current entry.
    pub closed spec fn head(&self) -> Option<int> {
        match self.current {
            Some(c) => Some(c as int),
            None => None,
        }
    }

    /// Live sources are sorted and not exhausted, and the current source comes
    /// before every other; with no current source, none is live.
    pub open spec fn wf(&self) -> bool {
        &&& slots_inv(self.slots_seq())
        &&& sources_wf(self.sources())
        &&& match self.head() {
            Some(c) => is_min(self.sources(), c),
            None => forall|i: int| 0 <= i < self.sources().len() ==> #[trigger] self.sources()[i] is None,
        }
    }

    /// The keys still to be emitted, the current one included.
    pub open spec fn pending(&self) -> Set<Seq<u8>> {
        pending_keys(self.sources())
    }

    /// The current entry, if any.
    pub open spec fn current_entry(&self) -> Option<(Seq<u8>, Seq<u8>)> {
        match self.head() {
            Some(c) => Some(self.sources()[c].unwrap()[0]),
            None => None,
        }
    }

    fn slot_key(slots: &Vec<Option<Box<I>>>, i: usize) -> (r: &[u8])
        requires
            i < slots@.len(),
            slots_inv(slots@),
            slots@[i as int] is Some,
            slot_view(slots@[i as int]).unwrap().len() > 0,
        ensures
            r@ == slot_view(slots@[i as int]).unwrap()[0].0,
    {
        match &slots[i] {
            Some(b) => b.key(),
            None => unreached(),
        }
    }

    /// The live source that comes before every other, if any is live.
    fn find_min(slots: &Vec<Option<Box<I>>>) -> (r: Option<usize>)
        requires
            slots_inv(slots@),
            sources_wf(slots_view(slots@)),
        ensures
            match r {
                Some(c) => is_min(slots_view(slots@), c as int),
                None => forall|i: int|
                    0 <= i < slots@.len() ==> #[trigger] slots_view(slots@)[i] is None,
            },
    {
        let ghost v = slots_view(slots@);
        let mut best: Option<usize> = None;
        let mut i: usize = 0;
        while i < slots.len()
            invariant
                v == slots_view(slots@),
                slots_inv(slots@),
                sources_wf(v),
                i <= slots@.len(),
                match best {
                    Some(b) => b < i && v[b as int] is Some && forall|j: int|
                        0 <= j < i && j != b && (#[trigger] v[j]) is Some ==> precedes(v, b as int, j),
                    None => forall|j: int| 0 <= j < i ==> #[trigger] v[j] is None,
                },
            decreases slots@.len() - i,
        {
            if slots[i].is_some() {
                assert(v[i as int] is Some);
                match best {
                    None => {
                        best = Some(i);
                    },
                    Some(b) => {
                        assert(v[b as int] is Some);
                        let ki = Self::slot_key(slots, i);
                        let kb = Self::slot_key(slots, b);
                        if compare_keys(ki, kb) < 0 {
                            proof {
                                assert forall|j: int| 0 <= j < i + 1 && j != i && (#[trigger] v[j]) is Some implies precedes(v, i as int, j) by {
                                    if j != b {
                                        assert(precedes(v, b as int, j));
                                        if key_lt(head_key(v, b as int), head_key(v, j)) {
                                            lemma_key_lt_transitive(ki@, kb@, head_key(v, j));
                                        }
                                    }
                                }
                            }
                            best = Some(i);
                        } else {
                            proof {
                                if ki@ != kb@ {
                                    lemma_key_lt_total(ki@, kb@);
                                }
                            }
                        }
                    },
                }
            }
            i = i + 1;
        }
        best
    }

    /// A merge of `iters`; the source at index 0 wins on equal keys. Sources
    /// that are already exhausted are dropped.
    pub fn create(iters: Vec<Box<I>>) -> (r: Self)
        requires
            forall|i: int| 0 <= i < iters@.len() ==> sorted_source(#[trigger] iters@[i].remaining()),
            forall|i: int| 0 <= i < iters@.len() ==> (#[trigger] iters@[i]).inv(),
        ensures
            r.wf(),
            r.sources().len() == iters@.len(),
            forall|i: int|
                0 <= i < iters@.len() ==> #[trigger] r.sources()[i] == if iters@[i].remaining().len()
                    > 0 {
                    Some(iters@[i].remaining())
                } else {
                    None
                },
    {
        let ghost input = iters@;
        let mut rest = iters;
        let mut slots: Vec<Option<Box<I>>> = Vec::new();
        let ghost n = input.len();
        while rest.len() > 0
            invariant
                n == input.len(),
                slots@.len() + rest@.len() == n,
                rest@ == input.skip(slots@.len() as int),
                forall|i: int| 0 <= i < n ==> sorted_source(#[trigger] input[i].remaining()),
                forall|i: int| 0 <= i < n ==> (#[trigger] input[i]).inv(),
                slots_inv(slots@),
                forall|i: int|
                    0 <= i < slots@.len() ==> #[trigger] slot_view(slots@[i]) == if input[i].remaining().len() > 0 {
                        Some(input[i].remaining())
                    } else {
                        None
                    },
            decreases rest@.len(),
        {
            let it = rest.remove(0);
            assert(it == input[slots@.len() as int]);
            if it.is_valid() {
                slots.push(Some(it));
            } else {
                slots.push(None);
            }
            assert(rest@ =~= input.skip(slots@.len() as int));
        }
        let ghost v = slots_view(slots@);
        assert forall|i: int| 0 <= i < v.len() && (#[trigger] v[i]) is Some implies v[i].unwrap().len() > 0
            && sorted_source(v[i].unwrap()) by {
            assert(slot_view(slots@[i]) == v[i]);
        }
        let current = Self::find_min(&slots);
        let r = MergeIterator { slots, current };
        assert forall|i: int| 0 <= i < input.len() implies #[trigger] r.sources()[i] == if input[i].remaining().len() > 0 {
            Some(input[i].remaining())
        } else {
            None
        } by {
            assert(slot_view(slots@[i]) == r.sources()[i]);
        }
        r
    }

    /// Emits the current entry and moves on: every source whose current key
    /// is the emitted key moves past it, exhausted sources are dropped, and
    /// the source that now comes first becomes current. A failing source ends
    /// the merge: its error is returned and the iterator stays invalid.
    pub fn next(&mut self) -> (r: Result<(), LsmError>)
        requires
            old(self).wf(),
        ensures
            final(self).wf(),
            old(self).current_entry() is None ==> r is Ok && final(self).sources() == old(
                self,
            ).sources() && final(self).current_entry() is None,
            r is Err ==> final(self).current_entry() is None && final(self).sources().len() == 0,
            r is Err ==> r == Err::<(), LsmError>(LsmError::Source),
            r is Ok && old(self).current_entry() is Some ==> {
                let k = old(self).current_entry().unwrap().0;
                &&& final(self).sources() == step(old(self).sources(), k)
                &&& final(self).pending() == old(self).pending().remove(k)
                &&& final(self).current_entry() matches Some(e) ==> key_lt(k, e.0)
            },
    {
        let c = match self.current {
            Some(c) => c,
            None => {
                return Ok(());
            },
        };
        let ghost v0 = self.sources();
        let ghost k0 = head_key(v0, c as int);
        proof {
            lemma_step_pending(v0, c as int);
        }
        let n = self.slots.len();
        let mut i: usize = 0;
        while i < n
            invariant
                n == self.slots@.len(),
                slots_inv(self.slots@),
                v0 == old(self).sources(),
                old(self).head() == Some(c as int),
                v0.len() == n,
                c < n,
                self.current == Some(c),
                sources_wf(v0),
                is_min(v0, c as int),
                k0 == head_key(v0, c as int),
                i <= n,
                slots_view(self.slots@)[c as int] == v0[c as int],
                forall|j: int|
                    0 <= j < n && j != c ==> #[trigger] slots_view(self.slots@)[j] == if j < i {
                        advance_past(v0[j], k0)
                    } else {
                        v0[j]
                    },
            decreases n - i,
        {
            if i != c {
                let ghost before = self.slots@;
                assert(slots_view(before)[i as int] == slot_view(before[i as int]));
                let mut taken: Option<Box<I>> = None;
                self.slots.set_and_swap(i, &mut taken);
                assert(slot_view(taken) == v0[i as int]);
                match taken {
                    Some(mut src) => {
                        assert(slots_view(self.slots@)[c as int] == v0[c as int]);
                        let ck = Self::slot_key(&self.slots, c);
                        if compare_keys(src.key(), ck) == 0 {
                            match src.next() {
                                Ok(()) => {},
                                Err(e) => {
                                    self.slots = Vec::new();
                                    self.current = None;
                                    return Err(e);
                                },
                            }
                            if src.is_valid() {
                                self.slots.set(i, Some(src));
                            }
                        } else {
                            self.slots.set(i, Some(src));
                        }
                    },
                    None => {},
                }
                assert forall|j: int| 0 <= j < n && j != i implies #[trigger] slots_view(self.slots@)[j] == slots_view(before)[j] by {
                    assert(self.slots@[j] == before[j]);
                }
            }
            i = i + 1;
        }
        let ghost before = self.slots@;
        assert(slots_view(before)[c as int] == slot_view(before[c as int]));
        let mut taken: Option<Box<I>> = None;
        self.slots.set_and_swap(c, &mut taken);
        assert(slot_view(taken) == v0[c as int]);
        match taken {
            Some(mut src) => {
                match src.next() {
                    Ok(()) => {},
                    Err(e) => {
                        self.slots = Vec::new();
                        self.current = None;
                        return Err(e);
                    },
                }
                if src.is_valid() {
                    self.slots.set(c, Some(src));
                }
            },
            None => {},
        }
        assert forall|j: int| 0 <= j < n && j != c implies #[trigger] slots_view(self.slots@)[j] == slots_view(before)[j] by {
            assert(self.slots@[j] == before[j]);
        }
        assert(slots_view(self.slots@) =~= step(v0, k0));
        self.current = Self::find_min(&self.slots);
        Ok(())
    }

    /// The current key is the smallest key still pending, and the current
    /// value comes from the lowest-index source that holds that key.
    pub proof fn lemma_current_is_smallest(&self)
        requires
            self.wf(),
            self.current_entry() is Some,
        ensures
            self.pending().contains(self.current_entry().unwrap().0),
            forall|k: Seq<u8>| #[trigger]
                self.pending().contains(k) ==> key_le(self.current_entry().unwrap().0, k),
            forall|j: int|
                0 <= j < self.sources().len() && (#[trigger] self.sources()[j]) is Some && has_key(
                    self.sources()[j].unwrap(),
                    self.current_entry().unwrap().0,
                ) ==> self.head().unwrap() <= j,
            self.current_entry().unwrap() == self.sources()[self.head().unwrap()].unwrap()[0],
    {
        lemma_merge_head_is_min(self.sources(), self.head().unwrap());
    }

    /// The stream still to come is the merged stream of the sources; its
    /// first entry is the current one.
    proof fn lemma_remaining_head(&self)
        requires
            self.wf(),
        ensures
            (merged(self.sources()).len() > 0) == (self.current_entry() is Some),
            self.current_entry() is Some ==> merged(self.sources())[0] == self.current_entry().unwrap(),
            self.current_entry() is Some ==> merged(self.sources()).drop_first() == merged(
                step(self.sources(), self.current_entry().unwrap().0),
            ),
    {
        let v = self.sources();
        match self.head() {
            Some(c) => {
                lemma_total_len_at_least(v, c);
                let c2 = choose|c2: int| is_min(v, c2);
                lemma_is_min_unique(v, c, c2);
                let k = head_key(v, c);
                lemma_total_len_step(v, k, c);
                lemma_step_pending(v, c);
                lemma_merged_fuel(step(v, k), (total_len(v) - 1) as nat, total_len(step(v, k)));
                assert(merged(v).drop_first() =~= merged_from(step(v, k), (total_len(v) - 1) as nat));
            },
            None => {
                if exists|c: int| is_min(v, c) {
                    let c = choose|c: int| is_min(v, c);
                    assert(v[c] is None);
                }
            },
        }
    }

    /// A merge with no live source has no current entry and nothing pending.
    pub proof fn lemma_no_live_source_is_terminal(&self)
        requires
            self.wf(),
            forall|i: int| 0 <= i < self.sources().len() ==> #[trigger] self.sources()[i] is None,
        ensures
            self.current_entry() is None,
            self.pending() == Set::<Seq<u8>>::empty(),
    {
        assert(self.pending() =~= Set::<Seq<u8>>::empty());
    }

    /// True while an entry is current.
    pub fn is_valid(&self) -> (r: bool)
        requires
            self.wf(),
        ensures
            r == self.current_entry() is Some,
    {
        self.current.is_some()
    }

    /// The current key. Fails with `InvariantViolation` once every source is exhausted.
    pub fn key(&self) -> (r: Result<&[u8], LsmError>)
        requires
            self.wf(),
        ensures
            r is Ok <==> self.current_entry() is Some,
            r matches Ok(k) ==> k@ == self.current_entry().unwrap().0,
            r is Err ==> r == Err::<&[u8], LsmError>(LsmError::InvariantViolation),
    {
        match self.current {
            Some(c) => {
                assert(self.sources()[c as int] == slot_view(self.slots@[c as int]));
                Ok(Self::slot_key(&self.slots, c))
            },
            None => Err(LsmError::InvariantViolation),
        }
    }

    /// The current value. Fails with `InvariantViolation` once every source is exhausted.
    pub fn value(&self) -> (r: Result<&[u8], LsmError>)
        requires
            self.wf(),
        ensures
            r is Ok <==> self.current_entry() is Some,
            r matches Ok(v) ==> v@ == self.current_entry().unwrap().1,
            r is Err ==> r == Err::<&[u8], LsmError>(LsmError::InvariantViolation),
    {
        match self.current {
            Some(c) => {
                assert(self.sources()[c as int] == slot_view(self.slots@[c as int]));
                match &self.slots[c] {
                    Some(b) => Ok(b.value()),
                    None => unreached(),
                }
            },
            None => Err(LsmError::InvariantViolation),
        }
    }
}

impl<I: StorageIterator> StorageIterator for MergeIterator<I> {
    closed spec fn remaining(&self) -> Seq<(Seq<u8>, Seq<u8>)> {
        merged(self.sources())
    }

    closed spec fn inv(&self) -> bool {
        self.wf()
    }

    fn key(&self) -> (r: &[u8]) {
        proof {
            self.lemma_remaining_head();
        }
        match MergeIterator::key(self) {
            Ok(k) => k,
            Err(_) => unreached(),
        }
    }

    fn value(&self) -> (r: &[u8]) {
        proof {
            self.lemma_remaining_head();
        }
        match MergeIterator::value(self) {
            Ok(v) => v,
            Err(_) => unreached(),
        }
    }

    fn is_valid(&self) -> (r: bool) {
        proof {
            self.lemma_remaining_head();
        }
        MergeIterator::is_valid(self)
    }

    fn next(&mut self) -> (r: Result<(), LsmError>) {
        proof {
            self.lemma_remaining_head();
        }
        let r = MergeIterator::next(self);
        r
    }
}

} // verus!
