//! A map keyed by text that keeps its entries in the order of their keys.

use vstd::prelude::*;

use crate::text;

verus! {

/// Values that can be copied without changing what they stand for.
pub trait Duplicate: View + Sized {
    fn duplicate(&self) -> (copy: Self)
        ensures
            copy@ == self@,
    ;
}

impl Duplicate for String {
    fn duplicate(&self) -> (copy: Self) {
        self.clone()
    }
}

/// The keys come in strictly increasing order.
pub open spec fn increasing(keys: Seq<Seq<char>>) -> bool {
    forall|i: int, j: int| 0 <= i < j < keys.len() ==> text::text_lt(#[trigger] keys[i], #[trigger] keys[j])
}

/// `k` is in `s` and nothing in `s` comes before it.
pub open spec fn is_least(s: Set<Seq<char>>, k: Seq<char>) -> bool {
    s.contains(k) && forall|j: Seq<char>| #[trigger] s.contains(j) ==> text::text_le(k, j)
}

/// The first text of `s`, where `s` has one.
pub open spec fn least(s: Set<Seq<char>>) -> Seq<char> {
    choose|k: Seq<char>| is_least(s, k)
}

/// `k` is in `s` and nothing in `s` comes after it.
pub open spec fn is_greatest(s: Set<Seq<char>>, k: Seq<char>) -> bool {
    s.contains(k) && forall|j: Seq<char>| #[trigger] s.contains(j) ==> text::text_le(j, k)
}

/// The last text of `s`, where `s` has one.
pub open spec fn greatest(s: Set<Seq<char>>) -> Seq<char> {
    choose|k: Seq<char>| is_greatest(s, k)
}

pub proof fn lemma_least_unique(s: Set<Seq<char>>, k: Seq<char>)
    requires
        is_least(s, k),
    ensures
        least(s) == k,
{
    let l = least(s);
    assert(is_least(s, l));
    if l != k {
        assert(text::text_lt(l, k) && text::text_lt(k, l));
        text::lemma_text_lt_transitive(l, k, l);
        text::lemma_text_lt_irreflexive(l);
    }
}

pub proof fn lemma_greatest_unique(s: Set<Seq<char>>, k: Seq<char>)
    requires
        is_greatest(s, k),
    ensures
        greatest(s) == k,
{
    let l = greatest(s);
    assert(is_greatest(s, l));
    if l != k {
        assert(text::text_lt(l, k) && text::text_lt(k, l));
        text::lemma_text_lt_transitive(l, k, l);
        text::lemma_text_lt_irreflexive(l);
    }
}

pub proof fn lemma_increasing_no_duplicates(keys: Seq<Seq<char>>)
    requires
        increasing(keys),
    ensures
        keys.no_duplicates(),
{
    assert forall|i: int, j: int| 0 <= i < keys.len() && 0 <= j < keys.len() && i != j implies keys[i]
        != keys[j] by {
        text::lemma_text_lt_irreflexive(keys[i]);
        if i < j {
            assert(text::text_lt(keys[i], keys[j]));
        } else {
            assert(text::text_lt(keys[j], keys[i]));
        }
    }
}

/// The texts of `s` in increasing order, where `s` is finite.
pub open spec fn in_order(s: Set<Seq<char>>) -> Seq<Seq<char>> {
    choose|keys: Seq<Seq<char>>| increasing(keys) && #[trigger] keys.to_set() == s
}

/// There is one way to put texts in increasing order.
pub proof fn lemma_in_order_unique(a: Seq<Seq<char>>, b: Seq<Seq<char>>)
    requires
        increasing(a),
        increasing(b),
        a.to_set() == b.to_set(),
    ensures
        a == b,
    decreases a.len(),
{
    lemma_increasing_no_duplicates(a);
    lemma_increasing_no_duplicates(b);
    a.unique_seq_to_set();
    b.unique_seq_to_set();
    assert(a.len() == b.len());
    if a.len() > 0 {
        let x = a.last();
        let y = b.last();
        assert(x == y) by {
            assert(a.contains(x) && a.to_set().contains(x));
            assert(b.contains(y) && b.to_set().contains(y));
            assert(b.contains(x));
            assert(a.contains(y));
            let i = b.index_of(x);
            let j = a.index_of(y);
            assert(b[i] == x && a[j] == y);
            if x != y {
                assert(text::text_lt(b[i], b[b.len() - 1]));
                assert(text::text_lt(a[j], a[a.len() - 1]));
                text::lemma_text_lt_transitive(x, y, x);
                text::lemma_text_lt_irreflexive(x);
            }
        }
        let front_a = a.drop_last();
        let front_b = b.drop_last();
        assert(increasing(front_a));
        assert(increasing(front_b));
        assert(front_a.to_set() =~= a.to_set().remove(x)) by {
            assert forall|k: Seq<char>| a.to_set().remove(x).contains(k) implies front_a.to_set().contains(k) by {
                let i = a.index_of(k);
                assert(a[i] == k);
                assert(front_a[i] == k);
            }
        }
        assert(front_b.to_set() =~= b.to_set().remove(x)) by {
            assert forall|k: Seq<char>| b.to_set().remove(x).contains(k) implies front_b.to_set().contains(k) by {
                let i = b.index_of(k);
                assert(b[i] == k);
                assert(front_b[i] == k);
            }
        }
        lemma_in_order_unique(front_a, front_b);
        assert(a =~= front_a.push(x));
        assert(b =~= front_b.push(y));
    } else {
        assert(a =~= b);
    }
}

/// There is a place for a new text among texts in increasing order.
proof fn lemma_place(keys: Seq<Seq<char>>, k: Seq<char>) -> (at: int)
    requires
        increasing(keys),
    ensures
        0 <= at <= keys.len(),
        forall|i: int| 0 <= i < at ==> text::text_lt(#[trigger] keys[i], k),
        forall|i: int| at <= i < keys.len() ==> !text::text_lt(#[trigger] keys[i], k),
    decreases keys.len(),
{
    if keys.len() == 0 {
        0
    } else if text::text_lt(keys.last(), k) {
        assert forall|i: int| 0 <= i < keys.len() implies text::text_lt(#[trigger] keys[i], k) by {
            if i < keys.len() - 1 {
                text::lemma_text_lt_transitive(keys[i], keys[keys.len() - 1], k);
            }
        }
        keys.len() as int
    } else {
        let front = keys.drop_last();
        let at = lemma_place(front, k);
        assert forall|i: int| 0 <= i < at implies text::text_lt(#[trigger] keys[i], k) by {
            assert(front[i] == keys[i]);
        }
        assert forall|i: int| at <= i < keys.len() implies !text::text_lt(
            #[trigger] keys[i],
            k,
        ) by {
            if i < front.len() {
                assert(front[i] == keys[i]);
            }
        }
        at
    }
}

/// A finite set of texts can be put in increasing order.
pub proof fn lemma_in_order(s: Set<Seq<char>>)
    requires
        s.finite(),
    ensures
        increasing(in_order(s)),
        in_order(s).to_set() == s,
    decreases s.len(),
{
    if s.len() == 0 {
        let none = Seq::<Seq<char>>::empty();
        assert(increasing(none));
        assert(s =~= Set::<Seq<char>>::empty());
        assert(none.to_set() =~= s);
    } else {
        let x = s.choose();
        let rest = s.remove(x);
        lemma_in_order(rest);
        let keys = in_order(rest);
        let at = lemma_place(keys, x);
        assert(!keys.contains(x)) by {
            if keys.contains(x) {
                assert(keys.to_set().contains(x));
            }
        }
        lemma_insert_increasing(keys, at, x);
        let all = keys.insert(at, x);
        assert(all.to_set() =~= s) by {
            assert forall|k: Seq<char>| s.contains(k) implies all.to_set().contains(k) by {
                if k == x {
                    assert(all[at] == x);
                } else {
                    assert(keys.to_set().contains(k));
                    let i = keys.index_of(k);
                    assert(keys[i] == k);
                    if i < at {
                        assert(all[i] == k);
                    } else {
                        assert(all[i + 1] == k);
                    }
                }
            }
            assert forall|k: Seq<char>| all.to_set().contains(k) implies s.contains(k) by {
                let i = all.index_of(k);
                assert(all[i] == k);
                if i != at {
                    let i0 = if i < at { i } else { i - 1 };
                    assert(keys[i0] == k);
                    assert(keys.contains(k));
                    assert(keys.to_set().contains(k));
                }
            }
        }
    }
}

/// A finite set of texts that is not empty has a last one.
pub proof fn lemma_greatest(s: Set<Seq<char>>)
    requires
        s.finite(),
        s != Set::<Seq<char>>::empty(),
    ensures
        is_greatest(s, greatest(s)),
{
    lemma_in_order(s);
    let keys = in_order(s);
    assert(keys.len() > 0) by {
        if keys.len() == 0 {
            assert(s =~= Set::<Seq<char>>::empty());
        }
    }
    let last = keys.last();
    assert(keys.contains(last) && keys.to_set().contains(last));
    assert forall|j: Seq<char>| #[trigger] s.contains(j) implies text::text_le(j, last) by {
        assert(keys.to_set().contains(j));
        let i = keys.index_of(j);
        assert(keys[i] == j);
        if i < keys.len() - 1 {
            assert(text::text_lt(keys[i], keys[keys.len() - 1]));
        }
    }
    assert(is_greatest(s, last));
}

/// A map from text to `V`, held as a vector of entries in the order of the keys.
#[derive(Debug, PartialEq, Eq)]
pub struct StringMap<V> {
    entries: Vec<(String, V)>,
}

impl<V> StringMap<V> {
    /// The keys in order.
    pub closed spec fn keys(self) -> Seq<Seq<char>> {
        Seq::new(self.entries@.len(), |i: int| self.entries@[i].0@)
    }

    #[verifier::type_invariant]
    spec fn ordered(self) -> bool {
        increasing(self.keys())
    }
}

impl<V: View> View for StringMap<V> {
    type V = Map<Seq<char>, V::V>;

    closed spec fn view(&self) -> Map<Seq<char>, V::V> {
        Map::new(
            |k: Seq<char>| self.keys().contains(k),
            |k: Seq<char>| self.entries@[self.keys().index_of(k)].1@,
        )
    }
}

impl<V: View> StringMap<V> {
    proof fn lemma_entry(self, i: int)
        requires
            self.ordered(),
            0 <= i < self.entries@.len(),
        ensures
            self@.contains_key(self.keys()[i]),
            self@[self.keys()[i]] == self.entries@[i].1@,
    {
        lemma_increasing_no_duplicates(self.keys());
        let k = self.keys()[i];
        let j = self.keys().index_of(k);
        assert(self.keys()[j] == k);
        assert(i == j);
    }

    proof fn lemma_dom(self)
        requires
            self.ordered(),
        ensures
            self.keys().no_duplicates(),
            self@.dom() == self.keys().to_set(),
            self@.dom().finite(),
            self@.dom().len() == self.keys().len(),
            self@.len() == self.keys().len(),
    {
        lemma_increasing_no_duplicates(self.keys());
        self.keys().unique_seq_to_set();
        assert(self@.dom() =~= self.keys().to_set());
        vstd::seq_lib::seq_to_set_is_finite(self.keys());
    }

    /// A map without entries.
    pub fn new() -> (m: Self)
        ensures
            m@ == Map::<Seq<char>, V::V>::empty(),
            m.keys() == Seq::<Seq<char>>::empty(),
    {
        let m = StringMap { entries: Vec::new() };
        assert(m.keys() =~= Seq::<Seq<char>>::empty());
        assert(m@ =~= Map::<Seq<char>, V::V>::empty());
        m
    }

    /// The number of entries.
    pub fn len(&self) -> (n: usize)
        ensures
            n == self@.len(),
            n == self.keys().len(),
            increasing(self.keys()),
            self.keys().no_duplicates(),
            self@.dom() == self.keys().to_set(),
            self@.dom().finite(),
    {
        proof {
            use_type_invariant(self);
            self.lemma_dom();
        }
        self.entries.len()
    }

    /// The key of the entry at position `i` in key order.
    pub fn key_at(&self, i: usize) -> (key: &String)
        requires
            i < self.keys().len(),
        ensures
            key@ == self.keys()[i as int],
            self@.contains_key(key@),
    {
        proof {
            use_type_invariant(self);
            self.lemma_entry(i as int);
        }
        &self.entries[i].0
    }

    /// The value of the entry at position `i` in key order.
    pub fn value_at(&self, i: usize) -> (value: &V)
        requires
            i < self.keys().len(),
        ensures
            self@.contains_key(self.keys()[i as int]),
            value@ == self@[self.keys()[i as int]],
    {
        proof {
            use_type_invariant(self);
            self.lemma_entry(i as int);
        }
        &self.entries[i].1
    }

    /// The first position whose key does not come before `key`.
    fn position(&self, key: &str) -> (at: usize)
        ensures
            at <= self.entries@.len(),
            forall|i: int| 0 <= i < at ==> text::text_lt(#[trigger] self.keys()[i], key@),
            forall|i: int| at <= i < self.entries@.len() ==> !text::text_lt(#[trigger] self.keys()[i], key@),
    {
        proof {
            use_type_invariant(self);
        }
        let mut low: usize = 0;
        let mut high: usize = self.entries.len();
        while low < high
            invariant
                low <= high <= self.entries@.len(),
                increasing(self.keys()),
                forall|i: int| 0 <= i < low ==> text::text_lt(#[trigger] self.keys()[i], key@),
                forall|i: int|
                    high <= i < self.entries@.len() ==> !text::text_lt(#[trigger] self.keys()[i], key@),
            decreases high - low,
        {
            let mid: usize = low + (high - low) / 2;
            let ghost at_mid = self.keys()[mid as int];
            if text::text_less(self.entries[mid].0.as_str(), key) {
                assert forall|i: int| 0 <= i < mid + 1 implies text::text_lt(
                    #[trigger] self.keys()[i],
                    key@,
                ) by {
                    if i < mid {
                        text::lemma_text_lt_transitive(self.keys()[i], at_mid, key@);
                    }
                }
                low = mid + 1;
            } else {
                assert forall|i: int| mid <= i < self.entries@.len() implies !text::text_lt(
                    #[trigger] self.keys()[i],
                    key@,
                ) by {
                    if i > mid && text::text_lt(self.keys()[i], key@) {
                        text::lemma_text_lt_transitive(at_mid, self.keys()[i], key@);
                    }
                }
                high = mid;
            }
        }
        low
    }

    /// The position of `key`, where the map has it.
    fn find(&self, key: &str) -> (found: Option<usize>)
        ensures
            match found {
                Some(i) => i < self.entries@.len() && self.keys()[i as int] == key@,
                None => !self.keys().contains(key@),
            },
    {
        let at = self.position(key);
        if at < self.entries.len() && text::text_eq(self.entries[at].0.as_str(), key) {
            Some(at)
        } else {
            proof {
                use_type_invariant(self);
                if self.keys().contains(key@) {
                    let i = self.keys().index_of(key@);
                    text::lemma_text_lt_irreflexive(key@);
                    assert(at <= i);
                    assert(at < i);
                    assert(text::text_lt(self.keys()[at as int], self.keys()[i]));
                }
            }
            None
        }
    }

    /// The value stored under `key`.
    pub fn get(&self, key: &str) -> (value: Option<&V>)
        ensures
            match value {
                Some(v) => self@.contains_key(key@) && v@ == self@[key@],
                None => !self@.contains_key(key@),
            },
    {
        match self.find(key) {
            Some(i) => {
                proof {
                    use_type_invariant(self);
                    self.lemma_entry(i as int);
                }
                Some(&self.entries[i].1)
            },
            None => None,
        }
    }

    /// Whether the map has an entry for `key`.
    pub fn contains_key(&self, key: &str) -> (has: bool)
        ensures
            has == self@.contains_key(key@),
    {
        self.get(key).is_some()
    }

    /// Stores `value` under `key`, in place of what was there.
    pub fn insert(&mut self, key: String, value: V)
        ensures
            final(self)@ == old(self)@.insert(key@, value@),
    {
        let found = self.find(key.as_str());
        let at = self.position(key.as_str());
        proof {
            use_type_invariant(&*self);
        }
        let ghost before = *self;
        let ghost k = key@;
        let ghost v = value@;
        let mut entries: Vec<(String, V)> = Vec::new();
        std::mem::swap(&mut entries, &mut self.entries);
        match found {
            Some(i) => {
                entries.set(i, (key, value));
                proof {
                    let after = StringMap { entries };
                    assert(after.keys() =~= before.keys());
                }
            },
            None => {
                entries.insert(at, (key, value));
                proof {
                    let after = StringMap { entries };
                    assert(after.keys() =~= before.keys().insert(at as int, k));
                    lemma_insert_increasing(before.keys(), at as int, k);
                }
            },
        }
        self.entries = entries;
        proof {
            let after = *self;
            let pos = if found is Some { found->0 as int } else { at as int };
            assert forall|j: Seq<char>| after@.contains_key(j) == before@.insert(k, v).contains_key(j) by {
                if after.keys().contains(j) {
                    let i = after.keys().index_of(j);
                    if found is None {
                        if i < pos {
                            assert(before.keys()[i] == j);
                        } else if i > pos {
                            assert(before.keys()[i - 1] == j);
                        }
                    }
                }
                if before.keys().contains(j) {
                    let i = before.keys().index_of(j);
                    if found is None && i >= pos {
                        assert(after.keys()[i + 1] == j);
                    } else {
                        assert(after.keys()[i] == j);
                    }
                }
                assert(after.keys()[pos] == k);
            }
            assert forall|j: Seq<char>| after@.contains_key(j) implies after@[j] == before@.insert(k, v)[j] by {
                let i = after.keys().index_of(j);
                assert(after.keys()[i] == j);
                after.lemma_entry(i);
                if i == pos {
                    assert(j == k);
                } else {
                    lemma_increasing_no_duplicates(after.keys());
                    assert(after.keys()[pos] == k);
                    assert(j != k);
                    if found is None && i > pos {
                        before.lemma_entry(i - 1);
                        assert(before.keys()[i - 1] == j);
                    } else {
                        before.lemma_entry(i);
                        assert(before.keys()[i] == j);
                    }
                }
            }
            assert(after@ =~= before@.insert(k, v));
        }
    }

    /// Removes the entry of `key`, where there is one.
    pub fn remove(&mut self, key: &str)
        ensures
            final(self)@ == old(self)@.remove(key@),
    {
        let found = self.find(key);
        proof {
            use_type_invariant(&*self);
        }
        let ghost before = *self;
        match found {
            Some(at) => {
                let mut entries: Vec<(String, V)> = Vec::new();
                std::mem::swap(&mut entries, &mut self.entries);
                let _ = entries.remove(at);
                proof {
                    let after = StringMap { entries };
                    assert(after.keys() =~= before.keys().remove(at as int));
                }
                self.entries = entries;
                proof {
                    let after = *self;
                    lemma_increasing_no_duplicates(before.keys());
                    assert forall|j: Seq<char>| after@.contains_key(j) == before@.remove(key@).contains_key(j) by {
                        if after.keys().contains(j) {
                            let i = after.keys().index_of(j);
                            let i0 = if i < at { i } else { i + 1 };
                            assert(before.keys()[i0] == j);
                            assert(before.keys()[at as int] == key@);
                        }
                        if before.keys().contains(j) && j != key@ {
                            let i = before.keys().index_of(j);
                            let i1 = if i < at { i } else { i - 1 };
                            assert(after.keys()[i1] == j);
                        }
                    }
                    assert forall|j: Seq<char>| after@.contains_key(j) implies after@[j] == before@.remove(key@)[j] by {
                        let i = after.keys().index_of(j);
                        assert(after.keys()[i] == j);
                        after.lemma_entry(i);
                        let i0 = if i < at { i } else { i + 1 };
                        assert(before.keys()[i0] == j);
                        before.lemma_entry(i0);
                    }
                    assert(after@ =~= before@.remove(key@));
                }
            },
            None => {
                assert(before@ =~= before@.remove(key@));
            },
        }
    }
}

proof fn lemma_insert_increasing(keys: Seq<Seq<char>>, at: int, k: Seq<char>)
    requires
        increasing(keys),
        0 <= at <= keys.len(),
        !keys.contains(k),
        forall|i: int| 0 <= i < at ==> text::text_lt(#[trigger] keys[i], k),
        forall|i: int| at <= i < keys.len() ==> !text::text_lt(#[trigger] keys[i], k),
    ensures
        increasing(keys.insert(at, k)),
{
    let after = keys.insert(at, k);
    assert forall|i: int, j: int| 0 <= i < j < after.len() implies text::text_lt(
        #[trigger] after[i],
        #[trigger] after[j],
    ) by {
        if i == at {
            assert(after[j] == keys[j - 1]);
            text::lemma_text_lt_total(k, keys[j - 1]);
        } else if j == at {
            assert(after[i] == keys[i]);
        } else {
            let i0 = if i < at { i } else { i - 1 };
            let j0 = if j < at { j } else { j - 1 };
            assert(text::text_lt(keys[i0], keys[j0]));
        }
    }
}

impl<V: Duplicate> Duplicate for StringMap<V> {
    fn duplicate(&self) -> (copy: Self) {
        let n = self.len();
        let mut copy: StringMap<V> = StringMap::new();
        let mut i: usize = 0;
        while i < n
            invariant
                n == self.keys().len(),
                i <= n,
                self.keys().no_duplicates(),
                self@.dom() == self.keys().to_set(),
                copy@ == self@.restrict(self.keys().take(i as int).to_set()),
            decreases n - i,
        {
            let key = self.key_at(i).clone();
            let value = self.value_at(i).duplicate();
            copy.insert(key, value);
            proof {
                let done = self.keys().take(i as int);
                let next = self.keys().take(i + 1);
                assert(next =~= done.push(self.keys()[i as int]));
                assert(next.to_set() =~= done.to_set().insert(self.keys()[i as int])) by {
                    done.lemma_push_to_set_commute(self.keys()[i as int]);
                }
                assert(copy@ =~= self@.restrict(next.to_set()));
            }
            i = i + 1;
        }
        proof {
            assert(self.keys().take(n as int) =~= self.keys());
            assert(copy@ =~= self@);
        }
        copy
    }
}

/// Of the texts of a finite set that is not empty, one comes first and one last.
pub proof fn first_and_last(s: Set<Seq<char>>, k: Seq<char>)
    requires
        s.finite(),
        s.contains(k),
    ensures
        s.contains(least(s)),
        !text::text_lt(k, least(s)),
        s.contains(greatest(s)),
        !text::text_lt(greatest(s), k),
{
    lemma_greatest(s);
    text::texts_are_in_order(k, greatest(s));
    lemma_in_order(s);
    let keys = in_order(s);
    assert(keys.to_set().contains(k));
    assert(keys.len() > 0);
    let first = keys[0];
    assert(keys.contains(first) && keys.to_set().contains(first));
    assert forall|j: Seq<char>| #[trigger] s.contains(j) implies text::text_le(first, j) by {
        assert(keys.to_set().contains(j));
        let i = keys.index_of(j);
        assert(keys[i] == j);
        if i > 0 {
            assert(text::text_lt(keys[0], keys[i]));
        }
    }
    lemma_least_unique(s, first);
    text::texts_are_in_order(least(s), k);
}

/// The texts of a finite set come in order, each once.
pub proof fn order_is_complete(s: Set<Seq<char>>, i: int, j: int)
    requires
        s.finite(),
    ensures
        forall|k: Seq<char>| s.contains(k) <==> #[trigger] in_order(s).contains(k),
        0 <= i < j < in_order(s).len() ==> text::text_lt(in_order(s)[i], in_order(s)[j]),
{
    lemma_in_order(s);
    let keys = in_order(s);
    assert forall|k: Seq<char>| s.contains(k) <==> #[trigger] keys.contains(k) by {
        assert(keys.to_set().contains(k) <==> keys.contains(k));
    }
}

/// In increasing keys an earlier one comes before a later one.
pub proof fn increasing_keys(keys: Seq<Seq<char>>, i: int, j: int)
    requires
        increasing(keys),
        0 <= i < j < keys.len(),
    ensures
        text::text_lt(keys[i], keys[j]),
{
}

} // verus!
