//! A map keyed by text that walks its keys in ascending order, as the
//! settings file and the slideshow schedule need.
use vstd::prelude::*;
use crate::text::{lemma_text_less_irreflexive, lemma_text_less_total, lemma_text_less_transitive, same_text, text_less, text_lt};

verus! {

/// Values that can be copied with a proved result.
pub trait Duplicate: View + Sized {
    fn duplicate(&self) -> (r: Self)
        ensures
            r@ == self@,
    ;
}

impl Duplicate for u128 {
    fn duplicate(&self) -> (r: Self) {
        *self
    }
}

/// Entries sorted strictly by key.
#[derive(Debug)]
pub struct OrderedMap<V> {
    entries: Vec<(String, V)>,
}

/// Keys strictly ascending in `text_less`.
pub open spec fn sorted_keys(keys: Seq<Seq<char>>) -> bool {
    forall|i: int, j: int| 0 <= i < j < keys.len() ==> text_less(#[trigger] keys[i], #[trigger] keys[j])
}

spec fn keys_of<V>(entries: Seq<(String, V)>) -> Seq<Seq<char>> {
    entries.map_values(|e: (String, V)| e.0@)
}

spec fn index_in<V>(entries: Seq<(String, V)>, k: Seq<char>) -> int {
    choose|i: int| 0 <= i < entries.len() && entries[i].0@ == k
}

proof fn lemma_index_in<V>(entries: Seq<(String, V)>, i: int)
    requires
        sorted_keys(keys_of(entries)),
        0 <= i < entries.len(),
    ensures
        index_in(entries, entries[i].0@) == i,
{
    let k = entries[i].0@;
    let j = index_in(entries, k);
    assert(keys_of(entries)[i] == k);
    assert(0 <= j < entries.len() && entries[j].0@ == k);
    assert(keys_of(entries)[j] == k);
    if j < i {
        assert(text_less(keys_of(entries)[j], keys_of(entries)[i]));
        lemma_text_less_irreflexive(k);
    } else if i < j {
        assert(text_less(keys_of(entries)[i], keys_of(entries)[j]));
        lemma_text_less_irreflexive(k);
    }
}

/// The keys a filter keeps are the keys that pass it.
pub proof fn lemma_filter_to_set(s: Seq<Seq<char>>, pred: spec_fn(Seq<char>) -> bool)
    ensures
        s.filter(pred).to_set() == s.to_set().filter(pred),
{
    #[allow(deprecated)]
    s.filter_lemma(pred);
    assert forall|x: Seq<char>| s.filter(pred).to_set().contains(x) <==> s.to_set().filter(pred).contains(x) by {
        if s.filter(pred).contains(x) {
            s.lemma_filter_contains_rev(pred, x);
            let i = choose|i: int| 0 <= i < s.filter(pred).len() && s.filter(pred)[i] == x;
            assert(pred(s.filter(pred)[i]));
        }
        if s.contains(x) && pred(x) {
            let i = choose|i: int| 0 <= i < s.len() && s[i] == x;
            assert(s.filter(pred).contains(s[i]));
        }
    }
    assert(s.filter(pred).to_set() =~= s.to_set().filter(pred));
}

/// Filtering keeps distinct keys distinct.
pub proof fn lemma_filter_no_duplicates(s: Seq<Seq<char>>, pred: spec_fn(Seq<char>) -> bool)
    requires
        s.no_duplicates(),
    ensures
        s.filter(pred).no_duplicates(),
    decreases s.len(),
{
    reveal_with_fuel(Seq::filter, 1);
    if s.len() > 0 {
        let t = s.drop_last();
        assert(t.no_duplicates());
        lemma_filter_no_duplicates(t, pred);
        if pred(s.last()) {
            let f = t.filter(pred);
            assert forall|i: int, j: int| 0 <= i < f.push(s.last()).len() && 0 <= j < f.push(s.last()).len() && i != j
                implies f.push(s.last())[i] != f.push(s.last())[j] by {
                if j == f.len() || i == f.len() {
                    let k = if j == f.len() { i } else { j };
                    assert(f.contains(f[k]));
                    t.lemma_filter_contains_rev(pred, f[k]);
                    let m = choose|m: int| 0 <= m < t.len() && t[m] == f[k];
                    assert(s[m] != s[s.len() - 1]);
                }
            }
        }
    }
}

/// The keys of a set in ascending order.
pub open spec fn sorted_of(keys: Set<Seq<char>>) -> Seq<Seq<char>> {
    choose|s: Seq<Seq<char>>| sorted_keys(s) && s.to_set() == keys
}

/// Two ascending lists of the same keys are the same list.
pub proof fn lemma_sorted_unique(a: Seq<Seq<char>>, b: Seq<Seq<char>>)
    requires
        sorted_keys(a),
        sorted_keys(b),
        a.to_set() == b.to_set(),
    ensures
        a == b,
    decreases a.len(),
{
    lemma_sorted_no_duplicates(a);
    lemma_sorted_no_duplicates(b);
    a.unique_seq_to_set();
    b.unique_seq_to_set();
    if a.len() == 0 {
        assert(b.len() == 0);
        assert(a =~= b);
    } else {
        let x = a.last();
        let y = b.last();
        assert(a.to_set().contains(x));
        assert(b.to_set().contains(y));
        assert(a.contains(y));
        assert(b.contains(x));
        let i = choose|i: int| 0 <= i < a.len() && a[i] == y;
        let j = choose|j: int| 0 <= j < b.len() && b[j] == x;
        if x != y {
            lemma_text_less_total(x, y);
            if i < a.len() - 1 {
                assert(text_less(a[i], a[a.len() - 1]));
            }
            if j < b.len() - 1 {
                assert(text_less(b[j], b[b.len() - 1]));
            }
        }
        assert(x == y);
        let a2 = a.drop_last();
        let b2 = b.drop_last();
        assert(a2.to_set() =~= b2.to_set()) by {
            assert forall|k: Seq<char>| a2.to_set().contains(k) implies b2.to_set().contains(k) by {
                let m = choose|m: int| 0 <= m < a2.len() && a2[m] == k;
                assert(a[m] == k);
                assert(a.to_set().contains(k));
                assert(b.to_set().contains(k));
                assert(b.contains(k));
                let n = choose|n: int| 0 <= n < b.len() && b[n] == k;
                if n == b.len() - 1 {
                    assert(a[m] == a[a.len() - 1]);
                }
                assert(b2[n] == k);
            }
            assert forall|k: Seq<char>| b2.to_set().contains(k) implies a2.to_set().contains(k) by {
                let m = choose|m: int| 0 <= m < b2.len() && b2[m] == k;
                assert(b[m] == k);
                assert(b.to_set().contains(k));
                assert(a.to_set().contains(k));
                assert(a.contains(k));
                let n = choose|n: int| 0 <= n < a.len() && a[n] == k;
                if n == a.len() - 1 {
                    assert(b[m] == b[b.len() - 1]);
                }
                assert(a2[n] == k);
            }
        }
        lemma_sorted_unique(a2, b2);
        assert(a =~= a2.push(x));
        assert(b =~= b2.push(y));
    }
}

/// Every finite set of keys has an ascending list.
pub proof fn lemma_sorted_of_exists(keys: Set<Seq<char>>)
    requires
        keys.finite(),
    ensures
        sorted_keys(sorted_of(keys)),
        sorted_of(keys).to_set() == keys,
    decreases keys.len(),
{
    if keys.len() == 0 {
        assert(keys =~= Set::<Seq<char>>::empty());
        let e = Seq::<Seq<char>>::empty();
        assert(e.to_set() =~= keys);
        assert(sorted_keys(e));
    } else {
        lemma_max_key(keys);
        let m = max_key(keys);
        let rest = keys.remove(m);
        lemma_sorted_of_exists(rest);
        let s = sorted_of(rest).push(m);
        assert forall|i: int, j: int| 0 <= i < j < s.len() implies text_less(#[trigger] s[i], #[trigger] s[j]) by {
            if j == s.len() - 1 {
                assert(s[i] == sorted_of(rest)[i]);
                assert(sorted_of(rest).to_set().contains(s[i]));
                assert(rest.contains(s[i]));
                assert(keys.contains(s[i]) && s[i] != m);
            } else {
                assert(s[i] == sorted_of(rest)[i]);
                assert(s[j] == sorted_of(rest)[j]);
            }
        }
        assert(s.to_set() =~= keys) by {
            assert forall|k: Seq<char>| s.to_set().contains(k) <==> keys.contains(k) by {
                if keys.contains(k) && k != m {
                    assert(sorted_of(rest).to_set().contains(k));
                    let i = choose|i: int| 0 <= i < sorted_of(rest).len() && sorted_of(rest)[i] == k;
                    assert(s[i] == k);
                }
                if k == m {
                    assert(s[s.len() - 1] == k);
                }
                if s.to_set().contains(k) {
                    let i = choose|i: int| 0 <= i < s.len() && s[i] == k;
                    if i < s.len() - 1 {
                        assert(sorted_of(rest).to_set().contains(k));
                    }
                }
            }
        }
        assert(sorted_keys(s) && s.to_set() == keys);
    }
}

/// The greatest key of a non-empty finite set.
spec fn max_key(keys: Set<Seq<char>>) -> Seq<char> {
    choose|m: Seq<char>| keys.contains(m) && forall|k: Seq<char>| #[trigger] keys.contains(k) && k != m ==> text_less(k, m)
}

proof fn lemma_max_key(keys: Set<Seq<char>>)
    requires
        keys.finite(),
        keys.len() > 0,
    ensures
        keys.contains(max_key(keys)),
        forall|k: Seq<char>| #[trigger] keys.contains(k) && k != max_key(keys) ==> text_less(k, max_key(keys)),
    decreases keys.len(),
{
    let x = keys.choose();
    let rest = keys.remove(x);
    if rest.len() == 0 {
        assert forall|k: Seq<char>| #[trigger] keys.contains(k) && k != x implies text_less(k, x) by {
            assert(rest.contains(k));
        }
    } else {
        lemma_max_key(rest);
        let y = max_key(rest);
        lemma_text_less_total(x, y);
        if text_less(x, y) {
            assert forall|k: Seq<char>| #[trigger] keys.contains(k) && k != y implies text_less(k, y) by {
                if k != x {
                    assert(rest.contains(k));
                }
            }
        } else {
            assert forall|k: Seq<char>| #[trigger] keys.contains(k) && k != x implies text_less(k, x) by {
                assert(rest.contains(k));
                if k != y {
                    assert(text_less(k, y));
                    lemma_text_less_transitive(k, y, x);
                }
            }
        }
    }
}

/// An ascending list is the ascending list of its keys.
pub proof fn lemma_sorted_of(a: Seq<Seq<char>>)
    requires
        sorted_keys(a),
    ensures
        sorted_of(a.to_set()) == a,
{
    let s = sorted_of(a.to_set());
    assert(sorted_keys(a) && a.to_set() == a.to_set());
    lemma_sorted_unique(s, a);
}

/// Strictly ascending keys are distinct.
pub proof fn lemma_sorted_no_duplicates(keys: Seq<Seq<char>>)
    requires
        sorted_keys(keys),
    ensures
        keys.no_duplicates(),
{
    assert forall|i: int, j: int| 0 <= i < keys.len() && 0 <= j < keys.len() && i != j implies keys[i]
        != keys[j] by {
        lemma_text_less_irreflexive(keys[i]);
        if i < j {
            assert(text_less(keys[i], keys[j]));
        } else {
            assert(text_less(keys[j], keys[i]));
        }
    }
}

impl<V> OrderedMap<V> {
    #[verifier::type_invariant]
    spec fn wf(&self) -> bool {
        sorted_keys(keys_of(self.entries@))
    }
}

impl<V: View> OrderedMap<V> {
    /// The keys in the order the map walks them.
    pub closed spec fn keys_seq(&self) -> Seq<Seq<char>> {
        keys_of(self.entries@)
    }

    spec fn index_of(&self, k: Seq<char>) -> int {
        index_in(self.entries@, k)
    }


    proof fn lemma_index_of(&self, i: int)
        requires
            sorted_keys(self.keys_seq()),
            0 <= i < self.entries@.len(),
        ensures
            self.index_of(self.entries@[i].0@) == i,
    {
        lemma_index_in(self.entries@, i);
    }
}

impl<V: View> View for OrderedMap<V> {
    type V = Map<Seq<char>, V::V>;

    closed spec fn view(&self) -> Map<Seq<char>, V::V> {
        Map::new(
            |k: Seq<char>| self.keys_seq().contains(k),
            |k: Seq<char>| self.entries@[self.index_of(k)].1@,
        )
    }
}

impl<V: View> OrderedMap<V> {
    /// The empty map.
    pub fn new() -> (r: Self)
        ensures
            r@ == Map::<Seq<char>, V::V>::empty(),
            r.keys_seq() == Seq::<Seq<char>>::empty(),
    {
        let r = OrderedMap { entries: Vec::new() };
        assert(r.keys_seq() =~= Seq::<Seq<char>>::empty());
        assert(r@ =~= Map::<Seq<char>, V::V>::empty());
        r
    }

    /// The keys walked are the map's domain.
    pub proof fn lemma_keys(&self)
        ensures
            self.keys_seq().to_set() == self@.dom(),
    {
        assert(self.keys_seq().to_set() =~= self@.dom());
    }

    /// The number of entries.
    pub fn len(&self) -> (r: usize)
        ensures
            r == self.keys_seq().len(),
            sorted_keys(self.keys_seq()),
            self.keys_seq() == sorted_of(self@.dom()),
    {
        proof {
            use_type_invariant(self);
            self.lemma_keys();
            lemma_sorted_of(self.keys_seq());
        }
        self.entries.len()
    }

    /// The key at position `i` of the walk.
    pub fn key_at(&self, i: usize) -> (r: &String)
        requires
            i < self.keys_seq().len(),
        ensures
            r@ == self.keys_seq()[i as int],
    {
        &self.entries[i].0
    }

    /// The value at position `i` of the walk.
    pub fn value_at(&self, i: usize) -> (r: &V)
        requires
            i < self.keys_seq().len(),
        ensures
            self@.contains_key(self.keys_seq()[i as int]),
            r@ == self@[self.keys_seq()[i as int]],
    {
        proof {
            use_type_invariant(self);
            self.lemma_index_of(i as int);
            assert(self.keys_seq().contains(self.keys_seq()[i as int]));
        }
        &self.entries[i].1
    }

    fn position(&self, key: &str) -> (r: Option<usize>)
        ensures
            match r {
                Some(i) => i < self.entries@.len() && self.entries@[i as int].0@ == key@,
                None => !self@.contains_key(key@),
            },
    {
        let mut i: usize = 0;
        while i < self.entries.len()
            invariant
                i <= self.entries@.len(),
                forall|j: int| 0 <= j < i ==> self.entries@[j].0@ != key@,
            decreases self.entries@.len() - i,
        {
            if same_text(self.entries[i].0.as_str(), key) {
                return Some(i);
            }
            i = i + 1;
        }
        proof {
            if self.keys_seq().contains(key@) {
                let j = choose|j: int| 0 <= j < self.keys_seq().len() && self.keys_seq()[j] == key@;
                assert(self.entries@[j].0@ == key@);
            }
        }
        None
    }

    /// Whether `key` has an entry.
    pub fn contains_key(&self, key: &str) -> (r: bool)
        ensures
            r == self@.contains_key(key@),
    {
        proof {
            use_type_invariant(self);
        }
        match self.position(key) {
            Some(i) => {
                assert(self.keys_seq()[i as int] == key@);
                true
            },
            None => false,
        }
    }

    /// The value stored under `key`.
    pub fn get(&self, key: &str) -> (r: Option<&V>)
        ensures
            r.is_some() == self@.contains_key(key@),
            r matches Some(v) ==> v@ == self@[key@],
    {
        proof {
            use_type_invariant(self);
        }
        match self.position(key) {
            Some(i) => {
                proof {
                    self.lemma_index_of(i as int);
                    assert(self.keys_seq()[i as int] == key@);
                }
                Some(&self.entries[i].1)
            },
            None => None,
        }
    }

    /// Stores `value` under `key`, replacing what was there; the walk stays in
    /// ascending key order.
    pub fn insert(&mut self, key: String, value: V)
        ensures
            final(self)@ == old(self)@.insert(key@, value@),
    {
        proof {
            use_type_invariant(&*self);
        }
        let ghost old_map = self@;
        let ghost old_entries = self.entries@;
        let ghost old_keys = self.keys_seq();
        let mut p: usize = 0;
        while p < self.entries.len() && text_lt(self.entries[p].0.as_str(), key.as_str())
            invariant
                p <= self.entries@.len(),
                self.entries@ == old_entries,
                old_keys == keys_of(old_entries),
                forall|j: int| 0 <= j < p ==> text_less(#[trigger] old_keys[j], key@),
            decreases self.entries@.len() - p,
        {
            assert(old_keys[p as int] == old_entries[p as int].0@);
            p = p + 1;
        }
        proof {
            lemma_text_less_total(key@, key@);
        }
        if p < self.entries.len() && same_text(self.entries[p].0.as_str(), key.as_str()) {
            let ghost k = key@;
            let mut entries: Vec<(String, V)> = Vec::new();
            std::mem::swap(&mut entries, &mut self.entries);
            entries.set(p, (key, value));
            proof {
                assert(old_keys[p as int] == k);
                assert(keys_of(entries@) =~= old_keys);
            }
            self.entries = entries;
            proof {
                assert(self.keys_seq() =~= old_keys.update(p as int, k));
                assert(sorted_keys(self.keys_seq()));
                assert forall|kk: Seq<char>| #[trigger] self@.contains_key(kk) == old_map.insert(k, value@).contains_key(kk) by {
                    if kk == k {
                        assert(self.keys_seq()[p as int] == kk);
                    }
                    if old_keys.contains(kk) {
                        let j = choose|j: int| 0 <= j < old_keys.len() && old_keys[j] == kk;
                        assert(self.keys_seq()[j] == kk);
                    }
                    if self.keys_seq().contains(kk) {
                        let j = choose|j: int| 0 <= j < self.keys_seq().len() && self.keys_seq()[j] == kk;
                        if j != p {
                            assert(old_keys[j] == kk);
                        }
                    }
                }
                assert forall|kk: Seq<char>| #[trigger] self@.contains_key(kk) implies self@[kk] == old_map.insert(k, value@)[kk] by {
                    let j = choose|j: int| 0 <= j < self.keys_seq().len() && self.keys_seq()[j] == kk;
                    self.lemma_index_of(j);
                    if j != p {
                        lemma_index_in(old_entries, j);
                        assert(old_keys[j] == kk);
                        assert(kk != k) by {
                            if kk == k {
                                lemma_text_less_irreflexive(k);
                                if j < p {
                                    assert(text_less(old_keys[j], old_keys[p as int]));
                                } else {
                                    assert(text_less(old_keys[p as int], old_keys[j]));
                                }
                            }
                        }
                    }
                }
                assert(self@ =~= old_map.insert(k, value@));
            }
        } else {
            let ghost k = key@;
            proof {
                if p < old_entries.len() {
                    assert(old_keys[p as int] == old_entries[p as int].0@);
                    lemma_text_less_total(old_keys[p as int], k);
                }
            }
            let mut entries: Vec<(String, V)> = Vec::new();
            std::mem::swap(&mut entries, &mut self.entries);
            entries.insert(p, (key, value));
            proof {
                assert(keys_of(entries@) =~= old_keys.insert(p as int, k));
                assert forall|i: int, j: int| 0 <= i < j < keys_of(entries@).len() implies text_less(
                    #[trigger] keys_of(entries@)[i],
                    #[trigger] keys_of(entries@)[j],
                ) by {
                    if j < p {
                    } else if j == p {
                    } else if i < p {
                        if p < j - 1 {
                            lemma_text_less_transitive(k, old_keys[p as int], old_keys[j - 1]);
                        }
                        lemma_text_less_transitive(old_keys[i], k, old_keys[j - 1]);
                    } else if i == p {
                        if p < j - 1 {
                            lemma_text_less_transitive(k, old_keys[p as int], old_keys[j - 1]);
                        }
                    } else {
                    }
                }
            }
            self.entries = entries;
            proof {
                assert(self.keys_seq() =~= old_keys.insert(p as int, k));
                assert(sorted_keys(self.keys_seq()));
                assert forall|kk: Seq<char>| #[trigger] self@.contains_key(kk) == old_map.insert(k, value@).contains_key(kk) by {
                    if kk == k {
                        assert(self.keys_seq()[p as int] == kk);
                    }
                    if old_keys.contains(kk) {
                        let j = choose|j: int| 0 <= j < old_keys.len() && old_keys[j] == kk;
                        if j < p {
                            assert(self.keys_seq()[j] == kk);
                        } else {
                            assert(self.keys_seq()[j + 1] == kk);
                        }
                    }
                    if self.keys_seq().contains(kk) {
                        let j = choose|j: int| 0 <= j < self.keys_seq().len() && self.keys_seq()[j] == kk;
                        if j < p {
                            assert(old_keys[j] == kk);
                        } else if j > p {
                            assert(old_keys[j - 1] == kk);
                        }
                    }
                }
                assert forall|kk: Seq<char>| #[trigger] self@.contains_key(kk) implies self@[kk] == old_map.insert(k, value@)[kk] by {
                    let j = choose|j: int| 0 <= j < self.keys_seq().len() && self.keys_seq()[j] == kk;
                    self.lemma_index_of(j);
                    if j != p {
                        let oj = if j < p { j } else { j - 1 };
                        lemma_index_in(old_entries, oj);
                        assert(old_keys[oj] == kk);
                        assert(kk != k) by {
                            if kk == k {
                                lemma_text_less_irreflexive(k);
                                if j < p {
                                    assert(text_less(old_keys[j], k));
                                }
                            }
                        }
                    }
                }
                assert(self@ =~= old_map.insert(k, value@));
            }
        }
    }

    /// Removes the entry under `key`, handing back its value.
    pub fn remove(&mut self, key: &str) -> (r: Option<V>)
        ensures
            final(self)@ == old(self)@.remove(key@),
            r.is_some() == old(self)@.contains_key(key@),
            r matches Some(v) ==> v@ == old(self)@[key@],
            final(self).keys_seq() == old(self).keys_seq().filter(|k: Seq<char>| k != key@),
    {
        proof {
            use_type_invariant(&*self);
        }
        let ghost old_map = self@;
        let ghost old_entries = self.entries@;
        let ghost old_keys = self.keys_seq();
        match self.position(key) {
            None => {
                proof {
                    assert(self@ =~= old_map.remove(key@));
                    assert(old_keys.filter(|k: Seq<char>| k != key@) =~= old_keys) by {
                        old_keys.filter_lemma(|k: Seq<char>| k != key@);
                        assert forall|i: int| 0 <= i < old_keys.len() implies old_keys[i] != key@ by {
                            assert(old_keys.contains(old_keys[i]));
                        }
                        lemma_filter_all(old_keys, |k: Seq<char>| k != key@);
                    }
                }
                None
            },
            Some(p) => {
                proof {
                    lemma_index_in(old_entries, p as int);
                }
                let mut entries: Vec<(String, V)> = Vec::new();
                std::mem::swap(&mut entries, &mut self.entries);
                let (_, value) = entries.remove(p);
                proof {
                    assert(keys_of(entries@) =~= old_keys.remove(p as int));
                    assert forall|i: int, j: int| 0 <= i < j < keys_of(entries@).len() implies text_less(
                        #[trigger] keys_of(entries@)[i],
                        #[trigger] keys_of(entries@)[j],
                    ) by {
                        if i < p && j >= p {
                            assert(text_less(old_keys[i], old_keys[j + 1]));
                        } else if i >= p {
                            assert(text_less(old_keys[i + 1], old_keys[j + 1]));
                        }
                    }
                }
                self.entries = entries;
                proof {
                    let k = key@;
                    assert(old_keys[p as int] == k);
                    assert forall|i: int| 0 <= i < old_keys.len() && i != p implies old_keys[i] != k by {
                        lemma_text_less_irreflexive(k);
                        if i < p {
                            assert(text_less(old_keys[i], old_keys[p as int]));
                        } else {
                            assert(text_less(old_keys[p as int], old_keys[i]));
                        }
                    }
                    assert(self.keys_seq() =~= old_keys.remove(p as int));
                    lemma_filter_remove_one(old_keys, p as int);
                    assert forall|kk: Seq<char>| #[trigger] self@.contains_key(kk) == old_map.remove(k).contains_key(kk) by {
                        if old_keys.contains(kk) && kk != k {
                            let j = choose|j: int| 0 <= j < old_keys.len() && old_keys[j] == kk;
                            if j < p {
                                assert(self.keys_seq()[j] == kk);
                            } else {
                                assert(self.keys_seq()[j - 1] == kk);
                            }
                        }
                        if self.keys_seq().contains(kk) {
                            let j = choose|j: int| 0 <= j < self.keys_seq().len() && self.keys_seq()[j] == kk;
                            if j < p {
                                assert(old_keys[j] == kk);
                            } else {
                                assert(old_keys[j + 1] == kk);
                            }
                        }
                    }
                    assert forall|kk: Seq<char>| #[trigger] self@.contains_key(kk) implies self@[kk] == old_map.remove(k)[kk] by {
                        let j = choose|j: int| 0 <= j < self.keys_seq().len() && self.keys_seq()[j] == kk;
                        self.lemma_index_of(j);
                        let oj = if j < p { j } else { j + 1 };
                        lemma_index_in(old_entries, oj);
                        assert(old_keys[oj] == kk);
                    }
                    assert(self@ =~= old_map.remove(k));
                }
                Some(value)
            },
        }
    }

    /// The keys, in ascending order.
    pub fn keys(&self) -> (r: Vec<String>)
        ensures
            r@.map_values(|s: String| s@) == self.keys_seq(),
            sorted_keys(self.keys_seq()),
            self.keys_seq() == sorted_of(self@.dom()),
    {
        proof {
            use_type_invariant(self);
            self.lemma_keys();
            lemma_sorted_of(self.keys_seq());
        }
        let mut r: Vec<String> = Vec::new();
        let mut i: usize = 0;
        while i < self.entries.len()
            invariant
                i <= self.entries@.len(),
                r@.len() == i,
                forall|j: int| 0 <= j < i ==> #[trigger] r@[j]@ == self.keys_seq()[j],
            decreases self.entries@.len() - i,
        {
            let key: &String = &self.entries[i].0;
            let c: String = key.clone();
            assert(c@ == key@);
            r.push(c);
            assert(self.keys_seq()[i as int] == self.entries@[i as int].0@);
            i = i + 1;
        }
        assert(r@.map_values(|s: String| s@) =~= self.keys_seq());
        r
    }
}

impl<V: Duplicate> OrderedMap<V> {
    /// A copy of the map with the same entries in the same order.
    pub fn duplicate(&self) -> (r: Self)
        ensures
            r@ == self@,
            r.keys_seq() == self.keys_seq(),
    {
        proof {
            use_type_invariant(self);
        }
        let mut entries: Vec<(String, V)> = Vec::new();
        let mut i: usize = 0;
        while i < self.entries.len()
            invariant
                i <= self.entries@.len(),
                entries@.len() == i,
                forall|j: int| 0 <= j < i ==> #[trigger] entries@[j].0 == self.entries@[j].0,
                forall|j: int| 0 <= j < i ==> #[trigger] entries@[j].1@ == self.entries@[j].1@,
            decreases self.entries@.len() - i,
        {
            entries.push((self.entries[i].0.clone(), self.entries[i].1.duplicate()));
            i = i + 1;
        }
        assert(keys_of(entries@) =~= keys_of(self.entries@));
        let r = OrderedMap { entries };
        proof {
            assert forall|kk: Seq<char>| #[trigger] r@.contains_key(kk) implies r@[kk] == self@[kk] by {
                let j = choose|j: int| 0 <= j < r.keys_seq().len() && r.keys_seq()[j] == kk;
                r.lemma_index_of(j);
                self.lemma_index_of(j);
            }
            assert(r@ =~= self@);
        }
        r
    }
}

proof fn lemma_filter_all<A>(s: Seq<A>, pred: spec_fn(A) -> bool)
    requires
        forall|i: int| 0 <= i < s.len() ==> pred(s[i]),
    ensures
        s.filter(pred) == s,
    decreases s.len(),
{
    reveal_with_fuel(Seq::filter, 1);
    if s.len() > 0 {
        lemma_filter_all(s.drop_last(), pred);
        assert(s =~= s.drop_last().push(s.last()));
    } else {
        assert(s.filter(pred) =~= s);
    }
}

proof fn lemma_filter_remove_one(keys: Seq<Seq<char>>, p: int)
    requires
        0 <= p < keys.len(),
        forall|i: int| 0 <= i < keys.len() && i != p ==> keys[i] != keys[p],
    ensures
        keys.filter(|k: Seq<char>| k != keys[p]) == keys.remove(p),
    decreases keys.len(),
{
    let pred = |k: Seq<char>| k != keys[p];
    reveal_with_fuel(Seq::filter, 1);
    if p == keys.len() - 1 {
        lemma_filter_all(keys.drop_last(), pred);
        assert(keys.remove(p) =~= keys.drop_last());
    } else {
        let t = keys.drop_last();
        assert(t[p] == keys[p]);
        lemma_filter_remove_one(t, p);
        assert(keys.remove(p) =~= t.remove(p).push(keys.last()));
    }
}



} // verus!
