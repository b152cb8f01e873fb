//! A map from text keys to values that keeps its entries sorted by key.

use vstd::prelude::*;
use vstd::utf8::encode_utf8;
use vstd::utf8::encode_utf8_decode_utf8;
use vstd::pervasive::cloned;

verus! {

/// `a` and `b` agree on their first `p` bytes, and at `p` either `a` ends
/// while `b` goes on, or `a` holds the smaller byte.
pub open spec fn differs_below_at(a: Seq<u8>, b: Seq<u8>, p: int) -> bool {
    &&& 0 <= p <= a.len()
    &&& p <= b.len()
    &&& forall|i: int| 0 <= i < p ==> a[i] == b[i]
    &&& p < b.len()
    &&& p < a.len() ==> a[p] < b[p]
}

/// `a` comes before `b` in the lexicographic order of byte sequences.
pub open spec fn bytes_lt(a: Seq<u8>, b: Seq<u8>) -> bool {
    exists|p: int| differs_below_at(a, b, p)
}

/// `a` comes before `b` in the order of keys: that of their UTF-8 encodings.
pub open spec fn key_lt(a: Seq<char>, b: Seq<char>) -> bool {
    bytes_lt(encode_utf8(a), encode_utf8(b))
}

/// Nothing comes before itself, and of two sequences at most one comes before
/// the other.
pub proof fn lemma_bytes_lt_asymmetric(a: Seq<u8>, b: Seq<u8>)
    requires
        bytes_lt(a, b),
    ensures
        a != b,
        !bytes_lt(b, a),
{
    let p = choose|p: int| differs_below_at(a, b, p);
    if bytes_lt(b, a) {
        let q = choose|q: int| differs_below_at(b, a, q);
        if p < q {
            assert(b[p] == a[p]);
        } else if q < p {
            assert(a[q] == b[q]);
        }
    }
}

/// The order is transitive.
pub proof fn lemma_bytes_lt_transitive(a: Seq<u8>, b: Seq<u8>, c: Seq<u8>)
    requires
        bytes_lt(a, b),
        bytes_lt(b, c),
    ensures
        bytes_lt(a, c),
{
    let p = choose|p: int| differs_below_at(a, b, p);
    let q = choose|q: int| differs_below_at(b, c, q);
    let m = if p <= q { p } else { q };
    assert(differs_below_at(a, c, m));
}

/// Different keys have different encodings.
pub proof fn lemma_key_of_encoding(a: Seq<char>, b: Seq<char>)
    requires
        encode_utf8(a) == encode_utf8(b),
    ensures
        a == b,
{
    encode_utf8_decode_utf8(a);
    encode_utf8_decode_utf8(b);
}

/// The order of keys is strict and transitive.
pub proof fn lemma_key_lt_strict(a: Seq<char>, b: Seq<char>, c: Seq<char>)
    ensures
        key_lt(a, b) ==> a != b && !key_lt(b, a),
        key_lt(a, b) && key_lt(b, c) ==> key_lt(a, c),
{
    if key_lt(a, b) {
        lemma_bytes_lt_asymmetric(encode_utf8(a), encode_utf8(b));
        if key_lt(b, c) {
            lemma_bytes_lt_transitive(encode_utf8(a), encode_utf8(b), encode_utf8(c));
        }
    }
}

/// Where one byte sequence stands relative to another.
pub enum Rank {
    Below,
    Same,
    Above,
}

/// Compares two byte slices lexicographically.
pub fn rank_bytes(a: &[u8], b: &[u8]) -> (r: Rank)
    ensures
        match r {
            Rank::Below => bytes_lt(a@, b@),
            Rank::Same => a@ == b@,
            Rank::Above => bytes_lt(b@, a@),
        },
{
    let mut i: usize = 0;
    while i < a.len() && i < b.len()
        invariant
            i <= a@.len(),
            i <= b@.len(),
            forall|j: int| 0 <= j < i ==> a@[j] == b@[j],
        decreases a@.len() - i,
    {
        if a[i] < b[i] {
            assert(differs_below_at(a@, b@, i as int));
            return Rank::Below;
        }
        if a[i] > b[i] {
            assert(differs_below_at(b@, a@, i as int));
            return Rank::Above;
        }
        i = i + 1;
    }
    if i < b.len() {
        assert(differs_below_at(a@, b@, i as int));
        Rank::Below
    } else if i < a.len() {
        assert(differs_below_at(b@, a@, i as int));
        Rank::Above
    } else {
        assert(a@ =~= b@);
        Rank::Same
    }
}

/// The keys of `e` strictly increase.
pub open spec fn keys_increase<T>(e: Seq<(String, T)>) -> bool {
    forall|i: int, j: int| 0 <= i < j < e.len() ==> key_lt(#[trigger] e[i].0@, #[trigger] e[j].0@)
}

/// Some entry of `e` has the key `k`.
pub open spec fn has_key<T>(e: Seq<(String, T)>, k: Seq<char>) -> bool {
    exists|i: int| 0 <= i < e.len() && #[trigger] e[i].0@ == k
}

/// The place of an entry of `e` with the key `k`.
pub open spec fn index_of<T>(e: Seq<(String, T)>, k: Seq<char>) -> int {
    choose|i: int| 0 <= i < e.len() && #[trigger] e[i].0@ == k
}

/// The map that the entries `e` stand for.
pub open spec fn entries_map<T>(e: Seq<(String, T)>) -> Map<Seq<char>, T> {
    Map::new(|k: Seq<char>| has_key(e, k), |k: Seq<char>| e[index_of(e, k)].1)
}

/// In increasing entries a key stands at one place only.
pub proof fn lemma_key_place<T>(e: Seq<(String, T)>, i: int)
    requires
        keys_increase(e),
        0 <= i < e.len(),
    ensures
        has_key(e, e[i].0@),
        index_of(e, e[i].0@) == i,
        entries_map(e).contains_key(e[i].0@),
        entries_map(e)[e[i].0@] == e[i].1,
{
    let k = e[i].0@;
    assert(has_key(e, k));
    let j = index_of(e, k);
    if j < i {
        lemma_key_lt_strict(e[j].0@, e[i].0@, e[i].0@);
    } else if i < j {
        lemma_key_lt_strict(e[i].0@, e[j].0@, e[j].0@);
    }
}

/// A map keyed by text whose entries are held in the order of their keys,
/// each key once.
#[derive(Debug, PartialEq)]
pub struct StringMap<T> {
    pub(crate) entries: Vec<(String, T)>,
}

impl<T> View for StringMap<T> {
    type V = Map<Seq<char>, T>;

    closed spec fn view(&self) -> Map<Seq<char>, T> {
        entries_map(self.entries@)
    }
}

impl<T: Clone> Clone for StringMap<T> {
    /// A map with the same keys, each with a clone of its value.
    fn clone(&self) -> (res: Self)
        ensures
            res.entries().len() == self.entries().len(),
            forall|i: int|
                0 <= i < self.entries().len() ==> #[trigger] res.entries()[i].0@
                    == self.entries()[i].0@,
            forall|i: int|
                0 <= i < self.entries().len() ==> cloned::<T>(
                    self.entries()[i].1,
                    #[trigger] res.entries()[i].1,
                ),
    {
        proof {
            use_type_invariant(self);
        }
        let mut entries: Vec<(String, T)> = Vec::new();
        let mut i: usize = 0;
        while i < self.entries.len()
            invariant
                i <= self.entries@.len(),
                entries@.len() == i,
                forall|j: int| 0 <= j < i ==> #[trigger] entries@[j].0@ == self.entries@[j].0@,
                forall|j: int|
                    0 <= j < i ==> cloned::<T>(self.entries@[j].1, #[trigger] entries@[j].1),
            decreases self.entries@.len() - i,
        {
            let e = &self.entries[i];
            entries.push((e.0.clone(), e.1.clone()));
            i = i + 1;
        }
        proof {
            assert forall|a: int, b: int| 0 <= a < b < entries@.len() implies key_lt(
                #[trigger] entries@[a].0@,
                #[trigger] entries@[b].0@,
            ) by {
                assert(key_lt(self.entries@[a].0@, self.entries@[b].0@));
            }
        }
        StringMap { entries }
    }
}

impl<T> StringMap<T> {
    #[verifier::type_invariant]
    pub closed spec fn ordered(self) -> bool {
        keys_increase(self.entries@)
    }

    /// The entries in the order in which they are held.
    pub closed spec fn entries(&self) -> Seq<(String, T)> {
        self.entries@
    }

    /// The entries are those of the field that holds them.
    pub(crate) proof fn lemma_entries(self)
        ensures
            self.entries() == self.entries@,
    {
    }

    /// The map and the held entries say the same.
    pub proof fn lemma_view(self)
        ensures
            self@ == entries_map(self.entries()),
            self@.dom().finite(),
    {
        let e = self.entries@;
        let keys = Set::new(|k: Seq<char>| has_key(e, k));
        let places = Set::new(|i: int| 0 <= i < e.len());
        vstd::set_lib::lemma_int_range(0, e.len() as int);
        assert(places =~= vstd::set_lib::set_int_range(0, e.len() as int));
        let image = places.map(|i: int| e[i].0@);
        places.lemma_map_finite(|i: int| e[i].0@);
        assert forall|k: Seq<char>| keys.contains(k) implies image.contains(k) by {
            let i = index_of(e, k);
            assert(places.contains(i));
        }
        vstd::set_lib::lemma_len_subset(keys, image);
        assert(self@.dom() =~= keys);
    }

    /// An empty map.
    pub fn new() -> (m: Self)
        ensures
            m@ == Map::<Seq<char>, T>::empty(),
            m.entries().len() == 0,
    {
        let m = StringMap { entries: Vec::new() };
        assert(m@ =~= Map::<Seq<char>, T>::empty());
        m
    }

    /// The number of entries.
    pub fn len(&self) -> (n: usize)
        ensures
            n == self.entries().len(),
            keys_increase(self.entries()),
            self@ == entries_map(self.entries()),
    {
        proof {
            use_type_invariant(self);
        }
        self.entries.len()
    }

    /// The key and the value of the entry at place `i`.
    pub fn entry(&self, i: usize) -> (kv: (&String, &T))
        requires
            i < self.entries().len(),
        ensures
            *kv.0 == self.entries()[i as int].0,
            *kv.1 == self.entries()[i as int].1,
            self@.contains_key(kv.0@),
            self@[kv.0@] == *kv.1,
    {
        proof {
            use_type_invariant(self);
            lemma_key_place(self.entries@, i as int);
        }
        let e = &self.entries[i];
        (&e.0, &e.1)
    }

    /// The first place whose key is not before `key`, and whether the key
    /// there is `key` itself.
    fn find(&self, key: &str) -> (at: (usize, bool))
        ensures
            at.0 <= self.entries().len(),
            forall|i: int| 0 <= i < at.0 ==> key_lt(#[trigger] self.entries()[i].0@, key@),
            at.1 ==> at.0 < self.entries().len() && self.entries()[at.0 as int].0@ == key@,
            !at.1 ==> forall|i: int|
                at.0 <= i < self.entries().len() ==> key_lt(key@, #[trigger] self.entries()[i].0@),
    {
        proof {
            use_type_invariant(self);
        }
        let target = key.as_bytes();
        let mut lo: usize = 0;
        let mut hi: usize = self.entries.len();
        while lo < hi
            invariant
                lo <= hi <= self.entries@.len(),
                keys_increase(self.entries@),
                target@ == encode_utf8(key@),
                forall|i: int| 0 <= i < lo ==> key_lt(#[trigger] self.entries@[i].0@, key@),
                forall|i: int|
                    hi <= i < self.entries@.len() ==> key_lt(key@, #[trigger] self.entries@[i].0@),
            decreases hi - lo,
        {
            let mid = lo + (hi - lo) / 2;
            let here = self.entries[mid].0.as_str().as_bytes();
            match rank_bytes(here, target) {
                Rank::Below => {
                    proof {
                        assert forall|i: int| 0 <= i < mid + 1 implies key_lt(
                            #[trigger] self.entries@[i].0@,
                            key@,
                        ) by {
                            if i < mid {
                                lemma_key_lt_strict(
                                    self.entries@[i].0@,
                                    self.entries@[mid as int].0@,
                                    key@,
                                );
                            }
                        }
                    }
                    lo = mid + 1;
                },
                Rank::Above => {
                    proof {
                        assert forall|i: int| mid <= i < self.entries@.len() implies key_lt(
                            key@,
                            #[trigger] self.entries@[i].0@,
                        ) by {
                            if mid < i {
                                lemma_key_lt_strict(
                                    key@,
                                    self.entries@[mid as int].0@,
                                    self.entries@[i].0@,
                                );
                            }
                        }
                    }
                    hi = mid;
                },
                Rank::Same => {
                    proof {
                        lemma_key_of_encoding(self.entries@[mid as int].0@, key@);
                        assert forall|i: int| 0 <= i < mid implies key_lt(
                            #[trigger] self.entries@[i].0@,
                            key@,
                        ) by {}
                    }
                    return (mid, true);
                },
            }
        }
        (lo, false)
    }

    /// No entry has the key `k` when every entry before `at` comes before
    /// `k` and every other one after it.
    proof fn lemma_absent(e: Seq<(String, T)>, k: Seq<char>, at: int)
        requires
            0 <= at <= e.len(),
            forall|i: int| 0 <= i < at ==> key_lt(#[trigger] e[i].0@, k),
            forall|i: int| at <= i < e.len() ==> key_lt(k, #[trigger] e[i].0@),
        ensures
            !has_key(e, k),
    {
        if has_key(e, k) {
            let i = index_of(e, k);
            lemma_key_lt_strict(k, k, k);
        }
    }

    /// The value under `key`, if the map has one.
    pub fn get(&self, key: &str) -> (res: Option<&T>)
        ensures
            match res {
                Some(v) => self@.contains_key(key@) && *v == self@[key@],
                None => !self@.contains_key(key@),
            },
    {
        proof {
            use_type_invariant(self);
        }
        let at = self.find(key);
        if at.1 {
            proof {
                lemma_key_place(self.entries@, at.0 as int);
            }
            Some(&self.entries[at.0].1)
        } else {
            proof {
                Self::lemma_absent(self.entries@, key@, at.0 as int);
            }
            None
        }
    }

    /// Whether the map has an entry under `key`.
    pub fn contains_key(&self, key: &str) -> (res: bool)
        ensures
            res == self@.contains_key(key@),
    {
        self.get(key).is_some()
    }

    /// Consumes the map and hands out the value under `key`, if there is one.
    pub fn into_value(self, key: &str) -> (res: Option<T>)
        ensures
            match res {
                Some(v) => self@.contains_key(key@) && v == self@[key@],
                None => !self@.contains_key(key@),
            },
    {
        proof {
            use_type_invariant(&self);
        }
        let at = self.find(key);
        let StringMap { entries } = self;
        let mut entries = entries;
        if at.1 {
            proof {
                lemma_key_place(entries@, at.0 as int);
            }
            let (_, value) = entries.swap_remove(at.0);
            Some(value)
        } else {
            proof {
                Self::lemma_absent(entries@, key@, at.0 as int);
            }
            None
        }
    }

    /// Puts `value` under `key`, in place of the value that was there, which
    /// is returned.
    pub fn insert(&mut self, key: String, value: T) -> (res: Option<T>)
        ensures
            final(self)@ == old(self)@.insert(key@, value),
            match res {
                Some(v) => old(self)@.contains_key(key@) && v == old(self)@[key@],
                None => !old(self)@.contains_key(key@),
            },
    {
        proof {
            use_type_invariant(&*self);
        }
        let at = self.find(key.as_str());
        let ghost before = self.entries@;
        let ghost k = key@;
        let mut held: Vec<(String, T)> = Vec::new();
        core::mem::swap(&mut self.entries, &mut held);
        let res = if at.1 {
            proof {
                lemma_key_place(before, at.0 as int);
            }
            held.push((key, value));
            let replaced = held.swap_remove(at.0);
            proof {
                let after = held@;
                assert(after =~= before.update(at.0 as int, after[at.0 as int]));
                assert forall|i: int, j: int| 0 <= i < j < after.len() implies key_lt(
                    #[trigger] after[i].0@,
                    #[trigger] after[j].0@,
                ) by {
                    assert(key_lt(before[i].0@, before[j].0@));
                }
                Self::lemma_replaced(before, after, at.0 as int);
            }
            Some(replaced.1)
        } else {
            held.insert(at.0, (key, value));
            proof {
                let after = held@;
                Self::lemma_absent(before, k, at.0 as int);
                assert forall|i: int, j: int| 0 <= i < j < after.len() implies key_lt(
                    #[trigger] after[i].0@,
                    #[trigger] after[j].0@,
                ) by {
                    if i == at.0 {
                        assert(after[j] == before[j - 1]);
                    } else if j == at.0 {
                        assert(after[i] == before[i]);
                    } else {
                        let bi = if i < at.0 { i } else { i - 1 };
                        let bj = if j < at.0 { j } else { j - 1 };
                        assert(after[i] == before[bi]);
                        assert(after[j] == before[bj]);
                        assert(key_lt(before[bi].0@, before[bj].0@));
                    }
                }
                Self::lemma_inserted(before, after, at.0 as int);
            }
            None
        };
        core::mem::swap(&mut self.entries, &mut held);
        res
    }

    /// Replacing the value of the entry at `at` updates the map at its key.
    proof fn lemma_replaced(before: Seq<(String, T)>, after: Seq<(String, T)>, at: int)
        requires
            keys_increase(before),
            keys_increase(after),
            0 <= at < before.len(),
            after == before.update(at, after[at]),
            after[at].0@ == before[at].0@,
        ensures
            entries_map(after) == entries_map(before).insert(after[at].0@, after[at].1),
    {
        let k = after[at].0@;
        let lhs = entries_map(after);
        let rhs = entries_map(before).insert(k, after[at].1);
        assert forall|q: Seq<char>| lhs.contains_key(q) <==> rhs.contains_key(q) by {
            if has_key(after, q) {
                let i = index_of(after, q);
                if i != at {
                    assert(before[i].0@ == q);
                }
            }
            if q != k && has_key(before, q) {
                let i = index_of(before, q);
                assert(after[i].0@ == q);
            }
            if q == k {
                assert(after[at].0@ == q);
            }
        }
        assert forall|q: Seq<char>| lhs.contains_key(q) implies lhs[q] == rhs[q] by {
            let i = index_of(after, q);
            lemma_key_place(after, i);
            if i != at {
                assert(before[i] == after[i]);
                lemma_key_place(before, i);
            }
        }
        assert(lhs =~= rhs);
    }

    /// A new entry at `at`, under a key that was absent, extends the map by it.
    pub proof fn lemma_inserted(before: Seq<(String, T)>, after: Seq<(String, T)>, at: int)
        requires
            keys_increase(before),
            keys_increase(after),
            0 <= at <= before.len(),
            after == before.insert(at, after[at]),
            !has_key(before, after[at].0@),
        ensures
            entries_map(after) == entries_map(before).insert(after[at].0@, after[at].1),
    {
        let k = after[at].0@;
        let lhs = entries_map(after);
        let rhs = entries_map(before).insert(k, after[at].1);
        assert forall|q: Seq<char>| lhs.contains_key(q) <==> rhs.contains_key(q) by {
            if has_key(after, q) {
                let i = index_of(after, q);
                if i < at {
                    assert(before[i].0@ == q);
                } else if i > at {
                    assert(before[i - 1].0@ == q);
                }
            }
            if q != k && has_key(before, q) {
                let i = index_of(before, q);
                if i < at {
                    assert(after[i].0@ == q);
                } else {
                    assert(after[i + 1].0@ == q);
                }
            }
            if q == k {
                assert(after[at].0@ == q);
            }
        }
        assert forall|q: Seq<char>| lhs.contains_key(q) implies lhs[q] == rhs[q] by {
            let i = index_of(after, q);
            lemma_key_place(after, i);
            if i < at {
                assert(before[i] == after[i]);
                lemma_key_place(before, i);
            } else if i > at {
                assert(before[i - 1] == after[i]);
                lemma_key_place(before, i - 1);
            }
        }
        assert(lhs =~= rhs);
    }
}

} // verus!
