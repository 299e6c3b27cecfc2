//! An ordered map from text keys to values: the entries are kept sorted by key in
//! `String`'s order, so walking them gives the order of a `BTreeMap<String, V>`.
use vstd::prelude::*;
use crate::text::{text_lt, text_eq, text_less, lemma_text_lt_irreflexive, lemma_text_lt_transitive, lemma_text_lt_total};

verus! {

/// Keys strictly increasing in text order (hence no key occurs twice).
pub open spec fn strictly_sorted(ks: Seq<Seq<char>>) -> bool {
    forall|i: int, j: int| 0 <= i < j < ks.len() ==> text_lt(#[trigger] ks[i], #[trigger] ks[j])
}

/// Map from a text key to a value, kept in key order.
#[derive(Debug, Clone)]
pub struct TextMap<V> {
    keys: Vec<String>,
    vals: Vec<V>,
}

/// The map that the entries stand for.
impl<T> View for TextMap<T> {
    type V = Map<Seq<char>, T>;

    open spec fn view(&self) -> Map<Seq<char>, T> {
        Map::new(|k: Seq<char>| self.key_seq().contains(k), |k: Seq<char>| self.value_of(k))
    }
}

impl<V> TextMap<V> {
    /// The keys, in the order they are stored.
    pub closed spec fn key_seq(&self) -> Seq<Seq<char>> {
        self.keys@.map_values(|k: String| k@)
    }

    /// The values, in key order.
    pub closed spec fn val_seq(&self) -> Seq<V> {
        self.vals@
    }

    /// Well-formedness: as many values as keys, keys strictly increasing.
    pub open spec fn wf(&self) -> bool {
        &&& self.key_seq().len() == self.val_seq().len()
        &&& strictly_sorted(self.key_seq())
    }

    /// The value stored under key `k`.
    pub open spec fn value_of(&self, k: Seq<char>) -> V {
        self.val_seq()[self.key_seq().index_of(k)]
    }

    proof fn lemma_index_unique(&self, i: int)
        requires
            self.wf(),
            0 <= i < self.key_seq().len(),
        ensures
            self.key_seq().index_of(self.key_seq()[i]) == i,
            self.value_of(self.key_seq()[i]) == self.val_seq()[i],
    {
        let ks = self.key_seq();
        let j = ks.index_of(ks[i]);
        assert(ks.contains(ks[i]));
        if j < i {
            lemma_text_lt_irreflexive(ks[i]);
        } else if j > i {
            lemma_text_lt_irreflexive(ks[i]);
        }
    }

    /// Entry `i` of the map view: key `i` maps to value `i`.
    pub proof fn lemma_entry(&self, i: int)
        requires
            self.wf(),
            0 <= i < self.key_seq().len(),
        ensures
            self@.contains_key(self.key_seq()[i]),
            self@[self.key_seq()[i]] == self.val_seq()[i],
    {
        self.lemma_index_unique(i);
    }

    /// A key of the view sits at some position.
    pub proof fn lemma_key_position(&self, k: Seq<char>)
        requires
            self.wf(),
            self@.contains_key(k),
        ensures
            0 <= self.key_seq().index_of(k) < self.key_seq().len(),
            self.key_seq()[self.key_seq().index_of(k)] == k,
    {
    }

    /// An empty map.
    pub fn new() -> (r: Self)
        ensures
            r.wf(),
            r.key_seq().len() == 0,
            r@ == Map::<Seq<char>, V>::empty(),
    {
        let r = TextMap { keys: Vec::new(), vals: Vec::new() };
        assert(r.key_seq() =~= Seq::<Seq<char>>::empty());
        assert(r@ =~= Map::<Seq<char>, V>::empty());
        r
    }

    /// Number of entries.
    pub fn len(&self) -> (r: usize)
        requires
            self.wf(),
        ensures
            r == self.key_seq().len(),
    {
        self.keys.len()
    }

    /// Whether there are no entries.
    pub fn is_empty(&self) -> (r: bool)
        requires
            self.wf(),
        ensures
            r == (self.key_seq().len() == 0),
            r == (self@ == Map::<Seq<char>, V>::empty()),
    {
        if self.keys.len() == 0 {
            assert(self@ =~= Map::<Seq<char>, V>::empty());
            true
        } else {
            proof { self.lemma_entry(0); }
            assert(self@.contains_key(self.key_seq()[0]));
            false
        }
    }

    /// The key at position `i`.
    pub fn key_at(&self, i: usize) -> (r: &String)
        requires
            self.wf(),
            i < self.key_seq().len(),
        ensures
            r@ == self.key_seq()[i as int],
    {
        &self.keys[i]
    }

    /// The value at position `i`.
    pub fn value_at(&self, i: usize) -> (r: &V)
        requires
            self.wf(),
            i < self.key_seq().len(),
        ensures
            *r == self.val_seq()[i as int],
    {
        &self.vals[i]
    }

    /// The value at position `i`, to change in place.
    pub fn value_at_mut(&mut self, i: usize) -> (r: &mut V)
        requires
            old(self).wf(),
            i < old(self).key_seq().len(),
        ensures
            *r == old(self).val_seq()[i as int],
            final(self).key_seq() == old(self).key_seq(),
            final(self).val_seq() == old(self).val_seq().update(i as int, *final(r)),
    {
        &mut self.vals[i]
    }

    /// The keys in order.
    pub fn keys(&self) -> (r: &Vec<String>)
        requires
            self.wf(),
        ensures
            r@.map_values(|k: String| k@) == self.key_seq(),
            r@.len() == self.key_seq().len(),
            forall|i: int| 0 <= i < r@.len() ==> (#[trigger] r@[i])@ == self.key_seq()[i],
    {
        &self.keys
    }

    /// The values in key order.
    pub fn values(&self) -> (r: &Vec<V>)
        requires
            self.wf(),
        ensures
            r@ == self.val_seq(),
    {
        &self.vals
    }

    /// The values in key order, to change in place (the keys stay).
    pub fn values_mut(&mut self) -> (r: &mut [V])
        requires
            old(self).wf(),
        ensures
            r@ == old(self).val_seq(),
            final(self).key_seq() == old(self).key_seq(),
            final(self).val_seq() == final(r)@,
    {
        self.vals.as_mut_slice()
    }

    /// Where `k` is, or where it would go: every key before `pos` is smaller,
    /// and if `k` is absent every key from `pos` on is larger.
    fn locate(&self, k: &str) -> (r: (usize, bool))
        requires
            self.wf(),
        ensures
            r.0 <= self.key_seq().len(),
            forall|j: int| 0 <= j < r.0 ==> text_lt(#[trigger] self.key_seq()[j], k@),
            r.1 <==> (r.0 < self.key_seq().len() && self.key_seq()[r.0 as int] == k@),
            !r.1 ==> forall|j: int| r.0 <= j < self.key_seq().len() ==> text_lt(k@, #[trigger] self.key_seq()[j]),
            r.1 <==> self@.contains_key(k@),
    {
        let n = self.keys.len();
        let mut i: usize = 0;
        while i < n && text_less(self.keys[i].as_str(), k)
            invariant
                n == self.key_seq().len(),
                self.wf(),
                i <= n,
                forall|j: int| 0 <= j < i ==> text_lt(#[trigger] self.key_seq()[j], k@),
            decreases n - i,
        {
            i = i + 1;
        }
        let found = i < n && text_eq(self.keys[i].as_str(), k);
        proof {
            let ks = self.key_seq();
            if i < n {
                assert(ks[i as int] == self.keys@[i as int]@);
                if !found {
                    lemma_text_lt_total(ks[i as int], k@);
                    assert forall|j: int| i <= j < ks.len() implies text_lt(k@, #[trigger] ks[j]) by {
                        if j > i {
                            lemma_text_lt_transitive(k@, ks[i as int], ks[j]);
                        }
                    }
                }
            }
            if found {
                self.lemma_entry(i as int);
            } else if self@.contains_key(k@) {
                let p = ks.index_of(k@);
                if p < i {
                    lemma_text_lt_irreflexive(k@);
                } else {
                    lemma_text_lt_irreflexive(k@);
                }
            }
        }
        (i, found)
    }

    /// Whether `k` is a key.
    pub fn contains_key(&self, k: &str) -> (r: bool)
        requires
            self.wf(),
        ensures
            r == self@.contains_key(k@),
    {
        self.locate(k).1
    }

    /// The position of key `k`, if it is there.
    pub fn position(&self, k: &str) -> (r: Option<usize>)
        requires
            self.wf(),
        ensures
            r is Some <==> self@.contains_key(k@),
            r is Some ==> r->0 < self.key_seq().len() && self.key_seq()[r->0 as int] == k@,
    {
        let (i, found) = self.locate(k);
        if found {
            Some(i)
        } else {
            None
        }
    }

    /// The value under `k`, if any.
    pub fn get(&self, k: &str) -> (r: Option<&V>)
        requires
            self.wf(),
        ensures
            r is Some <==> self@.contains_key(k@),
            r is Some ==> *r->0 == self@[k@],
    {
        let (i, found) = self.locate(k);
        if found {
            proof { self.lemma_entry(i as int); }
            Some(&self.vals[i])
        } else {
            None
        }
    }

    /// The value under `k`, to change in place, if any.
    pub fn get_mut(&mut self, k: &str) -> (r: Option<&mut V>)
        requires
            old(self).wf(),
        ensures
            r is Some <==> old(self)@.contains_key(k@),
            r is None ==> *final(self) == *old(self),
            r is Some ==> *r->0 == old(self)@[k@],
            final(self).key_seq() == old(self).key_seq(),
            r is Some ==> final(self).val_seq() == old(self).val_seq().update(
                old(self).key_seq().index_of(k@),
                *final(r->0),
            ),
    {
        let (i, found) = self.locate(k);
        if found {
            proof { self.lemma_entry(i as int); self.lemma_index_unique(i as int); }
            Some(self.value_at_mut(i))
        } else {
            None
        }
    }

    /// Changing the value at one position changes the view at that key only.
    pub proof fn lemma_update_view(&self, other: &Self, i: int)
        requires
            self.wf(),
            0 <= i < self.key_seq().len(),
            other.key_seq() == self.key_seq(),
            other.val_seq() == self.val_seq().update(i, other.val_seq()[i]),
        ensures
            other.wf(),
            other@ == self@.insert(self.key_seq()[i], other.val_seq()[i]),
    {
        let k = self.key_seq()[i];
        let x = other.val_seq()[i];
        assert forall|q: Seq<char>| #[trigger] other@.contains_key(q) == self@.insert(k, x).contains_key(q) by {}
        assert(other.val_seq().len() == self.val_seq().len());
        assert(other.wf());
        assert forall|q: Seq<char>| other@.contains_key(q) implies #[trigger] other@[q] == self@.insert(k, x)[q] by {
            let p = self.key_seq().index_of(q);
            assert(self.key_seq().contains(q));
            assert(0 <= p < self.key_seq().len() && self.key_seq()[p] == q);
            other.lemma_index_unique(p);
            self.lemma_index_unique(p);
            self.lemma_index_unique(i);
            assert(other@[q] == other.value_of(q));
            assert(other.value_of(q) == other.val_seq()[p]);
            if p == i {
                assert(q == k);
                assert(other@[q] == x);
            } else {
                assert(other.val_seq()[p] == self.val_seq()[p]);
                assert(self@[q] == self.val_seq()[p]);
                assert(other@[q] == self@[q]);
            }
        }
        assert(other@ =~= self@.insert(k, x));
    }

    /// The first entry in key order, if any: the one with the smallest key.
    pub fn first(&self) -> (r: Option<(&String, &V)>)
        requires
            self.wf(),
        ensures
            r is Some <==> self.key_seq().len() > 0,
            r is Some ==> ((r->0).0)@ == self.key_seq()[0] && *(r->0).1 == self.val_seq()[0],
            r is Some ==> self@.contains_key(((r->0).0)@) && self@[((r->0).0)@] == *(r->0).1,
            r is Some ==> forall|k: Seq<char>| #[trigger] self@.contains_key(k) && k != ((r->0).0)@ ==> text_lt(((r->0).0)@, k),
    {
        if self.keys.len() == 0 {
            None
        } else {
            proof {
                self.lemma_entry(0);
                assert forall|k: Seq<char>| #[trigger] self@.contains_key(k) && k != self.key_seq()[0] implies text_lt(self.key_seq()[0], k) by {
                    let p = self.key_seq().index_of(k);
                    assert(p != 0);
                }
            }
            Some((&self.keys[0], &self.vals[0]))
        }
    }

    /// Append an entry whose key is larger than every key there.
    pub fn push_last(&mut self, k: String, v: V)
        requires
            old(self).wf(),
            forall|j: int| 0 <= j < old(self).key_seq().len() ==> text_lt(#[trigger] old(self).key_seq()[j], k@),
        ensures
            final(self).wf(),
            final(self).key_seq() == old(self).key_seq().push(k@),
            final(self).val_seq() == old(self).val_seq().push(v),
    {
        let ghost ks0 = self.key_seq();
        self.keys.push(k);
        self.vals.push(v);
        proof {
            let ks = self.key_seq();
            assert(ks =~= ks0.push(k@));
            assert forall|a: int, b: int| 0 <= a < b < ks.len() implies text_lt(#[trigger] ks[a], #[trigger] ks[b]) by {
                if b == ks0.len() {
                    assert(ks[a] == ks0[a]);
                }
            }
        }
    }

    /// Store `v` under `k`, replacing any value there.
    pub fn insert(&mut self, k: String, v: V)
        requires
            old(self).wf(),
        ensures
            final(self).wf(),
            final(self)@ == old(self)@.insert(k@, v),
    {
        let (i, found) = self.locate(k.as_str());
        let ghost ks0 = self.key_seq();
        let ghost vs0 = self.val_seq();
        if found {
            self.vals.set(i, v);
            proof {
                assert(self.key_seq() == ks0);
                assert forall|q: Seq<char>| #[trigger] self@.contains_key(q) == old(self)@.insert(k@, v).contains_key(q) by {}
                assert(self.wf());
                assert forall|q: Seq<char>| self@.contains_key(q) implies #[trigger] self@[q] == old(self)@.insert(k@, v)[q] by {
                    let p = ks0.index_of(q);
                    assert(ks0.contains(q));
                    assert(0 <= p < ks0.len() && ks0[p] == q);
                    self.lemma_index_unique(p);
                    old(self).lemma_index_unique(p);
                    old(self).lemma_index_unique(i as int);
                    if p == i {
                        assert(q == k@);
                    } else {
                        assert(self.val_seq()[p] == vs0[p]);
                    }
                }
                assert(self@ =~= old(self)@.insert(k@, v));
            }
        } else {
            self.keys.insert(i, k);
            self.vals.insert(i, v);
            proof {
                let ks = self.key_seq();
                assert(ks =~= ks0.insert(i as int, k@));
                assert(self.val_seq() =~= vs0.insert(i as int, v));
                assert forall|a: int, b: int| 0 <= a < b < ks.len() implies text_lt(#[trigger] ks[a], #[trigger] ks[b]) by {
                    if a < i && b > i {
                        assert(ks[b] == ks0[b - 1]);
                        lemma_text_lt_transitive(ks[a], k@, ks[b]);
                    } else if a < i && b == i {
                    } else if a == i {
                        assert(ks[b] == ks0[b - 1]);
                    } else if a > i {
                        assert(ks[a] == ks0[a - 1]);
                        assert(ks[b] == ks0[b - 1]);
                    } else {
                    }
                }
                assert forall|q: Seq<char>| #[trigger] self@.contains_key(q) == old(self)@.insert(k@, v).contains_key(q) by {
                    if ks0.contains(q) {
                        let p = ks0.index_of(q);
                        if p < i {
                            assert(ks[p] == q);
                        } else {
                            assert(ks[p + 1] == q);
                        }
                    }
                    if ks.contains(q) && q != k@ {
                        let p = ks.index_of(q);
                        if p < i {
                            assert(ks0[p] == q);
                        } else {
                            assert(ks0[p - 1] == q);
                        }
                    }
                    if q == k@ {
                        assert(ks[i as int] == q);
                    }
                }
                assert forall|q: Seq<char>| self@.contains_key(q) implies #[trigger] self@[q] == old(self)@.insert(k@, v)[q] by {
                    let p = ks.index_of(q);
                    self.lemma_index_unique(p);
                    if p < i {
                        old(self).lemma_index_unique(p);
                    } else if p > i {
                        old(self).lemma_index_unique(p - 1);
                    }
                }
                assert(self@ =~= old(self)@.insert(k@, v));
            }
        }
    }

    /// Take out the entry under `k`, giving back its key and value.
    pub fn remove(&mut self, k: &str) -> (r: Option<(String, V)>)
        requires
            old(self).wf(),
        ensures
            final(self).wf(),
            r is Some <==> old(self)@.contains_key(k@),
            r is Some ==> ((r->0).0)@ == k@ && (r->0).1 == old(self)@[k@],
            final(self)@ == old(self)@.remove(k@),
    {
        let (i, found) = self.locate(k);
        if !found {
            assert(self@ =~= old(self)@.remove(k@));
            return None;
        }
        proof { self.lemma_entry(i as int); }
        let ghost ks0 = self.key_seq();
        let ghost vs0 = self.val_seq();
        let key = self.keys.remove(i);
        let val = self.vals.remove(i);
        proof {
            let ks = self.key_seq();
            assert(ks =~= ks0.remove(i as int));
            assert(self.val_seq() =~= vs0.remove(i as int));
            assert forall|a: int, b: int| 0 <= a < b < ks.len() implies text_lt(#[trigger] ks[a], #[trigger] ks[b]) by {
                if a < i && b >= i {
                    assert(ks[b] == ks0[b + 1]);
                } else if a >= i {
                    assert(ks[a] == ks0[a + 1]);
                    assert(ks[b] == ks0[b + 1]);
                }
            }
            assert forall|q: Seq<char>| #[trigger] self@.contains_key(q) == old(self)@.remove(k@).contains_key(q) by {
                if ks0.contains(q) && q != k@ {
                    let p = ks0.index_of(q);
                    if p < i {
                        assert(ks[p] == q);
                    } else {
                        assert(p != i);
                        assert(ks[p - 1] == q);
                    }
                }
                if ks.contains(q) {
                    let p = ks.index_of(q);
                    if p < i {
                        assert(ks0[p] == q);
                        lemma_text_lt_irreflexive(q);
                    } else {
                        assert(ks0[p + 1] == q);
                        lemma_text_lt_irreflexive(q);
                    }
                }
            }
            assert forall|q: Seq<char>| self@.contains_key(q) implies #[trigger] self@[q] == old(self)@.remove(k@)[q] by {
                let p = ks.index_of(q);
                self.lemma_index_unique(p);
                if p < i {
                    old(self).lemma_index_unique(p);
                } else {
                    old(self).lemma_index_unique(p + 1);
                }
            }
            assert(self@ =~= old(self)@.remove(k@));
        }
        Some((key, val))
    }

    /// Take out the first entry in key order, if any.
    pub fn pop_first(&mut self) -> (r: Option<(String, V)>)
        requires
            old(self).wf(),
        ensures
            final(self).wf(),
            r is Some <==> old(self).key_seq().len() > 0,
            r is Some ==> ((r->0).0)@ == old(self).key_seq()[0] && (r->0).1 == old(self).val_seq()[0],
            final(self).key_seq() == (if old(self).key_seq().len() > 0 { old(self).key_seq().drop_first() } else { old(self).key_seq() }),
            final(self).val_seq() == (if old(self).key_seq().len() > 0 { old(self).val_seq().drop_first() } else { old(self).val_seq() }),
            r is Some ==> final(self)@ == old(self)@.remove(old(self).key_seq()[0]),
            r is None ==> final(self)@ == old(self)@,
    {
        if self.keys.len() == 0 {
            return None;
        }
        let ghost ks0 = self.key_seq();
        let ghost vs0 = self.val_seq();
        let r = self.remove_at(0);
        proof {
            assert(self.key_seq() =~= ks0.drop_first());
            assert(self.val_seq() =~= vs0.drop_first());
        }
        Some(r)
    }

    fn remove_at(&mut self, i: usize) -> (r: (String, V))
        requires
            old(self).wf(),
            i < old(self).key_seq().len(),
        ensures
            final(self).wf(),
            r.0@ == old(self).key_seq()[i as int],
            r.1 == old(self).val_seq()[i as int],
            final(self).key_seq() == old(self).key_seq().remove(i as int),
            final(self).val_seq() == old(self).val_seq().remove(i as int),
            final(self)@ == old(self)@.remove(old(self).key_seq()[i as int]),
    {
        proof { self.lemma_entry(i as int); }
        let ghost k = self.key_seq()[i as int];
        let ghost ks0 = self.key_seq();
        let ghost vs0 = self.val_seq();
        let key = self.keys.remove(i);
        let val = self.vals.remove(i);
        proof {
            let ks = self.key_seq();
            assert(ks =~= ks0.remove(i as int));
            assert(self.val_seq() =~= vs0.remove(i as int));
            assert forall|a: int, b: int| 0 <= a < b < ks.len() implies text_lt(#[trigger] ks[a], #[trigger] ks[b]) by {
                if a < i && b >= i {
                    assert(ks[b] == ks0[b + 1]);
                } else if a >= i {
                    assert(ks[a] == ks0[a + 1]);
                    assert(ks[b] == ks0[b + 1]);
                }
            }
            assert forall|q: Seq<char>| #[trigger] self@.contains_key(q) == old(self)@.remove(k).contains_key(q) by {
                if ks0.contains(q) && q != k {
                    let p = ks0.index_of(q);
                    if p < i {
                        assert(ks[p] == q);
                    } else {
                        assert(p != i);
                        assert(ks[p - 1] == q);
                    }
                }
                if ks.contains(q) {
                    let p = ks.index_of(q);
                    if p < i {
                        assert(ks0[p] == q);
                        lemma_text_lt_irreflexive(q);
                    } else {
                        assert(ks0[p + 1] == q);
                        lemma_text_lt_irreflexive(q);
                    }
                }
            }
            assert forall|q: Seq<char>| self@.contains_key(q) implies #[trigger] self@[q] == old(self)@.remove(k)[q] by {
                let p = ks.index_of(q);
                self.lemma_index_unique(p);
                if p < i {
                    old(self).lemma_index_unique(p);
                } else {
                    old(self).lemma_index_unique(p + 1);
                }
            }
            assert(self@ =~= old(self)@.remove(k));
        }
        (key, val)
    }
}

} // verus!

verus! {

/// A map from pairs of text keys to values, ordered by first key and then second.
#[derive(Debug, Clone)]
pub struct PairMap<V> {
    outer: TextMap<TextMap<V>>,
}

impl<V> View for PairMap<V> {
    type V = Map<(Seq<char>, Seq<char>), V>;

    closed spec fn view(&self) -> Map<(Seq<char>, Seq<char>), V> {
        Map::new(
            |p: (Seq<char>, Seq<char>)| self.outer@.contains_key(p.0) && self.outer@[p.0]@.contains_key(p.1),
            |p: (Seq<char>, Seq<char>)| self.outer@[p.0]@[p.1],
        )
    }
}

impl<V> PairMap<V> {
    pub closed spec fn wf(&self) -> bool {
        &&& self.outer.wf()
        &&& forall|i: int| 0 <= i < self.outer.val_seq().len() ==> (#[trigger] self.outer.val_seq()[i]).wf()
    }

    proof fn lemma_inner(&self, a: Seq<char>)
        requires
            self.wf(),
            self.outer@.contains_key(a),
        ensures
            self.outer@[a].wf(),
    {
        self.outer.lemma_key_position(a);
        let i = self.outer.key_seq().index_of(a);
        self.outer.lemma_entry(i);
    }

    pub fn new() -> (r: Self)
        ensures
            r.wf(),
            r@ == Map::<(Seq<char>, Seq<char>), V>::empty(),
    {
        let r = PairMap { outer: TextMap::new() };
        assert(r@ =~= Map::<(Seq<char>, Seq<char>), V>::empty());
        r
    }

    /// Store `v` for the pair `(a, b)`.
    pub fn insert(&mut self, a: &str, b: &str, v: V)
        requires
            old(self).wf(),
        ensures
            final(self).wf(),
            final(self)@ == old(self)@.insert((a@, b@), v),
    {
        match self.outer.position(a) {
            Some(i) => {
                proof { old(self).outer.lemma_entry(i as int); }
                let inner = self.outer.value_at_mut(i);
                inner.insert(b.to_string(), v);
                proof {
                    old(self).outer.lemma_update_view(&self.outer, i as int);
                    assert forall|j: int| 0 <= j < self.outer.val_seq().len() implies (#[trigger] self.outer.val_seq()[j]).wf() by {
                        if j != i {
                            assert(self.outer.val_seq()[j] == old(self).outer.val_seq()[j]);
                        }
                    }
                    assert forall|p: (Seq<char>, Seq<char>)| #[trigger] self@.contains_key(p) == old(self)@.insert((a@, b@), v).contains_key(p) by {}
                    assert(self@ =~= old(self)@.insert((a@, b@), v));
                }
            },
            None => {
                let mut inner: TextMap<V> = TextMap::new();
                inner.insert(b.to_string(), v);
                self.outer.insert(a.to_string(), inner);
                proof {
                    assert forall|j: int| 0 <= j < self.outer.val_seq().len() implies (#[trigger] self.outer.val_seq()[j]).wf() by {
                        self.outer.lemma_entry(j);
                        let k = self.outer.key_seq()[j];
                        if k != a@ {
                            old(self).lemma_inner(k);
                        }
                    }
                    assert forall|p: (Seq<char>, Seq<char>)| #[trigger] self@.contains_key(p) == old(self)@.insert((a@, b@), v).contains_key(p) by {}
                    assert(self@ =~= old(self)@.insert((a@, b@), v));
                }
            },
        }
    }

    /// The first keys in order; every pair of the map starts with one of them.
    pub fn first_keys(&self) -> (r: &Vec<String>)
        requires
            self.wf(),
        ensures
            forall|a: Seq<char>, b: Seq<char>| #[trigger] self@.contains_key((a, b)) ==> r@.map_values(|k: String| k@).contains(a),
    {
        self.outer.keys()
    }

    /// The pairs starting with `a`, as a map from their second key, if any.
    pub fn row(&self, a: &str) -> (r: Option<&TextMap<V>>)
        requires
            self.wf(),
        ensures
            r is None ==> forall|b: Seq<char>| !#[trigger] self@.contains_key((a@, b)),
            r is Some ==> (r->0).wf(),
            r is Some ==> forall|b: Seq<char>| #[trigger] (r->0)@.contains_key(b) == self@.contains_key((a@, b)),
            r is Some ==> forall|b: Seq<char>| #[trigger] (r->0)@.contains_key(b) ==> (r->0)@[b] == self@[(a@, b)],
    {
        match self.outer.get(a) {
            Some(inner) => {
                proof { self.lemma_inner(a@); }
                Some(inner)
            },
            None => None,
        }
    }

    /// The value for the pair `(a, b)`, if any.
    pub fn get(&self, a: &str, b: &str) -> (r: Option<&V>)
        requires
            self.wf(),
        ensures
            r is Some <==> self@.contains_key((a@, b@)),
            r is Some ==> *r->0 == self@[(a@, b@)],
    {
        match self.outer.get(a) {
            Some(inner) => {
                proof { self.lemma_inner(a@); }
                inner.get(b)
            },
            None => None,
        }
    }
}

} // verus!
