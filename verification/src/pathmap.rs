//! Ordered collections keyed by [`RelPath`]: a map kept as a vector of keys in
//! strictly increasing (string) order beside the vector of their values.

use vstd::prelude::*;

use crate::paths::{views_of, RelPath};
use crate::text::{
    chars_less, chars_of, lemma_seq_lt_asymmetric, lemma_seq_lt_irreflexive,
    lemma_seq_lt_total, lemma_seq_lt_transitive, seq_lt,
};

verus! {

broadcast use {vstd::seq_lib::group_seq_properties, vstd::set::group_set_axioms};

/// Every element is strictly below every later one.
pub open spec fn sorted_strict(s: Seq<Seq<char>>) -> bool {
    forall|i: int, j: int| 0 <= i < j < s.len() ==> seq_lt(#[trigger] s[i], #[trigger] s[j])
}

/// The map from each key to the value at the same position.
pub open spec fn assoc_map<V>(keys: Seq<Seq<char>>, vals: Seq<V>) -> Map<Seq<char>, V> {
    Map::new(|k: Seq<char>| keys.contains(k), |k: Seq<char>| vals[keys.index_of(k)])
}

/// A strictly sorted sequence has no element twice.
pub proof fn lemma_sorted_strict_no_duplicates(s: Seq<Seq<char>>)
    requires
        sorted_strict(s),
    ensures
        s.no_duplicates(),
{
    assert forall|i: int, j: int| 0 <= i < s.len() && 0 <= j < s.len() && i != j implies s[i]
        != s[j] by {
        if i < j {
            assert(seq_lt(s[i], s[j]));
        } else {
            assert(seq_lt(s[j], s[i]));
        }
        lemma_seq_lt_irreflexive(s[i]);
    }
}

/// In a strictly sorted key sequence, each key maps to the value at its position.
pub proof fn lemma_assoc_map_at<V>(keys: Seq<Seq<char>>, vals: Seq<V>, i: int)
    requires
        sorted_strict(keys),
        0 <= i < keys.len(),
    ensures
        assoc_map(keys, vals).contains_key(keys[i]),
        assoc_map(keys, vals)[keys[i]] == vals[i],
{
    assert(keys.contains(keys[i]));
    let j = keys.index_of(keys[i]);
    assert(0 <= j < keys.len() && keys[j] == keys[i]);
    lemma_sorted_strict_no_duplicates(keys);
}

/// The domain of the map is the set of keys, of the same size.
pub proof fn lemma_assoc_map_dom<V>(keys: Seq<Seq<char>>, vals: Seq<V>)
    requires
        sorted_strict(keys),
    ensures
        assoc_map(keys, vals).dom() == keys.to_set(),
        keys.to_set().finite(),
        keys.to_set().len() == keys.len(),
{
    assert(assoc_map(keys, vals).dom() =~= keys.to_set());
    lemma_sorted_strict_no_duplicates(keys);
    keys.unique_seq_to_set();
    vstd::seq_lib::seq_to_set_is_finite(keys);
}

/// Two strictly sorted sequences with the same elements are the same sequence.
pub proof fn lemma_sorted_strict_unique(a: Seq<Seq<char>>, b: Seq<Seq<char>>)
    requires
        sorted_strict(a),
        sorted_strict(b),
        a.to_set() == b.to_set(),
    ensures
        a == b,
    decreases a.len(),
{
    if a.len() == 0 {
        if b.len() > 0 {
            assert(b.to_set().contains(b[0]));
        }
        assert(a =~= b);
    } else {
        assert(a.to_set().contains(a[0]));
        assert(b.len() > 0);
        assert(b.to_set().contains(b[0]));
        let ja = choose|j: int| 0 <= j < b.len() && b[j] == a[0];
        let jb = choose|j: int| 0 <= j < a.len() && a[j] == b[0];
        if ja > 0 {
            assert(seq_lt(b[0], b[ja]));
            if jb > 0 {
                assert(seq_lt(a[0], a[jb]));
                lemma_seq_lt_asymmetric(a[0], b[0]);
            } else {
                lemma_seq_lt_irreflexive(a[0]);
            }
        }
        assert(a[0] == b[0]);
        let ta = a.drop_first();
        let tb = b.drop_first();
        lemma_sorted_strict_no_duplicates(a);
        lemma_sorted_strict_no_duplicates(b);
        assert forall|x: Seq<char>| ta.to_set().contains(x) implies tb.to_set().contains(x) by {
            let k = choose|k: int| 0 <= k < ta.len() && ta[k] == x;
            assert(a[k + 1] == x);
            assert(b.to_set().contains(x));
            let m = choose|m: int| 0 <= m < b.len() && b[m] == x;
            assert(m != 0);
            assert(tb[m - 1] == x);
        }
        assert forall|x: Seq<char>| tb.to_set().contains(x) implies ta.to_set().contains(x) by {
            let k = choose|k: int| 0 <= k < tb.len() && tb[k] == x;
            assert(b[k + 1] == x);
            assert(a.to_set().contains(x));
            let m = choose|m: int| 0 <= m < a.len() && a[m] == x;
            assert(m != 0);
            assert(ta[m - 1] == x);
        }
        assert(ta.to_set() =~= tb.to_set());
        lemma_sorted_strict_unique(ta, tb);
        assert(a =~= seq![a[0]] + ta);
        assert(b =~= seq![b[0]] + tb);
    }
}

/// `a` comes strictly before `b`.
pub fn path_less(a: &RelPath, b: &RelPath) -> (res: bool)
    ensures
        res == seq_lt(a@, b@),
{
    let ca = chars_of(a.as_str());
    let cb = chars_of(b.as_str());
    chars_less(&ca, &cb)
}

/// A map from paths to values, iterated in increasing path order.
#[derive(Debug)]
pub struct PathMap<V> {
    keys: Vec<RelPath>,
    vals: Vec<V>,
}

impl<V> PathMap<V> {
    /// The keys in increasing order.
    pub closed spec fn key_seq(&self) -> Seq<Seq<char>> {
        views_of(self.keys@)
    }

    /// The values, in the order of their keys.
    pub closed spec fn val_seq(&self) -> Seq<V> {
        self.vals@
    }

    /// Keys strictly increasing, one value per key.
    pub closed spec fn wf(&self) -> bool {
        &&& self.keys@.len() == self.vals@.len()
        &&& sorted_strict(self.key_seq())
    }

    pub closed spec fn view(&self) -> Map<Seq<char>, V> {
        assoc_map(self.key_seq(), self.vals@)
    }

    /// What a well-formed map's view is made of.
    pub proof fn lemma_view(&self)
        requires
            self.wf(),
        ensures
            sorted_strict(self.key_seq()),
            self.key_seq().len() == self.val_seq().len(),
            self@.dom() == self.key_seq().to_set(),
            self@.dom().finite(),
            self@.dom().len() == self.key_seq().len(),
            forall|i: int|
                0 <= i < self.key_seq().len() ==> #[trigger] self@[self.key_seq()[i]]
                    == self.val_seq()[i],
    {
        lemma_assoc_map_dom(self.key_seq(), self.vals@);
        assert forall|i: int| 0 <= i < self.key_seq().len() implies #[trigger] self@[self.key_seq()[i]]
            == self.val_seq()[i] by {
            lemma_assoc_map_at(self.key_seq(), self.vals@, i);
        }
    }

    /// An empty map.
    pub fn new() -> (res: Self)
        ensures
            res.wf(),
            res@ == Map::<Seq<char>, V>::empty(),
            res.key_seq() == Seq::<Seq<char>>::empty(),
    {
        let res = PathMap { keys: Vec::new(), vals: Vec::new() };
        assert(res.key_seq() =~= Seq::<Seq<char>>::empty());
        assert(res@ =~= Map::<Seq<char>, V>::empty());
        res
    }

    /// The number of keys.
    pub fn len(&self) -> (res: usize)
        requires
            self.wf(),
        ensures
            res == self.key_seq().len(),
            res == self@.dom().len(),
    {
        proof {
            self.lemma_view();
        }
        self.keys.len()
    }

    /// Binary search: `(true, i)` when the key is at position `i`, else
    /// `(false, i)` with `i` the position where it would be inserted.
    pub fn find(&self, key: &RelPath) -> (res: (bool, usize))
        requires
            self.wf(),
        ensures
            res.1 <= self.key_seq().len(),
            res.0 ==> res.1 < self.key_seq().len() && self.key_seq()[res.1 as int] == key@,
            !res.0 ==> forall|i: int|
                0 <= i < res.1 ==> seq_lt(#[trigger] self.key_seq()[i], key@),
            !res.0 ==> forall|i: int|
                res.1 <= i < self.key_seq().len() ==> seq_lt(key@, #[trigger] self.key_seq()[i]),
            res.0 == self@.dom().contains(key@),
    {
        proof {
            self.lemma_view();
        }
        let ghost ks = self.key_seq();
        let kc = chars_of(key.as_str());
        let mut lo: usize = 0;
        let mut hi: usize = self.keys.len();
        while lo < hi
            invariant
                ks == self.key_seq(),
                sorted_strict(ks),
                ks.len() == self.keys@.len(),
                lo <= hi <= ks.len(),
                kc@ == key@,
                forall|i: int| 0 <= i < lo ==> seq_lt(#[trigger] ks[i], key@),
                forall|i: int| hi <= i < ks.len() ==> seq_lt(key@, #[trigger] ks[i]),
            decreases hi - lo,
        {
            let mid = lo + (hi - lo) / 2;
            let mc = chars_of(self.keys[mid].as_str());
            assert(mc@ == ks[mid as int]);
            if chars_less(&mc, &kc) {
                assert forall|i: int| 0 <= i < mid + 1 implies seq_lt(#[trigger] ks[i], key@) by {
                    if i < mid {
                        lemma_seq_lt_transitive(ks[i], ks[mid as int], key@);
                    }
                }
                lo = mid + 1;
            } else if chars_less(&kc, &mc) {
                assert forall|i: int| mid <= i < ks.len() implies seq_lt(key@, #[trigger] ks[i]) by {
                    if i > mid {
                        lemma_seq_lt_transitive(key@, ks[mid as int], ks[i]);
                    }
                }
                hi = mid;
            } else {
                proof {
                    lemma_seq_lt_total(mc@, kc@);
                }
                return (true, mid);
            }
        }
        proof {
            if ks.contains(key@) {
                let j = choose|j: int| 0 <= j < ks.len() && ks[j] == key@;
                lemma_seq_lt_irreflexive(key@);
                if j < lo {
                    assert(seq_lt(ks[j], key@));
                } else {
                    assert(seq_lt(key@, ks[j]));
                }
            }
        }
        (false, lo)
    }

    /// The key is present.
    pub fn contains_key(&self, key: &RelPath) -> (res: bool)
        requires
            self.wf(),
        ensures
            res == self@.dom().contains(key@),
    {
        self.find(key).0
    }

    /// The value stored under `key`, if any.
    pub fn get(&self, key: &RelPath) -> (res: Option<&V>)
        requires
            self.wf(),
        ensures
            match res {
                Some(v) => self@.dom().contains(key@) && *v == self@[key@],
                None => !self@.dom().contains(key@),
            },
    {
        proof {
            self.lemma_view();
        }
        let (found, i) = self.find(key);
        if found {
            Some(&self.vals[i])
        } else {
            None
        }
    }

    /// The key at position `i` in increasing order.
    pub fn key_at(&self, i: usize) -> (res: &RelPath)
        requires
            self.wf(),
            i < self.key_seq().len(),
        ensures
            res@ == self.key_seq()[i as int],
    {
        &self.keys[i]
    }

    /// The value at position `i` in increasing key order.
    pub fn value_at(&self, i: usize) -> (res: &V)
        requires
            self.wf(),
            i < self.key_seq().len(),
        ensures
            *res == self.val_seq()[i as int],
    {
        &self.vals[i]
    }

    /// Stores `value` under `key`, replacing any earlier value.
    pub fn insert(&mut self, key: RelPath, value: V)
        requires
            old(self).wf(),
        ensures
            final(self).wf(),
            final(self)@ == old(self)@.insert(key@, value),
    {
        proof {
            self.lemma_view();
        }
        let ghost old_ks = self.key_seq();
        let ghost old_vs = self.vals@;
        let ghost k = key@;
        let (found, i) = self.find(&key);
        if found {
            self.vals.set(i, value);
            assert(self.key_seq() == old_ks);
            proof {
                self.lemma_view();
                assert forall|x: Seq<char>| #[trigger] self@.dom().contains(x) implies self@[x]
                    == old(self)@.insert(k, value)[x] by {
                    let j = choose|j: int| 0 <= j < old_ks.len() && old_ks[j] == x;
                    assert(self@[old_ks[j]] == self.vals@[j]);
                    if j != i {
                        assert(old(self)@[old_ks[j]] == old_vs[j]);
                    }
                }
                assert(self@.dom() =~= old(self)@.insert(k, value).dom());
                assert(self@ =~= old(self)@.insert(k, value));
            }
        } else {
            self.keys.insert(i, key);
            self.vals.insert(i, value);
            let ghost ks = self.key_seq();
            assert(ks =~= old_ks.insert(i as int, k));
            assert(sorted_strict(ks)) by {
                assert forall|a: int, b: int| 0 <= a < b < ks.len() implies seq_lt(
                    #[trigger] ks[a],
                    #[trigger] ks[b],
                ) by {
                    if b < i {
                    } else if a > i {
                        assert(ks[a] == old_ks[a - 1] && ks[b] == old_ks[b - 1]);
                    } else if a == i {
                        assert(ks[b] == old_ks[b - 1]);
                    } else if b == i {
                    } else {
                        assert(ks[b] == old_ks[b - 1]);
                        assert(seq_lt(old_ks[a], k));
                        lemma_seq_lt_transitive(old_ks[a], k, old_ks[b - 1]);
                    }
                }
            }
            proof {
                self.lemma_view();
                assert forall|x: Seq<char>| #[trigger] self@.dom().contains(x) implies self@[x]
                    == old(self)@.insert(k, value)[x] by {
                    let j = choose|j: int| 0 <= j < ks.len() && ks[j] == x;
                    assert(self@[ks[j]] == self.vals@[j]);
                    if j < i {
                        assert(old(self)@[old_ks[j]] == old_vs[j]);
                    } else if j > i {
                        assert(old(self)@[old_ks[j - 1]] == old_vs[j - 1]);
                    }
                }
                assert forall|x: Seq<char>| #[trigger] old(self)@.insert(k, value).dom().contains(
                    x,
                ) implies self@.dom().contains(x) by {
                    if x != k {
                        let j = choose|j: int| 0 <= j < old_ks.len() && old_ks[j] == x;
                        if j < i {
                            assert(ks[j] == x);
                        } else {
                            assert(ks[j + 1] == x);
                        }
                    } else {
                        assert(ks[i as int] == x);
                    }
                }
                assert(self@.dom() =~= old(self)@.insert(k, value).dom());
                assert(self@ =~= old(self)@.insert(k, value));
            }
        }
    }

    /// Takes out the value stored under `key`, if any.
    pub fn remove(&mut self, key: &RelPath) -> (res: Option<V>)
        requires
            old(self).wf(),
        ensures
            final(self).wf(),
            final(self)@ == old(self)@.remove(key@),
            match res {
                Some(v) => old(self)@.dom().contains(key@) && v == old(self)@[key@],
                None => !old(self)@.dom().contains(key@),
            },
    {
        proof {
            self.lemma_view();
        }
        let ghost old_ks = self.key_seq();
        let ghost old_vs = self.vals@;
        let ghost k = key@;
        let (found, i) = self.find(key);
        if !found {
            assert(old(self)@.remove(k) =~= old(self)@);
            return None;
        }
        let _ = self.keys.remove(i);
        let v = self.vals.remove(i);
        let ghost ks = self.key_seq();
        assert(ks =~= old_ks.remove(i as int));
        assert(sorted_strict(ks)) by {
            assert forall|a: int, b: int| 0 <= a < b < ks.len() implies seq_lt(
                #[trigger] ks[a],
                #[trigger] ks[b],
            ) by {
                if b < i {
                } else if a >= i {
                    assert(ks[a] == old_ks[a + 1] && ks[b] == old_ks[b + 1]);
                } else {
                    assert(ks[b] == old_ks[b + 1]);
                }
            }
        }
        proof {
            self.lemma_view();
            lemma_sorted_strict_no_duplicates(old_ks);
            assert forall|x: Seq<char>| #[trigger] self@.dom().contains(x) implies self@[x]
                == old(self)@.remove(k)[x] && x != k by {
                let j = choose|j: int| 0 <= j < ks.len() && ks[j] == x;
                assert(self@[ks[j]] == self.vals@[j]);
                if j < i {
                    assert(old(self)@[old_ks[j]] == old_vs[j]);
                } else {
                    assert(old(self)@[old_ks[j + 1]] == old_vs[j + 1]);
                }
            }
            assert forall|x: Seq<char>| #[trigger] old(self)@.remove(k).dom().contains(
                x,
            ) implies self@.dom().contains(x) by {
                let j = choose|j: int| 0 <= j < old_ks.len() && old_ks[j] == x;
                assert(j != i);
                if j < i {
                    assert(ks[j] == x);
                } else {
                    assert(ks[j - 1] == x);
                }
            }
            assert(self@.dom() =~= old(self)@.remove(k).dom());
            assert(self@ =~= old(self)@.remove(k));
        }
        Some(v)
    }
}


impl PathMap<Vec<RelPath>> {
    /// Appends `item` to the list stored at position `i`.
    pub fn push_at(&mut self, i: usize, item: RelPath)
        requires
            old(self).wf(),
            i < old(self).key_seq().len(),
        ensures
            final(self).wf(),
            final(self).key_seq() == old(self).key_seq(),
            final(self).val_seq().len() == old(self).val_seq().len(),
            final(self).val_seq()[i as int]@ == old(self).val_seq()[i as int]@.push(item),
            forall|j: int|
                0 <= j < old(self).val_seq().len() && j != i ==> #[trigger] final(self).val_seq()[j]
                    == old(self).val_seq()[j],
    {
        self.vals[i].push(item);
    }
}

/// The paths of `v` in increasing order, each once.
pub fn sorted_unique(v: &Vec<RelPath>) -> (res: Vec<RelPath>)
    ensures
        sorted_strict(views_of(res@)),
        views_of(res@).to_set() == views_of(v@).to_set(),
{
    let mut set: PathMap<()> = PathMap::new();
    let mut i: usize = 0;
    while i < v.len()
        invariant
            i <= v@.len(),
            set.wf(),
            set@.dom() == views_of(v@.take(i as int)).to_set(),
        decreases v@.len() - i,
    {
        set.insert(v[i].clone(), ());
        assert(views_of(v@.take(i + 1)) =~= views_of(v@.take(i as int)).push(v@[i as int]@));
        assert(views_of(v@.take(i + 1)).to_set() =~= views_of(v@.take(i as int)).to_set().insert(v@[i as int]@));
        i = i + 1;
    }
    assert(v@.take(v@.len() as int) =~= v@);
    set.keys_vec()
}

impl<V> PathMap<V> {
    /// The keys in increasing order.
    pub fn keys_vec(&self) -> (res: Vec<RelPath>)
        requires
            self.wf(),
        ensures
            views_of(res@) == self.key_seq(),
            sorted_strict(views_of(res@)),
            views_of(res@).to_set() == self@.dom(),
    {
        proof {
            self.lemma_view();
        }
        let mut out: Vec<RelPath> = Vec::new();
        let mut i: usize = 0;
        while i < self.keys.len()
            invariant
                i <= self.keys@.len(),
                views_of(out@) == self.key_seq().take(i as int),
            decreases self.keys@.len() - i,
        {
            let k = self.keys[i].clone();
            assert(k@ == self.key_seq()[i as int]);
            let ghost before = out@;
            out.push(k);
            assert(views_of(out@) =~= views_of(before).push(k@));
            assert(views_of(out@) =~= self.key_seq().take(i + 1));
            i = i + 1;
        }
        assert(self.key_seq().take(self.keys@.len() as int) =~= self.key_seq());
        out
    }
}

} // verus!
