//! An association map from `u64` keys to values, backed by a vector of
//! key/value pairs with pairwise-distinct keys. Its view is a `Map`, so the
//! buffering and registration code above it can state contracts directly
//! over mathematical maps.

use vstd::prelude::*;

verus! {

/// The mathematical map described by a sequence of key/value pairs; a later
/// pair wins over an earlier pair with the same key.
pub open spec fn map_of<R>(s: Seq<(u64, R)>) -> Map<u64, R>
    decreases s.len(),
{
    if s.len() == 0 {
        Map::empty()
    } else {
        map_of(s.drop_last()).insert(s.last().0, s.last().1)
    }
}

/// Whether some pair in `s` carries the key `k`.
pub open spec fn has_key<R>(s: Seq<(u64, R)>, k: u64) -> bool {
    exists|i: int| 0 <= i < s.len() && (#[trigger] s[i]).0 == k
}

/// Whether the keys of `s` are pairwise distinct.
pub open spec fn distinct_keys<R>(s: Seq<(u64, R)>) -> bool {
    forall|i: int, j: int|
        0 <= i < j < s.len() ==> (#[trigger] s[i]).0 != (#[trigger] s[j]).0
}

/// The domain of `map_of(s)` holds exactly the keys that occur in `s`.
pub proof fn lemma_map_of_dom<R>(s: Seq<(u64, R)>)
    ensures
        forall|k: u64| map_of(s).dom().contains(k) <==> has_key(s, k),
    decreases s.len(),
{
    if s.len() > 0 {
        lemma_map_of_dom(s.drop_last());
        assert forall|k: u64| map_of(s).dom().contains(k) <==> has_key(s, k) by {
            if map_of(s).dom().contains(k) {
                if k == s.last().0 {
                    assert((#[trigger] s[s.len() - 1]).0 == k);
                } else {
                    assert(map_of(s.drop_last()).dom().contains(k));
                    assert(has_key(s.drop_last(), k));
                    let i = choose|i: int|
                        0 <= i < s.drop_last().len() && (#[trigger] s.drop_last()[i]).0 == k;
                    assert(s.drop_last()[i] == s[i]);
                    assert((#[trigger] s[i]).0 == k);
                }
            }
            if has_key(s, k) {
                let i = choose|i: int| 0 <= i < s.len() && (#[trigger] s[i]).0 == k;
                if i < s.len() - 1 {
                    assert((#[trigger] s.drop_last()[i]).0 == k);
                    assert(has_key(s.drop_last(), k));
                    assert(map_of(s.drop_last()).dom().contains(k));
                } else {
                    assert(k == s.last().0);
                }
            }
        }
    }
}

proof fn lemma_distinct_drop_last<R>(s: Seq<(u64, R)>)
    requires
        distinct_keys(s),
        s.len() > 0,
    ensures
        distinct_keys(s.drop_last()),
{
    assert forall|i: int, j: int|
        0 <= i < j < s.drop_last().len() implies (#[trigger] s.drop_last()[i]).0 != (
    #[trigger] s.drop_last()[j]).0 by {
        assert(s.drop_last()[i] == s[i]);
        assert(s.drop_last()[j] == s[j]);
    }
}

/// Under distinct keys, `map_of(s)` sends each listed key to its listed value.
pub proof fn lemma_map_of_index<R>(s: Seq<(u64, R)>)
    requires
        distinct_keys(s),
    ensures
        forall|i: int|
            0 <= i < s.len() ==> map_of(s).dom().contains((#[trigger] s[i]).0) && map_of(s)[s[i].0]
                == s[i].1,
    decreases s.len(),
{
    if s.len() > 0 {
        lemma_distinct_drop_last(s);
        lemma_map_of_index(s.drop_last());
        assert forall|i: int|
            0 <= i < s.len() implies map_of(s).dom().contains((#[trigger] s[i]).0) && map_of(
                s,
            )[s[i].0] == s[i].1 by {
            if i < s.len() - 1 {
                assert(s.drop_last()[i] == s[i]);
                assert(s[i].0 != (#[trigger] s[s.len() - 1]).0);
            }
        }
    }
}

/// Under distinct keys, the domain of `map_of(s)` is finite with one key per
/// pair.
pub proof fn lemma_map_of_len<R>(s: Seq<(u64, R)>)
    requires
        distinct_keys(s),
    ensures
        map_of(s).dom().finite(),
        map_of(s).dom().len() == s.len(),
    decreases s.len(),
{
    broadcast use vstd::set::group_set_axioms;

    if s.len() == 0 {
        assert(map_of(s).dom() =~= Set::<u64>::empty());
    } else {
        lemma_distinct_drop_last(s);
        lemma_map_of_len(s.drop_last());
        lemma_map_of_dom(s.drop_last());
        if has_key(s.drop_last(), s.last().0) {
            let i = choose|i: int|
                0 <= i < s.drop_last().len() && (#[trigger] s.drop_last()[i]).0 == s.last().0;
            assert((#[trigger] s[i]).0 == (#[trigger] s[s.len() - 1]).0);
        }
        assert(map_of(s).dom() =~= map_of(s.drop_last()).dom().insert(s.last().0));
    }
}

proof fn lemma_distinct_remove<R>(s: Seq<(u64, R)>, i: int)
    requires
        distinct_keys(s),
        0 <= i < s.len(),
    ensures
        distinct_keys(s.remove(i)),
{
    s.remove_ensures(i);
    assert forall|a: int, b: int|
        0 <= a < b < s.remove(i).len() implies (#[trigger] s.remove(i)[a]).0 != (
    #[trigger] s.remove(i)[b]).0 by {
        let a0: int = if a < i { a } else { a + 1 };
        let b0: int = if b < i { b } else { b + 1 };
        assert(s.remove(i)[a] == s[a0]);
        assert(s.remove(i)[b] == s[b0]);
    }
}

/// Removing the pair at index `i` removes exactly its key from the map.
pub proof fn lemma_map_of_remove<R>(s: Seq<(u64, R)>, i: int)
    requires
        distinct_keys(s),
        0 <= i < s.len(),
    ensures
        map_of(s.remove(i)) == map_of(s).remove(s[i].0),
    decreases s.len(),
{
    s.remove_ensures(i);
    if i == s.len() - 1 {
        lemma_distinct_drop_last(s);
        lemma_map_of_dom(s.drop_last());
        if has_key(s.drop_last(), s[i].0) {
            let j = choose|j: int|
                0 <= j < s.drop_last().len() && (#[trigger] s.drop_last()[j]).0 == s[i].0;
            assert((#[trigger] s[j]).0 == (#[trigger] s[i]).0);
        }
        assert(s.remove(i) =~= s.drop_last());
        assert(map_of(s).remove(s[i].0) =~= map_of(s.drop_last()));
    } else {
        lemma_distinct_drop_last(s);
        lemma_map_of_remove(s.drop_last(), i);
        assert(s.drop_last()[i] == s[i]);
        assert(s[i].0 != (#[trigger] s[s.len() - 1]).0);
        assert(s.remove(i).drop_last() =~= s.drop_last().remove(i));
        assert(s.remove(i).last() == s.last());
        assert(map_of(s).remove(s[i].0) =~= map_of(s.drop_last()).remove(s[i].0).insert(
            s.last().0,
            s.last().1,
        ));
    }
}

/// An association map from `u64` keys to values of type `R`. Kept as a
/// vector of pairs whose keys are pairwise distinct; viewed as a `Map`.
pub struct KeyMap<R> {
    pairs: Vec<(u64, R)>,
}

impl<R> View for KeyMap<R> {
    type V = Map<u64, R>;

    closed spec fn view(&self) -> Map<u64, R> {
        map_of(self.pairs@)
    }
}

impl<R> KeyMap<R> {
    #[verifier::type_invariant]
    spec fn wf(self) -> bool {
        distinct_keys(self.pairs@)
    }

    /// The empty map.
    pub fn new() -> (m: Self)
        ensures
            m@ == Map::<u64, R>::empty(),
    {
        KeyMap { pairs: Vec::new() }
    }

    fn index_of(&self, k: u64) -> (r: Option<usize>)
        ensures
            (match r {
                Some(i) => i < self.pairs@.len() && self.pairs@[i as int].0 == k,
                None => !has_key(self.pairs@, k),
            }),
    {
        let mut i: usize = 0;
        while i < self.pairs.len()
            invariant
                i <= self.pairs@.len(),
                forall|j: int| 0 <= j < i ==> (#[trigger] self.pairs@[j]).0 != k,
            decreases self.pairs@.len() - i,
        {
            if self.pairs[i].0 == k {
                return Some(i);
            }
            i = i + 1;
        }
        None
    }

    /// Whether `k` is bound in the map.
    pub fn contains_key(&self, k: u64) -> (r: bool)
        ensures
            r == self@.dom().contains(k),
    {
        proof {
            use_type_invariant(self);
            lemma_map_of_dom(self.pairs@);
        }
        match self.index_of(k) {
            Some(i) => {
                proof {
                    assert((#[trigger] self.pairs@[i as int]).0 == k);
                    assert(has_key(self.pairs@, k));
                }
                true
            },
            None => false,
        }
    }

    /// The value bound to `k`, if any.
    pub fn get(&self, k: u64) -> (r: Option<&R>)
        ensures
            (match r {
                Some(v) => self@.dom().contains(k) && *v == self@[k],
                None => !self@.dom().contains(k),
            }),
    {
        proof {
            use_type_invariant(self);
            lemma_map_of_dom(self.pairs@);
            lemma_map_of_index(self.pairs@);
        }
        match self.index_of(k) {
            Some(i) => Some(&self.pairs[i].1),
            None => None,
        }
    }

    /// The number of keys bound in the map.
    pub fn len(&self) -> (n: usize)
        ensures
            n == self@.dom().len(),
            self@.dom().finite(),
    {
        proof {
            use_type_invariant(self);
            lemma_map_of_len(self.pairs@);
        }
        self.pairs.len()
    }

    /// Removes `k`, returning the value it was bound to, if any.
    pub fn remove(&mut self, k: u64) -> (r: Option<R>)
        ensures
            final(self)@ == old(self)@.remove(k),
            (match r {
                Some(v) => old(self)@.dom().contains(k) && v == old(self)@[k],
                None => !old(self)@.dom().contains(k),
            }),
    {
        proof {
            use_type_invariant(&*self);
            lemma_map_of_dom(self.pairs@);
            lemma_map_of_index(self.pairs@);
        }
        let idx = self.index_of(k);
        let mut pairs: Vec<(u64, R)> = Vec::new();
        core::mem::swap(&mut pairs, &mut self.pairs);
        match idx {
            Some(i) => {
                proof {
                    lemma_distinct_remove(pairs@, i as int);
                    lemma_map_of_remove(pairs@, i as int);
                }
                let p = pairs.remove(i);
                self.pairs = pairs;
                Some(p.1)
            },
            None => {
                proof {
                    assert(map_of(pairs@).remove(k) =~= map_of(pairs@));
                }
                self.pairs = pairs;
                None
            },
        }
    }

    /// Binds `k` to `v`, replacing any earlier binding.
    pub fn insert(&mut self, k: u64, v: R)
        ensures
            final(self)@ == old(self)@.insert(k, v),
    {
        let _ = self.remove(k);
        proof {
            use_type_invariant(&*self);
        }
        let mut pairs: Vec<(u64, R)> = Vec::new();
        core::mem::swap(&mut pairs, &mut self.pairs);
        proof {
            lemma_map_of_dom(pairs@);
            assert(map_of(pairs@) == old(self)@.remove(k));
            assert(!map_of(pairs@).dom().contains(k));
            assert(!has_key(pairs@, k));
            let pushed = pairs@.push((k, v));
            assert forall|i: int, j: int|
                0 <= i < j < pushed.len() implies (#[trigger] pushed[i]).0 != (
            #[trigger] pushed[j]).0 by {
                if j < pairs@.len() {
                    assert(pushed[i] == pairs@[i]);
                    assert(pushed[j] == pairs@[j]);
                } else {
                    assert(pushed[i] == (#[trigger] pairs@[i]));
                    assert(pushed[j] == (k, v));
                }
            }
            assert(pushed.drop_last() =~= pairs@);
        }
        pairs.push((k, v));
        self.pairs = pairs;
        proof {
            assert(old(self)@.remove(k).insert(k, v) =~= old(self)@.insert(k, v));
        }
    }

    /// Hands the bindings out as a vector of pairs with distinct keys.
    pub fn into_pairs(self) -> (v: Vec<(u64, R)>)
        ensures
            distinct_keys(v@),
            map_of(v@) == self@,
    {
        proof {
            use_type_invariant(&self);
        }
        let KeyMap { pairs } = self;
        pairs
    }
}

} // verus!
