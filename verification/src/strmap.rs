//! A small verified map keyed by `String`, kept as a vector of pairs with
//! pairwise-distinct keys. Its view is a `Map` from key views (`Seq<char>`)
//! to value views, which is what every contract in this crate speaks of.

use vstd::prelude::*;

verus! {

/// Contents of an association list as a map; later entries shadow earlier
/// ones (the well-formedness invariant rules shadowing out).
spec fn assoc_view<V: View>(s: Seq<(String, V)>) -> Map<Seq<char>, <V as View>::V>
    decreases s.len(),
{
    if s.len() == 0 {
        Map::empty()
    } else {
        assoc_view(s.drop_last()).insert(s.last().0@, s.last().1@)
    }
}

/// The key views of an association list, in storage order.
spec fn keys_of<V>(s: Seq<(String, V)>) -> Seq<Seq<char>> {
    s.map_values(|p: (String, V)| p.0@)
}

pub struct StrMap<V> {
    pairs: Vec<(String, V)>,
}

impl<V> StrMap<V> {
    #[verifier::type_invariant]
    spec fn wf(self) -> bool {
        forall|i: int, j: int|
            0 <= i < j < self.pairs@.len() ==> self.pairs@[i].0@ != self.pairs@[j].0@
    }
}

impl<V: View> View for StrMap<V> {
    type V = Map<Seq<char>, <V as View>::V>;

    closed spec fn view(&self) -> Map<Seq<char>, <V as View>::V> {
        assoc_view(self.pairs@)
    }
}

/// A key is in the contents exactly when some stored pair carries it.
proof fn lemma_assoc_dom<V: View>(s: Seq<(String, V)>)
    ensures
        forall|k: Seq<char>| #[trigger] assoc_view(s).dom().contains(k) <==> keys_of(s).contains(
            k,
        ),
    decreases s.len(),
{
    if s.len() > 0 {
        let d = s.drop_last();
        lemma_assoc_dom(d);
        assert(assoc_view(s) == assoc_view(d).insert(s.last().0@, s.last().1@));
        assert forall|k: Seq<char>| #[trigger] assoc_view(s).dom().contains(k) implies keys_of(
            s,
        ).contains(k) by {
            if k == s.last().0@ {
                assert(keys_of(s)[s.len() - 1] == k);
            } else {
                assert(assoc_view(d).dom().contains(k));
                assert(keys_of(d).contains(k));
                let i = choose|i: int| 0 <= i < keys_of(d).len() && keys_of(d)[i] == k;
                assert(keys_of(d)[i] == d[i].0@);
                assert(d[i] == s[i]);
                assert(keys_of(s)[i] == k);
            }
        }
        assert forall|k: Seq<char>| keys_of(s).contains(k) implies assoc_view(s).dom().contains(
            k,
        ) by {
            let i = choose|i: int| 0 <= i < keys_of(s).len() && keys_of(s)[i] == k;
            assert(keys_of(s)[i] == s[i].0@);
            if i < s.len() - 1 {
                assert(keys_of(d)[i] == d[i].0@);
                assert(keys_of(d).contains(k));
                assert(assoc_view(d).dom().contains(k));
            } else {
                assert(k == s.last().0@);
            }
        }
    }
}

/// Under distinct keys, the contents at the key of pair `i` is its value.
proof fn lemma_assoc_at<V: View>(s: Seq<(String, V)>, i: int)
    requires
        0 <= i < s.len(),
        forall|a: int, b: int| 0 <= a < b < s.len() ==> s[a].0@ != s[b].0@,
    ensures
        assoc_view(s).dom().contains(s[i].0@),
        assoc_view(s)[s[i].0@] == s[i].1@,
    decreases s.len(),
{
    if i < s.len() - 1 {
        lemma_assoc_at(s.drop_last(), i);
    }
}

/// Replacing pair `i` by one with the same key view updates the contents
/// pointwise.
proof fn lemma_assoc_update<V: View>(s: Seq<(String, V)>, i: int, p: (String, V))
    requires
        0 <= i < s.len(),
        forall|a: int, b: int| 0 <= a < b < s.len() ==> s[a].0@ != s[b].0@,
        p.0@ == s[i].0@,
    ensures
        assoc_view(s.update(i, p)) =~= assoc_view(s).insert(p.0@, p.1@),
    decreases s.len(),
{
    if i == s.len() - 1 {
        assert(s.update(i, p).drop_last() =~= s.drop_last());
        assert(s.update(i, p).last() == p);
    } else {
        lemma_assoc_update(s.drop_last(), i, p);
        assert(s.update(i, p).drop_last() =~= s.drop_last().update(i, p));
        assert(s.update(i, p).last() == s.last());
    }
}

/// Removing pair `i` removes exactly its key from the contents.
proof fn lemma_assoc_remove<V: View>(s: Seq<(String, V)>, i: int)
    requires
        0 <= i < s.len(),
        forall|a: int, b: int| 0 <= a < b < s.len() ==> s[a].0@ != s[b].0@,
    ensures
        assoc_view(s.remove(i)) =~= assoc_view(s).remove(s[i].0@),
    decreases s.len(),
{
    if i == s.len() - 1 {
        assert(s.remove(i) =~= s.drop_last());
        lemma_assoc_dom(s.drop_last());
        if assoc_view(s.drop_last()).dom().contains(s[i].0@) {
            let j = choose|j: int|
                0 <= j < keys_of(s.drop_last()).len() && keys_of(s.drop_last())[j] == s[i].0@;
            assert(s[j].0@ == s[i].0@);
            assert(false);
        }
        assert(assoc_view(s.drop_last()).remove(s[i].0@) =~= assoc_view(s.drop_last()));
    } else {
        lemma_assoc_remove(s.drop_last(), i);
        assert(s.remove(i).drop_last() =~= s.drop_last().remove(i));
        assert(s.remove(i).last() == s.last());
        assert(s.last().0@ != s[i].0@);
    }
}

impl<V: View> StrMap<V> {
    /// The key views in storage order; `klen` and `entry_at` iterate by it.
    pub closed spec fn kseq(self) -> Seq<Seq<char>> {
        keys_of(self.pairs@)
    }

    pub fn new() -> (r: Self)
        ensures
            r@ == Map::<Seq<char>, <V as View>::V>::empty(),
            r.kseq().len() == 0,
    {
        StrMap { pairs: Vec::new() }
    }

    /// Number of entries, together with the facts a loop over `entry_at`
    /// needs: keys are pairwise distinct and enumerate the domain.
    pub fn klen(&self) -> (n: usize)
        ensures
            n == self.kseq().len(),
            forall|a: int, b: int| 0 <= a < b < n ==> self.kseq()[a] != self.kseq()[b],
            forall|k: Seq<char>| #[trigger] self@.dom().contains(k) ==> self.kseq().contains(k),
            forall|k: Seq<char>| #[trigger] self.kseq().contains(k) ==> self@.dom().contains(k),
    {
        proof {
            use_type_invariant(&*self);
            lemma_assoc_dom(self.pairs@);
            assert forall|a: int, b: int| 0 <= a < b < self.pairs@.len() implies self.kseq()[a]
                != self.kseq()[b] by {
                assert(self.pairs@[a].0@ != self.pairs@[b].0@);
            }
        }
        self.pairs.len()
    }

    /// The entry at storage position `i`.
    pub fn entry_at(&self, i: usize) -> (e: (&String, &V))
        requires
            i < self.kseq().len(),
        ensures
            e.0@ == self.kseq()[i as int],
            self@.dom().contains(e.0@),
            e.1@ == self@[e.0@],
    {
        proof {
            use_type_invariant(&*self);
            lemma_assoc_at(self.pairs@, i as int);
        }
        let p = &self.pairs[i];
        (&p.0, &p.1)
    }

    pub fn is_empty(&self) -> (r: bool)
        ensures
            r == (self@ == Map::<Seq<char>, <V as View>::V>::empty()),
    {
        proof {
            use_type_invariant(&*self);
            if self.pairs@.len() == 0 {
                assert(self@ =~= Map::<Seq<char>, <V as View>::V>::empty());
            } else {
                lemma_assoc_at(self.pairs@, self.pairs@.len() - 1);
                assert(self@.dom().contains(self.pairs@.last().0@));
                assert(!Map::<Seq<char>, <V as View>::V>::empty().dom().contains(
                    self.pairs@.last().0@,
                ));
            }
        }
        self.pairs.len() == 0
    }

    /// Storage position of `key`, if present.
    fn index_of(&self, key: &String) -> (r: Option<usize>)
        ensures
            match r {
                Some(i) => i < self.pairs@.len() && self.pairs@[i as int].0@ == key@,
                None => forall|i: int| 0 <= i < self.pairs@.len() ==> self.pairs@[i].0@ != key@,
            },
    {
        let n = self.pairs.len();
        let mut i: usize = 0;
        while i < n
            invariant
                i <= n,
                n == self.pairs@.len(),
                forall|j: int| 0 <= j < i ==> self.pairs@[j].0@ != key@,
            decreases n - i,
        {
            if self.pairs[i].0 == *key {
                return Some(i);
            }
            i = i + 1;
        }
        None
    }

    pub fn contains_key(&self, key: &String) -> (r: bool)
        ensures
            r == self@.dom().contains(key@),
    {
        proof {
            use_type_invariant(&*self);
            lemma_assoc_dom(self.pairs@);
        }
        match self.index_of(key) {
            Some(i) => {
                proof {
                    assert(self.kseq()[i as int] == key@);
                }
                true
            },
            None => {
                proof {
                    if self@.dom().contains(key@) {
                        let j = choose|j: int|
                            0 <= j < self.kseq().len() && self.kseq()[j] == key@;
                        assert(self.pairs@[j].0@ == key@);
                    }
                }
                false
            },
        }
    }

    pub fn get(&self, key: &String) -> (r: Option<&V>)
        ensures
            match r {
                Some(v) => self@.dom().contains(key@) && v@ == self@[key@],
                None => !self@.dom().contains(key@),
            },
    {
        proof {
            use_type_invariant(&*self);
            lemma_assoc_dom(self.pairs@);
        }
        match self.index_of(key) {
            Some(i) => {
                proof {
                    lemma_assoc_at(self.pairs@, i as int);
                }
                Some(&self.pairs[i].1)
            },
            None => {
                proof {
                    if self@.dom().contains(key@) {
                        let j = choose|j: int|
                            0 <= j < self.kseq().len() && self.kseq()[j] == key@;
                        assert(self.pairs@[j].0@ == key@);
                    }
                }
                None
            },
        }
    }

    pub fn insert(&mut self, key: String, value: V)
        ensures
            final(self)@ == old(self)@.insert(key@, value@),
    {
        proof {
            use_type_invariant(&*self);
        }
        let idx = self.index_of(&key);
        let mut pairs: Vec<(String, V)> = Vec::new();
        std::mem::swap(&mut pairs, &mut self.pairs);
        let ghost orig = pairs@;
        match idx {
            Some(i) => {
                proof {
                    lemma_assoc_update(orig, i as int, (key, value));
                }
                pairs.set(i, (key, value));
            },
            None => {
                pairs.push((key, value));
                proof {
                    assert(pairs@.drop_last() =~= orig);
                }
            },
        }
        self.pairs = pairs;
    }

    /// Removes `key`, handing back its value if it was present.
    pub fn remove(&mut self, key: &String) -> (r: Option<V>)
        ensures
            final(self)@ == old(self)@.remove(key@),
            match r {
                Some(v) => old(self)@.dom().contains(key@) && v@ == old(self)@[key@],
                None => !old(self)@.dom().contains(key@),
            },
    {
        proof {
            use_type_invariant(&*self);
            lemma_assoc_dom(self.pairs@);
        }
        let idx = self.index_of(key);
        let mut pairs: Vec<(String, V)> = Vec::new();
        std::mem::swap(&mut pairs, &mut self.pairs);
        let ghost orig = pairs@;
        let r = match idx {
            Some(i) => {
                proof {
                    lemma_assoc_at(orig, i as int);
                    lemma_assoc_remove(orig, i as int);
                }
                let p = pairs.remove(i);
                proof {
                    assert forall|a: int, b: int|
                        0 <= a < b < pairs@.len() implies pairs@[a].0@ != pairs@[b].0@ by {
                        if b < i {
                        } else if a < i {
                            assert(pairs@[b] == orig[b + 1]);
                        } else {
                            assert(pairs@[a] == orig[a + 1]);
                            assert(pairs@[b] == orig[b + 1]);
                        }
                    }
                }
                Some(p.1)
            },
            None => {
                proof {
                    if old(self)@.dom().contains(key@) {
                        let j = choose|j: int|
                            0 <= j < keys_of(orig).len() && keys_of(orig)[j] == key@;
                        assert(orig[j].0@ == key@);
                    }
                    assert(assoc_view(orig).remove(key@) =~= assoc_view(orig));
                }
                None
            },
        };
        self.pairs = pairs;
        r
    }
}

/// Walking a prefix one element further: `take(i + 1)` is `take(i)` plus the
/// element at `i`. Folds over sequences step with this.
pub proof fn lemma_take_step<A>(s: Seq<A>, i: int)
    requires
        0 <= i < s.len(),
    ensures
        s.take(i + 1).drop_last() =~= s.take(i),
        s.take(i + 1).last() == s[i],
        s.take(i + 1).len() == i + 1,
{
}

/// What a one-longer prefix contains: everything the shorter prefix does,
/// plus the element at `i`.
pub proof fn lemma_take_contains<A>(s: Seq<A>, i: int, x: A)
    requires
        0 <= i < s.len(),
    ensures
        s.take(i + 1).contains(x) <==> (s.take(i).contains(x) || s[i] == x),
{
    if s.take(i + 1).contains(x) {
        let l = choose|l: int| 0 <= l < i + 1 && #[trigger] s.take(i + 1)[l] == x;
        if l < i {
            assert(s.take(i as int)[l] == x);
        }
    }
    if s.take(i as int).contains(x) {
        let l = choose|l: int| 0 <= l < i && #[trigger] s.take(i as int)[l] == x;
        assert(s.take(i + 1)[l] == x);
    }
    if s[i] == x {
        assert(s.take(i + 1)[i] == x);
    }
}

} // verus!
