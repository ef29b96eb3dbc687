//! Keys, each with the set of dots that keep it alive.
use vstd::prelude::*;
use crate::dots::{DotList, Key, dots_add, dots_clone, dots_contains, dots_get, dots_len, dots_new, dots_of};
use crate::vtime::Dot;

verus! {

/// The dots filed under key `k`; an absent key has none.
pub open spec fn dots_at<K>(m: Map<K, Set<Dot>>, k: K) -> Set<Dot> {
    if m.contains_key(k) {
        m[k]
    } else {
        Set::empty()
    }
}

spec fn model_of<T: View>(s: Seq<(T, DotList)>) -> Map<T::V, Set<Dot>>
    decreases s.len(),
{
    if s.len() == 0 {
        Map::empty()
    } else {
        model_of(s.drop_last()).insert(s.last().0@, dots_of(s.last().1).to_set())
    }
}

spec fn unique_keys<T: View>(s: Seq<(T, DotList)>) -> bool {
    forall|i: int, j: int| 0 <= i < j < s.len() ==> s[i].0@ != s[j].0@
}

proof fn lemma_model_of<T: View>(s: Seq<(T, DotList)>)
    requires
        unique_keys(s),
    ensures
        model_of(s).dom().finite(),
        model_of(s).dom().len() == s.len(),
        forall|i: int|
            0 <= i < s.len() ==> #[trigger] model_of(s).contains_key(s[i].0@) && model_of(s)[s[i].0@]
                == dots_of(s[i].1).to_set(),
        forall|k: T::V| #[trigger]
            model_of(s).contains_key(k) ==> exists|i: int| 0 <= i < s.len() && s[i].0@ == k,
    decreases s.len(),
{
    if s.len() > 0 {
        let t = s.drop_last();
        assert(unique_keys(t));
        lemma_model_of(t);
        assert forall|i: int| 0 <= i < s.len() implies #[trigger] model_of(s).contains_key(s[i].0@)
            && model_of(s)[s[i].0@] == dots_of(s[i].1).to_set() by {
            if i < s.len() - 1 {
                assert(t[i] == s[i]);
                assert(model_of(t).contains_key(t[i].0@));
                assert(s[i].0@ != s[s.len() - 1].0@);
            }
        }
        assert forall|k: T::V| #[trigger]
            model_of(s).contains_key(k) implies exists|i: int| 0 <= i < s.len() && s[i].0@ == k by {
            if k == s.last().0@ {
                assert(s[s.len() - 1].0@ == k);
            } else {
                let i = choose|i: int| 0 <= i < t.len() && t[i].0@ == k;
                assert(s[i].0@ == k);
            }
        }
        if model_of(t).contains_key(s.last().0@) {
            let i = choose|i: int| 0 <= i < t.len() && t[i].0@ == s.last().0@;
            assert(s[i].0@ == s[s.len() - 1].0@);
        }
    }
}

proof fn lemma_model_char<T: View>(s: Seq<(T, DotList)>, m: Map<T::V, Set<Dot>>)
    requires
        unique_keys(s),
        forall|i: int|
            0 <= i < s.len() ==> #[trigger] m.contains_key(s[i].0@) && m[s[i].0@] == dots_of(
                s[i].1,
            ).to_set(),
        forall|k: T::V| #[trigger] m.contains_key(k) ==> exists|i: int| 0 <= i < s.len() && s[i].0@ == k,
    ensures
        model_of(s) == m,
{
    lemma_model_of(s);
    assert forall|k: T::V| #[trigger] model_of(s).contains_key(k) <==> m.contains_key(k) by {
        if model_of(s).contains_key(k) {
            let i = choose|i: int| 0 <= i < s.len() && s[i].0@ == k;
            assert(m.contains_key(s[i].0@));
        }
        if m.contains_key(k) {
            let i = choose|i: int| 0 <= i < s.len() && s[i].0@ == k;
            assert(model_of(s).contains_key(s[i].0@));
        }
    }
    assert forall|k: T::V| #[trigger] model_of(s).contains_key(k) implies model_of(s)[k] == m[k] by {
        let i = choose|i: int| 0 <= i < s.len() && s[i].0@ == k;
        assert(model_of(s).contains_key(s[i].0@));
        assert(m.contains_key(s[i].0@));
    }
    assert(model_of(s) =~= m);
}

/// Keys, each filed once, with the dots that keep them alive.
#[derive(Debug)]
pub struct KeyDots<T: Key> {
    entries: Vec<(T, DotList)>,
}

impl<T: Key> View for KeyDots<T> {
    type V = Map<T::V, Set<Dot>>;

    closed spec fn view(&self) -> Map<T::V, Set<Dot>> {
        model_of(self.entries@)
    }
}

impl<T: Key> KeyDots<T> {
    #[verifier::type_invariant]
    spec fn inv(self) -> bool {
        unique_keys(self.entries@)
    }

    /// The keys in the order they are held.
    pub closed spec fn keys(&self) -> Seq<T> {
        self.entries@.map_values(|e: (T, DotList)| e.0)
    }

    pub fn new() -> (r: KeyDots<T>)
        ensures
            r@ == Map::<T::V, Set<Dot>>::empty(),
            r.keys().len() == 0,
    {
        let r = KeyDots { entries: Vec::new() };
        proof {
            assert(r.keys() =~= Seq::<T>::empty());
        }
        r
    }

    /// The number of keys; the keys held are exactly the ones of the model, each once.
    pub fn len(&self) -> (r: usize)
        ensures
            r == self.keys().len(),
            r == self@.dom().len(),
            self@.dom().finite(),
            forall|i: int|
                0 <= i < self.keys().len() ==> #[trigger] self@.contains_key(self.keys()[i]@),
            forall|k: T::V| #[trigger]
                self@.contains_key(k) ==> exists|i: int|
                    0 <= i < self.keys().len() && self.keys()[i]@ == k,
            forall|i: int, j: int|
                0 <= i < j < self.keys().len() ==> self.keys()[i]@ != self.keys()[j]@,
    {
        proof {
            use_type_invariant(self);
            lemma_model_of(self.entries@);
            assert forall|k: T::V| #[trigger] self@.contains_key(k) implies exists|i: int|
                0 <= i < self.keys().len() && self.keys()[i]@ == k by {
                let i = choose|i: int| 0 <= i < self.entries@.len() && self.entries@[i].0@ == k;
                assert(self.keys()[i] == self.entries@[i].0);
            }
            assert forall|i: int| 0 <= i < self.keys().len() implies #[trigger] self@.contains_key(
                self.keys()[i]@,
            ) by {
                assert(self.keys()[i] == self.entries@[i].0);
            }
            assert forall|i: int, j: int| 0 <= i < j < self.keys().len() implies self.keys()[i]@
                != self.keys()[j]@ by {
                assert(self.keys()[i] == self.entries@[i].0);
                assert(self.keys()[j] == self.entries@[j].0);
            }
        }
        self.entries.len()
    }

    /// The key at position `i`, with a copy of its dots.
    pub fn entry_at(&self, i: usize) -> (r: (T, DotList))
        requires
            i < self.keys().len(),
        ensures
            r.0 == self.keys()[i as int],
            self@.contains_key(r.0@),
            self@[r.0@] == dots_of(r.1).to_set(),
    {
        proof {
            use_type_invariant(self);
            lemma_model_of(self.entries@);
            assert(self.keys()[i as int] == self.entries@[i as int].0);
            assert(self@.contains_key(self.entries@[i as int].0@));
        }
        let e = &self.entries[i];
        (e.0, dots_clone(&e.1))
    }

    fn find(&self, k: &T) -> (p: usize)
        ensures
            p <= self.entries@.len(),
            p < self.entries@.len() ==> self.entries@[p as int].0@ == k@,
            p < self.entries@.len() ==> self@.contains_key(k@) && self@[k@] == dots_of(
                self.entries@[p as int].1,
            ).to_set(),
            p == self.entries@.len() ==> !self@.contains_key(k@),
    {
        proof {
            use_type_invariant(self);
        }
        let mut i: usize = 0;
        while i < self.entries.len()
            invariant
                i <= self.entries@.len(),
                unique_keys(self.entries@),
                forall|j: int| 0 <= j < i ==> self.entries@[j].0@ != k@,
            decreases self.entries@.len() - i,
        {
            if self.entries[i].0.same(k) {
                proof {
                    lemma_model_of(self.entries@);
                    assert(self@.contains_key(self.entries@[i as int].0@));
                }
                return i;
            }
            i = i + 1;
        }
        proof {
            lemma_model_of(self.entries@);
        }
        i
    }

    /// The key at position `i`.
    pub fn key_at(&self, i: usize) -> (r: T)
        requires
            i < self.keys().len(),
        ensures
            r == self.keys()[i as int],
    {
        self.entries[i].0
    }

    /// Whether key `k` is held.
    pub fn contains_key(&self, k: &T) -> (r: bool)
        ensures
            r == self@.contains_key(k@),
    {
        self.find(k) < self.entries.len()
    }

    /// A copy of the dots of key `k`; an empty list when the key is absent.
    pub fn get(&self, k: &T) -> (r: DotList)
        ensures
            dots_of(r).to_set() == dots_at(self@, k@),
    {
        let p = self.find(k);
        if p < self.entries.len() {
            dots_clone(&self.entries[p].1)
        } else {
            let r = dots_new();
            proof {
                assert(dots_of(r).to_set() =~= Set::<Dot>::empty());
            }
            r
        }
    }

    /// Files `list` as the dots of key `k`, replacing what was there.
    pub fn put(&mut self, k: T, list: DotList)
        ensures
            final(self)@ == old(self)@.insert(k@, dots_of(list).to_set()),
    {
        let p = self.find(&k);
        let ghost s = self.entries@;
        proof {
            use_type_invariant(&*self);
            lemma_model_of(s);
        }
        let ghost ls = dots_of(list).to_set();
        let mut taken = KeyDots::new();
        core::mem::swap(self, &mut taken);
        let mut e = taken.entries;
        if p < e.len() {
            e.set(p, (k, list));
            proof {
                let t = e@;
                let m = model_of(s).insert(k@, ls);
                assert(unique_keys(t));
                assert forall|x: T::V| #[trigger] m.contains_key(x) implies exists|i: int|
                    0 <= i < t.len() && t[i].0@ == x by {
                    if x != k@ {
                        let i = choose|i: int| 0 <= i < s.len() && s[i].0@ == x;
                        assert(t[i].0@ == x);
                    } else {
                        assert(t[p as int].0@ == x);
                    }
                }
                assert forall|i: int| 0 <= i < t.len() implies #[trigger] m.contains_key(t[i].0@)
                    && m[t[i].0@] == dots_of(t[i].1).to_set() by {
                    if i != p {
                        assert(t[i] == s[i]);
                        assert(model_of(s).contains_key(s[i].0@));
                    }
                }
                lemma_model_char(t, m);
            }
        } else {
            e.push((k, list));
            proof {
                assert(e@.drop_last() =~= s);
                assert forall|i: int, j: int| 0 <= i < j < e@.len() implies e@[i].0@ != e@[j].0@ by {
                    if j == s.len() {
                        assert(model_of(s).contains_key(s[i].0@));
                    } else {
                        assert(e@[i] == s[i]);
                        assert(e@[j] == s[j]);
                    }
                }
            }
        }
        *self = KeyDots { entries: e };
    }

    /// Files `k`, known to be absent, with `list`, after all keys held.
    pub fn push_new(&mut self, k: T, list: DotList)
        requires
            !old(self)@.contains_key(k@),
        ensures
            final(self)@ == old(self)@.insert(k@, dots_of(list).to_set()),
            final(self).keys() == old(self).keys().push(k),
    {
        let ghost s = self.entries@;
        proof {
            use_type_invariant(&*self);
            lemma_model_of(s);
        }
        let mut taken = KeyDots::new();
        core::mem::swap(self, &mut taken);
        let mut e = taken.entries;
        e.push((k, list));
        proof {
            assert(e@.drop_last() =~= s);
            assert forall|i: int, j: int| 0 <= i < j < e@.len() implies e@[i].0@ != e@[j].0@ by {
                if j == s.len() {
                    assert(model_of(s).contains_key(s[i].0@));
                } else {
                    assert(e@[i] == s[i]);
                    assert(e@[j] == s[j]);
                }
            }
        }
        *self = KeyDots { entries: e };
        proof {
            assert(self.keys() =~= old(self).keys().push(k));
        }
    }

    /// Takes key `k` out, with its dots; `None` when it is absent.
    pub fn take(&mut self, k: &T) -> (r: Option<DotList>)
        ensures
            final(self)@ == old(self)@.remove(k@),
            r is Some <==> old(self)@.contains_key(k@),
            r is Some ==> dots_of(r->0).to_set() == old(self)@[k@],
    {
        let p = self.find(k);
        let ghost s = self.entries@;
        proof {
            use_type_invariant(&*self);
            lemma_model_of(s);
        }
        if p == self.entries.len() {
            proof {
                assert(model_of(s).remove(k@) =~= model_of(s));
            }
            return None;
        }
        let mut taken = KeyDots::new();
        core::mem::swap(self, &mut taken);
        let mut e = taken.entries;
        let (_, list) = e.remove(p);
        proof {
            let t = e@;
            let m = model_of(s).remove(k@);
            assert forall|i: int, j: int| 0 <= i < j < t.len() implies t[i].0@ != t[j].0@ by {
                let a = if i < p { i } else { i + 1 };
                let b = if j < p { j } else { j + 1 };
                assert(t[i] == s[a]);
                assert(t[j] == s[b]);
            }
            assert forall|x: T::V| #[trigger] m.contains_key(x) implies exists|i: int|
                0 <= i < t.len() && t[i].0@ == x by {
                let i = choose|i: int| 0 <= i < s.len() && s[i].0@ == x;
                if i < p {
                    assert(t[i].0@ == x);
                } else {
                    assert(i != p);
                    assert(t[i - 1].0@ == x);
                }
            }
            assert forall|i: int| 0 <= i < t.len() implies #[trigger] m.contains_key(t[i].0@)
                && m[t[i].0@] == dots_of(t[i].1).to_set() by {
                let a = if i < p { i } else { i + 1 };
                assert(t[i] == s[a]);
                assert(model_of(s).contains_key(s[a].0@));
            }
            lemma_model_char(t, m);
        }
        *self = KeyDots { entries: e };
        Some(list)
    }

    /// Adds dot `d` under key `k`.
    pub fn add_dot(&mut self, k: T, d: Dot)
        ensures
            final(self)@ == old(self)@.insert(k@, dots_at(old(self)@, k@).insert(d)),
    {
        let mut list = self.get(&k);
        dots_add(&mut list, d);
        self.put(k, list);
    }

    /// Adds every dot of `ds` under key `k`; returns whether any of them was new there.
    pub fn add_dots(&mut self, k: T, ds: &DotList) -> (r: bool)
        ensures
            final(self)@ == old(self)@.insert(k@, dots_at(old(self)@, k@).union(dots_of(*ds).to_set())),
            r == !dots_of(*ds).to_set().subset_of(dots_at(old(self)@, k@)),
    {
        let ghost before = dots_at(self@, k@);
        let mut list = self.get(&k);
        let orig = self.get(&k);
        let n = dots_len(ds);
        let mut added = false;
        let mut i: usize = 0;
        while i < n
            invariant
                n == dots_of(*ds).len(),
                i <= n,
                dots_of(orig).to_set() == before,
                dots_of(list).to_set() == before.union(dots_of(*ds).subrange(0, i as int).to_set()),
                added == !dots_of(*ds).subrange(0, i as int).to_set().subset_of(before),
            decreases n - i,
        {
            let d = dots_get(ds, i);
            let ghost pre = dots_of(*ds).subrange(0, i as int);
            let ghost post = dots_of(*ds).subrange(0, i as int + 1);
            proof {
                assert(post =~= pre.push(d));
                assert(post.to_set() =~= pre.to_set().insert(d)) by {
                    assert forall|x: Dot| #[trigger] post.to_set().contains(x) <==> pre.to_set().insert(d).contains(x) by {
                        if pre.contains(x) {
                            let j = choose|j: int| 0 <= j < pre.len() && pre[j] == x;
                            assert(post[j] == x);
                        }
                        if x == d {
                            assert(post[i as int] == x);
                        }
                        if post.contains(x) {
                            let j = choose|j: int| 0 <= j < post.len() && post[j] == x;
                            if j < i {
                                assert(pre[j] == x);
                            }
                        }
                    }
                }
            }
            if !dots_contains(&orig, &d) {
                added = true;
            }
            dots_add(&mut list, d);
            proof {
                assert(dots_of(list).to_set() =~= before.union(post.to_set()));
                if post.to_set().subset_of(before) {
                    assert(pre.to_set().subset_of(before));
                    assert(post.to_set().contains(d));
                }
                if !pre.to_set().subset_of(before) {
                    let x = choose|x: Dot| pre.to_set().contains(x) && !before.contains(x);
                    assert(post.to_set().contains(x));
                }
                if !before.contains(d) {
                    assert(post.to_set().contains(d));
                }
            }
            i = i + 1;
        }
        proof {
            assert(dots_of(*ds).subrange(0, n as int) =~= dots_of(*ds));
        }
        self.put(k, list);
        added
    }
}

impl<T: Key> Clone for KeyDots<T> {
    fn clone(&self) -> (r: Self)
        ensures
            r@ == self@,
            r.keys() == self.keys(),
    {
        proof {
            use_type_invariant(self);
            lemma_model_of(self.entries@);
        }
        let ghost s = self.entries@;
        let mut e: Vec<(T, DotList)> = Vec::new();
        let mut i: usize = 0;
        while i < self.entries.len()
            invariant
                s == self.entries@,
                i <= s.len(),
                e@.len() == i,
                forall|j: int| 0 <= j < i ==> #[trigger] e@[j].0 == s[j].0 && dots_of(e@[j].1) == dots_of(s[j].1),
            decreases s.len() - i,
        {
            let list = dots_clone(&self.entries[i].1);
            e.push((self.entries[i].0, list));
            i = i + 1;
        }
        proof {
            assert forall|a: int, b: int| 0 <= a < b < e@.len() implies e@[a].0@ != e@[b].0@ by {
                assert(e@[a].0 == s[a].0);
                assert(e@[b].0 == s[b].0);
            }
            let m = model_of(s);
            assert forall|j: int| 0 <= j < e@.len() implies #[trigger] m.contains_key(e@[j].0@)
                && m[e@[j].0@] == dots_of(e@[j].1).to_set() by {
                assert(e@[j].0 == s[j].0);
                assert(m.contains_key(s[j].0@));
            }
            assert forall|k: T::V| #[trigger] m.contains_key(k) implies exists|j: int|
                0 <= j < e@.len() && e@[j].0@ == k by {
                let j = choose|j: int| 0 <= j < s.len() && s[j].0@ == k;
                assert(e@[j].0 == s[j].0);
            }
            lemma_model_char(e@, m);
        }
        let r = KeyDots { entries: e };
        proof {
            assert(r.keys() =~= self.keys()) by {
                assert forall|j: int| 0 <= j < r.keys().len() implies r.keys()[j] == self.keys()[j] by {
                    assert(e@[j].0 == s[j].0);
                }
            }
        }
        r
    }
}

} // verus!
