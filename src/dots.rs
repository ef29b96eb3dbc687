//! Small lists of dots, and the keys that dots are filed under.
use vstd::prelude::*;
use smallvec::SmallVec;
use crate::vtime::Dot;

verus! {

/// A short list of dots, kept inline while it holds a single one.
#[verifier::external_body]
#[derive(Debug)]
pub struct DotList {
    inner: SmallVec<[Dot; 1]>,
}

/// The dots a list holds, in order.
pub uninterp spec fn dots_of(v: DotList) -> Seq<Dot>;

/// Relies on `SmallVec::new`: a new list is empty.
#[verifier::external_body]
pub fn dots_new() -> (r: DotList)
    ensures
        dots_of(r) == Seq::<Dot>::empty(),
{
    DotList { inner: SmallVec::new() }
}

/// Relies on `SmallVec::push`: the dot is appended.
#[verifier::external_body]
pub fn dots_push(v: &mut DotList, d: Dot)
    ensures
        dots_of(*final(v)) == dots_of(*old(v)).push(d),
{
    v.inner.push(d)
}

/// Relies on `SmallVec::len`: the number of dots held.
#[verifier::external_body]
pub fn dots_len(v: &DotList) -> (r: usize)
    ensures
        r == dots_of(*v).len(),
{
    v.inner.len()
}

/// Relies on indexing a `SmallVec`: the dot at position `i`.
#[verifier::external_body]
pub fn dots_get(v: &DotList, i: usize) -> (r: Dot)
    requires
        i < dots_of(*v).len(),
    ensures
        r == dots_of(*v)[i as int],
{
    v.inner[i]
}

/// Relies on `SmallVec::clone`: the copy holds the same dots.
#[verifier::external_body]
pub fn dots_clone(v: &DotList) -> (r: DotList)
    ensures
        dots_of(r) == dots_of(*v),
{
    DotList { inner: v.inner.clone() }
}

/// Whether `d` is in the list.
pub fn dots_contains(v: &DotList, d: &Dot) -> (r: bool)
    ensures
        r == dots_of(*v).contains(*d),
{
    let n = dots_len(v);
    let mut i: usize = 0;
    while i < n
        invariant
            n == dots_of(*v).len(),
            i <= n,
            forall|j: int| 0 <= j < i ==> dots_of(*v)[j] != *d,
        decreases n - i,
    {
        if dots_get(v, i) == *d {
            return true;
        }
        i = i + 1;
    }
    false
}

proof fn lemma_push_set(s: Seq<Dot>, d: Dot)
    ensures
        s.push(d).to_set() == s.to_set().insert(d),
{
    assert forall|x: Dot| #[trigger] s.push(d).to_set().contains(x) <==> s.to_set().insert(d).contains(x) by {
        if s.contains(x) {
            let j = choose|j: int| 0 <= j < s.len() && s[j] == x;
            assert(s.push(d)[j] == x);
        }
        if x == d {
            assert(s.push(d)[s.len() as int] == x);
        }
        if s.push(d).contains(x) {
            let j = choose|j: int| 0 <= j < s.len() + 1 && s.push(d)[j] == x;
            if j < s.len() {
                assert(s[j] == x);
            }
        }
    }
    assert(s.push(d).to_set() =~= s.to_set().insert(d));
}

/// Appends `d` unless the list holds it already.
pub fn dots_add(v: &mut DotList, d: Dot)
    ensures
        dots_of(*final(v)).to_set() == dots_of(*old(v)).to_set().insert(d),
        dots_of(*old(v)).no_duplicates() ==> dots_of(*final(v)).no_duplicates(),
{
    if !dots_contains(v, &d) {
        dots_push(v, d);
        proof {
            lemma_push_set(dots_of(*old(v)), d);
        }
    } else {
        proof {
            assert(dots_of(*v).to_set() =~= dots_of(*old(v)).to_set().insert(d));
        }
    }
}

/// A value that can stand as a key of an observed-remove collection: keys are equal when
/// their views are.
pub trait Key: View + Copy + Sized {
    fn same(&self, other: &Self) -> (r: bool)
        ensures
            r == (self@ == other@),
    ;
}

impl Key for u32 {
    fn same(&self, other: &Self) -> (r: bool) {
        *self == *other
    }
}

impl Key for u64 {
    fn same(&self, other: &Self) -> (r: bool) {
        *self == *other
    }
}

impl<'a> Key for &'a str {
    fn same(&self, other: &Self) -> (r: bool) {
        let n = self.unicode_len();
        if n != other.unicode_len() {
            return false;
        }
        let mut i: usize = 0;
        while i < n
            invariant
                n == self@.len(),
                n == other@.len(),
                i <= n,
                forall|j: int| 0 <= j < i ==> self@[j] == other@[j],
            decreases n - i,
        {
            if self.get_char(i) != other.get_char(i) {
                return false;
            }
            i = i + 1;
        }
        proof {
            assert(self@ =~= other@);
        }
        true
    }
}

} // verus!
