//! Insertion sort over any type with a total order that its own code
//! decides and its specs state.
use vstd::prelude::*;

verus! {

broadcast use vstd::seq_lib::group_to_multiset_ensures;

/// A total order, decided in code and stated in specs.
pub trait SortKey: Sized {
    /// `self` comes before `other`, or in the same place.
    spec fn before(&self, other: &Self) -> bool;

    fn before_exec(&self, other: &Self) -> (r: bool)
        ensures
            r == self.before(other),
    ;

    proof fn lemma_total(a: &Self, b: &Self)
        ensures
            a.before(b) || b.before(a),
    ;

    proof fn lemma_trans(a: &Self, b: &Self, c: &Self)
        requires
            a.before(b),
            b.before(c),
        ensures
            a.before(c),
    ;
}

pub open spec fn sorted_by<T: SortKey>(s: Seq<T>) -> bool {
    forall|i: int, j: int| #![trigger s[i], s[j]] 0 <= i < j < s.len() ==> s[i].before(&s[j])
}

/// The items, ordered.
pub fn insertion_sort<T: SortKey>(v: Vec<T>) -> (r: Vec<T>)
    ensures
        sorted_by(r@),
        r@.to_multiset() == v@.to_multiset(),
{
    let mut v = v;
    let mut r: Vec<T> = Vec::new();
    let ghost orig = v@;
    while v.len() > 0
        invariant
            sorted_by(r@),
            r@.to_multiset().add(v@.to_multiset()) == orig.to_multiset(),
        decreases v@.len(),
    {
        let ghost before = v@;
        let x = v.pop().unwrap();
        assert(before == v@.push(x));
        let mut p: usize = 0;
        while p < r.len() && r[p].before_exec(&x)
            invariant
                p <= r@.len(),
                forall|i: int| #![trigger r@[i]] 0 <= i < p ==> r@[i].before(&x),
            decreases r@.len() - p,
        {
            p = p + 1;
        }
        let ghost old_r = r@;
        proof {
            if p < old_r.len() {
                T::lemma_total(&x, &old_r[p as int]);
                assert forall|j: int| #![trigger old_r[j]] p <= j < old_r.len() implies x.before(&old_r[j]) by {
                    if j > p {
                        T::lemma_trans(&x, &old_r[p as int], &old_r[j]);
                    }
                }
            }
        }
        r.insert(p, x);
        proof {
            assert(r@ == old_r.insert(p as int, x));
            assert forall|i: int, j: int| #![trigger r@[i], r@[j]] 0 <= i < j < r@.len() implies r@[i].before(&r@[j]) by {
                if j < p {
                } else if j == p {
                } else if i < p {
                    T::lemma_trans(&r@[i], &x, &r@[j]);
                } else if i == p {
                } else {
                    assert(r@[i] == old_r[i - 1] && r@[j] == old_r[j - 1]);
                }
            }
            vstd::seq_lib::to_multiset_insert(old_r, p as int, x);
        }
    }
    r
}

} // verus!
