//! Quantities that add up over concatenation do not depend on the order of
//! the sequence they are computed from.

use vstd::prelude::*;
use vstd::multiset::Multiset;

verus! {

broadcast use vstd::seq_lib::group_to_multiset_ensures;

/// A quantity that adds up over concatenation takes the same value on two
/// sequences with the same elements, counted with multiplicity.
pub proof fn lemma_additive_ignores_order<A>(f: spec_fn(Seq<A>) -> int, s1: Seq<A>, s2: Seq<A>)
    requires
        forall|a: Seq<A>, b: Seq<A>| #[trigger] f(a + b) == f(a) + f(b),
        s1.to_multiset() == s2.to_multiset(),
    ensures
        f(s1) == f(s2),
    decreases s1.len(),
{
    if s1.len() == 0 {
        assert(s1.to_multiset().len() == s1.len());
        assert(s2.to_multiset().len() == s2.len());
        assert(s2.len() == 0);
        assert(s1 =~= s2);
    } else {
        let x = s1.last();
        let d = s1.drop_last();
        assert(d.push(x) =~= s1);
        assert(s1.to_multiset() =~= d.to_multiset().insert(x));
        assert(s2.to_multiset().count(x) > 0);
        assert(s2.contains(x));
        let k = choose|k: int| 0 <= k < s2.len() && s2[k] == x;
        let r = s2.remove(k);
        assert(r.to_multiset() =~= s2.to_multiset().remove(x));
        assert(r.to_multiset() =~= d.to_multiset());
        lemma_additive_ignores_order(f, d, r);
        assert(d + seq![x] =~= s1);
        let front = s2.take(k);
        let back = s2.skip(k + 1);
        assert(front + (seq![x] + back) =~= s2);
        assert(front + back =~= r);
        assert(f(front + (seq![x] + back)) == f(front) + f(seq![x] + back));
        assert(f(seq![x] + back) == f(seq![x]) + f(back));
        assert(f(front + back) == f(front) + f(back));
        assert(f(d + seq![x]) == f(d) + f(seq![x]));
    }
}

/// Number of times `x` occurs in `s`.
pub open spec fn count_in<A>(s: Seq<A>, x: A) -> int
    decreases s.len(),
{
    if s.len() == 0 {
        0
    } else {
        count_in(s.drop_last(), x) + if s.last() == x {
            1int
        } else {
            0int
        }
    }
}

pub proof fn lemma_count_in_concat<A>(a: Seq<A>, b: Seq<A>, x: A)
    ensures
        count_in(a + b, x) == count_in(a, x) + count_in(b, x),
    decreases b.len(),
{
    if b.len() == 0 {
        assert(a + b =~= a);
    } else {
        assert((a + b).drop_last() =~= a + b.drop_last());
        lemma_count_in_concat(a, b.drop_last(), x);
    }
}

/// The count of an element is its multiplicity in the sequence's multiset.
pub proof fn lemma_count_in_multiset<A>(s: Seq<A>, x: A)
    ensures
        count_in(s, x) == s.to_multiset().count(x),
    decreases s.len(),
{
    if s.len() == 0 {
        assert(s.to_multiset() =~= Multiset::empty());
    } else {
        let d = s.drop_last();
        lemma_count_in_multiset(d, x);
        assert(d.push(s.last()) =~= s);
        assert(s.to_multiset() =~= d.to_multiset().insert(s.last()));
    }
}

} // verus!
