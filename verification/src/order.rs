//! Stable sorting by a strict order that each type states for itself.

use vstd::prelude::*;

verus! {

/// A type whose values are ranked by a transitive strict order.
pub trait Ranked: Sized {
    /// `self` comes strictly before `other`.
    spec fn before(&self, other: &Self) -> bool;

    fn is_before(&self, other: &Self) -> (r: bool)
        ensures
            r == self.before(other),
    ;

    proof fn lemma_before_transitive(a: &Self, b: &Self, c: &Self)
        requires
            a.before(b),
            b.before(c),
        ensures
            a.before(c),
    ;

    proof fn lemma_before_irreflexive(a: &Self)
        ensures
            !a.before(a),
    ;
}

/// No item of `s` comes strictly before an item that stands earlier in `s`.
pub open spec fn is_ordered<T: Ranked>(s: Seq<T>) -> bool {
    forall|i: int, j: int| 0 <= i < j < s.len() ==> !(#[trigger] s[j].before(&s[i]))
}

/// Where `x` goes into `s`: in front of the first item that `x` comes
/// strictly before, at the end if there is none.
pub open spec fn insert_point<T: Ranked>(s: Seq<T>, x: T) -> int
    decreases s.len(),
{
    if s.len() == 0 {
        0
    } else if x.before(&s[0]) {
        0
    } else {
        1 + insert_point(s.drop_first(), x)
    }
}

/// `s` in order, items of equal rank in the order in which `s` holds them.
pub open spec fn sorted_of<T: Ranked>(s: Seq<T>) -> Seq<T>
    decreases s.len(),
{
    if s.len() == 0 {
        s
    } else {
        let t = sorted_of(s.drop_last());
        t.insert(insert_point(t, s.last()), s.last())
    }
}

pub proof fn lemma_insert_point<T: Ranked>(s: Seq<T>, x: T, p: int)
    requires
        0 <= p <= s.len(),
        forall|k: int| 0 <= k < p ==> !x.before(&#[trigger] s[k]),
        p == s.len() || x.before(&s[p]),
    ensures
        insert_point(s, x) == p,
    decreases s.len(),
{
    if s.len() > 0 && p > 0 {
        let t = s.drop_first();
        assert(!x.before(&s[0]));
        assert forall|k: int| 0 <= k < p - 1 implies !x.before(&#[trigger] t[k]) by {
            assert(t[k] == s[k + 1]);
        }
        lemma_insert_point(t, x, p - 1);
    }
}

pub proof fn lemma_insert_point_bounds<T: Ranked>(s: Seq<T>, x: T)
    ensures
        0 <= insert_point(s, x) <= s.len(),
        forall|k: int| 0 <= k < insert_point(s, x) ==> !x.before(&#[trigger] s[k]),
        insert_point(s, x) == s.len() || x.before(&s[insert_point(s, x)]),
    decreases s.len(),
{
    if s.len() > 0 && !x.before(&s[0]) {
        let t = s.drop_first();
        lemma_insert_point_bounds(t, x);
        let p = insert_point(s, x);
        assert forall|k: int| 0 <= k < p implies !x.before(&#[trigger] s[k]) by {
            if k > 0 {
                assert(s[k] == t[k - 1]);
            }
        }
    }
}

/// Sorting keeps the length.
pub proof fn lemma_sorted_of_len<T: Ranked>(s: Seq<T>)
    ensures
        sorted_of(s).len() == s.len(),
    decreases s.len(),
{
    if s.len() > 0 {
        let t = sorted_of(s.drop_last());
        lemma_sorted_of_len(s.drop_last());
        lemma_insert_point_bounds(t, s.last());
    }
}

/// Sorting rearranges: every item occurs as often after it as before.
pub proof fn lemma_sorted_of_permutes<T: Ranked>(s: Seq<T>)
    ensures
        sorted_of(s).to_multiset() == s.to_multiset(),
    decreases s.len(),
{
    broadcast use vstd::seq_lib::group_to_multiset_ensures;

    if s.len() > 0 {
        let head = s.drop_last();
        let t = sorted_of(head);
        lemma_sorted_of_permutes(head);
        lemma_insert_point_bounds(t, s.last());
        let p = insert_point(t, s.last());
        vstd::seq_lib::to_multiset_insert(t, p, s.last());
        assert(head.push(s.last()) =~= s);
    }
}

/// What holds of every item still holds of every item after sorting.
pub proof fn lemma_sorted_of_keeps<T: Ranked>(s: Seq<T>, p: spec_fn(T) -> bool)
    requires
        forall|i: int| 0 <= i < s.len() ==> p(#[trigger] s[i]),
    ensures
        forall|i: int| 0 <= i < sorted_of(s).len() ==> p(#[trigger] sorted_of(s)[i]),
    decreases s.len(),
{
    if s.len() > 0 {
        let head = s.drop_last();
        let t = sorted_of(head);
        assert forall|i: int| 0 <= i < head.len() implies p(#[trigger] head[i]) by {
            assert(head[i] == s[i]);
        }
        lemma_sorted_of_keeps(head, p);
        lemma_insert_point_bounds(t, s.last());
        let at = insert_point(t, s.last());
        let r = t.insert(at, s.last());
        assert forall|i: int| 0 <= i < r.len() implies p(#[trigger] r[i]) by {
            if i < at {
                assert(r[i] == t[i]);
            } else if i == at {
                assert(r[i] == s.last());
            } else {
                assert(r[i] == t[i - 1]);
            }
        }
    }
}

/// What sorting returns is in order.
pub proof fn lemma_sorted_of_ordered<T: Ranked>(s: Seq<T>)
    ensures
        is_ordered(sorted_of(s)),
    decreases s.len(),
{
    if s.len() > 0 {
        let t = sorted_of(s.drop_last());
        let x = s.last();
        lemma_sorted_of_ordered(s.drop_last());
        lemma_insert_point_bounds(t, x);
        let p = insert_point(t, x);
        let r = t.insert(p, x);
        assert(r.len() == t.len() + 1);
        assert forall|i: int, j: int| 0 <= i < j < r.len() implies !(#[trigger] r[j].before(&r[i])) by {
            if j == p {
                assert(r[i] == t[i]);
            } else if i == p {
                assert(r[j] == t[j - 1]);
                if r[j].before(&x) {
                    assert(x.before(&t[p]));
                    T::lemma_before_transitive(&r[j], &x, &t[p]);
                    if j - 1 > p {
                        assert(!t[j - 1].before(&t[p]));
                    } else {
                        T::lemma_before_irreflexive(&t[p]);
                    }
                }
            } else {
                let a = if i < p {
                    i
                } else {
                    i - 1
                };
                let b = if j < p {
                    j
                } else {
                    j - 1
                };
                assert(r[i] == t[a]);
                assert(r[j] == t[b]);
                assert(!t[b].before(&t[a]));
            }
        }
    }
}

/// Sorts `v` in place; items of equal rank keep their order.
pub fn sort<T: Ranked>(v: &mut Vec<T>)
    ensures
        final(v)@ == sorted_of(old(v)@),
{
    let n = v.len();
    let ghost orig = v@;
    let mut i: usize = 0;
    assert(orig.take(0) =~= Seq::<T>::empty());
    assert(v@ =~= sorted_of(orig.take(0)) + orig.skip(0));
    while i < n
        invariant
            i <= n == orig.len(),
            v@ == sorted_of(orig.take(i as int)) + orig.skip(i as int),
        decreases n - i,
    {
        let ghost done = sorted_of(orig.take(i as int));
        proof {
            lemma_sorted_of_len(orig.take(i as int));
        }
        let x = v.remove(i);
        assert(x == orig[i as int]);
        assert(v@ =~= done + orig.skip(i + 1));
        let mut p: usize = 0;
        while p < i && !x.is_before(&v[p])
            invariant
                p <= i < n,
                v@ == done + orig.skip(i + 1),
                done.len() == i,
                forall|k: int| 0 <= k < p ==> !x.before(&#[trigger] done[k]),
            decreases i - p,
        {
            assert(v@[p as int] == done[p as int]);
            p += 1;
        }
        proof {
            if p < i {
                assert(v@[p as int] == done[p as int]);
            }
            lemma_insert_point(done, x, p as int);
            assert(orig.take(i + 1).drop_last() =~= orig.take(i as int));
            assert(orig.take(i + 1).last() == x);
        }
        v.insert(p, x);
        assert(v@ =~= sorted_of(orig.take(i + 1)) + orig.skip(i + 1));
        i += 1;
    }
    assert(orig.take(n as int) =~= orig);
    assert(v@ =~= sorted_of(orig));
}

} // verus!
