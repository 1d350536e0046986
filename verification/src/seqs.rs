//! Finding the first item of a sequence that has a given property.

use vstd::prelude::*;

verus! {

/// The place of the first item of `s` that `p` holds of, if there is one.
pub open spec fn first_where<T>(s: Seq<T>, p: spec_fn(T) -> bool) -> Option<int>
    decreases s.len(),
{
    if s.len() == 0 {
        None
    } else if p(s[0]) {
        Some(0)
    } else {
        match first_where(s.drop_first(), p) {
            Some(i) => Some(i + 1),
            None => None,
        }
    }
}

/// `first_where` finds an item of which `p` holds, with none before it, or
/// `p` holds of no item.
pub proof fn lemma_first_where<T>(s: Seq<T>, p: spec_fn(T) -> bool)
    ensures
        match first_where(s, p) {
            Some(i) => 0 <= i < s.len() && p(s[i]) && forall|k: int|
                0 <= k < i ==> !p(#[trigger] s[k]),
            None => forall|k: int| 0 <= k < s.len() ==> !p(#[trigger] s[k]),
        },
    decreases s.len(),
{
    if s.len() > 0 && !p(s[0]) {
        let t = s.drop_first();
        lemma_first_where(t, p);
        match first_where(t, p) {
            Some(i) => {
                assert forall|k: int| 0 <= k < i + 1 implies !p(#[trigger] s[k]) by {
                    if k > 0 {
                        assert(s[k] == t[k - 1]);
                    }
                }
            },
            None => {
                assert forall|k: int| 0 <= k < s.len() implies !p(#[trigger] s[k]) by {
                    if k > 0 {
                        assert(s[k] == t[k - 1]);
                    }
                }
            },
        }
    }
}

/// The first item of which `p` holds stands at `i`.
pub proof fn lemma_first_where_is<T>(s: Seq<T>, p: spec_fn(T) -> bool, i: int)
    requires
        0 <= i < s.len(),
        p(s[i]),
        forall|k: int| 0 <= k < i ==> !p(#[trigger] s[k]),
    ensures
        first_where(s, p) == Some(i),
{
    lemma_first_where(s, p);
}

/// `p` holds of no item.
pub proof fn lemma_first_where_none<T>(s: Seq<T>, p: spec_fn(T) -> bool)
    requires
        forall|k: int| 0 <= k < s.len() ==> !p(#[trigger] s[k]),
    ensures
        first_where(s, p) is None,
{
    lemma_first_where(s, p);
}

/// The items of `s`, each once: an item that stands in the list already is
/// not taken again.
pub open spec fn each_once<T>(s: Seq<T>) -> Seq<T>
    decreases s.len(),
{
    if s.len() == 0 {
        s
    } else {
        let head = each_once(s.drop_last());
        if head.contains(s.last()) {
            head
        } else {
            head.push(s.last())
        }
    }
}

/// The items of `s` of which `p` holds, each once, in the order in which they
/// first occur.
pub open spec fn once_where<T>(s: Seq<T>, p: spec_fn(T) -> bool) -> Seq<T>
    decreases s.len(),
{
    if s.len() == 0 {
        s
    } else {
        let head = once_where(s.drop_last(), p);
        if p(s.last()) && !head.contains(s.last()) {
            head.push(s.last())
        } else {
            head
        }
    }
}

/// `once_where` holds an item of `s` exactly if `p` holds of it, and holds no
/// item twice.
pub proof fn lemma_once_where<T>(s: Seq<T>, p: spec_fn(T) -> bool)
    ensures
        forall|x: T| #[trigger] once_where(s, p).contains(x) <==> s.contains(x) && p(x),
        once_where(s, p).no_duplicates(),
        once_where(s, p).len() <= s.len(),
    decreases s.len(),
{
    if s.len() > 0 {
        let t = s.drop_last();
        lemma_once_where(t, p);
        let head = once_where(t, p);
        let all = once_where(s, p);
        assert forall|x: T| #[trigger] all.contains(x) <==> s.contains(x) && p(x) by {
            if all.contains(x) {
                let i = choose|i: int| 0 <= i < all.len() && all[i] == x;
                if i < head.len() {
                    assert(head[i] == x);
                    assert(head.contains(x));
                    assert(t.contains(x));
                    let j = choose|j: int| 0 <= j < t.len() && t[j] == x;
                    assert(s[j] == x);
                } else {
                    assert(x == s.last());
                    assert(s[s.len() - 1] == x);
                }
            }
            if s.contains(x) && p(x) {
                let j = choose|j: int| 0 <= j < s.len() && s[j] == x;
                if j < t.len() {
                    assert(t[j] == x);
                    assert(t.contains(x));
                    assert(head.contains(x));
                    let i = choose|i: int| 0 <= i < head.len() && head[i] == x;
                    assert(all[i] == x);
                } else {
                    if head.contains(x) {
                        let i = choose|i: int| 0 <= i < head.len() && head[i] == x;
                        assert(all[i] == x);
                    } else {
                        assert(all[all.len() - 1] == x);
                    }
                }
            }
        }
    }
}

} // verus!
