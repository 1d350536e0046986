//! Lists of names, as they stand in the words of a refusal: one name to a
//! line, no name twice.

use vstd::prelude::*;
use crate::text::texts_view;

verus! {

/// The names, each followed by the end of its line.
pub open spec fn lines(names: Seq<Seq<char>>) -> Seq<char>
    decreases names.len(),
{
    if names.len() == 0 {
        Seq::empty()
    } else {
        lines(names.drop_last()) + names.last() + "\n"@
    }
}

/// The names, each on a new line.
pub open spec fn on_new_lines(names: Seq<Seq<char>>) -> Seq<char>
    decreases names.len(),
{
    if names.len() == 0 {
        Seq::empty()
    } else {
        on_new_lines(names.drop_last()) + "\n"@ + names.last()
    }
}

/// Adds each name, and the end of its line, to `msg`.
pub fn append_lines(msg: &mut String, names: &Vec<String>)
    ensures
        final(msg)@ == old(msg)@ + lines(texts_view(names@)),
{
    let ghost views = texts_view(names@);
    let ghost before = msg@;
    let n = names.len();
    let mut i: usize = 0;
    assert(views.take(0) =~= Seq::<Seq<char>>::empty());
    assert(msg@ =~= before + lines(views.take(0)));
    while i < n
        invariant
            i <= n == names@.len() == views.len(),
            views == texts_view(names@),
            msg@ == before + lines(views.take(i as int)),
        decreases n - i,
    {
        proof {
            assert(views.take(i + 1).drop_last() =~= views.take(i as int));
            assert(views.take(i + 1).last() == names@[i as int]@);
        }
        msg.append(names[i].as_str());
        msg.append("\n");
        assert(msg@ =~= before + lines(views.take(i + 1)));
        i += 1;
    }
    assert(views.take(n as int) =~= views);
}

/// Whether `name` is one of `names`.
pub fn is_listed(names: &Vec<String>, name: &str) -> (r: bool)
    ensures
        r == texts_view(names@).contains(name@),
{
    let ghost views = texts_view(names@);
    let n = names.len();
    let mut i: usize = 0;
    while i < n
        invariant
            i <= n == names@.len(),
            views == texts_view(names@),
            forall|k: int| 0 <= k < i ==> views[k] != name@,
        decreases n - i,
    {
        assert(views[i as int] == names@[i as int]@);
        if names[i].as_str().eq(name) {
            return true;
        }
        i += 1;
    }
    false
}

/// Puts `name` at the end of `names`, unless it is one of them already.
pub fn list_once(names: &mut Vec<String>, name: &str)
    ensures
        texts_view(final(names)@) == if texts_view(old(names)@).contains(name@) {
            texts_view(old(names)@)
        } else {
            texts_view(old(names)@).push(name@)
        },
{
    if !is_listed(names, name) {
        let ghost before = names@;
        names.push(String::from_str(name));
        assert(texts_view(names@) =~= texts_view(before).push(name@));
    }
}

} // verus!
