//! When two goals count as the same goal.

use vstd::prelude::*;
use vstd::std_specs::cmp::PartialEqSpecImpl;
use crate::pace::{BookCh, Goal, Source};
use crate::text::opt_view;

verus! {

/// Two chapters are the same chapter if they are of the same course and have
/// the same number; the level does not count.
pub open spec fn same_chapter(a: BookCh, b: BookCh) -> bool {
    a.sym@ == b.sym@ && a.seq == b.seq
}

pub open spec fn same_source(a: Source, b: Source) -> bool {
    match (a, b) {
        (Source::Book(x), Source::Book(y)) => same_chapter(x, y),
        (Source::Custom(x), Source::Custom(y)) => x == y,
        _ => false,
    }
}

/// Two goals are the same goal if they agree in everything but the weight
/// and the level, which are worked out, not given.
pub open spec fn same_goal(a: Goal, b: Goal) -> bool {
    &&& a.id == b.id
    &&& a.uname@ == b.uname@
    &&& same_source(a.source, b.source)
    &&& a.review == b.review
    &&& a.incomplete == b.incomplete
    &&& a.due == b.due
    &&& a.done == b.done
    &&& a.tries == b.tries
    &&& opt_view(a.score) == opt_view(b.score)
}

impl PartialEq for BookCh {
    fn eq(&self, other: &Self) -> (r: bool) {
        self.sym == other.sym && self.seq == other.seq
    }
}

impl PartialEqSpecImpl for BookCh {
    open spec fn obeys_eq_spec() -> bool {
        true
    }

    open spec fn eq_spec(&self, other: &Self) -> bool {
        same_chapter(*self, *other)
    }
}

impl PartialEq for Source {
    fn eq(&self, other: &Self) -> (r: bool) {
        match (self, other) {
            (Source::Book(x), Source::Book(y)) => x.sym == y.sym && x.seq == y.seq,
            (Source::Custom(x), Source::Custom(y)) => x.0 == y.0,
            _ => false,
        }
    }
}

impl PartialEqSpecImpl for Source {
    open spec fn obeys_eq_spec() -> bool {
        true
    }

    open spec fn eq_spec(&self, other: &Self) -> bool {
        same_source(*self, *other)
    }
}

impl PartialEq for Goal {
    fn eq(&self, other: &Self) -> (r: bool) {
        let sources = match (&self.source, &other.source) {
            (Source::Book(x), Source::Book(y)) => x.sym == y.sym && x.seq == y.seq,
            (Source::Custom(x), Source::Custom(y)) => x.0 == y.0,
            _ => false,
        };
        let scores = match (&self.score, &other.score) {
            (Some(x), Some(y)) => x.as_str().eq(y.as_str()),
            (None, None) => true,
            _ => false,
        };
        assert(scores == (opt_view(self.score) == opt_view(other.score)));
        assert(sources == same_source(self.source, other.source));
        self.id == other.id && self.uname == other.uname && sources && self.review == other.review
            && self.incomplete == other.incomplete && crate::pace::same_day(&self.due, &other.due)
            && crate::pace::same_day(&self.done, &other.done) && self.tries == other.tries && scores
    }
}

impl PartialEqSpecImpl for Goal {
    open spec fn obeys_eq_spec() -> bool {
        true
    }

    open spec fn eq_spec(&self, other: &Self) -> bool {
        same_goal(*self, *other)
    }
}

} // verus!
