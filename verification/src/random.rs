//! Random text over a given alphabet.

use rand::Rng;
use vstd::prelude::*;

verus! {

/// Every character of `s` is one of `alphabet`.
pub open spec fn drawn_from(s: Seq<char>, alphabet: Seq<char>) -> bool {
    forall|i: int| 0 <= i < s.len() ==> alphabet.contains(#[trigger] s[i])
}

/// Samples `rand::distributions::Slice` over `alphabet` with
/// `rand::thread_rng`, `n` times, and collects what comes out. The contract
/// claims what holds of every outcome: there are `n` characters, and each is
/// one of `alphabet`. `Slice::new` fails on an empty slice, which `requires`
/// leaves out.
#[verifier::external_body]
pub(crate) fn sample_chars(alphabet: &Vec<char>, n: usize) -> (r: String)
    requires
        alphabet.len() > 0,
    ensures
        r@.len() == n,
        drawn_from(r@, alphabet@),
{
    let dist = rand::distributions::Slice::new(alphabet).unwrap();
    rand::thread_rng().sample_iter(&dist).take(n).collect()
}

} // verus!
