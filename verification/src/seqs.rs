//! Finding a value in a sequence.

use vstd::prelude::*;

verus! {

/// The first place at which a value stands in a sequence.
pub open spec fn first_index<T>(s: Seq<T>, x: T) -> Option<int>
    decreases s.len(),
{
    if s.len() == 0 {
        None
    } else {
        match first_index(s.drop_last(), x) {
            Some(i) => Some(i),
            None => if s.last() == x {
                Some(s.len() - 1)
            } else {
                None
            },
        }
    }
}

/// What `first_index` finds is the value, and nothing before it is.
pub proof fn lemma_first_index<T>(s: Seq<T>, x: T)
    ensures
        match first_index(s, x) {
            Some(i) => 0 <= i < s.len() && s[i] == x && forall|j: int| 0 <= j < i ==> s[j] != x,
            None => forall|j: int| 0 <= j < s.len() ==> s[j] != x,
        },
    decreases s.len(),
{
    if s.len() > 0 {
        lemma_first_index(s.drop_last(), x);
        match first_index(s.drop_last(), x) {
            Some(i) => {
                assert(s.drop_last()[i] == s[i]);
                assert forall|j: int| 0 <= j < i implies s[j] != x by {
                    assert(s.drop_last()[j] == s[j]);
                }
            },
            None => {
                assert forall|j: int| 0 <= j < s.len() - 1 implies s[j] != x by {
                    assert(s.drop_last()[j] == s[j]);
                }
            },
        }
    }
}

/// A place that holds the value, with nothing equal before it, is the first.
pub proof fn lemma_first_index_is<T>(s: Seq<T>, x: T, i: int)
    requires
        0 <= i < s.len(),
        s[i] == x,
        forall|j: int| 0 <= j < i ==> s[j] != x,
    ensures
        first_index(s, x) == Some(i),
{
    lemma_first_index(s, x);
}

/// A value that stands nowhere has no first place.
pub proof fn lemma_first_index_none<T>(s: Seq<T>, x: T)
    requires
        forall|j: int| 0 <= j < s.len() ==> s[j] != x,
    ensures
        first_index(s, x) is None,
{
    lemma_first_index(s, x);
}

/// Adding a value at the end leaves the first place of a value that was
/// found, and finds the added value if it was not.
pub proof fn lemma_first_index_push<T>(s: Seq<T>, y: T, x: T)
    ensures
        first_index(s.push(y), x) == match first_index(s, x) {
            Some(i) => Some(i),
            None => if y == x {
                Some(s.len() as int)
            } else {
                None
            },
        },
{
    assert(s.push(y).drop_last() =~= s);
}

} // verus!
