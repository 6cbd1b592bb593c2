//! First matches and ordered selections over sequences.
use vstd::prelude::*;

verus! {

/// The smallest index below `n` that satisfies `p`.
pub open spec fn first_index(n: nat, p: spec_fn(int) -> bool) -> Option<int>
    decreases n,
{
    if n == 0 {
        None
    } else {
        match first_index((n - 1) as nat, p) {
            Some(i) => Some(i),
            None => if p(n - 1) {
                Some(n - 1)
            } else {
                None
            },
        }
    }
}

/// What the first match is: it matches, and nothing before it does.
pub proof fn first_index_is_first(n: nat, p: spec_fn(int) -> bool)
    ensures
        match first_index(n, p) {
            Some(i) => 0 <= i < n && p(i) && forall|j: int| 0 <= j < i ==> !#[trigger] p(j),
            None => forall|j: int| 0 <= j < n ==> !#[trigger] p(j),
        },
    decreases n,
{
    if n > 0 {
        first_index_is_first((n - 1) as nat, p);
    }
}

/// A match with nothing before it is the first one.
pub proof fn first_index_found(n: nat, p: spec_fn(int) -> bool, i: int)
    requires
        0 <= i < n,
        p(i),
        forall|j: int| 0 <= j < i ==> !#[trigger] p(j),
    ensures
        first_index(n, p) == Some(i),
{
    first_index_is_first(n, p);
    let found = first_index(n, p);
    if found is None {
        assert(!p(i));
    } else {
        assert(found->Some_0 >= i);
        if found->Some_0 > i {
            assert(!p(i));
        }
    }
}

} // verus!
