//! Small facts about sequences used across the crate.
use vstd::prelude::*;

verus! {

/// A pushed sequence contains exactly the old elements and the new one.
pub broadcast proof fn lemma_push_contains<A>(s: Seq<A>, e: A, u: A)
    ensures
        #[trigger] s.push(e).contains(u) <==> (s.contains(u) || u == e),
{
    if s.push(e).contains(u) && u != e {
        let i = choose|i: int| 0 <= i < s.push(e).len() && s.push(e)[i] == u;
        assert(s[i] == u);
    }
    if s.contains(u) {
        let i = choose|i: int| 0 <= i < s.len() && s[i] == u;
        assert(s.push(e)[i] == u);
    }
    if u == e {
        assert(s.push(e)[s.len() as int] == u);
    }
}

} // verus!
