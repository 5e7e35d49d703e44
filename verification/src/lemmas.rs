//! Sequence facts shared by the bridge components: how `map_values`
//! commutes with the edits the components make, and how element-wise
//! properties survive a removal.

use vstd::prelude::*;

verus! {

/// Mapping commutes with `push`.
pub proof fn lemma_map_values_push<A, B>(s: Seq<A>, f: spec_fn(A) -> B, x: A)
    ensures
        (s.push(x)).map_values(f) == s.map_values(f).push(f(x)),
{
    assert((s.push(x)).map_values(f) =~= s.map_values(f).push(f(x)));
}

/// Mapping commutes with `remove`.
pub proof fn lemma_map_values_remove<A, B>(s: Seq<A>, f: spec_fn(A) -> B, j: int)
    requires
        0 <= j < s.len(),
    ensures
        (s.remove(j)).map_values(f) == s.map_values(f).remove(j),
{
    assert((s.remove(j)).map_values(f) =~= s.map_values(f).remove(j));
}

/// Mapping commutes with `update`.
pub proof fn lemma_map_values_update<A, B>(s: Seq<A>, f: spec_fn(A) -> B, j: int, x: A)
    requires
        0 <= j < s.len(),
    ensures
        (s.update(j, x)).map_values(f) == s.map_values(f).update(j, f(x)),
{
    assert((s.update(j, x)).map_values(f) =~= s.map_values(f).update(j, f(x)));
}

/// An element-wise property survives removing one element.
pub proof fn lemma_remove_pointwise<A>(s: Seq<A>, j: int, p: spec_fn(A) -> bool)
    requires
        0 <= j < s.len(),
        forall|i: int| 0 <= i < s.len() ==> p(s[i]),
    ensures
        forall|i: int| 0 <= i < s.remove(j).len() ==> p(#[trigger] s.remove(j)[i]),
{
    assert forall|i: int| 0 <= i < s.remove(j).len() implies p(#[trigger] s.remove(j)[i]) by {
        if i < j {
            assert(s.remove(j)[i] == s[i]);
        } else {
            assert(s.remove(j)[i] == s[i + 1]);
        }
    }
}

/// A pairwise property of elements in order survives removing one element.
pub proof fn lemma_remove_pairwise<A>(s: Seq<A>, j: int, p: spec_fn(A, A) -> bool)
    requires
        0 <= j < s.len(),
        forall|a: int, b: int| 0 <= a < b < s.len() ==> p(s[a], s[b]),
    ensures
        forall|a: int, b: int|
            0 <= a < b < s.remove(j).len() ==> p(
                #[trigger] s.remove(j)[a],
                #[trigger] s.remove(j)[b],
            ),
{
    assert forall|a: int, b: int| 0 <= a < b < s.remove(j).len() implies p(
        #[trigger] s.remove(j)[a],
        #[trigger] s.remove(j)[b],
    ) by {
        let a2: int = if a < j { a } else { a + 1 };
        let b2: int = if b < j { b } else { b + 1 };
        assert(s.remove(j)[a] == s[a2]);
        assert(s.remove(j)[b] == s[b2]);
    }
}

} // verus!
