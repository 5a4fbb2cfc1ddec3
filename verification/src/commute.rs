//! How insertions and removals at two places of a sequence commute.

use vstd::prelude::*;

verus! {

/// Two insertions: the later place moves right by one when the earlier
/// insertion is made first.
pub proof fn lemma_insert_insert(s: Seq<u8>, i: int, a: u8, j: int, b: u8)
    requires
        0 <= i <= j <= s.len(),
    ensures
        s.insert(i, a).insert(j + 1, b) == s.insert(j, b).insert(i, a),
{
    assert(s.insert(i, a).insert(j + 1, b) =~= s.insert(j, b).insert(i, a));
}

/// An insertion at or before a removed element.
pub proof fn lemma_insert_remove(s: Seq<u8>, i: int, a: u8, j: int)
    requires
        0 <= i <= j < s.len(),
    ensures
        s.insert(i, a).remove(j + 1) == s.remove(j).insert(i, a),
{
    assert(s.insert(i, a).remove(j + 1) =~= s.remove(j).insert(i, a));
}

/// An insertion behind a removed element.
pub proof fn lemma_remove_insert(s: Seq<u8>, i: int, j: int, a: u8)
    requires
        0 <= i < j <= s.len(),
    ensures
        s.remove(i).insert(j - 1, a) == s.insert(j, a).remove(i),
{
    assert(s.remove(i).insert(j - 1, a) =~= s.insert(j, a).remove(i));
}

/// Two removals at different places.
pub proof fn lemma_remove_remove(s: Seq<u8>, i: int, j: int)
    requires
        0 <= i < j < s.len(),
    ensures
        s.remove(i).remove(j - 1) == s.remove(j).remove(i),
{
    assert(s.remove(i).remove(j - 1) =~= s.remove(j).remove(i));
}

} // verus!
