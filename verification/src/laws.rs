//! What holds between a write and the lookup that follows it.
//!
//! The laws speak of one chain before and after a write. They have nothing
//! to say of a second handle: to the verifier a handle is a value, and a call
//! that borrows one chain for writing cannot change another value. How many
//! handles point to a node is no part of that value either, so no law says
//! when a node is cloned.

use crate::chain::{detached_to, first_match, is_first_match, lemma_first_match};
use vstd::prelude::*;
use vstd::std_specs::cmp::PartialEqSpec;

verus! {

/// Cloning a value of `T` never changes whether it equals `key`.
pub open spec fn clone_keeps_equality<T: PartialEq<Q> + Clone, Q: ?Sized>(key: &Q) -> bool {
    forall|a: T, b: T| #[trigger] cloned::<T>(a, b) ==> (a.eq_spec(key) <==> b.eq_spec(key))
}

/// Written in place, read back. Where the lookup for `key` ends at position
/// `i` of `chain`, and a value that equals `key` is written there, the
/// lookup for `key` in the chain as written ends at the same position, and
/// so on the value written.
pub proof fn lemma_written_in_place_is_found<T: PartialEq<Q>, Q: ?Sized>(
    chain: Seq<T>,
    key: &Q,
    i: int,
    written: T,
)
    requires
        is_first_match(chain, key, i),
        written.eq_spec(key),
    ensures
        first_match(chain.update(i, written), key) == Some(i),
{
    let after = chain.update(i, written);
    assert(is_first_match(after, key, i));
    lemma_first_match(after, key);
}

/// Written copy-on-write, read back. Where the lookup for `key` ends at
/// position `i` of `before`, the nodes in front of `i` were kept or cloned,
/// a value that equals `key` was written at `i`, and cloning does not change
/// what equals `key`, the lookup for `key` in the chain as written ends at
/// the same position, and so on the value written.
pub proof fn lemma_written_detached_is_found<T: PartialEq<Q> + Clone, Q: ?Sized>(
    before: Seq<T>,
    after: Seq<T>,
    key: &Q,
    i: int,
    written: T,
)
    requires
        is_first_match(before, key, i),
        detached_to(before, after, i),
        after[i] == written,
        written.eq_spec(key),
        clone_keeps_equality::<T, Q>(key),
    ensures
        first_match(after, key) == Some(i),
{
    assert forall|j: int| 0 <= j < i implies !#[trigger] after[j].eq_spec(key) by {
        assert(!before[j].eq_spec(key));
    }
    assert(is_first_match(after, key, i));
    lemma_first_match(after, key);
}

/// Copy-on-write leaves alone what stands above the value it reaches: from
/// the next position on, the chain as written is the chain as it was.
pub proof fn lemma_detached_keeps_ancestors<T: Clone>(before: Seq<T>, after: Seq<T>, i: int)
    requires
        0 <= i < before.len(),
        detached_to(before, after, i),
    ensures
        after.skip(i + 1) == before.skip(i + 1),
{
    assert(after.skip(i + 1) =~= before.skip(i + 1));
}

} // verus!
