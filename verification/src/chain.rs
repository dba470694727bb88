//! What a lookup means on the values of a chain, nearest first, and what
//! copy-on-write leaves of them.

use vstd::prelude::*;
use vstd::std_specs::cmp::PartialEqSpec;

verus! {

/// Some value of `chain` equals `key`.
pub open spec fn has_match<T: PartialEq<Q>, Q: ?Sized>(chain: Seq<T>, key: &Q) -> bool {
    exists|i: int| 0 <= i < chain.len() && #[trigger] chain[i].eq_spec(key)
}

/// None of the first `n` values of `chain` equals `key`.
pub open spec fn no_match_before<T: PartialEq<Q>, Q: ?Sized>(
    chain: Seq<T>,
    key: &Q,
    n: int,
) -> bool {
    forall|j: int| 0 <= j < n && j < chain.len() ==> !#[trigger] chain[j].eq_spec(key)
}

/// `i` is the position nearest to the front at which `chain` holds a value
/// equal to `key`.
pub open spec fn is_first_match<T: PartialEq<Q>, Q: ?Sized>(
    chain: Seq<T>,
    key: &Q,
    i: int,
) -> bool {
    &&& 0 <= i < chain.len()
    &&& chain[i].eq_spec(key)
    &&& no_match_before(chain, key, i)
}

/// The position of the first value equal to `key`, if there is one.
pub open spec fn first_match<T: PartialEq<Q>, Q: ?Sized>(chain: Seq<T>, key: &Q) -> Option<
    int,
> {
    if has_match(chain, key) {
        Some(choose|i: int| is_first_match(chain, key, i))
    } else {
        None
    }
}

/// The values behind `refs`, in the same order.
pub open spec fn values_of<T>(refs: Seq<&T>) -> Seq<T> {
    refs.map_values(|r: &T| *r)
}

/// The lookup on values that were gathered from a chain kept elsewhere,
/// nearest first: the position of the first of them that equals `key`.
pub fn find_first<T: PartialEq<Q>, Q: ?Sized>(values: &Vec<&T>, key: &Q) -> (found: Option<usize>)
    ensures
        found matches Some(at) ==> at < values@.len(),
        T::obeys_eq_spec() ==> match first_match(values_of(values@), key) {
            Some(i) => found matches Some(at) && at == i,
            None => found is None,
        },
{
    let ghost chain: Seq<T> = values_of(values@);
    let mut at: usize = 0;
    while at < values.len()
        invariant
            at <= values@.len(),
            chain == values_of(values@),
            T::obeys_eq_spec() ==> no_match_before(chain, key, at as int),
        decreases values@.len() - at,
    {
        proof {
            lemma_first_match(chain, key);
        }
        if values[at].eq(key) {
            assert(T::obeys_eq_spec() ==> is_first_match(chain, key, at as int));
            return Some(at);
        }
        at = at + 1;
    }
    proof {
        lemma_first_match(chain, key);
        assert(T::obeys_eq_spec() ==> !has_match(chain, key));
    }
    None
}

/// `after` is `before` itself or what `Clone` made of it.
pub open spec fn kept_or_cloned<T: Clone>(before: T, after: T) -> bool {
    after == before || cloned::<T>(before, after)
}

/// `after` is `before` with every value in front of position `i` kept or
/// cloned, and every value behind position `i` untouched. Position `i`
/// itself is left open.
pub open spec fn detached_to<T: Clone>(before: Seq<T>, after: Seq<T>, i: int) -> bool {
    &&& after.len() == before.len()
    &&& forall|j: int|
        0 <= j < i && j < before.len() ==> kept_or_cloned(before[j], #[trigger] after[j])
    &&& forall|j: int| i < j < before.len() ==> #[trigger] after[j] == before[j]
}

/// A first match is the only first match.
pub proof fn lemma_first_match_unique<T: PartialEq<Q>, Q: ?Sized>(
    chain: Seq<T>,
    key: &Q,
    i: int,
    j: int,
)
    requires
        is_first_match(chain, key, i),
        is_first_match(chain, key, j),
    ensures
        i == j,
{
}

/// Where a value equals `key` at position `at`, a first match stands at or
/// in front of `at`.
pub proof fn lemma_first_match_exists<T: PartialEq<Q>, Q: ?Sized>(
    chain: Seq<T>,
    key: &Q,
    at: int,
) -> (i: int)
    requires
        0 <= at < chain.len(),
        chain[at].eq_spec(key),
    ensures
        is_first_match(chain, key, i),
        i <= at,
    decreases at,
{
    if no_match_before(chain, key, at) {
        at
    } else {
        let j: int = choose|j: int|
            0 <= j < at && j < chain.len() && #[trigger] chain[j].eq_spec(key);
        lemma_first_match_exists(chain, key, j)
    }
}

/// `first_match` is `Some(i)` exactly where `i` is the first match, and
/// `None` exactly where nothing matches.
pub proof fn lemma_first_match<T: PartialEq<Q>, Q: ?Sized>(chain: Seq<T>, key: &Q)
    ensures
        forall|i: int| is_first_match(chain, key, i) <==> first_match(chain, key) == Some(i),
        !has_match(chain, key) <==> first_match(chain, key) is None,
{
    if has_match(chain, key) {
        let at: int = choose|i: int| 0 <= i < chain.len() && #[trigger] chain[i].eq_spec(key);
        let first: int = lemma_first_match_exists(chain, key, at);
        let chosen: int = choose|i: int| is_first_match(chain, key, i);
        assert(is_first_match(chain, key, first));
        assert forall|i: int| is_first_match(chain, key, i) implies first_match(chain, key)
            == Some(i) by {
            lemma_first_match_unique(chain, key, i, chosen);
        }
    } else {
        assert forall|i: int| !is_first_match(chain, key, i) by {}
    }
}

/// A chain cut in two and put together again is the chain.
pub proof fn lemma_rejoin<T>(chain: Seq<T>, cut: int)
    requires
        0 <= cut <= chain.len(),
    ensures
        chain.take(cut) + chain.skip(cut) == chain,
{
    assert(chain.take(cut) + chain.skip(cut) =~= chain);
}

/// Writing the first value behind a cut is writing the value at the cut.
pub proof fn lemma_write_behind_cut<T>(chain: Seq<T>, cut: int, written: T)
    requires
        0 <= cut < chain.len(),
    ensures
        chain.take(cut) + chain.skip(cut).update(0, written) == chain.update(cut, written),
{
    assert(chain.take(cut) + chain.skip(cut).update(0, written) =~= chain.update(cut, written));
}

/// The value at a cut may be counted to the front or to the rest.
pub proof fn lemma_cut_moves_up<T>(chain: Seq<T>, cut: int, rest: Seq<T>)
    requires
        0 <= cut < chain.len(),
    ensures
        chain.take(cut) + (seq![chain[cut]] + rest) == chain.take(cut + 1) + rest,
        chain.skip(cut).skip(1) == chain.skip(cut + 1),
        chain.skip(cut)[0] == chain[cut],
{
    assert(chain.take(cut) + (seq![chain[cut]] + rest) =~= chain.take(cut + 1) + rest);
    assert(chain.skip(cut).skip(1) =~= chain.skip(cut + 1));
}

/// Writing one value in place detaches nothing: every other value is kept.
pub proof fn lemma_update_is_detached<T: Clone>(before: Seq<T>, i: int, written: T)
    requires
        0 <= i < before.len(),
    ensures
        detached_to(before, before.update(i, written), i),
        before.update(i, written)[i] == written,
        i > 0 ==> before.update(i, written)[0] == before[0],
{
}

/// A chain whose first `cut` values are kept, and whose rest is detached to
/// a position of its own, is detached to that position counted from the
/// front.
pub proof fn lemma_detached_behind_kept<T: Clone>(
    before: Seq<T>,
    after: Seq<T>,
    rest: Seq<T>,
    cut: int,
    i: int,
)
    requires
        0 < cut <= i < before.len(),
        detached_to(before.skip(cut), rest, i - cut),
        after == before.take(cut) + rest,
    ensures
        detached_to(before, after, i),
        after[i] == rest[i - cut],
        after[0] == before[0],
{
    assert forall|j: int| 0 <= j < i implies kept_or_cloned(before[j], #[trigger] after[j]) by {
        if j >= cut {
            assert(before[j] == before.skip(cut)[j - cut]);
            assert(after[j] == rest[j - cut]);
        }
    }
    assert forall|j: int| i < j < before.len() implies #[trigger] after[j] == before[j] by {
        assert(before[j] == before.skip(cut)[j - cut]);
        assert(after[j] == rest[j - cut]);
    }
}

} // verus!
