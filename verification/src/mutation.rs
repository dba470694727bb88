//! Writing to a chain: in place, and copy-on-write.

use crate::chain::{
    detached_to, first_match, has_match, is_first_match, kept_or_cloned,
    lemma_cut_moves_up, lemma_detached_behind_kept, lemma_first_match, lemma_rejoin,
    lemma_update_is_detached, lemma_write_behind_cut, no_match_before,
};
use crate::handle::{make_exclusive, try_exclusive};
use crate::node::{Node, NodeHandle};
use vstd::pervasive::unreached;
use vstd::prelude::*;
use vstd::std_specs::cmp::PartialEqSpec;

verus! {

/// How a lookup for exclusive access ended.
pub enum ExclusiveLookupResult<'a, T> {
    /// The nearest value equal to the key, for writing.
    Found(&'a mut T),
    /// The chain holds no value equal to the key.
    NotFound,
    /// The walk stopped in front of this handle, which others hold too.
    Blocked(&'a NodeHandle<T>),
}

/// What the walk for exclusive access finds at one node.
pub enum Visit<'a, T> {
    /// The node's own value equals the key: here it is, for writing.
    Found(&'a mut T),
    /// The node's own value does not equal the key, and the node is a root.
    NotFound,
    /// The node's own value does not equal the key: the walk goes on behind
    /// this handle, the node's link to its parent.
    Up(&'a mut NodeHandle<T>),
}

impl<T> Node<T> {
    /// Looks at this node alone: compares its value with `key` and, where
    /// they differ, hands out the link to the parent. No handle is followed.
    pub fn visit<'a, Q: ?Sized>(&'a mut self, key: &Q) -> (step: Visit<'a, T>) where
        T: PartialEq<Q>,

        ensures
            match step {
                Visit::Found(v) => {
                    &&& *v == old(self).value
                    &&& final(self).value == *final(v)
                    &&& final(self).parent == old(self).parent
                    &&& T::obeys_eq_spec() ==> old(self).value.eq_spec(key)
                },
                Visit::NotFound => {
                    &&& *final(self) == *old(self)
                    &&& old(self).parent is None
                    &&& T::obeys_eq_spec() ==> !old(self).value.eq_spec(key)
                },
                Visit::Up(h) => {
                    &&& old(self).parent == Some(*h)
                    &&& final(self).parent == Some(*final(h))
                    &&& final(self).value == old(self).value
                    &&& T::obeys_eq_spec() ==> !old(self).value.eq_spec(key)
                },
            },
    {
        if self.value.eq(key) {
            return Visit::Found(&mut self.value);
        }
        match &mut self.parent {
            None => Visit::NotFound,
            Some(handle) => Visit::Up(handle),
        }
    }

    /// Looks for the value nearest to this node that equals `key`, for
    /// writing in place. Each node on the way is looked at with
    /// [`Node::visit`]; the walk goes on only through handles that nobody
    /// else holds, and stops in front of the first one that is shared.
    ///
    /// Whether a handle is shared is not a matter of the values, so the
    /// contract says what holds of each outcome and leaves open which one
    /// comes where a handle has to be passed.
    #[verifier::loop_isolation(false)]
    pub fn get_mut<'a, Q: ?Sized>(&'a mut self, key: &Q) -> (outcome: ExclusiveLookupResult<
        'a,
        T,
    >) where T: PartialEq<Q>
        ensures
            match outcome {
                ExclusiveLookupResult::Found(v) => exists|i: int|
                    {
                        &&& 0 <= i < old(self)@.len()
                        &&& *v == old(self)@[i]
                        &&& final(self)@ == old(self)@.update(i, *final(v))
                        &&& T::obeys_eq_spec() ==> is_first_match(old(self)@, key, i)
                    },
                ExclusiveLookupResult::NotFound => {
                    &&& *final(self) == *old(self)
                    &&& T::obeys_eq_spec() ==> !has_match(old(self)@, key)
                },
                ExclusiveLookupResult::Blocked(handle) => {
                    let i: int = old(self)@.len() - handle@.len();
                    &&& *final(self) == *old(self)
                    &&& 0 < i < old(self)@.len()
                    &&& handle@ == old(self)@.skip(i)
                    &&& T::obeys_eq_spec() ==> no_match_before(old(self)@, key, i)
                },
            },
            T::obeys_eq_spec() && old(self).value.eq_spec(key) ==> outcome is Found,
            old(self).parent is None ==> !(outcome is Blocked),
    {
        let ghost start: Seq<T> = old(self)@;
        let ghost end: Node<T> = *final(self);
        let mut cur: &mut Node<T> = self;
        let ghost mut depth: int = 0;
        proof {
            Self::lemma_view_nonempty(old(self));
        }
        loop
            invariant
                0 <= depth < start.len(),
                cur@ == start.skip(depth),
                end@ == start.take(depth) + final(cur)@,
                T::obeys_eq_spec() ==> no_match_before(start, key, depth),
                depth == 0 ==> cur.parent == old(self).parent,
            decreases start.len() - depth,
        {
            let ghost here: Node<T> = *cur;
            let ghost there: Node<T> = *final(cur);
            proof {
                Self::lemma_view_nonempty(&here);
                lemma_cut_moves_up(start, depth, Seq::empty());
            }
            match cur.visit(key) {
                Visit::Found(value) => {
                    proof {
                        Self::lemma_value_written(&here, &there);
                        lemma_write_behind_cut(start, depth, *final(value));
                    }
                    return ExclusiveLookupResult::Found(value);
                },
                Visit::NotFound => {
                    proof {
                        lemma_rejoin(start, depth);
                        Self::lemma_view_injective(&end, old(self));
                    }
                    return ExclusiveLookupResult::NotFound;
                },
                Visit::Up(handle) => {
                    match try_exclusive(handle) {
                        Ok(next) => {
                            proof {
                                Self::lemma_view_nonempty(&there);
                                lemma_cut_moves_up(start, depth, final(next)@);
                                depth = depth + 1;
                            }
                            cur = next;
                        },
                        Err(same) => {
                            proof {
                                lemma_rejoin(start, depth);
                                Self::lemma_view_injective(&end, old(self));
                                Self::lemma_view_nonempty(&**same);
                            }
                            return ExclusiveLookupResult::Blocked(same);
                        },
                    }
                },
            }
        }
    }

    /// Exclusive access to the value `generation` steps above the node behind
    /// `handle` (that node's own value at 0), whoever else holds the nodes on
    /// the way. Each of them that others hold too is cloned first, and
    /// `handle` and the parent links below are moved over to the clones, so
    /// that no other handle sees what is written.
    #[verifier::loop_isolation(false)]
    pub fn detach<'a>(handle: &'a mut NodeHandle<T>, generation: usize) -> (value: &'a mut T) where
        T: Clone,

        requires
            generation < old(handle)@.len(),
        ensures
            kept_or_cloned(old(handle)@[generation as int], *value),
            detached_to(old(handle)@, final(handle)@, generation as int),
            final(handle)@[generation as int] == *final(value),
    {
        let ghost start: NodeHandle<T> = *old(handle);
        let ghost end: NodeHandle<T> = *final(handle);
        proof {
            Self::lemma_view_nonempty(&*start);
        }
        let mut cur: &mut Node<T> = make_exclusive(handle);
        let mut left: usize = generation;
        let ghost mut front: Seq<T> = Seq::empty();
        proof {
            Self::lemma_view_nonempty(&*cur);
        }
        while left > 0
            invariant
                left <= generation,
                front.len() == generation - left,
                forall|j: int|
                    0 <= j < front.len() ==> kept_or_cloned(start@[j], #[trigger] front[j]),
                end@ == front + final(cur)@,
                cur@.len() == start@.len() - front.len(),
                kept_or_cloned(start@[front.len() as int], cur.value),
                cur@.skip(1) == start@.skip(front.len() + 1 as int),
            decreases left,
        {
            proof {
                Self::lemma_view_nonempty(&*cur);
            }
            match &mut cur.parent {
                None => {
                    return unreached();
                },
                Some(above) => {
                    proof {
                        front = front.push(cur.value);
                        Self::lemma_view_nonempty(&**above);
                    }
                    cur = make_exclusive(above);
                    left = left - 1;
                    proof {
                        Self::lemma_view_nonempty(&*cur);
                    }
                },
            }
        }
        let ghost before: Node<T> = *cur;
        let ghost after: Node<T> = *final(cur);
        let value = &mut cur.value;
        proof {
            Self::lemma_value_written(&before, &after);
            assert forall|j: int| generation < j < start@.len() implies #[trigger] end@[j]
                == start@[j] by {
                assert(end@[j] == before@.skip(1)[j - generation - 1]);
            }
        }
        value
    }

    /// How many steps above this node the nearest value equal to `key`
    /// stands.
    fn match_depth<Q: ?Sized>(&self, key: &Q) -> (depth: Option<usize>) where T: PartialEq<Q>
        requires
            self@.len() <= usize::MAX,
        ensures
            depth matches Some(d) ==> d < self@.len(),
            T::obeys_eq_spec() ==> match first_match(self@, key) {
                Some(i) => depth matches Some(d) && d == i,
                None => depth is None,
            },
    {
        let mut this = self;
        let mut steps: usize = 0;
        loop
            invariant
                self@.len() <= usize::MAX,
                steps < self@.len(),
                this@ == self@.skip(steps as int),
                T::obeys_eq_spec() ==> no_match_before(self@, key, steps as int),
            decreases self@.len() - steps,
        {
            proof {
                Self::lemma_view_nonempty(this);
                lemma_cut_moves_up(self@, steps as int, Seq::empty());
                lemma_first_match(self@, key);
            }
            if this.value.eq(key) {
                assert(T::obeys_eq_spec() ==> is_first_match(self@, key, steps as int));
                return Some(steps);
            }
            match &this.parent {
                None => {
                    assert(T::obeys_eq_spec() ==> !has_match(self@, key));
                    return None;
                },
                Some(parent) => {
                    proof {
                        Self::lemma_view_nonempty(&**parent);
                    }
                    this = &**parent;
                    steps = steps + 1;
                },
            }
        }
    }

    /// Exclusive access to the value nearest to this node that equals `key`,
    /// whoever else holds the nodes on the way: the first shared node and
    /// every node from there to the match are cloned, and the clones hang
    /// below this node in their place. Where nothing equals `key`, nothing
    /// is cloned.
    ///
    /// The equality of `T` with `Q` must be a function of the two values:
    /// the chain is read once to find the match and once more on the way to
    /// it, up to the first shared node. A caller outside verification whose
    /// equality answers differently the second time gets a panic, not a
    /// wrong node.
    #[verifier::loop_isolation(false)]
    pub fn make_mut<Q: ?Sized>(&mut self, key: &Q) -> (found: Option<&mut T>) where
        T: PartialEq<Q> + Clone,

        requires
            T::obeys_eq_spec(),
            old(self)@.len() <= usize::MAX,
        ensures
            match first_match(old(self)@, key) {
                None => found is None && *final(self) == *old(self),
                Some(i) => {
                    &&& found matches Some(v)
                    &&& detached_to(old(self)@, final(self)@, i)
                    &&& final(self)@[i] == *final(v)
                    &&& if i == 0 {
                        *v == old(self).value
                    } else {
                        final(self).value == old(self).value && kept_or_cloned(old(self)@[i], *v)
                    }
                },
            },
    {
        // Find the match first: for a key that is not there nothing is touched.
        let depth = match self.match_depth(key) {
            Some(depth) => depth,
            None => {
                return None;
            },
        };
        // Walk in place while the handles are nobody else's.
        let ghost start: Seq<T> = old(self)@;
        let ghost end: Node<T> = *final(self);
        let mut cur: &mut Node<T> = self;
        let mut left: usize = depth;
        proof {
            assert(first_match(start, key) == Some(depth as int) && is_first_match(
                start,
                key,
                depth as int,
            )) by {
                lemma_first_match(start, key);
            }
            Self::lemma_view_nonempty(old(self));
            Self::lemma_view_nonempty(&end);
        }
        loop
            invariant
                left <= depth < start.len(),
                is_first_match(start, key, depth as int),
                cur@ == start.skip(depth - left),
                end@ == start.take(depth - left) + final(cur)@,
            decreases left,
        {
            let ghost here: Node<T> = *cur;
            let ghost there: Node<T> = *final(cur);
            let ghost cut: int = depth - left;
            proof {
                Self::lemma_view_nonempty(&here);
                lemma_cut_moves_up(start, cut, Seq::empty());
                assert(here.value == start[cut]);
                assert(here.value.eq_spec(key) <==> left == 0);
            }
            match cur.visit(key) {
                Visit::Found(value) => {
                    if left != 0 {
                        return unreached();
                    }
                    proof {
                        Self::lemma_value_written(&here, &there);
                        lemma_write_behind_cut(start, cut, *final(value));
                        lemma_update_is_detached(start, cut, *final(value));
                    }
                    return Some(value);
                },
                Visit::NotFound => {
                    return unreached();
                },
                Visit::Up(handle) => {
                    if left == 0 {
                        return unreached();
                    }
                    match try_exclusive(handle) {
                        Ok(next) => {
                            proof {
                                Self::lemma_view_nonempty(&there);
                                lemma_cut_moves_up(start, cut, final(next)@);
                            }
                            left = left - 1;
                            cur = next;
                        },
                        Err(shared) => {
                            // From here to the match every node gets a copy of
                            // its own; the values are not compared again.
                            let ghost rest: Seq<T> = final(shared)@;
                            proof {
                                Self::lemma_view_nonempty(&there);
                                Self::lemma_view_nonempty(&**shared);
                                lemma_cut_moves_up(start, cut, rest);
                                lemma_cut_moves_up(start, cut + 1, Seq::empty());
                            }
                            let value = Self::detach(shared, left - 1);
                            proof {
                                let i: int = depth as int;
                                lemma_detached_behind_kept(start, end@, rest, cut + 1, i);
                                assert(start.skip(cut + 1)[depth - cut - 1] == start[depth as int]);
                            }
                            return Some(value);
                        },
                    }
                },
            }
        }
    }
}

} // verus!
