//! The node, its view, and the read-only lookup.

use crate::chain::{
    first_match, has_match, is_first_match, lemma_cut_moves_up, lemma_first_match,
    no_match_before,
};
use crate::handle::{pipe_to, share};
use std::sync::Arc;
use vstd::prelude::*;
use vstd::std_specs::cmp::PartialEqSpec;

verus! {

/// A shared handle to a node.
pub type NodeHandle<T> = Arc<Node<T>>;

/// A node of an ancestor-chain tree: a value and a handle to the parent.
#[derive(Debug)]
pub struct Node<T> {
    pub parent: Option<NodeHandle<T>>,
    pub value: T,
}

impl<T> View for Node<T> {
    type V = Seq<T>;

    /// The values from this node up to its root, nearest first.
    open spec fn view(&self) -> Seq<T> {
        self.chain()
    }
}

impl<T> Node<T> {
    /// The values from this node up to its root, nearest first.
    pub open spec fn chain(self) -> Seq<T>
        decreases self,
    {
        match self.parent {
            None => seq![self.value],
            Some(p) => seq![self.value] + (*p).chain(),
        }
    }

    /// The view of what stands above a node with this parent.
    pub open spec fn above(parent: Option<NodeHandle<T>>) -> Seq<T> {
        match parent {
            None => Seq::empty(),
            Some(p) => p@,
        }
    }

    /// A view starts with the node's own value, and goes on with the view of
    /// the parent.
    pub proof fn lemma_view_nonempty(a: &Node<T>)
        ensures
            a@.len() >= 1,
            a@[0] == a.value,
            a@.skip(1) == Self::above(a.parent),
            a@ == seq![a.value] + Self::above(a.parent),
    {
        assert(a@.skip(1) =~= Self::above(a.parent));
    }

    /// Writing a node's own value writes the first position of its view and
    /// nothing else.
    pub proof fn lemma_value_written(before: &Node<T>, after: &Node<T>)
        requires
            after.parent == before.parent,
        ensures
            after@ == before@.update(0, after.value),
    {
        Self::lemma_view_nonempty(before);
        Self::lemma_view_nonempty(after);
        assert(after@ =~= before@.update(0, after.value));
    }

    /// Two nodes with the same view are the same node: the view leaves
    /// nothing out.
    pub proof fn lemma_view_injective(a: &Node<T>, b: &Node<T>)
        requires
            a@ == b@,
        ensures
            a == b,
        decreases a,
    {
        Self::lemma_view_nonempty(a);
        Self::lemma_view_nonempty(b);
        if a.parent is Some {
            Self::lemma_view_nonempty(&*a.parent->0);
        }
        if b.parent is Some {
            Self::lemma_view_nonempty(&*b.parent->0);
        }
        if a.parent is Some && b.parent is Some {
            Self::lemma_view_injective(&*a.parent->0, &*b.parent->0);
        }
    }

    /// Moves the node into an allocation of its own and returns the one
    /// handle to it.
    fn into_handle(self) -> (handle: NodeHandle<T>)
        ensures
            *handle == self,
    {
        Arc::new(self)
    }

    /// Creates a node with the given `parent` and `value`. The parent is
    /// linked, not copied.
    pub fn new(parent: Option<NodeHandle<T>>, value: T) -> (handle: NodeHandle<T>)
        ensures
            handle.parent == parent,
            handle.value == value,
            handle@ == seq![value] + Self::above(parent),
    {
        pipe_to(Node { parent, value }, Self::into_handle)
    }

    /// A second handle to the node behind `self`.
    #[must_use]
    pub fn clone_handle(self: &Arc<Self>) -> (handle: NodeHandle<T>)
        ensures
            handle == *self,
    {
        share(self)
    }

    /// Exclusive access to the link to the parent.
    #[must_use]
    pub fn parent_mut(&mut self) -> (parent: &mut Option<NodeHandle<T>>)
        ensures
            *parent == old(self).parent,
            final(self).parent == *final(parent),
            final(self).value == old(self).value,
    {
        &mut self.parent
    }

    /// Exclusive access to the value.
    #[must_use]
    pub fn value_mut(&mut self) -> (value: &mut T)
        ensures
            *value == old(self).value,
            final(self).value == *final(value),
            final(self).parent == old(self).parent,
    {
        &mut self.value
    }

    /// The value nearest to this node, the node's own included, that equals
    /// `key`.
    #[must_use]
    pub fn get<Q: ?Sized>(&self, key: &Q) -> (found: Option<&T>) where T: PartialEq<Q>
        ensures
            found matches Some(v) ==> exists|i: int| 0 <= i < self@.len() && *v == self@[i],
            T::obeys_eq_spec() ==> match first_match(self@, key) {
                Some(i) => found == Some(&self@[i]),
                None => found is None,
            },
    {
        let mut this = self;
        let ghost mut depth: int = 0;
        loop
            invariant
                0 <= depth < self@.len(),
                this@ == self@.skip(depth),
                T::obeys_eq_spec() ==> no_match_before(self@, key, depth),
            decreases self@.len() - depth,
        {
            proof {
                Self::lemma_view_nonempty(this);
                lemma_cut_moves_up(self@, depth, Seq::empty());
                lemma_first_match(self@, key);
            }
            if this.value.eq(key) {
                assert(T::obeys_eq_spec() ==> is_first_match(self@, key, depth));
                return Some(&this.value);
            }
            match &this.parent {
                None => {
                    assert(T::obeys_eq_spec() ==> !has_match(self@, key));
                    return None;
                },
                Some(parent) => {
                    proof {
                        depth = depth + 1;
                    }
                    this = &**parent;
                },
            }
        }
    }
}

impl<T: Clone> Clone for Node<T> {
    /// A node of its own that holds a clone of the value and a second handle
    /// to the same parent. Nothing above the node is copied.
    fn clone(&self) -> (copy: Self)
        ensures
            copy.parent == self.parent,
            cloned::<T>(self.value, copy.value),
    {
        let parent = match &self.parent {
            Some(handle) => Some(share(handle)),
            None => None,
        };
        Node { parent, value: self.value.clone() }
    }
}

} // verus!
