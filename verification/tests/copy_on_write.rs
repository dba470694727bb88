use ances_tree::{Node, NodeHandle};
use std::cell::Cell;
use std::rc::Rc;
use std::sync::Arc;

/// A value that counts how often it is cloned and is found by its number.
#[derive(Debug)]
struct Counted {
    id: i32,
    clones: Rc<Cell<usize>>,
}

impl Clone for Counted {
    fn clone(&self) -> Self {
        self.clones.set(self.clones.get() + 1);
        Counted { id: self.id, clones: Rc::clone(&self.clones) }
    }
}

impl PartialEq<i32> for Counted {
    fn eq(&self, other: &i32) -> bool {
        self.id == *other
    }
}

fn address<T>(handle: &NodeHandle<T>) -> usize {
    Arc::as_ptr(handle) as usize
}

fn counted(id: i32, clones: &Rc<Cell<usize>>) -> Counted {
    Counted { id, clones: Rc::clone(clones) }
}

fn values(node: &Node<i32>) -> Vec<i32> {
    let mut out = vec![node.value];
    let mut this = node;
    while let Some(parent) = this.parent.as_ref() {
        out.push(parent.value);
        this = parent;
    }
    out
}

fn ids(node: &Node<Counted>) -> Vec<i32> {
    let mut out = vec![node.value.id];
    let mut this = node;
    while let Some(parent) = this.parent.as_ref() {
        out.push(parent.value.id);
        this = parent;
    }
    out
}

fn unique_chain() -> NodeHandle<i32> {
    let root = Node::new(None, 1);
    let child = Node::new(Some(root), 2);
    Node::new(Some(child), 3)
}

#[test]
fn make_mut_clones_what_a_second_handle_still_sees() {
    let root = Node::new(None, 1);
    let child = Node::new(Some(root), 2);
    let child2 = child.clone_handle();
    let mut grandchild = Node::new(Some(child), 3);
    assert_eq!(grandchild.get(&1), Some(&1));

    let old_root = address(child2.parent.as_ref().unwrap());
    {
        let leaf = Arc::get_mut(&mut grandchild).unwrap();
        let value = leaf.make_mut(&1).unwrap();
        assert_eq!(*value, 1);
        *value = 10;
    }
    assert_eq!(values(&grandchild), vec![3, 2, 10]);
    assert_eq!(values(&child2), vec![2, 1]);
    assert_eq!(old_root, address(child2.parent.as_ref().unwrap()));
    assert!(!Arc::ptr_eq(grandchild.parent.as_ref().unwrap(), &child2));
    assert_eq!(Arc::strong_count(&child2), 1);

    let keeper = child2.clone_handle();
    let mut grandchild2 = Node::new(Some(child2), 4);
    {
        let leaf = Arc::get_mut(&mut grandchild2).unwrap();
        let value = leaf.make_mut(&2).unwrap();
        assert_eq!(*value, 2);
        *value = 20;
    }
    assert_eq!(values(&grandchild2), vec![4, 20, 1]);
    assert_eq!(values(&keeper), vec![2, 1]);
    assert_eq!(values(&grandchild), vec![3, 2, 10]);
    assert!(Arc::ptr_eq(
        grandchild2.parent.as_ref().unwrap().parent.as_ref().unwrap(),
        keeper.parent.as_ref().unwrap(),
    ));
}

#[test]
fn make_mut_on_unique_chain_clones_nothing() {
    let clones = Rc::new(Cell::new(0));
    let root = Node::new(None, counted(1, &clones));
    let child = Node::new(Some(root), counted(2, &clones));
    let mut leaf = Node::new(Some(child), counted(3, &clones));
    let before = address(leaf.parent.as_ref().unwrap().parent.as_ref().unwrap());
    {
        let node = Arc::get_mut(&mut leaf).unwrap();
        let value = node.make_mut(&1).unwrap();
        value.id = 10;
    }
    assert_eq!(clones.get(), 0);
    assert_eq!(ids(&leaf), vec![3, 2, 10]);
    let after = address(leaf.parent.as_ref().unwrap().parent.as_ref().unwrap());
    assert_eq!(before, after);
}

#[test]
fn make_mut_not_found_clones_nothing() {
    let clones = Rc::new(Cell::new(0));
    let root = Node::new(None, counted(1, &clones));
    let other = root.clone_handle();
    let child = Node::new(Some(root), counted(2, &clones));
    let other_child = child.clone_handle();
    let mut leaf = Node::new(Some(child), counted(3, &clones));
    {
        let node = Arc::get_mut(&mut leaf).unwrap();
        assert!(node.make_mut(&9).is_none());
    }
    assert_eq!(clones.get(), 0);
    assert_eq!(ids(&leaf), vec![3, 2, 1]);
    assert!(Arc::ptr_eq(leaf.parent.as_ref().unwrap(), &other_child));
    assert_eq!(Arc::strong_count(&other), 2);
    assert_eq!(Arc::strong_count(&other_child), 2);
}

#[test]
fn make_mut_not_found_on_single_node() {
    let mut root = Node::new(None, 1);
    let node = Arc::get_mut(&mut root).unwrap();
    assert!(node.make_mut(&2).is_none());
    assert_eq!(root.value, 1);
}

#[test]
fn make_mut_finds_own_value_without_cloning() {
    let clones = Rc::new(Cell::new(0));
    let root = Node::new(None, counted(1, &clones));
    let other = root.clone_handle();
    let mut leaf = Node::new(Some(root), counted(2, &clones));
    {
        let node = Arc::get_mut(&mut leaf).unwrap();
        let value = node.make_mut(&2).unwrap();
        value.id = 5;
    }
    assert_eq!(clones.get(), 0);
    assert_eq!(ids(&leaf), vec![5, 1]);
    assert!(Arc::ptr_eq(leaf.parent.as_ref().unwrap(), &other));
}

#[test]
fn make_mut_clones_from_the_first_shared_ancestor_to_the_match() {
    let clones = Rc::new(Cell::new(0));
    let root = Node::new(None, counted(1, &clones));
    let middle = Node::new(Some(root), counted(2, &clones));
    let shared = middle.clone_handle();
    let child = Node::new(Some(middle), counted(3, &clones));
    let mut leaf = Node::new(Some(child), counted(4, &clones));
    let unique_child = address(leaf.parent.as_ref().unwrap());
    {
        let node = Arc::get_mut(&mut leaf).unwrap();
        let value = node.make_mut(&1).unwrap();
        assert_eq!(value.id, 1);
        value.id = 10;
    }
    assert_eq!(clones.get(), 2);
    assert_eq!(ids(&leaf), vec![4, 3, 2, 10]);
    assert_eq!(ids(&shared), vec![2, 1]);
    assert_eq!(unique_child, address(leaf.parent.as_ref().unwrap()));
    let new_middle = leaf.parent.as_ref().unwrap().parent.as_ref().unwrap();
    assert!(!Arc::ptr_eq(new_middle, &shared));
    assert_eq!(Arc::strong_count(&shared), 1);
    assert_eq!(Arc::strong_count(new_middle), 1);
}

#[test]
fn make_mut_keeps_ancestors_above_the_match_shared() {
    let clones = Rc::new(Cell::new(0));
    let root = Node::new(None, counted(1, &clones));
    let root_handle = root.clone_handle();
    let middle = Node::new(Some(root), counted(2, &clones));
    let shared = middle.clone_handle();
    let mut leaf = Node::new(Some(middle), counted(3, &clones));
    assert_eq!(Arc::strong_count(&root_handle), 2);
    {
        let node = Arc::get_mut(&mut leaf).unwrap();
        let value = node.make_mut(&2).unwrap();
        value.id = 20;
    }
    assert_eq!(clones.get(), 1);
    assert_eq!(ids(&leaf), vec![3, 20, 1]);
    assert_eq!(ids(&shared), vec![2, 1]);
    let new_middle = leaf.parent.as_ref().unwrap();
    assert!(Arc::ptr_eq(new_middle.parent.as_ref().unwrap(), &root_handle));
    assert_eq!(Arc::strong_count(&root_handle), 3);
    assert_eq!(Arc::strong_count(&shared), 1);
}

#[test]
fn make_mut_twice_clones_only_once() {
    let clones = Rc::new(Cell::new(0));
    let root = Node::new(None, counted(1, &clones));
    let child = Node::new(Some(root), counted(2, &clones));
    let other = child.clone_handle();
    let mut leaf = Node::new(Some(child), counted(3, &clones));
    {
        let node = Arc::get_mut(&mut leaf).unwrap();
        assert_eq!(node.make_mut(&1).unwrap().id, 1);
    }
    assert_eq!(clones.get(), 2);
    let first = address(leaf.parent.as_ref().unwrap());
    {
        let node = Arc::get_mut(&mut leaf).unwrap();
        node.make_mut(&1).unwrap().id = 1;
    }
    assert_eq!(clones.get(), 2);
    assert_eq!(first, address(leaf.parent.as_ref().unwrap()));
    assert_eq!(Arc::strong_count(leaf.parent.as_ref().unwrap()), 1);
    assert_eq!(Arc::strong_count(leaf.parent.as_ref().unwrap().parent.as_ref().unwrap()), 1);
    assert_eq!(ids(&other), vec![2, 1]);
}

#[test]
fn make_mut_isolates_siblings() {
    let root = Node::new(None, 1);
    let ancestor = Node::new(Some(root), 2);
    let mut left = Node::new(Some(ancestor.clone_handle()), 3);
    let right = Node::new(Some(ancestor), 4);
    {
        let node = Arc::get_mut(&mut left).unwrap();
        *node.make_mut(&2).unwrap() = 20;
    }
    assert_eq!(values(&left), vec![3, 20, 1]);
    assert_eq!(values(&right), vec![4, 2, 1]);
    {
        let node = Arc::get_mut(&mut left).unwrap();
        *node.make_mut(&1).unwrap() = 10;
    }
    assert_eq!(values(&left), vec![3, 20, 10]);
    assert_eq!(values(&right), vec![4, 2, 1]);
    assert_eq!(right.get(&2), Some(&2));
    assert_eq!(right.get(&1), Some(&1));
}

#[test]
fn make_mut_finds_nearest_match() {
    let root = Node::new(None, 7);
    let child = Node::new(Some(root), 7);
    let mut leaf = Node::new(Some(child), 3);
    {
        let node = Arc::get_mut(&mut leaf).unwrap();
        *node.make_mut(&7).unwrap() = 8;
    }
    assert_eq!(values(&leaf), vec![3, 8, 7]);
}

#[test]
fn make_mut_then_get_round_trip() {
    let root = Node::new(None, 1);
    let child = Node::new(Some(root), 2);
    let other = child.clone_handle();
    let mut leaf = Node::new(Some(child), 3);
    {
        let node = Arc::get_mut(&mut leaf).unwrap();
        *node.make_mut(&1).unwrap() = 1;
    }
    assert_eq!(leaf.get(&1), Some(&1));
    assert!(!std::ptr::eq(leaf.get(&1).unwrap(), other.get(&1).unwrap()));
    {
        let node = Arc::get_mut(&mut leaf).unwrap();
        *node.make_mut(&2).unwrap() = 22;
    }
    assert_eq!(leaf.get(&22), Some(&22));
    assert_eq!(leaf.get(&2), None);
    assert_eq!(other.get(&2), Some(&2));
}

#[test]
fn make_mut_after_blocked_get_mut() {
    let root = Node::new(None, 1);
    let other = root.clone_handle();
    let mut leaf = Node::new(Some(root), 2);
    let node = Arc::get_mut(&mut leaf).unwrap();
    assert!(matches!(node.get_mut(&1), ances_tree::ExclusiveLookupResult::Blocked(_)));
    *node.make_mut(&1).unwrap() = 100;
    assert!(matches!(node.get_mut(&100), ances_tree::ExclusiveLookupResult::Found(_)));
    assert_eq!(values(&leaf), vec![2, 100]);
    assert_eq!(values(&other), vec![1]);
}

#[test]
fn detach_at_zero_on_unique_handle_clones_nothing() {
    let clones = Rc::new(Cell::new(0));
    let mut handle = Node::new(None, counted(1, &clones));
    let before = address(&handle);
    Node::detach(&mut handle, 0).id = 2;
    assert_eq!(clones.get(), 0);
    assert_eq!(before, address(&handle));
    assert_eq!(ids(&handle), vec![2]);
}

#[test]
fn detach_clones_a_shared_handle() {
    let clones = Rc::new(Cell::new(0));
    let mut handle = Node::new(None, counted(1, &clones));
    let other = handle.clone_handle();
    Node::detach(&mut handle, 0).id = 2;
    assert_eq!(clones.get(), 1);
    assert!(!Arc::ptr_eq(&handle, &other));
    assert_eq!(ids(&handle), vec![2]);
    assert_eq!(ids(&other), vec![1]);
}

#[test]
fn detach_reaches_the_given_generation() {
    let mut leaf = unique_chain();
    assert_eq!(*Node::detach(&mut leaf, 0), 3);
    assert_eq!(*Node::detach(&mut leaf, 1), 2);
    assert_eq!(*Node::detach(&mut leaf, 2), 1);
    *Node::detach(&mut leaf, 1) = 20;
    assert_eq!(values(&leaf), vec![3, 20, 1]);
}

#[test]
fn detach_clones_every_node_behind_a_shared_one() {
    let clones = Rc::new(Cell::new(0));
    let root = Node::new(None, counted(1, &clones));
    let child = Node::new(Some(root), counted(2, &clones));
    let mut leaf = Node::new(Some(child), counted(3, &clones));
    let other = leaf.clone_handle();
    Node::detach(&mut leaf, 2).id = 10;
    assert_eq!(clones.get(), 3);
    assert_eq!(ids(&leaf), vec![3, 2, 10]);
    assert_eq!(ids(&other), vec![3, 2, 1]);
}
