use lib::tree::{NodeRef, Tree, TreeError};

fn message<A>(r: Result<A, TreeError>) -> String {
    match r {
        Err(TreeError::InvalidReferenceError(m)) => m,
        Ok(_) => panic!("expected an error"),
    }
}

#[test]
fn add_and_get_nodes() {
    let mut t: Tree<&str> = Tree::new();
    let root = t.add_node_as_parent("root", &[]).unwrap();
    let child = t.add_node_as_child("child", root).unwrap();
    assert_eq!(t.get(root), Some(&"root"));
    assert_eq!(t.get(child), Some(&"child"));
    let kids = t.children(root).unwrap();
    assert_eq!(kids.len(), 1);
    assert_eq!(t.get(kids[0]), Some(&"child"));
    assert!(t.parent(root).unwrap().is_none());
}

#[test]
fn add_child_records_the_parent() {
    let mut t: Tree<u32> = Tree::new();
    let root = t.add_node_as_parent(1, &[]).unwrap();
    let child = t.add_node_as_child(2, root).unwrap();
    let p = t.parent(child).unwrap().unwrap();
    assert!(p == root);
    assert_eq!(t.get(p), Some(&1));
}

#[test]
fn add_child_again_under_the_same_parent_lists_it_once() {
    let mut t: Tree<i32> = Tree::new();
    let p = t.add_node_as_parent(1, &[]).unwrap();
    let c = t.add_node_as_child(2, p).unwrap();
    assert!(t.add_child(p, c).is_ok());
    assert_eq!(t.get(p), Some(&1));
    let kids = t.children(p).unwrap();
    assert_eq!(kids.len(), 1);
    assert!(kids[0] == c);
    assert!(t.parent(c).unwrap().unwrap() == p);
}

#[test]
fn add_child_moves_a_child_and_frees_an_orphaned_parent() {
    let mut t: Tree<u32> = Tree::new();
    let a = t.add_node_as_parent(1, &[]).unwrap();
    let x = t.add_node_as_child(2, a).unwrap();
    let b = t.add_node_as_parent(3, &[]).unwrap();
    assert!(t.add_child(b, x).is_ok());
    assert!(t.parent(x).unwrap().unwrap() == b);
    assert_eq!(t.children(b).unwrap().len(), 1);
    // a was left with no parent and no children
    assert!(t.get(a).is_none());
}

#[test]
fn add_child_keeps_a_former_parent_with_other_children() {
    let mut t: Tree<u32> = Tree::new();
    let a = t.add_node_as_parent(1, &[]).unwrap();
    let x = t.add_node_as_child(2, a).unwrap();
    let y = t.add_node_as_child(3, a).unwrap();
    let b = t.add_node_as_parent(4, &[]).unwrap();
    assert!(t.add_child(b, x).is_ok());
    assert_eq!(t.get(a), Some(&1));
    let kids = t.children(a).unwrap();
    assert_eq!(kids.len(), 1);
    assert!(kids[0] == y);
}

#[test]
fn add_node_as_parent_links_each_child() {
    let mut t: Tree<u32> = Tree::new();
    let c1 = t.add_node_as_parent(1, &[]).unwrap();
    let c2 = t.add_node_as_parent(2, &[]).unwrap();
    let p = t.add_node_as_parent(0, &[c1, c2]).unwrap();
    let kids = t.children(p).unwrap();
    assert_eq!(kids.len(), 2);
    assert!(kids[0] == c1 && kids[1] == c2);
    assert!(t.parent(c1).unwrap().unwrap() == p);
    assert!(t.parent(c2).unwrap().unwrap() == p);
    assert!(t.parent(p).unwrap().is_none());
}

#[test]
fn remove_child_takes_it_out_of_its_parent() {
    let mut t: Tree<i32> = Tree::new();
    let c1 = t.add_node_as_parent(1, &[]).unwrap();
    let c2 = t.add_node_as_parent(2, &[]).unwrap();
    let p = t.add_node_as_parent(0, &[c1, c2]).unwrap();
    assert!(t.remove_child(c1).is_ok());
    assert!(t.get(c1).is_none());
    assert_eq!(t.get(p), Some(&0));
    let kids = t.children(p).unwrap();
    assert_eq!(kids.len(), 1);
    assert!(kids[0] == c2);
    assert!(t.parent(c2).unwrap().unwrap() == p);
}

#[test]
fn add_node_as_child_with_a_dead_parent() {
    let mut t: Tree<u32> = Tree::new();
    let bogus = NodeRef::new(7, 0);
    assert_eq!(message(t.add_node_as_child(5, bogus)), "parent_ref");
    // the node was placed anyway, in slot 0
    assert_eq!(t.get(NodeRef::new(0, 0)), Some(&5));
}

#[test]
fn add_node_as_parent_stops_at_a_dead_child() {
    let mut t: Tree<u32> = Tree::new();
    let a = t.add_node_as_parent(1, &[]).unwrap();
    let r = t.add_node_as_parent(2, &[a, NodeRef::new(40, 0)]);
    assert_eq!(message(r), "children_ref[1]");
    let parent = NodeRef::new(1, 0);
    assert_eq!(t.get(parent), Some(&2));
    assert_eq!(t.children(parent).unwrap().len(), 1);
}

#[test]
fn add_node_as_parent_message_counts_in_decimal() {
    let mut t: Tree<u32> = Tree::new();
    let a = t.add_node_as_parent(0, &[]).unwrap();
    let mut kids = vec![a; 12];
    kids.push(NodeRef::new(99, 3));
    assert_eq!(message(t.add_node_as_parent(1, &kids)), "children_ref[12]");
}

#[test]
fn add_child_errors() {
    let mut t: Tree<u32> = Tree::new();
    let a = t.add_node_as_parent(1, &[]).unwrap();
    assert_eq!(message(t.add_child(NodeRef::new(5, 0), a)), "parent_ref");
    assert_eq!(message(t.add_child(a, NodeRef::new(5, 0))), "child_ref");
    assert_eq!(message(t.remove_child(NodeRef::new(5, 0))), "child_ref");
    assert_eq!(message(t.parent(NodeRef::new(5, 0))), "node_ref");
    assert_eq!(message(t.children(NodeRef::new(5, 0))), "node_ref");
    assert!(t.get(NodeRef::new(0, 1)).is_none());
}

#[test]
fn remove_child_frees_a_leaf_and_its_slot_is_reused() {
    let mut t: Tree<u32> = Tree::new();
    let root = t.add_node_as_parent(1, &[]).unwrap();
    let leaf = t.add_node_as_child(2, root).unwrap();
    assert!(t.remove_child(leaf).is_ok());
    assert!(t.get(leaf).is_none());
    assert!(t.parent(leaf).is_err());
    let again = t.add_node_as_parent(3, &[]).unwrap();
    // slot 1 is reused with the next generation
    assert_eq!(t.get(NodeRef::new(1, 1)), Some(&3));
    assert_eq!(t.get(again), Some(&3));
    assert!(t.get(leaf).is_none());
}

#[test]
fn remove_child_keeps_a_node_with_children() {
    let mut t: Tree<u32> = Tree::new();
    let root = t.add_node_as_parent(1, &[]).unwrap();
    let mid = t.add_node_as_child(2, root).unwrap();
    let _leaf = t.add_node_as_child(3, mid).unwrap();
    assert!(t.remove_child(mid).is_ok());
    assert_eq!(t.get(mid), Some(&2));
    assert!(t.parent(mid).unwrap().is_none());
}

#[test]
fn get_mut_changes_the_value() {
    let mut t: Tree<u32> = Tree::new();
    let root = t.add_node_as_parent(1, &[]).unwrap();
    *t.get_mut(root).unwrap() = 42;
    assert_eq!(t.get(root), Some(&42));
    assert!(t.get_mut(NodeRef::new(3, 0)).is_none());
}

#[test]
fn node_ref_comparison() {
    let a: NodeRef<u32> = NodeRef::new(0, 0);
    let b: NodeRef<u32> = NodeRef::new(0, 0);
    assert!(a == b);
    let c: NodeRef<u32> = NodeRef::new(1, 0);
    let d: NodeRef<u32> = NodeRef::new(1, 0);
    assert!(c == d);
    let e: NodeRef<u32> = NodeRef::new(2, 5);
    let f: NodeRef<u32> = NodeRef::new(2, 2);
    assert!(e != f);
    let g: NodeRef<u32> = NodeRef::new(1, 0);
    let h: NodeRef<u32> = NodeRef::new(0, 1);
    assert!(g != h);
}
