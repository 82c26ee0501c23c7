//! Behaviour of the index operations on concrete trees.

use dodder::{Error, Index, Position, Status, ROOT_KEY};

fn child_of(parent: u64, front: bool) -> Position {
    Position { position: parent, is_front: front, is_parent: true }
}

fn sibling_of(sibling: u64, before: bool) -> Position {
    Position { position: sibling, is_front: before, is_parent: false }
}

fn add(idx: &mut Index, name: &str, pos: &Position) -> u64 {
    idx.add_node(name, "/tmp/x.md", None, None, 10, 20, pos).unwrap()
}

#[test]
fn scenario_tree_building() {
    let mut idx = Index::new();
    let a = add(&mut idx, "a", &child_of(ROOT_KEY, true));
    let b = add(&mut idx, "b", &child_of(ROOT_KEY, false));
    let c = add(&mut idx, "c", &sibling_of(a, false));
    assert_eq!(idx.children(ROOT_KEY).unwrap(), vec![a, c, b]);

    idx.move_node(b, &child_of(a, true)).unwrap();
    assert_eq!(idx.children(ROOT_KEY).unwrap(), vec![a, c]);
    assert_eq!(idx.children(a).unwrap(), vec![b]);

    idx.remove_node(a).unwrap();
    assert!(idx.get_node(a).is_none());
    assert!(idx.get_node(b).is_none());
    assert_eq!(idx.children(ROOT_KEY).unwrap(), vec![c]);
}

#[test]
fn link_symmetry_concrete() {
    let mut idx = Index::new();
    let a = add(&mut idx, "a", &child_of(ROOT_KEY, false));
    let b = add(&mut idx, "b", &child_of(ROOT_KEY, false));
    idx.add_link(a, b).unwrap();
    assert!(idx.links(b).unwrap().contains(&a));
    assert!(idx.links(a).unwrap().contains(&b));
    // linking again changes nothing
    idx.add_link(a, b).unwrap();
    assert_eq!(idx.links(a).unwrap(), vec![b]);
    assert_eq!(idx.links(b).unwrap(), vec![a]);
    idx.remove_link(a, b).unwrap();
    assert!(!idx.links(a).unwrap().contains(&b));
    assert!(!idx.links(b).unwrap().contains(&a));
    // unlinking again is a no-op
    idx.remove_link(a, b).unwrap();
    assert!(idx.links(a).unwrap().is_empty());
}

#[test]
fn cascading_removal_leaves_no_dangling_references() {
    let mut idx = Index::new();
    let a = add(&mut idx, "a", &child_of(ROOT_KEY, false));
    let a1 = add(&mut idx, "a1", &child_of(a, false));
    let a2 = add(&mut idx, "a2", &child_of(a, false));
    let a11 = add(&mut idx, "a11", &child_of(a1, false));
    let b = add(&mut idx, "b", &child_of(ROOT_KEY, false));
    let c = add(&mut idx, "c", &child_of(b, false));
    idx.add_link(a1, c).unwrap();
    idx.add_link(a11, b).unwrap();
    idx.add_link(a, b).unwrap();

    idx.remove_node(a).unwrap();

    for gone in [a, a1, a2, a11] {
        assert!(idx.get_node(gone).is_none());
    }
    let remaining = idx.traverse(ROOT_KEY).unwrap();
    assert_eq!(remaining, vec![ROOT_KEY, b, c]);
    for key in remaining {
        let node = idx.get_node(key).unwrap();
        for gone in [a, a1, a2, a11] {
            assert!(!node.children.contains(&gone));
            assert!(!node.links.contains(&gone));
        }
    }
    assert!(idx.links(b).unwrap().is_empty());
    assert!(idx.links(c).unwrap().is_empty());
}

#[test]
fn sibling_positioning() {
    let mut idx = Index::new();
    let p = add(&mut idx, "p", &child_of(ROOT_KEY, false));
    let x = add(&mut idx, "x", &child_of(p, false));
    let y = add(&mut idx, "y", &child_of(p, false));
    let z = add(&mut idx, "z", &child_of(p, false));
    assert_eq!(idx.children(p).unwrap(), vec![x, y, z]);

    let k = add(&mut idx, "k", &sibling_of(y, true));
    assert_eq!(idx.children(p).unwrap(), vec![x, k, y, z]);

    let k2 = add(&mut idx, "k2", &sibling_of(y, false));
    assert_eq!(idx.children(p).unwrap(), vec![x, k, y, k2, z]);
}

#[test]
fn move_rejects_cycles() {
    let mut idx = Index::new();
    let a = add(&mut idx, "a", &child_of(ROOT_KEY, false));
    let b = add(&mut idx, "b", &child_of(a, false));
    let c = add(&mut idx, "c", &child_of(b, false));

    assert_eq!(idx.move_node(a, &child_of(c, false)), Err(Error::CycleRejected));
    assert_eq!(idx.move_node(a, &child_of(a, false)), Err(Error::CycleRejected));
    assert_eq!(idx.move_node(a, &sibling_of(c, true)), Err(Error::CycleRejected));
    // nothing changed
    assert_eq!(idx.children(ROOT_KEY).unwrap(), vec![a]);
    assert_eq!(idx.children(a).unwrap(), vec![b]);
    assert_eq!(idx.children(b).unwrap(), vec![c]);
}

#[test]
fn move_within_same_parent_uses_current_positions() {
    let mut idx = Index::new();
    let a = add(&mut idx, "a", &child_of(ROOT_KEY, false));
    let b = add(&mut idx, "b", &child_of(ROOT_KEY, false));
    let c = add(&mut idx, "c", &child_of(ROOT_KEY, false));
    assert_eq!(idx.children(ROOT_KEY).unwrap(), vec![a, b, c]);

    // moving a after c: the index of c is taken after a is detached
    idx.move_node(a, &sibling_of(c, false)).unwrap();
    assert_eq!(idx.children(ROOT_KEY).unwrap(), vec![b, c, a]);

    idx.move_node(a, &sibling_of(b, true)).unwrap();
    assert_eq!(idx.children(ROOT_KEY).unwrap(), vec![a, b, c]);
}

#[test]
fn traverse_is_depth_first_preorder() {
    let mut idx = Index::new();
    let a = add(&mut idx, "a", &child_of(ROOT_KEY, false));
    let b = add(&mut idx, "b", &child_of(ROOT_KEY, false));
    let a1 = add(&mut idx, "a1", &child_of(a, false));
    let a2 = add(&mut idx, "a2", &child_of(a, false));
    let a11 = add(&mut idx, "a11", &child_of(a1, false));
    let b1 = add(&mut idx, "b1", &child_of(b, false));

    assert_eq!(idx.traverse(ROOT_KEY).unwrap(), vec![ROOT_KEY, a, a1, a11, a2, b, b1]);
    assert_eq!(idx.traverse(a).unwrap(), vec![a, a1, a11, a2]);
    assert_eq!(idx.traverse(b1).unwrap(), vec![b1]);
    assert_eq!(idx.traverse(999), Err(Error::NotFound));
}

#[test]
fn error_cases() {
    let mut idx = Index::new();
    let a = add(&mut idx, "a", &child_of(ROOT_KEY, false));

    assert_eq!(
        idx.add_node("x", "/tmp/x.md", None, None, 1, 2, &child_of(999, false)),
        Err(Error::NotFound)
    );
    assert_eq!(
        idx.add_node("x", "/tmp/x.md", None, None, 1, 2, &sibling_of(ROOT_KEY, false)),
        Err(Error::RootHasNoSiblings)
    );
    assert_eq!(idx.move_node(ROOT_KEY, &child_of(a, false)), Err(Error::CannotMoveRoot));
    assert_eq!(idx.move_node(999, &child_of(a, false)), Err(Error::NotFound));
    assert_eq!(idx.move_node(a, &sibling_of(ROOT_KEY, true)), Err(Error::RootHasNoSiblings));
    assert_eq!(idx.remove_node(ROOT_KEY), Err(Error::CannotRemoveRoot));
    assert_eq!(idx.remove_node(999), Err(Error::NotFound));
    assert_eq!(idx.add_link(a, 999), Err(Error::NotFound));
    assert_eq!(idx.add_link(999, a), Err(Error::NotFound));
    assert_eq!(idx.remove_link(a, 999), Err(Error::NotFound));
    assert_eq!(idx.children(999), Err(Error::NotFound));
    assert_eq!(idx.links(999), Err(Error::NotFound));
}

#[test]
fn add_node_fills_fields() {
    let mut idx = Index::new();
    let a = idx
        .add_node("note", "/tmp/note.md", Some(Status::Urgent), Some(77), 10, 20, &child_of(ROOT_KEY, false))
        .unwrap();
    let n = idx.get_node(a).unwrap();
    assert_eq!(n.key, a);
    assert_eq!(n.name, "note");
    assert_eq!(n.path, "/tmp/note.md");
    assert_eq!(n.status, Status::Urgent);
    assert_eq!(n.stime, 77);
    assert_eq!(n.ctime, 10);
    assert_eq!(n.mtime, 20);
    assert_eq!(n.parent, Some(ROOT_KEY));
    assert!(n.children.is_empty());
    assert!(n.links.is_empty());

    // defaults: status unset, status time from the modification time
    let b = idx.add_node("d", "/tmp/d.md", None, None, 10, 20, &child_of(ROOT_KEY, false)).unwrap();
    let n = idx.get_node(b).unwrap();
    assert_eq!(n.status, Status::Unset);
    assert_eq!(n.stime, 20);
}

#[test]
fn root_node_shape() {
    let idx = Index::new();
    let n = idx.get_node(ROOT_KEY).unwrap();
    assert_eq!(n.key, ROOT_KEY);
    assert_eq!(n.name, "root");
    assert_eq!(n.path, "/");
    assert_eq!(n.status, Status::Unset);
    assert_eq!(n.parent, None);
    assert!(n.children.is_empty());
    assert!(n.links.is_empty());
    assert_eq!(dodder::root_path(), "/");
    let r = dodder::root();
    assert_eq!(r.key, ROOT_KEY);
    assert_eq!(r.name, "root");
    assert_eq!(r.path, "/");
    assert_eq!(r.parent, None);
}

#[test]
fn set_status_and_name_touch_one_node() {
    let mut idx = Index::new();
    let a = add(&mut idx, "a", &child_of(ROOT_KEY, false));
    let b = add(&mut idx, "b", &child_of(a, false));

    idx.set_status(a, Status::Done, 99).unwrap();
    idx.set_name(a, "renamed").unwrap();
    let n = idx.get_node(a).unwrap();
    assert_eq!(n.status, Status::Done);
    assert_eq!(n.stime, 99);
    assert_eq!(n.name, "renamed");
    // the structure and the other nodes are untouched
    assert_eq!(n.children, vec![b]);
    assert_eq!(n.parent, Some(ROOT_KEY));
    assert_eq!(idx.get_node(b).unwrap().name, "b");
    assert_eq!(idx.set_status(999, Status::Done, 0), Err(Error::NotFound));
    assert_eq!(idx.set_name(999, "x"), Err(Error::NotFound));
}

#[test]
fn self_link_is_kept_symmetric() {
    let mut idx = Index::new();
    let a = add(&mut idx, "a", &child_of(ROOT_KEY, false));
    idx.add_link(a, a).unwrap();
    assert_eq!(idx.links(a).unwrap(), vec![a]);
    idx.remove_link(a, a).unwrap();
    assert!(idx.links(a).unwrap().is_empty());
}
