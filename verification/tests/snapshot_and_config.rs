//! The snapshot round trip and the configuration fallbacks.

use dodder::{Config, Error, Index, Node, Position, Status, CGTD, ROOT_KEY};

fn child_of(parent: u64, front: bool) -> Position {
    Position { position: parent, is_front: front, is_parent: true }
}

fn build_sample() -> Index {
    let mut idx = Index::new();
    let a = idx.add_node("a", "/tmp/a.md", Some(Status::Done), Some(5), 1, 2, &child_of(ROOT_KEY, false)).unwrap();
    let b = idx.add_node("b", "/tmp/b.md", None, None, 3, 4, &child_of(ROOT_KEY, false)).unwrap();
    let _c = idx.add_node("c", "/tmp/c.md", Some(Status::Hold), None, 5, 6, &child_of(a, true)).unwrap();
    idx.add_link(a, b).unwrap();
    idx
}

fn assert_same_nodes(xs: &[Node], ys: &[Node]) {
    assert_eq!(xs.len(), ys.len());
    for (x, y) in xs.iter().zip(ys.iter()) {
        assert_eq!(x.key, y.key);
        assert_eq!(x.name, y.name);
        assert_eq!(x.path, y.path);
        assert_eq!(x.status, y.status);
        assert_eq!(x.stime, y.stime);
        assert_eq!(x.ctime, y.ctime);
        assert_eq!(x.mtime, y.mtime);
        assert_eq!(x.children, y.children);
        assert_eq!(x.links, y.links);
        assert_eq!(x.parent, y.parent);
    }
}

#[test]
fn snapshot_round_trip_is_identity() {
    let idx = build_sample();
    let saved = idx.to_nodes();
    let reloaded = Index::from_nodes(idx.to_nodes(), 3).unwrap();
    let saved_again = reloaded.to_nodes();
    assert_same_nodes(&saved, &saved_again);
    // and the reloaded index behaves like the original
    assert_eq!(reloaded.children(ROOT_KEY).unwrap(), idx.children(ROOT_KEY).unwrap());
    assert_eq!(reloaded.traverse(ROOT_KEY).unwrap(), idx.traverse(ROOT_KEY).unwrap());
}

#[test]
fn reloaded_index_hands_out_fresh_keys() {
    let idx = build_sample();
    let mut reloaded = Index::from_nodes(idx.to_nodes(), 3).unwrap();
    let d = reloaded.add_node("d", "/tmp/d.md", None, None, 7, 8, &child_of(ROOT_KEY, false)).unwrap();
    assert_eq!(d, 4);
}

#[test]
fn corrupt_snapshots_are_rejected() {
    let idx = build_sample();

    // a child key that no node carries
    let mut nodes = idx.to_nodes();
    nodes[0].children.push(999);
    assert_eq!(Index::from_nodes(nodes, 3).err(), Some(Error::SerializationError));

    // a duplicate key
    let mut nodes = idx.to_nodes();
    let dup = nodes[1].clone();
    nodes.push(dup);
    assert_eq!(Index::from_nodes(nodes, 3).err(), Some(Error::SerializationError));

    // a key above the key counter
    let nodes = idx.to_nodes();
    assert_eq!(Index::from_nodes(nodes, 1).err(), Some(Error::SerializationError));

    // a one-sided link
    let mut nodes = idx.to_nodes();
    for n in nodes.iter_mut() {
        if n.key == 2 {
            n.links.clear();
        }
    }
    assert_eq!(Index::from_nodes(nodes, 3).err(), Some(Error::SerializationError));

    // a parent cycle away from the root
    let mut nodes = idx.to_nodes();
    for n in nodes.iter_mut() {
        if n.key == 1 {
            n.parent = Some(3);
        } else if n.key == ROOT_KEY {
            n.children.retain(|c| *c != 1);
        } else if n.key == 3 {
            n.children.push(1);
        }
    }
    assert_eq!(Index::from_nodes(nodes, 3).err(), Some(Error::SerializationError));

    // a missing root
    let nodes: Vec<Node> = idx.to_nodes().into_iter().filter(|n| n.key != ROOT_KEY).collect();
    assert_eq!(Index::from_nodes(nodes, 3).err(), Some(Error::SerializationError));
}

#[test]
fn extension_falls_back_to_md() {
    let cfg = Config { global: None, symbol: None, extension: None };
    assert_eq!(cfg.get_extension(), "md");
    let cfg = Config { global: None, symbol: None, extension: Some("norg".to_string()) };
    assert_eq!(cfg.get_extension(), "norg");
}

#[test]
fn global_path_prefers_configured_value() {
    let cfg = Config {
        global: Some("~/.local/share/tree".to_string()),
        symbol: None,
        extension: None,
    };
    assert_eq!(cfg.get_global_path("/home/u/.local/share"), "~/.local/share/tree");
    let cfg = Config { global: None, symbol: None, extension: None };
    assert_eq!(cfg.get_global_path("/home/u/.local/share"), "/home/u/.local/share/dodder");
}

#[test]
fn symbols_fall_back_per_status() {
    let cfg = Config { global: None, symbol: None, extension: None };
    let syms = cfg.get_symbols();
    assert_eq!(syms.none, None);
    assert_eq!(Status::Unset.to_symbol(syms), '\u{f0131}');
    assert_eq!(Status::Done.to_symbol(syms), '\u{f0132}');
    assert_eq!(Status::Urgent.to_symbol(syms), '\u{26a0}');
    assert_eq!(Status::Cancelled.to_symbol(syms), '\u{f073a}');

    let over = CGTD {
        none: Some('o'),
        undone: None,
        done: Some('x'),
        need_work: None,
        urgent: None,
        recurring: None,
        pending: None,
        hold: None,
        cancelled: None,
    };
    let cfg = Config { global: None, symbol: Some(over), extension: None };
    let syms = cfg.get_symbols();
    assert_eq!(Status::Unset.to_symbol(syms), 'o');
    assert_eq!(Status::Done.to_symbol(syms), 'x');
    assert_eq!(Status::Undone.to_symbol(syms), '\u{f012e}');
}

#[test]
fn key_helpers_find_first_position() {
    let v = vec![4u64, 7, 4, 9];
    assert_eq!(dodder::position_of(&v, 4), Some(0));
    assert_eq!(dodder::position_of(&v, 9), Some(3));
    assert_eq!(dodder::position_of(&v, 5), None);
    assert!(dodder::contains_key(&v, 7));
    assert!(!dodder::contains_key(&v, 5));
}
