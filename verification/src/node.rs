//! One entry of the index: display data, status, timestamps, and the
//! structural edges (parent, ordered children, symmetric links), all stored
//! as plain keys.

use vstd::prelude::*;

use crate::Key;

verus! {

/// The GTD-style state a node can carry.
#[derive(Clone, Copy, Debug, PartialEq, Eq, Structural)]
pub enum Status {
    Unset,
    Undone,
    Done,
    NeedWork,
    Urgent,
    Recurring,
    Pending,
    Hold,
    Cancelled,
}

/// One tracked entry: its identity, display data, status with its timestamp,
/// file timestamps, and the structural edges to other entries.
pub struct Node {
    /// Stable identifier; unique within an index, never changed.
    pub key: Key,
    /// Display label, independent of the key.
    pub name: String,
    /// The backing file of this entry, as a path string.
    pub path: String,
    /// Current GTD state.
    pub status: Status,
    /// Timestamp of the last status change, in seconds.
    pub stime: i64,
    /// Creation timestamp of the backing file, in seconds.
    pub ctime: i64,
    /// Modification timestamp of the backing file, in seconds.
    pub mtime: i64,
    /// Keys of the children, in display order, without duplicates.
    pub children: Vec<Key>,
    /// Keys of the linked entries; a set kept as a duplicate-free list.
    pub links: Vec<Key>,
    /// Key of the parent; `None` only for the root.
    pub parent: Option<Key>,
}

/// The mathematical value of a `Node`.
pub struct NodeView {
    pub key: Key,
    pub name: Seq<char>,
    pub path: Seq<char>,
    pub status: Status,
    pub stime: int,
    pub ctime: int,
    pub mtime: int,
    pub children: Seq<Key>,
    pub links: Seq<Key>,
    pub parent: Option<Key>,
}

impl View for Node {
    type V = NodeView;

    open spec fn view(&self) -> NodeView {
        NodeView {
            key: self.key,
            name: self.name@,
            path: self.path@,
            status: self.status,
            stime: self.stime as int,
            ctime: self.ctime as int,
            mtime: self.mtime as int,
            children: self.children@,
            links: self.links@,
            parent: self.parent,
        }
    }
}

impl Clone for Node {
    /// A clone carries the same mathematical value.
    fn clone(&self) -> (r: Self)
        ensures
            r@ == self@,
    {
        let r = Node {
            key: self.key,
            name: self.name.clone(),
            path: self.path.clone(),
            status: self.status,
            stime: self.stime,
            ctime: self.ctime,
            mtime: self.mtime,
            children: clone_keys(&self.children),
            links: clone_keys(&self.links),
            parent: self.parent,
        };
        r
    }
}

/// Copies a list of keys.
pub(crate) fn clone_keys(v: &Vec<Key>) -> (r: Vec<Key>)
    ensures
        r@ == v@,
{
    let mut r: Vec<Key> = Vec::new();
    let mut i: usize = 0;
    while i < v.len()
        invariant
            i <= v.len(),
            r@ == v@.take(i as int),
        decreases v.len() - i,
    {
        r.push(v[i]);
        assert(v@.take(i + 1) == v@.take(i as int).push(v@[i as int]));
        i = i + 1;
    }
    assert(v@.take(v.len() as int) == v@);
    r
}

impl Node {
    /// Inserts `child` at position `i` of the child list.
    pub fn add_child(&mut self, i: usize, child: &Key)
        requires
            i <= old(self).children.len(),
        ensures
            final(self)@ == (NodeView { children: old(self)@.children.insert(i as int, *child), ..old(self)@ }),
    {
        self.children.insert(i, *child);
    }

    /// Sets the parent key.
    pub fn set_parent(&mut self, parent: &Key)
        ensures
            final(self)@ == (NodeView { parent: Some(*parent), ..old(self)@ }),
    {
        self.parent = Some(*parent);
    }

    /// Adds a link key; a no-op when the link is already present.
    pub fn add_link(&mut self, link: &Key)
        ensures
            final(self)@ == (NodeView {
                links: if old(self)@.links.contains(*link) {
                    old(self)@.links
                } else {
                    old(self)@.links.push(*link)
                },
                ..old(self)@
            }),
    {
        if !contains_key(&self.links, *link) {
            self.links.push(*link);
        }
    }

    /// Removes a link key; a no-op when the link is absent.
    pub fn remove_link(&mut self, link: &Key)
        ensures
            final(self)@ == (NodeView { links: old(self)@.links.remove_value(*link), ..old(self)@ }),
    {
        proof {
            self.links@.index_of_first_ensures(*link);
        }
        let r = position_of(&self.links, *link);
        if let Some(i) = r {
            self.links.remove(i);
        }
    }

    /// Position of `child` in the child list, or `None` when absent.
    pub fn get_child(&self, child: &Key) -> (r: Option<usize>)
        ensures
            match r {
                Some(i) => self@.children.index_of_first(*child) == Some(i as int)
                    && self@.children.contains(*child),
                None => !self@.children.contains(*child),
            },
    {
        position_of(&self.children, *child)
    }

    /// Removes `child` from the child list; a no-op when absent.
    pub fn remove_child(&mut self, child: &Key)
        ensures
            final(self)@ == (NodeView { children: old(self)@.children.remove_value(*child), ..old(self)@ }),
    {
        proof {
            self.children@.index_of_first_ensures(*child);
        }
        let r = position_of(&self.children, *child);
        if let Some(i) = r {
            self.children.remove(i);
        }
    }

    /// True of the root: the one node without a parent.
    pub fn is_root(&self) -> (r: bool)
        ensures
            r == (self@.parent is None),
    {
        match self.parent {
            None => true,
            Some(_) => false,
        }
    }
}

/// The synthetic root entry: key `ROOT_KEY`, named `root`, path `/`, no
/// parent, no status. Its timestamps come from the clock.
pub fn root() -> (r: Node)
    ensures
        r@.key == crate::ROOT_KEY,
        r@.name == "root"@,
        r@.path == "/"@,
        r@.status == Status::Unset,
        r@.children == Seq::<Key>::empty(),
        r@.links == Seq::<Key>::empty(),
        r@.parent is None,
{
    let t = crate::clock::now_timestamp();
    Node {
        key: crate::ROOT_KEY,
        name: "root".to_owned(),
        path: "/".to_owned(),
        status: Status::Unset,
        stime: t,
        ctime: t,
        mtime: t,
        children: Vec::new(),
        links: Vec::new(),
        parent: None,
    }
}

/// The conventional path of the root entry.
pub fn root_path() -> (r: String)
    ensures
        r@ == "/"@,
{
    "/".to_owned()
}

/// First position of `x` in `v`, or `None` when absent.
pub fn position_of(v: &Vec<Key>, x: Key) -> (r: Option<usize>)
    ensures
        match r {
            Some(i) => v@.index_of_first(x) == Some(i as int) && v@.contains(x),
            None => !v@.contains(x),
        },
{
    let mut i: usize = 0;
    while i < v.len()
        invariant
            i <= v.len(),
            forall|j: int| 0 <= j < i ==> v@[j] != x,
        decreases v.len() - i,
    {
        if v[i] == x {
            proof {
                v@.index_of_first_ensures(x);
            }
            return Some(i);
        }
        i = i + 1;
    }
    None
}

/// True when `x` occurs in `v`.
pub fn contains_key(v: &Vec<Key>, x: Key) -> (r: bool)
    ensures
        r == v@.contains(x),
{
    let r = position_of(v, x);
    r.is_some()
}

} // verus!
