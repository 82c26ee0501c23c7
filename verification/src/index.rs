//! The index: a flat list of nodes owned under unique keys, mutated only
//! through operations that keep the documented tree and link invariants.

use vstd::prelude::*;

use crate::node::{clone_keys, contains_key, Node, NodeView, Status};
use crate::chain::{chain, in_subtree, reaches};
use crate::ops::{add_if_absent, dfs_list, dfs_node, fresh_node_view, inv, not_in, resolve_target,
    scrubbed, spec_add_link, spec_add_result, spec_attach, spec_detach, spec_move_result,
    spec_remove_link, spec_remove_result, wf_snapshot, with_children, with_links, with_parent};
use crate::ops::{lemma_add_inv, lemma_add_link_inv, lemma_move_inv, lemma_remove_link_inv};
use crate::Position;
use crate::viewmap::{keys_of, lemma_map_of_dom, lemma_map_of_index, lemma_map_of_len,
    lemma_map_of_push, lemma_map_of_update, map_of, views_of};
use crate::{Error, Key, ROOT_KEY};

verus! {

/// Copies `v` without the keys listed in `excl`, keeping the order.
fn filter_out(v: &Vec<Key>, excl: &Vec<Key>) -> (r: Vec<Key>)
    ensures
        r@ == v@.filter(not_in(excl@)),
{
    let mut r: Vec<Key> = Vec::new();
    proof {
        assert(v@.take(0) =~= Seq::<Key>::empty());
        reveal(Seq::filter);
    }
    let mut i: usize = 0;
    while i < v.len()
        invariant
            i <= v.len(),
            r@ == v@.take(i as int).filter(not_in(excl@)),
        decreases v.len() - i,
    {
        let keep = !contains_key(excl, v[i]);
        proof {
            crate::ops::lemma_filter_push(v@.take(i as int), not_in(excl@), v@[i as int]);
            assert(v@.take(i + 1) =~= v@.take(i as int).push(v@[i as int]));
        }
        if keep {
            r.push(v[i]);
        }
        i = i + 1;
    }
    proof {
        assert(v@.take(v.len() as int) =~= v@);
    }
    r
}

/// Whether a key list is free of duplicates.
fn distinct_keys(v: &Vec<Key>) -> (r: bool)
    ensures
        r == v@.no_duplicates(),
{
    let mut i: usize = 0;
    while i < v.len()
        invariant
            i <= v@.len(),
            forall|a: int, b: int| 0 <= a < b < i ==> v@[a] != v@[b],
        decreases v@.len() - i,
    {
        let mut j: usize = 0;
        while j < i
            invariant
                j <= i < v@.len(),
                forall|b: int| 0 <= b < j ==> v@[b] != v@[i as int],
            decreases i - j,
        {
            if v[j] == v[i] {
                return false;
            }
            j = j + 1;
        }
        i = i + 1;
    }
    true
}

/// The flat index: every node of the tree, keyed by `Node::key`, plus the
/// highest key handed out so far.
pub struct Index {
    nodes: Vec<Node>,
    max_key: Key,
}

impl View for Index {
    type V = Map<Key, NodeView>;

    closed spec fn view(&self) -> Map<Key, NodeView> {
        map_of(self.nodes@)
    }
}

impl Index {
    /// Well-formedness: keys are unique and bounded by the key counter,
    /// and the mathematical value satisfies the documented invariants.
    pub closed spec fn wf(self) -> bool {
        &&& keys_of(self.nodes@).no_duplicates()
        &&& inv(self@)
        &&& forall|i: int| 0 <= i < self.nodes@.len() ==> #[trigger] self.nodes@[i].key <= self.max_key
    }

    /// The highest key handed out so far.
    pub closed spec fn spec_max_key(self) -> Key {
        self.max_key
    }

    /// The node values in storage order: what a snapshot of this index
    /// holds.
    pub closed spec fn spec_nodes(self) -> Seq<NodeView> {
        views_of(self.nodes@)
    }

    /// The key the next added node would receive.
    pub open spec fn spec_fresh_key(self) -> Key {
        (self.spec_max_key() + 1) as Key
    }

    /// Keys are not exhausted.
    pub open spec fn key_space_left(self) -> bool {
        self.spec_max_key() < Key::MAX
    }

    /// A well-formed index satisfies the documented invariants.
    pub proof fn lemma_wf_inv(self)
        requires
            self.wf(),
        ensures
            inv(self@),
    {
    }

    /// A fresh index: the root alone, no key handed out yet.
    pub fn new() -> (r: Index)
        ensures
            r.wf(),
            r.spec_max_key() == ROOT_KEY,
            r@.dom() =~= set![ROOT_KEY],
            r@[ROOT_KEY].key == ROOT_KEY,
            r@[ROOT_KEY].name == "root"@,
            r@[ROOT_KEY].path == "/"@,
            r@[ROOT_KEY].status == Status::Unset,
            r@[ROOT_KEY].children == Seq::<Key>::empty(),
            r@[ROOT_KEY].links == Seq::<Key>::empty(),
            r@[ROOT_KEY].parent is None,
    {
        let rn = crate::node::root();
        let mut nodes: Vec<Node> = Vec::new();
        nodes.push(rn);
        let r = Index { nodes, max_key: ROOT_KEY };
        proof {
            assert(r.nodes@.drop_last() =~= Seq::<Node>::empty());
            assert(map_of(Seq::<Node>::empty()) =~= Map::<Key, NodeView>::empty());
            assert(map_of(r.nodes@) == map_of(r.nodes@.drop_last()).insert(
                r.nodes@.last().key,
                r.nodes@.last()@,
            ));
            assert(r@ =~= Map::<Key, NodeView>::empty().insert(ROOT_KEY, r.nodes@[0]@));
            assert(keys_of(r.nodes@).no_duplicates());
            lemma_map_of_dom(r.nodes@);
            assert(crate::chain::chain(r@, ROOT_KEY, ROOT_KEY, 0));
        }
        r
    }

    /// The position of key `k` in the node list.
    fn find(&self, k: Key) -> (r: Option<usize>)
        ensures
            match r {
                Some(i) => i < self.nodes.len() && self.nodes@[i as int].key == k
                    && self@.contains_key(k),
                None => !self@.contains_key(k),
            },
    {
        let mut i: usize = 0;
        while i < self.nodes.len()
            invariant
                i <= self.nodes.len(),
                forall|j: int| 0 <= j < i ==> self.nodes@[j].key != k,
            decreases self.nodes.len() - i,
        {
            if self.nodes[i].key == k {
                proof {
                    lemma_map_of_dom(self.nodes@);
                    assert(keys_of(self.nodes@)[i as int] == k);
                    assert(keys_of(self.nodes@).to_set().contains(k));
                }
                return Some(i);
            }
            i = i + 1;
        }
        proof {
            lemma_map_of_dom(self.nodes@);
            if self@.contains_key(k) {
                let j = choose|j: int|
                    0 <= j < keys_of(self.nodes@).len() && keys_of(self.nodes@)[j] == k;
                assert(self.nodes@[j].key == k);
            }
        }
        None
    }

    /// Whether key `k` is present.
    pub fn contains(&self, k: Key) -> (r: bool)
        ensures
            r == self@.contains_key(k),
    {
        self.find(k).is_some()
    }

    /// The node under key `k`, when present.
    pub fn get_node(&self, k: Key) -> (r: Option<&Node>)
        requires
            self.wf(),
        ensures
            match r {
                Some(n) => self@.contains_key(k) && n@ == self@[k],
                None => !self@.contains_key(k),
            },
    {
        match self.find(k) {
            Some(i) => {
                proof {
                    lemma_map_of_index(self.nodes@, i as int);
                }
                Some(&self.nodes[i])
            }
            None => None,
        }
    }

    /// The child keys of `k`, in order.
    pub fn children(&self, k: Key) -> (r: Result<Vec<Key>, Error>)
        requires
            self.wf(),
        ensures
            match r {
                Ok(cs) => self@.contains_key(k) && cs@ == self@[k].children,
                Err(e) => e == Error::NotFound && !self@.contains_key(k),
            },
    {
        match self.get_node(k) {
            Some(n) => Ok(clone_keys(&n.children)),
            None => Err(Error::NotFound),
        }
    }

    /// The link keys of `k`.
    pub fn links(&self, k: Key) -> (r: Result<Vec<Key>, Error>)
        requires
            self.wf(),
        ensures
            match r {
                Ok(ls) => self@.contains_key(k) && ls@ == self@[k].links,
                Err(e) => e == Error::NotFound && !self@.contains_key(k),
            },
    {
        match self.get_node(k) {
            Some(n) => Ok(clone_keys(&n.links)),
            None => Err(Error::NotFound),
        }
    }

    /// The highest key handed out so far.
    pub fn last_key(&self) -> (r: Key)
        ensures
            r == self.spec_max_key(),
    {
        self.max_key
    }

    /// The full snapshot of the index: a copy of every node, in storage
    /// order. Feeding it back through `from_nodes` rebuilds an index with
    /// the same value, and saving that one yields this very snapshot
    /// again.
    pub fn to_nodes(&self) -> (r: Vec<Node>)
        requires
            self.wf(),
        ensures
            views_of(r@) == self.spec_nodes(),
            map_of(r@) == self@,
            wf_snapshot(r@, self.spec_max_key()),
    {
        let mut r: Vec<Node> = Vec::new();
        let mut i: usize = 0;
        while i < self.nodes.len()
            invariant
                self.wf(),
                i <= self.nodes@.len(),
                r@.len() == i,
                forall|j: int| 0 <= j < i ==> #[trigger] r@[j]@ == self.nodes@[j]@,
            decreases self.nodes@.len() - i,
        {
            r.push(self.nodes[i].clone());
            i = i + 1;
        }
        proof {
            assert(views_of(r@) =~= views_of(self.nodes@));
            assert forall|j: int| 0 <= j < r@.len() implies #[trigger] keys_of(r@)[j] == keys_of(
                self.nodes@,
            )[j] by {
                assert(r@[j]@ == self.nodes@[j]@);
                assert(r@[j].key == r@[j]@.key);
                assert(self.nodes@[j].key == self.nodes@[j]@.key);
            };
            assert(keys_of(r@) =~= keys_of(self.nodes@));
            crate::viewmap::lemma_map_of_views(r@, self.nodes@);
            assert forall|j: int| 0 <= j < r@.len() implies #[trigger] r@[j].key
                <= self.spec_max_key() by {
                assert(r@[j]@ == self.nodes@[j]@);
                assert(self.nodes@[j].key <= self.max_key);
            };
        }
        r
    }

    /// Rebuilds an index from a snapshot. Succeeds exactly on a
    /// well-formed snapshot; anything else is a corrupt snapshot and
    /// fails with `SerializationError`.
    pub fn from_nodes(nodes: Vec<Node>, max_key: Key) -> (r: Result<Index, Error>)
        ensures
            (match r {
                Ok(idx) => wf_snapshot(nodes@, max_key) && idx.wf() && idx@ == map_of(nodes@)
                    && idx.spec_nodes() == views_of(nodes@) && idx.spec_max_key() == max_key,
                Err(e) => e == Error::SerializationError && !wf_snapshot(nodes@, max_key),
            }),
    {
        let idx = Index { nodes, max_key };
        if idx.validate() {
            Ok(idx)
        } else {
            Err(Error::SerializationError)
        }
    }

    /// Whether the node list and key counter form a well-formed index.
    fn validate(&self) -> (r: bool)
        ensures
            r == self.wf(),
    {
        let ghost s = self.nodes@;
        let ghost m = self@;
        // unique keys, bounded by the counter
        let mut i: usize = 0;
        while i < self.nodes.len()
            invariant
                self.nodes@ == s,
                self@ == m,
                i <= s.len(),
                forall|a: int, b: int| 0 <= a < b < i ==> s[a].key != s[b].key,
                forall|a: int| 0 <= a < i ==> #[trigger] s[a].key <= self.max_key,
            decreases s.len() - i,
        {
            if self.nodes[i].key > self.max_key {
                return false;
            }
            let mut j: usize = 0;
            while j < i
                invariant
                    self.nodes@ == s,
                    self@ == m,
                    j <= i < s.len(),
                    forall|b: int| 0 <= b < j ==> s[b].key != s[i as int].key,
                decreases i - j,
            {
                if self.nodes[j].key == self.nodes[i].key {
                    proof {
                        assert(keys_of(s)[j as int] == keys_of(s)[i as int]);
                    }
                    return false;
                }
                j = j + 1;
            }
            i = i + 1;
        }
        proof {
            assert forall|a: int, b: int|
                0 <= a < b < keys_of(s).len() implies keys_of(s)[a] != keys_of(s)[b] by {
                assert(keys_of(s)[a] == s[a].key);
                assert(keys_of(s)[b] == s[b].key);
            };
            assert(keys_of(s).no_duplicates());
        }
        // the root is present and has no parent
        let ri = match self.find(ROOT_KEY) {
            Some(ri) => ri,
            None => {
                proof {
                    assert(!inv(m)) by {
                        if inv(m) {
                            assert(m.contains_key(ROOT_KEY));
                        }
                    };
                }
                return false;
            }
        };
        proof {
            lemma_map_of_index(s, ri as int);
        }
        if self.nodes[ri].parent.is_some() {
            return false;
        }
        // each node in turn
        let mut i: usize = 0;
        while i < self.nodes.len()
            invariant
                self.nodes@ == s,
                self@ == m,
                keys_of(s).no_duplicates(),
                forall|a: int| 0 <= a < s.len() ==> #[trigger] s[a].key <= self.max_key,
                m.contains_key(ROOT_KEY),
                m[ROOT_KEY].parent is None,
                i <= s.len(),
                forall|a: int| 0 <= a < i ==> crate::ops::node_ok(
                    m,
                    s.len() as nat,
                    #[trigger] s[a]@,
                ),
            decreases s.len() - i,
        {
            proof {
                lemma_map_of_index(s, i as int);
            }
            let k = self.nodes[i].key;
            // the parent exists and lists this node
            match self.nodes[i].parent {
                None => {
                    if k != ROOT_KEY {
                        proof {
                            assert(!inv(m)) by {
                                if inv(m) {
                                    assert(m.contains_key(k));
                                }
                            };
                        }
                        return false;
                    }
                }
                Some(p) => {
                    match self.find(p) {
                        None => {
                            proof {
                                assert(!inv(m)) by {
                                    if inv(m) {
                                        assert(m.contains_key(k) && m[k].parent is Some);
                                    }
                                };
                            }
                            return false;
                        }
                        Some(pi) => {
                            proof {
                                lemma_map_of_index(s, pi as int);
                            }
                            if !contains_key(&self.nodes[pi].children, k) {
                                proof {
                                    assert(!inv(m)) by {
                                        if inv(m) {
                                            assert(m.contains_key(k) && m[k].parent is Some);
                                        }
                                    };
                                }
                                return false;
                            }
                        }
                    }
                }
            }
            // children: unique, present, pointing back
            if !distinct_keys(&self.nodes[i].children) {
                proof {
                    assert(!inv(m)) by {
                        if inv(m) {
                            assert(m.contains_key(k));
                        }
                    };
                }
                return false;
            }
            let mut jc: usize = 0;
            while jc < self.nodes[i].children.len()
                invariant
                    self.nodes@ == s,
                    self@ == m,
                    keys_of(s).no_duplicates(),
                    i < s.len(),
                    k == s[i as int].key,
                    jc <= s[i as int].children@.len(),
                    forall|b: int|
                        0 <= b < jc ==> m.contains_key(#[trigger] s[i as int].children@[b])
                            && m[s[i as int].children@[b]].parent == Some(k),
                decreases s[i as int].children@.len() - jc,
            {
                let c = self.nodes[i].children[jc];
                match self.find(c) {
                    None => {
                        proof {
                            lemma_map_of_index(s, i as int);
                            assert(!inv(m)) by {
                                if inv(m) {
                                    assert(m.contains_key(k));
                                    assert(m.contains_key(m[k].children[jc as int]));
                                }
                            };
                        }
                        return false;
                    }
                    Some(ci) => {
                        proof {
                            lemma_map_of_index(s, ci as int);
                        }
                        let ok = match self.nodes[ci].parent {
                            Some(pp) => pp == k,
                            None => false,
                        };
                        if !ok {
                            proof {
                                lemma_map_of_index(s, i as int);
                                assert(!inv(m)) by {
                                    if inv(m) {
                                        assert(m.contains_key(k));
                                        assert(m[m[k].children[jc as int]].parent == Some(k));
                                    }
                                };
                            }
                            return false;
                        }
                    }
                }
                jc = jc + 1;
            }
            // links: unique, present, symmetric
            if !distinct_keys(&self.nodes[i].links) {
                proof {
                    assert(!inv(m)) by {
                        if inv(m) {
                            assert(m.contains_key(k));
                        }
                    };
                }
                return false;
            }
            let mut jl: usize = 0;
            while jl < self.nodes[i].links.len()
                invariant
                    self.nodes@ == s,
                    self@ == m,
                    keys_of(s).no_duplicates(),
                    i < s.len(),
                    k == s[i as int].key,
                    jl <= s[i as int].links@.len(),
                    forall|b: int|
                        0 <= b < jl ==> m.contains_key(#[trigger] s[i as int].links@[b])
                            && m[s[i as int].links@[b]].links.contains(k),
                decreases s[i as int].links@.len() - jl,
            {
                let l = self.nodes[i].links[jl];
                match self.find(l) {
                    None => {
                        proof {
                            lemma_map_of_index(s, i as int);
                            assert(!inv(m)) by {
                                if inv(m) {
                                    assert(m.contains_key(k));
                                    assert(m.contains_key(m[k].links[jl as int]));
                                }
                            };
                        }
                        return false;
                    }
                    Some(li) => {
                        proof {
                            lemma_map_of_index(s, li as int);
                        }
                        if !contains_key(&self.nodes[li].links, k) {
                            proof {
                                lemma_map_of_index(s, i as int);
                                assert(!inv(m)) by {
                                    if inv(m) {
                                        assert(m.contains_key(k));
                                        assert(m[m[k].links[jl as int]].links.contains(k));
                                    }
                                };
                            }
                            return false;
                        }
                    }
                }
                jl = jl + 1;
            }
            // the node reaches the root
            proof {
                lemma_map_of_index(s, i as int);
                lemma_map_of_dom(s);
            }
            if !self.reaches_root_bounded(k) {
                proof {
                    assert(!inv(m)) by {
                        if inv(m) {
                            assert(m.contains_key(k));
                            assert(reaches(m, k, ROOT_KEY));
                            let n = choose|n: nat| chain(m, k, ROOT_KEY, n);
                            crate::chain::lemma_chain_bound(m, k, ROOT_KEY, n);
                            lemma_map_of_len(s);
                        }
                    };
                }
                return false;
            }
            proof {
                lemma_map_of_index(s, i as int);
                assert(crate::ops::node_ok(m, s.len() as nat, s[i as int]@));
            }
            i = i + 1;
        }
        proof {
            lemma_map_of_dom(s);
            crate::viewmap::lemma_map_of_keys_consistent(s);
            assert forall|k2: Key| #[trigger] m.contains_key(k2) implies crate::ops::node_ok(
                m,
                s.len() as nat,
                m[k2],
            ) by {
                let a = choose|a: int| 0 <= a < keys_of(s).len() && keys_of(s)[a] == k2;
                assert(s[a].key == k2);
                lemma_map_of_index(s, a);
                assert(crate::ops::node_ok(m, s.len() as nat, s[a]@));
            };
            crate::ops::lemma_inv_from_node_ok(m, s.len() as nat);
        }
        true
    }

    /// Whether `k`'s parent chain reaches the root within one step per
    /// node of the index.
    fn reaches_root_bounded(&self, k: Key) -> (r: bool)
        requires
            keys_of(self.nodes@).no_duplicates(),
        ensures
            r == chain(self@, k, ROOT_KEY, self.nodes@.len() as nat),
    {
        let mut cur = k;
        let mut steps: usize = 0;
        loop
            invariant
                keys_of(self.nodes@).no_duplicates(),
                steps <= self.nodes@.len(),
                chain(self@, k, ROOT_KEY, self.nodes@.len() as nat) <==> chain(
                    self@,
                    cur,
                    ROOT_KEY,
                    (self.nodes@.len() - steps) as nat,
                ),
            decreases self.nodes@.len() - steps,
        {
            if cur == ROOT_KEY {
                proof {
                    assert(chain(self@, cur, ROOT_KEY, (self.nodes@.len() - steps) as nat));
                }
                return true;
            }
            if steps >= self.nodes.len() {
                proof {
                    assert(!chain(self@, cur, ROOT_KEY, 0));
                }
                return false;
            }
            match self.find(cur) {
                None => {
                    proof {
                        assert(!chain(self@, cur, ROOT_KEY, (self.nodes@.len() - steps) as nat));
                    }
                    return false;
                }
                Some(ci) => {
                    proof {
                        lemma_map_of_index(self.nodes@, ci as int);
                    }
                    match self.nodes[ci].parent {
                        None => {
                            proof {
                                assert(!chain(
                                    self@,
                                    cur,
                                    ROOT_KEY,
                                    (self.nodes@.len() - steps) as nat,
                                ));
                            }
                            return false;
                        }
                        Some(q) => {
                            proof {
                                assert(chain(self@, cur, ROOT_KEY, (self.nodes@.len()
                                    - steps) as nat) <==> chain(
                                    self@,
                                    q,
                                    ROOT_KEY,
                                    (self.nodes@.len() - (steps + 1)) as nat,
                                ));
                            }
                            cur = q;
                            steps = steps + 1;
                        }
                    }
                }
            }
        }
    }

    /// Replaces the node at position `i`.
    fn set_node(&mut self, i: usize, n: Node)
        requires
            i < old(self).nodes.len(),
        ensures
            final(self).nodes@ == old(self).nodes@.update(i as int, n),
            final(self).max_key == old(self).max_key,
    {
        self.nodes.set(i, n);
    }

    /// Resolves an insertion target to the destination parent's position
    /// in the node list and the index in its child list, as
    /// `resolve_target` does on the mathematical value.
    fn resolve_position(&self, position: &Position) -> (r: Result<(usize, usize), Error>)
        requires
            keys_of(self.nodes@).no_duplicates(),
            !position.is_parent && self@.contains_key(position.position)
                && self@[position.position].parent is Some ==> self@.contains_key(
                self@[position.position].parent.unwrap(),
            ) && self@[self@[position.position].parent.unwrap()].children.contains(
                position.position,
            ),
        ensures
            match r {
                Ok(pc) => pc.0 < self.nodes.len() && resolve_target(self@, *position) == Ok::<
                    (Key, int),
                    Error,
                >((self.nodes@[pc.0 as int].key, pc.1 as int)) && pc.1
                    <= self.nodes@[pc.0 as int].children.len(),
                Err(e) => resolve_target(self@, *position) == Err::<(Key, int), Error>(e),
            },
    {
        let t = position.position;
        match self.find(t) {
            None => Err(Error::NotFound),
            Some(ti) => {
                proof {
                    lemma_map_of_index(self.nodes@, ti as int);
                }
                if position.is_parent {
                    let ci = if position.is_front {
                        0
                    } else {
                        self.nodes[ti].children.len()
                    };
                    Ok((ti, ci))
                } else {
                    match self.nodes[ti].parent {
                        None => Err(Error::RootHasNoSiblings),
                        Some(p) => {
                            match self.find(p) {
                                None => {
                                    proof {
                                        assert(self@.contains_key(p));
                                    }
                                    Err(Error::NotFound)
                                }
                                Some(pi) => {
                                    proof {
                                        lemma_map_of_index(self.nodes@, pi as int);
                                        assert(self@[p].children.contains(t));
                                    }
                                    match self.nodes[pi].get_child(&t) {
                                        None => {
                                            Err(Error::NotFound)
                                        }
                                        Some(ci) => {
                                            proof {
                                                self@[p].children.index_of_first_ensures(t);
                                                assert(self@[p] == self.nodes@[pi as int]@);
                                                assert(ci < self.nodes@[pi as int].children.len());
                                            }
                                            if position.is_front {
                                                Ok((pi, ci))
                                            } else {
                                                Ok((pi, ci + 1))
                                            }
                                        }
                                    }
                                }
                            }
                        }
                    }
                }
            }
        }
    }

    /// Adds a new node under a fresh key at the resolved position: the
    /// display data and timestamps are taken as given, the status defaults
    /// to `Unset` and the status time to the modification time. Fails,
    /// changing nothing, with `NotFound` when the referenced parent or
    /// sibling is absent and with `RootHasNoSiblings` when a sibling
    /// position names the root.
    pub fn add_node(
        &mut self,
        name: &str,
        path: &str,
        status: Option<Status>,
        stime: Option<i64>,
        ctime: i64,
        mtime: i64,
        position: &Position,
    ) -> (r: Result<Key, Error>)
        requires
            old(self).wf(),
            old(self).key_space_left(),
        ensures
            final(self).wf(),
            (match spec_add_result(
                old(self)@,
                old(self).spec_fresh_key(),
                fresh_node_view(
                    old(self).spec_fresh_key(),
                    name@,
                    path@,
                    (match status {
                        Some(s) => s,
                        None => Status::Unset,
                    }),
                    (match stime {
                        Some(t) => t as int,
                        None => mtime as int,
                    }),
                    ctime as int,
                    mtime as int,
                ),
                *position,
            ) {
                Ok(m2) => r == Ok::<Key, Error>(old(self).spec_fresh_key()) && final(self)@ == m2
                    && final(self).spec_max_key() == old(self).spec_fresh_key(),
                Err(e) => r == Err::<Key, Error>(e) && final(self)@ == old(self)@
                    && final(self).spec_max_key() == old(self).spec_max_key(),
            }),
    {
        let ghost s0 = self.nodes@;
        let ghost m = self@;
        let k = self.max_key + 1;
        let ghost nv = fresh_node_view(
            k,
            name@,
            path@,
            (match status {
                Some(s) => s,
                None => Status::Unset,
            }),
            (match stime {
                Some(t) => t as int,
                None => mtime as int,
            }),
            ctime as int,
            mtime as int,
        );
        proof {
            if self@.contains_key(position.position) && self@[position.position].parent is Some {
                assert(self@.contains_key(self@[position.position].parent.unwrap())
                    && self@[self@[position.position].parent.unwrap()].children.contains(
                    position.position,
                ));
            }
        }
        match self.resolve_position(position) {
            Err(e) => Err(e),
            Ok((pi, ci)) => {
                let p = self.nodes[pi].key;
                proof {
                    lemma_map_of_index(s0, pi as int);
                    lemma_map_of_dom(s0);
                    assert(!m.contains_key(k)) by {
                        if m.contains_key(k) {
                            let j = choose|j: int| 0 <= j < keys_of(s0).len() && keys_of(s0)[j]
                                == k;
                            assert(s0[j].key == k);
                        }
                    };
                }
                let mut pn = self.nodes[pi].clone();
                pn.add_child(ci, &k);
                self.set_node(pi, pn);
                proof {
                    lemma_map_of_update(s0, pi as int, self.nodes@[pi as int]);
                    assert(self@ == m.insert(p, with_children(m[p], m[p].children.insert(
                        ci as int,
                        k,
                    ))));
                    assert(keys_of(self.nodes@) =~= keys_of(s0));
                }
                let ghost s1 = self.nodes@;
                let ghost m1 = self@;
                let nn = Node {
                    key: k,
                    name: name.to_owned(),
                    path: path.to_owned(),
                    status: match status {
                        Some(s) => s,
                        None => Status::Unset,
                    },
                    stime: match stime {
                        Some(t) => t,
                        None => mtime,
                    },
                    ctime: ctime,
                    mtime: mtime,
                    children: Vec::new(),
                    links: Vec::new(),
                    parent: Some(p),
                };
                self.nodes.push(nn);
                self.max_key = k;
                proof {
                    lemma_map_of_push(s1, self.nodes@.last());
                    assert(self.nodes@.drop_last() =~= s1);
                    assert(self.nodes@.last()@ == with_parent(nv, Some(p)));
                    assert(self@ == m1.insert(k, with_parent(nv, Some(p))));
                    assert(self@ == spec_attach(m, k, nv, p, ci as int));
                    assert(keys_of(self.nodes@) =~= keys_of(s1).push(k));
                    assert forall|x: int, y: int|
                        0 <= x < y < keys_of(self.nodes@).len() implies keys_of(self.nodes@)[x]
                        != keys_of(self.nodes@)[y] by {
                        if y == keys_of(self.nodes@).len() - 1 {
                            assert(keys_of(self.nodes@)[x] == s1[x].key);
                            assert(s1[x].key == s0[x].key);
                        }
                    };
                    lemma_add_inv(m, k, nv, *position);
                    assert forall|i: int| 0 <= i < self.nodes@.len() implies #[trigger] self.nodes@[i].key
                        <= self.max_key by {
                        if i < self.nodes@.len() - 1 {
                            assert(self.nodes@[i].key == s1[i].key);
                            assert(s1[i].key == s0[i].key);
                        }
                    };
                }
                Ok(k)
            }
        }
    }

    /// Links `a` and `b` in both directions; a no-op on a side that
    /// already carries the link. Fails with `NotFound`, changing nothing,
    /// exactly when either key is absent.
    pub fn add_link(&mut self, a: Key, b: Key) -> (r: Result<(), Error>)
        requires
            old(self).wf(),
        ensures
            final(self).wf(),
            final(self).spec_max_key() == old(self).spec_max_key(),
            match r {
                Ok(_) => old(self)@.contains_key(a) && old(self)@.contains_key(b) && final(self)@
                    == spec_add_link(old(self)@, a, b),
                Err(e) => e == Error::NotFound && !(old(self)@.contains_key(a)
                    && old(self)@.contains_key(b)) && final(self)@ == old(self)@,
            },
    {
        let ghost s0 = self.nodes@;
        let ghost m = self@;
        let ai = match self.find(a) {
            Some(i) => i,
            None => {
                return Err(Error::NotFound);
            }
        };
        let bi = match self.find(b) {
            Some(i) => i,
            None => {
                return Err(Error::NotFound);
            }
        };
        proof {
            lemma_map_of_index(s0, ai as int);
        }
        let mut an = self.nodes[ai].clone();
        an.add_link(&b);
        self.set_node(ai, an);
        proof {
            lemma_map_of_update(s0, ai as int, self.nodes@[ai as int]);
            assert(self@ == m.insert(a, with_links(m[a], add_if_absent(m[a].links, b))));
            assert(keys_of(self.nodes@) =~= keys_of(s0));
            assert(self.nodes@[bi as int].key == b);
            lemma_map_of_index(self.nodes@, bi as int);
        }
        let ghost s1 = self.nodes@;
        let ghost m1 = self@;
        let mut bn = self.nodes[bi].clone();
        bn.add_link(&a);
        self.set_node(bi, bn);
        proof {
            lemma_map_of_update(s1, bi as int, self.nodes@[bi as int]);
            assert(self@ == m1.insert(b, with_links(m1[b], add_if_absent(m1[b].links, a))));
            assert(self@ == spec_add_link(m, a, b));
            assert(keys_of(self.nodes@) =~= keys_of(s0));
            lemma_add_link_inv(m, a, b);
            assert forall|i: int| 0 <= i < self.nodes@.len() implies #[trigger] self.nodes@[i].key
                <= self.max_key by {
                assert(self.nodes@[i].key == s0[i].key);
            };
        }
        Ok(())
    }

    /// Whether `t` lies in the subtree rooted at `k`: walks parent
    /// pointers upwards from `t` and reports whether the walk meets `k`.
    fn subtree_holds(&self, k: Key, t: Key) -> (r: bool)
        requires
            self.wf(),
            self@.contains_key(t),
        ensures
            r == in_subtree(self@, k, t),
    {
        let mut cur = t;
        proof {
            assert(reaches(self@, t, ROOT_KEY));
        }
        let ghost mut fuel: nat = choose|n: nat| chain(self@, t, ROOT_KEY, n);
        loop
            invariant
                self.wf(),
                self@.contains_key(cur),
                chain(self@, cur, ROOT_KEY, fuel),
                in_subtree(self@, k, t) <==> in_subtree(self@, k, cur),
            decreases fuel,
        {
            if cur == k {
                proof {
                    assert(chain(self@, cur, k, 0));
                }
                return true;
            }
            let ci = match self.find(cur) {
                Some(i) => i,
                None => {
                    return false;
                }
            };
            proof {
                lemma_map_of_index(self.nodes@, ci as int);
            }
            match self.nodes[ci].parent {
                None => {
                    proof {
                        if in_subtree(self@, k, cur) {
                            let n = choose|n: nat| chain(self@, cur, k, n);
                            assert(!(self@[cur].parent is Some));
                        }
                    }
                    return false;
                }
                Some(q) => {
                    proof {
                        assert(cur != ROOT_KEY);
                        assert(fuel > 0);
                        assert(chain(self@, q, ROOT_KEY, (fuel - 1) as nat));
                        assert(in_subtree(self@, k, cur) <==> in_subtree(self@, k, q)) by {
                            if in_subtree(self@, k, q) {
                                let n = choose|n: nat| chain(self@, q, k, n);
                                assert(chain(self@, cur, k, n + 1));
                            }
                            if in_subtree(self@, k, cur) {
                                let n = choose|n: nat| chain(self@, cur, k, n);
                                assert(chain(self@, q, k, (n - 1) as nat));
                            }
                        };
                        fuel = (fuel - 1) as nat;
                    }
                    cur = q;
                }
            }
        }
    }

    /// Re-parents `key` at the resolved position. The node is detached
    /// from its current parent first, the target resolved against the
    /// detached index (so a sibling index is the current one), then the
    /// node is listed there and its parent updated. Fails, changing
    /// nothing, with `NotFound` when `key` or the target is absent,
    /// `CannotMoveRoot` for the root, `RootHasNoSiblings` when a sibling
    /// position names the root, and `CycleRejected` when the target lies
    /// in `key`'s own subtree.
    pub fn move_node(&mut self, key: Key, position: &Position) -> (r: Result<(), Error>)
        requires
            old(self).wf(),
        ensures
            final(self).wf(),
            final(self).spec_max_key() == old(self).spec_max_key(),
            (match spec_move_result(old(self)@, key, *position) {
                Ok(m2) => r is Ok && final(self)@ == m2,
                Err(e) => r == Err::<(), Error>(e) && final(self)@ == old(self)@,
            }),
    {
        let ghost s0 = self.nodes@;
        let ghost m = self@;
        let ki = match self.find(key) {
            Some(i) => i,
            None => {
                return Err(Error::NotFound);
            }
        };
        if key == ROOT_KEY {
            return Err(Error::CannotMoveRoot);
        }
        let ti = match self.find(position.position) {
            Some(i) => i,
            None => {
                return Err(Error::NotFound);
            }
        };
        proof {
            lemma_map_of_index(s0, ti as int);
        }
        if !position.is_parent && self.nodes[ti].is_root() {
            return Err(Error::RootHasNoSiblings);
        }
        if self.subtree_holds(key, position.position) {
            return Err(Error::CycleRejected);
        }
        proof {
            lemma_move_inv(m, key, *position);
            lemma_map_of_index(s0, ki as int);
        }
        let p0 = match self.nodes[ki].parent {
            Some(p0) => p0,
            None => {
                return Err(Error::NotFound);
            }
        };
        let p0i = match self.find(p0) {
            Some(i) => i,
            None => {
                proof {
                    assert(m.contains_key(key) && m[key].parent is Some);
                    assert(m.contains_key(m[key].parent.unwrap()));
                }
                return Err(Error::NotFound);
            }
        };
        proof {
            lemma_map_of_index(s0, p0i as int);
        }
        let mut p0n = self.nodes[p0i].clone();
        p0n.remove_child(&key);
        self.set_node(p0i, p0n);
        proof {
            lemma_map_of_update(s0, p0i as int, self.nodes@[p0i as int]);
            assert(self@ == spec_detach(m, key));
            assert(keys_of(self.nodes@) =~= keys_of(s0));
        }
        let ghost s1 = self.nodes@;
        let ghost m1 = self@;
        proof {
            let t = position.position;
            if !position.is_parent {
                assert(t != key) by {
                    assert(chain(m, t, t, 0));
                };
                assert(m1[t].parent == m[t].parent);
                let q = m[t].parent.unwrap();
                assert(m.contains_key(q) && m[q].children.contains(t));
                assert(m1[q].children.contains(t)) by {
                    if q == m[key].parent.unwrap() {
                        crate::ops::lemma_remove_value_contains(m[q].children, key, t);
                    }
                };
            }
        }
        match self.resolve_position(position) {
            Err(e) => {
                proof {
                    assert(resolve_target(m1, *position) is Ok);
                }
                Err(e)
            }
            Ok((pi, ci)) => {
                let p = self.nodes[pi].key;
                proof {
                    lemma_map_of_index(s1, pi as int);
                    assert(p == resolve_target(m1, *position).unwrap().0);
                    assert(p != key);
                }
                let mut pn = self.nodes[pi].clone();
                pn.add_child(ci, &key);
                self.set_node(pi, pn);
                proof {
                    lemma_map_of_update(s1, pi as int, self.nodes@[pi as int]);
                    assert(self@ == m1.insert(p, with_children(m1[p], m1[p].children.insert(
                        ci as int,
                        key,
                    ))));
                    assert(keys_of(self.nodes@) =~= keys_of(s0));
                }
                let ghost s2 = self.nodes@;
                proof {
                    assert(s0[ki as int].key == key);
                    assert(s1[ki as int].key == key) by {
                        assert(s0[p0i as int].key == p0);
                        assert(p0 != key);
                    };
                    assert(s2[ki as int].key == key);
                    assert(s2[ki as int]@ == m[key]) by {
                        assert(s1[ki as int]@ == s0[ki as int]@);
                        assert(s2[ki as int]@ == s1[ki as int]@);
                    };
                }
                let mut kn = self.nodes[ki].clone();
                kn.set_parent(&p);
                self.set_node(ki, kn);
                proof {
                    lemma_map_of_update(s2, ki as int, self.nodes@[ki as int]);
                    assert(m1[key] == m[key]);
                    assert(self.nodes@[ki as int]@ == with_parent(m1[key], Some(p)));
                    assert(self@ == spec_attach(m1, key, m1[key], p, ci as int));
                    assert(self@ == spec_move_result(m, key, *position).unwrap());
                    assert(keys_of(self.nodes@) =~= keys_of(s0));
                    assert forall|i: int| 0 <= i < self.nodes@.len() implies #[trigger] self.nodes@[i].key
                        <= self.max_key by {
                        assert(self.nodes@[i].key == s0[i].key);
                    };
                }
                Ok(())
            }
        }
    }

    /// Sets the status of `key`, with the timestamp of the change. Fails
    /// with `NotFound`, changing nothing, exactly when `key` is absent.
    pub fn set_status(&mut self, key: Key, status: Status, stime: i64) -> (r: Result<(), Error>)
        requires
            old(self).wf(),
        ensures
            final(self).wf(),
            final(self).spec_max_key() == old(self).spec_max_key(),
            (match r {
                Ok(_) => old(self)@.contains_key(key) && final(self)@ == old(self)@.insert(
                    key,
                    (NodeView { status: status, stime: stime as int, ..old(self)@[key] }),
                ),
                Err(e) => e == Error::NotFound && !old(self)@.contains_key(key) && final(self)@
                    == old(self)@,
            }),
    {
        let ghost s0 = self.nodes@;
        let ghost m = self@;
        let i = match self.find(key) {
            Some(i) => i,
            None => {
                return Err(Error::NotFound);
            }
        };
        proof {
            lemma_map_of_index(s0, i as int);
        }
        let mut n = self.nodes[i].clone();
        n.status = status;
        n.stime = stime;
        self.set_node(i, n);
        proof {
            lemma_map_of_update(s0, i as int, self.nodes@[i as int]);
            assert(self@ == m.insert(key, (NodeView { status: status, stime: stime as int, ..m[key] })));
            assert(keys_of(self.nodes@) =~= keys_of(s0));
            assert(self@.dom() =~= m.dom());
            crate::ops::lemma_inv_same_structure(m, self@);
            assert forall|j: int| 0 <= j < self.nodes@.len() implies #[trigger] self.nodes@[j].key
                <= self.max_key by {
                assert(self.nodes@[j].key == s0[j].key);
            };
        }
        Ok(())
    }

    /// Renames `key`. Fails with `NotFound`, changing nothing, exactly
    /// when `key` is absent.
    pub fn set_name(&mut self, key: Key, name: &str) -> (r: Result<(), Error>)
        requires
            old(self).wf(),
        ensures
            final(self).wf(),
            final(self).spec_max_key() == old(self).spec_max_key(),
            (match r {
                Ok(_) => old(self)@.contains_key(key) && final(self)@ == old(self)@.insert(
                    key,
                    (NodeView { name: name@, ..old(self)@[key] }),
                ),
                Err(e) => e == Error::NotFound && !old(self)@.contains_key(key) && final(self)@
                    == old(self)@,
            }),
    {
        let ghost s0 = self.nodes@;
        let ghost m = self@;
        let i = match self.find(key) {
            Some(i) => i,
            None => {
                return Err(Error::NotFound);
            }
        };
        proof {
            lemma_map_of_index(s0, i as int);
        }
        let mut n = self.nodes[i].clone();
        n.name = name.to_owned();
        self.set_node(i, n);
        proof {
            lemma_map_of_update(s0, i as int, self.nodes@[i as int]);
            assert(self@ == m.insert(key, (NodeView { name: name@, ..m[key] })));
            assert(keys_of(self.nodes@) =~= keys_of(s0));
            assert(self@.dom() =~= m.dom());
            crate::ops::lemma_inv_same_structure(m, self@);
            assert forall|j: int| 0 <= j < self.nodes@.len() implies #[trigger] self.nodes@[j].key
                <= self.max_key by {
                assert(self.nodes@[j].key == s0[j].key);
            };
        }
        Ok(())
    }

    /// Collects the keys of the subtree rooted at `key`: `key` itself and
    /// every present key whose parent chain passes through it.
    #[verifier::rlimit(60)]
    fn collect_subtree(&self, key: Key) -> (d: Vec<Key>)
        requires
            self.wf(),
            self@.contains_key(key),
        ensures
            d@.no_duplicates(),
            forall|x: Key| #[trigger] d@.contains(x) <==> (self@.contains_key(x) && in_subtree(
                self@,
                key,
                x,
            )),
    {
        let ghost m = self@;
        let mut doomed: Vec<Key> = Vec::new();
        doomed.push(key);
        proof {
            assert(chain(m, key, key, 0));
            doomed@.unique_seq_to_set();
            lemma_map_of_dom(self.nodes@);
            lemma_map_of_len(self.nodes@);
            vstd::set_lib::lemma_len_subset(doomed@.to_set(), m.dom());
        }
        let mut i: usize = 0;
        while i < doomed.len()
            invariant
                self.wf(),
                self@ == m,
                m.contains_key(key),
                i <= doomed@.len(),
                doomed@.len() <= self.nodes@.len(),
                0 < doomed@.len(),
                doomed@[0] == key,
                doomed@.no_duplicates(),
                forall|j: int|
                    0 <= j < doomed@.len() ==> m.contains_key(#[trigger] doomed@[j]) && in_subtree(
                        m,
                        key,
                        doomed@[j],
                    ),
                forall|j: int|
                    1 <= j < doomed@.len() ==> exists|j2: int|
                        0 <= j2 < i && j2 < j && m[#[trigger] doomed@[j]].parent == Some(
                            doomed@[j2],
                        ),
                forall|j: int, c: Key|
                    0 <= j < i && #[trigger] m[doomed@[j]].children.contains(c) ==> doomed@.contains(
                        c,
                    ),
            decreases self.nodes@.len() - i,
        {
            let w = doomed[i];
            let wi = match self.find(w) {
                Some(x) => x,
                None => {
                    proof {
                        assert(m.contains_key(doomed@[i as int]));
                    }
                    return doomed;
                }
            };
            proof {
                lemma_map_of_index(self.nodes@, wi as int);
            }
            let cs = clone_keys(&self.nodes[wi].children);
            let ghost d0 = doomed@;
            let mut jj: usize = 0;
            while jj < cs.len()
                invariant
                    self.wf(),
                    self@ == m,
                    m.contains_key(key),
                    i < d0.len(),
                    d0[0] == key,
                    w == d0[i as int],
                    m.contains_key(w),
                    in_subtree(m, key, w),
                    cs@ == m[w].children,
                    jj <= cs@.len(),
                    doomed@ == d0 + cs@.take(jj as int),
                    doomed@.no_duplicates(),
                    forall|j: int|
                        0 <= j < doomed@.len() ==> m.contains_key(#[trigger] doomed@[j])
                            && in_subtree(m, key, doomed@[j]),
                    forall|j: int|
                        1 <= j < d0.len() ==> exists|j2: int|
                            0 <= j2 < i && j2 < j && m[#[trigger] d0[j]].parent == Some(d0[j2]),
                    forall|j: int|
                        d0.len() <= j < doomed@.len() ==> m[#[trigger] doomed@[j]].parent == Some(
                            w,
                        ),
                    forall|j: int, c: Key|
                        0 <= j < i && #[trigger] m[d0[j]].children.contains(c) ==> doomed@.contains(
                            c,
                        ),
                decreases cs@.len() - jj,
            {
                let c = cs[jj];
                proof {
                    assert(m[w].children[jj as int] == c);
                    assert(m[w].children.contains(c));
                    assert(m.contains_key(c) && m[c].parent == Some(w));
                    assert(!doomed@.contains(c)) by {
                        if doomed@.contains(c) {
                            let j = choose|j: int| 0 <= j < doomed@.len() && doomed@[j] == c;
                            if j < d0.len() {
                                assert(doomed@[j] == d0[j]);
                                assert(d0[j] == c);
                                if j == 0 {
                                    let n = choose|n: nat| chain(m, w, key, n);
                                    if key == ROOT_KEY {
                                        assert(!(m[key].parent is Some));
                                    } else {
                                        assert(m.contains_key(key));
                                        assert(reaches(m, key, ROOT_KEY));
                                        let nr = choose|nr: nat| chain(m, key, ROOT_KEY, nr);
                                        crate::chain::lemma_reach_root_no_cycle(
                                            m,
                                            ROOT_KEY,
                                            key,
                                            w,
                                            nr,
                                        );
                                    }
                                } else {
                                    let j2 = choose|j2: int|
                                        0 <= j2 < i && j2 < j && m[d0[j]].parent == Some(d0[j2]);
                                    assert(d0[j2] == w);
                                    assert(d0[i as int] == w);
                                    assert(doomed@[j2] == d0[j2]);
                                    assert(doomed@[i as int] == d0[i as int]);
                                }
                            } else {
                                assert(doomed@[j] == cs@.take(jj as int)[j - d0.len()]);
                                assert(cs@.take(jj as int)[j - d0.len()] == cs@[j - d0.len()]);
                                assert(m[w].children.no_duplicates());
                            }
                        }
                    };
                }
                doomed.push(c);
                proof {
                    let ghost dpre = d0 + cs@.take(jj as int);
                    assert(doomed@ =~= dpre.push(c));
                    assert(doomed@ == d0 + cs@.take(jj + 1)) by {
                        assert(cs@.take(jj + 1) =~= cs@.take(jj as int).push(cs@[jj as int]));
                        assert(doomed@ =~= d0 + cs@.take(jj as int).push(cs@[jj as int]));
                    };
                    assert forall|x2: int, y2: int|
                        0 <= x2 < y2 < doomed@.len() implies doomed@[x2] != doomed@[y2] by {
                        if y2 == doomed@.len() - 1 {
                            assert(doomed@[x2] == dpre[x2]);
                            assert(dpre.contains(dpre[x2]));
                        } else {
                            assert(doomed@[x2] == dpre[x2]);
                            assert(doomed@[y2] == dpre[y2]);
                        }
                    };
                    let n = choose|n: nat| chain(m, w, key, n);
                    assert(chain(m, c, key, n + 1));
                    assert(in_subtree(m, key, c));
                    assert forall|j: int|
                        0 <= j < doomed@.len() implies m.contains_key(#[trigger] doomed@[j])
                        && in_subtree(m, key, doomed@[j]) by {
                        if j < doomed@.len() - 1 {
                            assert(doomed@[j] == dpre[j]);
                        } else {
                            assert(doomed@[j] == c);
                        }
                    };
                    assert forall|j: int|
                        d0.len() <= j < doomed@.len() implies m[#[trigger] doomed@[j]].parent
                        == Some(w) by {
                        if j < doomed@.len() - 1 {
                            assert(doomed@[j] == dpre[j]);
                        } else {
                            assert(doomed@[j] == c);
                        }
                    };
                    assert forall|j: int, c2: Key|
                        0 <= j < i && #[trigger] m[d0[j]].children.contains(c2) implies doomed@.contains(
                        c2,
                    ) by {
                        assert(dpre.contains(c2));
                        let jx = choose|jx: int| 0 <= jx < dpre.len() && dpre[jx] == c2;
                        assert(doomed@[jx] == c2);
                    };
                }
                jj = jj + 1;
            }
            i = i + 1;
            proof {
                assert(cs@.take(cs@.len() as int) == cs@);
                assert(doomed@ == d0 + cs@);
                assert forall|j: int| 1 <= j < doomed@.len() implies exists|j2: int|
                    0 <= j2 < i && j2 < j && m[#[trigger] doomed@[j]].parent == Some(
                        doomed@[j2],
                    ) by {
                    if j < d0.len() {
                        let j2 = choose|j2: int|
                            0 <= j2 < i - 1 && j2 < j && m[d0[j]].parent == Some(d0[j2]);
                        assert(doomed@[j2] == d0[j2]);
                        assert(m[doomed@[j]].parent == Some(doomed@[j2]));
                    } else {
                        assert(m[doomed@[j]].parent == Some(w));
                        assert(doomed@[i - 1] == w);
                    }
                };
                assert forall|j: int, c: Key|
                    0 <= j < i && #[trigger] m[doomed@[j]].children.contains(c) implies doomed@.contains(
                    c,
                ) by {
                    if j < i - 1 {
                        assert(d0[j] == doomed@[j]);
                        assert(m[d0[j]].children.contains(c));
                    } else {
                        assert(doomed@[j] == w);
                        let jc = choose|jc: int|
                            0 <= jc < m[w].children.len() && m[w].children[jc] == c;
                        assert(doomed@[d0.len() + jc] == c);
                    }
                };
                doomed@.unique_seq_to_set();
                lemma_map_of_dom(self.nodes@);
                lemma_map_of_len(self.nodes@);
                vstd::set_lib::lemma_len_subset(doomed@.to_set(), m.dom());
            }
        }
        proof {
            assert forall|x: Key|
                m.contains_key(x) && in_subtree(m, key, x) implies doomed@.contains(x) by {
                let n = choose|n: nat| chain(m, x, key, n);
                crate::ops::lemma_subtree_collected(m, key, doomed@, x, n);
            };
        }
        doomed
    }

    /// Appends the depth-first, pre-order traversal of the subtree rooted
    /// at `k` to `out`. `anc` carries the keys already on the recursion's
    /// path; they bound the depth of what is left.
    fn dfs(&self, k: Key, out: &mut Vec<Key>, anc: Ghost<Set<Key>>)
        requires
            self.wf(),
            self@.contains_key(k),
            anc@.finite(),
            anc@.subset_of(self@.dom()),
            !anc@.contains(k),
            forall|y: Key| #[trigger] anc@.contains(y) ==> reaches(self@, k, y),
        ensures
            final(out)@ == old(out)@ + dfs_node(
                self@,
                k,
                (self@.dom().len() - anc@.len()) as nat,
            ),
        decreases self@.dom().len() - anc@.len(),
    {
        proof {
            vstd::set_lib::lemma_len_subset(anc@, self@.dom());
            assert(anc@.insert(k).subset_of(self@.dom()));
            vstd::set_lib::lemma_len_subset(anc@.insert(k), self@.dom());
            assert(anc@.insert(k).len() == anc@.len() + 1);
        }
        let ghost fuel = (self@.dom().len() - anc@.len()) as nat;
        out.push(k);
        let i = match self.find(k) {
            Some(i) => i,
            None => {
                return ;
            }
        };
        proof {
            lemma_map_of_index(self.nodes@, i as int);
        }
        let cs = clone_keys(&self.nodes[i].children);
        let mut j: usize = 0;
        proof {
            assert(cs@.take(0) =~= Seq::<Key>::empty());
            assert(out@ =~= old(out)@ + seq![k] + dfs_list(self@, cs@.take(0), (fuel - 1) as nat));
        }
        while j < cs.len()
            invariant
                self.wf(),
                self@.contains_key(k),
                anc@.finite(),
                anc@.subset_of(self@.dom()),
                !anc@.contains(k),
                anc@.insert(k).len() == anc@.len() + 1,
                anc@.len() + 1 <= self@.dom().len(),
                forall|y: Key| #[trigger] anc@.contains(y) ==> reaches(self@, k, y),
                cs@ == self@[k].children,
                j <= cs@.len(),
                fuel == (self@.dom().len() - anc@.len()) as nat,
                fuel >= 1,
                out@ == old(out)@ + seq![k] + dfs_list(self@, cs@.take(j as int), (fuel - 1) as nat),
            decreases cs@.len() - j,
        {
            let c = cs[j];
            proof {
                assert(self@[k].children[j as int] == c);
                assert(self@.contains_key(c) && self@[c].parent == Some(k));
                assert(chain(self@, k, k, 0));
                assert(chain(self@, c, k, 1));
                assert(!anc@.insert(k).contains(c)) by {
                    if c == k || anc@.contains(c) {
                        assert(reaches(self@, k, c)) by {
                            if c == k {
                                assert(chain(self@, k, c, 0));
                            }
                        };
                        assert(c != ROOT_KEY);
                        assert(reaches(self@, c, ROOT_KEY));
                        let n = choose|n: nat| chain(self@, c, ROOT_KEY, n);
                        crate::chain::lemma_reach_root_no_cycle(self@, ROOT_KEY, c, k, n);
                    }
                };
                assert forall|y: Key| #[trigger] anc@.insert(k).contains(y) implies reaches(
                    self@,
                    c,
                    y,
                ) by {
                    if y == k {
                        assert(chain(self@, c, k, 1));
                    } else {
                        let n = choose|n: nat| chain(self@, k, y, n);
                        crate::chain::lemma_chain_trans(self@, c, k, y, 1, n);
                    }
                };
            }
            proof {
                assert(anc@.insert(k).subset_of(self@.dom()));
                vstd::set_lib::lemma_len_subset(anc@.insert(k), self@.dom());
            }
            let ghost outp = out@;
            self.dfs(c, out, Ghost(anc@.insert(k)));
            proof {
                crate::ops::lemma_dfs_list_push(self@, cs@.take(j as int), c, (fuel - 1) as nat);
                assert(cs@.take(j + 1) =~= cs@.take(j as int).push(c));
                assert((self@.dom().len() - anc@.insert(k).len()) as nat == (fuel - 1) as nat);
                assert(out@ =~= old(out)@ + seq![k] + dfs_list(
                    self@,
                    cs@.take(j + 1),
                    (fuel - 1) as nat,
                ));
            }
            j = j + 1;
        }
        proof {
            assert(cs@.take(cs@.len() as int) =~= cs@);
            assert(dfs_node(self@, k, fuel) == seq![k] + dfs_list(self@, cs@, (fuel - 1) as nat));
            assert(out@ =~= old(out)@ + dfs_node(self@, k, fuel));
        }
    }

    /// The keys of the subtree rooted at `from`, depth-first, pre-order,
    /// children in list order. Fails with `NotFound` when `from` is
    /// absent.
    pub fn traverse(&self, from: Key) -> (r: Result<Vec<Key>, Error>)
        requires
            self.wf(),
        ensures
            (match r {
                Ok(out) => self@.contains_key(from) && out@ == dfs_node(
                    self@,
                    from,
                    self@.dom().len() as nat,
                ),
                Err(e) => e == Error::NotFound && !self@.contains_key(from),
            }),
    {
        if !self.contains(from) {
            return Err(Error::NotFound);
        }
        let mut out: Vec<Key> = Vec::new();
        proof {
            assert(Set::<Key>::empty().finite());
            assert(Set::<Key>::empty().subset_of(self@.dom()));
            assert(Set::<Key>::empty().len() == 0);
        }
        self.dfs(from, &mut out, Ghost(Set::empty()));
        proof {
            assert(out@ =~= dfs_node(self@, from, self@.dom().len() as nat));
        }
        Ok(out)
    }

    /// Removes `key` with its whole subtree, and scrubs every removed key
    /// out of the remaining children and link lists. Fails, changing
    /// nothing, with `NotFound` when `key` is absent and
    /// `CannotRemoveRoot` for the root.
    pub fn remove_node(&mut self, key: Key) -> (r: Result<(), Error>)
        requires
            old(self).wf(),
        ensures
            final(self).wf(),
            final(self).spec_max_key() == old(self).spec_max_key(),
            (match spec_remove_result(old(self)@, key) {
                Ok(m2) => r is Ok && final(self)@ == m2,
                Err(e) => r == Err::<(), Error>(e) && final(self)@ == old(self)@,
            }),
    {
        let ghost s0 = self.nodes@;
        let ghost m = self@;
        match self.find(key) {
            None => {
                return Err(Error::NotFound);
            }
            Some(_) => {}
        }
        if key == ROOT_KEY {
            return Err(Error::CannotRemoveRoot);
        }
        let doomed = self.collect_subtree(key);
        let ghost dseq = doomed@;
        let mut out: Vec<Node> = Vec::new();
        let mut j: usize = 0;
        proof {
            assert(map_of(out@) =~= Map::<Key, NodeView>::empty());
        }
        while j < self.nodes.len()
            invariant
                self.wf(),
                self@ == m,
                self.nodes@ == s0,
                m.contains_key(key),
                key != ROOT_KEY,
                doomed@ == dseq,
                dseq.no_duplicates(),
                forall|x: Key| #[trigger] dseq.contains(x) <==> (m.contains_key(x) && in_subtree(
                    m,
                    key,
                    x,
                )),
                j <= self.nodes@.len(),
                keys_of(out@).no_duplicates(),
                forall|x: Key| #[trigger] map_of(out@).contains_key(x) <==> (exists|idx: int|
                    0 <= idx < j && s0[idx].key == x && !dseq.contains(x)),
                forall|x: Key| #[trigger] map_of(out@).contains_key(x) ==> map_of(out@)[x]
                    == scrubbed(m, key)[x],
                forall|idx: int| 0 <= idx < out@.len() ==> #[trigger] out@[idx].key <= self.max_key,
            decreases self.nodes@.len() - j,
        {
            proof {
                lemma_map_of_index(s0, j as int);
            }
            let nd_key = self.nodes[j].key;
            let ghost outp = out@;
            if !contains_key(&doomed, nd_key) {
                let mut nn = self.nodes[j].clone();
                let fc = filter_out(&nn.children, &doomed);
                let fl = filter_out(&nn.links, &doomed);
                nn.children = fc;
                nn.links = fl;
                proof {
                    assert(m[nd_key] == s0[j as int]@);
                    assert forall|c: Key| #[trigger] m[nd_key].children.contains(c) implies (not_in(
                        dseq,
                    )(c) <==> crate::ops::keeps(m, key)(c)) by {
                        let jc = choose|jc: int|
                            0 <= jc < m[nd_key].children.len() && m[nd_key].children[jc] == c;
                        assert(m.contains_key(m[nd_key].children[jc]));
                    };
                    crate::ops::lemma_filter_equiv(
                        m[nd_key].children,
                        not_in(dseq),
                        crate::ops::keeps(m, key),
                    );
                    assert forall|c: Key| #[trigger] m[nd_key].links.contains(c) implies (not_in(
                        dseq,
                    )(c) <==> crate::ops::keeps(m, key)(c)) by {
                        let jc = choose|jc: int|
                            0 <= jc < m[nd_key].links.len() && m[nd_key].links[jc] == c;
                        assert(m.contains_key(m[nd_key].links[jc]));
                    };
                    crate::ops::lemma_filter_equiv(
                        m[nd_key].links,
                        not_in(dseq),
                        crate::ops::keeps(m, key),
                    );
                    assert(nn@ == scrubbed(m, key)[nd_key]);
                }
                out.push(nn);
                proof {
                    lemma_map_of_push(outp, out@.last());
                    lemma_map_of_dom(outp);
                    assert(!map_of(outp).contains_key(nd_key)) by {
                        if map_of(outp).contains_key(nd_key) {
                            let idx = choose|idx: int|
                                0 <= idx < j && s0[idx].key == nd_key && !dseq.contains(nd_key);
                            assert(keys_of(s0)[idx] == nd_key);
                            assert(keys_of(s0)[j as int] == nd_key);
                        }
                    };
                    assert(keys_of(out@) =~= keys_of(outp).push(nd_key));
                    assert forall|x2: int, y2: int|
                        0 <= x2 < y2 < keys_of(out@).len() implies keys_of(out@)[x2] != keys_of(
                        out@,
                    )[y2] by {
                        if y2 == keys_of(out@).len() - 1 {
                            assert(keys_of(out@)[x2] == keys_of(outp)[x2]);
                            assert(keys_of(outp).contains(keys_of(outp)[x2]));
                            assert(map_of(outp).contains_key(keys_of(outp)[x2]));
                        }
                    };
                    assert forall|x: Key| #[trigger] map_of(out@).contains_key(x) implies (exists|
                        idx: int,
                    |
                        0 <= idx < j + 1 && s0[idx].key == x && !dseq.contains(x)) by {
                        if x == nd_key {
                            assert(s0[j as int].key == x && !dseq.contains(x));
                        } else {
                            let idx = choose|idx: int|
                                0 <= idx < j && s0[idx].key == x && !dseq.contains(x);
                            assert(0 <= idx < j + 1 && s0[idx].key == x && !dseq.contains(x));
                        }
                    };
                }
            } else {
                proof {
                    assert(dseq.contains(nd_key));
                    assert forall|x: Key| #[trigger] map_of(out@).contains_key(x) implies (exists|
                        idx: int,
                    |
                        0 <= idx < j + 1 && s0[idx].key == x && !dseq.contains(x)) by {
                        let idx = choose|idx: int|
                            0 <= idx < j && s0[idx].key == x && !dseq.contains(x);
                        assert(0 <= idx < j + 1 && s0[idx].key == x && !dseq.contains(x));
                    };
                }
            }
            proof {
                assert forall|x: Key|
                    (exists|idx: int| 0 <= idx < j + 1 && s0[idx].key == x && !dseq.contains(x))
                        implies #[trigger] map_of(out@).contains_key(x) by {
                    let idx = choose|idx: int|
                        0 <= idx < j + 1 && s0[idx].key == x && !dseq.contains(x);
                    if idx < j {
                        assert(map_of(outp).contains_key(x));
                        if dseq.contains(s0[j as int].key) {
                            assert(out@ == outp);
                        }
                    } else {
                        assert(s0[j as int].key == x);
                        assert(!dseq.contains(x));
                    }
                };
            }
            j = j + 1;
        }
        self.nodes = out;
        proof {
            lemma_map_of_dom(s0);
            assert(self@ =~= scrubbed(m, key)) by {
                assert forall|x: Key| #[trigger] scrubbed(m, key).contains_key(x) implies self@.contains_key(
                    x,
                ) by {
                    assert(m.contains_key(x) && !in_subtree(m, key, x));
                    let idx = choose|idx: int| 0 <= idx < keys_of(s0).len() && keys_of(s0)[idx]
                        == x;
                    assert(s0[idx].key == x);
                    assert(!dseq.contains(x));
                };
                assert forall|x: Key| #[trigger] self@.contains_key(x) implies scrubbed(
                    m,
                    key,
                ).contains_key(x) && self@[x] == scrubbed(m, key)[x] by {
                    let idx = choose|idx: int|
                        0 <= idx < s0.len() && s0[idx].key == x && !dseq.contains(x);
                    assert(keys_of(s0)[idx] == x);
                    assert(m.contains_key(x));
                };
            };
            crate::ops::lemma_remove_inv(m, key);
        }
        Ok(())
    }

    /// Unlinks `a` and `b` in both directions; a no-op on a side that does
    /// not carry the link. Fails with `NotFound`, changing nothing,
    /// exactly when either key is absent.
    pub fn remove_link(&mut self, a: Key, b: Key) -> (r: Result<(), Error>)
        requires
            old(self).wf(),
        ensures
            final(self).wf(),
            final(self).spec_max_key() == old(self).spec_max_key(),
            match r {
                Ok(_) => old(self)@.contains_key(a) && old(self)@.contains_key(b) && final(self)@
                    == spec_remove_link(old(self)@, a, b),
                Err(e) => e == Error::NotFound && !(old(self)@.contains_key(a)
                    && old(self)@.contains_key(b)) && final(self)@ == old(self)@,
            },
    {
        let ghost s0 = self.nodes@;
        let ghost m = self@;
        let ai = match self.find(a) {
            Some(i) => i,
            None => {
                return Err(Error::NotFound);
            }
        };
        let bi = match self.find(b) {
            Some(i) => i,
            None => {
                return Err(Error::NotFound);
            }
        };
        proof {
            lemma_map_of_index(s0, ai as int);
        }
        let mut an = self.nodes[ai].clone();
        an.remove_link(&b);
        self.set_node(ai, an);
        proof {
            lemma_map_of_update(s0, ai as int, self.nodes@[ai as int]);
            assert(self@ == m.insert(a, with_links(m[a], m[a].links.remove_value(b))));
            assert(keys_of(self.nodes@) =~= keys_of(s0));
            assert(self.nodes@[bi as int].key == b);
            lemma_map_of_index(self.nodes@, bi as int);
        }
        let ghost s1 = self.nodes@;
        let ghost m1 = self@;
        let mut bn = self.nodes[bi].clone();
        bn.remove_link(&a);
        self.set_node(bi, bn);
        proof {
            lemma_map_of_update(s1, bi as int, self.nodes@[bi as int]);
            assert(self@ == m1.insert(b, with_links(m1[b], m1[b].links.remove_value(a))));
            assert(self@ == spec_remove_link(m, a, b));
            assert(keys_of(self.nodes@) =~= keys_of(s0));
            lemma_remove_link_inv(m, a, b);
            assert forall|i: int| 0 <= i < self.nodes@.len() implies #[trigger] self.nodes@[i].key
                <= self.max_key by {
                assert(self.nodes@[i].key == s0[i].key);
            };
        }
        Ok(())
    }
}

} // verus!
