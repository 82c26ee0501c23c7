//! The index's operations as functions on its mathematical value: the
//! well-formedness invariant, one transformer per mutation, and the proofs
//! that every transformer preserves the invariant.

use vstd::prelude::*;
use vstd::set_lib::lemma_set_subset_finite;

use crate::chain::{
    chain, in_subtree, lemma_chain_frame, lemma_chain_trans, lemma_reach_root_no_cycle, reaches,
};
use crate::node::{Node, NodeView, Status};
use crate::{Error, Key, Position, ROOT_KEY};

verus! {

/// Every binding records its own key.
pub open spec fn keys_consistent(m: Map<Key, NodeView>) -> bool {
    forall|k: Key| #[trigger] m.contains_key(k) ==> m[k].key == k
}

/// The root is present and is the one node without a parent.
pub open spec fn single_root(m: Map<Key, NodeView>) -> bool {
    &&& m.contains_key(ROOT_KEY)
    &&& m[ROOT_KEY].parent is None
    &&& forall|k: Key| #[trigger] m.contains_key(k) && k != ROOT_KEY ==> m[k].parent is Some
}

/// A node's parent exists and lists the node among its children.
pub open spec fn parent_listed(m: Map<Key, NodeView>) -> bool {
    forall|k: Key|
        #[trigger] m.contains_key(k) && m[k].parent is Some ==> m.contains_key(
            m[k].parent.unwrap(),
        ) && m[m[k].parent.unwrap()].children.contains(k)
}

/// Child lists are duplicate-free and every listed child exists and points
/// back to its parent.
pub open spec fn children_wf(m: Map<Key, NodeView>) -> bool {
    &&& forall|k: Key| #[trigger] m.contains_key(k) ==> m[k].children.no_duplicates()
    &&& forall|k: Key, i: int|
        m.contains_key(k) && 0 <= i < m[k].children.len() ==> m.contains_key(
            #[trigger] m[k].children[i],
        ) && m[m[k].children[i]].parent == Some(k)
}

/// Link lists are duplicate-free and symmetric: every linked key exists
/// and links back.
pub open spec fn links_wf(m: Map<Key, NodeView>) -> bool {
    &&& forall|k: Key| #[trigger] m.contains_key(k) ==> m[k].links.no_duplicates()
    &&& forall|k: Key, i: int|
        m.contains_key(k) && 0 <= i < m[k].links.len() ==> m.contains_key(
            #[trigger] m[k].links[i],
        ) && m[m[k].links[i]].links.contains(k)
}

/// Every node reaches the root along parent pointers: the parent relation
/// is a tree rooted at `ROOT_KEY`, with no cycle.
pub open spec fn rooted(m: Map<Key, NodeView>) -> bool {
    forall|k: Key| #[trigger] m.contains_key(k) ==> reaches(m, k, ROOT_KEY)
}

/// Well-formedness of an index value: the documented invariants.
pub open spec fn inv(m: Map<Key, NodeView>) -> bool {
    &&& m.dom().finite()
    &&& keys_consistent(m)
    &&& single_root(m)
    &&& parent_listed(m)
    &&& children_wf(m)
    &&& links_wf(m)
    &&& rooted(m)
}

/// `nv` with another child list.
pub open spec fn with_children(nv: NodeView, cs: Seq<Key>) -> NodeView {
    NodeView { children: cs, ..nv }
}

/// `nv` with another link list.
pub open spec fn with_links(nv: NodeView, ls: Seq<Key>) -> NodeView {
    NodeView { links: ls, ..nv }
}

/// `nv` with another parent.
pub open spec fn with_parent(nv: NodeView, p: Option<Key>) -> NodeView {
    NodeView { parent: p, ..nv }
}

/// `ls` with `x` appended unless already present.
pub open spec fn add_if_absent(ls: Seq<Key>, x: Key) -> Seq<Key> {
    if ls.contains(x) {
        ls
    } else {
        ls.push(x)
    }
}

/// What linking `a` and `b` does to the index value: first `b` is added to
/// `a`'s links, then `a` to `b`'s, each side only when absent.
pub open spec fn spec_add_link(m: Map<Key, NodeView>, a: Key, b: Key) -> Map<Key, NodeView> {
    let m1 = m.insert(a, with_links(m[a], add_if_absent(m[a].links, b)));
    m1.insert(b, with_links(m1[b], add_if_absent(m1[b].links, a)))
}

/// What unlinking `a` and `b` does to the index value: each side drops the
/// other, absent keys staying untouched.
pub open spec fn spec_remove_link(m: Map<Key, NodeView>, a: Key, b: Key) -> Map<Key, NodeView> {
    let m1 = m.insert(a, with_links(m[a], m[a].links.remove_value(b)));
    m1.insert(b, with_links(m1[b], m1[b].links.remove_value(a)))
}

/// Chains only read parents, so a rewrite that keeps every key and every
/// parent keeps every node rooted.
pub proof fn lemma_rooted_same_parents(m1: Map<Key, NodeView>, m2: Map<Key, NodeView>)
    requires
        rooted(m1),
        forall|y: Key| #![trigger m1.contains_key(y)] #![trigger m2.contains_key(y)]
            m1.contains_key(y) <==> m2.contains_key(y),
        forall|y: Key| #[trigger] m1.contains_key(y) ==> m2[y].parent == m1[y].parent,
    ensures
        rooted(m2),
{
    assert forall|k: Key| #[trigger] m2.contains_key(k) implies reaches(m2, k, ROOT_KEY) by {
        assert(m1.contains_key(k));
        assert(reaches(m1, k, ROOT_KEY));
        let n = choose|n: nat| chain(m1, k, ROOT_KEY, n);
        lemma_chain_frame(m1, m2, k, ROOT_KEY, n);
    };
}

/// Membership in a list after `add_if_absent`.
pub proof fn lemma_add_if_absent_contains(ls: Seq<Key>, x: Key, y: Key)
    ensures
        add_if_absent(ls, x).contains(y) <==> (ls.contains(y) || y == x),
{
    if !ls.contains(x) {
        if ls.contains(y) {
            let j = choose|j: int| 0 <= j < ls.len() && ls[j] == y;
            assert(ls.push(x)[j] == y);
        }
        assert(ls.push(x)[ls.len() as int] == x);
        if ls.push(x).contains(y) && y != x {
            let j = choose|j: int| 0 <= j < ls.push(x).len() && ls.push(x)[j] == y;
            assert(j < ls.len());
            assert(ls[j] == y);
        }
    }
}

/// `add_if_absent` keeps a list duplicate-free.
pub proof fn lemma_add_if_absent_unique(ls: Seq<Key>, x: Key)
    requires
        ls.no_duplicates(),
    ensures
        add_if_absent(ls, x).no_duplicates(),
{
    if !ls.contains(x) {
        assert forall|p: int, q: int|
            0 <= p < q < ls.push(x).len() implies ls.push(x)[p] != ls.push(x)[q] by {
            if q == ls.len() {
                assert(ls.push(x)[p] == ls[p]);
                assert(ls.contains(ls[p]));
            }
        };
    }
}

/// Membership in a duplicate-free list after removing one value.
pub proof fn lemma_remove_value_contains(ls: Seq<Key>, x: Key, y: Key)
    requires
        ls.no_duplicates(),
    ensures
        ls.remove_value(x).contains(y) <==> (ls.contains(y) && y != x),
{
    lemma_remove_value_members(ls, x);
    if ls.contains(y) && y != x {
        lemma_remove_value_keeps_others(ls, x, y);
    }
}

/// The links of the two affected nodes after `spec_add_link`, and the
/// untouched rest.
pub proof fn lemma_add_link_effect(m: Map<Key, NodeView>, a: Key, b: Key)
    requires
        m.contains_key(a),
        m.contains_key(b),
        forall|k: Key| #[trigger] m.contains_key(k) ==> m[k].links.no_duplicates(),
    ensures
        spec_add_link(m, a, b).dom() == m.dom(),
        forall|k: Key| #[trigger] m.contains_key(k) ==> spec_add_link(m, a, b)[k].key == m[k].key
            && spec_add_link(m, a, b)[k].parent == m[k].parent && spec_add_link(m, a, b)[k].children
            == m[k].children && spec_add_link(m, a, b)[k].name == m[k].name && spec_add_link(
            m,
            a,
            b,
        )[k].path == m[k].path && spec_add_link(m, a, b)[k].status == m[k].status && spec_add_link(
            m,
            a,
            b,
        )[k].stime == m[k].stime && spec_add_link(m, a, b)[k].ctime == m[k].ctime && spec_add_link(
            m,
            a,
            b,
        )[k].mtime == m[k].mtime,
        forall|k: Key, y: Key|
            m.contains_key(k) ==> (#[trigger] spec_add_link(m, a, b)[k].links.contains(y) <==> (
            m[k].links.contains(y) || (k == a && y == b) || (k == b && y == a))),
        forall|k: Key| #[trigger] m.contains_key(k) ==> spec_add_link(
            m,
            a,
            b,
        )[k].links.no_duplicates(),
{
    let m2 = spec_add_link(m, a, b);
    assert(m2.dom() =~= m.dom());
    assert forall|k: Key, y: Key| m.contains_key(k) implies (#[trigger] m2[k].links.contains(y)
        <==> (m[k].links.contains(y) || (k == a && y == b) || (k == b && y == a))) by {
        lemma_add_if_absent_contains(m[a].links, b, y);
        if a == b {
            lemma_add_if_absent_contains(add_if_absent(m[a].links, b), a, y);
        } else {
            lemma_add_if_absent_contains(m[b].links, a, y);
        }
    };
    assert forall|k: Key| #[trigger] m.contains_key(k) implies m2[k].links.no_duplicates() by {
        lemma_add_if_absent_unique(m[a].links, b);
        if a == b {
            lemma_add_if_absent_unique(add_if_absent(m[a].links, b), a);
        } else {
            lemma_add_if_absent_unique(m[b].links, a);
        }
    };
}

/// The links of the two affected nodes after `spec_remove_link`, and the
/// untouched rest.
pub proof fn lemma_remove_link_effect(m: Map<Key, NodeView>, a: Key, b: Key)
    requires
        m.contains_key(a),
        m.contains_key(b),
        forall|k: Key| #[trigger] m.contains_key(k) ==> m[k].links.no_duplicates(),
    ensures
        spec_remove_link(m, a, b).dom() == m.dom(),
        forall|k: Key| #[trigger] m.contains_key(k) ==> spec_remove_link(m, a, b)[k].key
            == m[k].key && spec_remove_link(m, a, b)[k].parent == m[k].parent && spec_remove_link(
            m,
            a,
            b,
        )[k].children == m[k].children && spec_remove_link(m, a, b)[k].name == m[k].name
            && spec_remove_link(m, a, b)[k].path == m[k].path && spec_remove_link(m, a, b)[k].status
            == m[k].status && spec_remove_link(m, a, b)[k].stime == m[k].stime && spec_remove_link(
            m,
            a,
            b,
        )[k].ctime == m[k].ctime && spec_remove_link(m, a, b)[k].mtime == m[k].mtime,
        forall|k: Key, y: Key|
            m.contains_key(k) ==> (#[trigger] spec_remove_link(m, a, b)[k].links.contains(y) <==> (
            m[k].links.contains(y) && !(k == a && y == b) && !(k == b && y == a))),
        forall|k: Key| #[trigger] m.contains_key(k) ==> spec_remove_link(
            m,
            a,
            b,
        )[k].links.no_duplicates(),
{
    let m2 = spec_remove_link(m, a, b);
    assert(m2.dom() =~= m.dom());
    lemma_remove_value_still_unique(m[a].links, b);
    assert forall|k: Key, y: Key| m.contains_key(k) implies (#[trigger] m2[k].links.contains(y)
        <==> (m[k].links.contains(y) && !(k == a && y == b) && !(k == b && y == a))) by {
        lemma_remove_value_contains(m[a].links, b, y);
        if a == b {
            lemma_remove_value_contains(m[a].links.remove_value(b), a, y);
        } else {
            lemma_remove_value_contains(m[b].links, a, y);
        }
    };
    assert forall|k: Key| #[trigger] m.contains_key(k) implies m2[k].links.no_duplicates() by {
        lemma_remove_value_still_unique(m[a].links.remove_value(b), a);
        lemma_remove_value_still_unique(m[b].links, a);
    };
}

/// Linking two present nodes preserves the invariant.
pub proof fn lemma_add_link_inv(m: Map<Key, NodeView>, a: Key, b: Key)
    requires
        inv(m),
        m.contains_key(a),
        m.contains_key(b),
    ensures
        inv(spec_add_link(m, a, b)),
{
    let m2 = spec_add_link(m, a, b);
    lemma_add_link_effect(m, a, b);
    lemma_links_inv_from_effect(m, m2);
    assert forall|k: Key, y: Key|
        m2.contains_key(k) && #[trigger] m2[k].links.contains(y) implies m2.contains_key(y)
        && m2[y].links.contains(k) by {
        assert(m.contains_key(k));
        if m[k].links.contains(y) {
            let i = choose|i: int| 0 <= i < m[k].links.len() && m[k].links[i] == y;
            assert(m.contains_key(m[k].links[i]) && m[m[k].links[i]].links.contains(k));
            assert(m2[y].links.contains(k));
        } else {
            assert((k == a && y == b) || (k == b && y == a));
            assert(m2[y].links.contains(k));
        }
    };
    lemma_links_wf_close(m2);
}

/// Unlinking preserves the invariant.
pub proof fn lemma_remove_link_inv(m: Map<Key, NodeView>, a: Key, b: Key)
    requires
        inv(m),
        m.contains_key(a),
        m.contains_key(b),
    ensures
        inv(spec_remove_link(m, a, b)),
{
    let m2 = spec_remove_link(m, a, b);
    lemma_remove_link_effect(m, a, b);
    lemma_links_inv_from_effect(m, m2);
    assert forall|k: Key, y: Key|
        m2.contains_key(k) && #[trigger] m2[k].links.contains(y) implies m2.contains_key(y)
        && m2[y].links.contains(k) by {
        assert(m.contains_key(k));
        assert(m[k].links.contains(y));
        let i = choose|i: int| 0 <= i < m[k].links.len() && m[k].links[i] == y;
        assert(m.contains_key(m[k].links[i]) && m[m[k].links[i]].links.contains(k));
        assert(m2[y].links.contains(k));
    };
    lemma_links_wf_close(m2);
}

/// Everything of the invariant but the link clauses, carried over a
/// rewrite that only changes link lists of existing keys.
proof fn lemma_links_inv_from_effect(m: Map<Key, NodeView>, m2: Map<Key, NodeView>)
    requires
        inv(m),
        m2.dom() == m.dom(),
        forall|k: Key| #[trigger] m.contains_key(k) ==> m2[k].key == m[k].key && m2[k].parent
            == m[k].parent && m2[k].children == m[k].children,
        forall|k: Key| #[trigger] m.contains_key(k) ==> m2[k].links.no_duplicates(),
    ensures
        m2.dom().finite(),
        keys_consistent(m2),
        single_root(m2),
        parent_listed(m2),
        children_wf(m2),
        rooted(m2),
        forall|k: Key| #[trigger] m2.contains_key(k) ==> m2[k].links.no_duplicates(),
{
    assert forall|k: Key|
        #[trigger] m2.contains_key(k) && m2[k].parent is Some implies m2.contains_key(
        m2[k].parent.unwrap(),
    ) && m2[m2[k].parent.unwrap()].children.contains(k) by {
        assert(m.contains_key(k));
        let p = m[k].parent.unwrap();
        assert(m.contains_key(p) && m[p].children.contains(k));
    };
    assert forall|k: Key, i: int|
        m2.contains_key(k) && 0 <= i < m2[k].children.len() implies m2.contains_key(
        #[trigger] m2[k].children[i],
    ) && m2[m2[k].children[i]].parent == Some(k) by {
        assert(m.contains_key(k));
        assert(m.contains_key(m[k].children[i]) && m[m[k].children[i]].parent == Some(k));
    };
    assert forall|k: Key| #[trigger] m2.contains_key(k) implies m2[k].children.no_duplicates() by {
        assert(m.contains_key(k));
    };
    lemma_rooted_same_parents(m, m2);
}

/// Membership in a list after inserting one value.
pub proof fn lemma_insert_contains(ls: Seq<Key>, i: int, x: Key, y: Key)
    requires
        0 <= i <= ls.len(),
    ensures
        ls.insert(i, x).contains(y) <==> (ls.contains(y) || y == x),
{
    ls.insert_ensures(i, x);
    if ls.contains(y) {
        let j = choose|j: int| 0 <= j < ls.len() && ls[j] == y;
        if j < i {
            assert(ls.insert(i, x)[j] == y);
        } else {
            assert(ls.insert(i, x)[j + 1] == y);
        }
    }
    assert(ls.insert(i, x)[i] == x);
    if ls.insert(i, x).contains(y) && y != x {
        let j = choose|j: int| 0 <= j < ls.insert(i, x).len() && ls.insert(i, x)[j] == y;
        if j < i {
            assert(ls[j] == y);
        } else {
            assert(j != i);
            assert(ls[j - 1] == y);
        }
    }
}

/// Inserting a value not yet present keeps a list duplicate-free.
pub proof fn lemma_insert_unique(ls: Seq<Key>, i: int, x: Key)
    requires
        ls.no_duplicates(),
        !ls.contains(x),
        0 <= i <= ls.len(),
    ensures
        ls.insert(i, x).no_duplicates(),
{
    ls.insert_ensures(i, x);
    let ls2 = ls.insert(i, x);
    assert forall|p: int, q: int| 0 <= p < q < ls2.len() implies ls2[p] != ls2[q] by {
        let vp = if p < i {
            ls[p]
        } else if p == i {
            x
        } else {
            ls[p - 1]
        };
        let vq = if q < i {
            ls[q]
        } else if q == i {
            x
        } else {
            ls[q - 1]
        };
        assert(ls2[p] == vp && ls2[q] == vq);
        if p != i && q != i {
            assert(vp != vq);
        } else if p == i {
            assert(ls.contains(ls[q - 1]));
        } else {
            assert(ls.contains(ls[p]));
        }
    };
}

/// Filtering keeps a list duplicate-free.
pub proof fn lemma_filter_unique(ls: Seq<Key>, pred: spec_fn(Key) -> bool)
    requires
        ls.no_duplicates(),
    ensures
        ls.filter(pred).no_duplicates(),
    decreases ls.len(),
{
    reveal(Seq::filter);
    if ls.len() > 0 {
        lemma_filter_unique(ls.drop_last(), pred);
        if pred(ls.last()) {
            let sub = ls.drop_last().filter(pred);
            assert forall|p: int, q: int|
                0 <= p < q < sub.push(ls.last()).len() implies sub.push(ls.last())[p] != sub.push(
                ls.last(),
            )[q] by {
                if q == sub.len() {
                    assert(sub.push(ls.last())[q] == ls.last());
                    assert(sub.contains(sub[p]));
                    ls.drop_last().lemma_filter_contains_rev(pred, sub[p]);
                    assert(ls.drop_last().contains(sub[p]));
                    let j = choose|j: int|
                        0 <= j < ls.drop_last().len() && ls.drop_last()[j] == sub[p];
                    assert(ls[j] == sub[p]);
                    assert(ls[ls.len() - 1] == ls.last());
                }
            };
        }
    }
}

/// Resolution of an insertion target against an index value: the
/// destination parent and the position in its child list, or the error
/// the request earns.
pub open spec fn resolve_target(m: Map<Key, NodeView>, pos: Position) -> Result<(Key, int), Error> {
    if !m.contains_key(pos.position) {
        Err(Error::NotFound)
    } else if pos.is_parent {
        Ok(
            (pos.position, if pos.is_front {
                0int
            } else {
                m[pos.position].children.len() as int
            }),
        )
    } else if m[pos.position].parent is None {
        Err(Error::RootHasNoSiblings)
    } else {
        let p = m[pos.position].parent.unwrap();
        match m[p].children.index_of_first(pos.position) {
            Some(i) => Ok((p, if pos.is_front {
                i
            } else {
                i + 1
            })),
            None => Err(Error::NotFound),
        }
    }
}

/// The view of a just-created node: no children, no links, no parent yet.
pub open spec fn fresh_node_view(
    k: Key,
    name: Seq<char>,
    path: Seq<char>,
    status: Status,
    stime: int,
    ctime: int,
    mtime: int,
) -> NodeView {
    NodeView {
        key: k,
        name: name,
        path: path,
        status: status,
        stime: stime,
        ctime: ctime,
        mtime: mtime,
        children: Seq::empty(),
        links: Seq::empty(),
        parent: None,
    }
}

/// Binding `nv` under key `k` as a child of `p` at position `i` of its
/// child list.
pub open spec fn spec_attach(m: Map<Key, NodeView>, k: Key, nv: NodeView, p: Key, i: int) -> Map<
    Key,
    NodeView,
> {
    m.insert(p, with_children(m[p], m[p].children.insert(i, k))).insert(
        k,
        with_parent(nv, Some(p)),
    )
}

/// What adding a node under the fresh key `k` does: resolve the target,
/// then attach the new binding at the resolved position.
pub open spec fn spec_add_result(m: Map<Key, NodeView>, k: Key, nv: NodeView, pos: Position) -> Result<
    Map<Key, NodeView>,
    Error,
> {
    match resolve_target(m, pos) {
        Ok((p, i)) => Ok(spec_attach(m, k, nv, p, i)),
        Err(e) => Err(e),
    }
}

/// A resolved target names a present parent and a position within its
/// child list.
pub proof fn lemma_resolve_target_ok(m: Map<Key, NodeView>, pos: Position)
    requires
        inv(m),
        resolve_target(m, pos) is Ok,
    ensures
        m.contains_key(resolve_target(m, pos).unwrap().0),
        0 <= resolve_target(m, pos).unwrap().1 <= m[resolve_target(m, pos).unwrap().0].children.len(),
        reaches(m, pos.position, resolve_target(m, pos).unwrap().0),
{
    let p = resolve_target(m, pos).unwrap().0;
    if pos.is_parent {
        assert(chain(m, pos.position, p, 0));
    } else {
        let t = pos.position;
        assert(m.contains_key(t) && m[t].parent == Some(p));
        m[p].children.index_of_first_ensures(t);
        assert(chain(m, p, p, 0));
        assert(chain(m, t, p, 1));
    }
}

/// Attaching a fresh, childless, linkless binding at a resolved target
/// preserves the invariant.
pub proof fn lemma_add_inv(m: Map<Key, NodeView>, k: Key, nv: NodeView, pos: Position)
    requires
        inv(m),
        !m.contains_key(k),
        nv.key == k,
        nv.children.len() == 0,
        nv.links.len() == 0,
        spec_add_result(m, k, nv, pos) is Ok,
    ensures
        inv(spec_add_result(m, k, nv, pos).unwrap()),
{
    let p = resolve_target(m, pos).unwrap().0;
    let i = resolve_target(m, pos).unwrap().1;
    lemma_resolve_target_ok(m, pos);
    let m2 = spec_attach(m, k, nv, p, i);
    assert(k != ROOT_KEY);
    assert(p != k);
    assert(m[p].children.no_duplicates());
    assert forall|c: Key| #[trigger] m[p].children.contains(c) implies m.contains_key(c) by {
        let j = choose|j: int| 0 <= j < m[p].children.len() && m[p].children[j] == c;
        assert(m.contains_key(m[p].children[j]));
    };
    assert(!m[p].children.contains(k));
    lemma_insert_unique(m[p].children, i, k);
    assert(m2.dom() =~= m.dom().insert(k));
    // parent and child lists line up
    assert forall|y: Key|
        #[trigger] m2.contains_key(y) && m2[y].parent is Some implies m2.contains_key(
        m2[y].parent.unwrap(),
    ) && m2[m2[y].parent.unwrap()].children.contains(y) by {
        if y == k {
            lemma_insert_contains(m[p].children, i, k, k);
        } else {
            let q = m[y].parent.unwrap();
            assert(m.contains_key(q) && m[q].children.contains(y));
            if q == p {
                lemma_insert_contains(m[p].children, i, k, y);
            }
        }
    };
    assert forall|y: Key, j: int|
        m2.contains_key(y) && 0 <= j < m2[y].children.len() implies m2.contains_key(
        #[trigger] m2[y].children[j],
    ) && m2[m2[y].children[j]].parent == Some(y) by {
        if y == k {
        } else if y == p {
            let c = m2[p].children[j];
            lemma_insert_contains(m[p].children, i, k, c);
            if c == k {
            } else {
                assert(m[p].children.contains(c));
                let j2 = choose|j2: int| 0 <= j2 < m[p].children.len() && m[p].children[j2] == c;
                assert(m.contains_key(m[p].children[j2]));
                assert(m[m[p].children[j2]].parent == Some(p));
            }
        } else {
            let c = m[y].children[j];
            assert(m.contains_key(m[y].children[j]));
            assert(m[m[y].children[j]].parent == Some(y));
            assert(c != k);
        }
    };
    assert forall|y: Key| #[trigger] m2.contains_key(y) implies m2[y].children.no_duplicates() by {
        if y != k && y != p {
            assert(m.contains_key(y));
        }
    };
    // links are untouched and the new node has none
    assert forall|y: Key, j: int|
        m2.contains_key(y) && 0 <= j < m2[y].links.len() implies m2.contains_key(
        #[trigger] m2[y].links[j],
    ) && m2[m2[y].links[j]].links.contains(y) by {
        assert(y != k);
        assert(m.contains_key(y));
        let x = m[y].links[j];
        assert(m.contains_key(m[y].links[j]));
        assert(m[m[y].links[j]].links.contains(y));
        assert(m2[x].links == m[x].links);
    };
    assert forall|y: Key| #[trigger] m2.contains_key(y) implies m2[y].links.no_duplicates() by {
        if y != k {
            assert(m.contains_key(y));
        }
    };
    // every node still reaches the root
    assert forall|y: Key| #[trigger] m2.contains_key(y) implies reaches(m2, y, ROOT_KEY) by {
        if y == k {
            let n = choose|n: nat| chain(m, p, ROOT_KEY, n);
            lemma_chain_frame(m, m2, p, ROOT_KEY, n);
            assert(chain(m2, k, ROOT_KEY, n + 1));
        } else {
            assert(m.contains_key(y));
            let n = choose|n: nat| chain(m, y, ROOT_KEY, n);
            lemma_chain_frame(m, m2, y, ROOT_KEY, n);
        }
    };
}

/// Detaching a non-root key from its parent's child list, leaving its own
/// binding in place.
pub open spec fn spec_detach(m: Map<Key, NodeView>, k: Key) -> Map<Key, NodeView> {
    let p0 = m[k].parent.unwrap();
    m.insert(p0, with_children(m[p0], m[p0].children.remove_value(k)))
}

/// What moving `k` does: reject a missing key or target, a move of the
/// root, a sibling request against the root, and a target inside `k`'s own
/// subtree; otherwise detach `k`, resolve the target against the detached
/// value, and attach `k` there.
pub open spec fn spec_move_result(m: Map<Key, NodeView>, k: Key, pos: Position) -> Result<
    Map<Key, NodeView>,
    Error,
> {
    if !m.contains_key(k) {
        Err(Error::NotFound)
    } else if k == ROOT_KEY {
        Err(Error::CannotMoveRoot)
    } else if !m.contains_key(pos.position) {
        Err(Error::NotFound)
    } else if !pos.is_parent && m[pos.position].parent is None {
        Err(Error::RootHasNoSiblings)
    } else if in_subtree(m, k, pos.position) {
        Err(Error::CycleRejected)
    } else {
        let m1 = spec_detach(m, k);
        match resolve_target(m1, pos) {
            Ok((p, i)) => Ok(spec_attach(m1, k, m1[k], p, i)),
            Err(e) => Err(e),
        }
    }
}

/// Nodes that keep reaching the root when only `k`'s parent changed, given
/// that `k` itself still reaches it.
proof fn lemma_rooted_one_reparented(
    m: Map<Key, NodeView>,
    m2: Map<Key, NodeView>,
    k: Key,
    x: Key,
    n: nat,
)
    requires
        chain(m, x, ROOT_KEY, n),
        forall|y: Key| #[trigger] m.contains_key(y) && y != k ==> m2.contains_key(y) && m2[y].parent
            == m[y].parent,
        reaches(m2, k, ROOT_KEY),
    ensures
        reaches(m2, x, ROOT_KEY),
    decreases n,
{
    if x == ROOT_KEY {
        assert(chain(m2, x, ROOT_KEY, 0));
    } else if x != k {
        let q = m[x].parent.unwrap();
        lemma_rooted_one_reparented(m, m2, k, q, (n - 1) as nat);
        let n2 = choose|n2: nat| chain(m2, q, ROOT_KEY, n2);
        assert(m2.contains_key(x) && m2[x].parent == Some(q));
        assert(chain(m2, x, ROOT_KEY, n2 + 1));
    }
}

/// A move whose guards all pass succeeds and preserves the invariant.
pub proof fn lemma_move_inv(m: Map<Key, NodeView>, k: Key, pos: Position)
    requires
        inv(m),
        m.contains_key(k),
        k != ROOT_KEY,
        m.contains_key(pos.position),
        pos.is_parent || m[pos.position].parent is Some,
        !in_subtree(m, k, pos.position),
    ensures
        spec_move_result(m, k, pos) is Ok,
        inv(spec_move_result(m, k, pos).unwrap()),
        m[k].parent is Some,
        m[k].parent.unwrap() != k,
        resolve_target(spec_detach(m, k), pos) is Ok,
        resolve_target(spec_detach(m, k), pos).unwrap().0 != k,
{
    let t = pos.position;
    let p0 = m[k].parent.unwrap();
    assert(m.contains_key(p0) && m[p0].children.contains(k));
    let nk = choose|n: nat| chain(m, k, ROOT_KEY, n);
    assert(p0 != k) by {
        if p0 == k {
            lemma_reach_root_no_cycle(m, ROOT_KEY, k, k, nk);
            assert(chain(m, k, k, 0));
        }
    };
    assert(t != k) by {
        assert(chain(m, t, t, 0));
    };
    let m1 = spec_detach(m, k);
    assert(m1.dom() =~= m.dom());
    assert(m1[k] == m[k]);
    assert forall|y: Key| #[trigger] m.contains_key(y) implies m1[y].parent == m[y].parent
        && m1[y].links == m[y].links && m1[y].key == m[y].key by {};
    lemma_remove_value_still_unique(m[p0].children, k);
    lemma_remove_value_members(m[p0].children, k);
    // the target still resolves after the detach
    let pr = if pos.is_parent {
        t
    } else {
        m[t].parent.unwrap()
    };
    assert(m.contains_key(pr));
    if !pos.is_parent {
        assert(m[pr].children.contains(t));
        assert(m1[pr].children.contains(t)) by {
            if pr == p0 {
                lemma_remove_value_contains(m[p0].children, k, t);
            }
        };
        m1[pr].children.index_of_first_ensures(t);
    }
    assert(resolve_target(m1, pos) is Ok);
    let p = resolve_target(m1, pos).unwrap().0;
    let i = resolve_target(m1, pos).unwrap().1;
    assert(p == pr);
    assert(0 <= i <= m1[p].children.len()) by {
        if !pos.is_parent {
            m1[p].children.index_of_first_ensures(t);
        }
    };
    assert(reaches(m, t, p)) by {
        if pos.is_parent {
            assert(chain(m, t, p, 0));
        } else {
            assert(chain(m, p, p, 0));
            assert(chain(m, t, p, 1));
        }
    };
    assert(p != k) by {
        if p == k {
            let nt = choose|n: nat| chain(m, t, p, n);
            assert(in_subtree(m, k, t));
        }
    };
    assert(!reaches(m, p, k)) by {
        if reaches(m, p, k) {
            let n1 = choose|n: nat| chain(m, t, p, n);
            let n2 = choose|n: nat| chain(m, p, k, n);
            lemma_chain_trans(m, t, p, k, n1, n2);
            assert(in_subtree(m, k, t));
        }
    };
    let m2 = spec_attach(m1, k, m1[k], p, i);
    assert(spec_move_result(m, k, pos) == Ok::<Map<Key, NodeView>, Error>(m2));
    assert(m2.dom() =~= m.dom());
    // the insertion site holds no stale copy of the moved key
    assert(!m1[p].children.contains(k)) by {
        if p == p0 {
        } else {
            if m[p].children.contains(k) {
                let j = choose|j: int| 0 <= j < m[p].children.len() && m[p].children[j] == k;
                assert(m[m[p].children[j]].parent == Some(p));
            }
        }
    };
    assert(m1[p].children.no_duplicates()) by {
        if p != p0 {
            assert(m.contains_key(p));
        }
    };
    lemma_insert_unique(m1[p].children, i, k);
    assert(m2[k].parent == Some(p));
    assert(m[k].parent != Some(k));
    // parent and child lists line up
    assert forall|y: Key|
        #[trigger] m2.contains_key(y) && m2[y].parent is Some implies m2.contains_key(
        m2[y].parent.unwrap(),
    ) && m2[m2[y].parent.unwrap()].children.contains(y) by {
        if y == k {
            lemma_insert_contains(m1[p].children, i, k, k);
        } else {
            let q = m[y].parent.unwrap();
            assert(m.contains_key(q) && m[q].children.contains(y));
            assert(m2[y].parent == Some(q));
            if q == p {
                if p == p0 {
                    lemma_remove_value_contains(m[p0].children, k, y);
                }
                lemma_insert_contains(m1[p].children, i, k, y);
            } else if q == p0 {
                lemma_remove_value_contains(m[p0].children, k, y);
            }
        }
    };
    assert forall|y: Key, j: int|
        m2.contains_key(y) && 0 <= j < m2[y].children.len() implies m2.contains_key(
        #[trigger] m2[y].children[j],
    ) && m2[m2[y].children[j]].parent == Some(y) by {
        if y == p {
            let c = m2[p].children[j];
            lemma_insert_contains(m1[p].children, i, k, c);
            if c != k {
                assert(m1[p].children.contains(c));
                if p == p0 {
                    lemma_remove_value_contains(m[p0].children, k, c);
                }
                assert(m[p].children.contains(c));
                let j2 = choose|j2: int| 0 <= j2 < m[p].children.len() && m[p].children[j2] == c;
                assert(m.contains_key(m[p].children[j2]));
                assert(m[m[p].children[j2]].parent == Some(p));
            }
        } else if y == p0 {
            let c = m2[p0].children[j];
            lemma_remove_value_members(m[p0].children, k);
            assert(m2[p0].children.contains(c));
            assert(m[p0].children.contains(c));
            assert(c != k);
            let j2 = choose|j2: int| 0 <= j2 < m[p0].children.len() && m[p0].children[j2] == c;
            assert(m.contains_key(m[p0].children[j2]));
            assert(m[m[p0].children[j2]].parent == Some(p0));
        } else {
            let c = m[y].children[j];
            assert(m.contains_key(m[y].children[j]));
            assert(m[m[y].children[j]].parent == Some(y));
            assert(c != k) by {
                if c == k {
                    assert(m[k].parent == Some(y));
                }
            };
        }
    };
    assert forall|y: Key| #[trigger] m2.contains_key(y) implies m2[y].children.no_duplicates() by {
        if y != p && y != p0 {
            assert(m.contains_key(y));
        }
    };
    // links are untouched
    assert forall|y: Key, j: int|
        m2.contains_key(y) && 0 <= j < m2[y].links.len() implies m2.contains_key(
        #[trigger] m2[y].links[j],
    ) && m2[m2[y].links[j]].links.contains(y) by {
        assert(m.contains_key(y));
        assert(m2[y].links == m[y].links);
        let x = m[y].links[j];
        assert(m.contains_key(m[y].links[j]));
        assert(m[m[y].links[j]].links.contains(y));
        assert(m2[x].links == m[x].links);
    };
    assert forall|y: Key| #[trigger] m2.contains_key(y) implies m2[y].links.no_duplicates() by {
        assert(m.contains_key(y));
        assert(m2[y].links == m[y].links);
    };
    // every node still reaches the root
    let np = choose|n: nat| chain(m, p, ROOT_KEY, n);
    assert forall|y: Key|
        #[trigger] m.contains_key(y) && reaches(m, p, y) implies m2.contains_key(y) && m2[y].parent
        == m[y].parent by {
        assert(y != k);
    };
    lemma_chain_frame(m, m2, p, ROOT_KEY, np);
    assert(chain(m2, k, ROOT_KEY, np + 1));
    assert(reaches(m2, k, ROOT_KEY));
    assert forall|y: Key| #[trigger] m2.contains_key(y) implies reaches(m2, y, ROOT_KEY) by {
        assert(m.contains_key(y));
        let n = choose|n: nat| chain(m, y, ROOT_KEY, n);
        lemma_rooted_one_reparented(m, m2, k, y, n);
    };
}

/// The keys that survive the removal of `k`'s subtree.
pub open spec fn keeps(m: Map<Key, NodeView>, k: Key) -> spec_fn(Key) -> bool {
    |c: Key| !in_subtree(m, k, c)
}

/// The index value with the whole subtree of `k` gone and every reference
/// to a removed key scrubbed from the remaining children and links.
pub open spec fn scrubbed(m: Map<Key, NodeView>, k: Key) -> Map<Key, NodeView> {
    Map::new(
        |x: Key| m.contains_key(x) && keeps(m, k)(x),
        |x: Key|
            NodeView {
                children: m[x].children.filter(keeps(m, k)),
                links: m[x].links.filter(keeps(m, k)),
                ..m[x]
            },
    )
}

/// What removing `k` does: reject a missing key and the root; otherwise
/// drop `k`'s subtree and scrub it from the rest.
pub open spec fn spec_remove_result(m: Map<Key, NodeView>, k: Key) -> Result<
    Map<Key, NodeView>,
    Error,
> {
    if !m.contains_key(k) {
        Err(Error::NotFound)
    } else if k == ROOT_KEY {
        Err(Error::CannotRemoveRoot)
    } else {
        Ok(scrubbed(m, k))
    }
}

/// A subtree is closed downwards: whoever reaches a removed key is
/// removed too.
pub proof fn lemma_subtree_closed(m: Map<Key, NodeView>, k: Key, x: Key, y: Key)
    requires
        reaches(m, x, y),
        in_subtree(m, k, y),
    ensures
        in_subtree(m, k, x),
{
    let n1 = choose|n: nat| chain(m, x, y, n);
    let n2 = choose|n: nat| chain(m, y, k, n);
    lemma_chain_trans(m, x, y, k, n1, n2);
}

/// Removing a non-root key's subtree preserves the invariant.
pub proof fn lemma_remove_inv(m: Map<Key, NodeView>, k: Key)
    requires
        inv(m),
        m.contains_key(k),
        k != ROOT_KEY,
    ensures
        inv(scrubbed(m, k)),
{
    let m2 = scrubbed(m, k);
    let pr = keeps(m, k);
    assert(m2.dom().subset_of(m.dom()));
    lemma_set_subset_finite(m.dom(), m2.dom());
    assert(!in_subtree(m, k, ROOT_KEY)) by {
        if in_subtree(m, k, ROOT_KEY) {
            let n = choose|n: nat| chain(m, ROOT_KEY, k, n);
            assert(!(m[ROOT_KEY].parent is Some));
        }
    };
    assert(m2.contains_key(ROOT_KEY));
    // a survivor's parent survives and still lists it
    assert forall|y: Key|
        #[trigger] m2.contains_key(y) && m2[y].parent is Some implies m2.contains_key(
        m2[y].parent.unwrap(),
    ) && m2[m2[y].parent.unwrap()].children.contains(y) by {
        let q = m[y].parent.unwrap();
        assert(m.contains_key(q) && m[q].children.contains(y));
        assert(chain(m, q, q, 0));
        assert(chain(m, y, q, 1));
        assert(!in_subtree(m, k, q)) by {
            if in_subtree(m, k, q) {
                lemma_subtree_closed(m, k, y, q);
            }
        };
        let j = choose|j: int| 0 <= j < m[q].children.len() && m[q].children[j] == y;
        m[q].children.lemma_filter_contains(pr, j);
    };
    // a survivor's remaining children survive and still point back
    assert forall|y: Key, j: int|
        m2.contains_key(y) && 0 <= j < m2[y].children.len() implies m2.contains_key(
        #[trigger] m2[y].children[j],
    ) && m2[m2[y].children[j]].parent == Some(y) by {
        let c = m2[y].children[j];
        m[y].children.lemma_filter_pred(pr, j);
        assert(m2[y].children.contains(c));
        m[y].children.lemma_filter_contains_rev(pr, c);
        let j2 = choose|j2: int| 0 <= j2 < m[y].children.len() && m[y].children[j2] == c;
        assert(m.contains_key(m[y].children[j2]));
        assert(m[m[y].children[j2]].parent == Some(y));
    };
    assert forall|y: Key| #[trigger] m2.contains_key(y) implies m2[y].children.no_duplicates()
        && m2[y].links.no_duplicates() by {
        lemma_filter_unique(m[y].children, pr);
        lemma_filter_unique(m[y].links, pr);
    };
    // remaining links survive on both sides
    assert forall|y: Key, j: int|
        m2.contains_key(y) && 0 <= j < m2[y].links.len() implies m2.contains_key(
        #[trigger] m2[y].links[j],
    ) && m2[m2[y].links[j]].links.contains(y) by {
        let x = m2[y].links[j];
        m[y].links.lemma_filter_pred(pr, j);
        assert(m2[y].links.contains(x));
        m[y].links.lemma_filter_contains_rev(pr, x);
        let j2 = choose|j2: int| 0 <= j2 < m[y].links.len() && m[y].links[j2] == x;
        assert(m.contains_key(m[y].links[j2]));
        assert(m[m[y].links[j2]].links.contains(y));
        let j3 = choose|j3: int| 0 <= j3 < m[x].links.len() && m[x].links[j3] == y;
        m[x].links.lemma_filter_contains(pr, j3);
    };
    // survivors still reach the root
    assert forall|y: Key| #[trigger] m2.contains_key(y) implies reaches(m2, y, ROOT_KEY) by {
        let n = choose|n: nat| chain(m, y, ROOT_KEY, n);
        assert forall|z: Key|
            #[trigger] m.contains_key(z) && reaches(m, y, z) implies m2.contains_key(z)
            && m2[z].parent == m[z].parent by {
            if in_subtree(m, k, z) {
                lemma_subtree_closed(m, k, y, z);
            }
        };
        lemma_chain_frame(m, m2, y, ROOT_KEY, n);
    };
}

/// Keys that do not occur in `excl`.
pub open spec fn not_in(excl: Seq<Key>) -> spec_fn(Key) -> bool {
    |c: Key| !excl.contains(c)
}

/// Filters agree on lists whose members they classify alike.
pub proof fn lemma_filter_equiv(s: Seq<Key>, p1: spec_fn(Key) -> bool, p2: spec_fn(Key) -> bool)
    requires
        forall|x: Key| #[trigger] s.contains(x) ==> (p1(x) <==> p2(x)),
    ensures
        s.filter(p1) == s.filter(p2),
    decreases s.len(),
{
    reveal(Seq::filter);
    if s.len() > 0 {
        assert forall|x: Key| #[trigger] s.drop_last().contains(x) implies (p1(x) <==> p2(x)) by {
            let j = choose|j: int| 0 <= j < s.drop_last().len() && s.drop_last()[j] == x;
            assert(s[j] == x);
            assert(s.contains(x));
        };
        lemma_filter_equiv(s.drop_last(), p1, p2);
        assert(s.contains(s.last()));
    }
}

/// Filtering a list with one more element at its end.
pub proof fn lemma_filter_push(s: Seq<Key>, pred: spec_fn(Key) -> bool, x: Key)
    ensures
        s.push(x).filter(pred) == if pred(x) {
            s.filter(pred).push(x)
        } else {
            s.filter(pred)
        },
{
    reveal(Seq::filter);
    assert(s.push(x).drop_last() =~= s);
    assert(s.push(x).last() == x);
}

/// A list that holds `key` and is closed under taking listed children
/// holds the whole subtree of `key`.
pub proof fn lemma_subtree_collected(
    m: Map<Key, NodeView>,
    key: Key,
    d: Seq<Key>,
    x: Key,
    n: nat,
)
    requires
        inv(m),
        chain(m, x, key, n),
        m.contains_key(x),
        d.contains(key),
        forall|j: int, c: Key|
            0 <= j < d.len() && #[trigger] m[d[j]].children.contains(c) ==> d.contains(c),
    ensures
        d.contains(x),
    decreases n,
{
    if x != key {
        let q = m[x].parent.unwrap();
        assert(chain(m, q, key, (n - 1) as nat));
        assert(m.contains_key(q) && m[q].children.contains(x));
        lemma_subtree_collected(m, key, d, q, (n - 1) as nat);
        let j = choose|j: int| 0 <= j < d.len() && d[j] == q;
        assert(m[d[j]].children.contains(x));
    }
}

/// Link symmetry: after linking two present nodes each side lists the
/// other; after unlinking, neither side does.
pub proof fn lemma_link_symmetry(m: Map<Key, NodeView>, a: Key, b: Key)
    requires
        inv(m),
        m.contains_key(a),
        m.contains_key(b),
    ensures
        spec_add_link(m, a, b)[a].links.contains(b),
        spec_add_link(m, a, b)[b].links.contains(a),
        !spec_remove_link(m, a, b)[a].links.contains(b),
        !spec_remove_link(m, a, b)[b].links.contains(a),
{
    lemma_add_link_effect(m, a, b);
    lemma_remove_link_effect(m, a, b);
}

/// Cascading removal, in full: dropping `k` leaves exactly the nodes
/// outside `k`'s subtree — those keys and no others keep a binding — and
/// every key still listed in any remaining child or link list is itself
/// still bound: no reference dangles.
pub proof fn lemma_cascading_removal(m: Map<Key, NodeView>, k: Key)
    requires
        inv(m),
        m.contains_key(k),
        k != ROOT_KEY,
    ensures
        forall|y: Key| #[trigger] scrubbed(m, k).contains_key(y) <==> (m.contains_key(y)
            && !in_subtree(m, k, y)),
        forall|x: Key, i: int|
            scrubbed(m, k).contains_key(x) && 0 <= i < scrubbed(m, k)[x].children.len()
                ==> scrubbed(m, k).contains_key(#[trigger] scrubbed(m, k)[x].children[i]),
        forall|x: Key, i: int|
            scrubbed(m, k).contains_key(x) && 0 <= i < scrubbed(m, k)[x].links.len() ==> scrubbed(
                m,
                k,
            ).contains_key(#[trigger] scrubbed(m, k)[x].links[i]),
{
    let m2 = scrubbed(m, k);
    lemma_remove_inv(m, k);
    assert forall|x: Key, i: int|
        m2.contains_key(x) && 0 <= i < m2[x].children.len() implies m2.contains_key(
        #[trigger] m2[x].children[i],
    ) by {
        assert(children_wf(m2));
    };
    assert forall|x: Key, i: int|
        m2.contains_key(x) && 0 <= i < m2[x].links.len() implies m2.contains_key(
        #[trigger] m2[x].links[i],
    ) by {
        assert(links_wf(m2));
    };
}

/// Cascading removal: no key of the removed subtree keeps a binding, and
/// none is referenced by any remaining child or link list.
pub proof fn lemma_remove_clean(m: Map<Key, NodeView>, k: Key, x: Key, y: Key)
    requires
        inv(m),
        m.contains_key(k),
        k != ROOT_KEY,
        in_subtree(m, k, y),
    ensures
        !scrubbed(m, k).contains_key(y),
        scrubbed(m, k).contains_key(x) ==> !scrubbed(m, k)[x].children.contains(y) && !scrubbed(
            m,
            k,
        )[x].links.contains(y),
{
    if scrubbed(m, k).contains_key(x) {
        if scrubbed(m, k)[x].children.contains(y) {
            let j = choose|j: int|
                0 <= j < scrubbed(m, k)[x].children.len() && scrubbed(m, k)[x].children[j] == y;
            m[x].children.lemma_filter_pred(keeps(m, k), j);
        }
        if scrubbed(m, k)[x].links.contains(y) {
            let j = choose|j: int|
                0 <= j < scrubbed(m, k)[x].links.len() && scrubbed(m, k)[x].links[j] == y;
            m[x].links.lemma_filter_pred(keeps(m, k), j);
        }
    }
}

/// A move whose target lies in the moved node's own subtree is rejected
/// with `CycleRejected`.
pub proof fn lemma_move_rejects_cycles(m: Map<Key, NodeView>, k: Key, pos: Position)
    requires
        m.contains_key(k),
        k != ROOT_KEY,
        m.contains_key(pos.position),
        pos.is_parent || m[pos.position].parent is Some,
        in_subtree(m, k, pos.position),
    ensures
        spec_move_result(m, k, pos) == Err::<Map<Key, NodeView>, Error>(Error::CycleRejected),
{
}

/// Sibling positioning: a node added before a sibling takes the sibling's
/// place in the parent's child list; added after it, the next one. The
/// rest of the list keeps its order.
pub proof fn lemma_sibling_positioning(
    m: Map<Key, NodeView>,
    k: Key,
    nv: NodeView,
    s: Key,
    before: bool,
)
    requires
        inv(m),
        !m.contains_key(k),
        nv.key == k,
        nv.children.len() == 0,
        nv.links.len() == 0,
        m.contains_key(s),
        m[s].parent is Some,
    ensures
        ({
            let pos = Position { position: s, is_front: before, is_parent: false };
            let p = m[s].parent.unwrap();
            let i = m[p].children.index_of_first(s).unwrap();
            let r = spec_add_result(m, k, nv, pos);
            &&& r is Ok
            &&& r.unwrap()[p].children == m[p].children.insert(
                if before {
                    i
                } else {
                    i + 1
                },
                k,
            )
            &&& r.unwrap()[p].children.len() == m[p].children.len() + 1
            &&& (before ==> r.unwrap()[p].children[i] == k && r.unwrap()[p].children[i + 1] == s)
            &&& (!before ==> r.unwrap()[p].children[i] == s && r.unwrap()[p].children[i + 1] == k)
        }),
{
    let pos = Position { position: s, is_front: before, is_parent: false };
    let p = m[s].parent.unwrap();
    assert(m.contains_key(p) && m[p].children.contains(s));
    m[p].children.index_of_first_ensures(s);
    let i = m[p].children.index_of_first(s).unwrap();
    assert(resolve_target(m, pos) is Ok);
    let r = spec_add_result(m, k, nv, pos);
    assert(p != k && s != k);
    assert(r.unwrap()[p].children == m[p].children.insert(
        if before {
            i
        } else {
            i + 1
        },
        k,
    ));
    m[p].children.insert_ensures(i, k);
    m[p].children.insert_ensures(i + 1, k);
    assert(m[p].children[i] == s);
}

/// Depth-first, pre-order traversal of `m` from `k`, children in list
/// order. `fuel` bounds the depth; taken at `m.dom().len()` it exceeds
/// the height of any well-formed index, so the whole subtree is listed.
pub open spec fn dfs_node(m: Map<Key, NodeView>, k: Key, fuel: nat) -> Seq<Key>
    decreases fuel, 0int, 0int,
{
    if fuel == 0 {
        seq![k]
    } else {
        seq![k] + dfs_list(m, m[k].children, (fuel - 1) as nat)
    }
}

/// The traversals of the listed keys, concatenated in order.
pub open spec fn dfs_list(m: Map<Key, NodeView>, cs: Seq<Key>, fuel: nat) -> Seq<Key>
    decreases fuel, 1int, cs.len(),
{
    if cs.len() == 0 {
        Seq::empty()
    } else {
        dfs_node(m, cs[0], fuel) + dfs_list(m, cs.drop_first(), fuel)
    }
}

/// Traversing one more listed key appends its subtree's traversal.
pub proof fn lemma_dfs_list_push(m: Map<Key, NodeView>, cs: Seq<Key>, x: Key, fuel: nat)
    ensures
        dfs_list(m, cs.push(x), fuel) == dfs_list(m, cs, fuel) + dfs_node(m, x, fuel),
    decreases cs.len(),
{
    if cs.len() == 0 {
        assert(cs.push(x)[0] == x);
        assert(cs.push(x).drop_first() =~= Seq::<Key>::empty());
        assert(dfs_list(m, cs.push(x), fuel) == dfs_node(m, cs.push(x)[0], fuel) + dfs_list(
            m,
            cs.push(x).drop_first(),
            fuel,
        ));
        assert(dfs_list(m, cs.push(x).drop_first(), fuel) == Seq::<Key>::empty());
        assert(dfs_list(m, cs, fuel) == Seq::<Key>::empty());
        assert(dfs_list(m, cs.push(x), fuel) =~= dfs_list(m, cs, fuel) + dfs_node(m, x, fuel));
    } else {
        assert(cs.push(x)[0] == cs[0]);
        assert(cs.push(x).drop_first() =~= cs.drop_first().push(x));
        lemma_dfs_list_push(m, cs.drop_first(), x, fuel);
        assert(cs.push(x).len() != 0);
        assert(dfs_list(m, cs.push(x), fuel) == dfs_node(m, cs[0], fuel) + dfs_list(
            m,
            cs.drop_first().push(x),
            fuel,
        ));
        assert(dfs_list(m, cs.drop_first().push(x), fuel) == dfs_list(m, cs.drop_first(), fuel)
            + dfs_node(m, x, fuel));
        assert(dfs_list(m, cs, fuel) == dfs_node(m, cs[0], fuel) + dfs_list(
            m,
            cs.drop_first(),
            fuel,
        ));
        assert(dfs_list(m, cs.push(x), fuel) =~= dfs_list(m, cs, fuel) + dfs_node(m, x, fuel));
    }
}

/// A well-formed snapshot: unique keys bounded by the key counter, and a
/// represented map that satisfies the documented invariants.
pub open spec fn wf_snapshot(s: Seq<Node>, max: Key) -> bool {
    &&& crate::viewmap::keys_of(s).no_duplicates()
    &&& inv(crate::viewmap::map_of(s))
    &&& forall|i: int| 0 <= i < s.len() ==> #[trigger] s[i].key <= max
}

/// What the per-node validation establishes for one binding.
pub open spec fn node_ok(m: Map<Key, NodeView>, bound: nat, nv: NodeView) -> bool {
    &&& (nv.key != ROOT_KEY ==> nv.parent is Some)
    &&& (nv.parent is Some ==> m.contains_key(nv.parent.unwrap())
        && m[nv.parent.unwrap()].children.contains(nv.key))
    &&& nv.children.no_duplicates()
    &&& forall|i: int|
        0 <= i < nv.children.len() ==> m.contains_key(#[trigger] nv.children[i])
            && m[nv.children[i]].parent == Some(nv.key)
    &&& nv.links.no_duplicates()
    &&& forall|i: int|
        0 <= i < nv.links.len() ==> m.contains_key(#[trigger] nv.links[i])
            && m[nv.links[i]].links.contains(nv.key)
    &&& chain(m, nv.key, ROOT_KEY, bound)
}

/// The invariant, assembled from the root facts and one `node_ok` per
/// binding.
pub proof fn lemma_inv_from_node_ok(m: Map<Key, NodeView>, bound: nat)
    requires
        m.dom().finite(),
        m.contains_key(ROOT_KEY),
        m[ROOT_KEY].parent is None,
        forall|k: Key| #[trigger] m.contains_key(k) ==> m[k].key == k,
        forall|k: Key| #[trigger] m.contains_key(k) ==> node_ok(m, bound, m[k]),
    ensures
        inv(m),
{
    assert forall|k: Key| #[trigger] m.contains_key(k) implies reaches(m, k, ROOT_KEY) by {
        assert(node_ok(m, bound, m[k]));
        assert(chain(m, k, ROOT_KEY, bound));
    };
    assert forall|k: Key, i: int|
        m.contains_key(k) && 0 <= i < m[k].children.len() implies m.contains_key(
        #[trigger] m[k].children[i],
    ) && m[m[k].children[i]].parent == Some(k) by {
        assert(node_ok(m, bound, m[k]));
    };
    assert forall|k: Key, i: int|
        m.contains_key(k) && 0 <= i < m[k].links.len() implies m.contains_key(
        #[trigger] m[k].links[i],
    ) && m[m[k].links[i]].links.contains(k) by {
        assert(node_ok(m, bound, m[k]));
    };
    assert forall|k: Key|
        #[trigger] m.contains_key(k) && m[k].parent is Some implies m.contains_key(
        m[k].parent.unwrap(),
    ) && m[m[k].parent.unwrap()].children.contains(k) by {
        assert(node_ok(m, bound, m[k]));
    };
    assert forall|k: Key| #[trigger] m.contains_key(k) && k != ROOT_KEY implies m[k].parent
        is Some by {
        assert(node_ok(m, bound, m[k]));
    };
    assert forall|k: Key| #[trigger] m.contains_key(k) implies m[k].children.no_duplicates()
        && m[k].links.no_duplicates() by {
        assert(node_ok(m, bound, m[k]));
    };
}

/// A chain of at least one step has a last step: a node whose parent is
/// the chain's end, reached from the start in fewer steps.
proof fn lemma_chain_last_step(m: Map<Key, NodeView>, x: Key, k: Key, n: nat)
    requires
        chain(m, x, k, n),
        x != k,
    ensures
        exists|cj: (Key, nat)|
            cj.1 <= n - 1 && chain(m, x, cj.0, cj.1) && m.contains_key(cj.0) && m[cj.0].parent
                == Some(k),
    decreases n,
{
    let q = m[x].parent.unwrap();
    if q == k {
        let cj = (x, 0nat);
        assert(chain(m, x, cj.0, cj.1));
        assert(cj.1 <= n - 1 && chain(m, x, cj.0, cj.1) && m.contains_key(cj.0) && m[cj.0].parent
            == Some(k));
    } else {
        assert(chain(m, q, k, (n - 1) as nat));
        lemma_chain_last_step(m, q, k, (n - 1) as nat);
        let cj0 = choose|cj: (Key, nat)|
            cj.1 <= n - 2 && chain(m, q, cj.0, cj.1) && m.contains_key(cj.0) && m[cj.0].parent
                == Some(k);
        assert(chain(m, x, cj0.0, cj0.1 + 1));
        let cj = (cj0.0, (cj0.1 + 1) as nat);
        assert(cj.1 <= n - 1 && chain(m, x, cj.0, cj.1) && m.contains_key(cj.0) && m[cj.0].parent
            == Some(k));
    }
}

/// Whatever a listed key's traversal holds, the list traversal holds.
proof fn lemma_dfs_list_super(m: Map<Key, NodeView>, cs: Seq<Key>, i: int, x: Key, fuel: nat)
    requires
        0 <= i < cs.len(),
        dfs_node(m, cs[i], fuel).contains(x),
    ensures
        dfs_list(m, cs, fuel).contains(x),
    decreases cs.len(),
{
    let j = choose|j: int| 0 <= j < dfs_node(m, cs[i], fuel).len() && dfs_node(m, cs[i], fuel)[j]
        == x;
    if i == 0 {
        assert(dfs_list(m, cs, fuel)[j] == x);
    } else {
        assert(cs.drop_first()[i - 1] == cs[i]);
        lemma_dfs_list_super(m, cs.drop_first(), i - 1, x, fuel);
        let j2 = choose|j2: int|
            0 <= j2 < dfs_list(m, cs.drop_first(), fuel).len() && dfs_list(
                m,
                cs.drop_first(),
                fuel,
            )[j2] == x;
        assert(dfs_list(m, cs, fuel)[dfs_node(m, cs[0], fuel).len() + j2] == x);
    }
}

/// Whatever a list traversal holds came from one of its keys.
proof fn lemma_dfs_list_sound(m: Map<Key, NodeView>, cs: Seq<Key>, x: Key, fuel: nat)
    requires
        dfs_list(m, cs, fuel).contains(x),
    ensures
        exists|i: int| 0 <= i < cs.len() && dfs_node(m, #[trigger] cs[i], fuel).contains(x),
    decreases cs.len(),
{
    let j = choose|j: int| 0 <= j < dfs_list(m, cs, fuel).len() && dfs_list(m, cs, fuel)[j] == x;
    let head = dfs_node(m, cs[0], fuel);
    if j < head.len() {
        assert(head[j] == x);
        assert(head.contains(x));
        assert(dfs_node(m, cs[0], fuel).contains(x));
    } else {
        assert(dfs_list(m, cs.drop_first(), fuel)[j - head.len()] == x);
        assert(dfs_list(m, cs.drop_first(), fuel).contains(x));
        lemma_dfs_list_sound(m, cs.drop_first(), x, fuel);
        let i2 = choose|i2: int|
            0 <= i2 < cs.drop_first().len() && dfs_node(
                m,
                #[trigger] cs.drop_first()[i2],
                fuel,
            ).contains(x);
        assert(cs.drop_first()[i2] == cs[i2 + 1]);
        assert(dfs_node(m, cs[i2 + 1], fuel).contains(x));
    }
}

/// Every key a traversal lists is a present member of the traversed
/// subtree.
proof fn lemma_dfs_node_sound(m: Map<Key, NodeView>, k: Key, x: Key, fuel: nat)
    requires
        children_wf(m),
        m.contains_key(k),
        dfs_node(m, k, fuel).contains(x),
    ensures
        m.contains_key(x),
        reaches(m, x, k),
    decreases fuel,
{
    if x == k {
        assert(chain(m, x, k, 0));
    } else {
        assert(fuel > 0) by {
            if fuel == 0 {
                let j = choose|j: int|
                    0 <= j < dfs_node(m, k, fuel).len() && dfs_node(m, k, fuel)[j] == x;
            }
        };
        assert(dfs_list(m, m[k].children, (fuel - 1) as nat).contains(x)) by {
            let j = choose|j: int|
                0 <= j < dfs_node(m, k, fuel).len() && dfs_node(m, k, fuel)[j] == x;
            assert(j >= 1);
            assert(dfs_list(m, m[k].children, (fuel - 1) as nat)[j - 1] == x);
        };
        lemma_dfs_list_sound(m, m[k].children, x, (fuel - 1) as nat);
        let i = choose|i: int|
            0 <= i < m[k].children.len() && dfs_node(
                m,
                #[trigger] m[k].children[i],
                (fuel - 1) as nat,
            ).contains(x);
        let c = m[k].children[i];
        assert(m.contains_key(c) && m[c].parent == Some(k));
        lemma_dfs_node_sound(m, c, x, (fuel - 1) as nat);
        let n = choose|n: nat| chain(m, x, c, n);
        assert(chain(m, k, k, 0));
        assert(chain(m, c, k, 1));
        lemma_chain_trans(m, x, c, k, n, 1);
    }
}

/// Every present member of the traversed subtree is listed, given enough
/// fuel for its distance.
proof fn lemma_dfs_node_complete(m: Map<Key, NodeView>, k: Key, x: Key, n: nat, fuel: nat)
    requires
        parent_listed(m),
        m.contains_key(x),
        chain(m, x, k, n),
        n <= fuel,
    ensures
        dfs_node(m, k, fuel).contains(x),
    decreases n,
{
    if x == k {
        assert(dfs_node(m, k, fuel)[0] == k);
    } else {
        lemma_chain_last_step(m, x, k, n);
        let cj = choose|cj: (Key, nat)|
            cj.1 <= n - 1 && chain(m, x, cj.0, cj.1) && m.contains_key(cj.0) && m[cj.0].parent
                == Some(k);
        let c = cj.0;
        assert(m.contains_key(k) && m[k].children.contains(c));
        lemma_dfs_node_complete(m, c, x, cj.1, (fuel - 1) as nat);
        let i = choose|i: int| 0 <= i < m[k].children.len() && m[k].children[i] == c;
        lemma_dfs_list_super(m, m[k].children, i, x, (fuel - 1) as nat);
        let dl = dfs_list(m, m[k].children, (fuel - 1) as nat);
        let j = choose|j: int| 0 <= j < dl.len() && dl[j] == x;
        assert(dfs_node(m, k, fuel)[j + 1] == x);
    }
}

/// The traversal lists exactly the subtree of its starting key: each
/// listed key is a present descendant of it (or the key itself), and
/// every present descendant is listed.
pub proof fn lemma_traversal_spans_subtree(m: Map<Key, NodeView>, from: Key, x: Key)
    requires
        inv(m),
        m.contains_key(from),
    ensures
        dfs_node(m, from, m.dom().len() as nat).contains(x) <==> (m.contains_key(x) && in_subtree(
            m,
            from,
            x,
        )),
{
    if dfs_node(m, from, m.dom().len() as nat).contains(x) {
        lemma_dfs_node_sound(m, from, x, m.dom().len() as nat);
    }
    if m.contains_key(x) && in_subtree(m, from, x) {
        let n = choose|n: nat| chain(m, x, from, n);
        crate::chain::lemma_chain_bound(m, x, from, n);
        lemma_dfs_node_complete(m, from, x, m.dom().len() as nat, m.dom().len() as nat);
    }
}

/// The invariant only reads keys, parents, children and links: any
/// rewrite of the other fields preserves it.
pub proof fn lemma_inv_same_structure(m: Map<Key, NodeView>, m2: Map<Key, NodeView>)
    requires
        inv(m),
        m2.dom() == m.dom(),
        forall|k: Key| #[trigger] m.contains_key(k) ==> m2[k].key == m[k].key && m2[k].parent
            == m[k].parent && m2[k].children == m[k].children && m2[k].links == m[k].links,
    ensures
        inv(m2),
{
    assert forall|k: Key| #[trigger] m.contains_key(k) implies m2[k].links.no_duplicates() by {};
    lemma_links_inv_from_effect(m, m2);
    assert forall|k: Key, i: int|
        m2.contains_key(k) && 0 <= i < m2[k].links.len() implies m2.contains_key(
        #[trigger] m2[k].links[i],
    ) && m2[m2[k].links[i]].links.contains(k) by {
        assert(m.contains_key(k));
        let x = m[k].links[i];
        assert(m.contains_key(m[k].links[i]));
        assert(m[m[k].links[i]].links.contains(k));
        assert(m2[x].links == m[x].links);
    };
}

/// Folds an index-free symmetry statement into the indexed `links_wf` form.
proof fn lemma_links_wf_close(m2: Map<Key, NodeView>)
    requires
        forall|k: Key| #[trigger] m2.contains_key(k) ==> m2[k].links.no_duplicates(),
        forall|k: Key, y: Key|
            m2.contains_key(k) && #[trigger] m2[k].links.contains(y) ==> m2.contains_key(y)
                && m2[y].links.contains(k),
    ensures
        links_wf(m2),
{
    assert forall|k: Key, i: int|
        m2.contains_key(k) && 0 <= i < m2[k].links.len() implies m2.contains_key(
        #[trigger] m2[k].links[i],
    ) && m2[m2[k].links[i]].links.contains(k) by {
        assert(m2[k].links.contains(m2[k].links[i]));
    };
}

/// Removing one value keeps a duplicate-free list duplicate-free.
pub proof fn lemma_remove_value_still_unique(ls: Seq<Key>, x: Key)
    requires
        ls.no_duplicates(),
    ensures
        ls.remove_value(x).no_duplicates(),
{
    ls.index_of_first_ensures(x);
    if ls.contains(x) {
        let i = ls.index_of_first(x).unwrap();
        ls.remove_ensures(i);
        assert forall|p: int, q: int|
            0 <= p < q < ls.remove(i).len() implies ls.remove(i)[p] != ls.remove(i)[q] by {
            assert(ls.remove(i)[p] == if p < i {
                ls[p]
            } else {
                ls[p + 1]
            });
            assert(ls.remove(i)[q] == if q < i {
                ls[q]
            } else {
                ls[q + 1]
            });
        };
    }
}

/// The members of a list after removing one value: everything kept was a
/// member before, and the removed value is gone.
pub proof fn lemma_remove_value_members(ls: Seq<Key>, x: Key)
    requires
        ls.no_duplicates(),
    ensures
        forall|y: Key| #[trigger] ls.remove_value(x).contains(y) ==> ls.contains(y),
        !ls.remove_value(x).contains(x),
{
    ls.index_of_first_ensures(x);
    if ls.contains(x) {
        let i = ls.index_of_first(x).unwrap();
        ls.remove_ensures(i);
        assert forall|y: Key| #[trigger] ls.remove(i).contains(y) implies ls.contains(y) by {
            let j = choose|j: int| 0 <= j < ls.remove(i).len() && ls.remove(i)[j] == y;
            assert(ls.remove(i)[j] == if j < i {
                ls[j]
            } else {
                ls[j + 1]
            });
        };
        if ls.remove(i).contains(x) {
            let j = choose|j: int| 0 <= j < ls.remove(i).len() && ls.remove(i)[j] == x;
            assert(ls.remove(i)[j] == if j < i {
                ls[j]
            } else {
                ls[j + 1]
            });
            assert(ls[i] == x);
        }
    }
}

/// Removing one value keeps every other member.
pub proof fn lemma_remove_value_keeps_others(ls: Seq<Key>, x: Key, y: Key)
    requires
        ls.contains(y),
        y != x,
    ensures
        ls.remove_value(x).contains(y),
{
    ls.index_of_first_ensures(x);
    if ls.contains(x) {
        let i = ls.index_of_first(x).unwrap();
        ls.remove_ensures(i);
        let j = choose|j: int| 0 <= j < ls.len() && ls[j] == y;
        if j < i {
            assert(ls.remove(i)[j] == y);
        } else {
            assert(j != i);
            assert(ls.remove(i)[j - 1] == y);
        }
    }
}

} // verus!
