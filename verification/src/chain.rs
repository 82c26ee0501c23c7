//! Ancestry along parent pointers: a node reaches another by following
//! `parent` fields. Acyclicity of the tree is expressed as every key
//! reaching the root, and the lemmas here show how such chains survive
//! the index's mutations.

use vstd::prelude::*;

use crate::node::NodeView;
use crate::Key;

verus! {

/// From `x`, following parent pointers, `a` is reached within `n` steps.
pub open spec fn chain(m: Map<Key, NodeView>, x: Key, a: Key, n: nat) -> bool
    decreases n,
{
    x == a || (n > 0 && m.contains_key(x) && match m[x].parent {
        Some(p) => chain(m, p, a, (n - 1) as nat),
        None => false,
    })
}

/// `a` is `x` itself or an ancestor of `x`.
pub open spec fn reaches(m: Map<Key, NodeView>, x: Key, a: Key) -> bool {
    exists|n: nat| chain(m, x, a, n)
}

/// `x` belongs to the subtree rooted at `k`: `k` lies on `x`'s parent chain.
pub open spec fn in_subtree(m: Map<Key, NodeView>, k: Key, x: Key) -> bool {
    reaches(m, x, k)
}

/// A chain within `n` steps is also a chain within any larger bound.
pub proof fn lemma_chain_mono(m: Map<Key, NodeView>, x: Key, a: Key, n: nat, n2: nat)
    requires
        chain(m, x, a, n),
        n <= n2,
    ensures
        chain(m, x, a, n2),
    decreases n,
{
    if x != a {
        let p = m[x].parent.unwrap();
        lemma_chain_mono(m, p, a, (n - 1) as nat, (n2 - 1) as nat);
    }
}

/// Chains compose: a chain from `x` to `b` and one from `b` to `c` give one
/// from `x` to `c`.
pub proof fn lemma_chain_trans(m: Map<Key, NodeView>, x: Key, b: Key, c: Key, i: nat, j: nat)
    requires
        chain(m, x, b, i),
        chain(m, b, c, j),
    ensures
        chain(m, x, c, i + j),
    decreases i,
{
    if x == b {
        lemma_chain_mono(m, b, c, j, i + j);
    } else {
        let p = m[x].parent.unwrap();
        lemma_chain_trans(m, p, b, c, (i - 1) as nat, j);
    }
}

/// A chain survives any rewrite of the map that keeps every key the chain
/// can visit, with its parent unchanged.
pub proof fn lemma_chain_frame(
    m1: Map<Key, NodeView>,
    m2: Map<Key, NodeView>,
    x: Key,
    a: Key,
    n: nat,
)
    requires
        chain(m1, x, a, n),
        forall|y: Key|
            #[trigger] m1.contains_key(y) && reaches(m1, x, y) ==> m2.contains_key(y) && m2[y].parent
                == m1[y].parent,
    ensures
        chain(m2, x, a, n),
    decreases n,
{
    if x != a {
        let p = m1[x].parent.unwrap();
        assert(chain(m1, x, x, 0));
        assert(reaches(m1, x, x));
        assert(chain(m1, p, p, 0));
        assert(chain(m1, x, p, 1));
        assert(reaches(m1, x, p));
        assert forall|y: Key| #[trigger] m1.contains_key(y) && reaches(m1, p, y) implies
            m2.contains_key(y) && m2[y].parent == m1[y].parent by {
            let j = choose|j: nat| chain(m1, p, y, j);
            lemma_chain_trans(m1, x, p, y, 1, j);
            assert(reaches(m1, x, y));
        };
        lemma_chain_frame(m1, m2, p, a, (n - 1) as nat);
    }
}

/// An explicit parent path: consecutive entries follow parent pointers,
/// and the path ends at `a`.
pub open spec fn is_pchain(m: Map<Key, NodeView>, p: Seq<Key>, a: Key) -> bool {
    &&& p.len() >= 1
    &&& p.last() == a
    &&& forall|i: int|
        0 <= i < p.len() - 1 ==> m.contains_key(#[trigger] p[i]) && m[p[i]].parent == Some(
            p[i + 1],
        )
}

/// A chain yields an explicit path of bounded length.
proof fn lemma_chain_to_path(m: Map<Key, NodeView>, x: Key, a: Key, n: nat)
    requires
        chain(m, x, a, n),
    ensures
        exists|p: Seq<Key>| is_pchain(m, p, a) && p[0] == x && p.len() <= n + 1,
    decreases n,
{
    if x == a {
        let p = seq![x];
        assert(is_pchain(m, p, a) && p[0] == x && p.len() <= n + 1);
    } else {
        let q = m[x].parent.unwrap();
        lemma_chain_to_path(m, q, a, (n - 1) as nat);
        let p2 = choose|p2: Seq<Key>| is_pchain(m, p2, a) && p2[0] == q && p2.len() <= n;
        let p = seq![x] + p2;
        assert(p[0] == x);
        assert(p.last() == p2.last());
        assert forall|i: int| 0 <= i < p.len() - 1 implies m.contains_key(#[trigger] p[i])
            && m[p[i]].parent == Some(p[i + 1]) by {
            if i == 0 {
                assert(p[0] == x && p[1] == p2[0]);
            } else {
                assert(p[i] == p2[i - 1] && p[i + 1] == p2[i]);
            }
        };
        assert(is_pchain(m, p, a) && p[0] == x && p.len() <= n + 1);
    }
}

/// An explicit path yields a chain of its length.
proof fn lemma_path_to_chain(m: Map<Key, NodeView>, p: Seq<Key>, a: Key)
    requires
        is_pchain(m, p, a),
    ensures
        chain(m, p[0], a, (p.len() - 1) as nat),
    decreases p.len(),
{
    if p.len() > 1 && p[0] != a {
        let p2 = p.drop_first();
        assert(p2.last() == p.last());
        assert forall|i: int| 0 <= i < p2.len() - 1 implies m.contains_key(#[trigger] p2[i])
            && m[p2[i]].parent == Some(p2[i + 1]) by {
            assert(p2[i] == p[i + 1] && p2[i + 1] == p[i + 2]);
        };
        lemma_path_to_chain(m, p2, a);
        assert(p2[0] == p[1]);
        assert(m[p[0]].parent == Some(p[1]));
        assert(chain(m, p[0], a, (p.len() - 1) as nat));
    }
}

/// Any path can be shortened to one without repeated entries.
proof fn lemma_path_dedup(m: Map<Key, NodeView>, p: Seq<Key>, a: Key)
    requires
        is_pchain(m, p, a),
    ensures
        exists|p2: Seq<Key>|
            is_pchain(m, p2, a) && p2[0] == p[0] && p2.len() <= p.len() && p2.no_duplicates(),
    decreases p.len(),
{
    if p.no_duplicates() {
        assert(is_pchain(m, p, a) && p[0] == p[0] && p.len() <= p.len() && p.no_duplicates());
    } else {
        let (i, j) = choose|i: int, j: int| 0 <= i < j < p.len() && p[i] == p[j];
        let p3 = p.take(i) + p.skip(j);
        assert(p3.len() == p.len() - (j - i));
        assert(p3.last() == p.last()) by {
            assert(p3[p3.len() - 1] == p.skip(j)[p.len() - j - 1]);
        };
        assert(p3[0] == p[0]) by {
            if i == 0 {
                assert(p3[0] == p.skip(j)[0]);
                assert(p.skip(j)[0] == p[j]);
            } else {
                assert(p3[0] == p.take(i)[0]);
            }
        };
        assert forall|t: int| 0 <= t < p3.len() - 1 implies m.contains_key(#[trigger] p3[t])
            && m[p3[t]].parent == Some(p3[t + 1]) by {
            if t < i - 1 {
                assert(p3[t] == p[t] && p3[t + 1] == p[t + 1]);
            } else if t == i - 1 {
                assert(p3[t] == p[t]);
                assert(p3[t + 1] == p.skip(j)[0]);
                assert(p.skip(j)[0] == p[j]);
                assert(p[j] == p[i]);
            } else {
                assert(p3[t] == p.skip(j)[t - i]);
                assert(p3[t + 1] == p.skip(j)[t + 1 - i]);
                assert(p.skip(j)[t - i] == p[j + t - i]);
                assert(p.skip(j)[t + 1 - i] == p[j + t + 1 - i]);
            }
        };
        assert(is_pchain(m, p3, a));
        lemma_path_dedup(m, p3, a);
        let p2 = choose|p2: Seq<Key>|
            is_pchain(m, p2, a) && p2[0] == p3[0] && p2.len() <= p3.len() && p2.no_duplicates();
        assert(is_pchain(m, p2, a) && p2[0] == p[0] && p2.len() <= p.len() && p2.no_duplicates());
    }
}

/// A chain that exists at all exists within `m.dom().len()` steps: the
/// deduplicated path visits distinct keys of the map.
pub proof fn lemma_chain_bound(m: Map<Key, NodeView>, x: Key, a: Key, n: nat)
    requires
        chain(m, x, a, n),
        m.dom().finite(),
        m.contains_key(a),
    ensures
        chain(m, x, a, m.dom().len() as nat),
{
    lemma_chain_to_path(m, x, a, n);
    let p = choose|p: Seq<Key>| is_pchain(m, p, a) && p[0] == x && p.len() <= n + 1;
    lemma_path_dedup(m, p, a);
    let p2 = choose|p2: Seq<Key>|
        is_pchain(m, p2, a) && p2[0] == p[0] && p2.len() <= p.len() && p2.no_duplicates();
    p2.unique_seq_to_set();
    assert forall|y: Key| #[trigger] p2.to_set().contains(y) implies m.dom().contains(y) by {
        let t = choose|t: int| 0 <= t < p2.len() && p2[t] == y;
        if t < p2.len() - 1 {
            assert(m.contains_key(p2[t]));
        } else {
            assert(p2.last() == a);
        }
    };
    vstd::set_lib::lemma_len_subset(p2.to_set(), m.dom());
    lemma_path_to_chain(m, p2, a);
    lemma_chain_mono(m, x, a, (p2.len() - 1) as nat, m.dom().len() as nat);
}

/// In a map that reaches a root without a parent, a node with a parent is
/// never an ancestor of that parent: no proper cycle exists.
pub proof fn lemma_reach_root_no_cycle(
    m: Map<Key, NodeView>,
    root: Key,
    x: Key,
    q: Key,
    n: nat,
)
    requires
        chain(m, x, root, n),
        m.contains_key(root),
        m[root].parent is None,
        x != root,
        m.contains_key(x),
        m[x].parent == Some(q),
    ensures
        !reaches(m, q, x),
    decreases n,
{
    if reaches(m, q, x) {
        let j = choose|j: nat| chain(m, q, x, j);
        if q == root {
            assert(chain(m, root, x, j));
            assert(!(m[root].parent is Some));
        } else {
            assert(chain(m, q, root, (n - 1) as nat));
            let q2 = m[q].parent.unwrap();
            if q == x {
                assert(chain(m, q2, q, j));
            } else {
                assert(chain(m, q2, x, (j - 1) as nat));
                assert(chain(m, q, q, 0));
                assert(chain(m, x, q, 1));
                lemma_chain_trans(m, q2, x, q, (j - 1) as nat, 1);
            }
            assert(reaches(m, q2, q));
            lemma_reach_root_no_cycle(m, root, q, q2, (n - 1) as nat);
        }
    }
}

} // verus!
