//! The mathematical value of a flat node list: a finite map from key to
//! node view, together with the lemmas that track that map through the
//! list operations the index performs.

use vstd::prelude::*;

use crate::node::{Node, NodeView};
use crate::Key;

verus! {

/// Keys of a node list, in list order.
pub open spec fn keys_of(s: Seq<Node>) -> Seq<Key> {
    s.map_values(|n: Node| n.key)
}

/// The mathematical values of a node list, in list order.
pub open spec fn views_of(s: Seq<Node>) -> Seq<NodeView> {
    s.map_values(|n: Node| n@)
}

/// The mapping that a flat node list represents. A later entry with the
/// same key would win; the index keeps keys unique, so each entry is the
/// one binding of its key.
pub open spec fn map_of(s: Seq<Node>) -> Map<Key, NodeView>
    decreases s.len(),
{
    if s.len() == 0 {
        Map::empty()
    } else {
        map_of(s.drop_last()).insert(s.last().key, s.last()@)
    }
}

/// The domain of the represented map is exactly the set of listed keys.
pub proof fn lemma_map_of_dom(s: Seq<Node>)
    ensures
        map_of(s).dom() =~= keys_of(s).to_set(),
        map_of(s).dom().finite(),
    decreases s.len(),
{
    if s.len() == 0 {
        assert(keys_of(s).to_set() =~= Set::<Key>::empty());
    } else {
        lemma_map_of_dom(s.drop_last());
        assert(keys_of(s.drop_last()) =~= keys_of(s).drop_last());
        assert forall|k: Key| keys_of(s).to_set().contains(k) implies map_of(s).dom().contains(
            k,
        ) by {
            let i = choose|i: int| 0 <= i < keys_of(s).len() && keys_of(s)[i] == k;
            if i < s.len() - 1 {
                assert(keys_of(s).drop_last()[i] == k);
                assert(keys_of(s.drop_last()).to_set().contains(k));
            }
        };
        assert forall|k: Key| map_of(s).dom().contains(k) implies keys_of(s).to_set().contains(
            k,
        ) by {
            if k == s.last().key {
                assert(keys_of(s)[s.len() - 1] == k);
            } else {
                let i = choose|i: int|
                    0 <= i < keys_of(s.drop_last()).len() && keys_of(s.drop_last())[i] == k;
                assert(keys_of(s)[i] == k);
            }
        };
    }
}

/// A listed key is in the map; under unique keys its binding is the view
/// of its entry.
pub proof fn lemma_map_of_index(s: Seq<Node>, i: int)
    requires
        keys_of(s).no_duplicates(),
        0 <= i < s.len(),
    ensures
        map_of(s).contains_key(s[i].key),
        map_of(s)[s[i].key] == s[i]@,
    decreases s.len(),
{
    if i == s.len() - 1 {
    } else {
        assert(keys_of(s.drop_last()) =~= keys_of(s).drop_last());
        lemma_map_of_index(s.drop_last(), i);
        assert(keys_of(s)[i] == s[i].key);
        assert(keys_of(s)[s.len() - 1] == s.last().key);
        assert(s[i].key != s.last().key);
    }
}

/// Replacing the entry at `i`, key unchanged, updates its binding alone.
pub proof fn lemma_map_of_update(s: Seq<Node>, i: int, n: Node)
    requires
        keys_of(s).no_duplicates(),
        0 <= i < s.len(),
        n.key == s[i].key,
    ensures
        map_of(s.update(i, n)) == map_of(s).insert(n.key, n@),
    decreases s.len(),
{
    let s2 = s.update(i, n);
    if i == s.len() - 1 {
        assert(s2.drop_last() =~= s.drop_last());
        assert(s2.last() == n);
        assert(map_of(s2) =~= map_of(s).insert(n.key, n@));
    } else {
        assert(keys_of(s.drop_last()) =~= keys_of(s).drop_last());
        assert(s2.drop_last() =~= s.drop_last().update(i, n));
        assert(s2.last() == s.last());
        lemma_map_of_update(s.drop_last(), i, n);
        assert(keys_of(s)[i] == s[i].key);
        assert(keys_of(s)[s.len() - 1] == s.last().key);
        assert(n.key != s.last().key);
        assert(map_of(s2) =~= map_of(s).insert(n.key, n@));
    }
}

/// Appending an entry adds one binding.
pub proof fn lemma_map_of_push(s: Seq<Node>, n: Node)
    ensures
        map_of(s.push(n)) == map_of(s).insert(n.key, n@),
{
    assert(s.push(n).drop_last() =~= s);
    assert(s.push(n).last() == n);
    assert(map_of(s.push(n)) == map_of(s.push(n).drop_last()).insert(
        s.push(n).last().key,
        s.push(n).last()@,
    ));
}

/// Two node lists with equal views represent the same map.
pub proof fn lemma_map_of_views(s1: Seq<Node>, s2: Seq<Node>)
    requires
        s1.len() == s2.len(),
        forall|i: int| 0 <= i < s1.len() ==> s1[i]@ == s2[i]@,
    ensures
        map_of(s1) == map_of(s2),
    decreases s1.len(),
{
    if s1.len() > 0 {
        assert forall|i: int| 0 <= i < s1.drop_last().len() implies s1.drop_last()[i]@
            == s2.drop_last()[i]@ by {
            assert(s1[i]@ == s2[i]@);
        };
        lemma_map_of_views(s1.drop_last(), s2.drop_last());
        assert(s1.last()@ == s2.last()@);
        assert(s1.last().key == s1.last()@.key);
        assert(s2.last().key == s2.last()@.key);
    }
}

/// Every binding of a represented map records its own key.
pub proof fn lemma_map_of_keys_consistent(s: Seq<Node>)
    requires
        keys_of(s).no_duplicates(),
    ensures
        forall|k: Key| #[trigger] map_of(s).contains_key(k) ==> map_of(s)[k].key == k,
{
    lemma_map_of_dom(s);
    assert forall|k: Key| #[trigger] map_of(s).contains_key(k) implies map_of(s)[k].key == k by {
        let i = choose|i: int| 0 <= i < keys_of(s).len() && keys_of(s)[i] == k;
        assert(s[i].key == k);
        lemma_map_of_index(s, i);
    };
}

/// Under unique keys, the map has one binding per entry.
pub proof fn lemma_map_of_len(s: Seq<Node>)
    requires
        keys_of(s).no_duplicates(),
    ensures
        map_of(s).dom().finite(),
        map_of(s).dom().len() == s.len(),
    decreases s.len(),
{
    lemma_map_of_dom(s);
    if s.len() > 0 {
        assert(keys_of(s.drop_last()) =~= keys_of(s).drop_last());
        lemma_map_of_len(s.drop_last());
        lemma_map_of_dom(s.drop_last());
        assert(keys_of(s)[s.len() - 1] == s.last().key);
        assert forall|j: int| 0 <= j < s.len() - 1 implies keys_of(s.drop_last())[j]
            != s.last().key by {
            assert(keys_of(s)[j] == keys_of(s.drop_last())[j]);
        };
        assert(!map_of(s.drop_last()).dom().contains(s.last().key));
        assert(map_of(s).dom() =~= map_of(s.drop_last()).dom().insert(s.last().key));
    }
}

} // verus!
