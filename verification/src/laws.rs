//! Laws of the prefix tree.
//!
//! The operations' contracts speak of two models: the map from key
//! sequences to values (`view`), and the tree's own shape (`wf`,
//! `spec_is_empty`). The laws below state, over those models, what a chain
//! of operations yields.

use vstd::prelude::*;

use crate::tree::PrefixTree;

verus! {

/// Round trip: inserting a value at a sequence and then looking that exact
/// sequence up yields the inserted value.
pub proof fn lemma_insert_get_round_trip<K, V>(m: Map<Seq<K>, V>, s: Seq<K>, v: V)
    ensures
        m.insert(s, v).contains_key(s),
        m.insert(s, v)[s] == v,
{
}

/// Overwrite: inserting at the same sequence twice duplicates nothing. The
/// second insertion finds (and returns) the first value, and a lookup
/// afterwards yields the second value.
pub proof fn lemma_overwrite<K, V>(m: Map<Seq<K>, V>, s: Seq<K>, v1: V, v2: V)
    ensures
        m.insert(s, v1).contains_key(s),
        m.insert(s, v1)[s] == v1,
        m.insert(s, v1).insert(s, v2).contains_key(s),
        m.insert(s, v1).insert(s, v2)[s] == v2,
{
}

/// Removal round trip: after inserting a value at a sequence, removing that
/// exact sequence finds (and returns) the value, and a lookup afterwards
/// finds nothing.
pub proof fn lemma_remove_round_trip<K, V>(m: Map<Seq<K>, V>, s: Seq<K>, v: V)
    ensures
        m.insert(s, v).contains_key(s),
        m.insert(s, v)[s] == v,
        !m.insert(s, v).remove(s).contains_key(s),
{
}

/// A well-formed tree that is not structurally empty stores at least one
/// value: well-formedness admits no dead branch that could hide an
/// entryless subtree.
pub proof fn lemma_nonempty_tree_stores_something<K, V>(t: PrefixTree<K, V>)
    requires
        t.wf(),
        !t.spec_is_empty(),
    ensures
        exists|s: Seq<K>| #[trigger] t.spec_get(s) is Some,
    decreases t,
{
    if t.value is Some {
        assert(t.spec_get(Seq::<K>::empty()) is Some);
    } else {
        let e = t.subtrees@[0];
        lemma_nonempty_tree_stores_something(e.1);
        let s0 = choose|s: Seq<K>| #[trigger] e.1.spec_get(s) is Some;
        let s1 = seq![e.0] + s0;
        assert(s1[0] == e.0);
        assert(s1.drop_first() =~= s0);
        assert(PrefixTree::<K, V>::key_index(t.subtrees@, e.0) == 0);
        assert(t.spec_get(s1) == e.1.spec_get(s0));
    }
}

/// Full pruning: a well-formed tree that stores nothing is structurally
/// equal to the empty tree. In particular, removing the last value of a
/// deep branch collapses the whole branch.
pub proof fn lemma_empty_view_is_empty_tree<K, V>(t: PrefixTree<K, V>)
    requires
        t.wf(),
        t@ == Map::<Seq<K>, V>::empty(),
    ensures
        t.spec_is_empty(),
{
    if !t.spec_is_empty() {
        lemma_nonempty_tree_stores_something(t);
        let s = choose|s: Seq<K>| #[trigger] t.spec_get(s) is Some;
        assert(t@.contains_key(s));
        assert(false);
    }
}

} // verus!
