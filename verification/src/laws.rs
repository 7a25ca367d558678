//! Laws of the tree: each states, over the abstract model alone, a
//! property that the operations' contracts guarantee together.
use vstd::prelude::*;

use crate::model::{
    child_index, has_kv, is_inner, lemma_child_index_label, lemma_has_kv_decompose, lemma_wf_alt,
    spec_child, spec_has_child, spec_partial, spec_prefix_len, spec_term, two_edges, wf_node,
};
use crate::{Art, Node, MAX_PREFIX};

verus! {

/// At most one value is stored under a key in a well-formed subtree.
pub proof fn lemma_key_unique(n: Node, d: int, k: Seq<u8>, v1: Seq<u8>, v2: Seq<u8>)
    requires
        wf_node(n, d),
        has_kv(n, k, v1),
        has_kv(n, k, v2),
    ensures
        v1 == v2,
    decreases n,
{
    match n {
        Node::Empty => {},
        Node::Leaf(_) => {},
        _ => {
            lemma_wf_alt(n, d);
            lemma_has_kv_decompose(n, k, v1);
            lemma_has_kv_decompose(n, k, v2);
            let e = d + spec_prefix_len(n);
            if exists|c: u8| #[trigger] spec_has_child(n, c) && has_kv(spec_child(n, c), k, v1) {
                let c1 = choose|c: u8| #[trigger]
                    spec_has_child(n, c) && has_kv(spec_child(n, c), k, v1);
                assert(k.len() > e && k[e] == c1);
                if exists|c: u8| #[trigger] spec_has_child(n, c) && has_kv(spec_child(n, c), k, v2) {
                    let c2 = choose|c: u8| #[trigger]
                        spec_has_child(n, c) && has_kv(spec_child(n, c), k, v2);
                    assert(k[e] == c2);
                    assert(c1 == c2);
                    proof_decreases_child(n, c1);
                    lemma_key_unique(spec_child(n, c1), e + 1, k, v1, v2);
                } else {
                    match spec_term(n) {
                        Some(t) => {
                            match *t {
                                Node::Leaf(l) => {
                                    assert(l.key@ == k && l.key@.len() == e);
                                    assert(false);
                                },
                                _ => {
                                    assert(false);
                                },
                            }
                        },
                        None => {
                            assert(false);
                        },
                    }
                }
            } else {
                match spec_term(n) {
                    Some(t) => {
                        match *t {
                            Node::Leaf(l) => {
                                if exists|c: u8| #[trigger]
                                    spec_has_child(n, c) && has_kv(spec_child(n, c), k, v2) {
                                    let c2 = choose|c: u8| #[trigger]
                                        spec_has_child(n, c) && has_kv(spec_child(n, c), k, v2);
                                    assert(k.len() > e);
                                    assert(l.key@ == k && l.key@.len() == e);
                                    assert(false);
                                }
                                assert(v1 == l.value@ && v2 == l.value@);
                            },
                            _ => {
                                assert(false);
                            },
                        }
                    },
                    None => {
                        assert(false);
                    },
                }
            }
        },
    }
}

/// Helper for structural recursion through a chosen child.
proof fn proof_decreases_child(n: Node, c: u8)
    requires
        is_inner(n),
        crate::model::shape_ok(n),
        spec_has_child(n, c),
    ensures
        decreases_to!(n => spec_child(n, c)),
{
    match n {
        Node::Node4(m) => {
            lemma_child_index_label(m.children@, c);
            let i = child_index(m.children@, c);
            assert(decreases_to!(n => m.children@[i].1));
        },
        Node::Node16(m) => {
            lemma_child_index_label(m.children@, c);
            let i = child_index(m.children@, c);
            assert(decreases_to!(n => m.children@[i].1));
        },
        Node::Node256(m) => {
            assert(decreases_to!(n => m.children@[c as int]));
        },
        _ => {},
    }
}

/// The inline prefix of every inner node holds exactly the first
/// `min(prefix_len, MAX_PREFIX)` bytes, from the node's depth on, of every
/// key stored below it.
pub proof fn lemma_partial_matches_keys(n: Node, d: int, k: Seq<u8>, v: Seq<u8>)
    requires
        is_inner(n),
        wf_node(n, d),
        has_kv(n, k, v),
    ensures
        spec_partial(n).len() == vstd::math::min(spec_prefix_len(n), MAX_PREFIX as int),
        k.len() >= d + spec_prefix_len(n),
        spec_partial(n) == k.subrange(d, d + spec_partial(n).len()),
{
    lemma_wf_alt(n, d);
}

/// No well-formed inner node has fewer than two outgoing edges, the
/// terminal leaf counted.
pub proof fn lemma_at_least_two_edges(n: Node, d: int)
    requires
        is_inner(n),
        wf_node(n, d),
    ensures
        two_edges(n),
{
    lemma_wf_alt(n, d);
}

/// At most one value is stored under a key in a well-formed tree.
pub proof fn lemma_value_unique(t: Art, k: Seq<u8>, v1: Seq<u8>, v2: Seq<u8>)
    requires
        t.wf(),
        t.contains_pair(k, v1),
        t.contains_pair(k, v2),
    ensures
        v1 == v2,
{
    lemma_key_unique(t.root, 0, k, v1, v2);
}

/// What `search` guarantees about its result, stated over views.
pub open spec fn search_post(t: Art, key: Seq<u8>, r: Option<Seq<u8>>) -> bool {
    match r {
        Some(v) => t.contains_pair(key, v),
        None => forall|v: Seq<u8>| !t.contains_pair(key, v),
    }
}

/// Every stored pair is found: a search result for a stored key is exactly
/// the stored value.
pub proof fn lemma_search_finds_stored(t: Art, key: Seq<u8>, v: Seq<u8>, r: Option<Seq<u8>>)
    requires
        t.wf(),
        t.contains_pair(key, v),
        search_post(t, key, r),
    ensures
        r == Some(v),
{
    match r {
        Some(v2) => {
            lemma_value_unique(t, key, v2, v);
        },
        None => {
            assert(!t.contains_pair(key, v));
        },
    }
}

/// A key never stored is never found.
pub proof fn lemma_search_absent(t: Art, key: Seq<u8>, r: Option<Seq<u8>>)
    requires
        t.wf(),
        !t.contains_key(key),
        search_post(t, key, r),
    ensures
        r is None,
{
    match r {
        Some(v) => {
            assert(t.contains_pair(key, v));
            assert(t.contains_key(key));
        },
        None => {},
    }
}

/// What `insert` guarantees, stated over views: the new state stores the
/// pair, keeps every other pair, and counts the key once.
pub open spec fn insert_post(pre: Art, post: Art, key: Seq<u8>, value: Seq<u8>) -> bool {
    &&& post.wf()
    &&& forall|k: Seq<u8>, v: Seq<u8>| #[trigger]
        post.contains_pair(k, v) <==> (if k == key {
            v == value
        } else {
            pre.contains_pair(k, v)
        })
    &&& post.spec_len() == pre.spec_len() + (if pre.contains_key(key) {
        0int
    } else {
        1int
    })
}

/// The size counter equals the number of distinct keys ever stored.
pub proof fn lemma_len_counts_keys(t: Art)
    requires
        t.wf(),
    ensures
        t.key_set().finite(),
        t.spec_len() == t.key_set().len(),
        forall|k: Seq<u8>| #[trigger] t.key_set().contains(k) <==> t.contains_key(k),
{
}

/// The tree reports empty exactly when no key is stored.
pub proof fn lemma_empty_iff_no_keys(t: Art)
    requires
        t.wf(),
    ensures
        (t.spec_len() == 0) <==> (forall|k: Seq<u8>| !t.contains_key(k)),
{
    if t.spec_len() == 0 {
        t.key_set().lemma_len0_is_empty();
        assert forall|k: Seq<u8>| !t.contains_key(k) by {
            assert(!t.key_set().contains(k));
        }
    } else {
        let k = t.key_set().choose();
        assert(t.key_set().contains(k));
        assert(t.contains_key(k));
    }
}

/// Inserting the same pair twice leaves both the stored pairs and the
/// length unchanged.
pub proof fn lemma_insert_same_pair_twice(
    s0: Art,
    s1: Art,
    s2: Art,
    k: Seq<u8>,
    v: Seq<u8>,
)
    requires
        s0.wf(),
        insert_post(s0, s1, k, v),
        insert_post(s1, s2, k, v),
    ensures
        s2.spec_len() == s1.spec_len(),
        forall|k2: Seq<u8>, v2: Seq<u8>| #[trigger]
            s2.contains_pair(k2, v2) <==> s1.contains_pair(k2, v2),
{
    assert(s1.contains_pair(k, v));
    assert(s1.contains_key(k));
}

/// Overwriting a key stores the second value and counts the key only once.
pub proof fn lemma_insert_overwrite(
    s0: Art,
    s1: Art,
    s2: Art,
    k: Seq<u8>,
    v1: Seq<u8>,
    v2: Seq<u8>,
)
    requires
        s0.wf(),
        insert_post(s0, s1, k, v1),
        insert_post(s1, s2, k, v2),
    ensures
        s2.contains_pair(k, v2),
        s2.spec_len() == s0.spec_len() + (if s0.contains_key(k) {
            0int
        } else {
            1int
        }),
{
    assert(s1.contains_pair(k, v1));
    assert(s1.contains_key(k));
}

/// Inserting two pairs with distinct keys stores the same pairs in either
/// order: repeated exchanges extend this to any insertion order.
pub proof fn lemma_insert_order_irrelevant(
    s0: Art,
    s1: Art,
    s2: Art,
    t1: Art,
    t2: Art,
    k1: Seq<u8>,
    v1: Seq<u8>,
    k2: Seq<u8>,
    v2: Seq<u8>,
)
    requires
        s0.wf(),
        k1 != k2,
        insert_post(s0, s1, k1, v1),
        insert_post(s1, s2, k2, v2),
        insert_post(s0, t1, k2, v2),
        insert_post(t1, t2, k1, v1),
    ensures
        forall|k: Seq<u8>, v: Seq<u8>| #[trigger] s2.contains_pair(k, v) <==> t2.contains_pair(
            k,
            v,
        ),
        s2.spec_len() == t2.spec_len(),
{
    assert(s1.contains_key(k2) == s0.contains_key(k2)) by {
        if s1.contains_key(k2) {
            let v = choose|v: Seq<u8>| has_kv(s1.root, k2, v);
            assert(s1.contains_pair(k2, v));
            assert(s0.contains_pair(k2, v));
            assert(has_kv(s0.root, k2, v));
        }
        if s0.contains_key(k2) {
            let v = choose|v: Seq<u8>| has_kv(s0.root, k2, v);
            assert(s0.contains_pair(k2, v));
            assert(s1.contains_pair(k2, v));
            assert(has_kv(s1.root, k2, v));
        }
    }
    assert(t1.contains_key(k1) == s0.contains_key(k1)) by {
        if t1.contains_key(k1) {
            let v = choose|v: Seq<u8>| has_kv(t1.root, k1, v);
            assert(t1.contains_pair(k1, v));
            assert(s0.contains_pair(k1, v));
            assert(has_kv(s0.root, k1, v));
        }
        if s0.contains_key(k1) {
            let v = choose|v: Seq<u8>| has_kv(s0.root, k1, v);
            assert(s0.contains_pair(k1, v));
            assert(t1.contains_pair(k1, v));
            assert(has_kv(t1.root, k1, v));
        }
    }
}

/// `states` records the tree before and after each insertion of `pairs`,
/// in order: `states[i + 1]` arose from inserting `pairs[i]` into
/// `states[i]`.
pub open spec fn inserts_chain(states: Seq<Art>, pairs: Seq<(Seq<u8>, Seq<u8>)>) -> bool {
    &&& states.len() == pairs.len() + 1
    &&& forall|i: int|
        0 <= i < pairs.len() ==> insert_post(
            states[i],
            #[trigger] states[i + 1],
            pairs[i].0,
            pairs[i].1,
        )
}

/// After a chain of insertions the stored pairs are determined by the
/// insertions alone: the last value written under a key wins, and a key
/// never written keeps its prior binding.
pub proof fn lemma_chain_content(
    states: Seq<Art>,
    pairs: Seq<(Seq<u8>, Seq<u8>)>,
    k: Seq<u8>,
    v: Seq<u8>,
)
    requires
        inserts_chain(states, pairs),
    ensures
        states.last().contains_pair(k, v) <==> ((exists|i: int|
            0 <= i < pairs.len() && #[trigger] pairs[i] == (k, v) && (forall|j: int|
                i < j < pairs.len() ==> (#[trigger] pairs[j]).0 != k)) || ((forall|i: int|
            0 <= i < pairs.len() ==> (#[trigger] pairs[i]).0 != k) && states.first().contains_pair(
            k,
            v,
        ))),
    decreases pairs.len(),
{
    if pairs.len() == 0 {
        assert(states.last() == states.first());
    } else {
        let n = pairs.len() as int;
        let sp = states.drop_last();
        let pp = pairs.drop_last();
        assert(inserts_chain(sp, pp)) by {
            assert forall|i: int| 0 <= i < pp.len() implies insert_post(
                sp[i],
                #[trigger] sp[i + 1],
                pp[i].0,
                pp[i].1,
            ) by {
                assert(sp[i] == states[i] && sp[i + 1] == states[i + 1] && pp[i] == pairs[i]);
            }
        }
        lemma_chain_content(sp, pp, k, v);
        assert(sp.last() == states[n - 1]);
        assert(sp.first() == states.first());
        assert(insert_post(states[n - 1], states[n], pairs[n - 1].0, pairs[n - 1].1));
        assert(states.last() == states[n]);
        let lastp = pairs[n - 1];
        if k == lastp.0 {
            if states.last().contains_pair(k, v) {
                assert(v == lastp.1);
                assert(pairs[n - 1] == (k, v));
            }
            if exists|i: int|
                0 <= i < pairs.len() && #[trigger] pairs[i] == (k, v) && (forall|j: int|
                    i < j < pairs.len() ==> (#[trigger] pairs[j]).0 != k) {
                let i = choose|i: int|
                    0 <= i < pairs.len() && #[trigger] pairs[i] == (k, v) && (forall|j: int|
                        i < j < pairs.len() ==> (#[trigger] pairs[j]).0 != k);
                if i < n - 1 {
                    assert(pairs[n - 1].0 != k);
                    assert(false);
                }
                assert(v == lastp.1);
                assert(states.last().contains_pair(k, v));
            }
        } else {
            assert(states.last().contains_pair(k, v) == states[n - 1].contains_pair(k, v));
            if states.last().contains_pair(k, v) {
                if exists|i: int|
                    0 <= i < pp.len() && #[trigger] pp[i] == (k, v) && (forall|j: int|
                        i < j < pp.len() ==> (#[trigger] pp[j]).0 != k) {
                    let i = choose|i: int|
                        0 <= i < pp.len() && #[trigger] pp[i] == (k, v) && (forall|j: int|
                            i < j < pp.len() ==> (#[trigger] pp[j]).0 != k);
                    assert(pairs[i] == (k, v));
                    assert forall|j: int| i < j < pairs.len() implies (#[trigger] pairs[j]).0
                        != k by {
                        if j < n - 1 {
                            assert(pp[j] == pairs[j]);
                        }
                    }
                } else {
                    assert forall|i: int| 0 <= i < pairs.len() implies (#[trigger] pairs[i]).0
                        != k by {
                        if i < n - 1 {
                            assert(pp[i] == pairs[i]);
                        }
                    }
                }
            }
            if (exists|i: int|
                0 <= i < pairs.len() && #[trigger] pairs[i] == (k, v) && (forall|j: int|
                    i < j < pairs.len() ==> (#[trigger] pairs[j]).0 != k)) || ((forall|i: int|
                0 <= i < pairs.len() ==> (#[trigger] pairs[i]).0 != k)
                && states.first().contains_pair(k, v)) {
                if exists|i: int|
                    0 <= i < pairs.len() && #[trigger] pairs[i] == (k, v) && (forall|j: int|
                        i < j < pairs.len() ==> (#[trigger] pairs[j]).0 != k) {
                    let i = choose|i: int|
                        0 <= i < pairs.len() && #[trigger] pairs[i] == (k, v) && (forall|j: int|
                            i < j < pairs.len() ==> (#[trigger] pairs[j]).0 != k);
                    assert(i != n - 1);
                    assert(pp[i] == (k, v));
                    assert forall|j: int| i < j < pp.len() implies (#[trigger] pp[j]).0 != k by {
                        assert(pp[j] == pairs[j]);
                    }
                } else {
                    assert forall|i: int| 0 <= i < pp.len() implies (#[trigger] pp[i]).0 != k by {
                        assert(pp[i] == pairs[i]);
                    }
                }
                assert(states[n - 1].contains_pair(k, v));
            }
        }
    }
}

/// One direction of the order-independence argument.
proof fn lemma_chain_any_order_one(
    states1: Seq<Art>,
    states2: Seq<Art>,
    pairs1: Seq<(Seq<u8>, Seq<u8>)>,
    pairs2: Seq<(Seq<u8>, Seq<u8>)>,
    k: Seq<u8>,
    v: Seq<u8>,
)
    requires
        inserts_chain(states1, pairs1),
        inserts_chain(states2, pairs2),
        states1.first() == states2.first(),
        pairs1.to_multiset() == pairs2.to_multiset(),
        forall|i: int, j: int|
            0 <= i < j < pairs1.len() ==> (#[trigger] pairs1[i]).0 != (#[trigger] pairs1[j]).0,
        forall|i: int, j: int|
            0 <= i < j < pairs2.len() ==> (#[trigger] pairs2[i]).0 != (#[trigger] pairs2[j]).0,
        states1.last().contains_pair(k, v),
    ensures
        states2.last().contains_pair(k, v),
{
    broadcast use vstd::seq_lib::group_to_multiset_ensures;

    lemma_chain_content(states1, pairs1, k, v);
    lemma_chain_content(states2, pairs2, k, v);
    if exists|i: int|
        0 <= i < pairs1.len() && #[trigger] pairs1[i] == (k, v) && (forall|j: int|
            i < j < pairs1.len() ==> (#[trigger] pairs1[j]).0 != k) {
        let i = choose|i: int|
            0 <= i < pairs1.len() && #[trigger] pairs1[i] == (k, v) && (forall|j: int|
                i < j < pairs1.len() ==> (#[trigger] pairs1[j]).0 != k);
        assert(pairs1.contains((k, v)));
        assert(pairs1.to_multiset().count((k, v)) > 0);
        assert(pairs2.contains((k, v)));
        let i2 = choose|i2: int| 0 <= i2 < pairs2.len() && pairs2[i2] == (k, v);
        assert(pairs2[i2] == (k, v));
        assert forall|j: int| i2 < j < pairs2.len() implies (#[trigger] pairs2[j]).0 != k by {
            assert(pairs2[i2].0 == k);
        }
        assert(states2.last().contains_pair(k, v));
    } else {
        assert forall|i: int| 0 <= i < pairs2.len() implies (#[trigger] pairs2[i]).0 != k by {
            if pairs2[i].0 == k {
                assert(pairs2.contains(pairs2[i]));
                assert(pairs2.to_multiset().count(pairs2[i]) > 0);
                assert(pairs1.contains(pairs2[i]));
                let j = choose|j: int| 0 <= j < pairs1.len() && pairs1[j] == pairs2[i];
                assert(pairs1[j].0 == k);
                assert(false);
            }
        }
        assert(states2.first().contains_pair(k, v));
        assert(states2.last().contains_pair(k, v));
    }
}

/// Inserting the same pairs, with distinct keys, in any two orders stores
/// the same pairs, so every later lookup behaves the same.
pub proof fn lemma_insert_any_order(
    states1: Seq<Art>,
    states2: Seq<Art>,
    pairs1: Seq<(Seq<u8>, Seq<u8>)>,
    pairs2: Seq<(Seq<u8>, Seq<u8>)>,
    k: Seq<u8>,
    v: Seq<u8>,
)
    requires
        inserts_chain(states1, pairs1),
        inserts_chain(states2, pairs2),
        states1.first() == states2.first(),
        pairs1.to_multiset() == pairs2.to_multiset(),
        forall|i: int, j: int|
            0 <= i < j < pairs1.len() ==> (#[trigger] pairs1[i]).0 != (#[trigger] pairs1[j]).0,
        forall|i: int, j: int|
            0 <= i < j < pairs2.len() ==> (#[trigger] pairs2[i]).0 != (#[trigger] pairs2[j]).0,
    ensures
        states1.last().contains_pair(k, v) == states2.last().contains_pair(k, v),
{
    if states1.last().contains_pair(k, v) {
        lemma_chain_any_order_one(states1, states2, pairs1, pairs2, k, v);
    }
    if states2.last().contains_pair(k, v) {
        lemma_chain_any_order_one(states2, states1, pairs2, pairs1, k, v);
    }
}

} // verus!
