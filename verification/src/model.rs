//! The mathematical model of the tree: which (key, value) pairs are
//! stored below a node, and the well-formedness invariant that the
//! executable operations maintain.
use vstd::prelude::*;

use crate::{Node, MAX_PREFIX};

verus! {

/// (k, v) is stored at some leaf below `n`.
pub open spec fn has_kv(n: Node, k: Seq<u8>, v: Seq<u8>) -> bool
    decreases n,
{
    match n {
        Node::Empty => false,
        Node::Leaf(l) => l.key@ == k && l.value@ == v,
        Node::Node4(m) => (exists|i: int|
            0 <= i < m.children@.len() && has_kv(#[trigger] m.children@[i].1, k, v)) || (match m
            .term_leaf {
            Some(t) => has_kv(*t, k, v),
            None => false,
        }),
        Node::Node16(m) => (exists|i: int|
            0 <= i < m.children@.len() && has_kv(#[trigger] m.children@[i].1, k, v)) || (match m
            .term_leaf {
            Some(t) => has_kv(*t, k, v),
            None => false,
        }),
        Node::Node256(m) => (exists|i: int|
            0 <= i < m.children@.len() && has_kv(#[trigger] m.children@[i], k, v)) || (match m
            .term_leaf {
            Some(t) => has_kv(*t, k, v),
            None => false,
        }),
    }
}

/// Some value is stored under key `k` below `n`.
pub open spec fn has_key(n: Node, k: Seq<u8>) -> bool {
    exists|v: Seq<u8>| has_kv(n, k, v)
}

/// `n` is an inner node (one of the three adaptive shapes).
pub open spec fn is_inner(n: Node) -> bool {
    n is Node4 || n is Node16 || n is Node256
}

/// Logical length of the compressed prefix of an inner node.
pub open spec fn spec_prefix_len(n: Node) -> int {
    match n {
        Node::Node4(m) => m.meta.prefix_len as int,
        Node::Node16(m) => m.meta.prefix_len as int,
        Node::Node256(m) => m.meta.prefix_len as int,
        _ => 0,
    }
}

/// Inline prefix bytes of an inner node.
pub open spec fn spec_partial(n: Node) -> Seq<u8> {
    match n {
        Node::Node4(m) => m.meta.partial@,
        Node::Node16(m) => m.meta.partial@,
        Node::Node256(m) => m.meta.partial@,
        _ => Seq::empty(),
    }
}

/// Terminal-leaf slot of an inner node.
pub open spec fn spec_term(n: Node) -> Option<Box<Node>> {
    match n {
        Node::Node4(m) => m.term_leaf,
        Node::Node16(m) => m.term_leaf,
        Node::Node256(m) => m.term_leaf,
        _ => None,
    }
}

/// The node has a label-indexed child under byte `c`.
pub open spec fn spec_has_child(n: Node, c: u8) -> bool {
    match n {
        Node::Node4(m) => exists|i: int|
            0 <= i < m.children@.len() && (#[trigger] m.children@[i]).0 == c,
        Node::Node16(m) => exists|i: int|
            0 <= i < m.children@.len() && (#[trigger] m.children@[i]).0 == c,
        Node::Node256(m) => (c as int) < m.children@.len() && !(m.children@[c as int] is Empty),
        _ => false,
    }
}

/// Some pair in `s` carries label `c`.
pub open spec fn has_label(s: Seq<(u8, Node)>, c: u8) -> bool {
    exists|i: int| 0 <= i < s.len() && (#[trigger] s[i]).0 == c
}

/// Position of label `c` in a (label, child) pair sequence.
pub open spec fn child_index(s: Seq<(u8, Node)>, c: u8) -> int {
    choose|i: int| 0 <= i < s.len() && (#[trigger] s[i]).0 == c
}

/// The child reached from `n` under label `c`.
pub open spec fn spec_child(n: Node, c: u8) -> Node {
    match n {
        Node::Node4(m) => m.children@[child_index(m.children@, c)].1,
        Node::Node16(m) => m.children@[child_index(m.children@, c)].1,
        Node::Node256(m) => m.children@[c as int],
        _ => Node::Empty,
    }
}

/// 1 if the terminal-leaf slot is occupied.
pub open spec fn term_count(t: Option<Box<Node>>) -> nat {
    match t {
        Some(_) => 1,
        None => 0,
    }
}

/// The node has at least one outgoing edge (a label child or the
/// terminal leaf).
pub open spec fn one_edge(n: Node) -> bool {
    match n {
        Node::Node4(m) => m.children@.len() + term_count(m.term_leaf) >= 1,
        Node::Node16(m) => m.children@.len() + term_count(m.term_leaf) >= 1,
        Node::Node256(m) => m.term_leaf is Some || exists|c: int|
            0 <= c < 256 && !((#[trigger] m.children@[c]) is Empty),
        _ => false,
    }
}

/// The node has at least two outgoing edges, the terminal leaf counted.
pub open spec fn two_edges(n: Node) -> bool {
    match n {
        Node::Node4(m) => m.children@.len() + term_count(m.term_leaf) >= 2,
        Node::Node16(m) => m.children@.len() + term_count(m.term_leaf) >= 2,
        Node::Node256(m) => (m.term_leaf is Some && exists|c: int|
            0 <= c < 256 && !((#[trigger] m.children@[c]) is Empty)) || (exists|c1: int, c2: int|
            0 <= c1 < c2 < 256 && !((#[trigger] m.children@[c1]) is Empty) && !((
            #[trigger] m.children@[c2]) is Empty)),
        _ => false,
    }
}

/// Labels strictly increase, so they are distinct and in sorted order.
pub open spec fn labels_sorted(s: Seq<(u8, Node)>) -> bool {
    forall|i: int, j: int| 0 <= i < j < s.len() ==> (#[trigger] s[i]).0 < (#[trigger] s[j]).0
}

/// Representation invariant of each shape's child storage.
pub open spec fn shape_ok(n: Node) -> bool {
    match n {
        Node::Node4(m) => m.children@.len() <= 4 && labels_sorted(m.children@) && (forall|i: int|
            0 <= i < m.children@.len() ==> !((#[trigger] m.children@[i]).1 is Empty)),
        Node::Node16(m) => m.children@.len() <= 16 && labels_sorted(m.children@) && (forall|i: int|
            0 <= i < m.children@.len() ==> !((#[trigger] m.children@[i]).1 is Empty)),
        Node::Node256(m) => m.children@.len() == 256,
        _ => false,
    }
}

/// The terminal-leaf slot, when occupied, holds a leaf whose key ends
/// exactly at depth `e`.
pub open spec fn term_ok(t: Option<Box<Node>>, e: int) -> bool {
    match t {
        Some(b) => match *b {
            Node::Leaf(l) => l.key@.len() == e,
            _ => false,
        },
        None => true,
    }
}

/// The prefix metadata of inner node `n` at depth `d` describes every key
/// stored below it: all keys run past the full compressed prefix, agree
/// with each other over it, and start with the inline bytes at `d`.
pub open spec fn prefix_ok(n: Node, d: int) -> bool {
    let plen = spec_prefix_len(n);
    let partial = spec_partial(n);
    &&& partial.len() == vstd::math::min(plen, MAX_PREFIX as int)
    &&& forall|k: Seq<u8>, v: Seq<u8>| #[trigger]
        has_kv(n, k, v) ==> k.len() >= d + plen && partial == k.subrange(d, d + partial.len())
    &&& forall|k1: Seq<u8>, v1: Seq<u8>, k2: Seq<u8>, v2: Seq<u8>|
        #![trigger has_kv(n, k1, v1), has_kv(n, k2, v2)]
        has_kv(n, k1, v1) && has_kv(n, k2, v2) ==> k1.subrange(d, d + plen) == k2.subrange(
            d,
            d + plen,
        )
}

/// Well-formedness of the subtree rooted at `n`, sitting at logical depth
/// `d` (number of key bytes consumed above it).
pub open spec fn wf_node(n: Node, d: int) -> bool
    decreases n,
{
    match n {
        Node::Empty => false,
        Node::Leaf(l) => 0 <= d <= l.key@.len(),
        Node::Node4(m) => {
            let e = d + m.meta.prefix_len as int;
            &&& d >= 0
            &&& prefix_ok(n, d)
            &&& shape_ok(n)
            &&& two_edges(n)
            &&& term_ok(m.term_leaf, e)
            &&& forall|i: int|
                0 <= i < m.children@.len() ==> wf_node((#[trigger] m.children@[i]).1, e + 1)
            &&& forall|i: int, k: Seq<u8>, v: Seq<u8>|
                0 <= i < m.children@.len() && #[trigger] has_kv(m.children@[i].1, k, v) ==> k.len()
                    > e && k[e] == m.children@[i].0
        },
        Node::Node16(m) => {
            let e = d + m.meta.prefix_len as int;
            &&& d >= 0
            &&& prefix_ok(n, d)
            &&& shape_ok(n)
            &&& two_edges(n)
            &&& term_ok(m.term_leaf, e)
            &&& forall|i: int|
                0 <= i < m.children@.len() ==> wf_node((#[trigger] m.children@[i]).1, e + 1)
            &&& forall|i: int, k: Seq<u8>, v: Seq<u8>|
                0 <= i < m.children@.len() && #[trigger] has_kv(m.children@[i].1, k, v) ==> k.len()
                    > e && k[e] == m.children@[i].0
        },
        Node::Node256(m) => {
            let e = d + m.meta.prefix_len as int;
            &&& d >= 0
            &&& prefix_ok(n, d)
            &&& shape_ok(n)
            &&& two_edges(n)
            &&& term_ok(m.term_leaf, e)
            &&& forall|c: int|
                0 <= c < 256 && !((#[trigger] m.children@[c]) is Empty) ==> wf_node(
                    m.children@[c],
                    e + 1,
                )
            &&& forall|c: int, k: Seq<u8>, v: Seq<u8>|
                0 <= c < 256 && #[trigger] has_kv(m.children@[c], k, v) ==> k.len() > e && k[e]
                    == c
        },
    }
}

/// Well-formedness of an inner node, restated over the uniform child
/// accessors instead of each shape's storage indices.
pub open spec fn wf_alt(n: Node, d: int) -> bool {
    let e = d + spec_prefix_len(n);
    &&& d >= 0
    &&& prefix_ok(n, d)
    &&& shape_ok(n)
    &&& two_edges(n)
    &&& term_ok(spec_term(n), e)
    &&& forall|c: u8| #[trigger]
        spec_has_child(n, c) ==> wf_node(spec_child(n, c), e + 1)
    &&& forall|c: u8, k: Seq<u8>, v: Seq<u8>|
        spec_has_child(n, c) && #[trigger] has_kv(spec_child(n, c), k, v) ==> k.len() > e && k[e]
            == c
}

/// When label `c` occurs in `s`, `child_index` picks a valid position
/// carrying it.
pub proof fn lemma_child_index_label(s: Seq<(u8, Node)>, c: u8)
    requires
        has_label(s, c),
    ensures
        0 <= child_index(s, c) < s.len(),
        s[child_index(s, c)].0 == c,
{
}

/// Under sorted (hence distinct) labels, `child_index` finds exactly the
/// position that carries the label.
pub proof fn lemma_child_index_unique(s: Seq<(u8, Node)>, c: u8, i: int)
    requires
        labels_sorted(s),
        0 <= i < s.len(),
        s[i].0 == c,
    ensures
        child_index(s, c) == i,
{
    assert(has_label(s, c));
    lemma_child_index_label(s, c);
    let j = child_index(s, c);
    if j < i {
        assert(s[j].0 < s[i].0);
    } else if j > i {
        assert(s[i].0 < s[j].0);
    }
}

/// The two statements of inner-node well-formedness agree.
pub proof fn lemma_wf_alt(n: Node, d: int)
    requires
        is_inner(n),
        shape_ok(n),
    ensures
        wf_node(n, d) <==> wf_alt(n, d),
{
    let e = d + spec_prefix_len(n);
    match n {
        Node::Node4(m) => {
            let s = m.children@;
            lemma_wf_alt_pairs(n, s, d);
        },
        Node::Node16(m) => {
            let s = m.children@;
            lemma_wf_alt_pairs(n, s, d);
        },
        Node::Node256(m) => {
            let s = m.children@;
            if wf_node(n, d) {
                assert forall|c: u8| #[trigger] spec_has_child(n, c) implies wf_node(
                    spec_child(n, c),
                    e + 1,
                ) by {
                    assert(!(s[c as int] is Empty));
                }
                assert forall|c: u8, k: Seq<u8>, v: Seq<u8>|
                    spec_has_child(n, c) && #[trigger] has_kv(spec_child(n, c), k, v) implies k.len()
                    > e && k[e] == c by {
                    assert(has_kv(s[c as int], k, v));
                }
                assert(wf_alt(n, d));
            }
            if wf_alt(n, d) {
                assert forall|c: int| 0 <= c < 256 && !((#[trigger] s[c]) is Empty) implies wf_node(
                    s[c],
                    e + 1,
                ) by {
                    assert(spec_has_child(n, c as u8));
                    assert(spec_child(n, c as u8) == s[c]);
                }
                assert forall|c: int, k: Seq<u8>, v: Seq<u8>|
                    0 <= c < 256 && #[trigger] has_kv(s[c], k, v) implies k.len() > e && k[e]
                    == c by {
                    assert(!(s[c] is Empty));
                    assert(spec_has_child(n, c as u8));
                    assert(has_kv(spec_child(n, c as u8), k, v));
                }
                assert(wf_node(n, d));
            }
        },
        _ => {},
    }
}

/// Shared proof of `lemma_wf_alt` for the two sorted-pair shapes.
proof fn lemma_wf_alt_pairs(n: Node, s: Seq<(u8, Node)>, d: int)
    requires
        n is Node4 || n is Node16,
        shape_ok(n),
        match n {
            Node::Node4(m) => s == m.children@,
            Node::Node16(m) => s == m.children@,
            _ => false,
        },
    ensures
        wf_node(n, d) <==> wf_alt(n, d),
{
    let e = d + spec_prefix_len(n);
    if wf_node(n, d) {
        assert forall|c: u8| #[trigger] spec_has_child(n, c) implies wf_node(
            spec_child(n, c),
            e + 1,
        ) by {
            lemma_child_index_label(s, c);
            let i = child_index(s, c);
            assert(wf_node(s[i].1, e + 1));
        }
        assert forall|c: u8, k: Seq<u8>, v: Seq<u8>|
            spec_has_child(n, c) && #[trigger] has_kv(spec_child(n, c), k, v) implies k.len() > e
            && k[e] == c by {
            lemma_child_index_label(s, c);
            let i = child_index(s, c);
            assert(has_kv(s[i].1, k, v));
        }
        assert(wf_alt(n, d));
    }
    if wf_alt(n, d) {
        assert forall|i: int| 0 <= i < s.len() implies wf_node((#[trigger] s[i]).1, e + 1) by {
            let c = s[i].0;
            assert(spec_has_child(n, c));
            lemma_child_index_unique(s, c, i);
            assert(spec_child(n, c) == s[i].1);
        }
        assert forall|i: int, k: Seq<u8>, v: Seq<u8>|
            0 <= i < s.len() && #[trigger] has_kv(s[i].1, k, v) implies k.len() > e && k[e]
            == s[i].0 by {
            let c = s[i].0;
            assert(spec_has_child(n, c));
            lemma_child_index_unique(s, c, i);
            assert(has_kv(spec_child(n, c), k, v));
        }
        assert(wf_node(n, d));
    }
}

/// A pair is stored below an inner node exactly when it is stored below
/// one of its label children or below its terminal leaf.
pub proof fn lemma_has_kv_decompose(n: Node, k: Seq<u8>, v: Seq<u8>)
    requires
        is_inner(n),
        shape_ok(n),
    ensures
        has_kv(n, k, v) <==> ((exists|c: u8| #[trigger]
            spec_has_child(n, c) && has_kv(spec_child(n, c), k, v)) || (match spec_term(n) {
            Some(t) => has_kv(*t, k, v),
            None => false,
        })),
{
    match n {
        Node::Node4(m) => {
            lemma_has_kv_decompose_pairs(n, m.children@, k, v);
        },
        Node::Node16(m) => {
            lemma_has_kv_decompose_pairs(n, m.children@, k, v);
        },
        Node::Node256(m) => {
            let s = m.children@;
            if exists|i: int| 0 <= i < s.len() && has_kv(#[trigger] s[i], k, v) {
                let i = choose|i: int| 0 <= i < s.len() && has_kv(#[trigger] s[i], k, v);
                assert(!(s[i] is Empty));
                assert(spec_has_child(n, i as u8));
                assert(has_kv(spec_child(n, i as u8), k, v));
            }
            if exists|c: u8| #[trigger] spec_has_child(n, c) && has_kv(spec_child(n, c), k, v) {
                let c = choose|c: u8| #[trigger] spec_has_child(n, c) && has_kv(
                    spec_child(n, c),
                    k,
                    v,
                );
                assert((c as int) < s.len() && has_kv(s[c as int], k, v));
            }
        },
        _ => {},
    }
}

/// Shared proof of `lemma_has_kv_decompose` for the two sorted-pair shapes.
proof fn lemma_has_kv_decompose_pairs(n: Node, s: Seq<(u8, Node)>, k: Seq<u8>, v: Seq<u8>)
    requires
        n is Node4 || n is Node16,
        shape_ok(n),
        match n {
            Node::Node4(m) => s == m.children@,
            Node::Node16(m) => s == m.children@,
            _ => false,
        },
    ensures
        has_kv(n, k, v) <==> ((exists|c: u8| #[trigger]
            spec_has_child(n, c) && has_kv(spec_child(n, c), k, v)) || (match spec_term(n) {
            Some(t) => has_kv(*t, k, v),
            None => false,
        })),
{
    if exists|i: int| 0 <= i < s.len() && has_kv((#[trigger] s[i]).1, k, v) {
        let i = choose|i: int| 0 <= i < s.len() && has_kv((#[trigger] s[i]).1, k, v);
        let c = s[i].0;
        assert(spec_has_child(n, c));
        lemma_child_index_unique(s, c, i);
        assert(spec_child(n, c) == s[i].1);
        assert(has_kv(spec_child(n, c), k, v));
    }
    if exists|c: u8| #[trigger] spec_has_child(n, c) && has_kv(spec_child(n, c), k, v) {
        let c = choose|c: u8| #[trigger] spec_has_child(n, c) && has_kv(spec_child(n, c), k, v);
        lemma_child_index_label(s, c);
        let i = child_index(s, c);
        assert(has_kv(s[i].1, k, v));
    }
}

/// `a` and `b` are inner nodes of the same shape holding the same children
/// and terminal leaf; only their prefix metadata may differ.
pub open spec fn same_children(a: Node, b: Node) -> bool {
    match (a, b) {
        (Node::Node4(x), Node::Node4(y)) => x.children == y.children && x.term_leaf == y.term_leaf,
        (Node::Node16(x), Node::Node16(y)) => x.children == y.children && x.term_leaf
            == y.term_leaf,
        (Node::Node256(x), Node::Node256(y)) => x.children == y.children && x.term_leaf
            == y.term_leaf,
        _ => false,
    }
}

/// Nodes with the same children store the same pairs and expose the same
/// edges.
pub proof fn lemma_same_children(a: Node, b: Node)
    requires
        same_children(a, b),
    ensures
        forall|k: Seq<u8>, v: Seq<u8>| #[trigger] has_kv(a, k, v) == #[trigger] has_kv(b, k, v),
        spec_term(a) == spec_term(b),
        forall|c: u8| #[trigger] spec_has_child(a, c) == #[trigger] spec_has_child(b, c),
        forall|c: u8| #[trigger] spec_child(a, c) == #[trigger] spec_child(b, c),
        one_edge(a) == one_edge(b),
        two_edges(a) == two_edges(b),
        shape_ok(a) == shape_ok(b),
{
}

/// The (label, child) pairs of a sorted-pair shape.
pub open spec fn pairs_of(n: Node) -> Seq<(u8, Node)> {
    match n {
        Node::Node4(m) => m.children@,
        Node::Node16(m) => m.children@,
        _ => Seq::empty(),
    }
}

/// The direct slot array of a `Node256`.
pub open spec fn slots_of(n: Node) -> Seq<Node> {
    match n {
        Node::Node256(m) => m.children@,
        _ => Seq::empty(),
    }
}

/// How many times the node can still grow into a larger shape.
pub open spec fn growth_rank(n: Node) -> nat {
    match n {
        Node::Node4(_) => 2,
        Node::Node16(_) => 1,
        _ => 0,
    }
}

/// Two sorted-pair nodes with the same pairs and terminal leaf store the
/// same pairs and expose the same edges.
pub proof fn lemma_pairs_equiv(a: Node, b: Node)
    requires
        a is Node4 || a is Node16,
        b is Node4 || b is Node16,
        pairs_of(a) == pairs_of(b),
        spec_term(a) == spec_term(b),
    ensures
        forall|k: Seq<u8>, v: Seq<u8>| #[trigger] has_kv(a, k, v) == #[trigger] has_kv(b, k, v),
        forall|c: u8| #[trigger] spec_has_child(a, c) == #[trigger] spec_has_child(b, c),
        forall|c: u8| #[trigger] spec_child(a, c) == #[trigger] spec_child(b, c),
        one_edge(a) == one_edge(b),
        two_edges(a) == two_edges(b),
{
    let s = pairs_of(a);
    assert forall|k: Seq<u8>, v: Seq<u8>| #[trigger]
        has_kv(a, k, v) == #[trigger] has_kv(b, k, v) by {
        if has_kv(a, k, v) {
            assert(has_kv(b, k, v));
        }
        if has_kv(b, k, v) {
            assert(has_kv(a, k, v));
        }
    }
}

/// A `Node256` filled from a sorted-pair node by scattering each pair to
/// the slot of its label stores the same pairs and exposes the same edges.
pub proof fn lemma_scatter_equiv(a: Node, b: Node)
    requires
        a is Node16,
        b is Node256,
        shape_ok(a),
        shape_ok(b),
        spec_term(a) == spec_term(b),
        forall|i: int|
            0 <= i < pairs_of(a).len() ==> slots_of(b)[(#[trigger] pairs_of(a)[i]).0 as int]
                == pairs_of(a)[i].1,
        forall|c: int|
            0 <= c < 256 && !has_label(pairs_of(a), c as u8) ==> (#[trigger] slots_of(b)[c])
                is Empty,
    ensures
        forall|k: Seq<u8>, v: Seq<u8>| #[trigger] has_kv(a, k, v) == #[trigger] has_kv(b, k, v),
        forall|c: u8| #[trigger] spec_has_child(a, c) == #[trigger] spec_has_child(b, c),
        forall|c: u8| spec_has_child(a, c) ==> #[trigger] spec_child(b, c) == spec_child(a, c),
        one_edge(a) ==> one_edge(b),
        two_edges(a) ==> two_edges(b),
{
    let s = pairs_of(a);
    let t = slots_of(b);
    assert forall|c: u8| #[trigger] spec_has_child(a, c) == #[trigger] spec_has_child(b, c) by {
        if spec_has_child(a, c) {
            lemma_child_index_label(s, c);
            let i = child_index(s, c);
            assert(t[c as int] == s[i].1);
            assert(!(s[i].1 is Empty));
        }
        if spec_has_child(b, c) {
            if !has_label(s, c) {
                assert(t[c as int] is Empty);
            }
        }
    }
    assert forall|c: u8| spec_has_child(a, c) implies #[trigger] spec_child(b, c) == spec_child(
        a,
        c,
    ) by {
        lemma_child_index_label(s, c);
        let i = child_index(s, c);
        assert(t[c as int] == s[i].1);
    }
    assert forall|k: Seq<u8>, v: Seq<u8>| #[trigger]
        has_kv(a, k, v) == #[trigger] has_kv(b, k, v) by {
        if has_kv(a, k, v) {
            if exists|i: int| 0 <= i < s.len() && has_kv((#[trigger] s[i]).1, k, v) {
                let i = choose|i: int| 0 <= i < s.len() && has_kv((#[trigger] s[i]).1, k, v);
                assert(t[s[i].0 as int] == s[i].1);
                assert(has_kv(t[s[i].0 as int], k, v));
            }
            assert(has_kv(b, k, v));
        }
        if has_kv(b, k, v) {
            if exists|i: int| 0 <= i < t.len() && has_kv(#[trigger] t[i], k, v) {
                let i = choose|i: int| 0 <= i < t.len() && has_kv(#[trigger] t[i], k, v);
                assert(!(t[i] is Empty));
                if !has_label(s, i as u8) {
                    assert(t[i] is Empty);
                }
                lemma_child_index_label(s, i as u8);
                let j = child_index(s, i as u8);
                assert(t[s[j].0 as int] == s[j].1);
                assert(has_kv(s[j].1, k, v));
            }
            assert(has_kv(a, k, v));
        }
    }
    if one_edge(a) {
        if pairs_of(a).len() >= 1 {
            let c = s[0].0;
            assert(spec_has_child(a, c));
            assert(!(t[c as int] is Empty));
        }
        assert(one_edge(b));
    }
    if two_edges(a) {
        if s.len() >= 2 {
            let c1 = s[0].0;
            let c2 = s[1].0;
            assert(spec_has_child(a, c1));
            assert(spec_has_child(a, c2));
            assert(c1 < c2);
            assert(!(t[c1 as int] is Empty) && !(t[c2 as int] is Empty));
        } else {
            assert(s.len() == 1 && spec_term(a) is Some);
            let c = s[0].0;
            assert(spec_has_child(a, c));
            assert(!(t[c as int] is Empty));
        }
        assert(two_edges(b));
    }
}

/// Every well-formed subtree stores at least one pair, whose key fits in
/// a machine-sized vector.
pub proof fn lemma_wf_has_pair(n: Node, d: int)
    requires
        !(n is Empty),
        wf_node(n, d),
    ensures
        exists|k: Seq<u8>, v: Seq<u8>| #[trigger] has_kv(n, k, v) && k.len() <= usize::MAX,
    decreases n,
{
    match n {
        Node::Leaf(l) => {
            assert(l.key.len() == l.key@.len());
            assert(has_kv(n, l.key@, l.value@) && l.key@.len() <= usize::MAX);
        },
        Node::Node4(m) => {
            match m.term_leaf {
                Some(t) => {
                    match *t {
                        Node::Leaf(l) => {
                            assert(l.key.len() == l.key@.len());
                            assert(has_kv(*t, l.key@, l.value@));
                            assert(has_kv(n, l.key@, l.value@) && l.key@.len() <= usize::MAX);
                        },
                        _ => {
                            assert(false);
                        },
                    }
                },
                None => {
                    let e = d + m.meta.prefix_len as int;
                    assert(m.children@.len() >= 2);
                    assert(wf_node(m.children@[0].1, e + 1));
                    lemma_wf_has_pair(m.children@[0].1, e + 1);
                    let (k, v) = choose|k: Seq<u8>, v: Seq<u8>|
                        #[trigger] has_kv(m.children@[0].1, k, v) && k.len() <= usize::MAX;
                    assert(has_kv(n, k, v) && k.len() <= usize::MAX);
                },
            }
        },
        Node::Node16(m) => {
            match m.term_leaf {
                Some(t) => {
                    match *t {
                        Node::Leaf(l) => {
                            assert(l.key.len() == l.key@.len());
                            assert(has_kv(*t, l.key@, l.value@));
                            assert(has_kv(n, l.key@, l.value@) && l.key@.len() <= usize::MAX);
                        },
                        _ => {
                            assert(false);
                        },
                    }
                },
                None => {
                    let e = d + m.meta.prefix_len as int;
                    assert(m.children@.len() >= 2);
                    assert(wf_node(m.children@[0].1, e + 1));
                    lemma_wf_has_pair(m.children@[0].1, e + 1);
                    let (k, v) = choose|k: Seq<u8>, v: Seq<u8>|
                        #[trigger] has_kv(m.children@[0].1, k, v) && k.len() <= usize::MAX;
                    assert(has_kv(n, k, v) && k.len() <= usize::MAX);
                },
            }
        },
        Node::Node256(m) => {
            match m.term_leaf {
                Some(t) => {
                    match *t {
                        Node::Leaf(l) => {
                            assert(l.key.len() == l.key@.len());
                            assert(has_kv(*t, l.key@, l.value@));
                            assert(has_kv(n, l.key@, l.value@) && l.key@.len() <= usize::MAX);
                        },
                        _ => {
                            assert(false);
                        },
                    }
                },
                None => {
                    let e = d + m.meta.prefix_len as int;
                    assert(two_edges(n));
                    let (c1, c2) = choose|c1: int, c2: int|
                        0 <= c1 < c2 < 256 && !((#[trigger] m.children@[c1]) is Empty) && !((
                        #[trigger] m.children@[c2]) is Empty);
                    assert(wf_node(m.children@[c1], e + 1));
                    lemma_wf_has_pair(m.children@[c1], e + 1);
                    let (k, v) = choose|k: Seq<u8>, v: Seq<u8>|
                        #[trigger] has_kv(m.children@[c1], k, v) && k.len() <= usize::MAX;
                    assert(has_kv(n, k, v) && k.len() <= usize::MAX);
                },
            }
        },
        _ => {},
    }
}

/// Number of occupied slots in a child slot array.
pub open spec fn count_nonempty(s: Seq<Node>) -> nat
    decreases s,
{
    if s.len() == 0 {
        0
    } else {
        count_nonempty(s.drop_last()) + (if s.last() is Empty {
            0nat
        } else {
            1nat
        })
    }
}

/// Counting one more slot adds 1 exactly when that slot is occupied.
pub proof fn lemma_count_nonempty_step(s: Seq<Node>, i: int)
    requires
        0 <= i < s.len(),
    ensures
        count_nonempty(s.subrange(0, i + 1)) == count_nonempty(s.subrange(0, i)) + (if s[i]
            is Empty {
            0nat
        } else {
            1nat
        }),
{
    let t = s.subrange(0, i + 1);
    assert(t.drop_last() =~= s.subrange(0, i));
    assert(t.last() == s[i]);
}

/// Number of outgoing edges of an inner node: label children plus the
/// terminal leaf.
pub open spec fn edge_count(n: Node) -> nat {
    match n {
        Node::Node4(m) => m.children@.len() + term_count(m.term_leaf),
        Node::Node16(m) => m.children@.len() + term_count(m.term_leaf),
        Node::Node256(m) => count_nonempty(m.children@) + term_count(m.term_leaf),
        _ => 0,
    }
}

/// `a` and `b` are inner nodes of the same adaptive shape.
pub open spec fn same_shape(a: Node, b: Node) -> bool {
    ||| (a is Node4 && b is Node4)
    ||| (a is Node16 && b is Node16)
    ||| (a is Node256 && b is Node256)
}

/// `b` is the next larger shape after `a`, entered because `a`'s label
/// slots were full when an edge was added.
pub open spec fn grown_shape(a: Node, b: Node) -> bool {
    ||| (a is Node4 && pairs_of(a).len() == 4 && b is Node16)
    ||| (a is Node16 && pairs_of(a).len() == 16 && b is Node256)
}

} // verus!
