//! The tree handle and its operations: construction, point lookup and
//! insertion, together with the byte-string helpers they share.
use vstd::prelude::*;

use crate::model::{
    grown_shape, has_key, has_kv, is_inner, lemma_has_kv_decompose, lemma_same_children,
    lemma_wf_alt, lemma_wf_has_pair, pairs_of, prefix_ok, same_shape, shape_ok, spec_child,
    spec_has_child, spec_partial, spec_prefix_len, spec_term, term_ok, two_edges, wf_alt, wf_node,
};
use crate::node::lemma_added;
use crate::{Art, Leaf, Node, Node4, MAX_PREFIX};
use vstd::slice::slice_index_get;

verus! {

/// Smaller of two lengths.
pub(crate) fn min_usize(a: usize, b: usize) -> (r: usize)
    ensures
        r == vstd::math::min(a as int, b as int),
{
    if a < b {
        a
    } else {
        b
    }
}

/// Relies on xi_rope::compare::ne_idx: it returns the lowest index, below
/// both lengths, at which the two slices hold different bytes, and `None`
/// when there is no such index.
#[verifier::external_body]
fn ne_idx_bytes(one: &[u8], two: &[u8]) -> (r: Option<usize>)
    ensures
        match r {
            Some(i) => i < one@.len() && i < two@.len() && one@[i as int] != two@[i as int]
                && forall|j: int| 0 <= j < i ==> one@[j] == two@[j],
            None => forall|j: int| 0 <= j < one@.len() && j < two@.len() ==> one@[j] == two@[j],
        },
{
    xi_rope::compare::ne_idx(one, two)
}

/// The bytes of `src` in positions `[from, to)`, copied out.
pub(crate) fn copy_range(src: &[u8], from: usize, to: usize) -> (r: Vec<u8>)
    requires
        from <= to <= src@.len(),
    ensures
        r@ == src@.subrange(from as int, to as int),
{
    let mut out: Vec<u8> = Vec::new();
    let slen = src.len();
    let mut i = from;
    while i < to
        invariant
            from <= i <= to <= slen == src@.len(),
            out@ == src@.subrange(from as int, i as int),
        decreases to - i,
    {
        out.push(*vstd::slice::slice_index_get(src, i));
        proof {
            assert(out@ =~= src@.subrange(from as int, i + 1));
        }
        i += 1;
    }
    out
}

/// Insert into a slot holding a single leaf: replace its value when the
/// keys agree, else promote the pair into a fresh `Node4` below their
/// common prefix.
fn insert_at_leaf(leaf_old: Leaf, key: Vec<u8>, value: Vec<u8>, depth: usize) -> (res: (Node, bool))
    requires
        wf_node(Node::Leaf(leaf_old), depth as int),
        depth <= key@.len(),
        leaf_old.key@.subrange(0, depth as int) == key@.subrange(0, depth as int),
    ensures
        !(res.0 is Empty),
        wf_node(res.0, depth as int),
        forall|k: Seq<u8>, v: Seq<u8>| #[trigger]
            has_kv(res.0, k, v) <==> ((k == key@ && v == value@) || (has_kv(
                Node::Leaf(leaf_old),
                k,
                v,
            ) && k != key@)),
        res.1 == !has_key(Node::Leaf(leaf_old), key@),
        res.1 ==> res.0 is Node4,
        !res.1 ==> res.0 is Leaf,
{
    let ghost n0 = Node::Leaf(leaf_old);
    let ghost lkey = leaf_old.key@;
    let ghost lval = leaf_old.value@;
    let ghost gkey = key@;
    let ghost gval = value@;
    if Art::equals(leaf_old.key.as_slice(), key.as_slice()) {
        let mut leaf2 = leaf_old;
        leaf2.value = value;
        let r = Node::Leaf(leaf2);
        proof {
            assert(has_kv(n0, gkey, lval));
            assert(has_key(n0, gkey));
        }
        (r, false)
    } else {
        let p = Art::longest_common_prefix(&leaf_old.key, &key, depth);
        let mut node4 = Node4::new();
        let part = Art::calculate_partial(&key, depth, p);
        node4.meta.partial = part;
        node4.meta.prefix_len = p;
        let ghost d = depth as int;
        proof {
            assert(key.len() == key@.len());
        }
        let d2 = depth + p;
        let c1 = Node::key_char(&leaf_old.key, d2);
        let ghost a0 = Node::Node4(node4);
        proof {
            assert(crate::model::shape_ok(a0));
            assert forall|k: Seq<u8>, v: Seq<u8>| !(#[trigger] has_kv(a0, k, v)) by {}
        }
        let ghost s0 = node4.children@;
        node4.add_child(Node::Leaf(leaf_old), c1);
        let ghost a1 = Node::Node4(node4);
        proof {
            match c1 {
                Some(c) => {
                    let q = choose|q: int|
                        0 <= q <= s0.len() && node4.children@ == s0.insert(q, (c, Node::Leaf(
                            leaf_old,
                        )));
                    assert(0 <= q <= crate::model::pairs_of(a0).len() && crate::model::pairs_of(a1)
                        == crate::model::pairs_of(a0).insert(q, (c, Node::Leaf(leaf_old))));
                },
                None => {},
            }
            crate::node::lemma_added(a0, a1, Node::Leaf(leaf_old), c1);
        }
        let leaf2 = Leaf::new(key, value);
        let c2 = Node::key_char(&leaf2.key, d2);
        proof {
            if c1 is None && c2 is None {
                assert(lkey.len() == d2 && gkey.len() == d2);
                assert(has_kv(n0, lkey, lval));
                assert forall|j: int| 0 <= j < d2 implies lkey[j] == gkey[j] by {
                    if j < d {
                        assert(lkey.subrange(0, d)[j] == lkey[j]);
                        assert(gkey.subrange(0, d)[j] == gkey[j]);
                    }
                }
                assert(lkey =~= gkey);
                assert(false);
            }
            if c1 is Some && c2 is Some {
                assert(d2 < lkey.len() && d2 < gkey.len());
                assert(lkey[d2 as int] != gkey[d2 as int]);
            }
        }
        let ghost s1 = node4.children@;
        node4.add_child(Node::Leaf(leaf2), c2);
        let r = Node::Node4(node4);
        proof {
            match c2 {
                Some(c) => {
                    let q = choose|q: int|
                        0 <= q <= s1.len() && node4.children@ == s1.insert(q, (c, Node::Leaf(
                            leaf2,
                        )));
                    assert(0 <= q <= crate::model::pairs_of(a1).len() && crate::model::pairs_of(r)
                        == crate::model::pairs_of(a1).insert(q, (c, Node::Leaf(leaf2))));
                },
                None => {},
            }
            crate::node::lemma_added(a1, r, Node::Leaf(leaf2), c2);
            assert(leaf2.key@ == gkey && leaf2.value@ == gval);
            assert(lkey != gkey);

            // the stored-pair characterisation of the fresh node
            assert forall|k: Seq<u8>, v: Seq<u8>| #[trigger]
                has_kv(r, k, v) <==> ((k == gkey && v == gval) || (has_kv(n0, k, v) && k
                != gkey)) by {
                assert(has_kv(r, k, v) <==> has_kv(a1, k, v) || has_kv(Node::Leaf(leaf2), k, v));
                assert(has_kv(a1, k, v) <==> has_kv(a0, k, v) || has_kv(Node::Leaf(leaf_old), k, v));
            }
            assert(!has_key(n0, gkey)) by {
                if has_key(n0, gkey) {
                    let v = choose|v: Seq<u8>| has_kv(n0, gkey, v);
                    assert(false);
                }
            }

            // well-formedness of the fresh node at `depth`
            let plen_r = spec_prefix_len(r);
            let partial_r = spec_partial(r);
            assert(plen_r == p as int && partial_r == part@);
            assert(partial_r.len() == vstd::math::min(plen_r, MAX_PREFIX as int));
            assert forall|j: int| 0 <= j < p implies #[trigger] lkey[d + j] == gkey[d + j] by {}
            assert forall|k: Seq<u8>, v: Seq<u8>| #[trigger]
                has_kv(r, k, v) implies k.len() >= d + plen_r && partial_r == k.subrange(
                d,
                d + partial_r.len(),
            ) && k.subrange(d, d + plen_r) == gkey.subrange(d, d + plen_r) by {
                assert(k == lkey || k == gkey);
                assert(lkey.subrange(d, d + p) =~= gkey.subrange(d, d + p));
                assert(partial_r == gkey.subrange(d, d + partial_r.len()));
                if k == lkey {
                    assert(lkey.subrange(d, d + partial_r.len()) =~= gkey.subrange(
                        d,
                        d + partial_r.len(),
                    ));
                }
            }
            assert(crate::model::prefix_ok(r, d)) by {
                assert forall|k1: Seq<u8>, v1: Seq<u8>, k2: Seq<u8>, v2: Seq<u8>|
                    #![trigger has_kv(r, k1, v1), has_kv(r, k2, v2)]
                    has_kv(r, k1, v1) && has_kv(r, k2, v2) implies k1.subrange(d, d + plen_r)
                    == k2.subrange(d, d + plen_r) by {}
            }
            assert(crate::model::term_ok(spec_term(r), d + plen_r)) by {
                match spec_term(r) {
                    Some(b) => {
                        if c2 is None {
                            assert(*b == Node::Leaf(leaf2));
                            assert(gkey.len() == d2);
                        } else {
                            assert(spec_term(r) == spec_term(a1));
                            assert(c1 is None);
                            assert(*b == Node::Leaf(leaf_old));
                            assert(lkey.len() == d2);
                        }
                    },
                    None => {},
                }
            }
            assert forall|c: u8| #[trigger]
                spec_has_child(r, c) implies wf_node(spec_child(r, c), d + plen_r + 1) && (forall|
                k: Seq<u8>,
                v: Seq<u8>,
            |
                #[trigger] has_kv(spec_child(r, c), k, v) ==> k.len() > d + plen_r && k[d + plen_r]
                    == c) by {
                if c2 == Some(c) {
                    assert(spec_child(r, c) == Node::Leaf(leaf2));
                    assert(gkey.len() > d2);
                } else {
                    assert(spec_has_child(a1, c));
                    assert(c1 == Some(c));
                    assert(spec_child(a1, c) == Node::Leaf(leaf_old));
                    assert(spec_child(r, c) == Node::Leaf(leaf_old));
                    assert(lkey.len() > d2);
                }
            }
            assert(wf_alt(r, d));
            lemma_wf_alt(r, d);
        }
        (r, true)
    }
}

/// Insert below an inner node whose compressed prefix diverges from the
/// key after `m` matching positions: split the prefix at the divergence,
/// putting the shrunken node and a fresh leaf under a new `Node4`.
#[verifier::rlimit(100)]
fn insert_split(current: Node, key: Vec<u8>, value: Vec<u8>, depth: usize, m: usize) -> (res: (
    Node,
    bool,
))
    requires
        is_inner(current),
        wf_node(current, depth as int),
        depth <= key@.len(),
        forall|k: Seq<u8>, v: Seq<u8>| #[trigger]
            has_kv(current, k, v) ==> k.subrange(0, depth as int) == key@.subrange(
                0,
                depth as int,
            ),
        (m as int) < spec_prefix_len(current),
        depth + m <= key@.len(),
        forall|k: Seq<u8>, v: Seq<u8>| #[trigger]
            has_kv(current, k, v) ==> k.subrange(depth as int, depth + m) == key@.subrange(
                depth as int,
                depth + m,
            ) && (depth + m == key@.len() || k[depth + m] != key@[depth + m]),
    ensures
        !(res.0 is Empty),
        wf_node(res.0, depth as int),
        forall|k: Seq<u8>, v: Seq<u8>| #[trigger]
            has_kv(res.0, k, v) <==> ((k == key@ && v == value@) || (has_kv(current, k, v) && k
                != key@)),
        res.1 == !has_key(current, key@),
        res.0 is Node4 && spec_prefix_len(res.0) < spec_prefix_len(current),
{
    let ghost n0 = current;
    let ghost d = depth as int;
    let ghost plen_g = spec_prefix_len(n0);
    let ghost partial_g = spec_partial(n0);
    proof {
        lemma_wf_alt(n0, d);
        lemma_wf_has_pair(n0, d);
        assert(key.len() == key@.len());
    }
    let plen = current.prefix_len();
    let mut node4 = Node4::new();
    node4.meta.prefix_len = m;
    let pm8 = min_usize(m, MAX_PREFIX);
    let npart_p = copy_range(current.partial(), 0, pm8);
    node4.meta.partial = npart_p;
    let new_prefix_len = plen - (m + 1);
    let nm8 = min_usize(new_prefix_len, MAX_PREFIX);
    let ghost mut gsrc: Seq<u8> = Seq::empty();
    let ghost mut gsrcv: Seq<u8> = Seq::empty();
    let (piv, npart) = if plen <= MAX_PREFIX {
        let piv = *slice_index_get(current.partial(), m);
        let npart = copy_range(current.partial(), m + 1, m + 1 + nm8);
        proof {
            let (k0, v0) = choose|k0: Seq<u8>, v0: Seq<u8>|
                #[trigger] has_kv(n0, k0, v0) && k0.len() <= usize::MAX;
            gsrc = k0;
            gsrcv = v0;
            assert(partial_g.len() == plen);
            assert(partial_g == gsrc.subrange(d, d + plen));
            assert(piv == gsrc[d + m]) by {
                assert(gsrc.subrange(d, d + plen)[m as int] == gsrc[d + m]);
            }
            assert(npart@ =~= gsrc.subrange(d + m + 1, d + m + 1 + nm8)) by {
                assert forall|j: int| 0 <= j < nm8 implies #[trigger] partial_g.subrange(
                    m + 1,
                    m + 1 + nm8,
                )[j] == gsrc.subrange(d + m + 1, d + m + 1 + nm8)[j] by {
                    assert(partial_g[m + 1 + j] == gsrc.subrange(d, d + plen)[m + 1 + j]);
                }
            }
        }
        (piv, npart)
    } else {
        let leafn = current.minimum();
        match leafn {
            Node::Leaf(l) => {
                proof {
                    assert(has_kv(n0, l.key@, l.value@));
                    assert(l.key.len() == l.key@.len());
                    assert(l.key@.len() >= d + plen_g);
                    gsrc = l.key@;
                    gsrcv = l.value@;
                }
                let piv = l.key[depth + m];
                let npart = copy_range(
                    l.key.as_slice(),
                    depth + m + 1,
                    depth + m + 1 + nm8,
                );
                (piv, npart)
            },
            _ => vstd::pervasive::unreached(),
        }
    };
    proof {
        assert(has_kv(n0, gsrc, gsrcv));
        assert(gsrc.len() >= d + plen_g);
        assert(piv == gsrc[d + m]);
        assert(npart@ == gsrc.subrange(d + m + 1, d + m + 1 + nm8));
        // every stored key carries the pivot byte and the shrunken partial
        assert forall|k: Seq<u8>, v: Seq<u8>| #[trigger]
            has_kv(n0, k, v) implies k[d + m] == piv && npart@ == k.subrange(
            d + m + 1,
            d + m + 1 + nm8,
        ) && k.len() >= d + plen_g by {
            assert(k.subrange(d, d + plen_g) == gsrc.subrange(d, d + plen_g));
            assert forall|j: int| 0 <= j < plen_g implies #[trigger] k[d + j] == gsrc[d + j] by {
                assert(k.subrange(d, d + plen_g)[j] == k[d + j]);
                assert(gsrc.subrange(d, d + plen_g)[j] == gsrc[d + j]);
            }
            assert(npart@ =~= k.subrange(d + m + 1, d + m + 1 + nm8)) by {
                assert forall|j: int| 0 <= j < nm8 implies #[trigger] gsrc.subrange(
                    d + m + 1,
                    d + m + 1 + nm8,
                )[j] == k.subrange(d + m + 1, d + m + 1 + nm8)[j] by {
                    assert(k[d + (m + 1 + j)] == gsrc[d + (m + 1 + j)]);
                }
            }
        }
    }
    let current2 = current.set_prefix_len(new_prefix_len);
    let current3 = current2.set_partial(npart);
    proof {
        lemma_same_children(current, current2);
        lemma_same_children(current2, current3);
        lemma_same_children(current, current3);
        // the shrunken node is well formed one level further down
        let d3 = d + m + 1;
        assert(prefix_ok(current3, d3)) by {
            assert(spec_partial(current3).len() == vstd::math::min(
                spec_prefix_len(current3),
                MAX_PREFIX as int,
            ));
            assert forall|k: Seq<u8>, v: Seq<u8>| #[trigger]
                has_kv(current3, k, v) implies k.len() >= d3 + new_prefix_len && spec_partial(
                current3,
            ) == k.subrange(d3, d3 + spec_partial(current3).len()) by {
                assert(has_kv(n0, k, v));
            }
            assert forall|k1: Seq<u8>, v1: Seq<u8>, k2: Seq<u8>, v2: Seq<u8>|
                #![trigger has_kv(current3, k1, v1), has_kv(current3, k2, v2)]
                has_kv(current3, k1, v1) && has_kv(current3, k2, v2) implies k1.subrange(
                d3,
                d3 + new_prefix_len,
            ) == k2.subrange(d3, d3 + new_prefix_len) by {
                assert(has_kv(n0, k1, v1) && has_kv(n0, k2, v2));
                assert(k1.subrange(d, d + plen_g) == k2.subrange(d, d + plen_g));
                assert forall|j: int| 0 <= j < new_prefix_len implies #[trigger] k1.subrange(
                    d3,
                    d3 + new_prefix_len,
                )[j] == k2.subrange(d3, d3 + new_prefix_len)[j] by {
                    assert(k1.subrange(d, d + plen_g)[m + 1 + j] == k1[d + (m + 1 + j)]);
                    assert(k2.subrange(d, d + plen_g)[m + 1 + j] == k2[d + (m + 1 + j)]);
                }
                assert(k1.subrange(d3, d3 + new_prefix_len) =~= k2.subrange(
                    d3,
                    d3 + new_prefix_len,
                ));
            }
        }
        assert(term_ok(spec_term(current3), d3 + new_prefix_len)) by {
            assert(d3 + new_prefix_len == d + plen_g);
            assert(spec_term(current3) == spec_term(n0));
        }
        assert forall|c: u8| #[trigger]
            spec_has_child(current3, c) implies wf_node(
            spec_child(current3, c),
            d3 + new_prefix_len + 1,
        ) && (forall|k: Seq<u8>, v: Seq<u8>|
            #[trigger] has_kv(spec_child(current3, c), k, v) ==> k.len() > d3 + new_prefix_len
                && k[d3 + new_prefix_len] == c) by {
            assert(spec_has_child(n0, c));
            assert(spec_child(current3, c) == spec_child(n0, c));
            assert(d3 + new_prefix_len == d + plen_g);
        }
        assert(wf_alt(current3, d3));
        lemma_wf_alt(current3, d3);
        assert(wf_node(current3, d3));
    }
    let ghost a0 = Node::Node4(node4);
    let ghost s0 = node4.children@;
    proof {
        assert(shape_ok(a0));
        assert forall|k: Seq<u8>, v: Seq<u8>| !(#[trigger] has_kv(a0, k, v)) by {}
    }
    node4.add_child(current3, Some(piv));
    let ghost a1 = Node::Node4(node4);
    proof {
        let q = choose|q: int|
            0 <= q <= s0.len() && node4.children@ == s0.insert(q, (piv, current3));
        assert(0 <= q <= pairs_of(a0).len() && pairs_of(a1) == pairs_of(a0).insert(
            q,
            (piv, current3),
        ));
        lemma_added(a0, a1, current3, Some(piv));
    }
    let kc2 = Node::key_char(&key, depth + m);
    proof {
        match kc2 {
            Some(c) => {
                assert(c == key@[d + m]);
                assert(gsrc[d + m] != key@[d + m]);
                assert(c != piv);
            },
            None => {},
        }
    }
    let ghost gkey = key@;
    let ghost gval = value@;
    let leaf2 = Leaf::new(key, value);
    let ghost s1 = node4.children@;
    node4.add_child(Node::Leaf(leaf2), kc2);
    let r = Node::Node4(node4);
    proof {
        match kc2 {
            Some(c) => {
                let q = choose|q: int|
                    0 <= q <= s1.len() && node4.children@ == s1.insert(q, (c, Node::Leaf(leaf2)));
                assert(0 <= q <= pairs_of(a1).len() && pairs_of(r) == pairs_of(a1).insert(
                    q,
                    (c, Node::Leaf(leaf2)),
                ));
            },
            None => {},
        }
        lemma_added(a1, r, Node::Leaf(leaf2), kc2);
        // no stored key equals the inserted key
        assert forall|k: Seq<u8>, v: Seq<u8>| #[trigger] has_kv(n0, k, v) implies k != gkey by {
            if d + m == gkey.len() {
                assert(k.len() >= d + plen_g > d + m);
            } else {
                assert(k[d + m] != gkey[d + m]);
            }
        }
        assert(!has_key(n0, gkey)) by {
            if has_key(n0, gkey) {
                let v = choose|v: Seq<u8>| has_kv(n0, gkey, v);
                assert(false);
            }
        }
        assert forall|k: Seq<u8>, v: Seq<u8>| #[trigger]
            has_kv(r, k, v) <==> ((k == gkey && v == gval) || (has_kv(n0, k, v) && k
            != gkey)) by {
            assert(has_kv(r, k, v) <==> has_kv(a1, k, v) || has_kv(Node::Leaf(leaf2), k, v));
            assert(has_kv(a1, k, v) <==> has_kv(a0, k, v) || has_kv(current3, k, v));
            assert(has_kv(current3, k, v) == has_kv(n0, k, v));
        }
        // well-formedness of the split node at `depth`
        assert(spec_prefix_len(r) == m as int);
        assert(spec_partial(r) == npart_p@);
        assert(prefix_ok(r, d)) by {
            assert(npart_p@.len() == pm8 as int);
            assert forall|k: Seq<u8>, v: Seq<u8>| #[trigger]
                has_kv(r, k, v) implies k.len() >= d + m && npart_p@ == k.subrange(
                d,
                d + pm8,
            ) && k.subrange(d, d + m) == gkey.subrange(d, d + m) by {
                if k == gkey {
                    assert(npart_p@ =~= gkey.subrange(d, d + pm8)) by {
                        assert(partial_g == gsrc.subrange(d, d + partial_g.len()));
                        assert(gsrc.subrange(d, d + m) == gkey.subrange(d, d + m));
                        assert forall|j: int| 0 <= j < pm8 implies #[trigger] partial_g.subrange(
                            0,
                            pm8 as int,
                        )[j] == gkey.subrange(d, d + pm8)[j] by {
                            assert(partial_g[j] == gsrc.subrange(d, d + partial_g.len())[j]);
                            assert(gsrc.subrange(d, d + m)[j] == gkey.subrange(d, d + m)[j]);
                        }
                    }
                } else {
                    assert(has_kv(n0, k, v));
                    assert(npart_p@ =~= k.subrange(d, d + pm8)) by {
                        assert(partial_g == k.subrange(d, d + partial_g.len()));
                        assert forall|j: int| 0 <= j < pm8 implies #[trigger] partial_g.subrange(
                            0,
                            pm8 as int,
                        )[j] == k.subrange(d, d + pm8)[j] by {
                            assert(partial_g[j] == k.subrange(d, d + partial_g.len())[j]);
                        }
                    }
                }
            }
            assert forall|k1: Seq<u8>, v1: Seq<u8>, k2: Seq<u8>, v2: Seq<u8>|
                #![trigger has_kv(r, k1, v1), has_kv(r, k2, v2)]
                has_kv(r, k1, v1) && has_kv(r, k2, v2) implies k1.subrange(d, d + m)
                == k2.subrange(d, d + m) by {}
        }
        assert(term_ok(spec_term(r), d + m)) by {
            match spec_term(r) {
                Some(b) => {
                    assert(kc2 is None);
                    assert(*b == Node::Leaf(leaf2));
                    assert(gkey.len() == d + m);
                },
                None => {},
            }
        }
        assert forall|c: u8| #[trigger]
            spec_has_child(r, c) implies wf_node(spec_child(r, c), d + m + 1) && (forall|
            k: Seq<u8>,
            v: Seq<u8>,
        |
            #[trigger] has_kv(spec_child(r, c), k, v) ==> k.len() > d + m && k[d + m] == c) by {
            if kc2 == Some(c) {
                assert(spec_child(r, c) == Node::Leaf(leaf2));
                assert(gkey.len() > d + m);
            } else {
                assert(spec_has_child(a1, c));
                assert(c == piv);
                assert(spec_child(a1, c) == current3);
                assert(spec_child(r, c) == current3);
                assert(wf_node(current3, d + m + 1));
                assert forall|k: Seq<u8>, v: Seq<u8>| #[trigger]
                    has_kv(current3, k, v) implies k.len() > d + m && k[d + m] == piv by {
                    assert(has_kv(n0, k, v));
                }
            }
        }
        assert(wf_alt(r, d));
        lemma_wf_alt(r, d);
    }
    (r, true)
}

/// Insert below an inner node whose compressed prefix fully matches the
/// key: add a fresh edge when the key diverges here, replace the terminal
/// leaf's value when the key ends here, or descend one child.
#[verifier::rlimit(100)]
fn insert_at_inner(n: Node, key: Vec<u8>, value: Vec<u8>, depth: usize) -> (res: (Node, bool))
    requires
        is_inner(n),
        wf_node(n, depth as int),
        depth <= key@.len(),
        forall|k: Seq<u8>, v: Seq<u8>| #[trigger]
            has_kv(n, k, v) ==> k.subrange(0, depth as int) == key@.subrange(0, depth as int),
    ensures
        !(res.0 is Empty),
        wf_node(res.0, depth as int),
        forall|k: Seq<u8>, v: Seq<u8>| #[trigger]
            has_kv(res.0, k, v) <==> ((k == key@ && v == value@) || (has_kv(n, k, v) && k
                != key@)),
        res.1 == !has_key(n, key@),
        (res.0 is Node4 && spec_prefix_len(res.0) < spec_prefix_len(n)) || ((same_shape(n, res.0)
            || grown_shape(n, res.0)) && spec_prefix_len(res.0) == spec_prefix_len(n)),
    decreases key@.len() - depth, 0int,
{
    let ghost n0 = n;
    let ghost d = depth as int;
    let ghost plen_g = spec_prefix_len(n);
    let ghost partial_g = spec_partial(n);
    proof {
        lemma_wf_alt(n0, d);
        lemma_wf_has_pair(n0, d);
        assert(key.len() == key@.len());
    }
    let current = n;
    let m = current.prefix_match_deep(key.as_slice(), depth);
    let plen = current.prefix_len();
    if m >= plen {
        proof {
            let (k0, v0) = choose|k0: Seq<u8>, v0: Seq<u8>|
                #[trigger] has_kv(n0, k0, v0) && k0.len() <= usize::MAX;
            assert(k0.len() >= d + plen_g);
        }
        let d2 = depth + plen;
        let ghost e = d + plen_g;
        proof {
            // every stored key agrees with the query over the whole prefix
            assert forall|k: Seq<u8>, v: Seq<u8>| #[trigger]
                has_kv(n0, k, v) implies (forall|j: int|
                d <= j < e ==> #[trigger] k[j] == key@[j]) by {
                assert(k.subrange(d, e) == key@.subrange(d, e));
                assert forall|j: int| d <= j < e implies #[trigger] k[j] == key@[j] by {
                    assert(k.subrange(d, e)[j - d] == k[j]);
                    assert(key@.subrange(d, e)[j - d] == key@[j]);
                }
            }
        }
        if !current.child_exists(&key, d2) {
            let kc = Node::key_char(&key, d2);
            let ghost gkey = key@;
            let ghost gval = value@;
            let leaf = Node::Leaf(Leaf::new(key, value));
            let r = current.add_child(leaf, kc);
            proof {
                assert forall|k: Seq<u8>, v: Seq<u8>| #[trigger]
                    has_kv(n0, k, v) implies k != gkey by {
                    if k == gkey {
                        lemma_has_kv_decompose(n0, k, v);
                        if exists|c: u8| #[trigger]
                            spec_has_child(n0, c) && has_kv(spec_child(n0, c), k, v) {
                            let c = choose|c: u8| #[trigger]
                                spec_has_child(n0, c) && has_kv(spec_child(n0, c), k, v);
                            assert(k.len() > e && k[e] == c);
                            assert(spec_has_child(n0, gkey[d2 as int]));
                        } else {
                            match spec_term(n0) {
                                Some(t) => {
                                    match *t {
                                        Node::Leaf(l) => {
                                            assert(l.key@ == gkey && l.key@.len() == e);
                                            assert(spec_term(n0) is Some && d2 == gkey.len());
                                        },
                                        _ => {},
                                    }
                                },
                                None => {},
                            }
                        }
                        assert(false);
                    }
                }
                assert(!has_key(n0, gkey)) by {
                    if has_key(n0, gkey) {
                        let v = choose|v: Seq<u8>| has_kv(n0, gkey, v);
                        assert(false);
                    }
                }
                // well-formedness with the fresh leaf added
                assert(prefix_ok(r, d)) by {
                    assert forall|k: Seq<u8>, v: Seq<u8>| #[trigger]
                        has_kv(r, k, v) implies k.len() >= d + plen_g && partial_g == k.subrange(
                        d,
                        d + partial_g.len(),
                    ) && k.subrange(d, e) == gkey.subrange(d, e) by {
                        if k == gkey && v == gval {
                            let (k0, v0) = choose|k0: Seq<u8>, v0: Seq<u8>|
                                #[trigger] has_kv(n0, k0, v0) && k0.len() <= usize::MAX;
                            assert(partial_g == k0.subrange(d, d + partial_g.len()));
                            assert(partial_g =~= gkey.subrange(d, d + partial_g.len())) by {
                                assert forall|j: int|
                                    0 <= j < partial_g.len() implies #[trigger] partial_g[j]
                                    == gkey.subrange(d, d + partial_g.len())[j] by {
                                    assert(k0.subrange(d, d + partial_g.len())[j] == k0[d + j]);
                                    assert(k0[d + j] == gkey[d + j]);
                                }
                            }
                            assert(gkey.subrange(d, e) =~= gkey.subrange(d, e));
                        } else {
                            assert(has_kv(n0, k, v));
                            assert(k.subrange(d, e) =~= gkey.subrange(d, e)) by {
                                assert forall|j: int|
                                    0 <= j < plen_g implies #[trigger] k.subrange(d, e)[j]
                                    == gkey.subrange(d, e)[j] by {
                                    assert(k[d + j] == gkey[d + j]);
                                }
                            }
                        }
                    }
                    assert forall|k1: Seq<u8>, v1: Seq<u8>, k2: Seq<u8>, v2: Seq<u8>|
                        #![trigger has_kv(r, k1, v1), has_kv(r, k2, v2)]
                        has_kv(r, k1, v1) && has_kv(r, k2, v2) implies k1.subrange(d, e)
                        == k2.subrange(d, e) by {}
                }
                assert(term_ok(spec_term(r), e)) by {
                    match kc {
                        Some(_) => {
                            assert(spec_term(r) == spec_term(n0));
                        },
                        None => {
                            assert(gkey.len() == d2);
                        },
                    }
                }
                assert forall|c: u8| #[trigger]
                    spec_has_child(r, c) implies wf_node(spec_child(r, c), e + 1) && (forall|
                    k: Seq<u8>,
                    v: Seq<u8>,
                |
                    #[trigger] has_kv(spec_child(r, c), k, v) ==> k.len() > e && k[e] == c) by {
                    if kc == Some(c) {
                        assert(spec_child(r, c) == leaf);
                        assert(gkey.len() > d2);
                    } else {
                        assert(spec_has_child(n0, c));
                        assert(spec_child(r, c) == spec_child(n0, c));
                    }
                }
                assert(wf_alt(r, d));
                lemma_wf_alt(r, d);
            }
            (r, true)
        } else {
            if d2 == key.len() {
                let (rest, tbox) = current.take_term();
                let tnode = *tbox;
                match tnode {
                    Node::Leaf(mut tl) => {
                        let ghost tkey = tl.key@;
                        let ghost tval = tl.value@;
                        proof {
                            assert(has_kv(n0, tkey, tval)) by {
                                lemma_has_kv_decompose(n0, tkey, tval);
                            }
                            assert(tkey.len() == e && e == key@.len());
                            assert(tkey =~= key@) by {
                                assert forall|j: int| 0 <= j < e implies #[trigger] tkey[j]
                                    == key@[j] by {
                                    if j < d {
                                        assert(tkey.subrange(0, d)[j] == tkey[j]);
                                        assert(key@.subrange(0, d)[j] == key@[j]);
                                    }
                                }
                            }
                        }
                        let ghost gkey = key@;
                        let ghost gval = value@;
                        tl.value = value;
                        let newt = Node::Leaf(tl);
                        let r = rest.add_child(newt, None);
                        proof {
                            assert forall|k: Seq<u8>, v: Seq<u8>| #[trigger]
                                has_kv(rest, k, v) implies k != gkey by {
                                lemma_has_kv_decompose(rest, k, v);
                                let c = choose|c: u8| #[trigger]
                                    spec_has_child(rest, c) && has_kv(spec_child(rest, c), k, v);
                                assert(spec_has_child(n0, c) && spec_child(rest, c) == spec_child(
                                    n0,
                                    c,
                                ));
                                assert(k.len() > e);
                            }
                            assert(has_key(n0, gkey)) by {
                                assert(has_kv(n0, gkey, tval));
                            }
                            assert(prefix_ok(r, d)) by {
                                assert forall|k: Seq<u8>, v: Seq<u8>| #[trigger]
                                    has_kv(r, k, v) implies k.len() >= d + plen_g && partial_g
                                    == k.subrange(d, d + partial_g.len()) && k.subrange(d, e)
                                    == gkey.subrange(d, e) by {
                                    if has_kv(rest, k, v) {
                                        assert(has_kv(n0, k, v));
                                        assert(k.subrange(d, e) =~= gkey.subrange(d, e)) by {
                                            assert forall|j: int|
                                                0 <= j < plen_g implies #[trigger] k.subrange(
                                                d,
                                                e,
                                            )[j] == gkey.subrange(d, e)[j] by {
                                                assert(k[d + j] == gkey[d + j]);
                                            }
                                        }
                                    } else {
                                        assert(k == gkey && v == gval);
                                        assert(has_kv(n0, tkey, tval) && tkey == gkey);
                                        assert(gkey.subrange(d, e) =~= gkey.subrange(d, e));
                                        assert(partial_g == tkey.subrange(d, d + partial_g.len()));
                                    }
                                }
                                assert forall|k1: Seq<u8>, v1: Seq<u8>, k2: Seq<u8>, v2: Seq<u8>|
                                    #![trigger has_kv(r, k1, v1), has_kv(r, k2, v2)]
                                    has_kv(r, k1, v1) && has_kv(r, k2, v2) implies k1.subrange(
                                    d,
                                    e,
                                ) == k2.subrange(d, e) by {}
                            }
                            assert(term_ok(spec_term(r), e)) by {
                                assert(gkey.len() == e);
                            }
                            assert forall|c: u8| #[trigger]
                                spec_has_child(r, c) implies wf_node(spec_child(r, c), e + 1) && (
                            forall|k: Seq<u8>, v: Seq<u8>|
                                #[trigger] has_kv(spec_child(r, c), k, v) ==> k.len() > e && k[e]
                                    == c) by {
                                assert(spec_has_child(rest, c) && spec_child(r, c) == spec_child(
                                    rest,
                                    c,
                                ));
                                assert(spec_has_child(n0, c) && spec_child(rest, c) == spec_child(
                                    n0,
                                    c,
                                ));
                            }
                            assert(wf_alt(r, d));
                            lemma_wf_alt(r, d);
                        }
                        (r, false)
                    },
                    _ => {
                        proof {
                            assert(false);
                        }
                        vstd::pervasive::unreached()
                    },
                }
            } else {
                let b = key[d2];
                let (rest, child) = current.take_child(b);
                proof {
                    assert(wf_node(child, e + 1));
                    assert forall|k: Seq<u8>, v: Seq<u8>| #[trigger]
                        has_kv(child, k, v) implies k.len() >= d2 + 1 && k.subrange(
                        0,
                        d2 + 1,
                    ) == key@.subrange(0, d2 + 1) by {
                        assert(has_kv(n0, k, v));
                        assert(k.len() > e && k[e] == b);
                        assert(k.subrange(0, d2 + 1) =~= key@.subrange(0, d2 + 1)) by {
                            assert forall|j: int| 0 <= j < d2 + 1 implies #[trigger] k.subrange(
                                0,
                                d2 + 1,
                            )[j] == key@.subrange(0, d2 + 1)[j] by {
                                if j < d {
                                    assert(k.subrange(0, d)[j] == k[j]);
                                    assert(key@.subrange(0, d)[j] == key@[j]);
                                } else if j < e {
                                    assert(k[j] == key@[j]);
                                } else {
                                    assert(k[e] == b == key@[d2 as int]);
                                }
                            }
                        }
                    }
                }
                let (child2, grew) = insert_rec(child, key, value, d2 + 1);
                let ghost gkey = key@;
                let ghost gval = value@;
                let r = rest.add_child(child2, Some(b));
                proof {
                    assert forall|k: Seq<u8>, v: Seq<u8>| #[trigger]
                        has_kv(rest, k, v) implies k != gkey by {
                        lemma_has_kv_decompose(rest, k, v);
                        if exists|c: u8| #[trigger]
                            spec_has_child(rest, c) && has_kv(spec_child(rest, c), k, v) {
                            let c = choose|c: u8| #[trigger]
                                spec_has_child(rest, c) && has_kv(spec_child(rest, c), k, v);
                            assert(c != b);
                            assert(spec_has_child(n0, c) && spec_child(rest, c) == spec_child(
                                n0,
                                c,
                            ));
                            assert(k.len() > e && k[e] == c);
                            assert(gkey[d2 as int] == b);
                        } else {
                            match spec_term(rest) {
                                Some(t) => {
                                    match *t {
                                        Node::Leaf(l) => {
                                            assert(l.key@.len() == e);
                                            assert(gkey.len() > e);
                                        },
                                        _ => {},
                                    }
                                },
                                None => {},
                            }
                        }
                    }
                    assert(has_key(n0, gkey) == has_key(child, gkey)) by {
                        if has_key(n0, gkey) {
                            let v = choose|v: Seq<u8>| has_kv(n0, gkey, v);
                            assert(has_kv(rest, gkey, v) || has_kv(child, gkey, v));
                            assert(has_kv(child, gkey, v));
                            assert(has_key(child, gkey));
                        }
                        if has_key(child, gkey) {
                            let v = choose|v: Seq<u8>| has_kv(child, gkey, v);
                            assert(has_kv(n0, gkey, v));
                            assert(has_key(n0, gkey));
                        }
                    }
                    assert forall|k: Seq<u8>, v: Seq<u8>| #[trigger]
                        has_kv(r, k, v) <==> ((k == gkey && v == gval) || (has_kv(n0, k, v) && k
                        != gkey)) by {
                        assert(has_kv(r, k, v) <==> has_kv(rest, k, v) || has_kv(child2, k, v));
                        assert(has_kv(n0, k, v) <==> has_kv(rest, k, v) || has_kv(child, k, v));
                    }
                    assert(prefix_ok(r, d)) by {
                        assert forall|k: Seq<u8>, v: Seq<u8>| #[trigger]
                            has_kv(r, k, v) implies k.len() >= d + plen_g && partial_g
                            == k.subrange(d, d + partial_g.len()) && k.subrange(d, e)
                            == gkey.subrange(d, e) by {
                            if k == gkey && v == gval {
                                let (k0, v0) = choose|k0: Seq<u8>, v0: Seq<u8>|
                                    #[trigger] has_kv(n0, k0, v0) && k0.len() <= usize::MAX;
                                assert(partial_g == k0.subrange(d, d + partial_g.len()));
                                assert(partial_g =~= gkey.subrange(d, d + partial_g.len())) by {
                                    assert forall|j: int|
                                        0 <= j < partial_g.len() implies #[trigger] partial_g[j]
                                        == gkey.subrange(d, d + partial_g.len())[j] by {
                                        assert(k0.subrange(d, d + partial_g.len())[j] == k0[d + j]);
                                        assert(k0[d + j] == gkey[d + j]);
                                    }
                                }
                                assert(gkey.subrange(d, e) =~= gkey.subrange(d, e));
                            } else {
                                assert(has_kv(n0, k, v));
                                assert(k.subrange(d, e) =~= gkey.subrange(d, e)) by {
                                    assert forall|j: int|
                                        0 <= j < plen_g implies #[trigger] k.subrange(d, e)[j]
                                        == gkey.subrange(d, e)[j] by {
                                        assert(k[d + j] == gkey[d + j]);
                                    }
                                }
                            }
                        }
                        assert forall|k1: Seq<u8>, v1: Seq<u8>, k2: Seq<u8>, v2: Seq<u8>|
                            #![trigger has_kv(r, k1, v1), has_kv(r, k2, v2)]
                            has_kv(r, k1, v1) && has_kv(r, k2, v2) implies k1.subrange(d, e)
                            == k2.subrange(d, e) by {}
                    }
                    assert(term_ok(spec_term(r), e)) by {
                        assert(spec_term(r) == spec_term(n0));
                    }
                    assert forall|c: u8| #[trigger]
                        spec_has_child(r, c) implies wf_node(spec_child(r, c), e + 1) && (forall|
                        k: Seq<u8>,
                        v: Seq<u8>,
                    |
                        #[trigger] has_kv(spec_child(r, c), k, v) ==> k.len() > e && k[e]
                            == c) by {
                        if c == b {
                            assert(spec_child(r, c) == child2);
                            assert(wf_node(child2, d2 + 1));
                            assert forall|k: Seq<u8>, v: Seq<u8>| #[trigger]
                                has_kv(child2, k, v) implies k.len() > e && k[e] == c by {
                                if k == gkey && v == gval {
                                    assert(gkey.len() > d2 && gkey[d2 as int] == b);
                                } else {
                                    assert(has_kv(child, k, v));
                                    assert(has_kv(n0, k, v));
                                }
                            }
                        } else {
                            assert(spec_has_child(rest, c) && spec_child(r, c) == spec_child(
                                rest,
                                c,
                            ));
                            assert(spec_has_child(n0, c) && spec_child(rest, c) == spec_child(
                                n0,
                                c,
                            ));
                        }
                    }
                    assert(wf_alt(r, d));
                    lemma_wf_alt(r, d);
                }
                (r, grew)
            }
        }
    } else {
        insert_split(current, key, value, depth, m)
    }
}

/// Insert (or replace) the pair in the subtree at `n`, which sits at
/// logical depth `depth`; the second component says whether a new key was
/// added.
fn insert_rec(n: Node, key: Vec<u8>, value: Vec<u8>, depth: usize) -> (res: (Node, bool))
    requires
        n is Empty ==> depth == 0,
        !(n is Empty) ==> wf_node(n, depth as int),
        depth <= key@.len(),
        forall|k: Seq<u8>, v: Seq<u8>| #[trigger]
            has_kv(n, k, v) ==> k.subrange(0, depth as int) == key@.subrange(0, depth as int),
    ensures
        !(res.0 is Empty),
        wf_node(res.0, depth as int),
        forall|k: Seq<u8>, v: Seq<u8>| #[trigger]
            has_kv(res.0, k, v) <==> ((k == key@ && v == value@) || (has_kv(n, k, v) && k
                != key@)),
        res.1 == !has_key(n, key@),
        n is Empty ==> res.0 is Leaf,
        n is Leaf ==> (if res.1 {
            res.0 is Node4
        } else {
            res.0 is Leaf
        }),
        is_inner(n) ==> ((res.0 is Node4 && spec_prefix_len(res.0) < spec_prefix_len(n)) || ((
        same_shape(n, res.0) || grown_shape(n, res.0)) && spec_prefix_len(res.0)
            == spec_prefix_len(n))),
    decreases key@.len() - depth, 1int,
{
    let ghost n0 = n;
    match n {
        Node::Empty => {
            proof {
                assert(key.len() == key@.len());
                assert(!has_key(n0, key@)) by {
                    if has_key(n0, key@) {
                        let v = choose|v: Seq<u8>| has_kv(n0, key@, v);
                        assert(false);
                    }
                }
            }
            let leaf = Node::Leaf(Leaf::new(key, value));
            (leaf, true)
        },
        Node::Leaf(leaf_old) => {
            proof {
                assert(has_kv(n0, leaf_old.key@, leaf_old.value@));
            }
            insert_at_leaf(leaf_old, key, value, depth)
        },
        _ => insert_at_inner(n, key, value, depth),
    }
}

/// Walk from `n` at `depth`, following the compressed prefix and the edge
/// labelled by the next key byte, to the leaf that can hold `key`.
fn search_rec<'a>(n: &'a Node, key: &[u8], depth: usize) -> (r: Option<&'a Vec<u8>>)
    requires
        !(*n is Empty) ==> wf_node(*n, depth as int),
        depth <= key@.len(),
    ensures
        match r {
            Some(v) => has_kv(*n, key@, v@),
            None => forall|v: Seq<u8>| !has_kv(*n, key@, v),
        },
    decreases key@.len() - depth,
{
    match n {
        Node::Empty => None,
        Node::Leaf(leaf) => {
            if Art::equals(leaf.key.as_slice(), key) {
                Some(&leaf.value)
            } else {
                None
            }
        },
        _ => {
            proof {
                lemma_wf_alt(*n, depth as int);
                lemma_wf_has_pair(*n, depth as int);
            }
            let ghost d = depth as int;
            let ghost plen_g = spec_prefix_len(*n);
            let ghost partial = spec_partial(*n);
            let plen = n.prefix_len();
            if plen > 0 {
                let pm = n.prefix_match(key, depth);
                let cap = min_usize(min_usize(MAX_PREFIX, plen), n.partial().len());
                if pm != cap {
                    proof {
                        assert forall|v: Seq<u8>| !has_kv(*n, key@, v) by {
                            if has_kv(*n, key@, v) {
                                assert(key@.len() >= d + plen_g);
                                assert(partial == key@.subrange(d, d + partial.len()));
                                assert forall|j: int|
                                    0 <= j < partial.len() implies partial[j] == key@[d + j] by {
                                    assert(key@.subrange(d, d + partial.len())[j] == key@[d + j]);
                                }
                                assert(false);
                            }
                        }
                    }
                    return None;
                }
            }
            proof {
                let (k0, v0) = choose|k0: Seq<u8>, v0: Seq<u8>|
                    #[trigger] has_kv(*n, k0, v0) && k0.len() <= usize::MAX;
                assert(k0.len() >= d + plen_g);
            }
            let d2 = depth + plen;
            if d2 < key.len() {
                let child = n.find_child(key, d2);
                match child {
                    Some(ch) => {
                        let res = search_rec(ch, key, d2 + 1);
                        proof {
                            match res {
                                Some(v) => {
                                    lemma_has_kv_decompose(*n, key@, v@);
                                },
                                None => {
                                    assert forall|v: Seq<u8>| !has_kv(*n, key@, v) by {
                                        if has_kv(*n, key@, v) {
                                            lemma_has_kv_decompose(*n, key@, v);
                                            if exists|c: u8| #[trigger]
                                                spec_has_child(*n, c) && has_kv(
                                                    spec_child(*n, c),
                                                    key@,
                                                    v,
                                                ) {
                                                let c = choose|c: u8| #[trigger]
                                                    spec_has_child(*n, c) && has_kv(
                                                        spec_child(*n, c),
                                                        key@,
                                                        v,
                                                    );
                                                assert(key@[d2 as int] == c);
                                                assert(has_kv(*ch, key@, v));
                                            } else {
                                                match spec_term(*n) {
                                                    Some(t) => {
                                                        assert(has_kv(*t, key@, v));
                                                        match *t {
                                                            Node::Leaf(l) => {
                                                                assert(l.key@ == key@);
                                                            },
                                                            _ => {},
                                                        }
                                                    },
                                                    None => {},
                                                }
                                            }
                                            assert(false);
                                        }
                                    }
                                },
                            }
                        }
                        res
                    },
                    None => {
                        proof {
                            assert forall|v: Seq<u8>| !has_kv(*n, key@, v) by {
                                if has_kv(*n, key@, v) {
                                    lemma_has_kv_decompose(*n, key@, v);
                                    if exists|c: u8| #[trigger]
                                        spec_has_child(*n, c) && has_kv(spec_child(*n, c), key@, v) {
                                        let c = choose|c: u8| #[trigger]
                                            spec_has_child(*n, c) && has_kv(
                                                spec_child(*n, c),
                                                key@,
                                                v,
                                            );
                                        assert(key@[d2 as int] == c);
                                    } else {
                                        match spec_term(*n) {
                                            Some(t) => {
                                                match *t {
                                                    Node::Leaf(l) => {
                                                        assert(l.key@ == key@);
                                                    },
                                                    _ => {},
                                                }
                                            },
                                            None => {},
                                        }
                                    }
                                    assert(false);
                                }
                            }
                        }
                        None
                    },
                }
            } else if d2 == key.len() {
                let child = n.find_child(key, d2);
                match child {
                    Some(ch) => {
                        match ch {
                            Node::Leaf(l) => {
                                if Art::equals(l.key.as_slice(), key) {
                                    proof {
                                        lemma_has_kv_decompose(*n, key@, l.value@);
                                        assert(has_kv(*spec_term(*n).unwrap(), key@, l.value@));
                                    }
                                    Some(&l.value)
                                } else {
                                    proof {
                                        assert forall|v: Seq<u8>| !has_kv(*n, key@, v) by {
                                            if has_kv(*n, key@, v) {
                                                lemma_has_kv_decompose(*n, key@, v);
                                                if exists|c: u8| #[trigger]
                                                    spec_has_child(*n, c) && has_kv(
                                                        spec_child(*n, c),
                                                        key@,
                                                        v,
                                                    ) {
                                                    let c = choose|c: u8| #[trigger]
                                                        spec_has_child(*n, c) && has_kv(
                                                            spec_child(*n, c),
                                                            key@,
                                                            v,
                                                        );
                                                    assert(key@.len() > d2);
                                                } else {
                                                    assert(l.key@ == key@);
                                                }
                                                assert(false);
                                            }
                                        }
                                    }
                                    None
                                }
                            },
                            _ => {
                                proof {
                                    assert(false);
                                }
                                None
                            },
                        }
                    },
                    None => {
                        proof {
                            assert forall|v: Seq<u8>| !has_kv(*n, key@, v) by {
                                if has_kv(*n, key@, v) {
                                    lemma_has_kv_decompose(*n, key@, v);
                                    if exists|c: u8| #[trigger]
                                        spec_has_child(*n, c) && has_kv(spec_child(*n, c), key@, v) {
                                        let c = choose|c: u8| #[trigger]
                                            spec_has_child(*n, c) && has_kv(
                                                spec_child(*n, c),
                                                key@,
                                                v,
                                            );
                                        assert(key@.len() > d2);
                                    }
                                    assert(false);
                                }
                            }
                        }
                        None
                    },
                }
            } else {
                proof {
                    assert forall|v: Seq<u8>| !has_kv(*n, key@, v) by {
                        if has_kv(*n, key@, v) {
                            assert(key@.len() >= d + plen_g);
                            assert(false);
                        }
                    }
                }
                None
            }
        },
    }
}

impl Art {
    /// The tree invariant: an empty root with size zero, or a well-formed
    /// root subtree whose leaf count matches the size counter.
    pub open spec fn wf(self) -> bool {
        &&& self.keys@.finite()
        &&& self.size == self.keys@.len()
        &&& forall|k: Seq<u8>| #[trigger] self.keys@.contains(k) <==> has_key(self.root, k)
        &&& !(self.root is Empty) ==> wf_node(self.root, 0)
        &&& self.root is Empty ==> self.size == 0
    }

    /// (k, v) is stored in the tree.
    pub open spec fn contains_pair(self, k: Seq<u8>, v: Seq<u8>) -> bool {
        has_kv(self.root, k, v)
    }

    /// Some value is stored under key `k`.
    pub open spec fn contains_key(self, k: Seq<u8>) -> bool {
        has_key(self.root, k)
    }

    /// The number of stored keys.
    pub open spec fn spec_len(self) -> nat {
        self.size as nat
    }

    /// The set of stored keys.
    pub open spec fn key_set(self) -> Set<Seq<u8>> {
        self.keys@
    }

    /// An empty tree.
    pub fn new() -> (t: Self)
        ensures
            t.wf(),
            t.root is Empty,
            t.spec_len() == 0,
            forall|k: Seq<u8>, v: Seq<u8>| !t.contains_pair(k, v),
    {
        Art { root: Node::Empty, size: 0, keys: Ghost(Set::empty()) }
    }

    /// Number of stored keys.
    pub fn len(&self) -> (r: usize)
        ensures
            r == self.spec_len(),
    {
        self.size
    }

    /// The tree stores no key.
    pub fn is_empty(&self) -> (r: bool)
        ensures
            r == (self.spec_len() == 0),
    {
        self.size == 0
    }

    /// Point lookup: the value stored under `key`, if any.
    pub fn search(&self, key: &[u8]) -> (r: Option<&[u8]>)
        requires
            self.wf(),
        ensures
            match r {
                Some(v) => self.contains_pair(key@, v@),
                None => forall|v: Seq<u8>| !self.contains_pair(key@, v),
            },
    {
        let res = search_rec(&self.root, key, 0);
        match res {
            Some(v) => Some(v.as_slice()),
            None => None,
        }
    }

    /// Insert the pair, or replace the value stored under an existing key.
    /// The size counter grows exactly when the key is new.
    pub fn insert(&mut self, key: Vec<u8>, value: Vec<u8>)
        requires
            old(self).wf(),
            old(self).size < usize::MAX,
        ensures
            final(self).wf(),
            forall|k: Seq<u8>, v: Seq<u8>| #[trigger]
                final(self).contains_pair(k, v) <==> (if k == key@ {
                    v == value@
                } else {
                    old(self).contains_pair(k, v)
                }),
            final(self).spec_len() == old(self).spec_len() + (if old(self).contains_key(key@) {
                0int
            } else {
                1int
            }),
            crate::laws::insert_post(*old(self), *final(self), key@, value@),
            old(self).root is Empty ==> final(self).root is Leaf,
            old(self).root is Leaf ==> (if old(self).contains_key(key@) {
                final(self).root is Leaf
            } else {
                final(self).root is Node4
            }),
            is_inner(old(self).root) ==> ((final(self).root is Node4 && spec_prefix_len(
                final(self).root,
            ) < spec_prefix_len(old(self).root)) || ((same_shape(old(self).root, final(self).root)
                || grown_shape(old(self).root, final(self).root)) && spec_prefix_len(
                final(self).root,
            ) == spec_prefix_len(old(self).root))),
    {
        let ghost gkey = key@;
        let mut root = Node::Empty;
        core::mem::swap(&mut self.root, &mut root);
        proof {
            assert(root == old(self).root);
            if !(root is Empty) {
                assert(wf_node(root, 0));
            }
            assert forall|k: Seq<u8>, v: Seq<u8>| #[trigger]
                has_kv(root, k, v) implies k.subrange(0, 0) == gkey.subrange(0, 0) by {
                assert(k.subrange(0, 0) =~= gkey.subrange(0, 0));
            }
        }
        let (newroot, grew) = insert_rec(root, key, value, 0);
        self.root = newroot;
        if grew {
            self.size = self.size + 1;
        }
        proof {
            self.keys@ = old(self).keys@.insert(gkey);
            assert forall|k: Seq<u8>| #[trigger]
                has_key(self.root, k) <==> (k == gkey || has_key(root, k)) by {
                if has_key(self.root, k) {
                    let v = choose|v: Seq<u8>| has_kv(self.root, k, v);
                    assert(k == gkey || has_kv(root, k, v));
                }
                if k == gkey {
                    assert(has_kv(self.root, gkey, value@));
                }
                if has_key(root, k) && k != gkey {
                    let v = choose|v: Seq<u8>| has_kv(root, k, v);
                    assert(has_kv(self.root, k, v));
                }
            }
            assert forall|k: Seq<u8>| #[trigger]
                self.keys@.contains(k) <==> has_key(self.root, k) by {
                assert(old(self).keys@.contains(k) <==> has_key(root, k));
            }
            assert(old(self).contains_key(gkey) == has_key(root, gkey));
            if grew {
                assert(!old(self).keys@.contains(gkey));
                assert(self.keys@.len() == old(self).keys@.len() + 1);
            } else {
                assert(old(self).keys@.contains(gkey));
                assert(self.keys@.len() == old(self).keys@.len());
            }
        }
    }

    /// Whole-slice byte equality.
    pub(crate) fn equals(one: &[u8], two: &[u8]) -> (r: bool)
        ensures
            r == (one@ == two@),
    {
        if one.len() != two.len() {
            false
        } else {
            let res = ne_idx_bytes(one, two);
            match res {
                Some(_) => false,
                None => {
                    proof {
                        assert(one@ =~= two@);
                    }
                    true
                },
            }
        }
    }

    /// Number of positions, from `depth` on, over which the two keys agree
    /// before their first mismatch (or before one of them ends).
    pub(crate) fn longest_common_prefix(key1: &Vec<u8>, key2: &Vec<u8>, depth: usize) -> (p: usize)
        requires
            depth <= key1@.len(),
            depth <= key2@.len(),
        ensures
            depth + p <= key1@.len() && depth + p <= key2@.len(),
            forall|j: int| depth <= j < depth + p ==> key1@[j] == key2@[j],
            depth + p < key1@.len() && depth + p < key2@.len() ==> key1@[depth + p] != key2@[depth
                + p],
    {
        let max_compare = min_usize(key1.len(), key2.len());
        let mut i = depth;
        while i < max_compare
            invariant
                depth <= i <= max_compare,
                max_compare == vstd::math::min(key1@.len() as int, key2@.len() as int),
                forall|j: int| depth <= j < i ==> key1@[j] == key2@[j],
            decreases max_compare - i,
        {
            if key1[i] != key2[i] {
                return i - depth;
            }
            i += 1;
        }
        i - depth
    }

    /// The first `min(prefix_len, MAX_PREFIX)` key bytes starting at `depth`.
    pub(crate) fn calculate_partial(key: &Vec<u8>, depth: usize, prefix_len: usize) -> (r: Vec<u8>)
        requires
            depth + vstd::math::min(prefix_len as int, MAX_PREFIX as int) <= key@.len(),
        ensures
            r@ == key@.subrange(
                depth as int,
                depth + vstd::math::min(prefix_len as int, MAX_PREFIX as int),
            ),
    {
        let max_partial = min_usize(prefix_len, MAX_PREFIX);
        let klen = key.len();
        let mut partial: Vec<u8> = Vec::new();
        let mut i: usize = 0;
        while i < max_partial
            invariant
                i <= max_partial,
                depth + max_partial <= klen == key@.len(),
                partial@ == key@.subrange(depth as int, depth + i),
            decreases max_partial - i,
        {
            partial.push(key[depth + i]);
            proof {
                assert(partial@ =~= key@.subrange(depth as int, depth + i + 1));
            }
            i += 1;
        }
        partial
    }
}

} // verus!
