//! The shape-dispatch layer: uniform operations over the three inner-node
//! shapes and the helpers that walk keys and prefixes.
use vstd::prelude::*;
use vstd::slice::slice_index_get;

use crate::art::min_usize;
use crate::model::{
    child_index, edge_count, growth_rank, grown_shape, has_kv, has_label, is_inner, labels_sorted,
    lemma_child_index_label, lemma_child_index_unique, lemma_has_kv_decompose, lemma_pairs_equiv,
    lemma_scatter_equiv, lemma_wf_alt, one_edge, pairs_of, same_children, same_shape, shape_ok,
    spec_child, spec_has_child, spec_partial, spec_prefix_len, spec_term, two_edges, wf_alt,
    wf_node,
};
use crate::{Node, Node16, Node256, NodeMeta, MAX_PREFIX};

verus! {

impl Node {
    /// The key byte at `depth`, or the end-of-key marker when the key ends
    /// there or earlier.
    pub fn key_char(key: &Vec<u8>, depth: usize) -> (r: Option<u8>)
        ensures
            r == (if depth < key@.len() {
                Some(key@[depth as int])
            } else {
                None::<u8>
            }),
    {
        if depth < key.len() {
            Some(key[depth])
        } else {
            None
        }
    }

    /// The shared metadata of an inner node.
    pub fn get_meta(&self) -> (r: &NodeMeta)
        requires
            is_inner(*self),
        ensures
            r.prefix_len as int == spec_prefix_len(*self),
            r.partial@ == spec_partial(*self),
    {
        match self {
            Node::Node4(m) => &m.meta,
            Node::Node16(m) => &m.meta,
            Node::Node256(m) => &m.meta,
            _ => vstd::pervasive::unreached(),
        }
    }

    /// The logical length of the compressed prefix.
    pub fn prefix_len(&self) -> (r: usize)
        requires
            is_inner(*self),
        ensures
            r as int == spec_prefix_len(*self),
    {
        self.get_meta().prefix_len
    }

    /// The inline prefix bytes.
    pub fn partial(&self) -> (r: &[u8])
        requires
            is_inner(*self),
        ensures
            r@ == spec_partial(*self),
    {
        self.get_meta().partial.as_slice()
    }

    /// The terminal leaf of an inner node, if present.
    pub fn term_leaf(&self) -> (r: Option<&Box<Node>>)
        requires
            is_inner(*self),
        ensures
            r is Some <==> spec_term(*self) is Some,
            r is Some ==> *r.unwrap() == spec_term(*self).unwrap(),
    {
        match self {
            Node::Node4(m) => m.term_leaf(),
            Node::Node16(m) => m.term_leaf(),
            Node::Node256(m) => m.term_leaf(),
            _ => vstd::pervasive::unreached(),
        }
    }

    /// Look up the child stored under label `key`, if any.
    pub fn child_at(&self, key: u8) -> (r: Option<&Node>)
        requires
            is_inner(*self),
            shape_ok(*self),
        ensures
            match r {
                Some(ch) => spec_has_child(*self, key) && *ch == spec_child(*self, key),
                None => !spec_has_child(*self, key),
            },
    {
        match self {
            Node::Node4(m) => {
                let r = m.child_at(key);
                proof {
                    if r is Some {
                        let ch = r.unwrap();
                        let i = choose|i: int|
                            0 <= i < m.children@.len() && #[trigger] m.children@[i] == (key, *ch);
                        assert(m.children@[i].0 == key);
                        lemma_child_index_unique(m.children@, key, i);
                    }
                }
                r
            },
            Node::Node16(m) => {
                let r = m.child_at(key);
                proof {
                    if r is Some {
                        let ch = r.unwrap();
                        let i = choose|i: int|
                            0 <= i < m.children@.len() && #[trigger] m.children@[i] == (key, *ch);
                        assert(m.children@[i].0 == key);
                        lemma_child_index_unique(m.children@, key, i);
                    }
                }
                r
            },
            Node::Node256(m) => m.child_at(key),
            _ => vstd::pervasive::unreached(),
        }
    }

    /// There is an edge to follow for the key at `depth`: a label child for
    /// its next byte, or the terminal leaf when the key ends here.
    pub fn child_exists(&self, key: &Vec<u8>, depth: usize) -> (r: bool)
        requires
            is_inner(*self),
            shape_ok(*self),
        ensures
            r == (if depth < key@.len() {
                spec_has_child(*self, key@[depth as int])
            } else if depth == key@.len() {
                spec_term(*self) is Some
            } else {
                false
            }),
    {
        if depth < key.len() {
            self.child_at(key[depth]).is_some()
        } else if depth == key.len() {
            self.term_leaf().is_some()
        } else {
            false
        }
    }

    /// The edge to follow for the key at `depth`: the child under the next
    /// key byte, or the terminal leaf when the key ends here.
    pub fn find_child(&self, key: &[u8], depth: usize) -> (r: Option<&Node>)
        requires
            is_inner(*self),
            shape_ok(*self),
        ensures
            match r {
                Some(ch) => if depth < key@.len() {
                    spec_has_child(*self, key@[depth as int]) && *ch == spec_child(
                        *self,
                        key@[depth as int],
                    )
                } else {
                    depth == key@.len() && spec_term(*self) is Some && *ch == *spec_term(
                        *self,
                    ).unwrap()
                },
                None => {
                    &&& depth < key@.len() ==> !spec_has_child(*self, key@[depth as int])
                    &&& depth == key@.len() ==> spec_term(*self) is None
                },
            },
    {
        if depth < key.len() {
            self.child_at(*slice_index_get(key, depth))
        } else if depth == key.len() {
            match self.term_leaf() {
                Some(child_node) => Some(&**child_node),
                None => None,
            }
        } else {
            None
        }
    }

    /// All (label, child) pairs of the node in ascending label order, then
    /// the terminal leaf under the end-of-key marker if it is present.
    pub fn children(&self) -> (r: Vec<(Option<u8>, &Node)>)
        requires
            is_inner(*self),
            shape_ok(*self),
        ensures
            r@.len() == edge_count(*self),
            forall|j: int|
                0 <= j < r@.len() ==> ((#[trigger] r@[j]).0 matches Some(c) ==> spec_has_child(
                    *self,
                    c,
                ) && *r@[j].1 == spec_child(*self, c)),
            forall|j: int|
                0 <= j < r@.len() ==> ((#[trigger] r@[j]).0 is None ==> j == r@.len() - 1
                    && spec_term(*self) is Some && *r@[j].1 == *spec_term(*self).unwrap()),
            spec_term(*self) is Some ==> r@.len() > 0 && r@.last().0 is None,
            forall|j1: int, j2: int|
                #![trigger r@[j1], r@[j2]]
                0 <= j1 < j2 < r@.len() && r@[j1].0 is Some && r@[j2].0 is Some
                    ==> r@[j1].0.unwrap() < r@[j2].0.unwrap(),
            forall|c: u8|
                #[trigger] spec_has_child(*self, c) ==> exists|j: int|
                    0 <= j < r@.len() && (#[trigger] r@[j]).0 == Some(c),
    {
        match self {
            Node::Node4(m) => {
                let r = m.children();
                proof {
                    lemma_children_pairs(*self, m.children@, r@);
                }
                r
            },
            Node::Node16(m) => {
                let r = m.children();
                proof {
                    lemma_children_pairs(*self, m.children@, r@);
                }
                r
            },
            Node::Node256(m) => {
                let r = m.children();
                proof {
                    assert forall|j: int|
                        0 <= j < r@.len() && (#[trigger] r@[j]).0 is Some implies spec_has_child(
                        *self,
                        r@[j].0.unwrap(),
                    ) && *r@[j].1 == spec_child(*self, r@[j].0.unwrap()) by {
                        let c = r@[j].0.unwrap();
                        assert(!(m.children@[c as int] is Empty));
                    }
                }
                r
            },
            _ => vstd::pervasive::unreached(),
        }
    }

    /// The label child with the smallest label; used to reach a descendant
    /// leaf when the terminal slot is empty.
    pub fn first(&self) -> (r: &Node)
        requires
            is_inner(*self),
            shape_ok(*self),
            spec_term(*self) is None,
            one_edge(*self),
        ensures
            exists|c: u8|
                #[trigger] spec_has_child(*self, c) && *r == spec_child(*self, c) && (forall|
                    c2: u8,
                |
                    c2 < c ==> !(#[trigger] spec_has_child(*self, c2))),
    {
        match self {
            Node::Node4(m) => {
                let r = m.first();
                proof {
                    lemma_first_pairs(*self, m.children@);
                }
                r
            },
            Node::Node16(m) => {
                let r = m.first();
                proof {
                    lemma_first_pairs(*self, m.children@);
                }
                r
            },
            Node::Node256(m) => {
                let r = m.first();
                proof {
                    let i = choose|i: int|
                        0 <= i < 256 && *r == m.children@[i] && !((#[trigger] m.children@[i])
                            is Empty) && (forall|j: int|
                            0 <= j < i ==> (#[trigger] m.children@[j]) is Empty);
                    let c = i as u8;
                    assert(spec_has_child(*self, c));
                    assert(spec_child(*self, c) == m.children@[i]);
                    assert forall|c2: u8| c2 < c implies !(#[trigger] spec_has_child(
                        *self,
                        c2,
                    )) by {
                        assert(m.children@[c2 as int] is Empty);
                    }
                }
                r
            },
            _ => vstd::pervasive::unreached(),
        }
    }

    /// Count matching bytes between the inline prefix and the key from
    /// `depth`, scanning at most `max_match_len` positions.
    fn match_key(&self, key: &[u8], max_match_len: usize, depth: usize) -> (r: Option<usize>)
        requires
            is_inner(*self),
            max_match_len <= spec_partial(*self).len(),
            depth + max_match_len <= key@.len(),
        ensures
            match r {
                Some(m) => {
                    &&& m <= max_match_len
                    &&& forall|j: int|
                        0 <= j < m ==> spec_partial(*self)[j] == key@[depth + j]
                    &&& m < max_match_len ==> spec_partial(*self)[m as int] != key@[depth + m]
                },
                None => false,
            },
    {
        let meta = self.get_meta();
        let klen = key.len();
        let mut idx: usize = 0;
        while idx < max_match_len
            invariant
                idx <= max_match_len,
                max_match_len <= meta.partial@.len(),
                depth + max_match_len <= klen == key@.len(),
                meta.partial@ == spec_partial(*self),
                forall|j: int| 0 <= j < idx ==> spec_partial(*self)[j] == key@[depth + j],
            decreases max_match_len - idx,
        {
            if meta.partial[idx] != *slice_index_get(key, depth + idx) {
                return Some(idx);
            }
            idx += 1;
        }
        Some(idx)
    }

    /// Number of leading inline-prefix bytes that match the key at `depth`,
    /// capped by MAX_PREFIX, the inline buffer and the key's remainder.
    pub fn prefix_match(&self, key: &[u8], depth: usize) -> (m: usize)
        requires
            is_inner(*self),
            depth <= key@.len(),
        ensures
            ({
                let cap = vstd::math::min(
                    vstd::math::min(MAX_PREFIX as int, spec_partial(*self).len() as int),
                    key@.len() - depth,
                );
                &&& m <= cap
                &&& forall|j: int| 0 <= j < m ==> spec_partial(*self)[j] == key@[depth + j]
                &&& m < cap ==> spec_partial(*self)[m as int] != key@[depth + m]
            }),
    {
        let plen = self.partial().len();
        let max_match_len = min_usize(min_usize(MAX_PREFIX, plen), key.len() - depth);
        let res = self.match_key(key, max_match_len, depth);
        match res {
            Some(m) => m,
            None => 0,
        }
    }

    /// Pessimistic prefix match: resolve a full inline match by comparing
    /// against a descendant leaf, whose key bytes are authoritative.
    pub fn prefix_match_deep(&self, key: &[u8], depth: usize) -> (m: usize)
        requires
            is_inner(*self),
            wf_node(*self, depth as int),
            depth <= key@.len(),
        ensures
            depth + m <= key@.len(),
            (m as int) < spec_prefix_len(*self) ==> forall|k: Seq<u8>, v: Seq<u8>| #[trigger]
                has_kv(*self, k, v) ==> k.subrange(depth as int, depth + m) == key@.subrange(
                    depth as int,
                    depth + m,
                ) && (depth + m == key@.len() || k[depth + m] != key@[depth + m]),
            (m as int) >= spec_prefix_len(*self) ==> forall|k: Seq<u8>, v: Seq<u8>| #[trigger]
                has_kv(*self, k, v) ==> k.subrange(depth as int, depth + spec_prefix_len(*self))
                    == key@.subrange(depth as int, depth + spec_prefix_len(*self)),
            m < MAX_PREFIX ==> ({
                let cap = vstd::math::min(
                    vstd::math::min(MAX_PREFIX as int, spec_partial(*self).len() as int),
                    key@.len() - depth,
                );
                &&& m <= cap
                &&& forall|j: int| 0 <= j < m ==> spec_partial(*self)[j] == key@[depth + j]
                &&& m < cap ==> spec_partial(*self)[m as int] != key@[depth + m]
            }),
            m >= MAX_PREFIX ==> exists|k0: Seq<u8>, v0: Seq<u8>|
                #[trigger] has_kv(*self, k0, v0) && k0.subrange(depth as int, depth + m)
                    == key@.subrange(depth as int, depth + m) && (depth + m == key@.len() || depth
                    + m == k0.len() || k0[depth + m] != key@[depth + m]),
    {
        let ghost plen = spec_prefix_len(*self);
        let ghost partial = spec_partial(*self);
        let ghost d = depth as int;
        let mismatch_idx = self.prefix_match(key, depth);
        if mismatch_idx < MAX_PREFIX {
            proof {
                let cap = vstd::math::min(
                    vstd::math::min(MAX_PREFIX as int, partial.len() as int),
                    key@.len() - d,
                );
                let m = mismatch_idx as int;
                if m < plen {
                    assert forall|k: Seq<u8>, v: Seq<u8>| #[trigger]
                        has_kv(*self, k, v) implies k.subrange(d, d + m) == key@.subrange(d, d + m)
                        && (d + m == key@.len() || k[d + m] != key@[d + m]) by {
                        assert(partial == k.subrange(d, d + partial.len()));
                        assert(m <= partial.len());
                        assert forall|j: int| 0 <= j < m implies #[trigger] k[d + j] == key@[d + j] by {
                            assert(k.subrange(d, d + partial.len())[j] == k[d + j]);
                            assert(partial[j] == key@[d + j]);
                        }
                        assert(k.subrange(d, d + m) =~= key@.subrange(d, d + m));
                        if m < cap {
                            assert(partial[m] != key@[d + m]);
                            assert(k.subrange(d, d + partial.len())[m] == k[d + m]);
                            assert(k[d + m] != key@[d + m]);
                        } else {
                            if cap == key@.len() - d {
                                assert(d + m == key@.len());
                            } else {
                                assert(cap == partial.len());
                                assert(partial.len() == vstd::math::min(plen, MAX_PREFIX as int));
                                assert(false);
                            }
                        }
                    }
                } else {
                    assert forall|k: Seq<u8>, v: Seq<u8>| #[trigger]
                        has_kv(*self, k, v) implies k.subrange(d, d + plen) == key@.subrange(
                        d,
                        d + plen,
                    ) by {
                        assert(partial == k.subrange(d, d + partial.len()));
                        assert(m <= cap <= partial.len() <= plen);
                        assert(m == plen && plen == partial.len());
                        assert forall|j: int| 0 <= j < plen implies #[trigger] k[d + j] == key@[d + j] by {
                            assert(k.subrange(d, d + partial.len())[j] == k[d + j]);
                            assert(partial[j] == key@[d + j]);
                        }
                        assert(k.subrange(d, d + plen) =~= key@.subrange(d, d + plen));
                    }
                }
            }
            mismatch_idx
        } else {
            proof {
                assert(partial.len() == vstd::math::min(plen, MAX_PREFIX as int));
                assert(mismatch_idx == MAX_PREFIX);
                assert(partial.len() == MAX_PREFIX && plen >= MAX_PREFIX as int);
                assert(key@.len() - d >= MAX_PREFIX as int);
            }
            let leaf_node = self.minimum();
            match leaf_node {
                Node::Leaf(l) => {
                    proof {
                        assert(has_kv(*self, l.key@, l.value@));
                        assert(l.key.len() == l.key@.len());
                        assert(l.key@.len() >= d + plen);
                        assert(partial == l.key@.subrange(d, d + partial.len()));
                        assert forall|j: int| d <= j < d + MAX_PREFIX implies l.key@[j]
                            == key@[j] by {
                            assert(l.key@.subrange(d, d + partial.len())[j - d] == l.key@[j]);
                            assert(partial[j - d] == key@[j]);
                        }
                    }
                    let limit = min_usize(l.key.len(), key.len()) - depth;
                    let mut idx = mismatch_idx;
                    while idx < limit && l.key[idx + depth] == *slice_index_get(key, idx + depth)
                        invariant
                            MAX_PREFIX <= idx <= limit,
                            d == depth as int,
                            limit == vstd::math::min(l.key@.len() as int, key@.len() as int) - d,
                            l.key@.len() <= usize::MAX,
                            key@.len() <= usize::MAX,
                            depth <= key@.len(),
                            l.key@.len() >= d + MAX_PREFIX,
                            forall|j: int| d <= j < d + idx ==> l.key@[j] == key@[j],
                        decreases limit - idx,
                    {
                        idx += 1;
                    }
                    proof {
                        let m = idx as int;
                        assert(m == limit || (d + m < l.key@.len() && d + m < key@.len()
                            && l.key@[d + m] != key@[d + m]));
                        assert(l.key@.subrange(d, d + m) =~= key@.subrange(d, d + m)) by {
                            assert forall|j: int|
                                0 <= j < m implies #[trigger] l.key@.subrange(d, d + m)[j]
                                == key@.subrange(d, d + m)[j] by {
                                assert(l.key@[d + j] == key@[d + j]);
                            }
                        }
                        assert(has_kv(*self, l.key@, l.value@) && l.key@.subrange(d, d + m)
                            == key@.subrange(d, d + m) && (d + m == key@.len() || d + m
                            == l.key@.len() || l.key@[d + m] != key@[d + m]));
                        if m < plen {
                            assert forall|k: Seq<u8>, v: Seq<u8>| #[trigger]
                                has_kv(*self, k, v) implies k.subrange(d, d + m) == key@.subrange(
                                d,
                                d + m,
                            ) && (d + m == key@.len() || k[d + m] != key@[d + m]) by {
                                assert(k.subrange(d, d + plen) == l.key@.subrange(d, d + plen));
                                assert forall|j: int| 0 <= j < m implies #[trigger] k[d + j] == key@[d
                                    + j] by {
                                    assert(k.subrange(d, d + plen)[j] == k[d + j]);
                                    assert(l.key@.subrange(d, d + plen)[j] == l.key@[d + j]);
                                    assert(l.key@[d + j] == key@[d + j]);
                                }
                                assert(k.subrange(d, d + m) =~= key@.subrange(d, d + m));
                                if m == limit {
                                    if limit == key@.len() - d {
                                    } else {
                                        assert(limit == l.key@.len() - d);
                                        assert(l.key@.len() >= d + plen);
                                        assert(false);
                                    }
                                } else {
                                    assert(k.subrange(d, d + plen)[m] == k[d + m]);
                                    assert(l.key@.subrange(d, d + plen)[m] == l.key@[d + m]);
                                    assert(k[d + m] != key@[d + m]);
                                }
                            }
                        } else {
                            assert forall|k: Seq<u8>, v: Seq<u8>| #[trigger]
                                has_kv(*self, k, v) implies k.subrange(d, d + plen)
                                == key@.subrange(d, d + plen) by {
                                assert(k.subrange(d, d + plen) == l.key@.subrange(d, d + plen));
                                assert forall|j: int| 0 <= j < plen implies #[trigger] k[d + j] == key@[d
                                    + j] by {
                                    assert(k.subrange(d, d + plen)[j] == k[d + j]);
                                    assert(l.key@.subrange(d, d + plen)[j] == l.key@[d + j]);
                                    assert(l.key@[d + j] == key@[d + j]);
                                }
                                assert(k.subrange(d, d + plen) =~= key@.subrange(d, d + plen));
                            }
                        }
                    }
                    idx
                },
                _ => vstd::pervasive::unreached(),
            }
        }
    }

    /// A leaf reached by a deterministic descent: the terminal leaf when
    /// present, else through the first child.
    pub fn minimum(&self) -> (r: &Node)
        requires
            is_inner(*self),
            exists|d: int| wf_node(*self, d),
        ensures
            match *r {
                Node::Leaf(l) => has_kv(*self, l.key@, l.value@),
                _ => false,
            },
        decreases *self,
    {
        let ghost d = choose|d: int| wf_node(*self, d);
        proof {
            lemma_wf_alt(*self, d);
        }
        match self.term_leaf() {
            Some(t) => {
                match &**t {
                    Node::Leaf(_) => {
                        proof {
                            match &**t {
                                Node::Leaf(l) => {
                                    lemma_has_kv_decompose(*self, l.key@, l.value@);
                                    assert(has_kv(*spec_term(*self).unwrap(), l.key@, l.value@));
                                },
                                _ => {},
                            }
                        }
                        &**t
                    },
                    _ => vstd::pervasive::unreached(),
                }
            },
            None => {
                let child = self.first();
                let ghost c = choose|c: u8|
                    spec_has_child(*self, c) && *child == spec_child(*self, c);
                proof {
                    assert(wf_node(spec_child(*self, c), d + spec_prefix_len(*self) + 1));
                    lemma_has_kv_decompose(*self, arbitrary(), arbitrary());
                    match self {
                        Node::Node4(m) => {
                            lemma_child_index_label(m.children@, c);
                            let i = child_index(m.children@, c);
                            assert(*child == m.children@[i].1);
                            assert(decreases_to!(*self => m.children@[i].1));
                        },
                        Node::Node16(m) => {
                            lemma_child_index_label(m.children@, c);
                            let i = child_index(m.children@, c);
                            assert(*child == m.children@[i].1);
                            assert(decreases_to!(*self => m.children@[i].1));
                        },
                        Node::Node256(m) => {
                            assert(*child == m.children@[c as int]);
                            assert(decreases_to!(*self => m.children@[c as int]));
                        },
                        _ => {},
                    }
                }
                match child {
                    Node::Leaf(_) => {
                        proof {
                            match child {
                                Node::Leaf(l) => {
                                    assert(has_kv(spec_child(*self, c), l.key@, l.value@));
                                    lemma_has_kv_decompose(*self, l.key@, l.value@);
                                },
                                _ => {},
                            }
                        }
                        child
                    },
                    Node::Empty => vstd::pervasive::unreached(),
                    _ => {
                        let r = child.minimum();
                        proof {
                            match r {
                                Node::Leaf(l) => {
                                    lemma_has_kv_decompose(*self, l.key@, l.value@);
                                },
                                _ => {},
                            }
                        }
                        r
                    },
                }
            },
        }
    }

    /// Replace the stored prefix length, keeping everything else.
    pub fn set_prefix_len(self, new_prefix_len: usize) -> (r: Node)
        requires
            is_inner(self),
        ensures
            is_inner(r),
            same_children(self, r),
            spec_prefix_len(r) == new_prefix_len as int,
            spec_partial(r) == spec_partial(self),
    {
        match self {
            Node::Node4(mut m) => {
                m.meta.prefix_len = new_prefix_len;
                Node::Node4(m)
            },
            Node::Node16(mut m) => {
                m.meta.prefix_len = new_prefix_len;
                Node::Node16(m)
            },
            Node::Node256(mut m) => {
                m.meta.prefix_len = new_prefix_len;
                Node::Node256(m)
            },
            _ => vstd::pervasive::unreached(),
        }
    }

    /// Replace the stored inline prefix bytes, keeping everything else.
    pub fn set_partial(self, new_partial: Vec<u8>) -> (r: Node)
        requires
            is_inner(self),
        ensures
            is_inner(r),
            same_children(self, r),
            spec_prefix_len(r) == spec_prefix_len(self),
            spec_partial(r) == new_partial@,
    {
        match self {
            Node::Node4(mut m) => {
                m.meta.partial = new_partial;
                Node::Node4(m)
            },
            Node::Node16(mut m) => {
                m.meta.partial = new_partial;
                Node::Node16(m)
            },
            Node::Node256(mut m) => {
                m.meta.partial = new_partial;
                Node::Node256(m)
            },
            _ => vstd::pervasive::unreached(),
        }
    }

    /// Detach and return the terminal leaf.
    pub fn take_term(self) -> (r: (Node, Box<Node>))
        requires
            is_inner(self),
            spec_term(self) is Some,
        ensures
            is_inner(r.0),
            shape_ok(r.0) == shape_ok(self),
            *r.1 == *spec_term(self).unwrap(),
            spec_term(r.0) is None,
            spec_prefix_len(r.0) == spec_prefix_len(self),
            spec_partial(r.0) == spec_partial(self),
            forall|c: u8| #[trigger] spec_has_child(r.0, c) == spec_has_child(self, c),
            forall|c: u8|
                spec_has_child(self, c) ==> #[trigger] spec_child(r.0, c) == spec_child(self, c),
            forall|k: Seq<u8>, v: Seq<u8>| #[trigger]
                has_kv(self, k, v) <==> has_kv(r.0, k, v) || has_kv(*r.1, k, v),
            two_edges(self) ==> one_edge(r.0),
            same_shape(self, r.0),
            pairs_of(r.0) == pairs_of(self),
    {
        match self {
            Node::Node4(mut m) => {
                let t = m.term_leaf.take().unwrap();
                (Node::Node4(m), t)
            },
            Node::Node16(mut m) => {
                let t = m.term_leaf.take().unwrap();
                (Node::Node16(m), t)
            },
            Node::Node256(mut m) => {
                let ghost a = Node::Node256(m);
                let t = m.term_leaf.take().unwrap();
                let rest = Node::Node256(m);
                proof {
                    if two_edges(a) {
                        if exists|c: int|
                            0 <= c < 256 && !((#[trigger] crate::model::slots_of(a)[c]) is Empty) {
                            let c = choose|c: int|
                                0 <= c < 256 && !((#[trigger] crate::model::slots_of(a)[c])
                                    is Empty);
                            assert(!(crate::model::slots_of(rest)[c] is Empty));
                        } else {
                            let (c1, c2) = choose|c1: int, c2: int|
                                0 <= c1 < c2 < 256 && !((#[trigger] crate::model::slots_of(a)[c1])
                                    is Empty) && !((#[trigger] crate::model::slots_of(a)[c2])
                                    is Empty);
                            assert(false);
                        }
                    }
                }
                (rest, t)
            },
            _ => vstd::pervasive::unreached(),
        }
    }

    /// Detach and return the child stored under label `c`.
    pub fn take_child(self, c: u8) -> (r: (Node, Node))
        requires
            is_inner(self),
            shape_ok(self),
            spec_has_child(self, c),
        ensures
            is_inner(r.0),
            shape_ok(r.0),
            spec_prefix_len(r.0) == spec_prefix_len(self),
            spec_partial(r.0) == spec_partial(self),
            spec_term(r.0) == spec_term(self),
            r.1 == spec_child(self, c),
            !(r.1 is Empty),
            !spec_has_child(r.0, c),
            forall|c2: u8| c2 != c ==> #[trigger] spec_has_child(r.0, c2) == spec_has_child(
                self,
                c2,
            ),
            forall|c2: u8|
                c2 != c && spec_has_child(self, c2) ==> #[trigger] spec_child(r.0, c2)
                    == spec_child(self, c2),
            two_edges(self) ==> one_edge(r.0),
            forall|k: Seq<u8>, v: Seq<u8>| #[trigger]
                has_kv(self, k, v) <==> has_kv(r.0, k, v) || has_kv(r.1, k, v),
            same_shape(self, r.0),
            pairs_of(r.0).len() == pairs_of(self).len() - (if self is Node256 {
                0int
            } else {
                1int
            }),
    {
        match self {
            Node::Node4(mut m) => {
                let ghost a = Node::Node4(m);
                let ghost s0 = m.children@;
                let child = m.take_child(c);
                let rest = Node::Node4(m);
                proof {
                    let i = choose|i: int|
                        0 <= i < s0.len() && #[trigger] s0[i] == (c, child) && m.children@
                            == s0.remove(i);
                    assert(pairs_of(a)[i] == (c, child) && pairs_of(rest) == pairs_of(a).remove(i));
                    lemma_take_pair_effect(a, rest, c, child);
                }
                (rest, child)
            },
            Node::Node16(mut m) => {
                let ghost a = Node::Node16(m);
                let ghost s0 = m.children@;
                let child = m.take_child(c);
                let rest = Node::Node16(m);
                proof {
                    let i = choose|i: int|
                        0 <= i < s0.len() && #[trigger] s0[i] == (c, child) && m.children@
                            == s0.remove(i);
                    assert(pairs_of(a)[i] == (c, child) && pairs_of(rest) == pairs_of(a).remove(i));
                    lemma_take_pair_effect(a, rest, c, child);
                }
                (rest, child)
            },
            Node::Node256(mut m) => {
                let ghost a = Node::Node256(m);
                let child = m.take_child(c);
                let rest = Node::Node256(m);
                proof {
                    let s = crate::model::slots_of(a);
                    let t = crate::model::slots_of(rest);
                    assert(t == s.update(c as int, Node::Empty));
                    assert forall|k: Seq<u8>, v: Seq<u8>| #[trigger]
                        has_kv(a, k, v) <==> has_kv(rest, k, v) || has_kv(child, k, v) by {
                        if has_kv(a, k, v) {
                            if exists|i: int| 0 <= i < s.len() && has_kv(#[trigger] s[i], k, v) {
                                let i = choose|i: int|
                                    0 <= i < s.len() && has_kv(#[trigger] s[i], k, v);
                                if i == c as int {
                                    assert(has_kv(child, k, v));
                                } else {
                                    assert(t[i] == s[i]);
                                    assert(has_kv(t[i], k, v));
                                }
                            }
                        }
                        if has_kv(rest, k, v) {
                            if exists|i: int| 0 <= i < t.len() && has_kv(#[trigger] t[i], k, v) {
                                let i = choose|i: int|
                                    0 <= i < t.len() && has_kv(#[trigger] t[i], k, v);
                                assert(i != c as int);
                                assert(s[i] == t[i]);
                                assert(has_kv(s[i], k, v));
                            }
                            assert(has_kv(a, k, v));
                        }
                        if has_kv(child, k, v) {
                            assert(has_kv(s[c as int], k, v));
                            assert(has_kv(a, k, v));
                        }
                    }
                    if two_edges(a) {
                        if spec_term(a) is Some {
                            assert(one_edge(rest));
                        } else {
                            let (c1, c2) = choose|c1: int, c2: int|
                                0 <= c1 < c2 < 256 && !((#[trigger] s[c1]) is Empty) && !((
                                #[trigger] s[c2]) is Empty);
                            if c1 != c as int {
                                assert(!(t[c1] is Empty));
                            } else {
                                assert(!(t[c2] is Empty));
                            }
                            assert(one_edge(rest));
                        }
                    }
                }
                (rest, child)
            },
            _ => vstd::pervasive::unreached(),
        }
    }

    /// Add a child edge, growing the node into the next larger shape when
    /// it is at capacity.
    pub fn add_child(self, node: Node, key_char: Option<u8>) -> (r: Node)
        requires
            is_inner(self),
            shape_ok(self),
            !(node is Empty),
            match key_char {
                Some(c) => !spec_has_child(self, c),
                None => spec_term(self) is None,
            },
        ensures
            is_inner(r),
            shape_ok(r),
            spec_prefix_len(r) == spec_prefix_len(self),
            spec_partial(r) == spec_partial(self),
            one_edge(r),
            one_edge(self) ==> two_edges(r),
            match key_char {
                Some(c) => {
                    &&& spec_term(r) == spec_term(self)
                    &&& spec_has_child(r, c)
                    &&& spec_child(r, c) == node
                    &&& forall|c2: u8|
                        c2 != c ==> #[trigger] spec_has_child(r, c2) == spec_has_child(self, c2)
                    &&& forall|c2: u8|
                        c2 != c && spec_has_child(self, c2) ==> #[trigger] spec_child(r, c2)
                            == spec_child(self, c2)
                },
                None => {
                    &&& (match spec_term(r) {
                        Some(t) => *t == node,
                        None => false,
                    })
                    &&& forall|c2: u8| #[trigger]
                        spec_has_child(r, c2) == spec_has_child(self, c2)
                    &&& forall|c2: u8|
                        spec_has_child(self, c2) ==> #[trigger] spec_child(r, c2) == spec_child(
                            self,
                            c2,
                        )
                },
            },
            forall|k: Seq<u8>, v: Seq<u8>| #[trigger]
                has_kv(r, k, v) <==> has_kv(self, k, v) || has_kv(node, k, v),
            self is Node4 && pairs_of(self).len() < 4 ==> r is Node4,
            self is Node4 && pairs_of(self).len() == 4 ==> r is Node16,
            self is Node16 && pairs_of(self).len() < 16 ==> r is Node16,
            self is Node16 && pairs_of(self).len() == 16 ==> r is Node256,
            self is Node256 ==> r is Node256,
            same_shape(self, r) || grown_shape(self, r),
        decreases growth_rank(self),
    {
        match self {
            Node::Node4(mut node4) => {
                if node4.should_grow() {
                    let ghost a = Node::Node4(node4);
                    let mut node16 = Node16::new();
                    node16.copy(Node::Node4(node4));
                    let bigger = Node::Node16(node16);
                    proof {
                        lemma_pairs_equiv(a, bigger);
                    }
                    bigger.add_child(node, key_char)
                } else {
                    let ghost a = Node::Node4(node4);
                    let ghost s0 = node4.children@;
                    node4.add_child(node, key_char);
                    let r = Node::Node4(node4);
                    proof {
                        match key_char {
                            Some(c) => {
                                let p = choose|p: int|
                                    0 <= p <= s0.len() && node4.children@ == s0.insert(
                                        p,
                                        (c, node),
                                    );
                                assert(0 <= p <= pairs_of(a).len() && pairs_of(r) == pairs_of(
                                    a,
                                ).insert(p, (c, node)));
                            },
                            None => {},
                        }
                        lemma_added(a, r, node, key_char);
                    }
                    r
                }
            },
            Node::Node16(mut node16) => {
                if node16.should_grow() {
                    let ghost a = Node::Node16(node16);
                    let mut node256 = Node256::new();
                    node256.copy(Node::Node16(node16));
                    let bigger = Node::Node256(node256);
                    proof {
                        lemma_scatter_equiv(a, bigger);
                    }
                    bigger.add_child(node, key_char)
                } else {
                    let ghost a = Node::Node16(node16);
                    let ghost s0 = node16.children@;
                    node16.add_child(node, key_char);
                    let r = Node::Node16(node16);
                    proof {
                        match key_char {
                            Some(c) => {
                                let p = choose|p: int|
                                    0 <= p <= s0.len() && node16.children@ == s0.insert(
                                        p,
                                        (c, node),
                                    );
                                assert(0 <= p <= pairs_of(a).len() && pairs_of(r) == pairs_of(
                                    a,
                                ).insert(p, (c, node)));
                            },
                            None => {},
                        }
                        lemma_added(a, r, node, key_char);
                    }
                    r
                }
            },
            Node::Node256(mut node256) => {
                let ghost a = Node::Node256(node256);
                node256.add_child(node, key_char);
                let r = Node::Node256(node256);
                proof {
                    lemma_added_slots(a, r, node, key_char);
                }
                r
            },
            _ => vstd::pervasive::unreached(),
        }
    }

}

/// Inserting a fresh label into the sorted pairs of a node adds exactly
/// that child and keeps every other edge.
proof fn lemma_add_pair_effect(a: Node, b: Node, c: u8, node: Node, p: int)
    requires
        a is Node4 || a is Node16,
        b is Node4 || b is Node16,
        shape_ok(a),
        !(node is Empty),
        !has_label(pairs_of(a), c),
        0 <= p <= pairs_of(a).len(),
        pairs_of(b) == pairs_of(a).insert(p, (c, node)),
        spec_term(b) == spec_term(a),
        labels_sorted(pairs_of(b)),
    ensures
        spec_has_child(b, c),
        spec_child(b, c) == node,
        forall|c2: u8| c2 != c ==> #[trigger] spec_has_child(b, c2) == spec_has_child(a, c2),
        forall|c2: u8|
            c2 != c && spec_has_child(a, c2) ==> #[trigger] spec_child(b, c2) == spec_child(a, c2),
        forall|k: Seq<u8>, v: Seq<u8>| #[trigger]
            has_kv(b, k, v) <==> has_kv(a, k, v) || has_kv(node, k, v),
        one_edge(b),
        one_edge(a) ==> two_edges(b),
        forall|i: int| 0 <= i < pairs_of(b).len() ==> !((#[trigger] pairs_of(b)[i]).1 is Empty),
    decreases 0int,
{
    let s = pairs_of(a);
    let t = pairs_of(b);
    s.insert_ensures(p, (c, node));
    assert(t[p] == (c, node));
    assert(spec_has_child(b, c));
    lemma_child_index_unique(t, c, p);
    assert forall|c2: u8| c2 != c implies #[trigger] spec_has_child(b, c2) == spec_has_child(
        a,
        c2,
    ) by {
        if spec_has_child(a, c2) {
            let i = choose|i: int| 0 <= i < s.len() && (#[trigger] s[i]).0 == c2;
            if i < p {
                assert(t[i].0 == c2);
            } else {
                assert(t[i + 1].0 == c2);
            }
        }
        if spec_has_child(b, c2) {
            let j = choose|j: int| 0 <= j < t.len() && (#[trigger] t[j]).0 == c2;
            if j < p {
                assert(s[j].0 == c2);
            } else {
                assert(j != p);
                assert(s[j - 1].0 == c2);
            }
        }
    }
    assert forall|c2: u8| c2 != c && spec_has_child(a, c2) implies #[trigger] spec_child(b, c2)
        == spec_child(a, c2) by {
        lemma_child_index_label(s, c2);
        let i = child_index(s, c2);
        if i < p {
            assert(t[i] == s[i]);
            lemma_child_index_unique(t, c2, i);
        } else {
            assert(t[i + 1] == s[i]);
            lemma_child_index_unique(t, c2, i + 1);
        }
    }
    assert forall|k: Seq<u8>, v: Seq<u8>| #[trigger]
        has_kv(b, k, v) <==> has_kv(a, k, v) || has_kv(node, k, v) by {
        if has_kv(b, k, v) {
            if exists|j: int| 0 <= j < t.len() && has_kv((#[trigger] t[j]).1, k, v) {
                let j = choose|j: int| 0 <= j < t.len() && has_kv((#[trigger] t[j]).1, k, v);
                if j == p {
                    assert(has_kv(node, k, v));
                } else if j < p {
                    assert(t[j] == s[j]);
                    assert(has_kv(s[j].1, k, v));
                    assert(has_kv(a, k, v));
                } else {
                    assert(t[j] == s[j - 1]);
                    assert(has_kv(s[j - 1].1, k, v));
                    assert(has_kv(a, k, v));
                }
            } else {
                assert(has_kv(a, k, v));
            }
        }
        if has_kv(a, k, v) {
            if exists|i: int| 0 <= i < s.len() && has_kv((#[trigger] s[i]).1, k, v) {
                let i = choose|i: int| 0 <= i < s.len() && has_kv((#[trigger] s[i]).1, k, v);
                if i < p {
                    assert(t[i] == s[i]);
                    assert(has_kv(t[i].1, k, v));
                } else {
                    assert(t[i + 1] == s[i]);
                    assert(has_kv(t[i + 1].1, k, v));
                }
            }
            assert(has_kv(b, k, v));
        }
        if has_kv(node, k, v) {
            assert(has_kv(t[p].1, k, v));
            assert(has_kv(b, k, v));
        }
    }
}

/// Removing the pair of label `c` from the sorted pairs of a node removes
/// exactly that child and keeps every other edge.
#[verifier::rlimit(60)]
proof fn lemma_take_pair_effect(a: Node, b: Node, c: u8, child: Node)
    requires
        a is Node4 || a is Node16,
        b is Node4 || b is Node16,
        shape_ok(a),
        spec_has_child(a, c),
        spec_term(b) == spec_term(a),
        exists|i: int|
            0 <= i < pairs_of(a).len() && #[trigger] pairs_of(a)[i] == (c, child) && pairs_of(b)
                == pairs_of(a).remove(i),
        labels_sorted(pairs_of(b)),
    ensures
        child == spec_child(a, c),
        !(child is Empty),
        !spec_has_child(b, c),
        forall|c2: u8| c2 != c ==> #[trigger] spec_has_child(b, c2) == spec_has_child(a, c2),
        forall|c2: u8|
            c2 != c && spec_has_child(a, c2) ==> #[trigger] spec_child(b, c2) == spec_child(a, c2),
        two_edges(a) ==> one_edge(b),
        forall|k: Seq<u8>, v: Seq<u8>| #[trigger]
            has_kv(a, k, v) <==> has_kv(b, k, v) || has_kv(child, k, v),
{
    let s = pairs_of(a);
    let t = pairs_of(b);
    let i = choose|i: int|
        0 <= i < s.len() && #[trigger] s[i] == (c, child) && t == s.remove(i);
    s.remove_ensures(i);
    lemma_child_index_unique(s, c, i);
    assert(child == spec_child(a, c));
    assert forall|j: int| 0 <= j < t.len() implies (#[trigger] t[j]).0 != c by {
        if j < i {
            assert(t[j] == s[j]);
            if s[j].0 == c {
                lemma_child_index_unique(s, c, j);
            }
        } else {
            assert(t[j] == s[j + 1]);
            if s[j + 1].0 == c {
                lemma_child_index_unique(s, c, j + 1);
            }
        }
    }
    assert forall|c2: u8| c2 != c implies #[trigger] spec_has_child(b, c2) == spec_has_child(
        a,
        c2,
    ) by {
        if spec_has_child(a, c2) {
            let j = choose|j: int| 0 <= j < s.len() && (#[trigger] s[j]).0 == c2;
            assert(j != i);
            if j < i {
                assert(t[j].0 == c2);
            } else {
                assert(t[j - 1].0 == c2);
            }
        }
        if spec_has_child(b, c2) {
            let j = choose|j: int| 0 <= j < t.len() && (#[trigger] t[j]).0 == c2;
            if j < i {
                assert(s[j].0 == c2);
            } else {
                assert(s[j + 1].0 == c2);
            }
        }
    }
    assert forall|c2: u8| c2 != c && spec_has_child(a, c2) implies #[trigger] spec_child(b, c2)
        == spec_child(a, c2) by {
        lemma_child_index_label(s, c2);
        let j = child_index(s, c2);
        assert(j != i);
        if j < i {
            assert(t[j] == s[j]);
            lemma_child_index_unique(t, c2, j);
        } else {
            assert(t[j - 1] == s[j]);
            lemma_child_index_unique(t, c2, j - 1);
        }
    }
    assert forall|k: Seq<u8>, v: Seq<u8>| #[trigger]
        has_kv(a, k, v) <==> has_kv(b, k, v) || has_kv(child, k, v) by {
        if has_kv(a, k, v) {
            if exists|j: int| 0 <= j < s.len() && has_kv((#[trigger] s[j]).1, k, v) {
                let j = choose|j: int| 0 <= j < s.len() && has_kv((#[trigger] s[j]).1, k, v);
                if j == i {
                    assert(has_kv(child, k, v));
                } else if j < i {
                    assert(t[j] == s[j]);
                    assert(has_kv(t[j].1, k, v));
                    assert(has_kv(b, k, v));
                } else {
                    assert(t[j - 1] == s[j]);
                    assert(has_kv(t[j - 1].1, k, v));
                    assert(has_kv(b, k, v));
                }
            } else {
                assert(has_kv(b, k, v));
            }
        }
        if has_kv(b, k, v) {
            if exists|j: int| 0 <= j < t.len() && has_kv((#[trigger] t[j]).1, k, v) {
                let j = choose|j: int| 0 <= j < t.len() && has_kv((#[trigger] t[j]).1, k, v);
                if j < i {
                    assert(s[j] == t[j]);
                    assert(has_kv(s[j].1, k, v));
                } else {
                    assert(s[j + 1] == t[j]);
                    assert(has_kv(s[j + 1].1, k, v));
                }
            }
            assert(has_kv(a, k, v));
        }
        if has_kv(child, k, v) {
            assert(has_kv(s[i].1, k, v));
            assert(has_kv(a, k, v));
        }
    }
}

/// Effect of a plain (no-growth) addition on a sorted-pair shape.
pub(crate) proof fn lemma_added(a: Node, r: Node, node: Node, key_char: Option<u8>)
    requires
        a is Node4 || a is Node16,
        r is Node4 || r is Node16,
        shape_ok(a),
        !(node is Empty),
        pairs_of(a).len() < (if a is Node4 {
            4int
        } else {
            16int
        }),
        a is Node4 <==> r is Node4,
        spec_prefix_len(r) == spec_prefix_len(a),
        spec_partial(r) == spec_partial(a),
        match key_char {
            Some(c) => {
                &&& !spec_has_child(a, c)
                &&& spec_term(r) == spec_term(a)
                &&& exists|p: int|
                    0 <= p <= pairs_of(a).len() && pairs_of(r) == pairs_of(a).insert(p, (c, node))
                &&& labels_sorted(pairs_of(r))
            },
            None => {
                &&& spec_term(a) is None
                &&& pairs_of(r) == pairs_of(a)
                &&& match spec_term(r) {
                    Some(t) => *t == node,
                    None => false,
                }
            },
        },
    ensures
        shape_ok(r),
        one_edge(r),
        one_edge(a) ==> two_edges(r),
        match key_char {
            Some(c) => {
                &&& spec_has_child(r, c)
                &&& spec_child(r, c) == node
                &&& forall|c2: u8|
                    c2 != c ==> #[trigger] spec_has_child(r, c2) == spec_has_child(a, c2)
                &&& forall|c2: u8|
                    c2 != c && spec_has_child(a, c2) ==> #[trigger] spec_child(r, c2) == spec_child(
                        a,
                        c2,
                    )
            },
            None => {
                &&& forall|c2: u8| #[trigger] spec_has_child(r, c2) == spec_has_child(a, c2)
                &&& forall|c2: u8|
                    spec_has_child(a, c2) ==> #[trigger] spec_child(r, c2) == spec_child(a, c2)
            },
        },
        forall|k: Seq<u8>, v: Seq<u8>| #[trigger]
            has_kv(r, k, v) <==> has_kv(a, k, v) || has_kv(node, k, v),
{
    match key_char {
        Some(c) => {
            let p = choose|p: int|
                0 <= p <= pairs_of(a).len() && pairs_of(r) == pairs_of(a).insert(p, (c, node));
            pairs_of(a).insert_ensures(p, (c, node));
            lemma_add_pair_effect(a, r, c, node, p);
            assert forall|c2: u8| #[trigger]
                spec_has_child(r, c2) implies spec_has_child(r, c2) by {}
        },
        None => {
            assert forall|k: Seq<u8>, v: Seq<u8>| #[trigger]
                has_kv(r, k, v) <==> has_kv(a, k, v) || has_kv(node, k, v) by {
                if has_kv(r, k, v) {
                    if exists|j: int|
                        0 <= j < pairs_of(r).len() && has_kv((#[trigger] pairs_of(r)[j]).1, k, v) {
                        let j = choose|j: int|
                            0 <= j < pairs_of(r).len() && has_kv((#[trigger] pairs_of(r)[j]).1, k, v);
                        assert(has_kv(pairs_of(a)[j].1, k, v));
                        assert(has_kv(a, k, v));
                    } else {
                        assert(has_kv(node, k, v));
                    }
                }
                if has_kv(a, k, v) {
                    if exists|j: int|
                        0 <= j < pairs_of(a).len() && has_kv((#[trigger] pairs_of(a)[j]).1, k, v) {
                        let j = choose|j: int|
                            0 <= j < pairs_of(a).len() && has_kv((#[trigger] pairs_of(a)[j]).1, k, v);
                        assert(has_kv(pairs_of(r)[j].1, k, v));
                    }
                    assert(has_kv(r, k, v));
                }
                if has_kv(node, k, v) {
                    assert(has_kv(r, k, v));
                }
            }
        },
    }
}

/// Effect of an addition on the direct slot array of a `Node256`.
pub(crate) proof fn lemma_added_slots(a: Node, r: Node, node: Node, key_char: Option<u8>)
    requires
        a is Node256,
        r is Node256,
        shape_ok(a),
        !(node is Empty),
        spec_prefix_len(r) == spec_prefix_len(a),
        spec_partial(r) == spec_partial(a),
        match key_char {
            Some(c) => {
                &&& !spec_has_child(a, c)
                &&& spec_term(r) == spec_term(a)
                &&& crate::model::slots_of(r) == crate::model::slots_of(a).update(c as int, node)
            },
            None => {
                &&& spec_term(a) is None
                &&& crate::model::slots_of(r) == crate::model::slots_of(a)
                &&& match spec_term(r) {
                    Some(t) => *t == node,
                    None => false,
                }
            },
        },
    ensures
        shape_ok(r),
        one_edge(r),
        one_edge(a) ==> two_edges(r),
        match key_char {
            Some(c) => {
                &&& spec_has_child(r, c)
                &&& spec_child(r, c) == node
                &&& forall|c2: u8|
                    c2 != c ==> #[trigger] spec_has_child(r, c2) == spec_has_child(a, c2)
                &&& forall|c2: u8|
                    c2 != c && spec_has_child(a, c2) ==> #[trigger] spec_child(r, c2) == spec_child(
                        a,
                        c2,
                    )
            },
            None => {
                &&& forall|c2: u8| #[trigger] spec_has_child(r, c2) == spec_has_child(a, c2)
                &&& forall|c2: u8|
                    spec_has_child(a, c2) ==> #[trigger] spec_child(r, c2) == spec_child(a, c2)
            },
        },
        forall|k: Seq<u8>, v: Seq<u8>| #[trigger]
            has_kv(r, k, v) <==> has_kv(a, k, v) || has_kv(node, k, v),
{
    let s = crate::model::slots_of(a);
    let t = crate::model::slots_of(r);
    match key_char {
        Some(c) => {
            assert forall|k: Seq<u8>, v: Seq<u8>| #[trigger]
                has_kv(r, k, v) <==> has_kv(a, k, v) || has_kv(node, k, v) by {
                if has_kv(r, k, v) {
                    if exists|i: int| 0 <= i < t.len() && has_kv(#[trigger] t[i], k, v) {
                        let i = choose|i: int| 0 <= i < t.len() && has_kv(#[trigger] t[i], k, v);
                        if i == c as int {
                            assert(has_kv(node, k, v));
                        } else {
                            assert(t[i] == s[i]);
                            assert(has_kv(s[i], k, v));
                            assert(has_kv(a, k, v));
                        }
                    } else {
                        assert(has_kv(a, k, v));
                    }
                }
                if has_kv(a, k, v) {
                    if exists|i: int| 0 <= i < s.len() && has_kv(#[trigger] s[i], k, v) {
                        let i = choose|i: int| 0 <= i < s.len() && has_kv(#[trigger] s[i], k, v);
                        assert(i != c as int);
                        assert(t[i] == s[i]);
                        assert(has_kv(t[i], k, v));
                    }
                    assert(has_kv(r, k, v));
                }
                if has_kv(node, k, v) {
                    assert(has_kv(t[c as int], k, v));
                    assert(has_kv(r, k, v));
                }
            }
            if one_edge(a) {
                if spec_term(a) is Some {
                    assert(two_edges(r));
                } else {
                    let i = choose|i: int| 0 <= i < 256 && !((#[trigger] s[i]) is Empty);
                    assert(i != c as int);
                    assert(!(t[i] is Empty));
                    assert(!(t[c as int] is Empty));
                    if i < c as int {
                        assert(two_edges(r));
                    } else {
                        assert(two_edges(r));
                    }
                }
            }
        },
        None => {
            assert forall|k: Seq<u8>, v: Seq<u8>| #[trigger]
                has_kv(r, k, v) <==> has_kv(a, k, v) || has_kv(node, k, v) by {
                if has_kv(r, k, v) {
                    if exists|i: int| 0 <= i < t.len() && has_kv(#[trigger] t[i], k, v) {
                        let i = choose|i: int| 0 <= i < t.len() && has_kv(#[trigger] t[i], k, v);
                        assert(has_kv(s[i], k, v));
                        assert(has_kv(a, k, v));
                    } else {
                        assert(has_kv(node, k, v));
                    }
                }
                if has_kv(a, k, v) {
                    if exists|i: int| 0 <= i < s.len() && has_kv(#[trigger] s[i], k, v) {
                        let i = choose|i: int| 0 <= i < s.len() && has_kv(#[trigger] s[i], k, v);
                        assert(has_kv(t[i], k, v));
                    }
                    assert(has_kv(r, k, v));
                }
                if has_kv(node, k, v) {
                    assert(has_kv(r, k, v));
                }
            }
            if one_edge(a) {
                let i = choose|i: int| 0 <= i < 256 && !((#[trigger] s[i]) is Empty);
                assert(!(t[i] is Empty));
                assert(two_edges(r));
            }
        },
    }
}

/// The children listing of a sorted-pair shape meets the uniform contract.
proof fn lemma_children_pairs(n: Node, s: Seq<(u8, Node)>, r: Seq<(Option<u8>, &Node)>)
    requires
        n is Node4 || n is Node16,
        shape_ok(n),
        match n {
            Node::Node4(m) => s == m.children@,
            Node::Node16(m) => s == m.children@,
            _ => false,
        },
        r.len() == s.len() + crate::model::term_count(spec_term(n)),
        forall|i: int|
            0 <= i < s.len() ==> (#[trigger] r[i]).0 == Some(s[i].0) && *r[i].1 == s[i].1,
        spec_term(n) is Some ==> r.last().0 is None && *r.last().1 == *spec_term(n).unwrap(),
    ensures
        r.len() == edge_count(n),
        forall|j: int|
            0 <= j < r.len() ==> ((#[trigger] r[j]).0 matches Some(c) ==> spec_has_child(n, c)
                && *r[j].1 == spec_child(n, c)),
        forall|j: int|
            0 <= j < r.len() ==> ((#[trigger] r[j]).0 is None ==> j == r.len() - 1 && spec_term(n)
                is Some && *r[j].1 == *spec_term(n).unwrap()),
        spec_term(n) is Some ==> r.len() > 0 && r.last().0 is None,
        forall|j1: int, j2: int|
            #![trigger r[j1], r[j2]]
            0 <= j1 < j2 < r.len() && r[j1].0 is Some && r[j2].0 is Some ==> r[j1].0.unwrap()
                < r[j2].0.unwrap(),
        forall|c: u8|
            #[trigger] spec_has_child(n, c) ==> exists|j: int|
                0 <= j < r.len() && (#[trigger] r[j]).0 == Some(c),
{
    assert forall|j: int|
        0 <= j < r.len() && (#[trigger] r[j]).0 is Some implies spec_has_child(n, r[j].0.unwrap())
        && *r[j].1 == spec_child(n, r[j].0.unwrap()) by {
        assert(j < s.len()) by {
            if j >= s.len() {
                assert(r[j] == r.last());
            }
        }
        let c = r[j].0.unwrap();
        assert(s[j].0 == c);
        lemma_child_index_unique(s, c, j);
    }
    assert forall|j: int|
        0 <= j < r.len() && (#[trigger] r[j]).0 is None implies j == r.len() - 1 && spec_term(n)
        is Some && *r[j].1 == *spec_term(n).unwrap() by {
        if j < s.len() {
            assert(r[j].0 == Some(s[j].0));
        } else {
            assert(r[j] == r.last());
        }
    }
    assert forall|c: u8| #[trigger] spec_has_child(n, c) implies exists|j: int|
        0 <= j < r.len() && (#[trigger] r[j]).0 == Some(c) by {
        lemma_child_index_label(s, c);
        let i = child_index(s, c);
        assert(r[i].0 == Some(c));
    }
}

/// The first pair of a sorted-pair shape carries the smallest label.
proof fn lemma_first_pairs(n: Node, s: Seq<(u8, Node)>)
    requires
        n is Node4 || n is Node16,
        shape_ok(n),
        s.len() > 0,
        match n {
            Node::Node4(m) => s == m.children@,
            Node::Node16(m) => s == m.children@,
            _ => false,
        },
    ensures
        spec_has_child(n, s[0].0),
        spec_child(n, s[0].0) == s[0].1,
        forall|c2: u8| c2 < s[0].0 ==> !(#[trigger] spec_has_child(n, c2)),
{
    let c = s[0].0;
    assert(spec_has_child(n, c));
    lemma_child_index_unique(s, c, 0);
    assert forall|c2: u8| c2 < c implies !(#[trigger] spec_has_child(n, c2)) by {
        if spec_has_child(n, c2) {
            let i = choose|i: int| 0 <= i < s.len() && (#[trigger] s[i]).0 == c2;
            if i > 0 {
                assert(s[0].0 < s[i].0);
            }
        }
    }
}

} // verus!
