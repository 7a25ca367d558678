//! The middle inner-node shape: up to 16 (label, child) pairs kept sorted
//! by label, looked up by binary search, plus the optional terminal leaf.
use vstd::prelude::*;

use crate::model::{has_label, labels_sorted, term_count};
use crate::{Node, Node16, NodeMeta, MAX_PREFIX};

verus! {

impl Node16 {
    /// A fresh node with no children and an empty prefix.
    pub fn new() -> (n: Self)
        ensures
            n.meta.prefix_len == 0,
            n.meta.partial@ == Seq::<u8>::empty(),
            n.children@ == Seq::<(u8, Node)>::empty(),
            n.term_leaf is None,
    {
        Node16 {
            meta: NodeMeta { prefix_len: 0, partial: Vec::with_capacity(MAX_PREFIX) },
            children: Vec::with_capacity(16),
            term_leaf: None,
        }
    }

    /// Take over the metadata, children and terminal leaf of a full `Node4`.
    pub fn copy(&mut self, node_to_copy: Node)
        requires
            node_to_copy is Node4,
        ensures
            match node_to_copy {
                Node::Node4(m) => final(self).meta == m.meta && final(self).children@ == m.children@
                    && final(self).term_leaf == m.term_leaf,
                _ => false,
            },
    {
        match node_to_copy {
            Node::Node4(node4) => {
                self.meta = node4.meta;
                self.children = node4.children;
                self.term_leaf = node4.term_leaf;
            },
            _ => vstd::pervasive::unreached(),
        }
    }

    /// The node is at capacity, so the next child addition must grow it.
    pub fn should_grow(&self) -> (r: bool)
        ensures
            r == (self.children@.len() == 16),
    {
        self.children.len() == 16
    }

    /// Number of outgoing edges, the terminal leaf included.
    pub fn len(&self) -> (r: usize)
        requires
            self.children@.len() <= 16,
        ensures
            r == self.children@.len() + term_count(self.term_leaf),
    {
        let mut leaf_count: usize = 0;
        if self.term_leaf.is_some() {
            leaf_count += 1;
        }
        self.children.len() + leaf_count
    }

    /// The child with the smallest label.
    pub fn first(&self) -> (r: &Node)
        requires
            self.children@.len() > 0,
        ensures
            *r == self.children@[0].1,
    {
        &self.children[0].1
    }

    /// The labels, in storage (sorted) order.
    pub fn keys(&self) -> (r: Vec<u8>)
        ensures
            r@.len() == self.children@.len(),
            forall|i: int| 0 <= i < r@.len() ==> r@[i] == (#[trigger] self.children@[i]).0,
    {
        let mut res: Vec<u8> = Vec::new();
        let mut i: usize = 0;
        while i < self.children.len()
            invariant
                i <= self.children@.len(),
                res@.len() == i,
                forall|j: int| 0 <= j < i ==> res@[j] == (#[trigger] self.children@[j]).0,
            decreases self.children@.len() - i,
        {
            res.push(self.children[i].0);
            i += 1;
        }
        res
    }

    /// All (label, child) pairs in storage order, then the terminal leaf
    /// under the end-of-key marker if it is present.
    pub fn children(&self) -> (r: Vec<(Option<u8>, &Node)>)
        ensures
            r@.len() == self.children@.len() + term_count(self.term_leaf),
            forall|i: int|
                0 <= i < self.children@.len() ==> r@[i].0 == Some((#[trigger] self.children@[i]).0)
                    && *r@[i].1 == self.children@[i].1,
            self.term_leaf is Some ==> r@.last().0 is None && *r@.last().1 == *self.term_leaf
                .unwrap(),
    {
        let mut res: Vec<(Option<u8>, &Node)> = Vec::new();
        let mut i: usize = 0;
        while i < self.children.len()
            invariant
                i <= self.children@.len(),
                res@.len() == i,
                forall|j: int|
                    0 <= j < i ==> res@[j].0 == Some((#[trigger] self.children@[j]).0) && *res@[j].1
                        == self.children@[j].1,
            decreases self.children@.len() - i,
        {
            res.push((Some(self.children[i].0), &self.children[i].1));
            i += 1;
        }
        match &self.term_leaf {
            Some(t) => {
                res.push((None, &**t));
            },
            None => {},
        }
        res
    }

    /// The terminal leaf, if present.
    pub fn term_leaf(&self) -> (r: Option<&Box<Node>>)
        ensures
            r is Some <==> self.term_leaf is Some,
            r is Some ==> *r.unwrap() == self.term_leaf.unwrap(),
    {
        self.term_leaf.as_ref()
    }

    /// The inline prefix bytes.
    pub fn partial(&self) -> (r: &[u8])
        ensures
            r@ == self.meta.partial@,
    {
        self.meta.partial.as_slice()
    }

    /// The logical length of the compressed prefix.
    pub fn prefix_len(&self) -> (r: usize)
        ensures
            r == self.meta.prefix_len,
    {
        self.meta.prefix_len
    }

    /// Add a child under a label byte (kept sorted) or under the end-of-key
    /// marker.
    pub fn add_child(&mut self, node: Node, key_char: Option<u8>)
        requires
            match key_char {
                Some(c) => !has_label(old(self).children@, c) && old(self).children@.len() < 16,
                None => old(self).term_leaf is None,
            },
        ensures
            final(self).meta == old(self).meta,
            match key_char {
                Some(c) => {
                    &&& final(self).term_leaf == old(self).term_leaf
                    &&& exists|p: int|
                        0 <= p <= old(self).children@.len() && final(self).children@ == old(
                            self,
                        ).children@.insert(p, (c, node))
                    &&& labels_sorted(old(self).children@) ==> labels_sorted(final(self).children@)
                },
                None => {
                    &&& final(self).children@ == old(self).children@
                    &&& match final(self).term_leaf {
                        Some(b) => *b == node,
                        None => false,
                    }
                },
            },
    {
        match key_char {
            Some(current_char) => {
                let mut pos: usize = 0;
                while pos < self.children.len() && self.children[pos].0 < current_char
                    invariant
                        pos <= self.children@.len(),
                        forall|j: int| 0 <= j < pos ==> (#[trigger] self.children@[j]).0
                            < current_char,
                    decreases self.children@.len() - pos,
                {
                    pos += 1;
                }
                proof {
                    self.children@.insert_ensures(pos as int, (current_char, node));
                }
                self.children.insert(pos, (current_char, node));
                proof {
                    let oldc = old(self).children@;
                    assert forall|i: int, j: int|
                        0 <= i < j < self.children@.len() && labels_sorted(
                            oldc,
                        ) implies (#[trigger] self.children@[i]).0 < (#[trigger] self
                        .children@[j]).0 by {
                        if i < pos && j == pos {
                        } else if i == pos && j > pos {
                            assert(self.children@[j] == oldc[j - 1]);
                            assert(oldc[j - 1].0 != current_char);
                            if j - 1 > pos {
                                assert(oldc[pos as int].0 < oldc[j - 1].0);
                            }
                        } else if i < pos && j > pos {
                            assert(self.children@[i] == oldc[i]);
                            assert(self.children@[j] == oldc[j - 1]);
                        } else if i > pos && j > pos {
                            assert(self.children@[i] == oldc[i - 1]);
                            assert(self.children@[j] == oldc[j - 1]);
                        }
                    }
                }
            },
            None => {
                self.term_leaf = Some(Box::new(node));
            },
        }
    }

    /// Binary search for the storage index of label `key`.
    fn find_index(&self, key: u8) -> (r: Option<usize>)
        requires
            labels_sorted(self.children@),
        ensures
            match r {
                Some(i) => i < self.children@.len() && (#[trigger] self.children@[i as int]).0
                    == key,
                None => !has_label(self.children@, key),
            },
    {
        let mut lo: usize = 0;
        let mut hi: usize = self.children.len();
        while lo < hi
            invariant
                lo <= hi <= self.children@.len(),
                labels_sorted(self.children@),
                forall|j: int| 0 <= j < lo ==> (#[trigger] self.children@[j]).0 < key,
                forall|j: int|
                    hi <= j < self.children@.len() ==> (#[trigger] self.children@[j]).0 > key,
            decreases hi - lo,
        {
            let mid = lo + (hi - lo) / 2;
            let c = self.children[mid].0;
            if c == key {
                return Some(mid);
            } else if c < key {
                proof {
                    assert forall|j: int| 0 <= j < mid + 1 implies (#[trigger] self
                        .children@[j]).0 < key by {
                        if j < mid {
                            assert(self.children@[j].0 < self.children@[mid as int].0);
                        }
                    }
                }
                lo = mid + 1;
            } else {
                proof {
                    assert forall|j: int|
                        mid <= j < self.children@.len() implies (#[trigger] self.children@[j]).0
                        > key by {
                        if j > mid {
                            assert(self.children@[mid as int].0 < self.children@[j].0);
                        }
                    }
                }
                hi = mid;
            }
        }
        None
    }

    /// Look up the child stored under label `key`, if any.
    pub fn child_at(&self, key: u8) -> (r: Option<&Node>)
        requires
            labels_sorted(self.children@),
        ensures
            match r {
                Some(ch) => exists|i: int|
                    0 <= i < self.children@.len() && #[trigger] self.children@[i] == (key, *ch),
                None => !has_label(self.children@, key),
            },
    {
        let index = self.find_index(key);
        match index {
            Some(i) => Some(&self.children[i].1),
            None => None,
        }
    }

    /// Remove and return the child stored under label `c`.
    pub fn take_child(&mut self, c: u8) -> (r: Node)
        requires
            has_label(old(self).children@, c),
            labels_sorted(old(self).children@),
        ensures
            final(self).meta == old(self).meta,
            final(self).term_leaf == old(self).term_leaf,
            exists|i: int|
                0 <= i < old(self).children@.len() && #[trigger] old(self).children@[i] == (c, r)
                    && final(self).children@ == old(self).children@.remove(i),
            labels_sorted(final(self).children@),
            final(self).children@.len() == old(self).children@.len() - 1,
    {
        let mut idx: usize = 0;
        while idx < self.children.len() && self.children[idx].0 != c
            invariant
                idx <= self.children@.len(),
                forall|j: int| 0 <= j < idx ==> (#[trigger] self.children@[j]).0 != c,
                self == old(self),
            decreases self.children@.len() - idx,
        {
            idx += 1;
        }
        proof {
            if idx == self.children@.len() {
                let w = choose|i: int|
                    0 <= i < self.children@.len() && (#[trigger] self.children@[i]).0 == c;
                assert(false);
            }
            self.children@.remove_ensures(idx as int);
        }
        let pair = self.children.remove(idx);
        proof {
            let oldc = old(self).children@;
            assert(oldc[idx as int] == (c, pair.1));
            assert forall|i: int, j: int|
                0 <= i < j < self.children@.len() implies (#[trigger] self.children@[i]).0 < (
            #[trigger] self.children@[j]).0 by {
                if j < idx {
                    assert(self.children@[i] == oldc[i] && self.children@[j] == oldc[j]);
                } else if i < idx <= j {
                    assert(self.children@[i] == oldc[i] && self.children@[j] == oldc[j + 1]);
                } else {
                    assert(self.children@[i] == oldc[i + 1] && self.children@[j] == oldc[j + 1]);
                }
            }
        }
        pair.1
    }
}

} // verus!
