//! The smallest inner-node shape: up to 4 (label, child) pairs kept sorted
//! by label, plus the optional terminal leaf.
use vstd::prelude::*;

use crate::model::{has_label, labels_sorted, term_count};
use crate::{Node, Node4, NodeMeta, MAX_PREFIX};

verus! {

/// Relies on std's formatting machinery: renders the already-computed
/// pieces of a node, converting the label and prefix bytes to chars.
#[verifier::external_body]
fn fmt_node4_parts(clen: usize, keys: &Vec<u8>, leaf: bool, plen: usize, partial: &[u8]) -> String {
    format!(
        "Node4({clen}) {keys:?} {keys_ch:?} ({leaf}) - ({plen}) [{partial:?}]",
        keys_ch = keys.iter().map(|i| *i as char).collect::<Vec<char>>(),
        partial = partial.iter().map(|c| *c as char).collect::<Vec<char>>(),
    )
}

impl Node4 {
    /// A fresh node with no children and an empty prefix.
    pub fn new() -> (n: Self)
        ensures
            n.meta.prefix_len == 0,
            n.meta.partial@ == Seq::<u8>::empty(),
            n.children@ == Seq::<(u8, Node)>::empty(),
            n.term_leaf is None,
    {
        Node4 {
            meta: NodeMeta { prefix_len: 0, partial: Vec::with_capacity(MAX_PREFIX) },
            children: Vec::with_capacity(4),
            term_leaf: None,
        }
    }

    /// The node is at capacity, so the next child addition must grow it.
    pub fn should_grow(&self) -> (r: bool)
        ensures
            r == (self.children@.len() == 4),
    {
        self.keys().len() == 4
    }

    /// Number of outgoing edges, the terminal leaf included.
    pub fn len(&self) -> (r: usize)
        requires
            self.children@.len() <= 4,
        ensures
            r == self.children@.len() + term_count(self.term_leaf),
    {
        let mut leaf_count: usize = 0;
        if self.term_leaf.is_some() {
            leaf_count += 1;
        }
        self.children.len() + leaf_count
    }

    /// The child with the smallest label.
    pub fn first(&self) -> (r: &Node)
        requires
            self.children@.len() > 0,
        ensures
            *r == self.children@[0].1,
    {
        &self.children[0].1
    }

    /// The labels, in storage (sorted) order.
    pub fn keys(&self) -> (r: Vec<u8>)
        ensures
            r@.len() == self.children@.len(),
            forall|i: int| 0 <= i < r@.len() ==> r@[i] == (#[trigger] self.children@[i]).0,
    {
        let mut res: Vec<u8> = Vec::new();
        let mut i: usize = 0;
        while i < self.children.len()
            invariant
                i <= self.children@.len(),
                res@.len() == i,
                forall|j: int| 0 <= j < i ==> res@[j] == (#[trigger] self.children@[j]).0,
            decreases self.children@.len() - i,
        {
            res.push(self.children[i].0);
            i += 1;
        }
        res
    }

    /// The label children, in storage order.
    pub fn outgoing_children(&self) -> (r: Vec<&Node>)
        ensures
            r@.len() == self.children@.len(),
            forall|i: int| 0 <= i < r@.len() ==> *r@[i] == (#[trigger] self.children@[i]).1,
    {
        let mut res: Vec<&Node> = Vec::new();
        let mut i: usize = 0;
        while i < self.children.len()
            invariant
                i <= self.children@.len(),
                res@.len() == i,
                forall|j: int| 0 <= j < i ==> *res@[j] == (#[trigger] self.children@[j]).1,
            decreases self.children@.len() - i,
        {
            res.push(&self.children[i].1);
            i += 1;
        }
        res
    }

    /// All (label, child) pairs in storage order, then the terminal leaf
    /// under the end-of-key marker if it is present.
    pub fn children(&self) -> (r: Vec<(Option<u8>, &Node)>)
        ensures
            r@.len() == self.children@.len() + term_count(self.term_leaf),
            forall|i: int|
                0 <= i < self.children@.len() ==> r@[i].0 == Some((#[trigger] self.children@[i]).0)
                    && *r@[i].1 == self.children@[i].1,
            self.term_leaf is Some ==> r@.last().0 is None && *r@.last().1 == *self.term_leaf
                .unwrap(),
    {
        let mut res: Vec<(Option<u8>, &Node)> = Vec::new();
        let mut i: usize = 0;
        while i < self.children.len()
            invariant
                i <= self.children@.len(),
                res@.len() == i,
                forall|j: int|
                    0 <= j < i ==> res@[j].0 == Some((#[trigger] self.children@[j]).0) && *res@[j].1
                        == self.children@[j].1,
            decreases self.children@.len() - i,
        {
            res.push((Some(self.children[i].0), &self.children[i].1));
            i += 1;
        }
        match &self.term_leaf {
            Some(t) => {
                res.push((None, &**t));
            },
            None => {},
        }
        res
    }

    /// The terminal leaf, if present.
    pub fn term_leaf(&self) -> (r: Option<&Box<Node>>)
        ensures
            r is Some <==> self.term_leaf is Some,
            r is Some ==> *r.unwrap() == self.term_leaf.unwrap(),
    {
        self.term_leaf.as_ref()
    }

    /// The inline prefix bytes.
    pub fn partial(&self) -> (r: &[u8])
        ensures
            r@ == self.meta.partial@,
    {
        self.meta.partial.as_slice()
    }

    /// The logical length of the compressed prefix.
    pub fn prefix_len(&self) -> (r: usize)
        ensures
            r == self.meta.prefix_len,
    {
        self.meta.prefix_len
    }

    /// Add a child under a label byte (kept sorted) or under the end-of-key
    /// marker.
    pub fn add_child(&mut self, node: Node, key_char: Option<u8>)
        requires
            match key_char {
                Some(c) => !has_label(old(self).children@, c) && old(self).children@.len() < 4,
                None => old(self).term_leaf is None,
            },
        ensures
            final(self).meta == old(self).meta,
            match key_char {
                Some(c) => {
                    &&& final(self).term_leaf == old(self).term_leaf
                    &&& exists|p: int|
                        0 <= p <= old(self).children@.len() && final(self).children@ == old(
                            self,
                        ).children@.insert(p, (c, node))
                    &&& labels_sorted(old(self).children@) ==> labels_sorted(final(self).children@)
                },
                None => {
                    &&& final(self).children@ == old(self).children@
                    &&& match final(self).term_leaf {
                        Some(b) => *b == node,
                        None => false,
                    }
                },
            },
    {
        match key_char {
            Some(current_char) => {
                let mut pos: usize = 0;
                while pos < self.children.len() && self.children[pos].0 < current_char
                    invariant
                        pos <= self.children@.len(),
                        forall|j: int| 0 <= j < pos ==> (#[trigger] self.children@[j]).0
                            < current_char,
                    decreases self.children@.len() - pos,
                {
                    pos += 1;
                }
                proof {
                    self.children@.insert_ensures(pos as int, (current_char, node));
                }
                self.children.insert(pos, (current_char, node));
                proof {
                    let oldc = old(self).children@;
                    assert forall|i: int, j: int|
                        0 <= i < j < self.children@.len() && labels_sorted(
                            oldc,
                        ) implies (#[trigger] self.children@[i]).0 < (#[trigger] self
                        .children@[j]).0 by {
                        if i < pos && j == pos {
                        } else if i == pos && j > pos {
                            assert(self.children@[j] == oldc[j - 1]);
                            assert(oldc[j - 1].0 != current_char);
                            if j - 1 > pos {
                                assert(oldc[pos as int].0 < oldc[j - 1].0);
                            }
                        } else if i < pos && j > pos {
                            assert(self.children@[i] == oldc[i]);
                            assert(self.children@[j] == oldc[j - 1]);
                        } else if i > pos && j > pos {
                            assert(self.children@[i] == oldc[i - 1]);
                            assert(self.children@[j] == oldc[j - 1]);
                        }
                    }
                }
            },
            None => {
                self.term_leaf = Some(Box::new(node));
            },
        }
    }

    /// Look up the child stored under label `key`, if any.
    pub fn child_at(&self, key: u8) -> (r: Option<&Node>)
        ensures
            match r {
                Some(ch) => exists|i: int|
                    0 <= i < self.children@.len() && #[trigger] self.children@[i] == (key, *ch),
                None => !has_label(self.children@, key),
            },
    {
        let mut i: usize = 0;
        while i < self.children.len()
            invariant
                i <= self.children@.len(),
                forall|j: int| 0 <= j < i ==> (#[trigger] self.children@[j]).0 != key,
            decreases self.children@.len() - i,
        {
            if self.children[i].0 == key {
                return Some(&self.children[i].1);
            }
            i += 1;
        }
        None
    }

    /// Render the node as `Node4(<edges>) <labels> <labels as chars>
    /// (<term>) - (<prefix len>) [<partial as chars>]`.
    pub fn display_string(&self) -> String {
        let clen = self.children().len();
        let keys = self.keys();
        let leaf = self.term_leaf.is_some();
        fmt_node4_parts(clen, &keys, leaf, self.meta.prefix_len, self.meta.partial.as_slice())
    }

    /// Remove and return the child stored under label `c`.
    pub fn take_child(&mut self, c: u8) -> (r: Node)
        requires
            has_label(old(self).children@, c),
            labels_sorted(old(self).children@),
        ensures
            final(self).meta == old(self).meta,
            final(self).term_leaf == old(self).term_leaf,
            exists|i: int|
                0 <= i < old(self).children@.len() && #[trigger] old(self).children@[i] == (c, r)
                    && final(self).children@ == old(self).children@.remove(i),
            labels_sorted(final(self).children@),
            final(self).children@.len() == old(self).children@.len() - 1,
    {
        let mut idx: usize = 0;
        while idx < self.children.len() && self.children[idx].0 != c
            invariant
                idx <= self.children@.len(),
                forall|j: int| 0 <= j < idx ==> (#[trigger] self.children@[j]).0 != c,
                self == old(self),
            decreases self.children@.len() - idx,
        {
            idx += 1;
        }
        proof {
            if idx == self.children@.len() {
                let w = choose|i: int|
                    0 <= i < self.children@.len() && (#[trigger] self.children@[i]).0 == c;
                assert(false);
            }
            self.children@.remove_ensures(idx as int);
        }
        let pair = self.children.remove(idx);
        proof {
            let oldc = old(self).children@;
            assert(oldc[idx as int] == (c, pair.1));
            assert forall|i: int, j: int|
                0 <= i < j < self.children@.len() implies (#[trigger] self.children@[i]).0 < (
            #[trigger] self.children@[j]).0 by {
                if j < idx {
                    assert(self.children@[i] == oldc[i] && self.children@[j] == oldc[j]);
                } else if i < idx <= j {
                    assert(self.children@[i] == oldc[i] && self.children@[j] == oldc[j + 1]);
                } else {
                    assert(self.children@[i] == oldc[i + 1] && self.children@[j] == oldc[j + 1]);
                }
            }
        }
        pair.1
    }
}

} // verus!
