//! The largest inner-node shape: a direct 256-entry child array indexed by
//! label byte, plus the optional terminal leaf.
use vstd::prelude::*;
use vstd::pervasive::VecAdditionalExecFns;

use crate::model::{
    count_nonempty, has_label, labels_sorted, lemma_count_nonempty_step, term_count,
};
use crate::{Node, Node256, NodeMeta, MAX_PREFIX};

verus! {

impl Node256 {
    /// A fresh node with 256 empty child slots and an empty prefix.
    pub fn new() -> (n: Self)
        ensures
            n.meta.prefix_len == 0,
            n.meta.partial@ == Seq::<u8>::empty(),
            n.children@.len() == 256,
            forall|i: int| 0 <= i < 256 ==> (#[trigger] n.children@[i]) is Empty,
            n.term_leaf is None,
    {
        let mut slots: Vec<Node> = Vec::with_capacity(256);
        let mut i: usize = 0;
        while i < 256
            invariant
                i <= 256,
                slots@.len() == i,
                forall|j: int| 0 <= j < i ==> (#[trigger] slots@[j]) is Empty,
            decreases 256 - i,
        {
            slots.push(Node::Empty);
            i += 1;
        }
        Node256 {
            meta: NodeMeta { prefix_len: 0, partial: Vec::with_capacity(MAX_PREFIX) },
            children: slots,
            term_leaf: None,
        }
    }

    /// Take over the metadata, children and terminal leaf of a full
    /// `Node16`, spreading its sorted pairs over the direct slot array.
    pub fn copy(&mut self, node_to_copy: Node)
        requires
            old(self).children@.len() == 256,
            forall|i: int| 0 <= i < 256 ==> (#[trigger] old(self).children@[i]) is Empty,
            old(self).term_leaf is None,
            node_to_copy is Node16,
            match node_to_copy {
                Node::Node16(m) => labels_sorted(m.children@),
                _ => false,
            },
        ensures
            final(self).children@.len() == 256,
            match node_to_copy {
                Node::Node16(m) => {
                    &&& final(self).meta == m.meta
                    &&& final(self).term_leaf == m.term_leaf
                    &&& forall|i: int|
                        0 <= i < m.children@.len() ==> final(self).children@[(
                        #[trigger] m.children@[i]).0 as int] == m.children@[i].1
                    &&& forall|c: int|
                        0 <= c < 256 && !has_label(m.children@, c as u8)
                            ==> (#[trigger] final(self).children@[c]) is Empty
                },
                _ => false,
            },
    {
        match node_to_copy {
            Node::Node16(node16) => {
                self.meta = node16.meta;
                self.term_leaf = node16.term_leaf;
                let ghost m0 = node16;
                let mut pairs = node16.children;
                let ghost all = pairs@;
                proof {
                    assert(all.subrange(0, all.len() as int) =~= all);
                }
                while pairs.len() > 0
                    invariant
                        self.children@.len() == 256,
                        self.meta == m0.meta,
                        self.term_leaf == m0.term_leaf,
                        all == m0.children@,
                        pairs@ == all.subrange(0, pairs@.len() as int),
                        pairs@.len() <= all.len(),
                        labels_sorted(all),
                        forall|i: int|
                            pairs@.len() <= i < all.len() ==> self.children@[(
                            #[trigger] all[i]).0 as int] == all[i].1,
                        forall|c: int|
                            0 <= c < 256 && !has_label(all, c as u8) ==> (#[trigger] self
                                .children@[c]) is Empty,
                        forall|i: int|
                            0 <= i < pairs@.len() ==> (#[trigger] self.children@[all[i].0 as int])
                                is Empty,
                    decreases pairs@.len(),
                {
                    let ghost plen = pairs@.len() as int;
                    let pair = pairs.pop().unwrap();
                    proof {
                        assert(pair == all[plen - 1]);
                        assert(pairs@ =~= all.subrange(0, plen - 1));
                    }
                    self.children.set(pair.0 as usize, pair.1);
                    proof {
                        assert forall|i: int|
                            0 <= i < pairs@.len() implies (#[trigger] self.children@[all[i].0
                            as int]) is Empty by {
                            assert(all[i].0 < all[plen - 1].0);
                        }
                        assert forall|i: int|
                            pairs@.len() <= i < all.len() implies self.children@[(
                        #[trigger] all[i]).0 as int] == all[i].1 by {
                            if i > plen - 1 {
                                assert(all[plen - 1].0 < all[i].0);
                            }
                        }
                    }
                }
            },
            _ => vstd::pervasive::unreached(),
        }
    }

    /// Add a child under a label byte or under the end-of-key marker.
    pub fn add_child(&mut self, node: Node, key_char: Option<u8>)
        requires
            old(self).children@.len() == 256,
            match key_char {
                Some(c) => old(self).children@[c as int] is Empty,
                None => old(self).term_leaf is None,
            },
        ensures
            final(self).meta == old(self).meta,
            match key_char {
                Some(c) => {
                    &&& final(self).term_leaf == old(self).term_leaf
                    &&& final(self).children@ == old(self).children@.update(c as int, node)
                },
                None => {
                    &&& final(self).children@ == old(self).children@
                    &&& match final(self).term_leaf {
                        Some(b) => *b == node,
                        None => false,
                    }
                },
            },
    {
        match key_char {
            Some(current_char) => {
                self.children.set(current_char as usize, node);
            },
            None => {
                self.term_leaf = Some(Box::new(node));
            },
        }
    }

    /// Number of outgoing edges, the terminal leaf included.
    pub fn len(&self) -> (r: usize)
        requires
            self.children@.len() == 256,
        ensures
            r == count_nonempty(self.children@) + term_count(self.term_leaf),
    {
        let mut leaf_count: usize = 0;
        if self.term_leaf.is_some() {
            leaf_count += 1;
        }
        proof {
            assert(self.children@.subrange(0, 0) =~= Seq::<Node>::empty());
        }
        let mut occupied: usize = 0;
        let mut i: usize = 0;
        while i < 256
            invariant
                i <= 256,
                self.children@.len() == 256,
                occupied <= i,
                occupied == count_nonempty(self.children@.subrange(0, i as int)),
            decreases 256 - i,
        {
            proof {
                lemma_count_nonempty_step(self.children@, i as int);
            }
            let slot = &self.children[i];
            match slot {
                Node::Empty => {},
                _ => {
                    occupied += 1;
                },
            }
            i += 1;
        }
        proof {
            assert(self.children@.subrange(0, 256) =~= self.children@);
        }
        occupied + leaf_count
    }

    /// The occupied child slot with the smallest label.
    pub fn first(&self) -> (r: &Node)
        requires
            self.children@.len() == 256,
            exists|i: int| 0 <= i < 256 && !((#[trigger] self.children@[i]) is Empty),
        ensures
            !(*r is Empty),
            exists|i: int|
                0 <= i < 256 && *r == self.children@[i] && !((#[trigger] self.children@[i])
                    is Empty) && (forall|j: int| 0 <= j < i ==> (#[trigger] self.children@[j])
                    is Empty),
    {
        let mut i: usize = 0;
        while i < 256
            invariant
                i <= 256,
                self.children@.len() == 256,
                exists|j: int| 0 <= j < 256 && !((#[trigger] self.children@[j]) is Empty),
                forall|j: int| 0 <= j < i ==> (#[trigger] self.children@[j]) is Empty,
            decreases 256 - i,
        {
            let slot = &self.children[i];
            match slot {
                Node::Empty => {},
                _ => {
                    return slot;
                },
            }
            i += 1;
        }
        proof {
            assert(false);
        }
        vstd::pervasive::unreached()
    }

    /// The labels of the occupied slots, in increasing order.
    pub fn keys(&self) -> (r: Vec<u8>)
        requires
            self.children@.len() == 256,
        ensures
            r@.len() == count_nonempty(self.children@),
            forall|j: int|
                0 <= j < r@.len() ==> !(self.children@[(#[trigger] r@[j]) as int] is Empty),
            forall|j1: int, j2: int| 0 <= j1 < j2 < r@.len() ==> r@[j1] < r@[j2],
            forall|c: int|
                0 <= c < 256 && !((#[trigger] self.children@[c]) is Empty) ==> exists|j: int|
                    0 <= j < r@.len() && r@[j] == c,
    {
        proof {
            assert(self.children@.subrange(0, 0) =~= Seq::<Node>::empty());
        }
        let mut res: Vec<u8> = Vec::new();
        let mut i: usize = 0;
        while i < 256
            invariant
                i <= 256,
                self.children@.len() == 256,
                res@.len() == count_nonempty(self.children@.subrange(0, i as int)),
                forall|j: int|
                    0 <= j < res@.len() ==> !(self.children@[(#[trigger] res@[j]) as int] is Empty),
                forall|j: int| 0 <= j < res@.len() ==> (#[trigger] res@[j]) < i,
                forall|j1: int, j2: int| 0 <= j1 < j2 < res@.len() ==> res@[j1] < res@[j2],
                forall|c: int|
                    0 <= c < i && !((#[trigger] self.children@[c]) is Empty) ==> exists|j: int|
                        0 <= j < res@.len() && res@[j] == c,
            decreases 256 - i,
        {
            proof {
                lemma_count_nonempty_step(self.children@, i as int);
            }
            let ghost old_res = res@;
            let slot = &self.children[i];
            match slot {
                Node::Empty => {},
                _ => {
                    res.push(i as u8);
                },
            }
            proof {
                assert forall|c: int|
                    0 <= c < i + 1 && !((#[trigger] self.children@[c]) is Empty) implies exists|
                    j: int,
                |
                    0 <= j < res@.len() && res@[j] == c by {
                    if c == i as int {
                        assert(res@[res@.len() - 1] == c);
                    } else {
                        let j = choose|j: int| 0 <= j < old_res.len() && old_res[j] == c;
                        assert(res@[j] == c);
                    }
                }
            }
            i += 1;
        }
        proof {
            assert(self.children@.subrange(0, 256) =~= self.children@);
        }
        res
    }

    /// All (label, child) pairs of occupied slots in label order, then the
    /// terminal leaf under the end-of-key marker if it is present.
    pub fn children(&self) -> (r: Vec<(Option<u8>, &Node)>)
        requires
            self.children@.len() == 256,
        ensures
            r@.len() == count_nonempty(self.children@) + term_count(self.term_leaf),
            forall|j: int|
                0 <= j < r@.len() ==> ((#[trigger] r@[j]).0 matches Some(c) ==> *r@[j].1
                    == self.children@[c as int] && !(*r@[j].1 is Empty)),
            forall|j: int|
                0 <= j < r@.len() ==> ((#[trigger] r@[j]).0 is None ==> j == r@.len() - 1
                    && self.term_leaf is Some && *r@[j].1 == *self.term_leaf.unwrap()),
            self.term_leaf is Some ==> r@.len() > 0 && r@.last().0 is None,
            forall|j1: int, j2: int|
                #![trigger r@[j1], r@[j2]]
                0 <= j1 < j2 < r@.len() && r@[j1].0 is Some && r@[j2].0 is Some
                    ==> r@[j1].0.unwrap() < r@[j2].0.unwrap(),
            forall|c: int|
                0 <= c < 256 && !((#[trigger] self.children@[c]) is Empty) ==> exists|j: int|
                    0 <= j < r@.len() && r@[j].0 == Some(c as u8),
    {
        proof {
            assert(self.children@.subrange(0, 0) =~= Seq::<Node>::empty());
        }
        let mut res: Vec<(Option<u8>, &Node)> = Vec::new();
        let mut i: usize = 0;
        while i < 256
            invariant
                i <= 256,
                self.children@.len() == 256,
                res@.len() == count_nonempty(self.children@.subrange(0, i as int)),
                forall|j: int|
                    0 <= j < res@.len() ==> ((#[trigger] res@[j]).0 matches Some(c) ==> *res@[j].1
                        == self.children@[c as int] && !(*res@[j].1 is Empty)),
                forall|j: int| 0 <= j < res@.len() ==> !((#[trigger] res@[j]).0 is None),
                forall|j: int|
                    0 <= j < res@.len() ==> (#[trigger] res@[j]).0.unwrap() < i,
                forall|j1: int, j2: int|
                    #![trigger res@[j1], res@[j2]]
                    0 <= j1 < j2 < res@.len() ==> res@[j1].0.unwrap() < res@[j2].0.unwrap(),
                forall|c: int|
                    0 <= c < i && !((#[trigger] self.children@[c]) is Empty) ==> exists|j: int|
                        0 <= j < res@.len() && res@[j].0 == Some(c as u8),
            decreases 256 - i,
        {
            proof {
                lemma_count_nonempty_step(self.children@, i as int);
            }
            let ghost old_res = res@;
            let slot = &self.children[i];
            match slot {
                Node::Empty => {},
                _ => {
                    res.push((Some(i as u8), slot));
                },
            }
            proof {
                assert forall|c: int|
                    0 <= c < i + 1 && !((#[trigger] self.children@[c]) is Empty) implies exists|
                    j: int,
                |
                    0 <= j < res@.len() && res@[j].0 == Some(c as u8) by {
                    if c == i as int {
                        assert(res@[res@.len() - 1].0 == Some(c as u8));
                    } else {
                        let j = choose|j: int|
                            0 <= j < old_res.len() && old_res[j].0 == Some(c as u8);
                        assert(res@[j].0 == Some(c as u8));
                    }
                }
            }
            i += 1;
        }
        proof {
            assert(self.children@.subrange(0, 256) =~= self.children@);
        }
        let ghost before_term = res@;
        match &self.term_leaf {
            Some(t) => {
                res.push((None, &**t));
            },
            None => {},
        }
        proof {
            assert forall|c: int|
                0 <= c < 256 && !((#[trigger] self.children@[c]) is Empty) implies exists|j: int|
                0 <= j < res@.len() && res@[j].0 == Some(c as u8) by {
                let j = choose|j: int|
                    0 <= j < before_term.len() && before_term[j].0 == Some(c as u8);
                assert(res@[j].0 == Some(c as u8));
            }
        }
        res
    }

    /// The terminal leaf, if present.
    pub fn term_leaf(&self) -> (r: Option<&Box<Node>>)
        ensures
            r is Some <==> self.term_leaf is Some,
            r is Some ==> *r.unwrap() == self.term_leaf.unwrap(),
    {
        self.term_leaf.as_ref()
    }

    /// The inline prefix bytes.
    pub fn partial(&self) -> (r: &[u8])
        ensures
            r@ == self.meta.partial@,
    {
        self.meta.partial.as_slice()
    }

    /// The logical length of the compressed prefix.
    pub fn prefix_len(&self) -> (r: usize)
        ensures
            r == self.meta.prefix_len,
    {
        self.meta.prefix_len
    }

    /// Look up the child stored under label `key`, if any.
    pub fn child_at(&self, key: u8) -> (r: Option<&Node>)
        requires
            self.children@.len() == 256,
        ensures
            match r {
                Some(ch) => *ch == self.children@[key as int] && !(*ch is Empty),
                None => self.children@[key as int] is Empty,
            },
    {
        let slot = &self.children[key as usize];
        match slot {
            Node::Empty => None,
            _ => Some(slot),
        }
    }

    /// Remove and return the child stored in the slot of label `c`.
    pub fn take_child(&mut self, c: u8) -> (r: Node)
        requires
            old(self).children@.len() == 256,
            !(old(self).children@[c as int] is Empty),
        ensures
            final(self).meta == old(self).meta,
            final(self).term_leaf == old(self).term_leaf,
            final(self).children@ == old(self).children@.update(c as int, Node::Empty),
            r == old(self).children@[c as int],
    {
        let mut tmp = Node::Empty;
        self.children.set_and_swap(c as usize, &mut tmp);
        tmp
    }
}

} // verus!
