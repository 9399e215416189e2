//! The rule trie: one node per label position, built by inserting each
//! rule's labels rightmost-first.  The mathematical model of a node is
//! `SpecNode`, a map from label to child model plus an optional leaf.

use vstd::prelude::*;

use crate::text::{copy_range, bytes_eq};

verus! {

/// Which section of the list a rule came from.
#[derive(Debug, Clone, Copy, PartialEq, Eq, Hash, Structural)]
pub enum Type {
    Icann,
    Private,
}

/// Marks the end of a rule inside the trie.
#[derive(Debug, Clone, Copy, PartialEq, Eq, Structural)]
pub struct Leaf {
    pub is_exception: bool,
    pub typ: Type,
}

/// One label position in the rule trie.  Children are an association
/// vector keyed by label bytes; well-formed nodes never repeat a key.
#[derive(Debug, PartialEq, Eq)]
pub struct Node {
    pub children: Vec<(Vec<u8>, Node)>,
    pub leaf: Option<Leaf>,
}

/// The mathematical model of a trie node.
#[verifier::ext_equal]
pub ghost struct SpecNode {
    pub children: Map<Seq<u8>, SpecNode>,
    pub leaf: Option<Leaf>,
}

impl SpecNode {
    pub open spec fn empty() -> SpecNode {
        SpecNode { children: Map::empty(), leaf: None }
    }
}

/// The model of inserting a rule's labels below `node`: walk the labels
/// in order, creating empty children as needed, and set the leaf of the
/// node reached last (overwriting any earlier leaf there).
pub open spec fn spec_insert(node: SpecNode, labels: Seq<Seq<u8>>, leaf: Leaf) -> SpecNode
    decreases labels.len(),
{
    if labels.len() == 0 {
        SpecNode { children: node.children, leaf: Some(leaf) }
    } else {
        let k = labels.first();
        let child = if node.children.contains_key(k) {
            node.children[k]
        } else {
            SpecNode::empty()
        };
        SpecNode {
            children: node.children.insert(k, spec_insert(child, labels.drop_first(), leaf)),
            leaf: node.leaf,
        }
    }
}

/// The keys of an association vector are pairwise distinct.
pub open spec fn keys_distinct(s: Seq<(Vec<u8>, Node)>) -> bool {
    forall|a: int, b: int| 0 <= a < b < s.len() ==> s[a].0@ != s[b].0@
}

impl Node {
    /// Keys are pairwise distinct, at every level of the trie.
    pub open spec fn wf(self) -> bool
        decreases self,
    {
        keys_distinct(self.children@) && Node::children_wf(self.children@)
    }

    /// Every node of the vector is well formed.
    pub open spec fn children_wf(s: Seq<(Vec<u8>, Node)>) -> bool
        decreases s,
    {
        s.len() == 0 || (s.last().1.wf() && Node::children_wf(s.drop_last()))
    }

    pub open spec fn view(self) -> SpecNode
        decreases self,
    {
        SpecNode { children: Node::assoc_view(self.children@), leaf: self.leaf }
    }

    /// The association vector read as a map, later bindings winning.
    pub open spec fn assoc_view(s: Seq<(Vec<u8>, Node)>) -> Map<Seq<u8>, SpecNode>
        decreases s,
    {
        if s.len() == 0 {
            Map::empty()
        } else {
            Node::assoc_view(s.drop_last()).insert(s.last().0@, s.last().1.view())
        }
    }
}

pub proof fn lemma_children_wf_index(s: Seq<(Vec<u8>, Node)>, j: int)
    requires
        Node::children_wf(s),
        0 <= j < s.len(),
    ensures
        s[j].1.wf(),
    decreases s.len(),
{
    if j < s.len() - 1 {
        lemma_children_wf_index(s.drop_last(), j);
    }
}

pub proof fn lemma_children_wf_all(s: Seq<(Vec<u8>, Node)>)
    requires
        forall|j: int| 0 <= j < s.len() ==> #[trigger] s[j].1.wf(),
    ensures
        Node::children_wf(s),
    decreases s.len(),
{
    if s.len() > 0 {
        assert(s[s.len() - 1].1.wf());
        assert(forall|j: int| 0 <= j < s.drop_last().len() ==> #[trigger] s.drop_last()[j].1.wf());
        lemma_children_wf_all(s.drop_last());
    }
}

pub proof fn lemma_assoc_view_contains(s: Seq<(Vec<u8>, Node)>, k: Seq<u8>)
    ensures
        Node::assoc_view(s).contains_key(k) <==> exists|i: int|
            0 <= i < s.len() && #[trigger] s[i].0@ == k,
    decreases s.len(),
{
    if s.len() > 0 {
        lemma_assoc_view_contains(s.drop_last(), k);
        if Node::assoc_view(s).contains_key(k) {
            if s.last().0@ == k {
                assert(s[s.len() - 1].0@ == k);
            } else {
                let i = choose|i: int| 0 <= i < s.drop_last().len() && #[trigger] s.drop_last()[i].0@ == k;
                assert(s[i].0@ == k);
            }
        }
        if exists|i: int| 0 <= i < s.len() && #[trigger] s[i].0@ == k {
            let i = choose|i: int| 0 <= i < s.len() && #[trigger] s[i].0@ == k;
            if i < s.len() - 1 {
                assert(s.drop_last()[i].0@ == k);
            }
        }
    }
}

pub proof fn lemma_assoc_view_index(s: Seq<(Vec<u8>, Node)>, j: int)
    requires
        forall|a: int, b: int| 0 <= a < b < s.len() ==> s[a].0@ != s[b].0@,
        0 <= j < s.len(),
    ensures
        Node::assoc_view(s).contains_key(s[j].0@),
        Node::assoc_view(s)[s[j].0@] == s[j].1.view(),
    decreases s.len(),
{
    if j == s.len() - 1 {
    } else {
        lemma_assoc_view_index(s.drop_last(), j);
        assert(s.drop_last()[j] == s[j]);
        assert(s.last().0@ != s[j].0@);
    }
}

pub proof fn lemma_assoc_view_update(s: Seq<(Vec<u8>, Node)>, j: int, x: (Vec<u8>, Node))
    requires
        forall|a: int, b: int| 0 <= a < b < s.len() ==> s[a].0@ != s[b].0@,
        0 <= j < s.len(),
        x.0@ == s[j].0@,
    ensures
        Node::assoc_view(s.update(j, x)) == Node::assoc_view(s).insert(x.0@, x.1.view()),
    decreases s.len(),
{
    let t = s.update(j, x);
    if j == s.len() - 1 {
        assert(t.drop_last() =~= s.drop_last());
        assert(t.last() == x);
        assert(Node::assoc_view(t) =~= Node::assoc_view(s).insert(x.0@, x.1.view()));
    } else {
        assert(t.drop_last() =~= s.drop_last().update(j, x));
        assert(t.last() == s.last());
        lemma_assoc_view_update(s.drop_last(), j, x);
        assert(s.last().0@ != x.0@) by {
            assert(s[j].0@ != s[s.len() - 1].0@);
        }
        assert(Node::assoc_view(t) =~= Node::assoc_view(s).insert(x.0@, x.1.view()));
    }
}

pub proof fn lemma_assoc_view_push(s: Seq<(Vec<u8>, Node)>, x: (Vec<u8>, Node))
    ensures
        Node::assoc_view(s.push(x)) == Node::assoc_view(s).insert(x.0@, x.1.view()),
{
    assert(s.push(x).drop_last() =~= s);
    assert(s.push(x).last() == x);
}

impl Node {
    /// A node with no children and no leaf.
    pub fn empty() -> (r: Node)
        ensures
            r@ == SpecNode::empty(),
            r.wf(),
    {
        let r = Node { children: Vec::new(), leaf: None };
        proof {
            assert(r@.children =~= Map::<Seq<u8>, SpecNode>::empty());
        }
        r
    }

    /// The position of `key` among the children, if present.
    pub fn find_child_idx(&self, key: &[u8]) -> (r: Option<usize>)
        ensures
            match r {
                Some(j) => j < self.children@.len() && self.children@[j as int].0@ == key@,
                None => forall|i: int| 0 <= i < self.children@.len() ==> self.children@[i].0@ != key@,
            },
    {
        let mut i: usize = 0;
        while i < self.children.len()
            invariant
                0 <= i <= self.children@.len(),
                forall|t: int| 0 <= t < i ==> self.children@[t].0@ != key@,
            decreases self.children@.len() - i,
        {
            if bytes_eq(self.children[i].0.as_slice(), key) {
                return Some(i);
            }
            i = i + 1;
        }
        None
    }

    /// The child reached by `key`, if any, tied to the model's map.
    pub fn get_child(&self, key: &[u8]) -> (r: Option<&Node>)
        requires
            self.wf(),
        ensures
            match r {
                Some(c) => self@.children.contains_key(key@) && c@ == self@.children[key@]
                    && c.wf(),
                None => !self@.children.contains_key(key@),
            },
    {
        match self.find_child_idx(key) {
            Some(j) => {
                proof {
                    lemma_assoc_view_index(self.children@, j as int);
                    lemma_children_wf_index(self.children@, j as int);
                }
                Some(&self.children[j].1)
            },
            None => {
                proof {
                    lemma_assoc_view_contains(self.children@, key@);
                }
                None
            },
        }
    }

    /// Inserts the labels `labels[i..]` below this node and marks the
    /// node reached last with `leaf`, as `spec_insert` describes.
    pub fn insert_path(&mut self, labels: &Vec<Vec<u8>>, i: usize, leaf: Leaf)
        requires
            old(self).wf(),
            i <= labels@.len(),
        ensures
            final(self).wf(),
            final(self)@ == spec_insert(old(self)@, labels.deep_view().skip(i as int), leaf),
        decreases labels@.len() - i,
    {
        let ghost lv = labels.deep_view().skip(i as int);
        if i == labels.len() {
            self.leaf = Some(leaf);
            proof {
                assert(lv.len() == 0);
            }
        } else {
            let key: &Vec<u8> = &labels[i];
            proof {
                assert(labels.deep_view()[i as int] == labels@[i as int].deep_view());
                assert(lv.first() == key@) by {
                    assert(key.deep_view() =~= key@);
                }
                assert(lv.drop_first() =~= labels.deep_view().skip(i + 1));
            }
            match self.find_child_idx(key.as_slice()) {
                Some(j) => {
                    proof {
                        lemma_assoc_view_index(self.children@, j as int);
                        lemma_children_wf_index(self.children@, j as int);
                    }
                    let ghost old_children = self.children@;
                    let (k0, mut child) = self.children.remove(j);
                    child.insert_path(labels, i + 1, leaf);
                    let ghost new_child = child;
                    self.children.insert(j, (k0, child));
                    proof {
                        let x = (old_children[j as int].0, new_child);
                        assert(self.children@ =~= old_children.update(j as int, x));
                        lemma_assoc_view_update(old_children, j as int, x);
                        assert(self@.children =~= Node::assoc_view(old_children).insert(
                            key@,
                            new_child.view(),
                        ));
                        assert(self@ == spec_insert(old(self)@, lv, leaf));
                        assert(keys_distinct(self.children@)) by {
                            assert forall|a: int, b: int|
                                0 <= a < b < self.children@.len() implies self.children@[a].0@
                                != self.children@[b].0@ by {
                                assert(old_children[a].0@ != old_children[b].0@);
                            }
                        }
                        assert forall|t: int|
                            0 <= t < self.children@.len() implies #[trigger] self.children@[t].1.wf() by {
                            if t != j as int {
                                lemma_children_wf_index(old_children, t);
                            }
                        }
                        lemma_children_wf_all(self.children@);
                    }
                },
                None => {
                    proof {
                        lemma_assoc_view_contains(self.children@, key@);
                        assert(!self@.children.contains_key(key@));
                    }
                    let mut child = Node::empty();
                    child.insert_path(labels, i + 1, leaf);
                    let ghost new_child = child;
                    let key_copy = copy_range(key.as_slice(), 0, key.len());
                    proof {
                        assert(key_copy@ =~= key@);
                    }
                    let ghost kc = key_copy;
                    let ghost old_children = self.children@;
                    self.children.push((key_copy, child));
                    proof {
                        let x = (kc, new_child);
                        lemma_assoc_view_push(old_children, x);
                        assert(self@.children =~= Node::assoc_view(old_children).insert(
                            key@,
                            new_child.view(),
                        ));
                        assert(self@ == spec_insert(old(self)@, lv, leaf));
                        assert(keys_distinct(self.children@)) by {
                            assert forall|a: int, b: int|
                                0 <= a < b < self.children@.len() implies self.children@[a].0@
                                != self.children@[b].0@ by {
                                if b < old_children.len() {
                                    assert(old_children[a].0@ != old_children[b].0@);
                                } else {
                                    assert(old_children[a].0@ != key@);
                                }
                            }
                        }
                        assert forall|t: int|
                            0 <= t < self.children@.len() implies #[trigger] self.children@[t].1.wf() by {
                            if t < old_children.len() {
                                lemma_children_wf_index(old_children, t);
                            }
                        }
                        lemma_children_wf_all(self.children@);
                    }
                },
            }
        }
    }
}

} // verus!

