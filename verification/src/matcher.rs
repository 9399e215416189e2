//! The longest-match lookup: walk a domain's labels right to left
//! against the rule trie, falling back to the wildcard child when no
//! exact child matches, and honouring exception rules.

use vstd::prelude::*;

use crate::text::{tail_bytes, lemma_tail_bytes_nonneg, STAR};
use crate::trie::{Leaf, Node, SpecNode, Type};

verus! {

/// The outcome of a lookup: how many bytes of the queried name form
/// its public suffix, and which section the matching rule came from
/// (`None` when only the implicit single-label rule matched).
#[derive(Debug, Clone, Copy, PartialEq, Eq)]
pub struct Info {
    pub len: usize,
    pub typ: Option<Type>,
}

/// Mathematical counterpart of `Info`, with an unbounded length.
#[verifier::ext_equal]
pub ghost struct SpecInfo {
    pub len: int,
    pub typ: Option<Type>,
}

impl View for Info {
    type V = SpecInfo;

    open spec fn view(&self) -> SpecInfo {
        SpecInfo { len: self.len as int, typ: self.typ }
    }
}

/// The wildcard label `*`, matched only when no exact label matches.
pub open spec fn wildcard() -> Seq<u8> {
    seq![STAR]
}

/// Does the list's section filter let this leaf count?
pub open spec fn passes(filter: Option<Type>, lf: Leaf) -> bool {
    filter is None || filter == Some(lf.typ)
}

/// One step of the walk from the second label on: take the exact child
/// if present, else the wildcard child, else stop with the best match
/// so far.  On a leaf that the filter admits, an exception rule ends
/// the walk with the bytes consumed before this label, and any other
/// rule extends the best match through this label.
pub open spec fn find_loop(
    node: SpecNode,
    filter: Option<Type>,
    labels: Seq<Seq<u8>>,
    i: int,
    len_so_far: int,
    best: SpecInfo,
) -> SpecInfo
    decreases labels.len() - i,
{
    if i >= labels.len() {
        best
    } else {
        let l = labels[i];
        let child_opt = if node.children.contains_key(l) {
            Some(node.children[l])
        } else if node.children.contains_key(wildcard()) {
            Some(node.children[wildcard()])
        } else {
            None
        };
        match child_opt {
            None => best,
            Some(child) => {
                let lpd = l.len() + 1;
                match child.leaf {
                    Some(lf) => if passes(filter, lf) {
                        if lf.is_exception {
                            SpecInfo { len: len_so_far, typ: Some(lf.typ) }
                        } else {
                            find_loop(
                                child,
                                filter,
                                labels,
                                i + 1,
                                len_so_far + lpd,
                                SpecInfo { len: len_so_far + lpd, typ: Some(lf.typ) },
                            )
                        }
                    } else {
                        find_loop(child, filter, labels, i + 1, len_so_far + lpd, best)
                    },
                    None => find_loop(child, filter, labels, i + 1, len_so_far + lpd, best),
                }
            },
        }
    }
}

/// The whole lookup.  The first label is special: it is a candidate
/// suffix whether or not the trie knows it (the implicit rule that any
/// lone label is a suffix), and it never takes the wildcard fallback.
pub open spec fn spec_find(rules: SpecNode, filter: Option<Type>, labels: Seq<Seq<u8>>) -> SpecInfo {
    if labels.len() == 0 {
        SpecInfo { len: 0, typ: None }
    } else {
        let l0 = labels[0];
        if rules.children.contains_key(l0) {
            let n0 = rules.children[l0];
            let t0 = match n0.leaf {
                Some(lf) => Some(lf.typ),
                None => None,
            };
            find_loop(n0, filter, labels, 1, l0.len() as int, SpecInfo { len: l0.len() as int, typ: t0 })
        } else {
            SpecInfo { len: l0.len() as int, typ: None }
        }
    }
}

/// The walk's answer never exceeds a budget that covers the best match
/// so far and all bytes still ahead.
proof fn lemma_find_loop_len_bound(
    node: SpecNode,
    filter: Option<Type>,
    labels: Seq<Seq<u8>>,
    i: int,
    len_so_far: int,
    best: SpecInfo,
    bound: int,
)
    requires
        0 <= i,
        0 <= len_so_far,
        0 <= best.len <= bound,
        len_so_far + tail_bytes(labels, i) <= bound,
    ensures
        0 <= find_loop(node, filter, labels, i, len_so_far, best).len <= bound,
    decreases labels.len() - i,
{
    if i < labels.len() {
        let l = labels[i];
        lemma_tail_bytes_nonneg(labels, i + 1);
        assert(tail_bytes(labels, i) == l.len() + 1 + tail_bytes(labels, i + 1));
        let child_opt = if node.children.contains_key(l) {
            Some(node.children[l])
        } else if node.children.contains_key(wildcard()) {
            Some(node.children[wildcard()])
        } else {
            None
        };
        match child_opt {
            None => {},
            Some(child) => {
                let lpd = l.len() + 1;
                match child.leaf {
                    Some(lf) => if passes(filter, lf) {
                        if lf.is_exception {
                        } else {
                            lemma_find_loop_len_bound(
                                child,
                                filter,
                                labels,
                                i + 1,
                                len_so_far + lpd,
                                SpecInfo { len: len_so_far + lpd, typ: Some(lf.typ) },
                                bound,
                            );
                        }
                    } else {
                        lemma_find_loop_len_bound(
                            child,
                            filter,
                            labels,
                            i + 1,
                            len_so_far + lpd,
                            best,
                            bound,
                        );
                    },
                    None => {
                        lemma_find_loop_len_bound(
                            child,
                            filter,
                            labels,
                            i + 1,
                            len_so_far + lpd,
                            best,
                            bound,
                        );
                    },
                }
            },
        }
    }
}

/// The matched length is non-negative, zero without labels, and at
/// most one less than the byte budget of the labels: the bytes of the
/// labels joined by dots.
pub proof fn lemma_spec_find_len_bound(rules: SpecNode, filter: Option<Type>, labels: Seq<Seq<u8>>)
    ensures
        0 <= spec_find(rules, filter, labels).len,
        labels.len() == 0 ==> spec_find(rules, filter, labels).len == 0,
        labels.len() > 0 ==> spec_find(rules, filter, labels).len <= tail_bytes(labels, 0) - 1,
{
    if labels.len() > 0 {
        let l0 = labels[0];
        lemma_tail_bytes_nonneg(labels, 1);
        assert(tail_bytes(labels, 0) == l0.len() + 1 + tail_bytes(labels, 1));
        if rules.children.contains_key(l0) {
            let n0 = rules.children[l0];
            let t0 = match n0.leaf {
                Some(lf) => Some(lf.typ),
                None => None,
            };
            lemma_find_loop_len_bound(
                n0,
                filter,
                labels,
                1,
                l0.len() as int,
                SpecInfo { len: l0.len() as int, typ: t0 },
                tail_bytes(labels, 0) - 1,
            );
        }
    }
}

/// A fresh vector holding the wildcard label.
fn star_label() -> (r: Vec<u8>)
    ensures
        r@ == wildcard(),
{
    let mut v: Vec<u8> = Vec::new();
    v.push(STAR);
    proof {
        assert(v@ =~= wildcard());
    }
    v
}

/// The walk from label `i` on, mirroring `find_loop`.
pub(crate) fn walk_rest(
    node: &Node,
    filter: Option<Type>,
    labels: &Vec<Vec<u8>>,
    i: usize,
    len_so_far: usize,
    best: Info,
) -> (r: Info)
    requires
        node.wf(),
        i <= labels@.len(),
        len_so_far + tail_bytes(labels.deep_view(), i as int) <= usize::MAX,
    ensures
        r@ == find_loop(node@, filter, labels.deep_view(), i as int, len_so_far as int, best@),
    decreases labels@.len() - i,
{
    let ghost lv = labels.deep_view();
    if i == labels.len() {
        return best;
    }
    let label: &Vec<u8> = &labels[i];
    proof {
        assert(lv[i as int] == labels@[i as int].deep_view());
        assert(label.deep_view() =~= label@);
        lemma_tail_bytes_nonneg(lv, i + 1);
        assert(tail_bytes(lv, i as int) == lv[i as int].len() + 1 + tail_bytes(lv, i + 1));
    }
    let child_opt = match node.get_child(label.as_slice()) {
        Some(c) => Some(c),
        None => {
            let star = star_label();
            node.get_child(star.as_slice())
        },
    };
    match child_opt {
        None => best,
        Some(child) => {
            let lpd = label.len() + 1;
            let new_len = len_so_far + lpd;
            match child.leaf {
                Some(lf) => {
                    let pass = match filter {
                        None => true,
                        Some(t) => t == lf.typ,
                    };
                    if pass {
                        proof {
                            assert(passes(filter, lf));
                        }
                        if lf.is_exception {
                            Info { len: len_so_far, typ: Some(lf.typ) }
                        } else {
                            let nb = Info { len: new_len, typ: Some(lf.typ) };
                            walk_rest(child, filter, labels, i + 1, new_len, nb)
                        }
                    } else {
                        proof {
                            assert(!passes(filter, lf));
                        }
                        walk_rest(child, filter, labels, i + 1, new_len, best)
                    }
                },
                None => walk_rest(child, filter, labels, i + 1, new_len, best),
            }
        },
    }
}

/// The lookup against a whole trie, mirroring `spec_find`.
pub(crate) fn find_in_node(rules: &Node, filter: Option<Type>, labels: &Vec<Vec<u8>>) -> (r: Info)
    requires
        rules.wf(),
        tail_bytes(labels.deep_view(), 0) <= usize::MAX,
    ensures
        r@ == spec_find(rules@, filter, labels.deep_view()),
{
    let ghost lv = labels.deep_view();
    if labels.len() == 0 {
        return Info { len: 0, typ: None };
    }
    let first: &Vec<u8> = &labels[0];
    proof {
        assert(lv[0] == labels@[0].deep_view());
        assert(first.deep_view() =~= first@);
        lemma_tail_bytes_nonneg(lv, 1);
        assert(tail_bytes(lv, 0) == lv[0].len() + 1 + tail_bytes(lv, 1));
    }
    match rules.get_child(first.as_slice()) {
        None => Info { len: first.len(), typ: None },
        Some(n0) => {
            let t0 = match n0.leaf {
                Some(lf) => Some(lf.typ),
                None => None,
            };
            let best0 = Info { len: first.len(), typ: t0 };
            walk_rest(n0, filter, labels, 1, first.len(), best0)
        },
    }
}

} // verus!
