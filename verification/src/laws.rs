//! Laws of the trie and the lookup: inserting a rule makes exactly
//! that rule findable, exceptions carve the suffix back, a wildcard
//! matches like a literal label, and building is deterministic.

use vstd::prelude::*;

use crate::list::{spec_from_bytes, List, SpecError, SpecList};
use crate::matcher::{find_loop, passes, spec_find, wildcard, SpecInfo};
use crate::text::{lemma_tail_bytes_shift, tail_bytes};
use crate::trie::{spec_insert, Leaf, SpecNode, Type};

verus! {

/// A bare chain of single-child nodes along `spine`, ending in `nd`.
spec fn chain_app(spine: Seq<Seq<u8>>, nd: SpecNode) -> SpecNode
    decreases spine.len(),
{
    if spine.len() == 0 {
        nd
    } else {
        SpecNode {
            children: Map::empty().insert(spine.first(), chain_app(spine.drop_first(), nd)),
            leaf: None,
        }
    }
}

/// A node that only ends a rule.
spec fn leaf_node(lf: Leaf) -> SpecNode {
    SpecNode { children: Map::empty(), leaf: Some(lf) }
}

/// Inserting into an empty trie builds a bare chain to the leaf.
proof fn lemma_insert_empty(labels: Seq<Seq<u8>>, lf: Leaf)
    ensures
        spec_insert(SpecNode::empty(), labels, lf) == chain_app(labels, leaf_node(lf)),
    decreases labels.len(),
{
    if labels.len() == 0 {
    } else {
        lemma_insert_empty(labels.drop_first(), lf);
        assert(spec_insert(SpecNode::empty(), labels, lf).children =~= Map::empty().insert(
            labels.first(),
            chain_app(labels.drop_first(), leaf_node(lf)),
        ));
    }
}

/// Inserting labels that start with a chain's spine walks that spine
/// and inserts the remainder below the chain's end.
proof fn lemma_insert_follows_spine(spine: Seq<Seq<u8>>, nd: SpecNode, rest: Seq<Seq<u8>>, lf: Leaf)
    ensures
        spec_insert(chain_app(spine, nd), spine + rest, lf) == chain_app(
            spine,
            spec_insert(nd, rest, lf),
        ),
    decreases spine.len(),
{
    if spine.len() == 0 {
        assert(spine + rest =~= rest);
    } else {
        let c = chain_app(spine, nd);
        let all = spine + rest;
        assert(all.first() == spine.first());
        assert(c.children.contains_key(spine.first()));
        assert(c.children[spine.first()] == chain_app(spine.drop_first(), nd));
        assert(all.drop_first() =~= spine.drop_first() + rest);
        lemma_insert_follows_spine(spine.drop_first(), nd, rest, lf);
        assert(spec_insert(c, all, lf).children =~= Map::empty().insert(
            spine.first(),
            chain_app(spine.drop_first(), spec_insert(nd, rest, lf)),
        ));
    }
}

/// Chains compose: a chain along `a + b` is a chain along `a` ending
/// in the chain along `b`.
proof fn lemma_chain_app_concat(a: Seq<Seq<u8>>, b: Seq<Seq<u8>>, nd: SpecNode)
    ensures
        chain_app(a + b, nd) == chain_app(a, chain_app(b, nd)),
    decreases a.len(),
{
    if a.len() == 0 {
        assert(a + b =~= b);
    } else {
        assert((a + b).first() == a.first());
        assert((a + b).drop_first() =~= a.drop_first() + b);
        lemma_chain_app_concat(a.drop_first(), b, nd);
    }
}

/// Walking a bare chain consumes its labels and arrives at its end:
/// the best match is untouched along the way, and what happens on
/// arrival is decided by the end node's leaf alone.
proof fn lemma_find_loop_chain(
    spine: Seq<Seq<u8>>,
    nd: SpecNode,
    filter: Option<Type>,
    labels: Seq<Seq<u8>>,
    i: int,
    len_so_far: int,
    best: SpecInfo,
)
    requires
        spine.len() >= 1,
        0 <= i,
        i + spine.len() <= labels.len(),
        labels.subrange(i, i + spine.len()) == spine,
    ensures
        find_loop(chain_app(spine, nd), filter, labels, i, len_so_far, best) == ({
            let j = i + spine.len();
            let lsf2 = len_so_far + tail_bytes(spine, 0);
            match nd.leaf {
                Some(lf) => if passes(filter, lf) {
                    if lf.is_exception {
                        SpecInfo { len: lsf2 - (spine.last().len() + 1), typ: Some(lf.typ) }
                    } else {
                        find_loop(nd, filter, labels, j, lsf2, SpecInfo { len: lsf2, typ: Some(lf.typ) })
                    }
                } else {
                    find_loop(nd, filter, labels, j, lsf2, best)
                },
                None => find_loop(nd, filter, labels, j, lsf2, best),
            }
        }),
    decreases spine.len(),
{
    let c = chain_app(spine, nd);
    let l = labels[i];
    assert(l == spine[0]);
    assert(c.children.contains_key(l));
    assert(c.children[l] == chain_app(spine.drop_first(), nd));
    assert(tail_bytes(spine, 0) == spine[0].len() + 1 + tail_bytes(spine, 1));
    lemma_tail_bytes_shift(spine);
    if spine.len() == 1 {
        assert(chain_app(spine.drop_first(), nd) == nd);
        assert(tail_bytes(spine.drop_first(), 0) == 0);
        assert(spine.last() == spine[0]);
    } else {
        let spine2 = spine.drop_first();
        assert(chain_app(spine2, nd).leaf is None);
        assert(labels.subrange(i + 1, i + 1 + spine2.len()) =~= spine2);
        lemma_find_loop_chain(spine2, nd, filter, labels, i + 1, len_so_far + (l.len() + 1), best);
        assert(spine2.last() == spine.last());
    }
}

/// Inserting one well-formed, non-exception rule into an empty trie
/// makes the lookup of exactly that rule's labels match the whole
/// rule: its byte length (labels joined by dots), under its section
/// type.  An exception rule behaves differently: see
/// `lemma_exception_overrides`.
pub proof fn lemma_rule_roundtrip(labels: Seq<Seq<u8>>, typ: Type)
    requires
        labels.len() >= 1,
        forall|i: int| 0 <= i < labels.len() ==> labels[i].len() > 0,
    ensures
        spec_find(
            spec_insert(SpecNode::empty(), labels, Leaf { is_exception: false, typ }),
            None,
            labels,
        ) == (SpecInfo { len: tail_bytes(labels, 0) - 1, typ: Some(typ) }),
{
    let lf = Leaf { is_exception: false, typ };
    lemma_insert_empty(labels, lf);
    let trie = chain_app(labels, leaf_node(lf));
    let l0 = labels[0];
    assert(l0 == labels.first());
    assert(trie.children.contains_key(l0));
    assert(trie.children[l0] == chain_app(labels.drop_first(), leaf_node(lf)));
    assert(tail_bytes(labels, 0) == l0.len() + 1 + tail_bytes(labels, 1));
    lemma_tail_bytes_shift(labels);
    if labels.len() == 1 {
        assert(chain_app(labels.drop_first(), leaf_node(lf)) == leaf_node(lf));
        assert(tail_bytes(labels, 1) == 0);
    } else {
        let spine = labels.drop_first();
        assert(chain_app(spine, leaf_node(lf)).leaf is None);
        assert(labels.subrange(1, 1 + spine.len() as int) =~= spine);
        lemma_find_loop_chain(
            spine,
            leaf_node(lf),
            None,
            labels,
            1,
            l0.len() as int,
            SpecInfo { len: l0.len() as int, typ: None },
        );
    }
}

/// An exception rule one label below a matching rule carves the match
/// back to the shorter rule's bytes, and reports the exception rule's
/// own section type.  Looking up the exception rule's labels yields
/// the bytes of `ls` alone (the label `x` is excluded).
pub proof fn lemma_exception_overrides(ls: Seq<Seq<u8>>, x: Seq<u8>, t1: Type, t2: Type)
    requires
        ls.len() >= 1,
        forall|i: int| 0 <= i < ls.len() ==> ls[i].len() > 0,
        x.len() > 0,
    ensures
        ({
            let base = spec_insert(SpecNode::empty(), ls, Leaf { is_exception: false, typ: t1 });
            let trie = spec_insert(base, ls.push(x), Leaf { is_exception: true, typ: t2 });
            spec_find(trie, None, ls.push(x)) == (SpecInfo {
                len: tail_bytes(ls, 0) - 1,
                typ: Some(t2),
            })
        }),
{
    let lf1 = Leaf { is_exception: false, typ: t1 };
    let lf2 = Leaf { is_exception: true, typ: t2 };
    let base = spec_insert(SpecNode::empty(), ls, lf1);
    lemma_insert_empty(ls, lf1);
    assert(ls.push(x) =~= ls + seq![x]);
    lemma_insert_follows_spine(ls, leaf_node(lf1), seq![x], lf2);
    let end = spec_insert(leaf_node(lf1), seq![x], lf2);
    assert(seq![x].drop_first() =~= Seq::<Seq<u8>>::empty());
    assert(spec_insert(SpecNode::empty(), seq![x].drop_first(), lf2) == leaf_node(lf2));
    assert(end.children =~= Map::empty().insert(x, leaf_node(lf2)));
    assert(end.leaf == Some(lf1));
    let trie = chain_app(ls, end);
    assert(spec_insert(base, ls.push(x), lf2) == trie);

    let labels = ls.push(x);
    let l0 = labels[0];
    assert(l0 == ls[0]);
    assert(trie.children.contains_key(l0));
    assert(tail_bytes(ls, 0) == ls[0].len() + 1 + tail_bytes(ls, 1));
    lemma_tail_bytes_shift(ls);
    if ls.len() == 1 {
        assert(trie.children[l0] == end);
        assert(tail_bytes(ls, 1) == 0);
        assert(end.children.contains_key(x));
        assert(find_loop(end, None, labels, 1, l0.len() as int, SpecInfo {
            len: l0.len() as int,
            typ: Some(t1),
        }) == (SpecInfo { len: l0.len() as int, typ: Some(t2) }));
    } else {
        let spine = ls.drop_first();
        assert(trie.children[l0] == chain_app(spine, end));
        assert(chain_app(spine, end).leaf is None);
        assert(labels.subrange(1, 1 + spine.len() as int) =~= spine);
        lemma_find_loop_chain(
            spine,
            end,
            None,
            labels,
            1,
            l0.len() as int,
            SpecInfo { len: l0.len() as int, typ: None },
        );
        let lsf2 = l0.len() + tail_bytes(spine, 0);
        assert(lsf2 == tail_bytes(ls, 0) - 1);
        assert(end.children.contains_key(x));
        assert(find_loop(end, None, labels, ls.len() as int, lsf2, SpecInfo {
            len: lsf2,
            typ: Some(t1),
        }) == (SpecInfo { len: lsf2, typ: Some(t2) }));
    }
}

/// The list's canonical use of exceptions: under a wildcard rule, an
/// exception rule carves its own name back out, so looking the
/// exception's labels up matches only the bytes of `ls`.
pub proof fn lemma_exception_under_wildcard(ls: Seq<Seq<u8>>, x: Seq<u8>, t1: Type, t2: Type)
    requires
        ls.len() >= 1,
        forall|i: int| 0 <= i < ls.len() ==> ls[i].len() > 0,
        x.len() > 0,
    ensures
        ({
            let base = spec_insert(
                SpecNode::empty(),
                ls.push(wildcard()),
                Leaf { is_exception: false, typ: t1 },
            );
            let trie = spec_insert(base, ls.push(x), Leaf { is_exception: true, typ: t2 });
            spec_find(trie, None, ls.push(x)) == (SpecInfo {
                len: tail_bytes(ls, 0) - 1,
                typ: Some(t2),
            })
        }),
{
    let lf1 = Leaf { is_exception: false, typ: t1 };
    let lf2 = Leaf { is_exception: true, typ: t2 };
    let base = spec_insert(SpecNode::empty(), ls.push(wildcard()), lf1);
    lemma_insert_empty(ls.push(wildcard()), lf1);
    assert(ls.push(wildcard()) =~= ls + seq![wildcard()]);
    lemma_chain_app_concat(ls, seq![wildcard()], leaf_node(lf1));
    let single = seq![wildcard()];
    let m = chain_app(single, leaf_node(lf1));
    assert(single.first() == wildcard());
    assert(single.drop_first() =~= Seq::<Seq<u8>>::empty());
    assert(chain_app(Seq::<Seq<u8>>::empty(), leaf_node(lf1)) == leaf_node(lf1));
    assert(m.children =~= Map::empty().insert(wildcard(), leaf_node(lf1)));
    assert(m.leaf is None);
    assert(base == chain_app(ls, m));

    assert(ls.push(x) =~= ls + seq![x]);
    lemma_insert_follows_spine(ls, m, seq![x], lf2);
    let end = spec_insert(m, seq![x], lf2);
    assert(seq![x].drop_first() =~= Seq::<Seq<u8>>::empty());
    let trie = chain_app(ls, end);
    assert(spec_insert(base, ls.push(x), lf2) == trie);
    assert(end.leaf is None);
    assert(end.children.contains_key(x));
    assert(end.children[x].leaf == Some(lf2)) by {
        assert(seq![x].first() == x);
        let child = if m.children.contains_key(x) {
            m.children[x]
        } else {
            SpecNode::empty()
        };
        assert(spec_insert(child, Seq::<Seq<u8>>::empty(), lf2) == (SpecNode {
            children: child.children,
            leaf: Some(lf2),
        }));
        assert(end.children == m.children.insert(x, spec_insert(child, seq![x].drop_first(), lf2)));
    }

    let labels = ls.push(x);
    let l0 = labels[0];
    assert(l0 == ls[0]);
    assert(trie.children.contains_key(l0));
    assert(tail_bytes(ls, 0) == ls[0].len() + 1 + tail_bytes(ls, 1));
    lemma_tail_bytes_shift(ls);
    assert(labels[ls.len() as int] == x);
    if ls.len() == 1 {
        assert(ls.drop_first() =~= Seq::<Seq<u8>>::empty());
        assert(chain_app(Seq::<Seq<u8>>::empty(), end) == end);
        assert(trie.children[l0] == end);
        assert(tail_bytes(ls, 1) == 0);
        assert(find_loop(end, None, labels, 1, l0.len() as int, SpecInfo {
            len: l0.len() as int,
            typ: None,
        }) == (SpecInfo { len: l0.len() as int, typ: Some(t2) }));
    } else {
        let spine = ls.drop_first();
        assert(trie.children[l0] == chain_app(spine, end));
        assert(chain_app(spine, end).leaf is None);
        assert(labels.subrange(1, 1 + spine.len() as int) =~= spine);
        lemma_find_loop_chain(
            spine,
            end,
            None,
            labels,
            1,
            l0.len() as int,
            SpecInfo { len: l0.len() as int, typ: None },
        );
        let lsf2 = l0.len() + tail_bytes(spine, 0);
        assert(lsf2 == tail_bytes(ls, 0) - 1);
        assert(find_loop(end, None, labels, ls.len() as int, lsf2, SpecInfo {
            len: l0.len() as int,
            typ: None,
        }) == (SpecInfo { len: lsf2, typ: Some(t2) }));
    }
}

/// A wildcard rule matches any label in its place: looking up a name
/// whose last label is arbitrary gives the same answer as if the rule
/// had named that label outright.
pub proof fn lemma_wildcard_matches(ls: Seq<Seq<u8>>, w: Seq<u8>, typ: Type)
    requires
        ls.len() >= 1,
        forall|i: int| 0 <= i < ls.len() ==> ls[i].len() > 0,
        w.len() > 0,
    ensures
        ({
            let wild = spec_insert(
                SpecNode::empty(),
                ls.push(wildcard()),
                Leaf { is_exception: false, typ },
            );
            let literal = spec_insert(
                SpecNode::empty(),
                ls.push(w),
                Leaf { is_exception: false, typ },
            );
            spec_find(wild, None, ls.push(w)) == spec_find(literal, None, ls.push(w))
                && spec_find(wild, None, ls.push(w)) == (SpecInfo {
                len: tail_bytes(ls, 0) + w.len(),
                typ: Some(typ),
            })
        }),
{
    let lf = Leaf { is_exception: false, typ };
    let labels = ls.push(w);

    assert(tail_bytes(labels, 0) - 1 == tail_bytes(ls, 0) + w.len()) by {
        lemma_tail_bytes_push_total(ls, w);
    }
    assert(forall|i: int| 0 <= i < labels.len() ==> labels[i].len() > 0);
    lemma_rule_roundtrip(labels, typ);

    let wild = spec_insert(SpecNode::empty(), ls.push(wildcard()), lf);
    lemma_insert_empty(ls.push(wildcard()), lf);
    assert(ls.push(wildcard()) =~= ls + seq![wildcard()]);
    lemma_chain_app_concat(ls, seq![wildcard()], leaf_node(lf));
    let single = seq![wildcard()];
    let m = chain_app(single, leaf_node(lf));
    assert(single.first() == wildcard());
    assert(single.drop_first() =~= Seq::<Seq<u8>>::empty());
    assert(chain_app(Seq::<Seq<u8>>::empty(), leaf_node(lf)) == leaf_node(lf));
    assert(m.children =~= Map::empty().insert(wildcard(), leaf_node(lf)));
    assert(m.leaf is None);
    assert(wild == chain_app(ls, m));
    assert(labels[ls.len() as int] == w);
    assert(m.children.contains_key(wildcard()));
    assert(m.children.contains_key(w) ==> m.children[w] == leaf_node(lf));

    let l0 = labels[0];
    assert(l0 == ls[0]);
    assert(wild.children.contains_key(l0));
    assert(tail_bytes(ls, 0) == ls[0].len() + 1 + tail_bytes(ls, 1));
    lemma_tail_bytes_shift(ls);
    if ls.len() == 1 {
        assert(wild.children[l0] == m);
        assert(tail_bytes(ls, 1) == 0);
        assert(find_loop(m, None, labels, 1, l0.len() as int, SpecInfo {
            len: l0.len() as int,
            typ: None,
        }) == (SpecInfo { len: l0.len() + w.len() as int + 1, typ: Some(typ) }));
    } else {
        let spine = ls.drop_first();
        assert(wild.children[l0] == chain_app(spine, m));
        assert(chain_app(spine, m).leaf is None);
        assert(labels.subrange(1, 1 + spine.len() as int) =~= spine);
        lemma_find_loop_chain(
            spine,
            m,
            None,
            labels,
            1,
            l0.len() as int,
            SpecInfo { len: l0.len() as int, typ: None },
        );
        let lsf2 = l0.len() + tail_bytes(spine, 0);
        assert(lsf2 == tail_bytes(ls, 0) - 1);
        assert(find_loop(
            leaf_node(lf),
            None,
            labels,
            ls.len() as int + 1,
            lsf2 + w.len() as int + 1,
            SpecInfo { len: lsf2 + w.len() as int + 1, typ: Some(typ) },
        ) == (SpecInfo { len: lsf2 + w.len() as int + 1, typ: Some(typ) }));
        assert(find_loop(m, None, labels, ls.len() as int, lsf2, SpecInfo {
            len: l0.len() as int,
            typ: None,
        }) == (SpecInfo { len: lsf2 + w.len() as int + 1, typ: Some(typ) }));
    }
}

/// Appending one label adds its bytes and a dot to the byte budget.
proof fn lemma_tail_bytes_push_total(ls: Seq<Seq<u8>>, w: Seq<u8>)
    ensures
        tail_bytes(ls.push(w), 0) == tail_bytes(ls, 0) + w.len() + 1,
{
    crate::text::lemma_tail_bytes_push(ls, w, 0);
}

/// A single-label name that no rule knows still has a suffix: the
/// label itself, under no section type (the implicit default rule).
pub proof fn lemma_default_single_label(rules: SpecNode, filter: Option<Type>, l: Seq<u8>)
    requires
        !rules.children.contains_key(l),
    ensures
        spec_find(rules, filter, seq![l]) == (SpecInfo { len: l.len() as int, typ: None }),
{
    assert(seq![l][0] == l);
}

/// Building from the same text is deterministic: two lists built from
/// identical input have the same model, so every lookup agrees.
pub proof fn lemma_build_idempotent(l1: List, l2: List, bytes: Seq<u8>, labels: Seq<Seq<u8>>)
    requires
        spec_from_bytes(bytes) == Ok::<SpecList, SpecError>(l1@),
        spec_from_bytes(bytes) == Ok::<SpecList, SpecError>(l2@),
    ensures
        l1@ == l2@,
        spec_find(l1@.rules, l1@.typ, labels) == spec_find(l2@.rules, l2@.typ, labels),
{
}

} // verus!
