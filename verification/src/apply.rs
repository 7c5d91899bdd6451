//! What a patch means, and why the diff engine is right.
//!
//! [`apply_op`] gives each operation its meaning on a snapshot tree:
//! the path is split into a parent prefix and a final index, the prefix is
//! resolved against the current tree, and the parent's child list is
//! edited at the final index (`UpdateAttributes` resolves the full path
//! instead). `None` means the path did not resolve — a structural desync,
//! treated as fatal by every caller. [`apply_ops`] folds a whole patch in
//! listed order over the intermediate trees.
//!
//! The central theorem, [`lemma_diff_then_apply`], states that applying
//! `spec_diff(a, b)` to `a` cannot desync and yields exactly `b`.

use vstd::prelude::*;
use vstd::math::min;

use crate::diff::spec_attr_entries;
use crate::diff::spec_deletes;
use crate::diff::spec_diff;
use crate::diff::spec_diff_pairs;
use crate::diff::spec_inserts;
use crate::diff::EntryV;
use crate::diff::OpV;
use crate::tree::bounded;
use crate::tree::lemma_node_at_concat;
use crate::tree::lemma_node_at_single;
use crate::tree::lemma_replace_at_concat;
use crate::tree::lemma_replace_at_single;
use crate::tree::lemma_replace_at_same;
use crate::tree::node_at;
use crate::tree::replace_at;
use crate::tree::TokenV;

verus! {

/// `children` with `content` inserted before index `i`, or appended where
/// `i` is beyond the current child count.
pub open spec fn insert_clamped(children: Seq<TokenV>, i: usize, content: TokenV) -> Seq<TokenV> {
    if i <= children.len() {
        children.insert(i as int, content)
    } else {
        children.push(content)
    }
}

/// The tree after one operation, or `None` where its path does not
/// resolve against the current tree.
pub open spec fn apply_op(t: TokenV, path: Seq<usize>, op: OpV) -> Option<TokenV> {
    match op {
        OpV::Replace { content } => {
            if node_at(t, path) is Some {
                Some(replace_at(t, path, content))
            } else {
                None
            }
        },
        OpV::Insert { content } => {
            if path.len() == 0 {
                None
            } else {
                match node_at(t, path.drop_last()) {
                    Some(TokenV::Elem { tag, attrs, children }) => Some(
                        replace_at(
                            t,
                            path.drop_last(),
                            TokenV::Elem {
                                tag,
                                attrs,
                                children: insert_clamped(children, path.last(), content),
                            },
                        ),
                    ),
                    _ => None,
                }
            }
        },
        OpV::Delete => {
            if path.len() == 0 {
                None
            } else {
                match node_at(t, path.drop_last()) {
                    Some(TokenV::Elem { tag, attrs, children }) => {
                        if (path.last() as int) < children.len() {
                            Some(
                                replace_at(
                                    t,
                                    path.drop_last(),
                                    TokenV::Elem {
                                        tag,
                                        attrs,
                                        children: children.remove(path.last() as int),
                                    },
                                ),
                            )
                        } else {
                            None
                        }
                    },
                    _ => None,
                }
            }
        },
        OpV::UpdateAttributes { new_attributes } => {
            match node_at(t, path) {
                Some(TokenV::Elem { tag, attrs: _, children }) => Some(
                    replace_at(t, path, TokenV::Elem { tag, attrs: new_attributes, children }),
                ),
                _ => None,
            }
        },
    }
}

/// The tree after a whole patch, applied in listed order; `None` as soon
/// as one operation fails to resolve.
pub open spec fn apply_ops(t: TokenV, ops: Seq<EntryV>) -> Option<TokenV>
    decreases ops.len(),
{
    if ops.len() == 0 {
        Some(t)
    } else {
        match apply_op(t, ops[0].path, ops[0].op) {
            Some(t1) => apply_ops(t1, ops.drop_first()),
            None => None,
        }
    }
}

/// The empty patch leaves any document unchanged.
pub proof fn lemma_apply_empty(t: TokenV)
    ensures
        apply_ops(t, Seq::<EntryV>::empty()) == Some(t),
{
}

/// Applying a concatenated patch is applying the first part, then the
/// second part to its outcome.
pub proof fn lemma_apply_ops_concat(t: TokenV, a: Seq<EntryV>, b: Seq<EntryV>)
    ensures
        apply_ops(t, a + b) == match apply_ops(t, a) {
            Option::Some(t1) => apply_ops(t1, b),
            Option::None => None::<TokenV>,
        },
    decreases a.len(),
{
    if a.len() == 0 {
        assert(a + b =~= b);
    } else {
        assert((a + b)[0] == a[0]);
        match apply_op(t, a[0].path, a[0].op) {
            Option::Some(t1) => {
                assert((a + b).drop_first() =~= a.drop_first() + b);
                lemma_apply_ops_concat(t1, a.drop_first(), b);
            },
            Option::None => {
                assert((a + b).len() > 0);
            },
        }
    }
}

/// Reading back the path just written: replacement is visible at its own
/// path.
proof fn lemma_node_at_replace_at(t: TokenV, p: Seq<usize>, sub: TokenV)
    requires
        node_at(t, p) is Some,
    ensures
        node_at(replace_at(t, p, sub), p) == Some(sub),
    decreases p.len(),
{
    if p.len() > 0 {
        match t {
            TokenV::Elem { children, .. } => {
                lemma_node_at_replace_at(children[p[0] as int], p.drop_first(), sub);
            },
            TokenV::Text { .. } => {},
        }
    }
}

/// Two replacements at one path collapse to the second.
proof fn lemma_replace_at_twice(t: TokenV, p: Seq<usize>, s1: TokenV, s2: TokenV)
    requires
        node_at(t, p) is Some,
    ensures
        replace_at(replace_at(t, p, s1), p, s2) == replace_at(t, p, s2),
    decreases p.len(),
{
    if p.len() > 0 {
        match t {
            TokenV::Elem { tag, attrs, children } => {
                let k = p[0] as int;
                lemma_replace_at_twice(children[k], p.drop_first(), s1, s2);
                let c1 = children.update(k, replace_at(children[k], p.drop_first(), s1));
                assert(c1[k] == replace_at(children[k], p.drop_first(), s1));
                assert(c1.update(k, replace_at(c1[k], p.drop_first(), s2)) =~= children.update(
                    k,
                    replace_at(children[k], p.drop_first(), s2),
                ));
            },
            TokenV::Text { .. } => {},
        }
    }
}

/// An operation addressed at `p + q` acts on the subtree that `p`
/// resolves to, and the outcome is stitched back in at `p`. Operations
/// that split off a final index need `q` non-empty; `Replace` and
/// `UpdateAttributes` resolve their full path and lift unconditionally.
proof fn lemma_apply_op_lift(t: TokenV, p: Seq<usize>, s: TokenV, q: Seq<usize>, op: OpV)
    requires
        node_at(t, p) == Some(s),
        q.len() > 0 || op is Replace || op is UpdateAttributes,
    ensures
        apply_op(t, p + q, op) == match apply_op(s, q, op) {
            Option::Some(s1) => Some(replace_at(t, p, s1)),
            Option::None => None::<TokenV>,
        },
{
    match op {
        OpV::Replace { content } => {
            lemma_node_at_concat(t, p, q);
            if node_at(s, q) is Some {
                lemma_replace_at_concat(t, p, q, content);
            }
        },
        OpV::UpdateAttributes { new_attributes } => {
            lemma_node_at_concat(t, p, q);
            match node_at(s, q) {
                Option::Some(TokenV::Elem { tag, attrs: _, children }) => {
                    lemma_replace_at_concat(
                        t,
                        p,
                        q,
                        TokenV::Elem { tag, attrs: new_attributes, children },
                    );
                },
                _ => {},
            }
        },
        OpV::Insert { content } => {
            let qd = q.drop_last();
            assert((p + q).drop_last() =~= p + qd);
            assert((p + q).last() == q.last());
            lemma_node_at_concat(t, p, qd);
            match node_at(s, qd) {
                Option::Some(TokenV::Elem { tag, attrs, children }) => {
                    lemma_replace_at_concat(
                        t,
                        p,
                        qd,
                        TokenV::Elem {
                            tag,
                            attrs,
                            children: insert_clamped(children, q.last(), content),
                        },
                    );
                },
                _ => {},
            }
        },
        OpV::Delete => {
            let qd = q.drop_last();
            assert((p + q).drop_last() =~= p + qd);
            assert((p + q).last() == q.last());
            lemma_node_at_concat(t, p, qd);
            match node_at(s, qd) {
                Option::Some(TokenV::Elem { tag, attrs, children }) => {
                    if (q.last() as int) < children.len() {
                        lemma_replace_at_concat(
                            t,
                            p,
                            qd,
                            TokenV::Elem {
                                tag,
                                attrs,
                                children: children.remove(q.last() as int),
                            },
                        );
                    }
                },
                _ => {},
            }
        },
    }
}

/// A one-entry patch is its one operation.
pub proof fn lemma_apply_ops_single(t: TokenV, entry: EntryV)
    ensures
        apply_ops(t, seq![entry]) == apply_op(t, entry.path, entry.op),
{
    let s = seq![entry];
    assert(s[0] == entry);
    assert(s.drop_first() =~= Seq::<EntryV>::empty());
    match apply_op(t, entry.path, entry.op) {
        Option::Some(t1) => {
            assert(apply_ops(t1, Seq::<EntryV>::empty()) == Some(t1));
        },
        Option::None => {},
    }
}

/// The child list during pairwise diffing: entries from `i` up to `m`
/// already carry the new children, the rest still carry `cs`.
pub open spec fn merge_children(cs: Seq<TokenV>, nc: Seq<TokenV>, i: int, m: int) -> Seq<TokenV> {
    Seq::new(cs.len() as nat, |j: int| if i <= j < m { nc[j] } else { cs[j] })
}

/// Applying the `Insert` run for `nc[i..]` to an element whose child list
/// is `nc.take(i)` extends that list to exactly `nc`.
proof fn lemma_apply_inserts(
    t: TokenV,
    p: Seq<usize>,
    tag: Seq<char>,
    attrs: Seq<(Seq<char>, Seq<char>)>,
    cs: Seq<TokenV>,
    nc: Seq<TokenV>,
    i: int,
)
    requires
        node_at(t, p) == Some(TokenV::Elem { tag, attrs, children: cs }),
        0 <= i <= nc.len(),
        nc.len() <= usize::MAX,
        cs == nc.take(i),
    ensures
        apply_ops(t, spec_inserts(p, nc, i)) == Some(
            replace_at(t, p, TokenV::Elem { tag, attrs, children: nc }),
        ),
    decreases nc.len() - i,
{
    let e = TokenV::Elem { tag, attrs, children: cs };
    if i == nc.len() {
        assert(cs =~= nc);
        lemma_replace_at_same(t, p);
    } else {
        let q = seq![i as usize];
        let entry = EntryV { path: p.push(i as usize), op: OpV::Insert { content: nc[i] } };
        assert(p.push(i as usize) =~= p + q);
        assert(q.drop_last() =~= Seq::<usize>::empty());
        assert(q.last() == i as usize);
        assert(node_at(e, Seq::<usize>::empty()) == Some(e));
        let cs1 = insert_clamped(cs, i as usize, nc[i]);
        let e1 = TokenV::Elem { tag, attrs, children: cs1 };
        assert(replace_at(e, Seq::<usize>::empty(), e1) == e1);
        assert(apply_op(e, q, entry.op) == Some(e1));
        lemma_apply_op_lift(t, p, e, q, entry.op);
        let t1 = replace_at(t, p, e1);
        assert(apply_op(t, entry.path, entry.op) == Some(t1));
        assert(cs1 =~= nc.take(i + 1));
        lemma_node_at_replace_at(t, p, e1);
        lemma_apply_inserts(t1, p, tag, attrs, cs1, nc, i + 1);
        lemma_replace_at_twice(t, p, e1, TokenV::Elem { tag, attrs, children: nc });
        let rest = spec_inserts(p, nc, i + 1);
        lemma_apply_ops_single(t, entry);
        lemma_apply_ops_concat(t, seq![entry], rest);
        assert(seq![entry] + rest =~= spec_inserts(p, nc, i));
    }
}

/// Applying the descending `Delete` run for indices `hi` down to `keep`
/// to an element with `hi + 1` children truncates its child list to the
/// first `keep`.
proof fn lemma_apply_deletes(
    t: TokenV,
    p: Seq<usize>,
    tag: Seq<char>,
    attrs: Seq<(Seq<char>, Seq<char>)>,
    cs: Seq<TokenV>,
    keep: int,
    hi: int,
)
    requires
        node_at(t, p) == Some(TokenV::Elem { tag, attrs, children: cs }),
        0 <= keep,
        keep - 1 <= hi,
        cs.len() == hi + 1,
        cs.len() <= usize::MAX,
    ensures
        apply_ops(t, spec_deletes(p, hi, keep)) == Some(
            replace_at(t, p, TokenV::Elem { tag, attrs, children: cs.take(keep) }),
        ),
    decreases hi - keep + 1,
{
    let e = TokenV::Elem { tag, attrs, children: cs };
    if hi < keep {
        assert(cs.take(keep) =~= cs);
        lemma_replace_at_same(t, p);
    } else {
        let q = seq![hi as usize];
        let entry = EntryV { path: p.push(hi as usize), op: OpV::Delete };
        assert(p.push(hi as usize) =~= p + q);
        assert(q.drop_last() =~= Seq::<usize>::empty());
        assert(q.last() == hi as usize);
        assert(node_at(e, Seq::<usize>::empty()) == Some(e));
        let cs1 = cs.remove(hi);
        let e1 = TokenV::Elem { tag, attrs, children: cs1 };
        assert(replace_at(e, Seq::<usize>::empty(), e1) == e1);
        assert(apply_op(e, q, entry.op) == Some(e1));
        lemma_apply_op_lift(t, p, e, q, entry.op);
        let t1 = replace_at(t, p, e1);
        assert(apply_op(t, entry.path, entry.op) == Some(t1));
        assert(cs1 =~= cs.take(hi));
        lemma_node_at_replace_at(t, p, e1);
        lemma_apply_deletes(t1, p, tag, attrs, cs1, keep, hi - 1);
        assert(cs1.take(keep) =~= cs.take(keep));
        lemma_replace_at_twice(t, p, e1, TokenV::Elem { tag, attrs, children: cs.take(keep) });
        let rest = spec_deletes(p, hi - 1, keep);
        lemma_apply_ops_single(t, entry);
        lemma_apply_ops_concat(t, seq![entry], rest);
        assert(seq![entry] + rest =~= spec_deletes(p, hi, keep));
    }
}

/// Applying the attribute entries for `(oa, na)` to an element whose
/// attribute list is `oa` rewrites it to `na`.
proof fn lemma_apply_attrs(
    t: TokenV,
    p: Seq<usize>,
    tag: Seq<char>,
    oa: Seq<(Seq<char>, Seq<char>)>,
    na: Seq<(Seq<char>, Seq<char>)>,
    cs: Seq<TokenV>,
)
    requires
        node_at(t, p) == Some(TokenV::Elem { tag, attrs: oa, children: cs }),
    ensures
        apply_ops(t, spec_attr_entries(p, oa, na)) == Some(
            replace_at(t, p, TokenV::Elem { tag, attrs: na, children: cs }),
        ),
{
    if oa == na {
        lemma_replace_at_same(t, p);
    } else {
        let entry = EntryV { path: p, op: OpV::UpdateAttributes { new_attributes: na } };
        lemma_apply_ops_single(t, entry);
    }
}

/// Applying the pairwise child diffs from `i` on rewrites the shared
/// child positions from `i` up to the shorter length to the new children.
proof fn lemma_apply_pairs(
    t: TokenV,
    p: Seq<usize>,
    tag: Seq<char>,
    attrs: Seq<(Seq<char>, Seq<char>)>,
    cs: Seq<TokenV>,
    oc: Seq<TokenV>,
    nc: Seq<TokenV>,
    i: int,
)
    requires
        node_at(t, p) == Some(TokenV::Elem { tag, attrs, children: cs }),
        cs.len() == oc.len(),
        oc.len() <= usize::MAX,
        0 <= i <= min(oc.len() as int, nc.len() as int),
        forall|j: int| i <= j < oc.len() ==> cs[j] == oc[j],
        forall|j: int| 0 <= j < oc.len() ==> bounded(#[trigger] oc[j]),
        forall|j: int| 0 <= j < nc.len() ==> bounded(#[trigger] nc[j]),
    ensures
        apply_ops(t, spec_diff_pairs(p, oc, nc, i)) == Some(
            replace_at(
                t,
                p,
                TokenV::Elem {
                    tag,
                    attrs,
                    children: merge_children(cs, nc, i, min(oc.len() as int, nc.len() as int)),
                },
            ),
        ),
    decreases oc, 0int, min(oc.len() as int, nc.len() as int) - i,
{
    let m = min(oc.len() as int, nc.len() as int);
    let e = TokenV::Elem { tag, attrs, children: cs };
    if i == m {
        assert(merge_children(cs, nc, i, m) =~= cs);
        lemma_replace_at_same(t, p);
    } else {
        let q = seq![i as usize];
        assert(p.push(i as usize) =~= p + q);
        lemma_node_at_single(e, i as usize);
        assert(node_at(e, q) == Some(cs[i]));
        lemma_node_at_concat(t, p, q);
        assert(node_at(t, p.push(i as usize)) == Some(oc[i]));
        lemma_spec_diff_applies(t, p.push(i as usize), oc[i], nc[i]);
        let head = spec_diff(p.push(i as usize), oc[i], nc[i]);
        let t1 = replace_at(t, p.push(i as usize), nc[i]);
        assert(apply_ops(t, head) == Some(t1));
        lemma_replace_at_concat(t, p, q, nc[i]);
        lemma_replace_at_single(e, i as usize, nc[i]);
        let e1 = TokenV::Elem { tag, attrs, children: cs.update(i, nc[i]) };
        assert(replace_at(e, q, nc[i]) == e1);
        assert(t1 == replace_at(t, p, e1));
        lemma_node_at_replace_at(t, p, e1);
        lemma_apply_pairs(t1, p, tag, attrs, cs.update(i, nc[i]), oc, nc, i + 1);
        assert(merge_children(cs.update(i, nc[i]), nc, i + 1, m) =~= merge_children(cs, nc, i, m));
        lemma_replace_at_twice(
            t,
            p,
            e1,
            TokenV::Elem { tag, attrs, children: merge_children(cs, nc, i, m) },
        );
        lemma_apply_ops_concat(t, head, spec_diff_pairs(p, oc, nc, i + 1));
    }
}

/// The central theorem: the diff of the subtree at `p` against `b`, applied
/// in order, resolves at every step and rewrites that subtree to exactly
/// `b`.
pub proof fn lemma_spec_diff_applies(t: TokenV, p: Seq<usize>, a: TokenV, b: TokenV)
    requires
        node_at(t, p) == Some(a),
        bounded(a),
        bounded(b),
    ensures
        apply_ops(t, spec_diff(p, a, b)) == Some(replace_at(t, p, b)),
    decreases a, 1int, 0int,
{
    match (a, b) {
        (
            TokenV::Elem { tag: otag, attrs: oattrs, children: oc },
            TokenV::Elem { tag: ntag, attrs: nattrs, children: nc },
        ) => {
            if otag == ntag {
                let m = min(oc.len() as int, nc.len() as int);
                let pairs = spec_diff_pairs(p, oc, nc, 0);
                let ins = spec_inserts(p, nc, oc.len() as int);
                let del = spec_deletes(p, oc.len() - 1, nc.len() as int);
                let att = spec_attr_entries(p, oattrs, nattrs);
                lemma_apply_pairs(t, p, otag, oattrs, oc, oc, nc, 0);
                let m1 = merge_children(oc, nc, 0, m);
                let em = TokenV::Elem { tag: otag, attrs: oattrs, children: m1 };
                let t1 = replace_at(t, p, em);
                lemma_node_at_replace_at(t, p, em);
                let en = TokenV::Elem { tag: otag, attrs: oattrs, children: nc };
                let t2 = replace_at(t, p, en);
                if oc.len() <= nc.len() {
                    assert(m1 =~= nc.take(oc.len() as int));
                    lemma_apply_inserts(t1, p, otag, oattrs, m1, nc, oc.len() as int);
                    lemma_replace_at_twice(t, p, em, en);
                    assert(apply_ops(t1, ins) == Some(t2));
                    assert(apply_ops(t2, del) == Some(t2));
                } else {
                    assert(apply_ops(t1, ins) == Some(t1));
                    lemma_apply_deletes(t1, p, otag, oattrs, m1, nc.len() as int, oc.len() - 1);
                    assert(m1.take(nc.len() as int) =~= nc);
                    lemma_replace_at_twice(t, p, em, en);
                    assert(apply_ops(t1, del) == Some(t2));
                }
                lemma_node_at_replace_at(t, p, en);
                lemma_apply_attrs(t2, p, otag, oattrs, nattrs, nc);
                lemma_replace_at_twice(t, p, en, b);
                assert(TokenV::Elem { tag: otag, attrs: nattrs, children: nc } == b);
                assert(apply_ops(t2, att) == Some(replace_at(t, p, b)));
                lemma_apply_ops_concat(t, pairs, ins);
                lemma_apply_ops_concat(t, pairs + ins, del);
                lemma_apply_ops_concat(t, pairs + ins + del, att);
            } else {
                let entry = EntryV { path: p, op: OpV::Replace { content: b } };
                lemma_apply_ops_single(t, entry);
            }
        },
        (TokenV::Text { text: ot }, TokenV::Text { text: nt }) => {
            if ot == nt {
                lemma_replace_at_same(t, p);
            } else {
                let entry = EntryV { path: p, op: OpV::Replace { content: b } };
                lemma_apply_ops_single(t, entry);
            }
        },
        _ => {
            let entry = EntryV { path: p, op: OpV::Replace { content: b } };
            lemma_apply_ops_single(t, entry);
        },
    }
}

/// The diff of two snapshots, applied to the first, yields the second:
/// stated at the root, over whole trees.
pub proof fn lemma_diff_then_apply(a: TokenV, b: TokenV)
    requires
        bounded(a),
        bounded(b),
    ensures
        apply_ops(a, spec_diff(Seq::empty(), a, b)) == Some(b),
{
    lemma_spec_diff_applies(a, Seq::empty(), a, b);
}

} // verus!
