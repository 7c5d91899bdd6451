//! The diff engine.
//!
//! [`spec_diff`] is the mathematical description of the algorithm: two
//! reduced snapshots are compared positionally, and an ordered list of
//! patch entries comes out. [`BareToken::get_diff_with`] is the executable
//! engine, proved to emit exactly that list.
//!
//! The algorithm, at each node pair:
//! - both elements with the same tag: the children are diffed pairwise by
//!   index up to the shorter length; an `Insert` is emitted for every new
//!   trailing child, in ascending index order; a `Delete` for every old
//!   trailing child, in descending index order, so that earlier deletions
//!   do not shift the positional meaning of later ones; and one
//!   `UpdateAttributes` carrying the complete new attribute list where the
//!   attribute lists differ.
//! - both text nodes with equal content: nothing.
//! - anything else: one `Replace` carrying the new node whole, with no
//!   descent into the replaced subtree. At the root the `Replace` targets
//!   the empty path.

use vstd::prelude::*;
use vstd::math::min;

use crate::tree::attrs_eq;
use crate::tree::attrs_view;
use crate::tree::clone_attrs;
use crate::tree::BareToken;
use crate::tree::TokenV;

verus! {

/// Mathematical form of one patch operation.
#[verifier::ext_equal]
pub enum OpV {
    Replace { content: TokenV },
    Insert { content: TokenV },
    Delete,
    UpdateAttributes { new_attributes: Seq<(Seq<char>, Seq<char>)> },
}

/// Mathematical form of one patch entry: an operation addressed at a
/// root-relative positional path.
#[verifier::ext_equal]
pub struct EntryV {
    pub path: Seq<usize>,
    pub op: OpV,
}

/// One patch operation. `Replace` and `Insert` carry the new subtree
/// whole; `UpdateAttributes` carries the complete new attribute list, not
/// a delta.
pub enum DiffOperation {
    Replace { content: BareToken },
    Insert { content: BareToken },
    Delete,
    UpdateAttributes { new_attributes: Vec<(String, String)> },
}

/// One patch entry.
pub struct DiffEntry {
    pub path: Vec<usize>,
    pub op: DiffOperation,
}

/// An ordered patch: operations are applied in listed order.
pub type Diff = Vec<DiffEntry>;

impl View for DiffOperation {
    type V = OpV;

    open spec fn view(&self) -> OpV {
        match self {
            DiffOperation::Replace { content } => OpV::Replace { content: content@ },
            DiffOperation::Insert { content } => OpV::Insert { content: content@ },
            DiffOperation::Delete => OpV::Delete,
            DiffOperation::UpdateAttributes { new_attributes } => OpV::UpdateAttributes {
                new_attributes: attrs_view(new_attributes@),
            },
        }
    }
}

impl View for DiffEntry {
    type V = EntryV;

    open spec fn view(&self) -> EntryV {
        EntryV { path: self.path@, op: self.op@ }
    }
}

/// The entries of an executable patch, as specifications see them.
pub open spec fn patch_view(d: Seq<DiffEntry>) -> Seq<EntryV> {
    Seq::new(d.len(), |i: int| d[i]@)
}

/// The pairwise child diffs for indices `i` and beyond, up to the shorter
/// child count.
pub open spec fn spec_diff_pairs(
    path: Seq<usize>,
    oc: Seq<TokenV>,
    nc: Seq<TokenV>,
    i: int,
) -> Seq<EntryV>
    decreases oc, 0int, min(oc.len() as int, nc.len() as int) - i,
{
    if 0 <= i < min(oc.len() as int, nc.len() as int) {
        spec_diff(path.push(i as usize), oc[i], nc[i]) + spec_diff_pairs(path, oc, nc, i + 1)
    } else {
        Seq::empty()
    }
}

/// `Insert` entries for the new trailing children `nc[i..]`, ascending.
pub open spec fn spec_inserts(path: Seq<usize>, nc: Seq<TokenV>, i: int) -> Seq<EntryV>
    decreases nc.len() - i,
{
    if 0 <= i < nc.len() {
        seq![EntryV { path: path.push(i as usize), op: OpV::Insert { content: nc[i] } }]
            + spec_inserts(path, nc, i + 1)
    } else {
        Seq::empty()
    }
}

/// `Delete` entries for the old trailing child indices `hi` down to `lo`,
/// strictly descending.
pub open spec fn spec_deletes(path: Seq<usize>, hi: int, lo: int) -> Seq<EntryV>
    decreases hi - lo + 1,
{
    if 0 <= lo <= hi {
        seq![EntryV { path: path.push(hi as usize), op: OpV::Delete }]
            + spec_deletes(path, hi - 1, lo)
    } else {
        Seq::empty()
    }
}

/// The one `UpdateAttributes` entry where the attribute lists differ,
/// nothing where they are equal.
pub open spec fn spec_attr_entries(
    path: Seq<usize>,
    oa: Seq<(Seq<char>, Seq<char>)>,
    na: Seq<(Seq<char>, Seq<char>)>,
) -> Seq<EntryV> {
    if oa == na {
        Seq::empty()
    } else {
        seq![EntryV { path, op: OpV::UpdateAttributes { new_attributes: na } }]
    }
}

/// The diff of `old` against `new` at `path`: the ordered entries that,
/// applied in order, turn the subtree `old` at `path` into `new`.
pub open spec fn spec_diff(path: Seq<usize>, old: TokenV, new: TokenV) -> Seq<EntryV>
    decreases old, 1int, 0int,
{
    match (old, new) {
        (
            TokenV::Elem { tag: otag, attrs: oattrs, children: oc },
            TokenV::Elem { tag: ntag, attrs: nattrs, children: nc },
        ) => {
            if otag == ntag {
                spec_diff_pairs(path, oc, nc, 0) + spec_inserts(path, nc, oc.len() as int)
                    + spec_deletes(path, oc.len() - 1, nc.len() as int)
                    + spec_attr_entries(path, oattrs, nattrs)
            } else {
                seq![EntryV { path, op: OpV::Replace { content: new } }]
            }
        },
        (TokenV::Text { text: ot }, TokenV::Text { text: nt }) => {
            if ot == nt {
                Seq::empty()
            } else {
                seq![EntryV { path, op: OpV::Replace { content: new } }]
            }
        },
        _ => seq![EntryV { path, op: OpV::Replace { content: new } }],
    }
}

/// `spec_diff` at a same-tag element pair, written out as its four runs.
proof fn lemma_diff_unfold_elems(path: Seq<usize>, a: TokenV, b: TokenV)
    requires
        a is Elem,
        b is Elem,
        a->Elem_tag == b->Elem_tag,
    ensures
        spec_diff(path, a, b) == spec_diff_pairs(path, a->Elem_children, b->Elem_children, 0)
            + spec_inserts(path, b->Elem_children, a->Elem_children.len() as int)
            + spec_deletes(path, a->Elem_children.len() - 1, b->Elem_children.len() as int)
            + spec_attr_entries(path, a->Elem_attrs, b->Elem_attrs),
{
}

/// `spec_diff` at a pair of equal text nodes is empty.
proof fn lemma_diff_unfold_text_eq(path: Seq<usize>, a: TokenV, b: TokenV)
    requires
        a is Text,
        b is Text,
        a->Text_text == b->Text_text,
    ensures
        spec_diff(path, a, b) == Seq::<EntryV>::empty(),
{
}

/// `spec_diff` at a pair that cannot be matched in place is one `Replace`.
proof fn lemma_diff_unfold_replace(path: Seq<usize>, a: TokenV, b: TokenV)
    requires
        !(a is Elem && b is Elem && a->Elem_tag == b->Elem_tag),
        !(a is Text && b is Text && a->Text_text == b->Text_text),
    ensures
        spec_diff(path, a, b) == seq![EntryV { path, op: OpV::Replace { content: b } }],
{
}

/// A copy of `path`.
pub(crate) fn clone_path(path: &Vec<usize>) -> (r: Vec<usize>)
    ensures
        r@ == path@,
{
    let mut r: Vec<usize> = Vec::new();
    let mut k: usize = 0;
    while k < path.len()
        invariant
            k <= path@.len(),
            r@ == path@.take(k as int),
        decreases path@.len() - k,
    {
        let x = path[k];
        r.push(x);
        proof {
            assert(path@.take(k as int).push(path@[k as int]) =~= path@.take(k + 1 as int));
        }
        k += 1;
    }
    proof {
        assert(path@.take(path@.len() as int) =~= path@);
    }
    r
}

/// A copy of `path` with one more index at its end.
fn path_with(path: &Vec<usize>, i: usize) -> (r: Vec<usize>)
    ensures
        r@ == path@.push(i),
{
    let mut r = clone_path(path);
    r.push(i);
    r
}

/// Emits onto `out` the diff of `old_t` against `new_t`, with every entry
/// addressed below `path`.
#[verifier::loop_isolation(false)]
#[verifier::rlimit(100)]
fn diff_at(path: &Vec<usize>, old_t: &BareToken, new_t: &BareToken, out: &mut Vec<DiffEntry>)
    ensures
        patch_view(final(out)@) == patch_view(old(out)@) + spec_diff(path@, old_t@, new_t@),
    decreases old_t,
{
    let ghost out0 = out@;
    match (old_t, new_t) {
        (
            BareToken::Elem { tag: otag, attrs: oattrs, children: oc },
            BareToken::Elem { tag: ntag, attrs: nattrs, children: nc },
        ) => {
            proof {
                assert(old_t@ matches TokenV::Elem { tag, .. } && tag == otag@);
                assert(new_t@ matches TokenV::Elem { tag, .. } && tag == ntag@);
                assert(old_t@->Elem_attrs == attrs_view(oattrs@));
                assert(new_t@->Elem_attrs == attrs_view(nattrs@));
            }
            if *otag == *ntag {
                let ghost ocv = old_t@->Elem_children;
                let ghost ncv = new_t@->Elem_children;
                let min_len: usize = if oc.len() < nc.len() {
                    oc.len()
                } else {
                    nc.len()
                };
                proof {
                    assert(min_len as int == min(ocv.len() as int, ncv.len() as int));
                }
                let mut i: usize = 0;
                while i < min_len
                    invariant
                        i <= min_len,
                        patch_view(out@) + spec_diff_pairs(path@, ocv, ncv, i as int)
                            == patch_view(out0) + spec_diff_pairs(path@, ocv, ncv, 0),
                    decreases min_len - i,
                {
                    let cpath = path_with(path, i);
                    let ghost before = out@;
                    diff_at(&cpath, &oc[i], &nc[i], out);
                    proof {
                        let head = spec_diff(path@.push(i), ocv[i as int], ncv[i as int]);
                        assert(oc@[i as int]@ == ocv[i as int]);
                        assert(nc@[i as int]@ == ncv[i as int]);
                        assert(patch_view(out@) == patch_view(before) + head);
                        assert((patch_view(before) + head) + spec_diff_pairs(
                            path@,
                            ocv,
                            ncv,
                            i + 1,
                        ) =~= patch_view(before) + (head + spec_diff_pairs(path@, ocv, ncv, i + 1)));
                    }
                    i += 1;
                }
                proof {
                    assert(patch_view(out@) + Seq::<EntryV>::empty() =~= patch_view(out@));
                    assert(patch_view(out@) == patch_view(out0) + spec_diff_pairs(
                        path@,
                        ocv,
                        ncv,
                        0,
                    ));
                }
                let ghost out1 = out@;
                let mut i2: usize = oc.len();
                while i2 < nc.len()
                    invariant
                        oc@.len() <= i2 as int,
                        patch_view(out@) + spec_inserts(path@, ncv, i2 as int) == patch_view(out1)
                            + spec_inserts(path@, ncv, ocv.len() as int),
                    decreases nc@.len() - i2,
                {
                    let cpath = path_with(path, i2);
                    let content = nc[i2].clone_token();
                    let ghost before = out@;
                    let entry = DiffEntry {
                        path: cpath,
                        op: DiffOperation::Insert { content },
                    };
                    out.push(entry);
                    proof {
                        let head = EntryV {
                            path: path@.push(i2),
                            op: OpV::Insert { content: ncv[i2 as int] },
                        };
                        assert(patch_view(out@) =~= patch_view(before) + seq![head]);
                        assert((patch_view(before) + seq![head]) + spec_inserts(
                            path@,
                            ncv,
                            i2 + 1,
                        ) =~= patch_view(before) + (seq![head] + spec_inserts(path@, ncv, i2 + 1)));
                    }
                    i2 += 1;
                }
                proof {
                    assert(patch_view(out@) + Seq::<EntryV>::empty() =~= patch_view(out@));
                    assert(patch_view(out@) == patch_view(out1) + spec_inserts(
                        path@,
                        ncv,
                        ocv.len() as int,
                    ));
                }
                let ghost out2 = out@;
                let ghost lo = ncv.len() as int;
                let mut j: usize = oc.len();
                while j > nc.len()
                    invariant
                        (ncv.len() <= j as int && j as int <= ocv.len()) || j as int == ocv.len(),
                        patch_view(out@) + spec_deletes(path@, j - 1, lo) == patch_view(out2)
                            + spec_deletes(path@, ocv.len() - 1, lo),
                    decreases j,
                {
                    j -= 1;
                    let cpath = path_with(path, j);
                    let ghost before = out@;
                    let entry = DiffEntry { path: cpath, op: DiffOperation::Delete };
                    out.push(entry);
                    proof {
                        let head = EntryV { path: path@.push(j), op: OpV::Delete };
                        assert(patch_view(out@) =~= patch_view(before) + seq![head]);
                        assert((patch_view(before) + seq![head]) + spec_deletes(
                            path@,
                            j - 1,
                            lo,
                        ) =~= patch_view(before) + (seq![head] + spec_deletes(path@, j - 1, lo)));
                    }
                }
                proof {
                    assert(spec_deletes(path@, j - 1, lo) =~= Seq::<EntryV>::empty());
                    assert(patch_view(out@) + Seq::<EntryV>::empty() =~= patch_view(out@));
                    assert(patch_view(out@) == patch_view(out2) + spec_deletes(
                        path@,
                        ocv.len() - 1,
                        lo,
                    ));
                }
                let ghost out3 = out@;
                if !attrs_eq(oattrs, nattrs) {
                    let cpath = clone_path(path);
                    let new_attributes = clone_attrs(nattrs);
                    out.push(
                        DiffEntry {
                            path: cpath,
                            op: DiffOperation::UpdateAttributes { new_attributes },
                        },
                    );
                    proof {
                        let head = EntryV {
                            path: path@,
                            op: OpV::UpdateAttributes { new_attributes: attrs_view(nattrs@) },
                        };
                        assert(patch_view(out@) =~= patch_view(out3) + seq![head]);
                    }
                } else {
                    proof {
                        assert(patch_view(out@) + Seq::<EntryV>::empty() =~= patch_view(out@));
                    }
                }
                proof {
                    let pairs = spec_diff_pairs(path@, ocv, ncv, 0);
                    let ins = spec_inserts(path@, ncv, ocv.len() as int);
                    let del = spec_deletes(path@, ocv.len() - 1, lo);
                    let att = spec_attr_entries(
                        path@,
                        attrs_view(oattrs@),
                        attrs_view(nattrs@),
                    );
                    assert(patch_view(out@) =~= patch_view(out0) + (pairs + ins + del + att));
                    lemma_diff_unfold_elems(path@, old_t@, new_t@);
                }
            } else {
                let cpath = clone_path(path);
                let content = new_t.clone_token();
                out.push(DiffEntry { path: cpath, op: DiffOperation::Replace { content } });
                proof {
                    lemma_diff_unfold_replace(path@, old_t@, new_t@);
                    assert(patch_view(out@) =~= patch_view(out0) + spec_diff(
                        path@,
                        old_t@,
                        new_t@,
                    ));
                }
            }
        },
        (BareToken::Text { text: otext }, BareToken::Text { text: ntext }) => {
            proof {
                assert(old_t@ matches TokenV::Text { text } && text == otext@);
                assert(new_t@ matches TokenV::Text { text } && text == ntext@);
            }
            if *otext == *ntext {
                proof {
                    lemma_diff_unfold_text_eq(path@, old_t@, new_t@);
                    assert(patch_view(out@) =~= patch_view(out0) + spec_diff(
                        path@,
                        old_t@,
                        new_t@,
                    ));
                }
            } else {
                let cpath = clone_path(path);
                let content = new_t.clone_token();
                out.push(DiffEntry { path: cpath, op: DiffOperation::Replace { content } });
                proof {
                    lemma_diff_unfold_replace(path@, old_t@, new_t@);
                    assert(patch_view(out@) =~= patch_view(out0) + spec_diff(
                        path@,
                        old_t@,
                        new_t@,
                    ));
                }
            }
        },
        _ => {
            let cpath = clone_path(path);
            let content = new_t.clone_token();
            out.push(DiffEntry { path: cpath, op: DiffOperation::Replace { content } });
            proof {
                lemma_diff_unfold_replace(path@, old_t@, new_t@);
                assert(patch_view(out@) =~= patch_view(out0) + spec_diff(path@, old_t@, new_t@));
            }
        },
    }
}

impl BareToken {
    /// The ordered patch that rewrites `old_token` into `self`: the diff
    /// of the two snapshots, root-relative.
    pub fn get_diff_with(&self, old_token: &BareToken) -> (d: Diff)
        ensures
            patch_view(d@) == spec_diff(Seq::<usize>::empty(), old_token@, self@),
    {
        let path: Vec<usize> = Vec::new();
        let mut d: Diff = Vec::new();
        proof {
            assert(patch_view(d@) =~= Seq::<EntryV>::empty());
        }
        diff_at(&path, old_token, self, &mut d);
        proof {
            assert(Seq::<EntryV>::empty() + spec_diff(path@, old_token@, self@) =~= spec_diff(
                Seq::<usize>::empty(),
                old_token@,
                self@,
            ));
        }
        d
    }
}

/// Children equal from `i` up to the shorter length diff to nothing.
proof fn lemma_diff_pairs_eq_prefix(path: Seq<usize>, oc: Seq<TokenV>, nc: Seq<TokenV>, i: int)
    requires
        0 <= i,
        forall|j: int| i <= j < min(oc.len() as int, nc.len() as int) ==> oc[j] == nc[j],
    ensures
        spec_diff_pairs(path, oc, nc, i) == Seq::<EntryV>::empty(),
    decreases oc, 0int, min(oc.len() as int, nc.len() as int) - i,
{
    let m = min(oc.len() as int, nc.len() as int);
    if i < m {
        lemma_diff_self(path.push(i as usize), oc[i]);
        lemma_diff_pairs_eq_prefix(path, oc, nc, i + 1);
        assert(spec_diff_pairs(path, oc, nc, i) =~= Seq::<EntryV>::empty());
    }
}

/// Diffing any snapshot against itself yields the empty patch: the engine
/// never mutates a document that has not changed.
pub proof fn lemma_diff_self(path: Seq<usize>, a: TokenV)
    ensures
        spec_diff(path, a, a) == Seq::<EntryV>::empty(),
    decreases a, 1int, 0int,
{
    match a {
        TokenV::Elem { tag, attrs, children } => {
            lemma_diff_pairs_eq_prefix(path, children, children, 0);
            assert(spec_diff(path, a, a) =~= Seq::<EntryV>::empty());
        },
        TokenV::Text { .. } => {},
    }
}

/// The shape of a `Delete` run: entry `k` deletes child `hi - k`, so the
/// targeted indices are strictly descending.
proof fn lemma_deletes_shape(path: Seq<usize>, hi: int, lo: int)
    requires
        0 <= lo <= hi + 1,
        hi <= usize::MAX,
    ensures
        spec_deletes(path, hi, lo).len() == hi + 1 - lo,
        forall|k: int|
            0 <= k < hi + 1 - lo ==> (#[trigger] spec_deletes(path, hi, lo)[k]) == (EntryV {
                path: path.push((hi - k) as usize),
                op: OpV::Delete,
            }),
    decreases hi - lo + 1,
{
    if lo <= hi {
        lemma_deletes_shape(path, hi - 1, lo);
        let d = spec_deletes(path, hi, lo);
        let rest = spec_deletes(path, hi - 1, lo);
        assert forall|k: int| 0 <= k < hi + 1 - lo implies (#[trigger] d[k]) == EntryV {
            path: path.push((hi - k) as usize),
            op: OpV::Delete,
        } by {
            if k > 0 {
                assert(d[k] == rest[k - 1]);
            }
        }
    }
}

/// Deleting trailing children of one parent in one diff pass produces
/// exactly one `Delete` per removed child, in strictly descending index
/// order, so that earlier deletions do not shift the positions that later
/// ones still address.
pub proof fn lemma_trailing_deletes_descending(
    path: Seq<usize>,
    tag: Seq<char>,
    attrs: Seq<(Seq<char>, Seq<char>)>,
    oc: Seq<TokenV>,
    nc: Seq<TokenV>,
)
    requires
        nc.len() < oc.len(),
        oc.len() <= usize::MAX,
        nc == oc.take(nc.len() as int),
    ensures
        ({
            let d = spec_diff(
                path,
                TokenV::Elem { tag, attrs, children: oc },
                TokenV::Elem { tag, attrs, children: nc },
            );
            &&& d.len() == oc.len() - nc.len()
            &&& forall|k: int|
                0 <= k < d.len() ==> (#[trigger] d[k]) == (EntryV {
                    path: path.push((oc.len() - 1 - k) as usize),
                    op: OpV::Delete,
                })
            &&& forall|j: int, k: int|
                0 <= j < k < d.len() ==> #[trigger] d[j].path.last() > #[trigger] d[k].path.last()
        }),
{
    let old = TokenV::Elem { tag, attrs, children: oc };
    let new = TokenV::Elem { tag, attrs, children: nc };
    let d = spec_diff(path, old, new);
    lemma_diff_pairs_eq_prefix(path, oc, nc, 0);
    lemma_deletes_shape(path, oc.len() - 1, nc.len() as int);
    let dels = spec_deletes(path, oc.len() - 1, nc.len() as int);
    assert(d =~= dels);
    assert forall|j: int, k: int| 0 <= j < k < d.len() implies #[trigger] d[j].path.last()
        > #[trigger] d[k].path.last() by {
        assert(d[j].path == path.push((oc.len() - 1 - j) as usize));
        assert(d[k].path == path.push((oc.len() - 1 - k) as usize));
    }
}

} // verus!
