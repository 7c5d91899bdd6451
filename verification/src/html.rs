//! Markup for snapshots.
//!
//! A patch payload that crosses to a host document does so as markup: one
//! string per `Replace` or `Insert` content, and the whole initial render
//! when a session mounts. [`inner_html_of`] says what that string is;
//! [`BareToken::as_inner_html`] produces it.
//!
//! The layout is the usual one: `<tag k="v">…children…</tag>` for an
//! element, the text itself for a text node. Attribute values are emitted
//! as they stand; escaping is the renderer's concern, not this crate's.

use vstd::prelude::*;

use crate::tree::attrs_view;
use crate::tree::BareToken;
use crate::tree::TokenV;

verus! {

/// The markup of an attribute list: one ` k="v"` chunk per entry.
pub open spec fn attrs_markup(attrs: Seq<(Seq<char>, Seq<char>)>) -> Seq<char>
    decreases attrs.len(),
{
    if attrs.len() == 0 {
        Seq::empty()
    } else {
        seq![' '] + attrs[0].0 + seq!['=', '"'] + attrs[0].1 + seq!['"'] + attrs_markup(
            attrs.drop_first(),
        )
    }
}

/// The markup of a snapshot tree.
pub open spec fn inner_html_of(t: TokenV) -> Seq<char>
    decreases t, 1int,
{
    match t {
        TokenV::Elem { tag, attrs, children } => seq!['<'] + tag + attrs_markup(attrs)
            + seq!['>'] + children_markup(children) + seq!['<', '/'] + tag + seq!['>'],
        TokenV::Text { text } => text,
    }
}

/// The markup of a child list, in order.
pub open spec fn children_markup(cs: Seq<TokenV>) -> Seq<char>
    decreases cs, 0int,
{
    if cs.len() == 0 {
        Seq::empty()
    } else {
        inner_html_of(cs[0]) + children_markup(cs.drop_first())
    }
}

/// Attribute markup grows at the end, chunk by chunk.
proof fn lemma_attrs_markup_push(attrs: Seq<(Seq<char>, Seq<char>)>, a: (Seq<char>, Seq<char>))
    ensures
        attrs_markup(attrs.push(a)) == attrs_markup(attrs) + seq![' '] + a.0 + seq!['=', '"']
            + a.1 + seq!['"'],
    decreases attrs.len(),
{
    if attrs.len() == 0 {
        assert(attrs.push(a)[0] == a);
        assert(attrs.push(a).drop_first() =~= Seq::<(Seq<char>, Seq<char>)>::empty());
        assert(attrs_markup(Seq::<(Seq<char>, Seq<char>)>::empty()) == Seq::<char>::empty());
        assert(attrs_markup(attrs.push(a)) =~= attrs_markup(attrs) + seq![' '] + a.0 + seq![
            '=',
            '"',
        ] + a.1 + seq!['"']);
    } else {
        assert(attrs.push(a)[0] == attrs[0]);
        assert(attrs.push(a).drop_first() =~= attrs.drop_first().push(a));
        lemma_attrs_markup_push(attrs.drop_first(), a);
        assert(attrs_markup(attrs.push(a)) =~= attrs_markup(attrs) + seq![' '] + a.0 + seq![
            '=',
            '"',
        ] + a.1 + seq!['"']);
    }
}

/// Child markup grows at the end, subtree by subtree.
proof fn lemma_children_markup_push(cs: Seq<TokenV>, c: TokenV)
    ensures
        children_markup(cs.push(c)) == children_markup(cs) + inner_html_of(c),
    decreases cs.len(),
{
    if cs.len() == 0 {
        assert(cs.push(c)[0] == c);
        assert(cs.push(c).drop_first() =~= Seq::<TokenV>::empty());
        assert(children_markup(Seq::<TokenV>::empty()) == Seq::<char>::empty());
        assert(children_markup(cs.push(c)) =~= children_markup(cs) + inner_html_of(c));
    } else {
        assert(cs.push(c)[0] == cs[0]);
        assert(cs.push(c).drop_first() =~= cs.drop_first().push(c));
        lemma_children_markup_push(cs.drop_first(), c);
        assert(children_markup(cs.push(c)) =~= children_markup(cs) + inner_html_of(c));
    }
}

impl BareToken {
    /// The markup of this snapshot: what a host document consumes when a
    /// patch payload or an initial render crosses to it.
    #[verifier::loop_isolation(false)]
    #[verifier::rlimit(60)]
    pub fn as_inner_html(&self) -> (r: String)
        ensures
            r@ == inner_html_of(self@),
        decreases self,
    {
        proof {
            reveal_strlit("<");
            reveal_strlit(">");
            reveal_strlit("</");
            reveal_strlit(" ");
            reveal_strlit("=\"");
            reveal_strlit("\"");
        }
        match self {
            BareToken::Elem { tag, attrs, children } => {
                let ghost tv = self@;
                let mut out = String::new();
                out.append("<");
                out.append(tag.as_str());
                proof {
                    assert(out@ =~= seq!['<'] + tag@);
                }
                let mut i: usize = 0;
                while i < attrs.len()
                    invariant
                        i <= attrs@.len(),
                        out@ == seq!['<'] + tag@ + attrs_markup(attrs_view(attrs@).take(i as int)),
                    decreases attrs@.len() - i,
                {
                    let pair = &attrs[i];
                    out.append(" ");
                    out.append(pair.0.as_str());
                    out.append("=\"");
                    out.append(pair.1.as_str());
                    out.append("\"");
                    proof {
                        let av = attrs_view(attrs@);
                        lemma_attrs_markup_push(av.take(i as int), av[i as int]);
                        assert(av.take(i as int).push(av[i as int]) =~= av.take(i + 1));
                        assert(out@ =~= seq!['<'] + tag@ + attrs_markup(av.take(i + 1)));
                    }
                    i += 1;
                }
                proof {
                    assert(attrs_view(attrs@).take(attrs@.len() as int) =~= attrs_view(attrs@));
                }
                out.append(">");
                let ghost head = out@;
                let mut k: usize = 0;
                while k < children.len()
                    invariant
                        k <= children@.len(),
                        out@ == head + children_markup(tv->Elem_children.take(k as int)),
                    decreases children@.len() - k,
                {
                    let chunk = children[k].as_inner_html();
                    out.append(chunk.as_str());
                    proof {
                        let cv = tv->Elem_children;
                        assert(chunk@ == inner_html_of(cv[k as int]));
                        lemma_children_markup_push(cv.take(k as int), cv[k as int]);
                        assert(cv.take(k as int).push(cv[k as int]) =~= cv.take(k + 1));
                        assert(out@ =~= head + children_markup(cv.take(k + 1)));
                    }
                    k += 1;
                }
                proof {
                    assert(tv->Elem_children.take(children@.len() as int) =~= tv->Elem_children);
                }
                out.append("</");
                out.append(tag.as_str());
                out.append(">");
                proof {
                    assert(out@ =~= inner_html_of(self@));
                }
                out
            },
            BareToken::Text { text } => text.clone(),
        }
    }
}

} // verus!
