//! The node tree and its reduced snapshot form.
//!
//! A tree is either an element (tag, ordered attribute list, children) or a
//! text node. Child order is the sole identity mechanism: a positional path
//! (a sequence of child indices, root-relative) addresses one node, and the
//! empty path addresses the root. Sibling indices count every child, text
//! nodes included; every module of this crate uses that one convention.
//!
//! [`HtmlToken`] is the full rendered form and carries event-handler slots;
//! [`BareToken`] is the reduced snapshot used for diffing, with the handler
//! slots stripped. [`TokenV`] is the mathematical form both reduce to in
//! specifications.

use vstd::prelude::*;

verus! {

/// Mathematical form of a reduced snapshot tree: what contracts speak of.
#[verifier::ext_equal]
pub enum TokenV {
    Elem { tag: Seq<char>, attrs: Seq<(Seq<char>, Seq<char>)>, children: Seq<TokenV> },
    Text { text: Seq<char> },
}

/// A reduced snapshot: the diffable projection of a rendered tree, with
/// handler slots stripped. Attributes are an ordered association list.
pub enum BareToken {
    Elem { tag: String, attrs: Vec<(String, String)>, children: Vec<BareToken> },
    Text { text: String },
}

/// The attribute list of an element, as specifications see it.
pub open spec fn attrs_view(attrs: Seq<(String, String)>) -> Seq<(Seq<char>, Seq<char>)> {
    Seq::new(attrs.len(), |i: int| (attrs[i].0@, attrs[i].1@))
}

impl View for BareToken {
    type V = TokenV;

    open spec fn view(&self) -> TokenV
        decreases self,
    {
        match self {
            BareToken::Elem { tag, attrs, children } => TokenV::Elem {
                tag: tag@,
                attrs: attrs_view(attrs@),
                children: Seq::new(
                    children@.len(),
                    // the range test keeps the recursion well-founded
                    |i: int|
                        if 0 <= i < children@.len() {
                            children@[i]@
                        } else {
                            TokenV::Text { text: Seq::empty() }
                        },
                ),
            },
            BareToken::Text { text } => TokenV::Text { text: text@ },
        }
    }
}

/// The node a positional path addresses in `t`, descending child-by-index;
/// `None` as soon as an index is out of range or the current node is text.
/// The empty path addresses `t` itself.
pub open spec fn node_at(t: TokenV, path: Seq<usize>) -> Option<TokenV>
    decreases path.len(),
{
    if path.len() == 0 {
        Some(t)
    } else {
        match t {
            TokenV::Elem { children, .. } => {
                if (path[0] as int) < children.len() {
                    node_at(children[path[0] as int], path.drop_first())
                } else {
                    None
                }
            },
            TokenV::Text { .. } => None,
        }
    }
}

/// `t` with the node at `path` replaced by `sub`; `t` itself where the path
/// does not resolve.
pub open spec fn replace_at(t: TokenV, path: Seq<usize>, sub: TokenV) -> TokenV
    decreases path.len(),
{
    if path.len() == 0 {
        sub
    } else {
        match t {
            TokenV::Elem { tag, attrs, children } => {
                if (path[0] as int) < children.len() {
                    TokenV::Elem {
                        tag,
                        attrs,
                        children: children.update(
                            path[0] as int,
                            replace_at(children[path[0] as int], path.drop_first(), sub),
                        ),
                    }
                } else {
                    t
                }
            },
            TokenV::Text { .. } => t,
        }
    }
}

/// A copy of an attribute list, equal to the original in every entry.
pub fn clone_attrs(attrs: &Vec<(String, String)>) -> (r: Vec<(String, String)>)
    ensures
        r@ == attrs@,
{
    let mut r: Vec<(String, String)> = Vec::new();
    let mut i: usize = 0;
    while i < attrs.len()
        invariant
            i <= attrs@.len(),
            r@.len() == i as int,
            forall|j: int| 0 <= j < i ==> r@[j] == attrs@[j],
        decreases attrs@.len() - i,
    {
        let pair = &attrs[i];
        r.push((pair.0.clone(), pair.1.clone()));
        i += 1;
    }
    proof {
        assert(r@ =~= attrs@);
    }
    r
}

/// Whether two attribute lists are equal entry by entry.
pub fn attrs_eq(a: &Vec<(String, String)>, b: &Vec<(String, String)>) -> (r: bool)
    ensures
        r == (attrs_view(a@) == attrs_view(b@)),
{
    if a.len() != b.len() {
        proof {
            assert(attrs_view(a@).len() != attrs_view(b@).len());
        }
        return false;
    }
    let mut i: usize = 0;
    while i < a.len()
        invariant
            a@.len() == b@.len(),
            i <= a@.len(),
            forall|j: int| 0 <= j < i ==> attrs_view(a@)[j] == attrs_view(b@)[j],
        decreases a@.len() - i,
    {
        let pa = &a[i];
        let pb = &b[i];
        if !(pa.0 == pb.0) || !(pa.1 == pb.1) {
            proof {
                assert(attrs_view(a@)[i as int] != attrs_view(b@)[i as int]);
            }
            return false;
        }
        i += 1;
    }
    proof {
        assert(attrs_view(a@) =~= attrs_view(b@));
    }
    true
}

impl BareToken {
    /// A structural copy of the snapshot, equal in view.
    #[verifier::loop_isolation(false)]
    pub fn clone_token(&self) -> (r: BareToken)
        ensures
            r@ == self@,
        decreases self,
    {
        match self {
            BareToken::Elem { tag, attrs, children } => {
                let mut cs: Vec<BareToken> = Vec::new();
                let mut i: usize = 0;
                while i < children.len()
                    invariant
                        i <= children@.len(),
                        cs@.len() == i as int,
                        forall|j: int| 0 <= j < i ==> cs@[j]@ == children@[j]@,
                    decreases children@.len() - i,
                {
                    let c = children[i].clone_token();
                    cs.push(c);
                    i += 1;
                }
                let r = BareToken::Elem {
                    tag: tag.clone(),
                    attrs: clone_attrs(attrs),
                    children: cs,
                };
                proof {
                    assert(r@->Elem_children =~= self@->Elem_children);
                    assert(r@ =~= self@);
                }
                r
            },
            BareToken::Text { text } => BareToken::Text { text: text.clone() },
        }
    }
}

/// Every element of the tree has a child count a machine index can hold.
/// Views of executable trees always satisfy this; the diff and apply
/// theory needs it because patch entries address children by `usize`.
pub open spec fn bounded(t: TokenV) -> bool
    decreases t,
{
    match t {
        TokenV::Elem { children, .. } => children.len() <= usize::MAX && (forall|i: int|
            0 <= i < children.len() ==> bounded(#[trigger] children[i])),
        TokenV::Text { .. } => true,
    }
}

/// The view of an executable snapshot is always bounded.
pub proof fn lemma_view_bounded(t: BareToken)
    ensures
        bounded(t@),
    decreases t,
{
    match t {
        BareToken::Elem { tag, attrs, children } => {
            assert(children.len() == children@.len());
            assert forall|i: int| 0 <= i < t@->Elem_children.len() implies bounded(
                #[trigger] t@->Elem_children[i],
            ) by {
                lemma_view_bounded(children@[i]);
            }
        },
        BareToken::Text { .. } => {},
    }
}

/// Resolution at a one-index path, spelled out.
pub proof fn lemma_node_at_single(t: TokenV, i: usize)
    ensures
        node_at(t, seq![i]) == match t {
            TokenV::Elem { children, .. } => {
                if (i as int) < children.len() {
                    Some(children[i as int])
                } else {
                    None::<TokenV>
                }
            },
            TokenV::Text { .. } => None::<TokenV>,
        },
{
    assert(seq![i].drop_first() =~= Seq::<usize>::empty());
    match t {
        TokenV::Elem { children, .. } => {
            if (i as int) < children.len() {
                assert(node_at(children[i as int], Seq::<usize>::empty()) == Some(
                    children[i as int],
                ));
            }
        },
        TokenV::Text { .. } => {},
    }
}

/// Replacement at a one-index path, spelled out.
pub proof fn lemma_replace_at_single(t: TokenV, i: usize, sub: TokenV)
    ensures
        replace_at(t, seq![i], sub) == match t {
            TokenV::Elem { tag, attrs, children } => {
                if (i as int) < children.len() {
                    TokenV::Elem { tag, attrs, children: children.update(i as int, sub) }
                } else {
                    t
                }
            },
            TokenV::Text { .. } => t,
        },
{
    assert(seq![i].drop_first() =~= Seq::<usize>::empty());
    match t {
        TokenV::Elem { children, .. } => {
            if (i as int) < children.len() {
                assert(replace_at(children[i as int], Seq::<usize>::empty(), sub) == sub);
            }
        },
        TokenV::Text { .. } => {},
    }
}

/// Resolution distributes over path concatenation: descending `p + q` is
/// descending `p`, then `q` from wherever `p` led.
pub proof fn lemma_node_at_concat(t: TokenV, p: Seq<usize>, q: Seq<usize>)
    ensures
        node_at(t, p + q) == match node_at(t, p) {
            Option::Some(s) => node_at(s, q),
            Option::None => None::<TokenV>,
        },
    decreases p.len(),
{
    if p.len() == 0 {
        assert(p + q =~= q);
    } else {
        assert((p + q)[0] == p[0]);
        match t {
            TokenV::Elem { children, .. } => {
                if (p[0] as int) < children.len() {
                    assert((p + q).drop_first() =~= p.drop_first() + q);
                    lemma_node_at_concat(children[p[0] as int], p.drop_first(), q);
                }
            },
            TokenV::Text { .. } => {},
        }
    }
}

/// Replacement at a concatenated path factors through the node the prefix
/// resolves to.
pub proof fn lemma_replace_at_concat(t: TokenV, p: Seq<usize>, q: Seq<usize>, sub: TokenV)
    requires
        node_at(t, p) is Some,
    ensures
        replace_at(t, p + q, sub) == replace_at(t, p, replace_at(node_at(t, p)->Some_0, q, sub)),
    decreases p.len(),
{
    if p.len() == 0 {
        assert(p + q =~= q);
    } else {
        assert((p + q)[0] == p[0]);
        match t {
            TokenV::Elem { children, .. } => {
                assert((p + q).drop_first() =~= p.drop_first() + q);
                lemma_replace_at_concat(children[p[0] as int], p.drop_first(), q, sub);
            },
            TokenV::Text { .. } => {},
        }
    }
}

/// Putting back what a path resolves to changes nothing.
pub proof fn lemma_replace_at_same(t: TokenV, p: Seq<usize>)
    requires
        node_at(t, p) is Some,
    ensures
        replace_at(t, p, node_at(t, p)->Some_0) == t,
    decreases p.len(),
{
    if p.len() > 0 {
        match t {
            TokenV::Elem { children, .. } => {
                lemma_replace_at_same(children[p[0] as int], p.drop_first());
                assert(children.update(p[0] as int, children[p[0] as int]) =~= children);
            },
            TokenV::Text { .. } => {},
        }
    }
}

/// One optional handler per supported event kind. A handler is an opaque
/// identifier: the embedder maps it to the real callback and the state it
/// closes over, so the tree itself stays comparable data.
#[derive(Clone, Copy)]
pub struct EventHandlers {
    pub on_click: Option<u64>,
    pub on_keydown: Option<u64>,
    pub on_input: Option<u64>,
}

/// The event kinds the router understands.
#[derive(Clone, Copy)]
pub enum EventKind {
    Click,
    Keydown,
    Input,
}

impl EventHandlers {
    /// A set of empty slots.
    pub fn none() -> (r: EventHandlers)
        ensures
            r.on_click is None && r.on_keydown is None && r.on_input is None,
    {
        EventHandlers { on_click: None, on_keydown: None, on_input: None }
    }

    /// The slot for one event kind.
    pub open spec fn spec_handler(self, kind: EventKind) -> Option<u64> {
        match kind {
            EventKind::Click => self.on_click,
            EventKind::Keydown => self.on_keydown,
            EventKind::Input => self.on_input,
        }
    }

    /// Reads the slot for one event kind.
    pub fn handler(&self, kind: EventKind) -> (r: Option<u64>)
        ensures
            r == self.spec_handler(kind),
    {
        match kind {
            EventKind::Click => self.on_click,
            EventKind::Keydown => self.on_keydown,
            EventKind::Input => self.on_input,
        }
    }
}

/// Mathematical form of a full rendered tree, handler slots included.
pub enum HtmlTokenV {
    Elem {
        tag: Seq<char>,
        attrs: Seq<(Seq<char>, Seq<char>)>,
        handlers: EventHandlers,
        children: Seq<HtmlTokenV>,
    },
    Text { text: Seq<char> },
}

/// A full rendered tree: what one render of a component produces. Unlike
/// the reduced snapshot it carries the handler slots, so only this form
/// can route an event.
pub enum HtmlToken {
    Elem {
        tag: String,
        attrs: Vec<(String, String)>,
        handlers: EventHandlers,
        children: Vec<HtmlToken>,
    },
    Text { text: String },
}

/// The view of a full rendered tree.
pub open spec fn html_view(t: HtmlToken) -> HtmlTokenV
    decreases t,
{
    match t {
        HtmlToken::Elem { tag, attrs, handlers, children } => HtmlTokenV::Elem {
            tag: tag@,
            attrs: attrs_view(attrs@),
            handlers: handlers,
            children: Seq::new(
                children@.len(),
                // the range test keeps the recursion well-founded
                |i: int|
                    if 0 <= i < children@.len() {
                        html_view(children@[i])
                    } else {
                        HtmlTokenV::Text { text: Seq::empty() }
                    },
            ),
        },
        HtmlToken::Text { text } => HtmlTokenV::Text { text: text@ },
    }
}

impl View for HtmlToken {
    type V = HtmlTokenV;

    #[verifier::inline]
    open spec fn view(&self) -> HtmlTokenV {
        html_view(*self)
    }
}

/// The reduced form of a full tree: the same shape with every handler
/// slot stripped. A pure structural projection with no failure mode.
pub open spec fn bare_of(t: HtmlTokenV) -> TokenV
    decreases t,
{
    match t {
        HtmlTokenV::Elem { tag, attrs, handlers: _, children } => TokenV::Elem {
            tag,
            attrs,
            children: Seq::new(
                children.len(),
                // the range test keeps the recursion well-founded
                |i: int|
                    if 0 <= i < children.len() {
                        bare_of(children[i])
                    } else {
                        TokenV::Text { text: Seq::empty() }
                    },
            ),
        },
        HtmlTokenV::Text { text } => TokenV::Text { text },
    }
}

/// The node a positional path addresses in a full tree; the convention is
/// the one every module shares — see [`node_at`].
pub open spec fn token_at(t: HtmlTokenV, path: Seq<usize>) -> Option<HtmlTokenV>
    decreases path.len(),
{
    if path.len() == 0 {
        Some(t)
    } else {
        match t {
            HtmlTokenV::Elem { children, .. } => {
                if (path[0] as int) < children.len() {
                    token_at(children[path[0] as int], path.drop_first())
                } else {
                    None
                }
            },
            HtmlTokenV::Text { .. } => None,
        }
    }
}

impl HtmlToken {
    /// The reduced snapshot of this tree: what the diff engine compares
    /// and the session stores.
    #[verifier::loop_isolation(false)]
    pub fn as_bare_token(&self) -> (r: BareToken)
        ensures
            r@ == bare_of(self@),
        decreases self,
    {
        match self {
            HtmlToken::Elem { tag, attrs, handlers: _, children } => {
                let mut cs: Vec<BareToken> = Vec::new();
                let mut i: usize = 0;
                while i < children.len()
                    invariant
                        i <= children@.len(),
                        cs@.len() == i as int,
                        forall|j: int| 0 <= j < i ==> (#[trigger] cs@[j])@ == bare_of(
                            children@[j]@,
                        ),
                    decreases children@.len() - i,
                {
                    let c = children[i].as_bare_token();
                    cs.push(c);
                    i += 1;
                }
                let r = BareToken::Elem {
                    tag: tag.clone(),
                    attrs: clone_attrs(attrs),
                    children: cs,
                };
                proof {
                    lemma_html_view_elem(*self);
                    assert forall|j: int| 0 <= j < cs@.len() implies r@->Elem_children[j]
                        == bare_of(self@)->Elem_children[j] by {
                        assert(self@->Elem_children[j] == children@[j]@);
                        assert(r@->Elem_children[j] == cs@[j]@);
                    }
                    assert(r@->Elem_children =~= bare_of(self@)->Elem_children);
                    assert(r@ =~= bare_of(self@));
                }
                r
            },
            HtmlToken::Text { text } => BareToken::Text { text: text.clone() },
        }
    }
}

/// The node a positional path addresses in a full rendered tree,
/// descending child-by-index; `None` where an index is out of range or a
/// text node is reached before the path ends — never a partial match.
#[verifier::loop_isolation(false)]
pub fn find_token_by_path<'a>(html_token: &'a HtmlToken, path: &[usize]) -> (r: Option<
    &'a HtmlToken,
>)
    ensures
        match r {
            Some(tok) => token_at(html_token@, path@) == Some(tok@),
            None => token_at(html_token@, path@) is None,
        },
{
    let mut cur: &'a HtmlToken = html_token;
    let mut i: usize = 0;
    proof {
        assert(path@.skip(0) =~= path@);
    }
    while i < path.len()
        invariant
            i <= path@.len(),
            token_at(html_token@, path@) == token_at(cur@, path@.skip(i as int)),
        decreases path@.len() - i,
    {
        let seg = path[i];
        proof {
            assert(path@.skip(i as int)[0] == seg);
            assert(path@.skip(i as int).drop_first() =~= path@.skip(i + 1));
        }
        match cur {
            HtmlToken::Elem { children, .. } => {
                proof {
                    lemma_html_view_elem(*cur);
                    assert(cur@->Elem_children.len() == children@.len());
                }
                if seg < children.len() {
                    proof {
                        assert(cur@->Elem_children[seg as int] == children@[seg as int]@);
                    }
                    cur = &children[seg];
                    i += 1;
                } else {
                    proof {
                        assert(token_at(cur@, path@.skip(i as int)) is None);
                    }
                    return None;
                }
            },
            HtmlToken::Text { .. } => {
                proof {
                    lemma_html_view_text(*cur);
                    assert(token_at(cur@, path@.skip(i as int)) is None);
                }
                return None;
            },
        }
    }
    proof {
        assert(path@.skip(path@.len() as int) =~= Seq::<usize>::empty());
    }
    Some(cur)
}

/// Whether two snapshots are equal, node for node.
#[verifier::loop_isolation(false)]
pub fn token_eq(a: &BareToken, b: &BareToken) -> (r: bool)
    ensures
        r == (a@ == b@),
    decreases a,
{
    match (a, b) {
        (
            BareToken::Elem { tag: atag, attrs: aattrs, children: ac },
            BareToken::Elem { tag: btag, attrs: battrs, children: bc },
        ) => {
            if !(*atag == *btag) {
                return false;
            }
            if !attrs_eq(aattrs, battrs) {
                return false;
            }
            if ac.len() != bc.len() {
                proof {
                    assert(a@->Elem_children.len() != b@->Elem_children.len());
                }
                return false;
            }
            let mut i: usize = 0;
            while i < ac.len()
                invariant
                    i <= ac@.len(),
                    ac@.len() == bc@.len(),
                    forall|m: int|
                        0 <= m < i ==> (#[trigger] a@->Elem_children[m]) == b@->Elem_children[m],
                decreases ac@.len() - i,
            {
                if !token_eq(&ac[i], &bc[i]) {
                    proof {
                        assert(a@->Elem_children[i as int] != b@->Elem_children[i as int]);
                    }
                    return false;
                }
                i += 1;
            }
            proof {
                assert(a@->Elem_children =~= b@->Elem_children);
                assert(a@ =~= b@);
            }
            true
        },
        (BareToken::Text { text: at }, BareToken::Text { text: bt }) => *at == *bt,
        _ => {
            proof {
                assert(a@ != b@);
            }
            false
        },
    }
}

/// The view of an element token, field by field.
pub proof fn lemma_html_view_elem(t: HtmlToken)
    requires
        t is Elem,
    ensures
        t@ is Elem,
        t@->Elem_tag == t->Elem_tag@,
        t@->Elem_attrs == attrs_view(t->Elem_attrs@),
        t@->Elem_handlers == t->Elem_handlers,
        t@->Elem_children.len() == t->Elem_children@.len(),
        forall|j: int|
            0 <= j < t->Elem_children@.len() ==> t@->Elem_children[j] == (#[trigger] t->Elem_children@[j])@,
{
    match t {
        HtmlToken::Elem { tag, attrs, handlers, children } => {
            assert(t@->Elem_children.len() == children@.len());
        },
        HtmlToken::Text { .. } => {},
    }
}

/// The view of a text token.
pub proof fn lemma_html_view_text(t: HtmlToken)
    requires
        t is Text,
    ensures
        t@ is Text,
        t@->Text_text == t->Text_text@,
{
}

} // verus!
