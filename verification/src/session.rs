//! The render session and the event-dispatch cycle.
//!
//! A [`Session`] owns the state of one mounted UI: the reduced snapshot of
//! the last rendered tree — the authoritative record of what the document
//! shows — and the live document model that snapshot produced. Its
//! invariant, [`Session::wf`], keeps the two in lock step: the document's
//! tree always equals the stored snapshot. Every future diff is computed
//! against that snapshot, so the invariant is exactly what makes patch
//! application immune to structural desync.
//!
//! The embedder owns the component and its handlers; the session only
//! decides. One dispatch cycle is: [`Session::begin_dispatch`] resolves
//! the event target to a positional path (re-entrant dispatch is a checked
//! error, a target outside the tree an explicit failure);
//! [`handler_at`] finds the handler identifier on a freshly rendered tree,
//! and a missing handler ends the cycle with no further effect; after the
//! embedder has run the handler and re-rendered, [`Session::complete_dispatch`]
//! reduces the new tree, diffs it against the stored snapshot, applies the
//! patch to the live document — proved to succeed — stores the new
//! snapshot, and hands the patch back for the embedder to mirror.

use vstd::prelude::*;

use crate::apply::lemma_diff_then_apply;
use crate::diff::patch_view;
use crate::diff::spec_diff;
use crate::diff::Diff;
use crate::doc::get_path_from;
use crate::doc::in_subtree;
use crate::doc::points_to;
use crate::doc::LiveDoc;
use crate::tree::bare_of;
use crate::tree::find_token_by_path;
use crate::tree::lemma_view_bounded;
use crate::tree::token_at;
use crate::tree::BareToken;
use crate::tree::EventKind;
use crate::tree::HtmlToken;
use crate::tree::HtmlTokenV;
use crate::tree::TokenV;

verus! {

/// Why a dispatch cycle ended before reaching a handler.
#[derive(Debug)]
pub enum DispatchError {
    /// A dispatch was already in flight: re-entrant dispatch is not
    /// supported and is reported rather than tolerated.
    Reentrant,
    /// The event target never reached the root while walking parent
    /// links: it lies outside the mounted subtree.
    TargetOutside,
}

/// The state of one mounted UI.
pub struct Session {
    /// The reduced snapshot of the last rendered tree: the authoritative
    /// record of what the live document shows.
    pub last_rendered_token: BareToken,
    /// The live document the snapshot produced.
    pub doc: LiveDoc,
    /// Whether a dispatch cycle is in flight.
    pub dispatching: bool,
}

/// The handler identifier registered for `kind` on the node `path`
/// addresses, if that node is an element carrying one.
pub open spec fn spec_handler_at(t: HtmlTokenV, path: Seq<usize>, kind: EventKind) -> Option<
    u64,
> {
    match token_at(t, path) {
        Some(HtmlTokenV::Elem { handlers, .. }) => handlers.spec_handler(kind),
        _ => None,
    }
}

/// Looks up the handler for `kind` on the element `path` addresses in a
/// freshly rendered tree. `None` — a clean no-op for the dispatch cycle,
/// not an error — where the path resolves to no node, to a text node, or
/// to an element with an empty slot.
pub fn handler_at(token: &HtmlToken, path: &[usize], kind: EventKind) -> (r: Option<u64>)
    ensures
        r == spec_handler_at(token@, path@, kind),
{
    match find_token_by_path(token, path) {
        Option::Some(tok) => {
            match tok {
                HtmlToken::Elem { handlers, .. } => {
                    proof {
                        crate::tree::lemma_html_view_elem(*tok);
                    }
                    handlers.handler(kind)
                },
                HtmlToken::Text { .. } => {
                    proof {
                        crate::tree::lemma_html_view_text(*tok);
                    }
                    None
                },
            }
        },
        Option::None => None,
    }
}

impl Session {
    /// The session invariant: the live document's tree always equals the
    /// stored reduced snapshot. Violating this would desynchronize every
    /// future diff; every method preserves it.
    pub open spec fn wf(&self) -> bool {
        &&& self.doc.wf()
        &&& self.doc.tree() == self.last_rendered_token@
    }

    /// The stored snapshot, as specifications see it.
    pub open spec fn snapshot(&self) -> TokenV {
        self.last_rendered_token@
    }

    /// Mounts the initial render: installs the live document it describes
    /// and stores its reduced snapshot. Looking the root element up in the
    /// host document, and subscribing to its events, is the embedder's
    /// part and happens before this.
    pub fn mount(initial: &HtmlToken) -> (s: Session)
        ensures
            s.wf(),
            !s.dispatching,
            s.snapshot() == bare_of(initial@),
    {
        let bare = initial.as_bare_token();
        let doc = LiveDoc::from_token(&bare);
        Session { last_rendered_token: bare, doc, dispatching: false }
    }

    /// Starts a dispatch cycle for an event whose target is the live node
    /// `target`: resolves the target to a root-relative positional path.
    /// Re-entrant dispatch is refused; a target the parent walk cannot
    /// connect to the root is an explicit failure, never approximated as
    /// the empty path. Both failures leave the session idle and unchanged
    /// but for the dispatch flag.
    pub fn begin_dispatch(&mut self, target: usize) -> (r: Result<Vec<usize>, DispatchError>)
        requires
            old(self).wf(),
            (target as int) < old(self).doc.nodes@.len(),
        ensures
            final(self).wf(),
            final(self).last_rendered_token == old(self).last_rendered_token,
            final(self).doc == old(self).doc,
            match r {
                Ok(path) => {
                    &&& !old(self).dispatching
                    &&& final(self).dispatching
                    &&& points_to(
                        final(self).doc.nodes@,
                        final(self).doc.root as int,
                        path@,
                        target as int,
                    )
                },
                Err(DispatchError::Reentrant) => old(self).dispatching && *final(self) == *old(
                    self,
                ),
                Err(DispatchError::TargetOutside) => {
                    &&& !final(self).dispatching
                    &&& !in_subtree(
                        final(self).doc.nodes@,
                        final(self).doc.root as int,
                        target as int,
                    )
                },
            },
    {
        if self.dispatching {
            return Err(DispatchError::Reentrant);
        }
        match get_path_from(&self.doc, target) {
            Option::Some(path) => {
                self.dispatching = true;
                Ok(path)
            },
            Option::None => {
                self.dispatching = false;
                Err(DispatchError::TargetOutside)
            },
        }
    }

    /// Ends a dispatch cycle that found no handler to run, or that failed
    /// at resolution: nothing was rendered, diffed, or applied, and the
    /// session takes the next event.
    pub fn cancel_dispatch(&mut self)
        requires
            old(self).wf(),
        ensures
            final(self).wf(),
            !final(self).dispatching,
            final(self).last_rendered_token == old(self).last_rendered_token,
            final(self).doc == old(self).doc,
    {
        self.dispatching = false;
    }

    /// Finishes a dispatch cycle whose handler ran: `new_tree` is the
    /// post-mutation render. Reduces it, diffs the reduction against the
    /// stored snapshot, applies the patch to the live document, stores the
    /// new snapshot, and returns the patch for the embedder to mirror onto
    /// the host document. The session invariant makes a structural desync
    /// impossible here: the diff of the stored snapshot always applies.
    pub fn complete_dispatch(&mut self, new_tree: &HtmlToken) -> (d: Diff)
        requires
            old(self).wf(),
            old(self).dispatching,
        ensures
            final(self).wf(),
            !final(self).dispatching,
            final(self).snapshot() == bare_of(new_tree@),
            final(self).doc.tree() == bare_of(new_tree@),
            patch_view(d@) == spec_diff(
                Seq::<usize>::empty(),
                old(self).snapshot(),
                bare_of(new_tree@),
            ),
    {
        let new_bare = new_tree.as_bare_token();
        let d = new_bare.get_diff_with(&self.last_rendered_token);
        proof {
            lemma_view_bounded(self.last_rendered_token);
            lemma_view_bounded(new_bare);
            lemma_diff_then_apply(self.last_rendered_token@, new_bare@);
        }
        let outcome = self.doc.apply_diff(&d);
        match outcome {
            Result::Ok(()) => {},
            Result::Err(_) => {
                proof {
                    assert(false);
                }
            },
        }
        self.last_rendered_token = new_bare;
        self.dispatching = false;
        d
    }
}

} // verus!
