//! Browsing contexts: their session history entries (a document and its
//! child browsing contexts), the active entry, and the element and
//! pipeline of their parent.
use vstd::prelude::*;

verus! {

/// An entry of a browsing context's session history: a document and the
/// browsing contexts nested in it.
pub struct SessionHistoryEntry<D, C> {
    pub document: D,
    pub children: Vec<C>,
}

impl<D, C> SessionHistoryEntry<D, C> {
    pub fn new(document: D) -> (e: SessionHistoryEntry<D, C>)
        ensures
            e.document == document,
            e.children@.len() == 0,
    {
        SessionHistoryEntry { document, children: Vec::new() }
    }
}

/// A browsing context: its history, the index of the active entry, the
/// element that contains it (for a nested one) and its parent's pipeline.
pub struct BrowsingContext<D, C, E> {
    history: Vec<SessionHistoryEntry<D, C>>,
    active_index: usize,
    frame_element: Option<E>,
    parent_pipeline: Option<u32>,
}

impl<D, C, E> BrowsingContext<D, C, E> {
    pub closed spec fn history_view(&self) -> Seq<SessionHistoryEntry<D, C>> {
        self.history@
    }

    pub closed spec fn active(&self) -> nat {
        self.active_index as nat
    }

    pub closed spec fn frame_element_view(&self) -> Option<E> {
        self.frame_element
    }

    pub closed spec fn parent_pipeline_view(&self) -> Option<u32> {
        self.parent_pipeline
    }

    /// A browsing context with no history yet.
    pub fn new_inherited(frame_element: Option<E>, parent_pipeline: Option<u32>) -> (c: BrowsingContext<D, C, E>)
        ensures
            c.history_view().len() == 0,
            c.active() == 0,
            c.frame_element_view() == frame_element,
            c.parent_pipeline_view() == parent_pipeline,
    {
        BrowsingContext { history: Vec::new(), active_index: 0, frame_element, parent_pipeline }
    }

    /// A new browsing context, and whether it needs a cross-origin parent
    /// object: when it has a parent pipeline but no containing element.
    pub fn new(frame_element: Option<E>, parent_pipeline: Option<u32>) -> (r: (BrowsingContext<D, C, E>, bool))
        ensures
            r.0.history_view().len() == 0,
            r.0.active() == 0,
            r.0.frame_element_view() == frame_element,
            r.0.parent_pipeline_view() == parent_pipeline,
            r.1 == (parent_pipeline is Some && frame_element is None),
    {
        let create_cross_origin_parent = parent_pipeline.is_some() && frame_element.is_none();
        (BrowsingContext::new_inherited(frame_element, parent_pipeline), create_cross_origin_parent)
    }

    /// Gives the new browsing context its first document.
    pub fn init(&mut self, document: D)
        requires
            old(self).history_view().len() == 0,
            old(self).active() == 0,
        ensures
            final(self).history_view().len() == 1,
            final(self).history_view()[0].document == document,
            final(self).history_view()[0].children@.len() == 0,
            final(self).active() == 0,
            final(self).frame_element_view() == old(self).frame_element_view(),
            final(self).parent_pipeline_view() == old(self).parent_pipeline_view(),
    {
        self.history.push(SessionHistoryEntry::new(document));
    }

    /// The document of the active entry.
    pub fn active_document(&self) -> (d: &D)
        requires
            self.active() < self.history_view().len(),
        ensures
            *d == self.history_view()[self.active() as int].document,
    {
        &self.history[self.active_index].document
    }

    /// The element that contains the browsing context, if any.
    pub fn frame_element(&self) -> (e: Option<&E>)
        ensures
            match e {
                Some(x) => self.frame_element_view() == Some(*x),
                None => self.frame_element_view() is None,
            },
    {
        self.frame_element.as_ref()
    }
}

} // verus!
