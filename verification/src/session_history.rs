//! The session history of a browsing context: its documents, oldest
//! first, and the active one.
use vstd::prelude::*;

verus! {

/// The documents of a session history and the position (from 1) of the
/// active one; 0 before the first document.
pub struct SessionHistory<D> {
    history: Vec<D>,
    active_index: usize,
}

impl<D> SessionHistory<D> {
    pub closed spec fn entries(&self) -> Seq<D> {
        self.history@
    }

    /// The position of the active entry, counting from 1 (0 when none).
    pub closed spec fn active(&self) -> nat {
        self.active_index as nat
    }

    /// The active entry lies in the history (or there is none).
    pub closed spec fn wf(&self) -> bool {
        self.active_index <= self.history@.len()
    }

    /// An empty session history.
    pub fn new() -> (h: SessionHistory<D>)
        ensures
            h.wf(),
            h.entries().len() == 0,
            h.active() == 0,
    {
        SessionHistory { history: Vec::new(), active_index: 0 }
    }

    /// Appends an entry; the active position moves one on.
    pub fn push(&mut self, document: D)
        requires
            old(self).wf(),
        ensures
            final(self).wf(),
            final(self).entries() == old(self).entries().push(document),
            final(self).active() == old(self).active() + 1,
    {
        self.history.push(document);
        let len = self.history.len();
        proof {
            assert(self.active_index < len);
        }
        self.active_index = self.active_index + 1;
    }

    /// Replaces the active entry.
    pub fn replace(&mut self, document: D)
        requires
            old(self).wf(),
            old(self).active() >= 1,
        ensures
            final(self).wf(),
            final(self).entries() == old(self).entries().update(old(self).active() - 1, document),
            final(self).active() == old(self).active(),
    {
        let idx = self.active_index - 1;
        self.history.set(idx, document);
    }

    /// The active entry.
    pub fn active_document(&self) -> (d: &D)
        requires
            self.wf(),
            self.active() >= 1,
        ensures
            *d == self.entries()[self.active() - 1],
    {
        let idx = self.active_index - 1;
        &self.history[idx]
    }

    /// All entries, oldest first.
    pub fn documents(&self) -> (ds: &Vec<D>)
        ensures
            ds@ == self.entries(),
    {
        &self.history
    }
}

/// After a push, the pushed entry is the active one.
pub proof fn lemma_push_then_active<D>(entries: Seq<D>, active: nat, document: D)
    requires
        active == entries.len(),
    ensures
        entries.push(document)[(active + 1) - 1] == document,
{
}

} // verus!
