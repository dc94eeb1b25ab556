//! The stack of script settings objects: entries pushed as candidates for
//! the entry settings object or not, the incumbent one on top; and the
//! execution stack whose topmost entry global is the entry global.
use vstd::prelude::*;

verus! {

/// Whether a page is delivered over a modern or a deprecated secure
/// connection.
#[derive(Clone, Copy, PartialEq, Eq, Structural, Debug)]
pub enum HttpsState {
    Modern,
    Deprecated,
}

/// Whether a settings object can be the entry settings object.
#[derive(Clone, Copy, PartialEq, Eq, Structural, Debug)]
pub enum SettingsLabel {
    Candidate,
    NonCandidate,
}

/// A stack of settings objects, each labelled.
pub struct ScriptSettingsStack<S> {
    stack: Vec<(S, SettingsLabel)>,
}

/// The position of the topmost candidate in `s`, if any.
pub open spec fn topmost_candidate<S>(s: Seq<(S, SettingsLabel)>) -> Option<int>
    decreases s.len(),
{
    if s.len() == 0 {
        None
    } else if s.last().1 == SettingsLabel::Candidate {
        Some(s.len() - 1)
    } else {
        topmost_candidate(s.drop_last())
    }
}

impl<S> ScriptSettingsStack<S> {
    pub closed spec fn entries(&self) -> Seq<(S, SettingsLabel)> {
        self.stack@
    }

    pub fn new() -> (s: ScriptSettingsStack<S>)
        ensures
            s.entries().len() == 0,
    {
        ScriptSettingsStack { stack: Vec::new() }
    }

    /// Pushes a settings object that is no candidate.
    pub fn push(&mut self, object: S)
        ensures
            final(self).entries() == old(self).entries().push((object, SettingsLabel::NonCandidate)),
    {
        self.stack.push((object, SettingsLabel::NonCandidate));
    }

    /// Pushes a candidate for the entry settings object.
    pub fn push_candidate(&mut self, object: S)
        ensures
            final(self).entries() == old(self).entries().push((object, SettingsLabel::Candidate)),
    {
        self.stack.push((object, SettingsLabel::Candidate));
    }

    /// Pops the incumbent settings object.
    pub fn pop_incumbent_settings_object(&mut self)
        requires
            old(self).entries().len() > 0,
        ensures
            final(self).entries() == old(self).entries().drop_last(),
    {
        let _ = self.stack.pop().unwrap();
    }

    pub fn is_empty(&self) -> (b: bool)
        ensures
            b == (self.entries().len() == 0),
    {
        self.stack.len() == 0
    }

    /// The entry settings object: the topmost candidate.
    pub fn entry_settings_object(&self) -> (r: Option<&S>)
        ensures
            match topmost_candidate(self.entries()) {
                Some(i) => r matches Some(x) && *x == self.entries()[i].0,
                None => r is None,
            },
    {
        let n = self.stack.len();
        let mut i: usize = n;
        let ghost s = self.stack@;
        proof {
            assert(s.take(n as int) =~= s);
        }
        while i > 0
            invariant
                n == s.len(),
                s == self.stack@,
                i <= n,
                topmost_candidate(s) == topmost_candidate(s.take(i as int)),
            decreases i,
        {
            proof {
                assert(s.take(i as int).last() == s[i - 1]);
                assert(s.take(i as int).drop_last() =~= s.take(i - 1));
            }
            if self.stack[i - 1].1 == SettingsLabel::Candidate {
                return Some(&self.stack[i - 1].0);
            }
            i = i - 1;
        }
        proof {
            assert(s.take(0).len() == 0);
        }
        None
    }

    /// The incumbent settings object: the topmost one.
    pub fn incumbent_settings_object(&self) -> (r: Option<&S>)
        ensures
            match r {
                Some(x) => self.entries().len() > 0 && *x == self.entries().last().0,
                None => self.entries().len() == 0,
            },
    {
        let n = self.stack.len();
        if n == 0 {
            None
        } else {
            Some(&self.stack[n - 1].0)
        }
    }
}

/// Whether an execution stack entry is an entry or an incumbent entry.
#[derive(Clone, Copy, PartialEq, Eq, Structural, Debug)]
pub enum StackEntryKind {
    Incumbent,
    Entry,
}

/// An entry of the execution stack: its global and kind.
pub struct StackEntry<G> {
    pub global: G,
    pub kind: StackEntryKind,
}

/// The position of the topmost entry of kind `Entry`, if any.
pub open spec fn topmost_entry<G>(s: Seq<StackEntry<G>>) -> Option<int>
    decreases s.len(),
{
    if s.len() == 0 {
        None
    } else if s.last().kind == StackEntryKind::Entry {
        Some(s.len() - 1)
    } else {
        topmost_entry(s.drop_last())
    }
}

/// The entry global: the global of the topmost entry of kind `Entry`.
pub fn entry_global<G>(stack: &Vec<StackEntry<G>>) -> (g: &G)
    requires
        topmost_entry(stack@) is Some,
    ensures
        *g == stack@[topmost_entry(stack@)->0].global,
{
    let n = stack.len();
    let mut i: usize = n;
    let ghost s = stack@;
    proof {
        assert(s.take(n as int) =~= s);
    }
    while i > 0
        invariant
            n == s.len(),
            s == stack@,
            i <= n,
            topmost_entry(s) == topmost_entry(s.take(i as int)),
            topmost_entry(s) is Some,
        decreases i,
    {
        proof {
            assert(s.take(i as int).last() == s[i - 1]);
            assert(s.take(i as int).drop_last() =~= s.take(i - 1));
        }
        if stack[i - 1].kind == StackEntryKind::Entry {
            return &stack[i - 1].global;
        }
        i = i - 1;
    }
    proof {
        assert(topmost_entry(s.take(0)) is None);
    }
    &stack[0].global
}

/// Whether the execution stack is empty.
pub fn is_execution_stack_empty<G>(stack: &Vec<StackEntry<G>>) -> (b: bool)
    ensures
        b == (stack@.len() == 0),
{
    stack.len() == 0
}

/// Pushing a candidate makes it the entry settings object; pushing another
/// object leaves the entry settings object as it was.
pub proof fn lemma_push_entry<S>(s: Seq<(S, SettingsLabel)>, object: S)
    ensures
        topmost_candidate(s.push((object, SettingsLabel::Candidate))) == Some(s.len() as int),
        topmost_candidate(s.push((object, SettingsLabel::NonCandidate))) == topmost_candidate(s),
{
    assert(s.push((object, SettingsLabel::NonCandidate)).drop_last() =~= s);
}

} // verus!
