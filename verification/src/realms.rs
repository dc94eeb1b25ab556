//! Realm tokens: proof that code runs inside a realm, and the operations
//! that the generated bindings need from documents and promises.
use vstd::prelude::*;

verus! {

/// A token that script is already running in a realm.
pub struct AlreadyInRealm {
    _token: (),
}

impl AlreadyInRealm {
    /// The token's content (there is only one token value).
    pub closed spec fn token(&self) -> () {
        self._token
    }

    /// Claims that script runs in a realm (nothing is checked).
    pub fn assert_realm() -> (r: AlreadyInRealm)
        ensures
            r.token() == (),
    {
        AlreadyInRealm { _token: () }
    }
}

/// A token that a realm was entered.
pub struct EnteredRealm {
    pub global: u64,
}

/// How code is known to run in a realm: it already did, or entered one.
pub enum InRealm<'a> {
    Already(&'a AlreadyInRealm),
    Entered(&'a EnteredRealm),
}

impl<'a> InRealm<'a> {
    pub fn already(token: &'a AlreadyInRealm) -> (r: InRealm<'a>)
        ensures
            r == InRealm::Already(token),
    {
        InRealm::Already(token)
    }

    pub fn entered(token: &'a EnteredRealm) -> (r: InRealm<'a>)
        ensures
            r == InRealm::Entered(token),
    {
        InRealm::Entered(token)
    }
}

/// What the bindings need of a document.
pub trait DocumentHelpers {
    /// Makes sure that script and layout can run.
    fn ensure_safe_to_run_script_or_layout(&self);
}

/// What the bindings need of promises.
pub trait PromiseHelpers {
    type Global;
    type Value;
    type Promise;

    /// A promise of `global` resolved with `value`.
    fn new_resolved(global: &Self::Global, value: Self::Value) -> Self::Promise;
}

} // verus!
