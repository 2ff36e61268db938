//! Telling somebody how far a search has come.

use vstd::prelude::*;

verus! {

/// Somebody who is told how far a search has come: bytes done, of how many in total.
pub trait Progress {
    /// Whether it can be told anything.
    spec fn ready(&self) -> bool;

    /// What it has been told, in order.
    spec fn told(&self) -> Seq<(u64, u64)>;

    fn tell(&mut self, done: u64, total: u64)
        requires
            old(self).ready(),
        ensures
            final(self).ready(),
            final(self).told() == old(self).told().push((done, total)),
    ;
}

/// A list keeps what it is told.
impl Progress for Vec<(u64, u64)> {
    open spec fn ready(&self) -> bool {
        true
    }

    open spec fn told(&self) -> Seq<(u64, u64)> {
        self@
    }

    fn tell(&mut self, done: u64, total: u64) {
        self.push((done, total));
    }
}

/// A function that is called with what it is told.
pub struct Calls<F: FnMut(u64, u64)> {
    call: F,
    calls: Ghost<Seq<(u64, u64)>>,
}

impl<F: FnMut(u64, u64)> Calls<F> {
    /// The function.
    pub closed spec fn function(self) -> F {
        self.call
    }

    /// The calls that have been made of it.
    pub closed spec fn made(self) -> Seq<(u64, u64)> {
        self.calls@
    }

    /// `call`, which has not been called yet.
    pub fn new(call: F) -> (r: Self)
        ensures
            r.function() == call,
            r.made() == Seq::<(u64, u64)>::empty(),
    {
        Calls { call, calls: Ghost(Seq::empty()) }
    }
}

impl<F: FnMut(u64, u64)> Progress for Calls<F> {
    open spec fn ready(&self) -> bool {
        forall|a: u64, b: u64| call_requires(self.function(), (a, b))
    }

    open spec fn told(&self) -> Seq<(u64, u64)> {
        self.made()
    }

    fn tell(&mut self, done: u64, total: u64) {
        assert(call_requires(self.function(), (done, total)));
        (self.call)(done, total);
        assert(self.function() == old(self).function());
        self.calls = Ghost(self.calls@.push((done, total)));
    }
}

} // verus!
