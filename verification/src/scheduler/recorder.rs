//! Work on compilation units, with a record of the units it was done on.

use vstd::prelude::*;

use crate::scheduler::wavefront::{CompilationUnit, UnitView};

verus! {

/// Work to be done on units. Whoever has only the recorder can call the work
/// through `call` alone, which takes down the unit, so the record holds every
/// such call in the order of the calls.
pub struct Recorder<F> {
    work: F,
    record: Ghost<Seq<UnitView>>,
}

impl<F> Recorder<F> {
    /// The work that is called.
    pub closed spec fn work(self) -> F {
        self.work
    }

    /// The units on which the work has been called, in order. Each call has
    /// returned before the next one began.
    pub closed spec fn calls(self) -> Seq<UnitView> {
        self.record@
    }

    /// Work that has not been called.
    pub fn new(work: F) -> (recorder: Self)
        ensures
            recorder.work() == work,
            recorder.calls() == Seq::<UnitView>::empty(),
    {
        Recorder { work, record: Ghost(Seq::empty()) }
    }

    /// Call the work on a unit.
    pub fn call<R>(&mut self, unit: &CompilationUnit) -> (result: R) where
        F: Fn(&CompilationUnit) -> R,

        requires
            call_requires(old(self).work(), (unit,)),
        ensures
            call_ensures(old(self).work(), (unit,), result),
            final(self).work() == old(self).work(),
            final(self).calls() == old(self).calls().push(unit@),
    {
        let result = (self.work)(unit);
        self.record = Ghost(self.record@.push(unit@));
        result
    }
}

} // verus!
