//! The compiled core library, built once.
//!
//! Every heap needs the core methods defined in it. What none needs twice is
//! the parse and the compile, so the units are kept here.

use std::sync::Arc;

use vstd::prelude::*;

use crate::bytecode;
use crate::bytecode::Iseq;

verus! {

/// The units of the core library, once they are compiled. They are written
/// once and never changed.
pub struct CoreImage {
    units: Option<Vec<Arc<Iseq>>>,
}

impl CoreImage {
    /// The units, once they are compiled.
    pub closed spec fn image(&self) -> Option<Seq<Arc<Iseq>>> {
        match self.units {
            Some(units) => Some(units@),
            None => None,
        }
    }

    /// Nothing compiled yet.
    pub fn new() -> (r: CoreImage)
        ensures
            r.image() is None,
    {
        CoreImage { units: None }
    }

    /// The units, compiled with `build` on the first call. Later calls answer
    /// the same units, and do not build.
    pub fn get_or_compile<F: FnOnce() -> Vec<Arc<Iseq>>>(&mut self, build: F) -> (r: Vec<Arc<Iseq>>)
        requires
            old(self).image() is None ==> call_requires(build, ()),
        ensures
            final(self).image() == Some(r@),
            old(self).image() matches Some(units) ==> r@ == units,
            old(self).image() is None ==> exists|units: Vec<Arc<Iseq>>|
                #[trigger] call_ensures(build, (), units) && units@ == r@,
    {
        if self.units.is_none() {
            self.units = Some(build());
        }
        match &self.units {
            Some(units) => share_all(units),
            None => Vec::new(),
        }
    }

    /// Whether the units have been compiled.
    pub fn is_compiled(&self) -> (r: bool)
        ensures
            r == (self.image() is Some),
    {
        self.units.is_some()
    }
}

impl Default for CoreImage {
    fn default() -> (r: CoreImage)
        ensures
            r.image() is None,
    {
        CoreImage::new()
    }
}

/// Handles to the same units.
fn share_all(units: &Vec<Arc<Iseq>>) -> (r: Vec<Arc<Iseq>>)
    ensures
        r@ == units@,
{
    let mut out: Vec<Arc<Iseq>> = Vec::new();
    let mut i: usize = 0;
    while i < units.len()
        invariant
            i <= units.len(),
            out@ == units@.take(i as int),
        decreases units.len() - i,
    {
        out.push(bytecode::share(&units[i]));
        i += 1;
        assert(out@ =~= units@.take(i as int));
    }
    assert(out@ =~= units@);
    out
}

} // verus!
