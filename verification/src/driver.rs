//! The driver, which owns the source map that the analysis works against.

use vstd::prelude::*;
use crate::codemap::{CodeMap, FileMapView};

verus! {

/// The driver is in charge of orchestrating the whole analysis process and
/// making sure all the bits and pieces integrate nicely.
#[derive(Debug)]
pub struct Driver {
    codemap: CodeMap,
}

impl View for Driver {
    type V = Seq<FileMapView>;

    /// The files of the driver's `CodeMap`.
    closed spec fn view(&self) -> Seq<FileMapView> {
        self.codemap@
    }
}

impl Driver {
    /// Create a new driver, with an empty `CodeMap`.
    pub fn new() -> (d: Driver)
        ensures
            d@ == Seq::<FileMapView>::empty(),
    {
        Driver { codemap: CodeMap::new() }
    }

    /// Get access to the driver's `CodeMap`.
    pub fn codemap(&mut self) -> (r: &mut CodeMap)
        ensures
            (*r)@ == old(self)@,
            final(self)@ == (*final(r))@,
    {
        &mut self.codemap
    }
}

impl Default for Driver {
    fn default() -> (d: Driver)
        ensures
            d@ == Seq::<FileMapView>::empty(),
    {
        Driver::new()
    }
}

} // verus!
