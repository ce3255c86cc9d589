//! Options for the cache-device inspection commands.

use vstd::prelude::*;

verus! {

/// What the dump command prints.
#[derive(Debug, Copy, Clone, PartialEq, Eq, Structural)]
pub struct DumpStructuresOptions {
    pub dump_defaults: bool,
    pub dump_spacemaps: bool,
}

impl DumpStructuresOptions {
    pub fn new() -> (r: DumpStructuresOptions)
        ensures
            r.dump_defaults,
            !r.dump_spacemaps,
    {
        DumpStructuresOptions { dump_defaults: true, dump_spacemaps: false }
    }

    pub fn defaults(self, value: bool) -> (r: DumpStructuresOptions)
        ensures
            r.dump_defaults == value,
            r.dump_spacemaps == self.dump_spacemaps,
    {
        DumpStructuresOptions { dump_defaults: value, ..self }
    }

    pub fn spacemaps(self, value: bool) -> (r: DumpStructuresOptions)
        ensures
            r.dump_spacemaps == value,
            r.dump_defaults == self.dump_defaults,
    {
        DumpStructuresOptions { dump_spacemaps: value, ..self }
    }
}

impl Default for DumpStructuresOptions {
    fn default() -> (r: Self)
        ensures
            r.dump_defaults,
            !r.dump_spacemaps,
    {
        Self::new()
    }
}

/// Commands understood by the cache-device inspector.
#[derive(Debug, Copy, Clone, PartialEq, Eq, Structural)]
pub enum ZettaCacheDBCommand {
    DumpStructures(DumpStructuresOptions),
}

} // verus!
