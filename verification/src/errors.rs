use vstd::prelude::*;

verus! {

/// The failure kinds the pipeline distinguishes.
///
/// `Config` is a missing required setting, fatal at startup. `Io` is a local
/// read or write failure; the current run aborts and the next cycle retries.
/// `Network` is a remote transfer or negotiation failure; the persisted
/// upload session makes the next run resume. `StateCorruption` marks an
/// unparseable persisted document, which callers degrade to a fresh state.
/// `DuplicateEntry` is a catalog append whose name collides with an existing
/// entry. `NotFound` is a distribution request for an unknown artifact.
#[derive(Clone, Copy, Debug, PartialEq, Eq, Structural)]
pub enum PipelineError {
    Config,
    Io,
    Network,
    StateCorruption,
    DuplicateEntry,
    NotFound,
}

} // verus!
