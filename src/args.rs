use vstd::prelude::*;

verus! {

/// `status`: what the next sync would start and stop managing.
#[derive(Debug, Clone, Copy, PartialEq, Eq, Structural)]
pub struct StatusArgs {}

/// `check`: the link state of each managed path.
#[derive(Debug, Clone, Copy, PartialEq, Eq, Structural)]
pub struct CheckArgs {}

/// `add`: paths to register (at least one).
#[derive(Debug, Clone)]
pub struct AddArgs {
    pub paths: Vec<String>,
}

/// `remove`: paths to unregister (at least one).
#[derive(Debug, Clone)]
pub struct RemoveArgs {
    pub paths: Vec<String>,
}

/// `sync`: converge every declared path.
#[derive(Debug, Clone, Copy, PartialEq, Eq, Structural)]
pub struct SyncArgs {}

/// `disable-link`: delink every declared path, or the given ones.
#[derive(Debug, Clone)]
pub struct DisableLinkArgs {
    pub all: bool,
    pub paths: Vec<String>,
}

} // verus!
