use vstd::prelude::*;

verus! {

/// A file-backed, shared object that can tell a deferred deleter which path
/// to remove once its last owner lets go. The engine's file shells implement
/// this; the deleter itself does I/O and lives outside the verified core.
pub trait CleanableFile {
    fn path(&self) -> String;
}

} // verus!
