use vstd::prelude::*;

verus! {

/// Errors reported by the engine.
#[derive(Debug, Clone, PartialEq, Eq)]
pub enum AppError {
    /// The pseudo-terminal could not be created.
    ResourceAllocation(String),
    /// The child process could not start; carries the requested and the resolved command.
    ProcessSpawn { command: String, resolved: String, message: String },
    /// No live session has the given agent identifier.
    SessionLookup(String),
    /// A read, write or flush on a live handle failed.
    Io(String),
    /// The version-control executable failed; carries its captured error output.
    ExternalTool(String),
    /// Resolving or accessing a state path failed.
    FileSystem(String),
}

} // verus!
