//! The sandbox configuration shared by the invocations of one engine.
use vstd::prelude::*;

verus! {

/// Default fuel that one node run may burn before it times out.
pub const DEFAULT_NODE_FUEL: u64 = 10_000_000;

/// How sandboxes are set up: the capabilities granted to each module and the
/// fuel that bounds each node run.
pub struct Runtime {
    /// Capabilities granted to modules; none by default.
    pub capabilities: Vec<String>,
    pub node_fuel: u64,
}

impl Runtime {
    /// A runtime that grants no capability and the default fuel.
    pub fn new() -> (r: Result<Runtime, crate::model::Fault>)
        ensures
            r matches Ok(rt) && rt.capabilities@.len() == 0 && rt.node_fuel == DEFAULT_NODE_FUEL,
    {
        Ok(Runtime { capabilities: Vec::new(), node_fuel: DEFAULT_NODE_FUEL })
    }
}

} // verus!
