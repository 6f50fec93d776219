//! Nodes, edges, permissions and the faults that end an invocation.
use vstd::prelude::*;

verus! {

/// Whether a node may be invoked directly by an external caller.
#[derive(Debug, Clone, Copy, PartialEq, Eq, Structural)]
pub enum NodePermission {
    /// Reachable only as a dependency of another node.
    LOCKED,
    /// Invocable by external callers.
    OPEN,
}

/// The stored text of a permission: `"LOCKED"` names the locked state, any other text is open.
pub open spec fn permission_of(s: Seq<char>) -> NodePermission {
    if s == "LOCKED"@ {
        NodePermission::LOCKED
    } else {
        NodePermission::OPEN
    }
}

pub open spec fn permission_text(p: NodePermission) -> Seq<char> {
    match p {
        NodePermission::LOCKED => "LOCKED"@,
        NodePermission::OPEN => "OPEN"@,
    }
}

impl NodePermission {
    /// The stored text of this permission.
    pub fn as_str(&self) -> (r: &'static str)
        ensures
            r@ == permission_text(*self),
    {
        match self {
            NodePermission::LOCKED => {
                proof {
                    reveal_strlit("LOCKED");
                }
                "LOCKED"
            },
            NodePermission::OPEN => {
                proof {
                    reveal_strlit("OPEN");
                }
                "OPEN"
            },
        }
    }

    /// Reads a stored permission text.
    pub fn parse(s: &String) -> (r: NodePermission)
        ensures
            r == permission_of(s@),
    {
        let locked = "LOCKED".to_owned();
        proof {
            reveal_strlit("LOCKED");
        }
        if *s == locked {
            NodePermission::LOCKED
        } else {
            NodePermission::OPEN
        }
    }
}

impl AsRef<str> for NodePermission {
    fn as_ref(&self) -> (r: &str)
        ensures
            r@ == permission_text(*self),
    {
        self.as_str()
    }
}

impl From<String> for NodePermission {
    fn from(s: String) -> (r: NodePermission) {
        NodePermission::parse(&s)
    }
}

impl vstd::std_specs::convert::FromSpecImpl<String> for NodePermission {
    open spec fn obeys_from_spec() -> bool {
        true
    }

    open spec fn from_spec(s: String) -> NodePermission {
        permission_of(s@)
    }
}

/// A named computation unit, optionally backed by a compiled module.
#[derive(Debug, Clone, PartialEq, Eq)]
pub struct Node {
    pub id: String,
    pub name: String,
    pub node_type: String,
    /// The module bytes; absent for a node that passes its input through.
    pub payload: Option<Vec<u8>>,
    /// The content hash of the payload.
    pub wasm_hash: Option<String>,
    pub permission: String,
}

/// A data dependency: `from_id` produces what `to_id` consumes.
#[derive(Debug, Clone, PartialEq, Eq)]
pub struct Edge {
    pub from_id: String,
    pub to_id: String,
    /// The schema that data crossing this edge must satisfy; none admits anything.
    pub contract: Option<String>,
}

/// Who asks for a node to run.
#[derive(Debug, Clone, Copy, PartialEq, Eq, Structural)]
pub enum InvocationContext {
    /// A caller outside the engine.
    External,
    /// The engine itself, running a dependency of an admitted invocation.
    Internal,
}

/// The outcome of the permission check.
#[derive(Debug, Clone, PartialEq, Eq, Structural)]
pub enum Admission {
    Admit,
    Deny,
}

/// Why an invocation failed. Each fault ends the invocation.
#[derive(Debug, Clone, PartialEq, Eq)]
#[allow(inconsistent_fields)]
pub enum Fault {
    UnknownNode,
    CycleDetected,
    PermissionDenied { node: String, reason: String },
    SandboxTrap { node: String, detail: String },
    /// A node ran out of time, or, without a node, the whole invocation did.
    Timeout { node: Option<String> },
    ContractViolation { from: String, to: String, detail: String },
}

/// Open nodes admit every caller; locked ones admit only the engine itself.
pub open spec fn admits(p: NodePermission, ctx: InvocationContext) -> bool {
    p == NodePermission::OPEN || ctx == InvocationContext::Internal
}

/// Decides whether a node with permission `p` may run for a caller in `ctx`.
pub fn check(p: NodePermission, ctx: InvocationContext) -> (r: Admission)
    ensures
        (r == Admission::Admit) == admits(p, ctx),
{
    match (p, ctx) {
        (NodePermission::OPEN, _) => Admission::Admit,
        (NodePermission::LOCKED, InvocationContext::Internal) => Admission::Admit,
        (NodePermission::LOCKED, InvocationContext::External) => Admission::Deny,
    }
}

/// A locked node is refused to every external caller, wherever it stands in
/// the graph, and admitted whenever the engine runs it as a dependency.
pub proof fn lemma_locked_reachable_not_callable(p: NodePermission)
    requires
        p == NodePermission::LOCKED,
    ensures
        !admits(p, InvocationContext::External),
        admits(p, InvocationContext::Internal),
{
}

impl Node {
    /// This node's permission state.
    pub fn permission_state(&self) -> (r: NodePermission)
        ensures
            r == permission_of(self.permission@),
    {
        NodePermission::parse(&self.permission)
    }
}

} // verus!
