//! One invocation of a target node, as a state machine.
//!
//! The invocation resolves the target once, then walks the resolved order.
//! For each node it asks the permission check, gathers the node's input from
//! the outputs already computed, and hands the module and input to the
//! caller, which runs the sandbox and reports the outcome back. Outputs are
//! checked against the contracts of the node's outgoing edges before they
//! are kept. The first fault ends the invocation; no partial output is
//! returned.
use vstd::prelude::*;
use crate::contract::{admits_payload, validate};
use crate::graph::{find_id, find_node, index_edges, node_keys, positions_of, resolve_positions};
use crate::model::{admits, check, permission_of, Admission, Edge, Fault, InvocationContext, Node, NodePermission};
use crate::order::{acyclic_on, all_nodes, closure, has_edge, is_resolution};

verus! {

/// What a sandbox run of a module gave.
#[derive(Debug, Clone)]
pub enum SandboxOutcome {
    Output(Vec<u8>),
    Trap(String),
    Timeout,
}

/// What the caller is to do next.
#[derive(Debug, Clone)]
pub enum Action {
    /// Run the module of the node at `position` in a fresh sandbox on
    /// `input`, and report the outcome with `record`.
    Run { position: usize, input: Vec<u8> },
    /// A node without a module passed its input on; ask again.
    Advanced,
    /// The invocation has ended; `into_result` gives its result.
    Finished,
}

/// The bytes of `outputs[p]`, for every position `p < upto` whose node feeds `v`, in order.
pub open spec fn joined_outputs(es: Seq<(usize, usize)>, order: Seq<usize>, outputs: Seq<Seq<u8>>, v: usize, upto: int) -> Seq<u8>
    decreases upto,
{
    if upto <= 0 {
        Seq::empty()
    } else {
        joined_outputs(es, order, outputs, v, upto - 1) + if has_edge(es, order[upto - 1], v) {
            outputs[upto - 1]
        } else {
            Seq::empty()
        }
    }
}

/// Some node before position `k` feeds `v`.
pub open spec fn fed(es: Seq<(usize, usize)>, order: Seq<usize>, v: usize, k: int) -> bool {
    exists|p: int| 0 <= p < k && #[trigger] has_edge(es, order[p], v)
}

/// The input of the node at position `k`: the joined outputs of its
/// producers, or the invocation's own input for a node that nothing feeds.
pub open spec fn input_for(es: Seq<(usize, usize)>, order: Seq<usize>, outputs: Seq<Seq<u8>>, input: Seq<u8>, k: int) -> Seq<u8> {
    if fed(es, order, order[k], k) {
        joined_outputs(es, order, outputs, order[k], k)
    } else {
        input
    }
}

/// The caller's own context applies to the target; every other node runs as a dependency.
pub open spec fn context_for(ctx: InvocationContext, target: usize, v: usize) -> InvocationContext {
    if v == target {
        ctx
    } else {
        InvocationContext::Internal
    }
}

pub open spec fn contract_view(e: Edge) -> Option<Seq<char>> {
    match e.contract {
        Some(c) => Some(c@),
        None => None,
    }
}

/// Edge `j` leaves node `v` towards a node of the invocation.
pub open spec fn outgoing(nodes: Seq<Node>, edges: Seq<Edge>, order: Seq<usize>, v: usize, j: int) -> bool {
    &&& 0 <= j < edges.len()
    &&& find_id(nodes, edges[j].from_id@) == Some(v)
    &&& match find_id(nodes, edges[j].to_id@) {
        Some(w) => order.contains(w),
        None => false,
    }
}

/// Every outgoing edge of `v` admits `out`.
pub open spec fn outputs_admitted(nodes: Seq<Node>, edges: Seq<Edge>, order: Seq<usize>, v: usize, out: Seq<u8>) -> bool {
    forall|j: int| #[trigger] outgoing(nodes, edges, order, v, j) ==> admits_payload(contract_view(edges[j]), out)
}

/// Edge `j` is the first outgoing edge of `v`, in stored order, whose contract `out` breaks.
pub open spec fn first_violation(nodes: Seq<Node>, edges: Seq<Edge>, order: Seq<usize>, v: usize, out: Seq<u8>, j: int) -> bool {
    &&& outgoing(nodes, edges, order, v, j)
    &&& !admits_payload(contract_view(edges[j]), out)
    &&& forall|k: int| 0 <= k < j && #[trigger] outgoing(nodes, edges, order, v, k) ==> admits_payload(contract_view(edges[k]), out)
}

pub open spec fn byte_views(outputs: Seq<Vec<u8>>) -> Seq<Seq<u8>> {
    outputs.map_values(|o: Vec<u8>| o@)
}

/// The target resolves to an order of nodes to run.
pub open spec fn resolves(target: Seq<char>, nodes: Seq<Node>, edges: Seq<Edge>) -> bool {
    exists|o: Result<Vec<usize>, Fault>| #[trigger] positions_of(target, nodes, edges, o) && o is Ok
}

/// The state of one invocation.
pub struct Invocation {
    /// Position of the target in the node list.
    pub target: usize,
    pub context: InvocationContext,
    pub input: Vec<u8>,
    /// Edges as node positions.
    pub edges: Vec<(usize, usize)>,
    /// The nodes to run, producers first.
    pub order: Vec<usize>,
    /// The outputs of `order[0..outputs.len()]`.
    pub outputs: Vec<Vec<u8>>,
    /// The end of the invocation, once reached.
    pub result: Option<Result<Vec<u8>, Fault>>,
}

impl Invocation {
    /// The invocation belongs to this graph: its order is the resolution of its target.
    pub open spec fn wf(&self, nodes: Seq<Node>, edges: Seq<Edge>) -> bool {
        &&& nodes.len() < usize::MAX
        &&& self.target < nodes.len()
        &&& self.edges@ == index_edges(nodes, edges)
        &&& is_resolution(self.edges@, node_keys(nodes), closure(self.edges@, (nodes.len() + 1) as nat, self.target), self.order@)
        &&& forall|k: int| 0 <= k < self.order@.len() ==> #[trigger] self.order@[k] < nodes.len()
        &&& self.outputs@.len() <= self.order@.len()
        &&& self.order@.contains(self.target)
        &&& (self.result is None ==> !self.order@.take(self.outputs@.len() as int).contains(self.target))
        &&& (self.result is None ==> self.outputs@.len() < self.order@.len())
        &&& admits(permission_of(nodes[self.target as int].permission@), self.context)
    }

    /// The permission check admits the current node.
    pub open spec fn current_admitted(&self, nodes: Seq<Node>) -> bool {
        admits(
            permission_of(nodes[self.current() as int].permission@),
            context_for(self.context, self.target, self.current()),
        )
    }

    /// How the invocation moves on when the current node produced `out`.
    pub open spec fn after_output(&self, next: Invocation, nodes: Seq<Node>, edges: Seq<Edge>, out: Seq<u8>) -> bool {
        let v = self.current();
        &&& next.target == self.target && next.context == self.context && next.input == self.input
        &&& next.edges == self.edges && next.order == self.order
        &&& if !self.current_admitted(nodes) {
            &&& next.outputs == self.outputs
            &&& next.result matches Some(Err(Fault::PermissionDenied { node, .. })) && node@ == nodes[v as int].id@
        } else if outputs_admitted(nodes, edges, self.order@, v, out) {
            &&& byte_views(next.outputs@) == byte_views(self.outputs@).push(out)
            &&& if v == self.target {
                next.result matches Some(Ok(o)) && o@ == out
            } else {
                next.result is None
            }
        } else {
            &&& next.outputs == self.outputs
            &&& next.result matches Some(Err(Fault::ContractViolation { from, to, .. }))
            &&& exists|j: int| #[trigger] first_violation(nodes, edges, self.order@, v, out, j)
                && from@ == edges[j].from_id@ && to@ == edges[j].to_id@
        }
    }

    /// The node whose turn it is.
    pub open spec fn current(&self) -> usize {
        self.order@[self.outputs@.len() as int]
    }

    pub open spec fn current_input(&self) -> Seq<u8> {
        input_for(self.edges@, self.order@, byte_views(self.outputs@), self.input@, self.outputs@.len() as int)
    }

    /// Resolves `target` and prepares to run it for a caller in `context`.
    pub fn start(
        target: &String,
        nodes: &Vec<Node>,
        edges: &Vec<Edge>,
        input: Vec<u8>,
        context: InvocationContext,
    ) -> (r: Result<Invocation, Fault>)
        requires
            nodes@.len() < usize::MAX,
        ensures
            r is Ok == (resolves(target@, nodes@, edges@) && admits(
                permission_of(nodes@[find_id(nodes@, target@)->Some_0 as int].permission@),
                context,
            )),
            resolves(target@, nodes@, edges@) && !admits(
                permission_of(nodes@[find_id(nodes@, target@)->Some_0 as int].permission@),
                context,
            ) ==> (r matches Err(Fault::PermissionDenied { node, .. }) && node@ == target@),
            r matches Ok(inv) ==> admits(permission_of(nodes@[inv.target as int].permission@), context),
            r matches Ok(inv) ==> {
                &&& inv.wf(nodes@, edges@)
                &&& find_id(nodes@, target@) == Some(inv.target)
                &&& inv.outputs@.len() == 0
                &&& inv.result is None
                &&& inv.input@ == input@
                &&& inv.context == context
            },
            !acyclic_on(index_edges(nodes@, edges@), all_nodes(nodes@.len() + 1)) ==> r matches Err(Fault::CycleDetected),
            !resolves(target@, nodes@, edges@) ==> (r matches Err(f) && exists|o: Result<Vec<usize>, Fault>|
                #[trigger] positions_of(target@, nodes@, edges@, o) && o == Err::<Vec<usize>, Fault>(f)),
    {
        let order = match resolve_positions(target, nodes, edges) {
            Err(f) => return Err(f),
            Ok(order) => order,
        };
        let t = match find_node(nodes, target) {
            Some(t) => t,
            None => return Err(Fault::UnknownNode),
        };
        if check(nodes[t].permission_state(), context) == Admission::Deny {
            proof {
                let i = choose|i: int| crate::graph::first_with_id(nodes@, target@, i);
            }
            return Err(
                Fault::PermissionDenied { node: nodes[t].id.clone(), reason: "a locked node is not directly invocable".to_owned() },
            );
        }
        let es = crate::graph::edge_indices(nodes, edges);
        proof {
            let c = closure(es@, (nodes@.len() + 1) as nat, t);
            assert(crate::order::is_walk(es@, seq![t]));
            assert(c.contains(t));
            assert(order@.contains(t));
        }
        Ok(Invocation { target: t, context, input, edges: es, order, outputs: Vec::new(), result: None })
    }
}


fn copy_bytes(src: &Vec<u8>) -> (r: Vec<u8>)
    ensures
        r@ == src@,
{
    let mut r: Vec<u8> = Vec::new();
    append_bytes(&mut r, src);
    proof {
        assert(r@ =~= src@);
    }
    r
}

fn append_bytes(buf: &mut Vec<u8>, src: &Vec<u8>)
    ensures
        final(buf)@ == old(buf)@ + src@,
{
    let ghost start = buf@;
    let mut i: usize = 0;
    while i < src.len()
        invariant
            i <= src@.len(),
            buf@ == start + src@.take(i as int),
        decreases src@.len() - i,
    {
        buf.push(src[i]);
        i = i + 1;
        proof {
            assert(src@.take(i as int) =~= src@.take(i - 1).push(src@[i - 1]));
            assert(buf@ =~= start + src@.take(i as int));
        }
    }
    proof {
        assert(src@.take(src@.len() as int) =~= src@);
    }
}

fn edge_exists(es: &Vec<(usize, usize)>, u: usize, v: usize) -> (r: bool)
    ensures
        r == has_edge(es@, u, v),
{
    let mut j: usize = 0;
    while j < es.len()
        invariant
            j <= es@.len(),
            forall|q: int| 0 <= q < j ==> es@[q] != (u, v),
        decreases es@.len() - j,
    {
        let (a, b) = es[j];
        if a == u && b == v {
            assert(es@[j as int] == (u, v));
            return true;
        }
        j = j + 1;
    }
    false
}

fn order_contains(order: &Vec<usize>, w: usize) -> (r: bool)
    ensures
        r == order@.contains(w),
{
    let mut k: usize = 0;
    while k < order.len()
        invariant
            k <= order@.len(),
            forall|q: int| 0 <= q < k ==> order@[q] != w,
        decreases order@.len() - k,
    {
        if order[k] == w {
            assert(order@[k as int] == w);
            return true;
        }
        k = k + 1;
    }
    false
}

/// Checks `out` against every outgoing edge of node `v`, in stored edge order.
fn check_outgoing(nodes: &Vec<Node>, edges: &Vec<Edge>, order: &Vec<usize>, v: usize, out: &Vec<u8>) -> (r: Result<(), Fault>)
    ensures
        r is Ok == outputs_admitted(nodes@, edges@, order@, v, out@),
        r matches Err(f) ==> f matches Fault::ContractViolation { from, to, .. } && exists|j: int|
            #[trigger] first_violation(nodes@, edges@, order@, v, out@, j) && from@ == edges@[j].from_id@
                && to@ == edges@[j].to_id@,
{
    let mut j: usize = 0;
    while j < edges.len()
        invariant
            j <= edges@.len(),
            forall|q: int| 0 <= q < j && #[trigger] outgoing(nodes@, edges@, order@, v, q) ==> admits_payload(
                contract_view(edges@[q]),
                out@,
            ),
        decreases edges@.len() - j,
    {
        let from = find_node(nodes, &edges[j].from_id);
        let to = find_node(nodes, &edges[j].to_id);
        if from == Some(v) {
            if let Some(w) = to {
                if order_contains(order, w) {
                    assert(outgoing(nodes@, edges@, order@, v, j as int));
                    match validate(&edges[j], out.as_slice()) {
                        Ok(()) => {},
                        Err(f) => {
                            assert(first_violation(nodes@, edges@, order@, v, out@, j as int));
                            return Err(f);
                        },
                    }
                }
            }
        }
        j = j + 1;
    }
    Ok(())
}

impl Invocation {
    /// The input of the current node.
    fn gather_input(&self) -> (r: Vec<u8>)
        requires
            self.outputs@.len() < self.order@.len(),
        ensures
            r@ == self.current_input(),
    {
        let k = self.outputs.len();
        let v = self.order[k];
        let ghost outs = byte_views(self.outputs@);
        let mut buf: Vec<u8> = Vec::new();
        let mut any: bool = false;
        let mut p: usize = 0;
        while p < k
            invariant
                k == self.outputs@.len(),
                k < self.order@.len(),
                v == self.order@[k as int],
                outs == byte_views(self.outputs@),
                p <= k,
                buf@ == joined_outputs(self.edges@, self.order@, outs, v, p as int),
                any == fed(self.edges@, self.order@, v, p as int),
            decreases k - p,
        {
            if edge_exists(&self.edges, self.order[p], v) {
                append_bytes(&mut buf, &self.outputs[p]);
                any = true;
            }
            proof {
                if fed(self.edges@, self.order@, v, p + 1) && !fed(self.edges@, self.order@, v, p as int) {
                    let q = choose|q: int| 0 <= q < p + 1 && #[trigger] has_edge(self.edges@, self.order@[q], v);
                    assert(q == p);
                }
                if fed(self.edges@, self.order@, v, p as int) {
                    let q = choose|q: int| 0 <= q < p && #[trigger] has_edge(self.edges@, self.order@[q], v);
                    assert(0 <= q < p + 1);
                }
                if any {
                    assert(has_edge(self.edges@, self.order@[p as int], v) ==> 0 <= p < p + 1);
                }
            }
            p = p + 1;
        }
        if any {
            buf
        } else {
            copy_bytes(&self.input)
        }
    }

    /// Moves on after the current node produced `out`: checks permission and the
    /// outgoing contracts, keeps the output, and completes at the target.
    fn take_output(&mut self, nodes: &Vec<Node>, edges: &Vec<Edge>, out: Vec<u8>)
        requires
            old(self).wf(nodes@, edges@),
            old(self).result is None,
        ensures
            final(self).wf(nodes@, edges@),
            old(self).after_output(*final(self), nodes@, edges@, out@),
    {
        let k = self.outputs.len();
        let v = self.order[k];
        let ctx = if v == self.target {
            self.context
        } else {
            InvocationContext::Internal
        };
        let p = nodes[v].permission_state();
        if check(p, ctx) == Admission::Deny {
            self.result = Some(
                Err(Fault::PermissionDenied { node: nodes[v].id.clone(), reason: "a locked node is not directly invocable".to_owned() }),
            );
            return;
        }
        match check_outgoing(nodes, edges, &self.order, v, &out) {
            Err(f) => {
                self.result = Some(Err(f));
            },
            Ok(()) => {
                let ghost before = self.outputs@;
                proof {
                    assert(self.order@.take(k + 1) =~= self.order@.take(k as int).push(v));
                }
                if v == self.target {
                    let copy = copy_bytes(&out);
                    self.outputs.push(out);
                    self.result = Some(Ok(copy));
                } else {
                    self.outputs.push(out);
                    proof {
                        if self.outputs@.len() == self.order@.len() {
                            assert(self.order@.take(self.outputs@.len() as int) =~= self.order@);
                        }
                    }
                }
                proof {
                    assert(byte_views(self.outputs@) =~= byte_views(before).push(out@));
                }
            },
        }
    }

    /// The next step of the invocation.
    pub fn next(&mut self, nodes: &Vec<Node>, edges: &Vec<Edge>) -> (r: Action)
        requires
            old(self).wf(nodes@, edges@),
        ensures
            final(self).wf(nodes@, edges@),
            old(self).result is Some ==> r is Finished && *final(self) == *old(self),
            old(self).result is None ==> {
                let v = old(self).current();
                if !old(self).current_admitted(nodes@) {
                    &&& r is Finished
                    &&& old(self).after_output(*final(self), nodes@, edges@, old(self).current_input())
                } else if nodes@[v as int].payload is None {
                    &&& r is Advanced
                    &&& old(self).after_output(*final(self), nodes@, edges@, old(self).current_input())
                } else {
                    &&& r matches Action::Run { position, input } && position == v && input@ == old(self).current_input()
                    &&& *final(self) == *old(self)
                }
            },
    {
        if self.result.is_some() {
            return Action::Finished;
        }
        let k = self.outputs.len();
        let v = self.order[k];
        let input = self.gather_input();
        let ctx = if v == self.target {
            self.context
        } else {
            InvocationContext::Internal
        };
        if check(nodes[v].permission_state(), ctx) == Admission::Deny {
            self.take_output(nodes, edges, input);
            return Action::Finished;
        }
        if nodes[v].payload.is_none() {
            self.take_output(nodes, edges, input);
            return Action::Advanced;
        }
        Action::Run { position: v, input }
    }

    /// Takes the outcome of the sandbox run that `next` asked for.
    pub fn record(&mut self, nodes: &Vec<Node>, edges: &Vec<Edge>, outcome: SandboxOutcome)
        requires
            old(self).wf(nodes@, edges@),
        ensures
            final(self).wf(nodes@, edges@),
            old(self).result is Some ==> *final(self) == *old(self),
            old(self).result is None ==> match outcome {
                SandboxOutcome::Output(out) => old(self).after_output(*final(self), nodes@, edges@, out@),
                SandboxOutcome::Trap(_) => {
                    &&& final(self).outputs == old(self).outputs
                    &&& final(self).result matches Some(Err(Fault::SandboxTrap { node, .. }))
                        && node@ == nodes@[old(self).current() as int].id@
                },
                SandboxOutcome::Timeout => {
                    &&& final(self).outputs == old(self).outputs
                    &&& final(self).result matches Some(Err(Fault::Timeout { node: Some(node) }))
                        && node@ == nodes@[old(self).current() as int].id@
                },
            },
    {
        if self.result.is_some() {
            return;
        }
        let v = self.order[self.outputs.len()];
        match outcome {
            SandboxOutcome::Output(out) => self.take_output(nodes, edges, out),
            SandboxOutcome::Trap(detail) => {
                self.result = Some(Err(Fault::SandboxTrap { node: nodes[v].id.clone(), detail }));
            },
            SandboxOutcome::Timeout => {
                self.result = Some(Err(Fault::Timeout { node: Some(nodes[v].id.clone()) }));
            },
        }
    }

    /// Ends the invocation early because its overall deadline passed or its
    /// caller went away; an invocation that already ended keeps its result.
    pub fn abort(&mut self)
        ensures
            forall|nodes: Seq<Node>, edges: Seq<Edge>| #[trigger] old(self).wf(nodes, edges) ==> final(self).wf(nodes, edges),
            old(self).result is Some ==> *final(self) == *old(self),
            old(self).result is None ==> final(self).outputs == old(self).outputs,
            old(self).result is None ==> final(self).result matches Some(Err(Fault::Timeout { node: None })),
    {
        if self.result.is_none() {
            self.result = Some(Err(Fault::Timeout { node: None }));
        }
    }

    /// The result of an invocation that has ended.
    pub fn into_result(self) -> (r: Result<Vec<u8>, Fault>)
        requires
            self.result is Some,
        ensures
            r == self.result->Some_0,
    {
        match self.result {
            Some(r) => r,
            None => Err(Fault::UnknownNode),
        }
    }
}


/// Every node that runs as a dependency of the target is admitted, locked or not.
pub proof fn lemma_dependency_admitted(inv: Invocation, nodes: Seq<Node>, edges: Seq<Edge>)
    requires
        inv.wf(nodes, edges),
        inv.result is None,
        inv.current() != inv.target,
    ensures
        inv.current_admitted(nodes),
{
}


/// Output that breaks the contract of one of the node's outgoing edges ends
/// the invocation with a violation named after the first offending edge, keeps no
/// output, and so runs no later node.
pub proof fn lemma_violation_halts(
    inv: Invocation,
    next: Invocation,
    nodes: Seq<Node>,
    edges: Seq<Edge>,
    out: Seq<u8>,
    j: int,
)
    requires
        inv.wf(nodes, edges),
        inv.result is None,
        inv.current_admitted(nodes),
        outgoing(nodes, edges, inv.order@, inv.current(), j),
        !admits_payload(contract_view(edges[j]), out),
        inv.after_output(next, nodes, edges, out),
    ensures
        next.outputs == inv.outputs,
        next.result matches Some(Err(Fault::ContractViolation { from, to, .. })) && exists|k: int|
            #[trigger] first_violation(nodes, edges, inv.order@, inv.current(), out, k) && from@ == edges[k].from_id@
                && to@ == edges[k].to_id@,
{
}


/// The input handed to a sandbox comes from the invocation's own input and
/// the outputs it computed itself: two invocations that agree on those, at
/// the same step of the same order, hand over the same bytes, whatever ran
/// before either of them.
pub proof fn lemma_input_from_own_state(a: Invocation, b: Invocation)
    requires
        a.edges@ == b.edges@,
        a.order@ == b.order@,
        byte_views(a.outputs@) == byte_views(b.outputs@),
        a.input@ == b.input@,
    ensures
        a.current_input() == b.current_input(),
{
    assert(a.outputs@.len() == byte_views(a.outputs@).len());
}


/// Only an admitted caller ever holds an invocation: for a locked target
/// asked for by an external caller, `start` refuses, so no invocation state
/// exists and none of the target's dependencies is ever handed out to run.
pub proof fn lemma_locked_target_never_starts(inv: Invocation, nodes: Seq<Node>, edges: Seq<Edge>)
    requires
        inv.wf(nodes, edges),
        inv.context == InvocationContext::External,
    ensures
        permission_of(nodes[inv.target as int].permission@) != NodePermission::LOCKED,
{
}

} // verus!
