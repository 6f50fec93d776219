use logos::contract::{fields_conform, validate};
use logos::coordinator::{Action, Invocation, SandboxOutcome};
use logos::graph::{resolve, resolve_positions};
use logos::model::{check, Admission, Edge, Fault, InvocationContext, Node, NodePermission};
use logos::order::{graph_is_acyclic, resolve_order};
use logos::runtime::{Runtime, DEFAULT_NODE_FUEL};

fn node(id: &str, payload: Option<&[u8]>, permission: &str) -> Node {
    Node {
        id: id.to_string(),
        name: format!("node {}", id),
        node_type: "compute".to_string(),
        payload: payload.map(|p| p.to_vec()),
        wasm_hash: None,
        permission: permission.to_string(),
    }
}

fn edge(from: &str, to: &str, contract: Option<&str>) -> Edge {
    Edge { from_id: from.to_string(), to_id: to.to_string(), contract: contract.map(|c| c.to_string()) }
}

fn ids(v: &[&str]) -> Vec<String> {
    v.iter().map(|s| s.to_string()).collect()
}

/// Runs an invocation with a stand-in sandbox: a module whose bytes are
/// `trap` traps, `slow` times out, `json:<text>` outputs `<text>`, and any
/// other module outputs its own bytes followed by its input.
fn run(
    target: &str,
    nodes: &Vec<Node>,
    edges: &Vec<Edge>,
    input: &[u8],
    ctx: InvocationContext,
    log: &mut Vec<String>,
) -> Result<Vec<u8>, Fault> {
    let mut inv = Invocation::start(&target.to_string(), nodes, edges, input.to_vec(), ctx)?;
    loop {
        match inv.next(nodes, edges) {
            Action::Run { position, input } => {
                let n = &nodes[position];
                log.push(n.id.clone());
                let module = n.payload.clone().unwrap();
                let outcome = if module == b"trap" {
                    SandboxOutcome::Trap("unreachable executed".to_string())
                } else if module == b"slow" {
                    SandboxOutcome::Timeout
                } else if module.starts_with(b"json:") {
                    SandboxOutcome::Output(module[5..].to_vec())
                } else {
                    let mut out = module.clone();
                    out.extend_from_slice(&input);
                    SandboxOutcome::Output(out)
                };
                inv.record(nodes, edges, outcome);
            }
            Action::Advanced => {}
            Action::Finished => return inv.into_result(),
        }
    }
}

#[test]
fn resolve_chain_orders_producers_first() {
    let nodes = vec![node("C", Some(b"c"), "OPEN"), node("B", Some(b"b"), "OPEN"), node("A", Some(b"a"), "OPEN")];
    let edges = vec![edge("B", "C", None), edge("A", "B", None)];
    assert_eq!(resolve(&"C".to_string(), &nodes, &edges), Ok(ids(&["A", "B", "C"])));
    assert_eq!(resolve(&"B".to_string(), &nodes, &edges), Ok(ids(&["A", "B"])));
}

#[test]
fn resolve_is_deterministic() {
    let nodes = vec![node("T", None, "OPEN"), node("Y", None, "OPEN"), node("X", None, "OPEN")];
    let edges = vec![edge("X", "T", None), edge("Y", "T", None)];
    let first = resolve(&"T".to_string(), &nodes, &edges);
    let second = resolve(&"T".to_string(), &nodes, &edges);
    assert_eq!(first, second);
    // independent producers run by ascending id
    assert_eq!(first, Ok(ids(&["X", "Y", "T"])));
}

#[test]
fn resolve_ignores_nodes_not_needed() {
    let nodes = vec![node("A", None, "OPEN"), node("B", None, "OPEN"), node("Z", None, "OPEN")];
    let edges = vec![edge("A", "B", None), edge("B", "Z", None)];
    assert_eq!(resolve(&"B".to_string(), &nodes, &edges), Ok(ids(&["A", "B"])));
    assert_eq!(resolve_positions(&"B".to_string(), &nodes, &edges), Ok(vec![0, 1]));
}

#[test]
fn resolve_diamond() {
    let nodes = vec![node("D", None, "OPEN"), node("C", None, "OPEN"), node("B", None, "OPEN"), node("A", None, "OPEN")];
    let edges = vec![edge("A", "B", None), edge("A", "C", None), edge("B", "D", None), edge("C", "D", None)];
    assert_eq!(resolve(&"D".to_string(), &nodes, &edges), Ok(ids(&["A", "B", "C", "D"])));
}

#[test]
fn resolve_detects_cycle() {
    let nodes = vec![node("A", None, "OPEN"), node("B", None, "OPEN"), node("C", None, "OPEN")];
    let edges = vec![edge("A", "B", None), edge("B", "A", None), edge("B", "C", None)];
    assert_eq!(resolve(&"C".to_string(), &nodes, &edges), Err(Fault::CycleDetected));
    let self_loop = vec![edge("A", "A", None)];
    assert_eq!(resolve(&"A".to_string(), &nodes, &self_loop), Err(Fault::CycleDetected));
}

#[test]
fn resolve_unknown_target_and_missing_dependency() {
    let nodes = vec![node("A", None, "OPEN"), node("B", None, "OPEN")];
    let edges = vec![edge("ghost", "B", None), edge("A", "nowhere", None)];
    assert_eq!(resolve(&"Q".to_string(), &nodes, &edges), Err(Fault::UnknownNode));
    assert_eq!(resolve(&"B".to_string(), &nodes, &edges), Err(Fault::UnknownNode));
    assert_eq!(resolve(&"A".to_string(), &nodes, &edges), Ok(ids(&["A"])));
}

#[test]
fn resolve_order_on_indices() {
    let keys = ids(&["c", "b", "a"]);
    assert_eq!(resolve_order(3, &vec![(2, 1), (1, 0)], &keys, 0), Some(vec![2, 1, 0]));
    assert_eq!(resolve_order(3, &vec![(0, 1), (1, 0)], &keys, 1), None);
    assert_eq!(resolve_order(3, &vec![(2, 0), (1, 0)], &keys, 0), Some(vec![2, 1, 0]));
    assert_eq!(resolve_order(1, &vec![], &ids(&["x"]), 0), Some(vec![0]));
}

#[test]
fn ties_follow_ids_not_list_order() {
    let forward = vec![node("a", None, "OPEN"), node("b", None, "OPEN"), node("ab", None, "OPEN"), node("t", None, "OPEN")];
    let backward = vec![node("t", None, "OPEN"), node("ab", None, "OPEN"), node("b", None, "OPEN"), node("a", None, "OPEN")];
    let edges = vec![edge("b", "t", None), edge("ab", "t", None), edge("a", "t", None)];
    let expected = Ok(ids(&["a", "ab", "b", "t"]));
    assert_eq!(resolve(&"t".to_string(), &forward, &edges), expected);
    assert_eq!(resolve(&"t".to_string(), &backward, &edges), expected);
}

#[test]
fn cycle_outside_dependencies_is_detected() {
    let nodes = vec![node("A", None, "OPEN"), node("B", None, "OPEN")];
    let edges = vec![edge("B", "B", None)];
    assert_eq!(resolve(&"A".to_string(), &nodes, &edges), Err(Fault::CycleDetected));
    assert_eq!(resolve(&"Q".to_string(), &nodes, &edges), Err(Fault::CycleDetected));
}

#[test]
fn whole_graph_acyclicity() {
    let keys = ids(&["a", "b", "c"]);
    assert!(graph_is_acyclic(3, &vec![(0, 1), (1, 2)], &keys));
    assert!(!graph_is_acyclic(3, &vec![(0, 1), (2, 2)], &keys));
}

#[test]
fn permission_text() {
    assert_eq!(NodePermission::parse(&"LOCKED".to_string()), NodePermission::LOCKED);
    assert_eq!(NodePermission::parse(&"OPEN".to_string()), NodePermission::OPEN);
    assert_eq!(NodePermission::parse(&"locked".to_string()), NodePermission::OPEN);
    assert_eq!(NodePermission::from("LOCKED".to_string()), NodePermission::LOCKED);
    assert_eq!(NodePermission::LOCKED.as_str(), "LOCKED");
    let open: &str = NodePermission::OPEN.as_ref();
    assert_eq!(open, "OPEN");
    let locked: &str = NodePermission::LOCKED.as_ref();
    assert_eq!(locked, "LOCKED");
    for p in [NodePermission::LOCKED, NodePermission::OPEN] {
        let text: &str = p.as_ref();
        assert_eq!(NodePermission::from(text.to_string()), p);
    }
}

#[test]
fn permission_decisions() {
    assert_eq!(check(NodePermission::LOCKED, InvocationContext::External), Admission::Deny);
    assert_eq!(check(NodePermission::LOCKED, InvocationContext::Internal), Admission::Admit);
    assert_eq!(check(NodePermission::OPEN, InvocationContext::External), Admission::Admit);
    assert_eq!(check(NodePermission::OPEN, InvocationContext::Internal), Admission::Admit);
}

#[test]
fn chain_feeds_outputs_forward() {
    let nodes = vec![node("A", Some(b"a"), "OPEN"), node("B", Some(b"b"), "OPEN"), node("C", Some(b"c"), "OPEN")];
    let edges = vec![edge("A", "B", None), edge("B", "C", None)];
    let mut log = Vec::new();
    let r = run("C", &nodes, &edges, b"in", InvocationContext::External, &mut log);
    assert_eq!(r, Ok(b"cbain".to_vec()));
    assert_eq!(log, ids(&["A", "B", "C"]));
}

#[test]
fn trap_in_middle_stops_chain() {
    let nodes = vec![node("A", Some(b"a"), "OPEN"), node("B", Some(b"trap"), "OPEN"), node("C", Some(b"c"), "OPEN")];
    let edges = vec![edge("A", "B", None), edge("B", "C", None)];
    let mut log = Vec::new();
    let r = run("C", &nodes, &edges, b"in", InvocationContext::External, &mut log);
    assert_eq!(
        r,
        Err(Fault::SandboxTrap { node: "B".to_string(), detail: "unreachable executed".to_string() })
    );
    assert_eq!(log, ids(&["A", "B"]));
}

#[test]
fn locked_node_denied_directly_admitted_as_dependency() {
    let nodes = vec![node("A", Some(b"a"), "OPEN"), node("B", Some(b"b"), "LOCKED"), node("X", Some(b"x"), "OPEN")];
    let edges = vec![edge("A", "B", None), edge("B", "X", None)];
    let mut log = Vec::new();
    let r = run("B", &nodes, &edges, b"", InvocationContext::External, &mut log);
    assert!(matches!(r, Err(Fault::PermissionDenied { ref node, .. }) if node == "B"));
    assert!(log.is_empty());
    let mut log = Vec::new();
    let r = run("X", &nodes, &edges, b"", InvocationContext::External, &mut log);
    assert_eq!(r, Ok(b"xba".to_vec()));
    assert_eq!(log, ids(&["A", "B", "X"]));
}

#[test]
fn locked_target_denied_before_any_dependency_runs() {
    let nodes = vec![node("A", Some(b"trap"), "OPEN"), node("B", Some(b"b"), "LOCKED")];
    let edges = vec![edge("A", "B", None)];
    let mut log = Vec::new();
    let r = run("B", &nodes, &edges, b"", InvocationContext::External, &mut log);
    assert!(matches!(r, Err(Fault::PermissionDenied { ref node, .. }) if node == "B"));
    assert!(log.is_empty());
}

#[test]
fn first_offending_edge_is_named() {
    let nodes = vec![
        node("A", Some(b"json:{\"x\":1}"), "OPEN"),
        node("B", Some(b"b"), "OPEN"),
        node("C", Some(b"c"), "OPEN"),
        node("T", Some(b"t"), "OPEN"),
    ];
    let edges = vec![
        edge("A", "B", Some("{\"x\":0}")),
        edge("A", "C", Some("{\"y\":0}")),
        edge("A", "B", Some("{\"z\":0}")),
        edge("B", "T", None),
        edge("C", "T", None),
    ];
    let mut log = Vec::new();
    let r = run("T", &nodes, &edges, b"", InvocationContext::External, &mut log);
    assert_eq!(
        r,
        Err(Fault::ContractViolation {
            from: "A".to_string(),
            to: "C".to_string(),
            detail: "payload does not carry the fields that the contract requires".to_string(),
        })
    );
    assert_eq!(log, ids(&["A"]));
}

#[test]
fn locked_target_runs_for_internal_caller() {
    let nodes = vec![node("B", Some(b"b"), "LOCKED")];
    let mut log = Vec::new();
    let r = run("B", &nodes, &vec![], b"1", InvocationContext::Internal, &mut log);
    assert_eq!(r, Ok(b"b1".to_vec()));
}

#[test]
fn contract_violation_blocks_consumer() {
    let nodes = vec![node("A", Some(b"json:{\"other\":1}"), "OPEN"), node("B", Some(b"b"), "OPEN")];
    let edges = vec![edge("A", "B", Some("{\"name\":\"string\"}"))];
    let mut log = Vec::new();
    let r = run("B", &nodes, &edges, b"", InvocationContext::External, &mut log);
    assert!(matches!(r, Err(Fault::ContractViolation { ref from, ref to, .. }) if from == "A" && to == "B"));
    assert_eq!(log, ids(&["A"]));
}

#[test]
fn contract_satisfied_lets_data_through() {
    let nodes = vec![node("A", Some(b"json:{\"name\":\"x\",\"n\":2}"), "OPEN"), node("B", Some(b"b"), "OPEN")];
    let edges = vec![edge("A", "B", Some("{\"name\":\"string\"}"))];
    let mut log = Vec::new();
    let r = run("B", &nodes, &edges, b"", InvocationContext::External, &mut log);
    assert_eq!(r, Ok(b"b{\"name\":\"x\",\"n\":2}".to_vec()));
    assert_eq!(log, ids(&["A", "B"]));
}

#[test]
fn validate_by_contract() {
    let e = edge("A", "B", Some("{\"a\":1,\"b\":2}"));
    assert_eq!(validate(&e, b"{\"a\":0,\"b\":0,\"c\":0}"), Ok(()));
    assert!(matches!(validate(&e, b"{\"a\":0}"), Err(Fault::ContractViolation { .. })));
    assert!(matches!(validate(&e, b"not json"), Err(Fault::ContractViolation { .. })));
    assert!(matches!(validate(&e, b"[1,2]"), Err(Fault::ContractViolation { .. })));
    let bad_schema = edge("A", "B", Some("nonsense"));
    assert!(matches!(validate(&bad_schema, b"{}"), Err(Fault::ContractViolation { .. })));
    let empty_schema = edge("A", "B", Some("{}"));
    assert_eq!(validate(&empty_schema, b"{\"x\":1}"), Ok(()));
}

#[test]
fn no_contract_admits_anything() {
    let e = edge("A", "B", None);
    assert_eq!(validate(&e, b""), Ok(()));
    assert_eq!(validate(&e, &[0xff, 0x00, 0x12]), Ok(()));
    assert_eq!(validate(&e, b"not json"), Ok(()));
}

#[test]
fn field_conformance() {
    let req = Some(ids(&["a", "b"]));
    assert!(fields_conform(&req, &Some(ids(&["b", "c", "a"]))));
    assert!(!fields_conform(&req, &Some(ids(&["a"]))));
    assert!(!fields_conform(&req, &None));
    assert!(!fields_conform(&None, &Some(ids(&["a"]))));
    assert!(fields_conform(&Some(vec![]), &Some(vec![])));
}

#[test]
fn pass_through_node_forwards_input() {
    let nodes = vec![node("A", Some(b"a"), "OPEN"), node("P", None, "OPEN"), node("C", Some(b"c"), "OPEN")];
    let edges = vec![edge("A", "P", None), edge("P", "C", None)];
    let mut log = Vec::new();
    let r = run("C", &nodes, &edges, b"!", InvocationContext::External, &mut log);
    assert_eq!(r, Ok(b"ca!".to_vec()));
    assert_eq!(log, ids(&["A", "C"]));
}

#[test]
fn producers_joined_in_order() {
    let nodes = vec![node("X", Some(b"x"), "OPEN"), node("Y", Some(b"y"), "OPEN"), node("T", Some(b"t"), "OPEN")];
    let edges = vec![edge("Y", "T", None), edge("X", "T", None)];
    let mut log = Vec::new();
    let r = run("T", &nodes, &edges, b"-", InvocationContext::External, &mut log);
    assert_eq!(r, Ok(b"tx-y-".to_vec()));
}

#[test]
fn shared_producer_runs_once() {
    let nodes = vec![node("A", Some(b"a"), "OPEN"), node("B", Some(b"b"), "OPEN"), node("C", Some(b"c"), "OPEN"), node("D", Some(b"d"), "OPEN")];
    let edges = vec![edge("A", "B", None), edge("A", "C", None), edge("B", "D", None), edge("C", "D", None)];
    let mut log = Vec::new();
    let r = run("D", &nodes, &edges, b"", InvocationContext::External, &mut log);
    assert_eq!(r, Ok(b"dbaca".to_vec()));
    assert_eq!(log, ids(&["A", "B", "C", "D"]));
}

#[test]
fn separate_invocations_do_not_share_state() {
    let nodes = vec![node("M", Some(b"m"), "OPEN")];
    let mut log = Vec::new();
    let first = run("M", &nodes, &vec![], b"one", InvocationContext::External, &mut log);
    let second = run("M", &nodes, &vec![], b"two", InvocationContext::External, &mut log);
    let again = run("M", &nodes, &vec![], b"one", InvocationContext::External, &mut log);
    assert_eq!(first, Ok(b"mone".to_vec()));
    assert_eq!(second, Ok(b"mtwo".to_vec()));
    assert_eq!(first, again);
}

#[test]
fn node_timeout_is_reported() {
    let nodes = vec![node("S", Some(b"slow"), "OPEN"), node("T", Some(b"t"), "OPEN")];
    let edges = vec![edge("S", "T", None)];
    let mut log = Vec::new();
    let r = run("T", &nodes, &edges, b"", InvocationContext::External, &mut log);
    assert_eq!(r, Err(Fault::Timeout { node: Some("S".to_string()) }));
    assert_eq!(log, ids(&["S"]));
}

#[test]
fn abort_ends_with_invocation_timeout() {
    let nodes = vec![node("A", Some(b"a"), "OPEN")];
    let edges: Vec<Edge> = vec![];
    let mut inv = Invocation::start(&"A".to_string(), &nodes, &edges, vec![], InvocationContext::External).unwrap();
    inv.abort();
    assert!(matches!(inv.next(&nodes, &edges), Action::Finished));
    assert_eq!(inv.into_result(), Err(Fault::Timeout { node: None }));
}

#[test]
fn start_reports_resolution_faults() {
    let nodes = vec![node("A", None, "OPEN")];
    let edges = vec![edge("A", "A", None)];
    assert!(matches!(
        Invocation::start(&"A".to_string(), &nodes, &edges, vec![], InvocationContext::External),
        Err(Fault::CycleDetected)
    ));
    assert!(matches!(
        Invocation::start(&"Z".to_string(), &nodes, &edges, vec![], InvocationContext::External),
        Err(Fault::CycleDetected)
    ));
    assert!(matches!(
        Invocation::start(&"Z".to_string(), &nodes, &vec![], vec![], InvocationContext::External),
        Err(Fault::UnknownNode)
    ));
}

#[test]
fn runtime_defaults() {
    let rt = Runtime::new().unwrap();
    assert!(rt.capabilities.is_empty());
    assert_eq!(rt.node_fuel, DEFAULT_NODE_FUEL);
}
