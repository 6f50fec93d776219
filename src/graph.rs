//! Resolution of a target node over the stored nodes and edges.
//!
//! Node ids map to their position in the node list. An edge into an unknown
//! node can never be needed and is ignored; an edge out of an unknown node
//! is kept as an edge out of the extra index `nodes.len()`, so that a target
//! that depends on a missing node is reported as unknown.
use vstd::prelude::*;
use crate::model::{Edge, Fault, Node};
use crate::order::{acyclic_on, all_nodes, closure, edges_within, graph_is_acyclic, is_cycle, is_resolution, resolve_order, views_of};

verus! {

/// `i` is the first position whose node has this id.
pub open spec fn first_with_id(nodes: Seq<Node>, id: Seq<char>, i: int) -> bool {
    0 <= i < nodes.len() && nodes[i].id@ == id && forall|k: int| 0 <= k < i ==> nodes[k].id@ != id
}

pub open spec fn find_id(nodes: Seq<Node>, id: Seq<char>) -> Option<usize> {
    if exists|i: int| first_with_id(nodes, id, i) {
        Some((choose|i: int| first_with_id(nodes, id, i)) as usize)
    } else {
        None
    }
}

/// The edges as index pairs, in stored order.
pub open spec fn index_edges(nodes: Seq<Node>, es: Seq<Edge>) -> Seq<(usize, usize)>
    decreases es.len(),
{
    if es.len() == 0 {
        Seq::empty()
    } else {
        let rest = index_edges(nodes, es.drop_last());
        match find_id(nodes, es.last().to_id@) {
            None => rest,
            Some(t) => rest.push(
                (
                    match find_id(nodes, es.last().from_id@) {
                        Some(f) => f,
                        None => nodes.len() as usize,
                    },
                    t,
                ),
            ),
        }
    }
}

/// The ids of the nodes at the given positions.
pub open spec fn ids_at(nodes: Seq<Node>, idx: Seq<usize>) -> Seq<Seq<char>> {
    idx.map_values(|k: usize| nodes[k as int].id@)
}

/// The key of each position: the node's id, and the empty text for the
/// extra position that stands for missing nodes.
pub open spec fn node_keys(nodes: Seq<Node>) -> Seq<Seq<char>> {
    nodes.map_values(|n: Node| n.id@).push(Seq::empty())
}

/// What resolving `target` must give: a cycle anywhere in the graph; an
/// unknown target; a dependency on a missing node; or the ids of the target
/// and its dependencies in their one resolution order.
pub open spec fn resolution_of(
    target: Seq<char>,
    nodes: Seq<Node>,
    edges: Seq<Edge>,
    r: Result<Vec<String>, Fault>,
) -> bool {
    let es = index_edges(nodes, edges);
    let n = nodes.len();
    if !acyclic_on(es, all_nodes(n + 1)) {
        r matches Err(Fault::CycleDetected)
    } else {
        match find_id(nodes, target) {
            None => r matches Err(Fault::UnknownNode),
            Some(t) => {
                let c = closure(es, n + 1, t);
                if c.contains(n as usize) {
                    r matches Err(Fault::UnknownNode)
                } else {
                    &&& r is Ok
                    &&& exists|idx: Seq<usize>|
                        is_resolution(es, node_keys(nodes), c, idx) && #[trigger] ids_at(nodes, idx) == views_of(r->Ok_0@)
                }
            },
        }
    }
}

pub(crate) fn find_node(nodes: &Vec<Node>, id: &String) -> (r: Option<usize>)
    ensures
        r == find_id(nodes@, id@),
{
    let mut i: usize = 0;
    while i < nodes.len()
        invariant
            i <= nodes@.len(),
            forall|k: int| 0 <= k < i ==> nodes@[k].id@ != id@,
        decreases nodes@.len() - i,
    {
        if nodes[i].id == *id {
            proof {
                assert(first_with_id(nodes@, id@, i as int));
                let j = choose|j: int| first_with_id(nodes@, id@, j);
                assert(j == i);
            }
            return Some(i);
        }
        i = i + 1;
    }
    None
}

proof fn lemma_index_edges_within(nodes: Seq<Node>, es: Seq<Edge>)
    ensures
        edges_within(index_edges(nodes, es), nodes.len() + 1),
    decreases es.len(),
{
    if es.len() > 0 {
        lemma_index_edges_within(nodes, es.drop_last());
        if let Some(f) = find_id(nodes, es.last().from_id@) {
            let i = choose|i: int| first_with_id(nodes, es.last().from_id@, i);
        }
        if let Some(t) = find_id(nodes, es.last().to_id@) {
            let i = choose|i: int| first_with_id(nodes, es.last().to_id@, i);
        }
    }
}

pub(crate) fn edge_indices(nodes: &Vec<Node>, edges: &Vec<Edge>) -> (r: Vec<(usize, usize)>)
    ensures
        r@ == index_edges(nodes@, edges@),
{
    let mut out: Vec<(usize, usize)> = Vec::new();
    let mut i: usize = 0;
    while i < edges.len()
        invariant
            i <= edges@.len(),
            out@ == index_edges(nodes@, edges@.take(i as int)),
        decreases edges@.len() - i,
    {
        proof {
            assert(edges@.take(i + 1).drop_last() =~= edges@.take(i as int));
        }
        match find_node(nodes, &edges[i].to_id) {
            None => {},
            Some(t) => {
                let f = match find_node(nodes, &edges[i].from_id) {
                    Some(f) => f,
                    None => nodes.len(),
                };
                out.push((f, t));
            },
        }
        i = i + 1;
    }
    proof {
        assert(edges@.take(edges@.len() as int) =~= edges@);
    }
    out
}

fn node_key_list(nodes: &Vec<Node>) -> (r: Vec<String>)
    ensures
        r@.len() == nodes@.len() + 1,
        views_of(r@) == node_keys(nodes@),
{
    let mut keys: Vec<String> = Vec::new();
    let mut i: usize = 0;
    while i < nodes.len()
        invariant
            i <= nodes@.len(),
            keys@.len() == i,
            forall|k: int| 0 <= k < i ==> (#[trigger] keys@[k])@ == nodes@[k].id@,
        decreases nodes@.len() - i,
    {
        keys.push(nodes[i].id.clone());
        i = i + 1;
    }
    keys.push(String::new());
    proof {
        assert(views_of(keys@) =~= node_keys(nodes@));
    }
    keys
}

/// A cycle anywhere among the stored nodes makes resolution of any
/// target fail with `CycleDetected`, whether or not the target needs it.
pub proof fn lemma_any_cycle_detected(
    target: Seq<char>,
    nodes: Seq<Node>,
    edges: Seq<Edge>,
    r: Result<Vec<String>, Fault>,
    p: Seq<usize>,
)
    requires
        resolution_of(target, nodes, edges, r),
        is_cycle(index_edges(nodes, edges), p),
    ensures
        r matches Err(Fault::CycleDetected),
{
    let es = index_edges(nodes, edges);
    lemma_index_edges_within(nodes, edges);
    assert forall|k: int| 0 <= k < p.len() implies all_nodes(nodes.len() + 1).contains(#[trigger] p[k]) by {
        let i = if k < p.len() - 1 { k } else { 0 };
        assert(p[i] == p[k]);
        assert(crate::order::has_edge(es, p[i], p[i + 1]));
        let j = choose|j: int| 0 <= j < es.len() && #[trigger] es[j] == (p[i], p[i + 1]);
    }
    crate::order::lemma_cycle_detected(es, all_nodes(nodes.len() + 1), p);
}

/// What resolving `target` to node positions must give: a cycle anywhere in
/// the graph; an unknown target; a dependency on a missing node; or the one
/// resolution order of the target and its dependencies.
pub open spec fn positions_of(
    target: Seq<char>,
    nodes: Seq<Node>,
    edges: Seq<Edge>,
    r: Result<Vec<usize>, Fault>,
) -> bool {
    let es = index_edges(nodes, edges);
    let n = nodes.len();
    if !acyclic_on(es, all_nodes(n + 1)) {
        r matches Err(Fault::CycleDetected)
    } else {
        match find_id(nodes, target) {
            None => r matches Err(Fault::UnknownNode),
            Some(t) => {
                let c = closure(es, n + 1, t);
                if c.contains(n as usize) {
                    r matches Err(Fault::UnknownNode)
                } else {
                    r matches Ok(o) && is_resolution(es, node_keys(nodes), c, o@)
                }
            },
        }
    }
}

/// Resolves `target` to the positions, in `nodes`, of the nodes to run.
pub fn resolve_positions(target: &String, nodes: &Vec<Node>, edges: &Vec<Edge>) -> (r: Result<Vec<usize>, Fault>)
    requires
        nodes@.len() < usize::MAX,
    ensures
        positions_of(target@, nodes@, edges@, r),
        !acyclic_on(index_edges(nodes@, edges@), all_nodes(nodes@.len() + 1)) ==> r matches Err(Fault::CycleDetected),
        r matches Ok(o) ==> forall|k: int| 0 <= k < o@.len() ==> #[trigger] o@[k] < nodes@.len(),
{
    let n = nodes.len();
    let es = edge_indices(nodes, edges);
    let keys = node_key_list(nodes);
    proof {
        lemma_index_edges_within(nodes@, edges@);
    }
    if !graph_is_acyclic(n + 1, &es, &keys) {
        return Err(Fault::CycleDetected);
    }
    let t = match find_node(nodes, target) {
        None => return Err(Fault::UnknownNode),
        Some(t) => t,
    };
    proof {
        let i = choose|i: int| first_with_id(nodes@, target@, i);
    }
    let order = match resolve_order(n + 1, &es, &keys, t) {
        None => return Err(Fault::CycleDetected),
        Some(order) => order,
    };
    let ghost c = closure(es@, (n + 1) as nat, t);
    let mut k: usize = 0;
    while k < order.len()
        invariant
            k <= order@.len(),
            n == nodes@.len(),
            is_resolution(es@, node_keys(nodes@), c, order@),
            c == closure(es@, (n + 1) as nat, t),
            forall|q: int| 0 <= q < k ==> #[trigger] order@[q] < n,
            acyclic_on(es@, all_nodes((n + 1) as nat)),
            es@ == index_edges(nodes@, edges@),
            find_id(nodes@, target@) == Some(t),
        decreases order@.len() - k,
    {
        proof {
            assert(c.contains(order@[k as int]));
        }
        if order[k] == n {
            return Err(Fault::UnknownNode);
        }
        k = k + 1;
    }
    proof {
        if c.contains(n as usize) {
            assert(order@.contains(n as usize));
        }
    }
    Ok(order)
}

/// Orders the target and everything it depends on, producers first; among
/// nodes that are ready together, the smallest id runs first.
pub fn resolve(target: &String, nodes: &Vec<Node>, edges: &Vec<Edge>) -> (r: Result<Vec<String>, Fault>)
    requires
        nodes@.len() < usize::MAX,
    ensures
        resolution_of(target@, nodes@, edges@, r),
        !acyclic_on(index_edges(nodes@, edges@), all_nodes(nodes@.len() + 1)) ==> r matches Err(Fault::CycleDetected),
{
    let order = match resolve_positions(target, nodes, edges) {
        Err(f) => return Err(f),
        Ok(order) => order,
    };
    let mut ids: Vec<String> = Vec::new();
    let mut k: usize = 0;
    while k < order.len()
        invariant
            k <= order@.len(),
            ids@.len() == k,
            forall|q: int| 0 <= q < order@.len() ==> #[trigger] order@[q] < nodes@.len(),
            forall|q: int| 0 <= q < k ==> (#[trigger] ids@[q])@ == nodes@[order@[q] as int].id@,
        decreases order@.len() - k,
    {
        let id = nodes[order[k]].id.clone();
        ids.push(id);
        k = k + 1;
    }
    proof {
        assert(ids_at(nodes@, order@) =~= views_of(ids@));
    }
    Ok(ids)
}

/// Resolving the same target against an unchanged graph gives the same
/// answer every time: the same fault, or the same order of node ids.
pub proof fn lemma_resolve_deterministic(
    target: Seq<char>,
    nodes: Seq<Node>,
    edges: Seq<Edge>,
    r1: Result<Vec<String>, Fault>,
    r2: Result<Vec<String>, Fault>,
)
    requires
        resolution_of(target, nodes, edges, r1),
        resolution_of(target, nodes, edges, r2),
    ensures
        r1 is Ok == r2 is Ok,
        r1 is Ok ==> views_of(r1->Ok_0@) == views_of(r2->Ok_0@),
        r1 matches Err(Fault::UnknownNode) <==> r2 matches Err(Fault::UnknownNode),
        r1 matches Err(Fault::CycleDetected) <==> r2 matches Err(Fault::CycleDetected),
{
    let es = index_edges(nodes, edges);
    if let Some(t) = find_id(nodes, target) {
        let c = closure(es, nodes.len() + 1, t);
        if acyclic_on(es, all_nodes(nodes.len() + 1)) && !c.contains(nodes.len() as usize) {
            let i1 = choose|idx: Seq<usize>|
                is_resolution(es, node_keys(nodes), c, idx) && #[trigger] ids_at(nodes, idx) == views_of(r1->Ok_0@);
            let i2 = choose|idx: Seq<usize>|
                is_resolution(es, node_keys(nodes), c, idx) && #[trigger] ids_at(nodes, idx) == views_of(r2->Ok_0@);
            crate::order::lemma_resolution_unique(es, node_keys(nodes), c, i1, i2);
        }
    }
}

} // verus!
