//! Dependency closure and deterministic topological order over an indexed graph.
//!
//! Nodes are the indices `0..n`; an edge `(u, v)` says that `u` produces data
//! that `v` consumes, so `u` must run before `v`.
use vstd::prelude::*;
use vstd::string::StrSliceExecFns;

verus! {

/// Every edge endpoint names one of the `n` nodes.
pub open spec fn edges_within(es: Seq<(usize, usize)>, n: nat) -> bool {
    forall|j: int| 0 <= j < es.len() ==> (es[j].0 as nat) < n && (es[j].1 as nat) < n
}

/// Some edge runs from `u` to `v`.
pub open spec fn has_edge(es: Seq<(usize, usize)>, u: usize, v: usize) -> bool {
    exists|j: int| 0 <= j < es.len() && #[trigger] es[j] == (u, v)
}

/// `p` follows edges forward, from `p[0]` to its last node.
pub open spec fn is_walk(es: Seq<(usize, usize)>, p: Seq<usize>) -> bool {
    p.len() > 0 && forall|i: int| 0 <= i < p.len() - 1 ==> has_edge(es, #[trigger] p[i], p[i + 1])
}

pub open spec fn reaches(es: Seq<(usize, usize)>, u: usize, t: usize) -> bool {
    exists|p: Seq<usize>| #[trigger] is_walk(es, p) && p[0] == u && p.last() == t
}

/// The target together with all of its transitive dependencies.
pub open spec fn closure(es: Seq<(usize, usize)>, n: nat, t: usize) -> Set<usize> {
    Set::new(|v: usize| (v as nat) < n && reaches(es, v, t))
}

/// Every producer feeding `v` is already in `done`.
pub open spec fn preds_in(es: Seq<(usize, usize)>, done: Seq<usize>, v: usize) -> bool {
    forall|j: int| 0 <= j < es.len() && es[j].1 == v ==> done.contains(es[j].0)
}

/// `v` may run next after `done`: it is needed, not yet run, and its inputs exist.
pub open spec fn ready(es: Seq<(usize, usize)>, c: Set<usize>, done: Seq<usize>, v: usize) -> bool {
    c.contains(v) && !done.contains(v) && preds_in(es, done, v)
}

/// `order` runs nodes of `c` at most once each, producers before consumers,
/// and at every step picks, among the nodes that are ready, the one with the
/// smallest key (the smallest position among equal keys).
pub open spec fn is_partial_resolution(es: Seq<(usize, usize)>, keys: Seq<Seq<char>>, c: Set<usize>, order: Seq<usize>) -> bool {
    &&& order.no_duplicates()
    &&& forall|i: int| 0 <= i < order.len() ==> c.contains(#[trigger] order[i])
    &&& forall|i: int| 0 <= i < order.len() ==> preds_in(es, order.take(i), #[trigger] order[i])
    &&& forall|i: int, v: usize|
        0 <= i < order.len() && #[trigger] ready(es, c, order.take(i), v) ==> precedes(keys, order[i], v)
}

/// A partial resolution that runs every node of `c`.
pub open spec fn is_resolution(es: Seq<(usize, usize)>, keys: Seq<Seq<char>>, c: Set<usize>, order: Seq<usize>) -> bool {
    &&& is_partial_resolution(es, keys, c, order)
    &&& forall|v: usize| c.contains(v) ==> order.contains(v)
}

pub open spec fn views_of(v: Seq<String>) -> Seq<Seq<char>> {
    v.map_values(|s: String| s@)
}

/// Every node below `n`.
pub open spec fn all_nodes(n: nat) -> Set<usize> {
    Set::new(|v: usize| (v as nat) < n)
}

/// `rank` strictly increases along every edge between two nodes of `c`.
pub open spec fn ranked(es: Seq<(usize, usize)>, c: Set<usize>, rank: spec_fn(usize) -> nat) -> bool {
    forall|j: int|
        0 <= j < es.len() && c.contains(#[trigger] es[j].0) && c.contains(es[j].1) ==> rank(es[j].0)
            < rank(es[j].1)
}

/// The edges inside `c` admit a ranking, that is, they hold no cycle.
pub open spec fn acyclic_on(es: Seq<(usize, usize)>, c: Set<usize>) -> bool {
    exists|rank: spec_fn(usize) -> nat| #[trigger] ranked(es, c, rank)
}

pub open spec fn count_true(s: Seq<bool>) -> nat
    decreases s.len(),
{
    if s.len() == 0 {
        0
    } else {
        count_true(s.drop_last()) + if s.last() {
            1nat
        } else {
            0nat
        }
    }
}

proof fn lemma_count_bound(s: Seq<bool>)
    ensures
        count_true(s) <= s.len(),
    decreases s.len(),
{
    if s.len() > 0 {
        lemma_count_bound(s.drop_last());
    }
}

proof fn lemma_count_set(s: Seq<bool>, i: int)
    requires
        0 <= i < s.len(),
        !s[i],
    ensures
        count_true(s.update(i, true)) == count_true(s) + 1,
    decreases s.len(),
{
    let u = s.update(i, true);
    if i == s.len() - 1 {
        assert(u.drop_last() =~= s.drop_last());
    } else {
        assert(u.drop_last() =~= s.drop_last().update(i, true));
        lemma_count_set(s.drop_last(), i);
    }
}


/// Each marked node reaches `t`.
pub open spec fn marks_sound(es: Seq<(usize, usize)>, marks: Seq<bool>, t: usize) -> bool {
    forall|v: usize| (v as int) < marks.len() && #[trigger] marks[v as int] ==> reaches(es, v, t)
}

/// A marked consumer has its producers marked too.
pub open spec fn marks_closed(es: Seq<(usize, usize)>, marks: Seq<bool>) -> bool {
    forall|j: int|
        0 <= j < es.len() && #[trigger] marks[es[j].1 as int] ==> marks[es[j].0 as int]
}

proof fn lemma_marks_complete(es: Seq<(usize, usize)>, marks: Seq<bool>, p: Seq<usize>, i: int)
    requires
        edges_within(es, marks.len()),
        marks_closed(es, marks),
        is_walk(es, p),
        0 <= i < p.len(),
        (p.last() as int) < marks.len(),
        marks[p.last() as int],
    ensures
        marks[p[i] as int],
    decreases p.len() - i,
{
    if i < p.len() - 1 {
        lemma_marks_complete(es, marks, p, i + 1);
        assert(has_edge(es, p[i], p[i + 1]));
        let j = choose|j: int| 0 <= j < es.len() && #[trigger] es[j] == (p[i], p[i + 1]);
        assert(marks[es[j].1 as int]);
    }
}

/// Marks the target and every node from which it can be reached.
fn dependency_closure(n: usize, edges: &Vec<(usize, usize)>, target: usize) -> (marks: Vec<bool>)
    requires
        target < n,
        edges_within(edges@, n as nat),
    ensures
        marks@.len() == n,
        forall|v: usize| v < n ==> (#[trigger] marks@[v as int] <==> closure(edges@, n as nat, target).contains(v)),
{
    let mut marks: Vec<bool> = Vec::new();
    let mut i: usize = 0;
    while i < n
        invariant
            i <= n,
            marks@.len() == i,
            forall|k: int| 0 <= k < i ==> marks@[k] == (k == target),
        decreases n - i,
    {
        marks.push(i == target);
        i = i + 1;
    }
    proof {
        assert(is_walk(edges@, seq![target]));
        assert(marks@.drop_last() =~= marks@.take(n - 1));
        assert forall|m: int| 0 <= m <= n implies count_true(marks@.take(m)) == if m > target { 1nat } else { 0nat } by {
            lemma_count_prefix(marks@, target as int, m);
        }
        assert(marks@.take(n as int) =~= marks@);
    }
    let mut count: usize = 1;
    let mut changed: bool = true;
    while changed
        invariant
            marks@.len() == n,
            (target as int) < n,
            marks@[target as int],
            edges_within(edges@, n as nat),
            count == count_true(marks@),
            marks_sound(edges@, marks@, target),
            !changed ==> marks_closed(edges@, marks@),
        decreases n - count + if changed { 1int } else { 0int },
    {
        let ghost count0 = count;
        changed = false;
        let mut j: usize = 0;
        while j < edges.len()
            invariant
                j <= edges@.len(),
                marks@.len() == n,
                (target as int) < n,
                marks@[target as int],
                edges_within(edges@, n as nat),
                count == count_true(marks@),
                count >= count0,
                changed ==> count > count0,
                marks_sound(edges@, marks@, target),
                !changed ==> forall|q: int|
                    0 <= q < j && #[trigger] marks@[edges@[q].1 as int] ==> marks@[edges@[q].0 as int],
            decreases edges@.len() - j,
        {
            let (from, to) = edges[j];
            if marks[to] && !marks[from] {
                proof {
                    lemma_count_set(marks@, from as int);
                    lemma_count_bound(marks@.update(from as int, true));
                    let p = choose|p: Seq<usize>| #[trigger] is_walk(edges@, p) && p[0] == to && p.last() == target;
                    let q = seq![from] + p;
                    assert(edges@[j as int] == (from, to));
                    assert forall|i: int| 0 <= i < q.len() - 1 implies has_edge(edges@, #[trigger] q[i], q[i + 1]) by {
                        if i > 0 {
                            assert(q[i] == p[i - 1] && q[i + 1] == p[i]);
                        }
                    }
                    assert(is_walk(edges@, q) && q[0] == from && q.last() == target);
                }
                marks.set(from, true);
                count = count + 1;
                changed = true;
            }
            j = j + 1;
        }
        proof {
            lemma_count_bound(marks@);
        }
    }
    proof {
        assert forall|v: usize| v < n implies (#[trigger] marks@[v as int] <==> closure(edges@, n as nat, target).contains(v)) by {
            if closure(edges@, n as nat, target).contains(v) {
                let p = choose|p: Seq<usize>| #[trigger] is_walk(edges@, p) && p[0] == v && p.last() == target;
                lemma_marks_complete(edges@, marks@, p, 0);
            }
        }
    }
    marks
}

proof fn lemma_count_prefix(s: Seq<bool>, t: int, m: int)
    requires
        0 <= t < s.len(),
        0 <= m <= s.len(),
        forall|k: int| 0 <= k < s.len() ==> s[k] == (k == t),
    ensures
        count_true(s.take(m)) == if m > t { 1nat } else { 0nat },
    decreases m,
{
    if m > 0 {
        assert(s.take(m).drop_last() =~= s.take(m - 1));
        lemma_count_prefix(s, t, m - 1);
    }
}


/// `v` is needed, not yet emitted, and all its producers are emitted.
pub open spec fn ready_at(es: Seq<(usize, usize)>, marks: Seq<bool>, emitted: Seq<bool>, v: usize) -> bool {
    &&& (v as int) < marks.len()
    &&& marks[v as int]
    &&& !emitted[v as int]
    &&& forall|j: int| 0 <= j < es.len() && es[j].1 == v ==> #[trigger] emitted[es[j].0 as int]
}

fn producers_emitted(edges: &Vec<(usize, usize)>, emitted: &Vec<bool>, v: usize) -> (r: bool)
    requires
        edges_within(edges@, emitted@.len() as nat),
    ensures
        r == forall|j: int| 0 <= j < edges@.len() && edges@[j].1 == v ==> #[trigger] emitted@[edges@[j].0 as int],
{
    let mut j: usize = 0;
    while j < edges.len()
        invariant
            j <= edges@.len(),
            edges_within(edges@, emitted@.len() as nat),
            forall|q: int| 0 <= q < j && edges@[q].1 == v ==> #[trigger] emitted@[edges@[q].0 as int],
        decreases edges@.len() - j,
    {
        let (from, to) = edges[j];
        if to == v && !emitted[from] {
            return false;
        }
        j = j + 1;
    }
    true
}

/// The ready node that goes first by key, if any.
fn first_ready(edges: &Vec<(usize, usize)>, keys: &Vec<String>, marks: &Vec<bool>, emitted: &Vec<bool>) -> (r: Option<usize>)
    requires
        marks@.len() == emitted@.len(),
        keys@.len() == marks@.len(),
        edges_within(edges@, marks@.len() as nat),
    ensures
        match r {
            Some(v) => ready_at(edges@, marks@, emitted@, v) && forall|w: usize|
                #[trigger] ready_at(edges@, marks@, emitted@, w) ==> precedes(views_of(keys@), v, w),
            None => forall|w: usize| !#[trigger] ready_at(edges@, marks@, emitted@, w),
        },
{
    let ghost ks = views_of(keys@);
    let mut best: Option<usize> = None;
    let mut v: usize = 0;
    while v < marks.len()
        invariant
            v <= marks@.len(),
            marks@.len() == emitted@.len(),
            keys@.len() == marks@.len(),
            ks == views_of(keys@),
            edges_within(edges@, marks@.len() as nat),
            match best {
                Some(b) => b < v && ready_at(edges@, marks@, emitted@, b) && forall|w: usize|
                    w < v && #[trigger] ready_at(edges@, marks@, emitted@, w) ==> precedes(ks, b, w),
                None => forall|w: usize| w < v ==> !#[trigger] ready_at(edges@, marks@, emitted@, w),
            },
        decreases marks@.len() - v,
    {
        if marks[v] && !emitted[v] && producers_emitted(edges, emitted, v) {
            match best {
                None => {
                    proof {
                        lemma_precedes_order(ks, v, v, v);
                    }
                    best = Some(v);
                },
                Some(b) => {
                    let before_best = str_less(&keys[v], &keys[b]);
                    proof {
                        assert(ks[v as int] == keys@[v as int]@ && ks[b as int] == keys@[b as int]@);
                        lemma_precedes_order(ks, b, v, v);
                        lemma_precedes_order(ks, v, b, v);
                    }
                    if before_best {
                        proof {
                            assert forall|w: usize|
                                w < v + 1 && #[trigger] ready_at(edges@, marks@, emitted@, w) implies precedes(ks, v, w) by {
                                if w < v {
                                    lemma_precedes_order(ks, v, b, w);
                                }
                            }
                        }
                        best = Some(v);
                    } else {
                        proof {
                            lemma_text_less_total(ks[v as int], ks[b as int]);
                            assert(precedes(ks, b, v));
                        }
                    }
                },
            }
        }
        v = v + 1;
    }
    best
}

/// Some needed node has not been emitted.
fn any_pending(marks: &Vec<bool>, emitted: &Vec<bool>) -> (r: bool)
    requires
        marks@.len() == emitted@.len(),
    ensures
        r == exists|v: int| 0 <= v < marks@.len() && #[trigger] marks@[v] && !emitted@[v],
{
    let mut v: usize = 0;
    while v < marks.len()
        invariant
            v <= marks@.len(),
            marks@.len() == emitted@.len(),
            forall|w: int| 0 <= w < v ==> !(#[trigger] marks@[w] && !emitted@[w]),
        decreases marks@.len() - v,
    {
        if marks[v] && !emitted[v] {
            return true;
        }
        v = v + 1;
    }
    false
}

/// A nonempty set of nodes that gives each member a producer inside it admits no ranking.
proof fn lemma_no_endless_descent(
    es: Seq<(usize, usize)>,
    c: Set<usize>,
    rank: spec_fn(usize) -> nat,
    r: Set<usize>,
    x: usize,
)
    requires
        r.subset_of(c),
        r.contains(x),
        forall|v: usize| #[trigger] r.contains(v) ==> exists|j: int|
            0 <= j < es.len() && es[j].1 == v && r.contains(es[j].0),
    ensures
        !ranked(es, c, rank),
{
    if ranked(es, c, rank) {
        lemma_rank_floor(es, c, rank, r, rank(x) + 1);
    }
}

proof fn lemma_rank_floor(
    es: Seq<(usize, usize)>,
    c: Set<usize>,
    rank: spec_fn(usize) -> nat,
    r: Set<usize>,
    k: nat,
)
    requires
        ranked(es, c, rank),
        r.subset_of(c),
        forall|v: usize| #[trigger] r.contains(v) ==> exists|j: int|
            0 <= j < es.len() && es[j].1 == v && r.contains(es[j].0),
    ensures
        forall|v: usize| #[trigger] r.contains(v) ==> rank(v) >= k,
    decreases k,
{
    if k > 0 {
        lemma_rank_floor(es, c, rank, r, (k - 1) as nat);
        assert forall|v: usize| #[trigger] r.contains(v) implies rank(v) >= k by {
            let j = choose|j: int| 0 <= j < es.len() && es[j].1 == v && r.contains(es[j].0);
            assert(c.contains(es[j].0) && c.contains(es[j].1));
        }
    }
}

/// The position in a resolution is a ranking.
proof fn lemma_resolution_acyclic(es: Seq<(usize, usize)>, keys: Seq<Seq<char>>, c: Set<usize>, order: Seq<usize>)
    requires
        is_resolution(es, keys, c, order),
    ensures
        acyclic_on(es, c),
{
    let rank = |v: usize| (choose|i: int| 0 <= i < order.len() && order[i] == v) as nat;
    assert forall|j: int|
        0 <= j < es.len() && c.contains(#[trigger] es[j].0) && c.contains(es[j].1) implies rank(es[j].0)
            < rank(es[j].1) by {
        let b = choose|i: int| 0 <= i < order.len() && order[i] == es[j].1;
        assert(order.contains(es[j].1));
        assert(preds_in(es, order.take(b), order[b]));
        assert(order.take(b).contains(es[j].0));
        let a = choose|i: int| 0 <= i < order.take(b).len() && order.take(b)[i] == es[j].0;
        assert(order[a] == es[j].0);
        assert(order.contains(es[j].0));
        let a2 = choose|i: int| 0 <= i < order.len() && order[i] == es[j].0;
        assert(a2 == a);
    }
    assert(ranked(es, c, rank));
}


proof fn lemma_closure_closed(es: Seq<(usize, usize)>, n: nat, t: usize, j: int)
    requires
        edges_within(es, n),
        0 <= j < es.len(),
        closure(es, n, t).contains(es[j].1),
    ensures
        closure(es, n, t).contains(es[j].0),
{
    let p = choose|p: Seq<usize>| #[trigger] is_walk(es, p) && p[0] == es[j].1 && p.last() == t;
    let q = seq![es[j].0] + p;
    assert forall|i: int| 0 <= i < q.len() - 1 implies has_edge(es, #[trigger] q[i], q[i + 1]) by {
        if i > 0 {
            assert(q[i] == p[i - 1] && q[i + 1] == p[i]);
        } else {
            assert(es[j] == (q[0], q[1]));
        }
    }
    assert(is_walk(es, q) && q[0] == es[j].0 && q.last() == t);
}

/// Orders the marked nodes `c`, a set closed under producers; `None` when they hold a cycle.
fn order_marked(n: usize, edges: &Vec<(usize, usize)>, keys: &Vec<String>, marks: &Vec<bool>, Ghost(c): Ghost<Set<usize>>) -> (r: Option<Vec<usize>>)
    requires
        edges_within(edges@, n as nat),
        keys@.len() == n,
        marks@.len() == n,
        forall|v: usize| v < n ==> (#[trigger] marks@[v as int] <==> c.contains(v)),
        forall|v: usize| #[trigger] c.contains(v) ==> v < n,
        forall|j: int| 0 <= j < edges@.len() && #[trigger] c.contains(edges@[j].1) ==> c.contains(edges@[j].0),
    ensures
        r.is_some() == acyclic_on(edges@, c),
        r matches Some(o) ==> is_resolution(edges@, views_of(keys@), c, o@),
{
    let ghost es = edges@;
    let ghost ks = views_of(keys@);
    let mut emitted: Vec<bool> = Vec::new();
    let mut i: usize = 0;
    while i < n
        invariant
            i <= n,
            emitted@.len() == i,
            forall|k: int| 0 <= k < i ==> !emitted@[k],
        decreases n - i,
    {
        emitted.push(false);
        i = i + 1;
    }
    let mut order: Vec<usize> = Vec::new();
    proof {
        assert forall|m: int| 0 <= m <= n implies count_true(#[trigger] emitted@.take(m)) == 0 by {
            lemma_count_none(emitted@, m);
        }
        assert(emitted@.take(n as int) =~= emitted@);
    }
    loop
        invariant
            es == edges@,
            ks == views_of(keys@),
            keys@.len() == n,
            forall|v: usize| #[trigger] c.contains(v) ==> v < n,
            forall|j: int| 0 <= j < edges@.len() && #[trigger] c.contains(edges@[j].1) ==> c.contains(edges@[j].0),
            edges_within(edges@, n as nat),
            marks@.len() == n,
            emitted@.len() == n,
            forall|v: usize| v < n ==> (#[trigger] marks@[v as int] <==> c.contains(v)),
            forall|v: usize| v < n ==> (#[trigger] emitted@[v as int] == order@.contains(v)),
            order@.len() == count_true(emitted@),
            is_partial_resolution(es, ks, c, order@),
        decreases n - order@.len(),
    {
        proof {
            lemma_count_bound(emitted@);
            assert forall|v: usize| #[trigger] ready(es, c, order@, v) <==> ready_at(es, marks@, emitted@, v) by {
                if ready(es, c, order@, v) {
                    assert forall|j: int| 0 <= j < es.len() && es[j].1 == v implies #[trigger] emitted@[es[j].0 as int] by {
                        assert(order@.contains(es[j].0));
                    }
                }
                if ready_at(es, marks@, emitted@, v) {
                    assert forall|j: int| 0 <= j < es.len() && es[j].1 == v implies order@.contains(es[j].0) by {
                        assert(emitted@[es[j].0 as int]);
                    }
                }
            }
        }
        match first_ready(edges, keys, marks, &emitted) {
            Some(v) => {
                proof {
                    lemma_count_set(emitted@, v as int);
                    lemma_count_bound(emitted@.update(v as int, true));
                }
                let ghost before = order@;
                let ghost emitted_before = emitted@;
                emitted.set(v, true);
                order.push(v);
                proof {
                    assert(ready(es, c, before, v));
                    assert forall|w: usize| #[trigger] ready(es, c, before, w) implies precedes(ks, v, w) by {
                        assert(ready_at(es, marks@, emitted_before, w));
                    }
                    lemma_extend_resolution(es, ks, c, before, v);
                    assert forall|w: usize| w < n implies (#[trigger] emitted@[w as int] == order@.contains(w)) by {
                        if w == v {
                            assert(order@[before.len() as int] == v);
                        } else if before.contains(w) {
                            let k = choose|k: int| 0 <= k < before.len() && before[k] == w;
                            assert(order@[k] == w);
                        } else if order@.contains(w) {
                            let k = choose|k: int| 0 <= k < order@.len() && order@[k] == w;
                            assert(before[k] == w);
                        }
                    }
                }
            },
            None => {
                if any_pending(marks, &emitted) {
                    proof {
                        let x = choose|x: int| 0 <= x < marks@.len() && #[trigger] marks@[x] && !emitted@[x];
                        let r = Set::new(|v: usize| c.contains(v) && !order@.contains(v));
                        assert(r.contains(x as usize));
                        assert forall|v: usize| #[trigger] r.contains(v) implies exists|j: int|
                            0 <= j < es.len() && es[j].1 == v && r.contains(es[j].0) by {
                            assert(!ready_at(es, marks@, emitted@, v));
                            let j = choose|j: int| 0 <= j < es.len() && es[j].1 == v && !emitted@[es[j].0 as int];
                            assert(c.contains(es[j].0));
                            assert(r.contains(es[j].0));
                        }
                        if acyclic_on(es, c) {
                            let rank = choose|rank: spec_fn(usize) -> nat| #[trigger] ranked(es, c, rank);
                            lemma_no_endless_descent(es, c, rank, r, x as usize);
                        }
                    }
                    return None;
                } else {
                    proof {
                        assert forall|v: usize| c.contains(v) implies order@.contains(v) by {
                            assert(marks@[v as int]);
                        }
                        lemma_resolution_acyclic(es, ks, c, order@);
                    }
                    return Some(order);
                }
            },
        }
    }
}

/// Every ranking of a set ranks each of its subsets.
proof fn lemma_acyclic_subset(es: Seq<(usize, usize)>, c: Set<usize>, d: Set<usize>)
    requires
        acyclic_on(es, d),
        c.subset_of(d),
    ensures
        acyclic_on(es, c),
{
    let rank = choose|rank: spec_fn(usize) -> nat| #[trigger] ranked(es, d, rank);
    assert(ranked(es, c, rank));
}

/// Whether the whole graph is free of cycles.
pub fn graph_is_acyclic(n: usize, edges: &Vec<(usize, usize)>, keys: &Vec<String>) -> (r: bool)
    requires
        keys@.len() == n,
        edges_within(edges@, n as nat),
    ensures
        r == acyclic_on(edges@, all_nodes(n as nat)),
{
    let mut every: Vec<bool> = Vec::new();
    let mut i: usize = 0;
    while i < n
        invariant
            i <= n,
            every@.len() == i,
            forall|k: int| 0 <= k < i ==> every@[k],
        decreases n - i,
    {
        every.push(true);
        i = i + 1;
    }
    order_marked(n, edges, keys, &every, Ghost(all_nodes(n as nat))).is_some()
}

/// Orders the target and its transitive dependencies, producers first, the
/// ready node with the smallest key first; `None` when the graph holds a
/// cycle anywhere.
pub fn resolve_order(n: usize, edges: &Vec<(usize, usize)>, keys: &Vec<String>, target: usize) -> (r: Option<Vec<usize>>)
    requires
        target < n,
        keys@.len() == n,
        edges_within(edges@, n as nat),
    ensures
        r.is_some() == acyclic_on(edges@, all_nodes(n as nat)),
        r matches Some(o) ==> is_resolution(edges@, views_of(keys@), closure(edges@, n as nat, target), o@),
{
    if !graph_is_acyclic(n, edges, keys) {
        return None;
    }
    let ghost c = closure(edges@, n as nat, target);
    let marks = dependency_closure(n, edges, target);
    proof {
        assert forall|j: int| 0 <= j < edges@.len() && #[trigger] c.contains(edges@[j].1) implies c.contains(edges@[j].0) by {
            lemma_closure_closed(edges@, n as nat, target, j);
        }
        lemma_acyclic_subset(edges@, c, all_nodes(n as nat));
    }
    order_marked(n, edges, keys, &marks, Ghost(c))
}

proof fn lemma_count_none(s: Seq<bool>, m: int)
    requires
        0 <= m <= s.len(),
        forall|k: int| 0 <= k < s.len() ==> !s[k],
    ensures
        count_true(s.take(m)) == 0,
    decreases m,
{
    if m > 0 {
        assert(s.take(m).drop_last() =~= s.take(m - 1));
        lemma_count_none(s, m - 1);
    }
}


proof fn lemma_extend_resolution(es: Seq<(usize, usize)>, keys: Seq<Seq<char>>, c: Set<usize>, before: Seq<usize>, v: usize)
    requires
        is_partial_resolution(es, keys, c, before),
        ready(es, c, before, v),
        forall|w: usize| #[trigger] ready(es, c, before, w) ==> precedes(keys, v, w),
    ensures
        is_partial_resolution(es, keys, c, before.push(v)),
{
    let order = before.push(v);
    assert(order.take(before.len() as int) =~= before);
    assert forall|k: int| 0 <= k < before.len() implies #[trigger] order.take(k) == before.take(k) by {
        assert(order.take(k) =~= before.take(k));
    }
    assert forall|a: int, b: int| 0 <= a < b < order.len() implies order[a] != order[b] by {
        if b == before.len() {
            assert(before.contains(order[a]));
        }
    }
    assert forall|k: int| 0 <= k < order.len() implies preds_in(es, order.take(k), #[trigger] order[k]) by {
        if k < before.len() {
            assert(preds_in(es, before.take(k), before[k]));
        }
    }
    assert forall|k: int| 0 <= k < order.len() implies c.contains(#[trigger] order[k]) by {
        if k < before.len() {
            assert(c.contains(before[k]));
        }
    }
    assert forall|k: int, w: usize|
        0 <= k < order.len() && #[trigger] ready(es, c, order.take(k), w) implies precedes(keys, order[k], w) by {
        if k < before.len() {
            assert(ready(es, c, before.take(k), w));
            assert(precedes(keys, before[k], w));
        }
    }
}


/// A walk over at least one edge that ends where it started.
pub open spec fn is_cycle(es: Seq<(usize, usize)>, p: Seq<usize>) -> bool {
    is_walk(es, p) && p.len() > 1 && p[0] == p.last()
}

proof fn lemma_rank_along_walk(es: Seq<(usize, usize)>, c: Set<usize>, rank: spec_fn(usize) -> nat, p: Seq<usize>, i: int)
    requires
        ranked(es, c, rank),
        is_walk(es, p),
        forall|k: int| 0 <= k < p.len() ==> c.contains(#[trigger] p[k]),
        0 <= i < p.len(),
    ensures
        rank(p[i]) >= rank(p[0]) + i,
    decreases i,
{
    if i > 0 {
        lemma_rank_along_walk(es, c, rank, p, i - 1);
        assert(has_edge(es, p[i - 1], p[i]));
        let j = choose|j: int| 0 <= j < es.len() && #[trigger] es[j] == (p[i - 1], p[i]);
        assert(c.contains(p[i - 1]) && c.contains(p[i]));
        assert(c.contains(es[j].0) && c.contains(es[j].1));
        assert(rank(es[j].0) < rank(es[j].1));
    }
}

/// A cycle among the nodes that a target needs leaves them without any order
/// that puts producers first, so `resolve_order` answers `None` for it.
pub proof fn lemma_cycle_detected(es: Seq<(usize, usize)>, c: Set<usize>, p: Seq<usize>)
    requires
        is_cycle(es, p),
        forall|k: int| 0 <= k < p.len() ==> c.contains(#[trigger] p[k]),
    ensures
        !acyclic_on(es, c),
{
    if acyclic_on(es, c) {
        let rank = choose|rank: spec_fn(usize) -> nat| #[trigger] ranked(es, c, rank);
        lemma_rank_along_walk(es, c, rank, p, p.len() - 1);
    }
}

proof fn lemma_prefixes_agree(es: Seq<(usize, usize)>, keys: Seq<Seq<char>>, c: Set<usize>, o1: Seq<usize>, o2: Seq<usize>, i: int)
    requires
        is_partial_resolution(es, keys, c, o1),
        is_partial_resolution(es, keys, c, o2),
        0 <= i <= o1.len(),
        i <= o2.len(),
    ensures
        o1.take(i) == o2.take(i),
    decreases i,
{
    if i > 0 {
        let k = i - 1;
        lemma_prefixes_agree(es, keys, c, o1, o2, k);
        let pre = o1.take(k);
        assert(!pre.contains(o1[k])) by {
            if pre.contains(o1[k]) {
                let a = choose|a: int| 0 <= a < pre.len() && pre[a] == o1[k];
                assert(o1[a] == o1[k]);
            }
        }
        assert(!o2.take(k).contains(o2[k])) by {
            if o2.take(k).contains(o2[k]) {
                let a = choose|a: int| 0 <= a < k && o2.take(k)[a] == o2[k];
                assert(o2[a] == o2[k]);
            }
        }
        assert(c.contains(o1[k]) && c.contains(o2[k]));
        assert(preds_in(es, o1.take(k), o1[k]));
        assert(preds_in(es, o2.take(k), o2[k]));
        assert(ready(es, c, o1.take(k), o2[k]));
        assert(ready(es, c, o2.take(k), o1[k]));
        assert(precedes(keys, o1[k], o2[k]));
        assert(precedes(keys, o2[k], o1[k]));
        lemma_precedes_order(keys, o1[k], o2[k], o1[k]);
        assert(o1.take(i) =~= o1.take(k).push(o1[k]));
        assert(o2.take(i) =~= o2.take(k).push(o2[k]));
    }
}

/// There is exactly one resolution of a node set: an order computed twice
/// from the same graph and target is the same order.
pub proof fn lemma_resolution_unique(es: Seq<(usize, usize)>, keys: Seq<Seq<char>>, c: Set<usize>, o1: Seq<usize>, o2: Seq<usize>)
    requires
        is_resolution(es, keys, c, o1),
        is_resolution(es, keys, c, o2),
    ensures
        o1 == o2,
{
    if o1.len() < o2.len() {
        let m = o1.len() as int;
        lemma_prefixes_agree(es, keys, c, o1, o2, m);
        assert(o1.contains(o2[m]));
        let a = choose|a: int| 0 <= a < m && o1[a] == o2[m];
        assert(o2.take(m)[a] == o2[a]);
    } else if o2.len() < o1.len() {
        let m = o2.len() as int;
        lemma_prefixes_agree(es, keys, c, o1, o2, m);
        assert(o2.contains(o1[m]));
        let a = choose|a: int| 0 <= a < m && o2[a] == o1[m];
        assert(o1.take(m)[a] == o1[a]);
    } else {
        lemma_prefixes_agree(es, keys, c, o1, o2, o1.len() as int);
        assert(o1 =~= o1.take(o1.len() as int));
        assert(o2 =~= o2.take(o2.len() as int));
    }
}


/// Lexicographic order on texts, character by character; a
/// proper prefix comes first.
pub open spec fn text_less(a: Seq<char>, b: Seq<char>) -> bool
    decreases a.len(),
{
    if a.len() == 0 {
        b.len() > 0
    } else if b.len() == 0 {
        false
    } else if a[0] != b[0] {
        a[0] < b[0]
    } else {
        text_less(a.drop_first(), b.drop_first())
    }
}

/// Node `a` goes before node `b` among ready nodes: a smaller key, or the
/// same key and an earlier position.
pub open spec fn precedes(keys: Seq<Seq<char>>, a: usize, b: usize) -> bool {
    text_less(keys[a as int], keys[b as int]) || (keys[a as int] == keys[b as int] && a <= b)
}

proof fn lemma_text_less_irreflexive(a: Seq<char>)
    ensures
        !text_less(a, a),
    decreases a.len(),
{
    if a.len() > 0 {
        lemma_text_less_irreflexive(a.drop_first());
    }
}

proof fn lemma_text_less_asymmetric(a: Seq<char>, b: Seq<char>)
    ensures
        !(text_less(a, b) && text_less(b, a)),
    decreases a.len(),
{
    if a.len() > 0 && b.len() > 0 && a[0] == b[0] {
        lemma_text_less_asymmetric(a.drop_first(), b.drop_first());
    }
}

proof fn lemma_text_less_total(a: Seq<char>, b: Seq<char>)
    ensures
        a == b || text_less(a, b) || text_less(b, a),
    decreases a.len(),
{
    if a.len() > 0 && b.len() > 0 && a[0] == b[0] {
        lemma_text_less_total(a.drop_first(), b.drop_first());
        if a.drop_first() == b.drop_first() {
            assert(a =~= seq![a[0]] + a.drop_first());
            assert(b =~= seq![b[0]] + b.drop_first());
        }
    } else if a.len() == 0 && b.len() == 0 {
        assert(a =~= b);
    }
}

proof fn lemma_text_less_transitive(a: Seq<char>, b: Seq<char>, c: Seq<char>)
    requires
        text_less(a, b),
        text_less(b, c),
    ensures
        text_less(a, c),
    decreases a.len(),
{
    if a.len() > 0 && b.len() > 0 && c.len() > 0 && a[0] == b[0] && b[0] == c[0] {
        lemma_text_less_transitive(a.drop_first(), b.drop_first(), c.drop_first());
    }
}

proof fn lemma_precedes_order(keys: Seq<Seq<char>>, a: usize, b: usize, c: usize)
    ensures
        precedes(keys, a, a),
        precedes(keys, a, b) || precedes(keys, b, a),
        precedes(keys, a, b) && precedes(keys, b, a) ==> a == b,
        precedes(keys, a, b) && precedes(keys, b, c) ==> precedes(keys, a, c),
{
    lemma_text_less_total(keys[a as int], keys[b as int]);
    lemma_text_less_asymmetric(keys[a as int], keys[b as int]);
    lemma_text_less_irreflexive(keys[a as int]);
    lemma_text_less_irreflexive(keys[b as int]);
    if text_less(keys[a as int], keys[b as int]) && text_less(keys[b as int], keys[c as int]) {
        lemma_text_less_transitive(keys[a as int], keys[b as int], keys[c as int]);
    }
}

/// Compares two texts in the order of `text_less`.
fn str_less(a: &String, b: &String) -> (r: bool)
    ensures
        r == text_less(a@, b@),
{
    let sa = a.as_str();
    let sb = b.as_str();
    let la = sa.unicode_len();
    let lb = sb.unicode_len();
    let mut i: usize = 0;
    proof {
        assert(a@.skip(0) =~= a@);
        assert(b@.skip(0) =~= b@);
    }
    while i < la && i < lb
        invariant
            la == sa@.len(),
            lb == sb@.len(),
            sa@ == a@,
            sb@ == b@,
            i <= la,
            i <= lb,
            text_less(a@, b@) == text_less(a@.skip(i as int), b@.skip(i as int)),
        decreases la - i,
    {
        let ca = sa.get_char(i);
        let cb = sb.get_char(i);
        if ca != cb {
            return ca < cb;
        }
        proof {
            assert(a@.skip(i as int).drop_first() =~= a@.skip(i + 1));
            assert(b@.skip(i as int).drop_first() =~= b@.skip(i + 1));
        }
        i = i + 1;
    }
    i < lb && i == la
}

} // verus!
