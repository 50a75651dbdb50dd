//! Depth-first ordering of a graph given by adjacency lists of node indices.
//!
//! `adj[u]` lists what node `u` needs, in order; an entry `None` stands for a
//! need that something outside the graph provides, and is passed over. The
//! search orders every node after the nodes it needs, or reports a node on a
//! cycle.
use vstd::prelude::*;

verus! {

/// The adjacency lists as sequences.
pub open spec fn adj_view(adj: Seq<Vec<Option<usize>>>) -> Seq<Seq<Option<usize>>> {
    adj.map_values(|l: Vec<Option<usize>>| l@)
}

/// Every listed node exists.
pub open spec fn adj_wf(adj: Seq<Seq<Option<usize>>>) -> bool {
    forall|u: int, k: int|
        0 <= u < adj.len() && 0 <= k < adj[u].len() ==> (#[trigger] adj[u][k] matches Some(v) ==> v
            < adj.len())
}

/// `u` needs `v`.
pub open spec fn edge(adj: Seq<Seq<Option<usize>>>, u: int, v: int) -> bool {
    &&& 0 <= u < adj.len()
    &&& 0 <= v < adj.len()
    &&& exists|k: int| 0 <= k < adj[u].len() && #[trigger] adj[u][k] == Some(v as usize)
}

/// `p` is a walk along needs: each node needs the next.
pub open spec fn is_walk(adj: Seq<Seq<Option<usize>>>, p: Seq<int>) -> bool {
    &&& p.len() >= 1
    &&& forall|i: int| 0 <= i < p.len() - 1 ==> edge(adj, #[trigger] p[i], p[i + 1])
}

/// `u` lies on a cycle of needs.
pub open spec fn on_cycle(adj: Seq<Seq<Option<usize>>>, u: int) -> bool {
    exists|p: Seq<int>| is_walk(adj, p) && p.len() >= 2 && p[0] == u && #[trigger] p.last() == u
}

/// Some node lies on a cycle.
pub open spec fn has_cycle(adj: Seq<Seq<Option<usize>>>) -> bool {
    exists|u: int| 0 <= u < adj.len() && #[trigger] on_cycle(adj, u)
}

/// `order` lists distinct nodes.
pub open spec fn distinct_nodes(order: Seq<usize>, n: int) -> bool {
    &&& forall|i: int| 0 <= i < order.len() ==> #[trigger] order[i] < n
    &&& forall|i: int, j: int| 0 <= i < j < order.len() ==> #[trigger] order[i] != #[trigger] order[j]
}

/// Each node of `order` comes after every node of the graph that it needs.
pub open spec fn needs_come_first(adj: Seq<Seq<Option<usize>>>, order: Seq<usize>) -> bool {
    forall|i: int, k: int|
        0 <= i < order.len() && 0 <= k < adj[order[i] as int].len() && (#[trigger] adj[order[i] as int][k]) is Some
            ==> exists|j: int| 0 <= j < i && order[j] == adj[order[i] as int][k]->0
}

/// `order` lists every node once, each after the nodes it needs.
pub open spec fn is_topological_order(adj: Seq<Seq<Option<usize>>>, order: Seq<usize>) -> bool {
    &&& distinct_nodes(order, adj.len() as int)
    &&& forall|v: int| 0 <= v < adj.len() ==> #[trigger] order.contains(v as usize)
    &&& needs_come_first(adj, order)
}

/// How the search failed.
#[derive(Debug, Clone, Copy, PartialEq, Eq, Structural)]
pub enum TopoError {
    /// The node lies on a cycle.
    Cycle(usize),
}

/// What a failure claims.
pub open spec fn error_holds(adj: Seq<Seq<Option<usize>>>, e: TopoError) -> bool {
    match e {
        TopoError::Cycle(u) => u < adj.len() && on_cycle(adj, u as int),
    }
}

/// The number of nodes not yet reached.
pub open spec fn count_fresh(mark: Seq<u8>) -> nat
    decreases mark.len(),
{
    if mark.len() == 0 {
        0
    } else {
        count_fresh(mark.drop_last()) + if mark.last() == 0 { 1nat } else { 0nat }
    }
}

pub proof fn lemma_count_fresh_mono(m1: Seq<u8>, m2: Seq<u8>)
    requires
        m1.len() == m2.len(),
        forall|i: int| 0 <= i < m1.len() && #[trigger] m2[i] == 0 ==> m1[i] == 0,
    ensures
        count_fresh(m2) <= count_fresh(m1),
        (exists|i: int| 0 <= i < m1.len() && m1[i] == 0 && #[trigger] m2[i] != 0) ==> count_fresh(m2)
            < count_fresh(m1),
    decreases m1.len(),
{
    if m1.len() > 0 {
        let a = m1.drop_last();
        let b = m2.drop_last();
        assert forall|i: int| 0 <= i < a.len() && #[trigger] b[i] == 0 implies a[i] == 0 by {
            assert(b[i] == m2[i]);
        }
        lemma_count_fresh_mono(a, b);
        if exists|i: int| 0 <= i < m1.len() && m1[i] == 0 && #[trigger] m2[i] != 0 {
            let i = choose|i: int| 0 <= i < m1.len() && m1[i] == 0 && #[trigger] m2[i] != 0;
            if i < m1.len() - 1 {
                assert(a[i] == 0 && b[i] != 0);
            }
        }
    }
}

/// The state of the search: marks (0 unreached, 1 in progress, 2 done), the done
/// nodes in finishing order, and the path of nodes in progress.
pub open spec fn search_state(adj: Seq<Seq<Option<usize>>>, mark: Seq<u8>, order: Seq<usize>, path: Seq<int>) -> bool {
    &&& mark.len() == adj.len()
    &&& adj_wf(adj)
    &&& forall|v: int| 0 <= v < mark.len() ==> #[trigger] mark[v] <= 2
    &&& distinct_nodes(order, adj.len() as int)
    &&& forall|i: int| 0 <= i < order.len() ==> #[trigger] mark[order[i] as int] == 2
    &&& forall|v: int| 0 <= v < mark.len() && #[trigger] mark[v] == 2 ==> order.contains(v as usize)
    &&& needs_come_first(adj, order)
    &&& forall|i: int| 0 <= i < path.len() ==> 0 <= #[trigger] path[i] < adj.len() && mark[path[i]] == 1
    &&& forall|v: int| 0 <= v < mark.len() && #[trigger] mark[v] == 1 ==> path.contains(v)
    &&& forall|i: int| 0 <= i < path.len() - 1 ==> edge(adj, #[trigger] path[i], path[i + 1])
}

/// From `m1` to `m2` marks only advance, and nodes in progress stay so.
pub open spec fn marks_advance(m1: Seq<u8>, m2: Seq<u8>) -> bool {
    &&& m1.len() == m2.len()
    &&& forall|v: int| 0 <= v < m1.len() && #[trigger] m2[v] == 0 ==> m1[v] == 0
    &&& forall|v: int| 0 <= v < m1.len() ==> (#[trigger] m1[v] == 2 ==> m2[v] == 2)
    &&& forall|v: int| 0 <= v < m1.len() ==> (#[trigger] m1[v] == 1 <==> m2[v] == 1)
}

/// The search from node `u`, as the marks and the finishing order it leaves, or
/// the failure it meets: a node in progress met again closes a cycle; a fresh
/// node is put in progress, its needs are searched in list order, and it is
/// finished. `fuel` bounds the depth; it is enough when it is at least the
/// number of fresh nodes.
pub open spec fn visit(adj: Seq<Seq<Option<usize>>>, u: int, mark: Seq<u8>, order: Seq<usize>, fuel: nat) -> Result<
    (Seq<u8>, Seq<usize>),
    TopoError,
>
    decreases fuel, 0int, 0int,
{
    if u < 0 || u >= mark.len() {
        Ok((mark, order))
    } else if mark[u] == 1 {
        Err(TopoError::Cycle(u as usize))
    } else if mark[u] != 0 || fuel == 0 {
        Ok((mark, order))
    } else {
        match visit_needs(adj, u, 0, mark.update(u, 1), order, (fuel - 1) as nat) {
            Err(e) => Err(e),
            Ok((m, o)) => Ok((m.update(u, 2), o.push(u as usize))),
        }
    }
}

/// The search through the needs of `u` from the `k`-th on.
pub open spec fn visit_needs(
    adj: Seq<Seq<Option<usize>>>,
    u: int,
    k: int,
    mark: Seq<u8>,
    order: Seq<usize>,
    fuel: nat,
) -> Result<(Seq<u8>, Seq<usize>), TopoError>
    decreases fuel, 1int, adj[u].len() - k,
{
    if k < 0 || k >= adj[u].len() {
        Ok((mark, order))
    } else {
        match adj[u][k] {
            None => visit_needs(adj, u, k + 1, mark, order, fuel),
            Some(v) => match visit(adj, v as int, mark, order, fuel) {
                Err(e) => Err(e),
                Ok((m, o)) => visit_needs(adj, u, k + 1, m, o, fuel),
            },
        }
    }
}

/// The searches from nodes `u`, `u + 1`, ... in turn.
pub open spec fn visit_from(adj: Seq<Seq<Option<usize>>>, u: int, mark: Seq<u8>, order: Seq<usize>, fuel: nat) -> Result<
    Seq<usize>,
    TopoError,
>
    decreases adj.len() - u,
{
    if u < 0 || u >= adj.len() {
        Ok(order)
    } else {
        match visit(adj, u, mark, order, fuel) {
            Err(e) => Err(e),
            Ok((m, o)) => visit_from(adj, u + 1, m, o, fuel),
        }
    }
}

/// The depth-first order of the whole graph: a search from each node in turn,
/// every node fresh at the start; or the first failure met.
pub open spec fn dfs_order(adj: Seq<Seq<Option<usize>>>) -> Result<Seq<usize>, TopoError> {
    visit_from(adj, 0, Seq::new(adj.len(), |i: int| 0u8), Seq::empty(), adj.len() as nat)
}

pub proof fn lemma_count_fresh_le_len(mark: Seq<u8>)
    ensures
        count_fresh(mark) <= mark.len(),
    decreases mark.len(),
{
    if mark.len() > 0 {
        lemma_count_fresh_le_len(mark.drop_last());
    }
}

pub proof fn lemma_cycle_from_path(adj: Seq<Seq<Option<usize>>>, path: Seq<int>, u: int)
    requires
        path.len() > 0,
        forall|i: int| 0 <= i < path.len() - 1 ==> edge(adj, #[trigger] path[i], path[i + 1]),
        edge(adj, path.last(), u),
        path.contains(u),
    ensures
        on_cycle(adj, u),
{
    let j = choose|j: int| 0 <= j < path.len() && path[j] == u;
    let p = path.subrange(j, path.len() as int).push(u);
    assert forall|i: int| 0 <= i < p.len() - 1 implies edge(adj, #[trigger] p[i], p[i + 1]) by {
        if i < p.len() - 2 {
            assert(p[i] == path[j + i]);
            assert(p[i + 1] == path[j + i + 1]);
        } else {
            assert(p[i] == path.last());
        }
    }
    assert(p[0] == u);
    assert(p.last() == u);
    assert(is_walk(adj, p));
}

pub proof fn lemma_after_need(
    needs: Seq<Option<usize>>,
    k: int,
    v: usize,
    ob: Seq<usize>,
    order: Seq<usize>,
    o0: Seq<usize>,
)
    requires
        0 <= k < needs.len(),
        needs[k] == Some(v),
        order.contains(v),
        ob.len() >= o0.len(),
        ob.take(o0.len() as int) == o0,
        order.len() >= ob.len(),
        order.take(ob.len() as int) == ob,
        forall|kk: int| 0 <= kk < k && (#[trigger] needs[kk]) is Some ==> ob.contains(needs[kk]->0),
    ensures
        order.len() >= o0.len(),
        order.take(o0.len() as int) == o0,
        forall|kk: int| 0 <= kk < k + 1 && (#[trigger] needs[kk]) is Some ==> order.contains(needs[kk]->0),
{
    assert forall|kk: int| 0 <= kk < k + 1 && (#[trigger] needs[kk]) is Some implies order.contains(
        needs[kk]->0,
    ) by {
        if kk < k {
            let w = needs[kk]->0;
            let j = choose|j: int| 0 <= j < ob.len() && ob[j] == w;
            assert(order.take(ob.len() as int)[j] == ob[j]);
        }
    }
    assert(order.take(o0.len() as int) =~= o0) by {
        assert forall|i: int| 0 <= i < o0.len() implies order[i] == o0[i] by {
            assert(ob.take(o0.len() as int)[i] == o0[i]);
            assert(order.take(ob.len() as int)[i] == ob[i]);
        }
    }
}

/// Finishes node `u` and every node it reaches, appending them to `order` in
/// finishing order; `path` holds the nodes in progress, the last of which needs `u`.
pub fn topological_sort(
    u: usize,
    adj: &Vec<Vec<Option<usize>>>,
    mark: &mut Vec<u8>,
    order: &mut Vec<usize>,
    Ghost(path): Ghost<Seq<int>>,
    Ghost(fuel): Ghost<nat>,
) -> (r: Result<(), TopoError>)
    requires
        u < adj.len(),
        search_state(adj_view(adj@), old(mark)@, old(order)@, path),
        path.len() > 0 ==> edge(adj_view(adj@), path.last(), u as int),
        count_fresh(old(mark)@) <= fuel,
    ensures
        match visit(adj_view(adj@), u as int, old(mark)@, old(order)@, fuel) {
            Ok((m, o)) => r is Ok && final(mark)@ == m && final(order)@ == o,
            Err(e) => r == Err::<(), TopoError>(e),
        },
        old(mark)@[u as int] == 1 ==> final(mark)@ == old(mark)@ && final(order)@ == old(order)@,
        match r {
            Ok(()) => {
                &&& search_state(adj_view(adj@), final(mark)@, final(order)@, path)
                &&& final(mark)@[u as int] == 2
                &&& marks_advance(old(mark)@, final(mark)@)
                &&& final(order)@.len() >= old(order)@.len()
                &&& final(order)@.take(old(order)@.len() as int) == old(order)@
            },
            Err(e) => error_holds(adj_view(adj@), e),
        },
    decreases count_fresh(old(mark)@),
{
    let ghost g = adj_view(adj@);
    if mark[u] == 1 {
        proof {
            lemma_cycle_from_path(g, path, u as int);
        }
        return Err(TopoError::Cycle(u));
    }
    if mark[u] == 2 {
        assert(old(order)@.take(old(order)@.len() as int) =~= old(order)@);
        return Ok(());
    }
    let ghost m0 = mark@;
    let ghost o0 = order@;
    mark.set(u, 1);
    let ghost m1 = mark@;
    let ghost path2 = path.push(u as int);
    let ghost f1: nat = (fuel - 1) as nat;
    proof {
        assert(m0[u as int] == 0);
        assert(m0[u as int] == 0 && m1[u as int] != 0);
        lemma_count_fresh_mono(m0, m1);
        assert(fuel >= 1);
        assert(count_fresh(m1) <= f1);
        assert forall|v: int| 0 <= v < mark@.len() && #[trigger] mark@[v] == 1 implies path2.contains(v) by {
            if v != u {
                assert(m0[v] == 1);
                assert(path.contains(v));
                let j = choose|j: int| 0 <= j < path.len() && path[j] == v;
                assert(path2[j] == v);
            } else {
                assert(path2[path.len() as int] == v);
            }
        }
        assert forall|i: int| 0 <= i < path2.len() - 1 implies edge(g, #[trigger] path2[i], path2[i + 1]) by {
            if i < path.len() - 1 {
                assert(path2[i] == path[i] && path2[i + 1] == path[i + 1]);
            }
        }
        assert forall|v: int| 0 <= v < mark@.len() && #[trigger] mark@[v] == 2 implies order@.contains(
            v as usize,
        ) by {
            assert(m0[v] == 2);
        }
        assert(search_state(g, mark@, order@, path2));
    }
    let n = adj[u].len();
    let mut k: usize = 0;
    while k < n
        invariant
            g == adj_view(adj@),
            u < adj.len(),
            n == g[u as int].len(),
            k <= n,
            path2 == path.push(u as int),
            search_state(g, mark@, order@, path2),
            marks_advance(m1, mark@),
            m1 == m0.update(u as int, 1u8),
            m0 == old(mark)@,
            m0.len() == g.len(),
            o0 == old(order)@,
            m0[u as int] == 0,
            order@.len() >= o0.len(),
            order@.take(o0.len() as int) == o0,
            forall|kk: int|
                0 <= kk < k && (#[trigger] g[u as int][kk]) is Some ==> order@.contains(
                    g[u as int][kk]->0,
                ),
            fuel >= 1,
            f1 == fuel - 1,
            count_fresh(mark@) <= f1,
            visit(g, u as int, m0, o0, fuel) == match visit_needs(g, u as int, 0, m1, o0, f1) {
                Err(e) => Err(e),
                Ok((m, o)) => Ok((m.update(u as int, 2), o.push(u))),
            },
            visit_needs(g, u as int, 0, m1, o0, f1) == visit_needs(g, u as int, k as int, mark@, order@, f1),
        decreases n - k,
    {
        let target = adj[u][k];
        assert(target == g[u as int][k as int]);
        match target {
            Some(v) => {
                let ghost mb = mark@;
                let ghost ob = order@;
                proof {
                    lemma_count_fresh_mono(m0, mb);
                    assert(m0[u as int] == 0 && mb[u as int] != 0);
                    assert(edge(g, path2.last(), v as int));
                }
                match topological_sort(v, adj, mark, order, Ghost(path2), Ghost(f1)) {
                    Ok(()) => {},
                    Err(e) => {
                        return Err(e);
                    },
                }
                proof {
                    lemma_count_fresh_mono(mb, mark@);
                    assert(mark@[v as int] == 2);
                    assert(order@.contains(v));
                    lemma_after_need(g[u as int], k as int, v, ob, order@, o0);
                }
            },
            None => {},
        }
        k = k + 1;
    }
    let ghost mb = mark@;
    let ghost ob = order@;
    mark.set(u, 2);
    order.push(u);
    proof {
        assert(m1[u as int] == 1);
        assert(mb[u as int] == 1);
        assert(!ob.contains(u)) by {
            if ob.contains(u) {
                let j = choose|j: int| 0 <= j < ob.len() && ob[j] == u;
                assert(mb[ob[j] as int] == 2);
            }
        }
        assert forall|i: int, j: int| 0 <= i < j < order@.len() implies #[trigger] order@[i]
            != #[trigger] order@[j] by {
            if j == order@.len() - 1 {
                assert(order@[i] == ob[i]);
                if ob[i] == u {
                    assert(ob.contains(u));
                }
            }
        }
        assert forall|i: int| 0 <= i < order@.len() implies #[trigger] mark@[order@[i] as int] == 2 by {
            if i < ob.len() {
                assert(order@[i] == ob[i]);
            }
        }
        assert forall|v: int| 0 <= v < mark@.len() && #[trigger] mark@[v] == 2 implies order@.contains(
            v as usize,
        ) by {
            if v == u {
                assert(order@[ob.len() as int] == u);
            } else {
                assert(mb[v] == 2);
                let j = choose|j: int| 0 <= j < ob.len() && ob[j] == v as usize;
                assert(order@[j] == ob[j]);
            }
        }
        assert forall|i: int, kk: int|
            0 <= i < order@.len() && 0 <= kk < g[order@[i] as int].len() && (#[trigger] g[order@[i] as int][kk]) is Some implies
            exists|j: int| 0 <= j < i && order@[j] == g[order@[i] as int][kk]->0
        by {
            if i < ob.len() {
                assert(order@[i] == ob[i]);
                let j = choose|j: int| 0 <= j < i && ob[j] == g[ob[i] as int][kk]->0;
                assert(order@[j] == ob[j]);
            } else {
                assert(order@[i] == u);
                assert(g[u as int][kk] is Some && ob.contains(g[u as int][kk]->0));
                let j = choose|j: int| 0 <= j < ob.len() && ob[j] == g[u as int][kk]->0;
                assert(order@[j] == ob[j]);
            }
        }
        assert forall|v: int| 0 <= v < mark@.len() && #[trigger] mark@[v] == 1 implies path.contains(v) by {
            assert(mb[v] == 1);
            assert(path2.contains(v));
            let j = choose|j: int| 0 <= j < path2.len() && path2[j] == v;
            if j == path.len() {
                assert(v == u);
            } else {
                assert(path[j] == v);
            }
        }
        assert forall|i: int| 0 <= i < path.len() implies 0 <= #[trigger] path[i] < g.len() && mark@[path[i]]
            == 1 by {
            assert(path2[i] == path[i]);
            if path[i] == u {
                assert(m0[u as int] == 0);
                assert(mark@[path[i]] == 1);
            }
        }
        assert forall|i: int| 0 <= i < path.len() - 1 implies edge(g, #[trigger] path[i], path[i + 1]) by {
            assert(path2[i] == path[i] && path2[i + 1] == path[i + 1]);
        }
        assert(order@.take(o0.len() as int) =~= o0) by {
            assert forall|i: int| 0 <= i < o0.len() implies order@[i] == o0[i] by {
                assert(ob.take(o0.len() as int)[i] == o0[i]);
                assert(order@[i] == ob[i]);
            }
        }
    }
    Ok(())
}


/// Orders every node after the nodes it needs, visiting the nodes from the first
/// to the last and each node's needs in list order.
pub fn topological_order(adj: &Vec<Vec<Option<usize>>>) -> (r: Result<Vec<usize>, TopoError>)
    requires
        adj_wf(adj_view(adj@)),
    ensures
        match r {
            Ok(order) => is_topological_order(adj_view(adj@), order@),
            Err(e) => error_holds(adj_view(adj@), e),
        },
        r is Ok <==> !has_cycle(adj_view(adj@)),
        match dfs_order(adj_view(adj@)) {
            Ok(o) => r matches Ok(x) && x@ == o,
            Err(e) => r matches Err(x) && x == e,
        },
{
    let ghost g = adj_view(adj@);
    let n = adj.len();
    let mut mark: Vec<u8> = Vec::new();
    let mut i: usize = 0;
    while i < n
        invariant
            i <= n,
            n == adj@.len(),
            mark@.len() == i,
            forall|v: int| 0 <= v < i ==> #[trigger] mark@[v] == 0,
        decreases n - i,
    {
        mark.push(0);
        i = i + 1;
    }
    let mut order: Vec<usize> = Vec::new();
    proof {
        assert(mark@ =~= Seq::new(g.len(), |i: int| 0u8));
        assert(order@ =~= Seq::<usize>::empty());
        lemma_count_fresh_le_len(mark@);
    }
    let mut u: usize = 0;
    while u < n
        invariant
            g == adj_view(adj@),
            n == g.len(),
            u <= n,
            search_state(g, mark@, order@, Seq::empty()),
            forall|v: int| 0 <= v < u ==> #[trigger] mark@[v] == 2,
            count_fresh(mark@) <= n,
            dfs_order(g) == visit_from(g, u as int, mark@, order@, n as nat),
        decreases n - u,
    {
        let ghost before = mark@;
        match topological_sort(u, adj, &mut mark, &mut order, Ghost(Seq::empty()), Ghost(n as nat)) {
            Ok(()) => {},
            Err(e) => {
                proof {
                    lemma_error_means_failure(g, e);
                }
                return Err(e);
            },
        }
        proof {
            lemma_count_fresh_mono(before, mark@);
            assert forall|v: int| 0 <= v < u + 1 implies #[trigger] mark@[v] == 2 by {
                if v < u {
                    assert(before[v] == 2);
                }
            }
        }
        u = u + 1;
    }
    proof {
        assert forall|v: int| 0 <= v < g.len() implies #[trigger] order@.contains(v as usize) by {
            assert(mark@[v] == 2);
        }
        lemma_topological_means_success(g, order@);
    }
    Ok(order)
}

pub proof fn lemma_error_means_failure(g: Seq<Seq<Option<usize>>>, e: TopoError)
    requires
        error_holds(g, e),
    ensures
        has_cycle(g),
{
    match e {
        TopoError::Cycle(u) => {
            assert(on_cycle(g, u as int));
        },
    }
}

pub proof fn lemma_walk_descends(g: Seq<Seq<Option<usize>>>, order: Seq<usize>, p: Seq<int>, i0: int, t: int)
    requires
        needs_come_first(g, order),
        distinct_nodes(order, g.len() as int),
        is_walk(g, p),
        0 <= i0 < order.len(),
        order[i0] == p[0],
        0 <= t < p.len(),
        g.len() <= usize::MAX,
    ensures
        exists|j: int| 0 <= j < order.len() && j <= i0 - t && order[j] == p[t],
    decreases t,
{
    if t > 0 {
        lemma_walk_descends(g, order, p, i0, t - 1);
        let j = choose|j: int| 0 <= j < order.len() && j <= i0 - (t - 1) && order[j] == p[t - 1];
        assert(edge(g, p[t - 1], p[t]));
        let k = choose|k: int| 0 <= k < g[p[t - 1]].len() && #[trigger] g[p[t - 1]][k] == Some(p[t] as usize);
        assert(g[order[j] as int][k] is Some);
        let j2 = choose|j2: int| 0 <= j2 < j && order[j2] == g[order[j] as int][k]->0;
        assert(order[j2] == p[t]);
    }
}

/// A topological order exists only where no node lies on a cycle.
pub proof fn lemma_topological_means_success(g: Seq<Seq<Option<usize>>>, order: Seq<usize>)
    requires
        is_topological_order(g, order),
        g.len() <= usize::MAX,
    ensures
        !has_cycle(g),
{
    assert forall|u: int| 0 <= u < g.len() implies !#[trigger] on_cycle(g, u) by {
        if on_cycle(g, u) {
            let p = choose|p: Seq<int>| is_walk(g, p) && p.len() >= 2 && p[0] == u && #[trigger] p.last() == u;
            assert(order.contains(u as usize));
            let i0 = choose|i: int| 0 <= i < order.len() && order[i] == u as usize;
            lemma_walk_descends(g, order, p, i0, p.len() - 1);
            let j = choose|j: int| 0 <= j < order.len() && j <= i0 - (p.len() - 1) && order[j] == p[p.len() - 1];
            assert(order[j] == order[i0]);
        }
    }
}

} // verus!
