//! Dependency resolution: a breadth-first walk over the registry's manifests,
//! then an install order by Kahn's algorithm, which also detects cycles.
use std::collections::VecDeque;
use vstd::prelude::*;

use crate::deps::{entries_view, entry_view, Dependencies, EntriesView};

verus! {

/// A package's name, version and the names of the packages it depends on.
pub type NodeView = (Seq<char>, Seq<char>, Seq<Seq<char>>);

/// A package reached during resolution, with the names of its direct dependencies.
#[derive(Debug)]
pub struct DepNode {
    pub name: String,
    pub version: String,
    pub deps: Vec<String>,
}

impl View for DepNode {
    type V = NodeView;

    open spec fn view(&self) -> NodeView {
        (self.name@, self.version@, strings_view(self.deps@))
    }
}

/// The texts of a list of strings.
pub open spec fn strings_view(s: Seq<String>) -> Seq<Seq<char>> {
    s.map_values(|x: String| x@)
}

/// A resolved dependency with name and version.
#[derive(Debug, PartialEq, Eq)]
pub struct ResolvedDep {
    pub name: String,
    pub version: String,
}

impl View for ResolvedDep {
    type V = (Seq<char>, Seq<char>);

    open spec fn view(&self) -> (Seq<char>, Seq<char>) {
        (self.name@, self.version@)
    }
}

/// The graph formed by a list of nodes.
pub open spec fn graph_of(nodes: Seq<DepNode>) -> Seq<NodeView> {
    nodes.map_values(|x: DepNode| x@)
}

/// The (name, version) pairs of a resolution result.
pub open spec fn pairs_of(r: Seq<ResolvedDep>) -> Seq<(Seq<char>, Seq<char>)> {
    r.map_values(|d: ResolvedDep| d@)
}

/// No two nodes share a name.
pub open spec fn names_distinct(g: Seq<NodeView>) -> bool {
    forall|i: int, j: int| 0 <= i < j < g.len() ==> (#[trigger] g[i]).0 != (#[trigger] g[j]).0
}

/// Some node is named `name` and has version `version`.
pub open spec fn is_node(g: Seq<NodeView>, name: Seq<char>, version: Seq<char>) -> bool {
    exists|i: int| 0 <= i < g.len() && (#[trigger] g[i]).0 == name && g[i].1 == version
}

/// `name` occurs among the first `before` entries of `o`.
pub open spec fn listed(o: Seq<(Seq<char>, Seq<char>)>, name: Seq<char>, before: int) -> bool {
    exists|q: int| 0 <= q < before && (#[trigger] o[q]).0 == name
}

/// `o` installs every node of `g` exactly once, each after all of its dependencies.
pub open spec fn is_install_order(g: Seq<NodeView>, o: Seq<(Seq<char>, Seq<char>)>) -> bool {
    &&& o.len() == g.len()
    &&& forall|p: int| 0 <= p < o.len() ==> is_node(g, (#[trigger] o[p]).0, o[p].1)
    &&& forall|i: int| 0 <= i < g.len() ==> listed(o, (#[trigger] g[i]).0, o.len() as int)
    &&& forall|p: int, q: int| 0 <= p < q < o.len() ==> (#[trigger] o[p]).0 != (#[trigger] o[q]).0
    &&& forall|p: int, i: int, k: int|
        #![trigger o[p], g[i].2[k]]
        0 <= p < o.len() && 0 <= i < g.len() && o[p].0 == g[i].0 && 0 <= k < g[i].2.len()
            ==> listed(o, g[i].2[k], p)
}

/// Some order installs `g`.
pub open spec fn installable(g: Seq<NodeView>) -> bool {
    exists|o: Seq<(Seq<char>, Seq<char>)>| is_install_order(g, o)
}

/// The error reported when no install order exists.
pub open spec fn circular_message() -> Seq<char> {
    "Circular dependency detected"@
}

/// `d` lists, for each node, the positions of the nodes named as its dependencies.
spec fn resolves_edges(g: Seq<NodeView>, d: Seq<Seq<usize>>) -> bool {
    &&& d.len() == g.len()
    &&& forall|a: int| 0 <= a < g.len() ==> (#[trigger] d[a]).len() == g[a].2.len()
    &&& forall|a: int, k: int|
        0 <= a < g.len() && 0 <= k < d[a].len() ==> (#[trigger] d[a][k]) < g.len() && g[d[a][k] as int].0
            == g[a].2[k]
}

/// A dependency name that names no node leaves the graph without an install order.
proof fn lemma_dangling_not_installable(g: Seq<NodeView>, a: int, k: int)
    requires
        0 <= a < g.len(),
        0 <= k < g[a].2.len(),
        forall|j: int| 0 <= j < g.len() ==> (#[trigger] g[j]).0 != g[a].2[k],
    ensures
        !installable(g),
{
    if installable(g) {
        let o = choose|o: Seq<(Seq<char>, Seq<char>)>| is_install_order(g, o);
        assert(listed(o, g[a].0, o.len() as int));
        let p = choose|p: int| 0 <= p < o.len() && (#[trigger] o[p]).0 == g[a].0;
        assert(listed(o, g[a].2[k], p));
        let q = choose|q: int| 0 <= q < p && (#[trigger] o[q]).0 == g[a].2[k];
        assert(is_node(g, o[q].0, o[q].1));
        let j = choose|j: int| 0 <= j < g.len() && (#[trigger] g[j]).0 == o[q].0 && g[j].1 == o[q].1;
        assert(g[j].0 != g[a].2[k]);
    }
}

/// In an install order, the nodes named by the first `p` entries are all `done`, when
/// every node that is not `done` depends on a node that is not `done`.
proof fn lemma_prefix_done(
    g: Seq<NodeView>,
    d: Seq<Seq<usize>>,
    done: Seq<bool>,
    o: Seq<(Seq<char>, Seq<char>)>,
    p: int,
)
    requires
        names_distinct(g),
        resolves_edges(g, d),
        done.len() == g.len(),
        forall|a: int|
            0 <= a < g.len() && !done[a] ==> exists|k: int|
                0 <= k < d[a].len() && !done[(#[trigger] d[a][k]) as int],
        is_install_order(g, o),
        0 <= p <= o.len(),
    ensures
        forall|q: int, a: int|
            0 <= q < p && 0 <= a < g.len() && (#[trigger] g[a]).0 == (#[trigger] o[q]).0 ==> done[a],
    decreases p,
{
    if p > 0 {
        lemma_prefix_done(g, d, done, o, p - 1);
        assert forall|q: int, a: int|
            0 <= q < p && 0 <= a < g.len() && (#[trigger] g[a]).0 == (#[trigger] o[q]).0 implies done[a] by {
            if q == p - 1 && !done[a] {
                let k = choose|k: int| 0 <= k < d[a].len() && !done[(#[trigger] d[a][k]) as int];
                let b = d[a][k] as int;
                assert(g[b].0 == g[a].2[k]);
                assert(listed(o, g[a].2[k], q));
                let r = choose|r: int| 0 <= r < q && (#[trigger] o[r]).0 == g[a].2[k];
                assert(g[b].0 == o[r].0);
            }
        }
    }
}

/// When every node that is not `done` depends on a node that is not `done`, an install
/// order exists only if every node is `done`.
proof fn lemma_stuck_not_installable(g: Seq<NodeView>, d: Seq<Seq<usize>>, done: Seq<bool>, a: int)
    requires
        names_distinct(g),
        resolves_edges(g, d),
        done.len() == g.len(),
        forall|b: int|
            0 <= b < g.len() && !done[b] ==> exists|k: int|
                0 <= k < d[b].len() && !done[(#[trigger] d[b][k]) as int],
        0 <= a < g.len(),
        !done[a],
    ensures
        !installable(g),
{
    if installable(g) {
        let o = choose|o: Seq<(Seq<char>, Seq<char>)>| is_install_order(g, o);
        lemma_prefix_done(g, d, done, o, o.len() as int);
        assert(listed(o, g[a].0, o.len() as int));
        let q = choose|q: int| 0 <= q < o.len() && (#[trigger] o[q]).0 == g[a].0;
        assert(g[a].0 == o[q].0);
    }
}

/// The position of the node named `name`, if any.
fn node_index(nodes: &Vec<DepNode>, name: &String) -> (r: Option<usize>)
    ensures
        match r {
            Some(j) => j < nodes.len() && graph_of(nodes@)[j as int].0 == name@,
            None => forall|j: int|
                0 <= j < nodes.len() ==> (#[trigger] graph_of(nodes@)[j]).0 != name@,
        },
{
    let mut j: usize = 0;
    while j < nodes.len()
        invariant
            0 <= j <= nodes.len(),
            forall|b: int| 0 <= b < j ==> (#[trigger] graph_of(nodes@)[b]).0 != name@,
        decreases nodes.len() - j,
    {
        assert(graph_of(nodes@)[j as int] == nodes@[j as int]@);
        if nodes[j].name == *name {
            return Some(j);
        }
        j = j + 1;
    }
    None
}

/// Whether every dependency of a node is at a queue position before `head`.
fn deps_done(row: &Vec<usize>, in_queue: &Vec<bool>, pos: &Vec<usize>, head: usize) -> (b: bool)
    requires
        forall|k: int| 0 <= k < row.len() ==> (#[trigger] row[k]) < in_queue.len(),
        in_queue.len() == pos.len(),
    ensures
        b == (forall|k: int|
            0 <= k < row.len() ==> in_queue[(#[trigger] row[k]) as int] && pos[row[k] as int]
                < head),
{
    let mut k: usize = 0;
    while k < row.len()
        invariant
            0 <= k <= row.len(),
            forall|x: int| 0 <= x < row.len() ==> (#[trigger] row[x]) < in_queue.len(),
            in_queue.len() == pos.len(),
            forall|x: int|
                0 <= x < k ==> in_queue[(#[trigger] row[x]) as int] && pos[row[x] as int] < head,
        decreases row.len() - k,
    {
        let d = row[k];
        if !in_queue[d] || pos[d] >= head {
            return false;
        }
        k = k + 1;
    }
    true
}

/// Every dependency of node `a` sits at a queue position before `head`.
spec fn ready(
    d: Seq<Seq<usize>>,
    in_queue: Seq<bool>,
    pos: Seq<usize>,
    a: int,
    head: int,
) -> bool {
    forall|k: int|
        0 <= k < d[a].len() ==> in_queue[(#[trigger] d[a][k]) as int] && pos[d[a][k] as int]
            < head
}

/// The bookkeeping of the queue: `pos` gives each queued node's place in `queue`.
spec fn queue_consistent(
    n: int,
    queue: Seq<usize>,
    in_queue: Seq<bool>,
    pos: Seq<usize>,
) -> bool {
    &&& in_queue.len() == n
    &&& pos.len() == n
    &&& forall|p: int|
        0 <= p < queue.len() ==> (#[trigger] queue[p]) < n && in_queue[queue[p] as int]
            && pos[queue[p] as int] == p
    &&& forall|a: int|
        0 <= a < n && #[trigger] in_queue[a] ==> pos[a] < queue.len() && queue[pos[a] as int]
            == a
}

/// Every queued node comes after all of its dependencies.
spec fn queue_ordered(d: Seq<Seq<usize>>, queue: Seq<usize>, in_queue: Seq<bool>, pos: Seq<usize>) -> bool {
    forall|p: int, k: int|
        0 <= p < queue.len() && 0 <= k < d[queue[p] as int].len() ==> in_queue[(#[trigger] d[queue[
            p] as int][k]) as int] && pos[d[queue[p] as int][k] as int] < p
}

/// A consistent queue holds each of the `n` nodes at most once, so at most `n` entries.
proof fn lemma_queue_bounded(n: int, queue: Seq<usize>, in_queue: Seq<bool>, pos: Seq<usize>)
    requires
        0 <= n,
        queue_consistent(n, queue, in_queue, pos),
    ensures
        queue.len() <= n,
{
    let qi = queue.map_values(|x: usize| x as int);
    assert(qi.no_duplicates()) by {
        assert forall|p: int, r: int| 0 <= p < qi.len() && 0 <= r < qi.len() && p != r implies qi[p]
            != qi[r] by {
            assert(pos[queue[p] as int] == p);
            assert(pos[queue[r] as int] == r);
        }
    }
    qi.unique_seq_to_set();
    vstd::set_lib::lemma_int_range(0, n);
    assert(qi.to_set().subset_of(vstd::set_lib::set_int_range(0, n))) by {
        assert forall|x: int| qi.to_set().contains(x) implies vstd::set_lib::set_int_range(0, n).contains(
            x,
        ) by {
            let p = choose|p: int| 0 <= p < qi.len() && qi[p] == x;
            assert(queue[p] < n);
        }
    }
    vstd::set_lib::lemma_len_subset(qi.to_set(), vstd::set_lib::set_int_range(0, n));
}

/// A consistent queue holding every one of the `n` nodes has exactly `n` entries.
proof fn lemma_queue_full(n: int, queue: Seq<usize>, in_queue: Seq<bool>, pos: Seq<usize>)
    requires
        0 <= n,
        queue_consistent(n, queue, in_queue, pos),
        forall|a: int| 0 <= a < n ==> #[trigger] in_queue[a],
    ensures
        queue.len() == n,
{
    lemma_queue_bounded(n, queue, in_queue, pos);
    let qi = queue.map_values(|x: usize| x as int);
    vstd::set_lib::lemma_int_range(0, n);
    assert(vstd::set_lib::set_int_range(0, n).subset_of(qi.to_set())) by {
        assert forall|x: int| vstd::set_lib::set_int_range(0, n).contains(x) implies qi.to_set().contains(
            x,
        ) by {
            assert(in_queue[x]);
            let p = pos[x] as int;
            assert(qi[p] == x);
        }
    }
    qi.lemma_cardinality_of_set();
    vstd::seq_lib::seq_to_set_is_finite(qi);
    vstd::set_lib::lemma_len_subset(vstd::set_lib::set_int_range(0, n), qi.to_set());
}

/// Orders the nodes so that every package comes after its dependencies.
///
/// Kahn's algorithm: nodes without dependencies are ready first; a node becomes ready
/// once its last dependency has been installed. Fails when a dependency names no node
/// or some nodes never become ready, that is when no install order exists.
pub fn topological_sort(nodes: &Vec<DepNode>) -> (r: Result<Vec<ResolvedDep>, String>)
    requires
        names_distinct(graph_of(nodes@)),
    ensures
        match r {
            Ok(o) => is_install_order(graph_of(nodes@), pairs_of(o@)),
            Err(e) => e@ == circular_message() && !installable(graph_of(nodes@)),
        },
{
    let ghost g = graph_of(nodes@);
    let n = nodes.len();
    // The positions of each node's dependencies.
    let mut dep_idx: Vec<Vec<usize>> = Vec::new();
    let mut i: usize = 0;
    while i < n
        invariant
            0 <= i <= n,
            n == nodes.len(),
            g == graph_of(nodes@),
            dep_idx.len() == i,
            forall|a: int| 0 <= a < i ==> (#[trigger] dep_idx@[a]@).len() == g[a].2.len(),
            forall|a: int, k: int|
                0 <= a < i && 0 <= k < dep_idx@[a]@.len() ==> (#[trigger] dep_idx@[a]@[k]) < n
                    && g[dep_idx@[a]@[k] as int].0 == g[a].2[k],
        decreases n - i,
    {
        let mut row: Vec<usize> = Vec::new();
        let node = &nodes[i];
        assert(g[i as int] == node@);
        let mut k: usize = 0;
        while k < node.deps.len()
            invariant
                0 <= k <= node.deps.len(),
                i < n,
                n == nodes.len(),
                g == graph_of(nodes@),
                g[i as int] == node@,
                row.len() == k,
                forall|x: int|
                    0 <= x < k ==> (#[trigger] row@[x]) < n && g[row@[x] as int].0 == g[i as int].2[x],
            decreases node.deps.len() - k,
        {
            assert(g[i as int].2[k as int] == node.deps@[k as int]@);
            match node_index(nodes, &node.deps[k]) {
                Some(j) => {
                    row.push(j);
                },
                None => {
                    proof {
                        lemma_dangling_not_installable(g, i as int, k as int);
                    }
                    return Err("Circular dependency detected".to_owned());
                },
            }
            k = k + 1;
        }
        dep_idx.push(row);
        i = i + 1;
    }
    let ghost d = dep_idx@.map_values(|row: Vec<usize>| row@);
    assert(resolves_edges(g, d)) by {
        assert forall|a: int| 0 <= a < g.len() implies (#[trigger] d[a]).len() == g[a].2.len() by {
            assert(d[a] == dep_idx@[a]@);
        }
        assert forall|a: int, k: int| 0 <= a < g.len() && 0 <= k < d[a].len() implies (#[trigger] d[a][k])
            < g.len() && g[d[a][k] as int].0 == g[a].2[k] by {
            assert(d[a] == dep_idx@[a]@);
            assert(dep_idx@[a]@[k] < n);
        }
    }
    // Queue bookkeeping.
    let mut in_queue: Vec<bool> = Vec::new();
    let mut pos: Vec<usize> = Vec::new();
    let mut i: usize = 0;
    while i < n
        invariant
            0 <= i <= n,
            in_queue.len() == i,
            pos.len() == i,
            forall|a: int| 0 <= a < i ==> !(#[trigger] in_queue@[a]),
        decreases n - i,
    {
        in_queue.push(false);
        pos.push(0);
        i = i + 1;
    }
    // Nodes without dependencies are ready at once.
    let mut queue: Vec<usize> = Vec::new();
    let mut i: usize = 0;
    while i < n
        invariant
            0 <= i <= n,
            n == nodes.len(),
            g == graph_of(nodes@),
            d == dep_idx@.map_values(|row: Vec<usize>| row@),
            resolves_edges(g, d),
            queue_consistent(n as int, queue@, in_queue@, pos@),
            queue_ordered(d, queue@, in_queue@, pos@),
            forall|a: int| 0 <= a < i ==> (#[trigger] in_queue@[a] <==> d[a].len() == 0),
            forall|a: int| i <= a < n ==> !(#[trigger] in_queue@[a]),
        decreases n - i,
    {
        assert(d[i as int] == dep_idx@[i as int]@);
        if dep_idx[i].len() == 0 {
            pos.set(i, queue.len());
            in_queue.set(i, true);
            queue.push(i);
        }
        i = i + 1;
    }
    assert forall|a: int| 0 <= a < n implies (#[trigger] in_queue@[a] <==> ready(
        d,
        in_queue@,
        pos@,
        a,
        0,
    )) by {
        if d[a].len() > 0 {
            assert(!(in_queue@[d[a][0] as int] && pos@[d[a][0] as int] < 0));
        }
    }
    // Install the ready nodes in turn; a node becomes ready with its last dependency.
    let mut head: usize = 0;
    while head < queue.len()
        invariant
            n == nodes.len(),
            g == graph_of(nodes@),
            d == dep_idx@.map_values(|row: Vec<usize>| row@),
            resolves_edges(g, d),
            queue_consistent(n as int, queue@, in_queue@, pos@),
            queue_ordered(d, queue@, in_queue@, pos@),
            head <= queue.len(),
            forall|a: int|
                0 <= a < n ==> (#[trigger] in_queue@[a] <==> ready(
                    d,
                    in_queue@,
                    pos@,
                    a,
                    head as int,
                )),
        decreases n - head,
    {
        proof {
            lemma_queue_bounded(n as int, queue@, in_queue@, pos@);
        }
        head = head + 1;
        let mut i: usize = 0;
        while i < n
            invariant
                0 <= i <= n,
                n == nodes.len(),
                g == graph_of(nodes@),
                d == dep_idx@.map_values(|row: Vec<usize>| row@),
                resolves_edges(g, d),
                queue_consistent(n as int, queue@, in_queue@, pos@),
                queue_ordered(d, queue@, in_queue@, pos@),
                1 <= head <= queue.len(),
                forall|a: int|
                    0 <= a < i ==> (#[trigger] in_queue@[a] <==> ready(
                        d,
                        in_queue@,
                        pos@,
                        a,
                        head as int,
                    )),
                forall|a: int|
                    i <= a < n ==> (#[trigger] in_queue@[a] <==> ready(
                        d,
                        in_queue@,
                        pos@,
                        a,
                        head - 1,
                    )),
            decreases n - i,
        {
            assert(d[i as int] == dep_idx@[i as int]@);
            if !in_queue[i] && deps_done(&dep_idx[i], &in_queue, &pos, head) {
                let ghost q0 = queue@;
                let ghost in0 = in_queue@;
                let ghost pos0 = pos@;
                pos.set(i, queue.len());
                in_queue.set(i, true);
                queue.push(i);
                proof {
                    assert forall|a: int, h: int|
                        0 <= a < n && a != i && h <= head implies ready(d, in0, pos0, a, h)
                        == ready(d, in_queue@, pos@, a, h) by {
                        if ready(d, in0, pos0, a, h) {
                            assert forall|k: int| 0 <= k < d[a].len() implies in_queue@[(
                            #[trigger] d[a][k]) as int] && pos@[d[a][k] as int] < h by {
                                assert(in0[d[a][k] as int] && pos0[d[a][k] as int] < h);
                            }
                        }
                        if ready(d, in_queue@, pos@, a, h) {
                            assert forall|k: int| 0 <= k < d[a].len() implies in0[(
                            #[trigger] d[a][k]) as int] && pos0[d[a][k] as int] < h by {
                                assert(in_queue@[d[a][k] as int] && pos@[d[a][k] as int] < h);
                                if d[a][k] == i {
                                    assert(pos@[i as int] == q0.len());
                                }
                            }
                        }
                    }
                    assert(ready(d, in_queue@, pos@, i as int, head as int)) by {
                        assert forall|k: int| 0 <= k < d[i as int].len() implies in_queue@[(
                        #[trigger] d[i as int][k]) as int] && pos@[d[i as int][k] as int] < head by {
                            assert(in0[d[i as int][k] as int] && pos0[d[i as int][k] as int] < head);
                        }
                    }
                    assert(queue_consistent(n as int, queue@, in_queue@, pos@)) by {
                        assert forall|p: int| 0 <= p < queue@.len() implies (#[trigger] queue@[p])
                            < n && in_queue@[queue@[p] as int] && pos@[queue@[p] as int] == p by {
                            if p < q0.len() {
                                assert(q0[p] != i);
                            }
                        }
                    }
                    assert(queue_ordered(d, queue@, in_queue@, pos@)) by {
                        assert forall|p: int, k: int|
                            0 <= p < queue@.len() && 0 <= k < d[queue@[p] as int].len() implies in_queue@[(
                        #[trigger] d[queue@[p] as int][k]) as int] && pos@[d[queue@[p] as int][k] as int]
                            < p by {
                            if p < q0.len() {
                                let b = d[q0[p] as int][k];
                                assert(in0[b as int] && pos0[b as int] < p);
                            } else {
                                assert(in0[d[i as int][k] as int] && pos0[d[i as int][k] as int] < head);
                            }
                        }
                    }
                }
            } else {
                proof {
                    if in_queue@[i as int] {
                        assert(ready(d, in_queue@, pos@, i as int, head as int)) by {
                            assert forall|k: int| 0 <= k < d[i as int].len() implies in_queue@[(
                            #[trigger] d[i as int][k]) as int] && pos@[d[i as int][k] as int]
                                < head by {
                                assert(ready(d, in_queue@, pos@, i as int, head - 1));
                            }
                        }
                    }
                }
            }
            i = i + 1;
        }
    }
    // Every node must have been installed.
    let mut a: usize = 0;
    while a < n
        invariant
            0 <= a <= n,
            n == nodes.len(),
            forall|b: int| 0 <= b < a ==> #[trigger] in_queue@[b],
            g == graph_of(nodes@),
            names_distinct(g),
            d == dep_idx@.map_values(|row: Vec<usize>| row@),
            resolves_edges(g, d),
            queue_consistent(n as int, queue@, in_queue@, pos@),
            queue_ordered(d, queue@, in_queue@, pos@),
            head == queue.len(),
            forall|b: int|
                0 <= b < n ==> (#[trigger] in_queue@[b] <==> ready(
                    d,
                    in_queue@,
                    pos@,
                    b,
                    head as int,
                )),
        decreases n - a,
    {
        if !in_queue[a] {
            proof {
                assert forall|b: int|
                    0 <= b < g.len() && !in_queue@[b] implies exists|k: int|
                        0 <= k < d[b].len() && !in_queue@[(#[trigger] d[b][k]) as int] by {
                    assert(!ready(d, in_queue@, pos@, b, head as int));
                    let k = choose|k: int|
                        0 <= k < d[b].len() && !(in_queue@[(#[trigger] d[b][k]) as int] && pos@[d[
                            b][k] as int] < head);
                    assert(!in_queue@[d[b][k] as int]);
                }
                lemma_stuck_not_installable(g, d, in_queue@, a as int);
            }
            return Err("Circular dependency detected".to_owned());
        }
        a = a + 1;
    }
    // Emit the queue in order.
    let mut out: Vec<ResolvedDep> = Vec::new();
    let mut p: usize = 0;
    while p < queue.len()
        invariant
            0 <= p <= queue.len(),
            out.len() == p,
            n == nodes.len(),
            g == graph_of(nodes@),
            queue_consistent(n as int, queue@, in_queue@, pos@),
            forall|x: int|
                0 <= x < p ==> (#[trigger] pairs_of(out@)[x]).0 == g[queue@[x] as int].0
                    && pairs_of(out@)[x].1 == g[queue@[x] as int].1,
        decreases queue.len() - p,
    {
        let node = &nodes[queue[p]];
        assert(g[queue@[p as int] as int] == node@);
        let ghost before = out@;
        let item = ResolvedDep { name: node.name.clone(), version: node.version.clone() };
        out.push(item);
        assert(pairs_of(out@) == pairs_of(before).push(item@));
        p = p + 1;
    }
    proof {
        let o = pairs_of(out@);
        lemma_queue_full(n as int, queue@, in_queue@, pos@);
        assert forall|x: int| 0 <= x < o.len() implies is_node(g, (#[trigger] o[x]).0, o[x].1) by {
            assert(g[queue@[x] as int].0 == o[x].0);
        }
        assert forall|b: int| 0 <= b < g.len() implies listed(o, (#[trigger] g[b]).0, o.len() as int) by {
            assert(in_queue@[b]);
            assert(o[pos@[b] as int].0 == g[b].0);
        }
        assert forall|x: int, y: int| 0 <= x < y < o.len() implies (#[trigger] o[x]).0 != (
        #[trigger] o[y]).0 by {
            assert(queue@[x] != queue@[y]);
        }
        assert forall|x: int, b: int, k: int|
            #![trigger o[x], g[b].2[k]]
            0 <= x < o.len() && 0 <= b < g.len() && o[x].0 == g[b].0 && 0 <= k < g[b].2.len()
                implies listed(o, g[b].2[k], x) by {
            let c = queue@[x] as int;
            assert(g[c].0 == g[b].0);
            assert(c == b);
            let e = d[b][k] as int;
            assert(in_queue@[e] && pos@[e] < x);
            assert(o[pos@[e] as int].0 == g[e].0);
        }
    }
    Ok(out)
}

/// Packages waiting to be looked up, as (name, version) pairs in queue order.
pub type PendingView = Seq<(Seq<char>, Seq<char>)>;

/// The state of a resolution: the packages still to visit and those visited so far.
pub struct ResolverView {
    pub pending: PendingView,
    pub nodes: Seq<NodeView>,
}

/// A node named `name` was visited.
pub open spec fn visited(g: Seq<NodeView>, name: Seq<char>) -> bool {
    exists|i: int| 0 <= i < g.len() && (#[trigger] g[i]).0 == name
}

/// `name` waits in the queue.
pub open spec fn queued(pending: PendingView, name: Seq<char>) -> bool {
    exists|p: int| 0 <= p < pending.len() && (#[trigger] pending[p]).0 == name
}

/// `name` was visited or waits to be.
pub open spec fn known(v: ResolverView, name: Seq<char>) -> bool {
    visited(v.nodes, name) || queued(v.pending, name)
}

/// The queue from its first package not yet visited on.
pub open spec fn skip_visited(pending: PendingView, g: Seq<NodeView>) -> PendingView
    decreases pending.len(),
{
    if pending.len() > 0 && visited(g, pending[0].0) {
        skip_visited(pending.drop_first(), g)
    } else {
        pending
    }
}

/// The entries naming packages not yet visited, in order.
pub open spec fn unvisited_entries(es: EntriesView, g: Seq<NodeView>) -> PendingView
    decreases es.len(),
{
    if es.len() == 0 {
        Seq::empty()
    } else {
        let rest = unvisited_entries(es.drop_last(), g);
        if visited(g, es.last().0) {
            rest
        } else {
            rest.push(es.last())
        }
    }
}

/// The names of a dependency table, in order.
pub open spec fn entry_names(es: EntriesView) -> Seq<Seq<char>> {
    es.map_values(|e: (Seq<char>, Seq<char>)| e.0)
}

/// Every dependency of every visited package is visited or queued.
pub open spec fn edges_known(v: ResolverView) -> bool {
    forall|i: int, k: int|
        0 <= i < v.nodes.len() && 0 <= k < v.nodes[i].2.len() ==> known(v, #[trigger] v.nodes[i].2[k])
}

/// The invariant of a resolution: visited names are distinct and every dependency
/// met so far is visited or queued.
pub open spec fn resolver_wf(v: ResolverView) -> bool {
    &&& names_distinct(v.nodes)
    &&& edges_known(v)
}

/// A resolution in progress: a breadth-first walk from the direct dependencies
/// through the manifests of the packages found in the registry.
///
/// Each call of `next_lookup` names the next package to look up; the caller looks it
/// up and reports the dependencies found, if any, through `record`. When
/// `next_lookup` answers `None`, `finish` gives the install order.
pub struct Resolver {
    queue: VecDeque<(String, String)>,
    nodes: Vec<DepNode>,
}

impl View for Resolver {
    type V = ResolverView;

    closed spec fn view(&self) -> ResolverView {
        ResolverView {
            pending: entries_view(self.queue@),
            nodes: graph_of(self.nodes@),
        }
    }
}

/// Whether a visited node is named `name`.
fn is_visited(nodes: &Vec<DepNode>, name: &String) -> (b: bool)
    ensures
        b == visited(graph_of(nodes@), name@),
{
    node_index(nodes, name).is_some()
}

impl Resolver {
    #[verifier::type_invariant]
    closed spec fn inv(&self) -> bool {
        resolver_wf(self@)
    }

    /// Starts a resolution of the given direct dependencies.
    pub fn new(direct: &Dependencies) -> (r: Resolver)
        ensures
            r@.pending == direct@,
            r@.nodes == Seq::<NodeView>::empty(),
            resolver_wf(r@),
    {
        let entries = direct.entries();
        let mut queue: VecDeque<(String, String)> = VecDeque::new();
        let mut i: usize = 0;
        while i < entries.len()
            invariant
                0 <= i <= entries.len(),
                entries_view(entries@) == direct@,
                entries_view(queue@) == direct@.take(i as int),
            decreases entries.len() - i,
        {
            let ghost before = queue@;
            let e = (entries[i].0.clone(), entries[i].1.clone());
            assert(entry_view(e) == direct@[i as int]);
            queue.push_back(e);
            assert(queue@ == before.push(e));
            assert(entries_view(entries@).len() == entries@.len());
            assert(direct@.len() == entries@.len());
            assert(entries_view(before) == direct@.take(i as int));
            assert(entries_view(before).len() == before.len());
            assert(entries_view(queue@).len() == i + 1);
            assert forall|x: int| 0 <= x < i + 1 implies entries_view(queue@)[x] == direct@.take(i + 1)[x] by {
                if x < i {
                    assert(entries_view(queue@)[x] == entries_view(before)[x]);
                }
            }
            assert(entries_view(queue@) =~= direct@.take(i + 1));
            i = i + 1;
        }
        assert(direct@.take(entries.len() as int) =~= direct@);
        let r = Resolver { queue, nodes: Vec::new() };
        assert(r@.nodes =~= Seq::<NodeView>::empty());
        r
    }

    /// Takes the next package to look up off the queue, skipping packages already
    /// visited, and marks it visited (with no dependencies until `record` gives them).
    /// `None` when the queue is exhausted.
    pub fn next_lookup(&mut self) -> (r: Option<(String, String)>)
        ensures
            ({
                let q = skip_visited(old(self)@.pending, old(self)@.nodes);
                match r {
                    None => q.len() == 0 && final(self)@.pending == q && final(self)@.nodes
                        == old(self)@.nodes,
                    Some(e) => q.len() > 0 && entry_view(e) == q[0] && final(self)@.pending
                        == q.drop_first() && final(self)@.nodes == old(self)@.nodes.push(
                        (q[0].0, q[0].1, Seq::<Seq<char>>::empty()),
                    ),
                }
            }),
            resolver_wf(final(self)@),
            forall|name: Seq<char>| known(old(self)@, name) ==> known(final(self)@, name),
    {
        proof {
            use_type_invariant(&*self);
        }
        let ghost start = self@;
        let mut queue: VecDeque<(String, String)> = VecDeque::new();
        let mut nodes: Vec<DepNode> = Vec::new();
        std::mem::swap(&mut nodes, &mut self.nodes);
        std::mem::swap(&mut queue, &mut self.queue);
        let ghost g = start.nodes;
        let ghost q = skip_visited(start.pending, g);
        proof {
            lemma_skip_visited_keeps(start.pending, g);
        }
        let r = pop_unvisited(&mut queue, &nodes);
        match r {
            Some(e) => {
                let ghost ev = entry_view(e);
                nodes.push(DepNode { name: e.0.clone(), version: e.1.clone(), deps: Vec::new() });
                let ghost v = ResolverView {
                    pending: entries_view(queue@),
                    nodes: graph_of(nodes@),
                };
                proof {
                    let node: NodeView = (ev.0, ev.1, Seq::<Seq<char>>::empty());
                    assert(nodes@[nodes@.len() - 1]@.2 =~= Seq::<Seq<char>>::empty());
                    assert(v.nodes =~= g.push(node));
                    assert(!visited(g, q[0].0));
                    assert(names_distinct(v.nodes)) by {
                        assert forall|a: int, b: int| 0 <= a < b < v.nodes.len() implies (
                        #[trigger] v.nodes[a]).0 != (#[trigger] v.nodes[b]).0 by {
                            if b == g.len() {
                                assert(g[a].0 != q[0].0);
                            }
                        }
                    }
                    assert forall|name: Seq<char>| known(start, name) implies known(v, name) by {
                        if visited(g, name) {
                            let a = choose|a: int| 0 <= a < g.len() && (#[trigger] g[a]).0 == name;
                            assert(v.nodes[a] == g[a]);
                        } else {
                            assert(queued(q, name));
                            let p = choose|p: int| 0 <= p < q.len() && (#[trigger] q[p]).0 == name;
                            if p == 0 {
                                assert(v.nodes[g.len() as int].0 == name);
                            } else {
                                assert(v.pending[p - 1] == q[p]);
                            }
                        }
                    }
                    assert(edges_known(v)) by {
                        assert forall|a: int, k: int|
                            0 <= a < v.nodes.len() && 0 <= k < v.nodes[a].2.len() implies known(
                            v,
                            #[trigger] v.nodes[a].2[k],
                        ) by {
                            assert(a < g.len());
                            assert(v.nodes[a] == g[a]);
                            assert(known(start, g[a].2[k]));
                        }
                    }
                }
                self.queue = queue;
                self.nodes = nodes;
                Some(e)
            },
            None => {
                proof {
                    let v = ResolverView {
                        pending: entries_view(queue@),
                        nodes: graph_of(nodes@),
                    };
                    assert forall|name: Seq<char>| known(start, name) implies known(v, name) by {
                        if !visited(g, name) {
                            assert(queued(q, name));
                        }
                    }
                    assert(edges_known(v)) by {
                        assert forall|a: int, k: int|
                            0 <= a < v.nodes.len() && 0 <= k < v.nodes[a].2.len() implies known(
                            v,
                            #[trigger] v.nodes[a].2[k],
                        ) by {
                            assert(known(start, g[a].2[k]));
                        }
                    }
                }
                self.queue = queue;
                self.nodes = nodes;
                None
            },
        }
    }
}


impl Resolver {
    /// Records the dependencies found for the package last handed out by `next_lookup`
    /// (`None` when it is not in the registry or its manifest could not be read):
    /// they become that package's dependencies, and those not yet visited join the
    /// back of the queue in order. Does nothing before the first lookup.
    pub fn record(&mut self, found: Option<Dependencies>)
        ensures
            old(self)@.nodes.len() == 0 ==> final(self)@ == old(self)@,
            old(self)@.nodes.len() > 0 ==> {
                let es = found_entries(found);
                let g = old(self)@.nodes;
                let last = g.last();
                &&& final(self)@.nodes == g.update(g.len() - 1, (last.0, last.1, entry_names(es)))
                &&& final(self)@.pending == old(self)@.pending + unvisited_entries(es, g)
            },
            resolver_wf(final(self)@),
            forall|name: Seq<char>| known(old(self)@, name) ==> known(final(self)@, name),
    {
        proof {
            use_type_invariant(&*self);
        }
        let ghost start = self@;
        let mut queue: VecDeque<(String, String)> = VecDeque::new();
        let mut nodes: Vec<DepNode> = Vec::new();
        std::mem::swap(&mut nodes, &mut self.nodes);
        std::mem::swap(&mut queue, &mut self.queue);
        if nodes.len() == 0 {
            self.queue = queue;
            self.nodes = nodes;
            return ;
        }
        match found {
            Some(d) => {
                add_found(&mut queue, &mut nodes, d.entries());
            },
            None => {
                let none: Vec<(String, String)> = Vec::new();
                assert(entries_view(none@) =~= Seq::<(Seq<char>, Seq<char>)>::empty());
                add_found(&mut queue, &mut nodes, &none);
            },
        }
        self.queue = queue;
        self.nodes = nodes;
    }

    /// The install order of the packages visited so far: each after its dependencies.
    /// Fails when there is none, because of a dependency cycle or (before the walk is
    /// over) a dependency not yet visited.
    pub fn finish(&self) -> (r: Result<Vec<ResolvedDep>, String>)
        ensures
            match r {
                Ok(o) => is_install_order(self@.nodes, pairs_of(o@)),
                Err(e) => e@ == circular_message() && !installable(self@.nodes),
            },
    {
        proof {
            use_type_invariant(self);
        }
        topological_sort(&self.nodes)
    }
}

/// The entries of an optional dependency table (none when absent).
pub open spec fn found_entries(found: Option<Dependencies>) -> EntriesView {
    match found {
        Some(d) => d@,
        None => Seq::empty(),
    }
}

/// Every entry's name is visited or among the unvisited entries kept.
proof fn lemma_unvisited_entries(es: EntriesView, g: Seq<NodeView>)
    ensures
        forall|k: int|
            0 <= k < es.len() ==> visited(g, (#[trigger] es[k]).0) || queued(
                unvisited_entries(es, g),
                es[k].0,
            ),
    decreases es.len(),
{
    if es.len() > 0 {
        lemma_unvisited_entries(es.drop_last(), g);
        let rest = unvisited_entries(es.drop_last(), g);
        assert forall|k: int| 0 <= k < es.len() implies visited(g, (#[trigger] es[k]).0) || queued(
            unvisited_entries(es, g),
            es[k].0,
        ) by {
            if k < es.len() - 1 {
                assert(es.drop_last()[k] == es[k]);
                if queued(rest, es[k].0) {
                    let p = choose|p: int| 0 <= p < rest.len() && (#[trigger] rest[p]).0 == es[k].0;
                    if !visited(g, es.last().0) {
                        assert(rest.push(es.last())[p] == rest[p]);
                    }
                }
            } else {
                if !visited(g, es.last().0) {
                    assert(rest.push(es.last())[rest.len() as int] == es.last());
                }
            }
        }
    }
}

/// Gives the last visited node the names of `entries` as dependencies and queues the
/// entries not yet visited.
fn add_found(
    queue: &mut VecDeque<(String, String)>,
    nodes: &mut Vec<DepNode>,
    entries: &Vec<(String, String)>,
)
    requires
        old(nodes)@.len() > 0,
        resolver_wf(
            ResolverView { pending: entries_view(old(queue)@), nodes: graph_of(old(nodes)@) },
        ),
    ensures
        ({
            let es = entries_view(entries@);
            let g = graph_of(old(nodes)@);
            let last = g.last();
            &&& graph_of(final(nodes)@) == g.update(
                g.len() - 1,
                (last.0, last.1, entry_names(es)),
            )
            &&& entries_view(final(queue)@) == entries_view(old(queue)@) + unvisited_entries(es, g)
        }),
        resolver_wf(
            ResolverView { pending: entries_view(final(queue)@), nodes: graph_of(final(nodes)@) },
        ),
        forall|name: Seq<char>|
            known(
                ResolverView { pending: entries_view(old(queue)@), nodes: graph_of(old(nodes)@) },
                name,
            ) ==> known(
                ResolverView { pending: entries_view(final(queue)@), nodes: graph_of(final(nodes)@) },
                name,
            ),
{
    let ghost es = entries_view(entries@);
    let ghost g = graph_of(nodes@);
    let ghost q0 = entries_view(queue@);
    let mut names: Vec<String> = Vec::new();
    let mut i: usize = 0;
    assert(es.take(0) =~= Seq::<(Seq<char>, Seq<char>)>::empty());
    while i < entries.len()
        invariant
            0 <= i <= entries.len(),
            es == entries_view(entries@),
            g == graph_of(nodes@),
            strings_view(names@) == entry_names(es.take(i as int)),
            entries_view(queue@) == q0 + unvisited_entries(es.take(i as int), g),
        decreases entries.len() - i,
    {
        assert(es[i as int] == entry_view(entries@[i as int]));
        assert(es.take(i + 1).drop_last() =~= es.take(i as int));
        let ghost names0 = names@;
        assert(entry_names(es.take(i as int)).len() == i);
        assert(strings_view(names0).len() == names0.len());
        assert(names0.len() == i);
        names.push(entries[i].0.clone());
        assert(names@ == names0.push(entries@[i as int].0));
        assert(strings_view(names@) =~= entry_names(es.take(i + 1))) by {
            assert forall|x: int| 0 <= x < i + 1 implies strings_view(names@)[x] == entry_names(
                es.take(i + 1),
            )[x] by {
                if x < i {
                    assert(strings_view(names@)[x] == strings_view(names0)[x]);
                }
            }
        }
        let ghost before = queue@;
        if !is_visited(nodes, &entries[i].0) {
            queue.push_back((entries[i].0.clone(), entries[i].1.clone()));
            assert(entries_view(queue@) =~= entries_view(before).push(es[i as int]));
        }
        i = i + 1;
    }
    assert(es.take(entries.len() as int) =~= es);
    let last = nodes.len() - 1;
    let node = DepNode {
        name: nodes[last].name.clone(),
        version: nodes[last].version.clone(),
        deps: names,
    };
    nodes.set(last, node);
    proof {
        let g2 = graph_of(nodes@);
        let last_node = g[last as int];
        assert(g2 =~= g.update(last as int, (last_node.0, last_node.1, entry_names(es))));
        let v0 = ResolverView { pending: q0, nodes: g };
        let v = ResolverView { pending: entries_view(queue@), nodes: g2 };
        let added = unvisited_entries(es, g);
        assert forall|name: Seq<char>| known(v0, name) implies known(v, name) by {
            if visited(g, name) {
                let a = choose|a: int| 0 <= a < g.len() && (#[trigger] g[a]).0 == name;
                assert(g2[a].0 == name);
            } else {
                let p = choose|p: int| 0 <= p < q0.len() && (#[trigger] q0[p]).0 == name;
                assert(v.pending[p] == q0[p]);
            }
        }
        assert(names_distinct(g2)) by {
            assert forall|a: int, b: int| 0 <= a < b < g2.len() implies (#[trigger] g2[a]).0 != (
            #[trigger] g2[b]).0 by {
                assert(g2[a].0 == g[a].0 && g2[b].0 == g[b].0);
            }
        }
        lemma_unvisited_entries(es, g);
        assert(edges_known(v)) by {
            assert forall|a: int, k: int|
                0 <= a < g2.len() && 0 <= k < g2[a].2.len() implies known(v, #[trigger] g2[a].2[k]) by {
                if a == last {
                    let nm = es[k].0;
                    assert(g2[a].2[k] == nm);
                    if visited(g, nm) {
                        let b = choose|b: int| 0 <= b < g.len() && (#[trigger] g[b]).0 == nm;
                        assert(g2[b].0 == nm);
                    } else {
                        let p = choose|p: int| 0 <= p < added.len() && (#[trigger] added[p]).0 == nm;
                        assert(v.pending[q0.len() + p] == added[p]);
                    }
                } else {
                    assert(g2[a] == g[a]);
                    assert(known(v0, g[a].2[k]));
                }
            }
        }
    }
}

/// A name queued before skipping the visited front of the queue is visited or still queued.
proof fn lemma_skip_visited_keeps(pending: PendingView, g: Seq<NodeView>)
    ensures
        forall|name: Seq<char>|
            queued(pending, name) ==> visited(g, name) || queued(skip_visited(pending, g), name),
        skip_visited(pending, g).len() > 0 ==> !visited(g, skip_visited(pending, g)[0].0),
    decreases pending.len(),
{
    if pending.len() > 0 && visited(g, pending[0].0) {
        lemma_skip_visited_keeps(pending.drop_first(), g);
        assert forall|name: Seq<char>| queued(pending, name) implies visited(g, name) || queued(
            skip_visited(pending, g),
            name,
        ) by {
            let p = choose|p: int| 0 <= p < pending.len() && (#[trigger] pending[p]).0 == name;
            if p > 0 {
                assert(pending.drop_first()[p - 1] == pending[p]);
            }
        }
    }
}

/// Pops the queue up to and including its first package not yet visited.
fn pop_unvisited(queue: &mut VecDeque<(String, String)>, nodes: &Vec<DepNode>) -> (r: Option<
    (String, String),
>)
    ensures
        ({
            let q = skip_visited(
                entries_view(old(queue)@),
                graph_of(nodes@),
            );
            match r {
                None => q.len() == 0 && entries_view(final(queue)@) == q,
                Some(e) => q.len() > 0 && entry_view(e) == q[0] && entries_view(final(queue)@) == q.drop_first(),
            }
        }),
{
    let ghost g = graph_of(nodes@);
    let ghost target = skip_visited(entries_view(old(queue)@), g);
    loop
        invariant
            g == graph_of(nodes@),
            target == skip_visited(entries_view(old(queue)@), g),
            skip_visited(entries_view(queue@), g) == target,
        decreases queue@.len(),
    {
        let ghost before = entries_view(queue@);
        match queue.pop_front() {
            None => {
                assert(before.len() == 0);
                assert(skip_visited(before, g) == before);
                return None;
            },
            Some(e) => {
                let ghost after = entries_view(queue@);
                assert(after =~= before.drop_first());
                assert(before[0] == entry_view(e));
                if !is_visited(nodes, &e.0) {
                    assert(skip_visited(before, g) == before);
                    return Some(e);
                }
            },
        }
    }
}

/// When the queue is exhausted, the walk is complete: every dependency of every visited
/// package was visited, and so was every package ever queued.
pub proof fn law_exhausted_walk_is_closed(v: ResolverView)
    requires
        resolver_wf(v),
        v.pending.len() == 0,
    ensures
        forall|i: int, k: int|
            0 <= i < v.nodes.len() && 0 <= k < v.nodes[i].2.len() ==> visited(
                v.nodes,
                #[trigger] v.nodes[i].2[k],
            ),
        forall|name: Seq<char>| known(v, name) ==> visited(v.nodes, name),
{
}

/// Once the walk is complete, any install order of the visited packages installs every
/// package that was ever queued, the direct dependencies among them.
pub proof fn law_known_packages_installed(
    v: ResolverView,
    o: Seq<(Seq<char>, Seq<char>)>,
    name: Seq<char>,
)
    requires
        resolver_wf(v),
        v.pending.len() == 0,
        known(v, name),
        is_install_order(v.nodes, o),
    ensures
        listed(o, name, o.len() as int),
{
    let i = choose|i: int| 0 <= i < v.nodes.len() && (#[trigger] v.nodes[i]).0 == name;
    assert(listed(o, v.nodes[i].0, o.len() as int));
}

/// Package `a` names package `b` among its dependencies.
pub open spec fn depends_on(g: Seq<NodeView>, a: int, b: int) -> bool {
    exists|k: int| 0 <= k < g[a].2.len() && (#[trigger] g[a].2[k]) == g[b].0
}

/// `c` lists packages each of which depends on the next, the last on the first.
pub open spec fn is_cycle(g: Seq<NodeView>, c: Seq<int>) -> bool {
    &&& c.len() > 0
    &&& forall|t: int| 0 <= t < c.len() ==> 0 <= #[trigger] c[t] < g.len()
    &&& forall|t: int| 0 <= t < c.len() - 1 ==> depends_on(g, #[trigger] c[t], c[t + 1])
    &&& depends_on(g, c.last(), c[0])
}

/// The position in `o` of the package `g[a]`.
spec fn place(g: Seq<NodeView>, o: Seq<(Seq<char>, Seq<char>)>, a: int) -> int {
    choose|p: int| 0 <= p < o.len() && (#[trigger] o[p]).0 == g[a].0
}

/// A package is installed after each of its dependencies.
proof fn lemma_dependency_placed_first(
    g: Seq<NodeView>,
    o: Seq<(Seq<char>, Seq<char>)>,
    a: int,
    b: int,
)
    requires
        is_install_order(g, o),
        0 <= a < g.len(),
        0 <= b < g.len(),
        depends_on(g, a, b),
    ensures
        0 <= place(g, o, b) < place(g, o, a) < o.len(),
{
    assert(listed(o, g[a].0, o.len() as int));
    assert(listed(o, g[b].0, o.len() as int));
    let pa = place(g, o, a);
    let pb = place(g, o, b);
    let k = choose|k: int| 0 <= k < g[a].2.len() && (#[trigger] g[a].2[k]) == g[b].0;
    assert(listed(o, g[a].2[k], pa));
    let q = choose|q: int| 0 <= q < pa && (#[trigger] o[q]).0 == g[a].2[k];
    if q != pb {
        if q < pb {
            assert(o[q].0 != o[pb].0);
        } else {
            assert(o[pb].0 != o[q].0);
        }
    }
}

/// Strictly decreasing places along a sequence drop by at least one per step.
proof fn lemma_places_descend(pl: Seq<int>, t: int)
    requires
        forall|u: int| 0 <= u < pl.len() - 1 ==> #[trigger] pl[u + 1] < pl[u],
        0 <= t < pl.len(),
    ensures
        pl[t] <= pl[0] - t,
    decreases t,
{
    if t > 0 {
        lemma_places_descend(pl, t - 1);
        assert(pl[(t - 1) + 1] < pl[t - 1]);
    }
}

/// A dependency cycle leaves no install order: the resolution reports it.
pub proof fn law_cycle_not_installable(g: Seq<NodeView>, c: Seq<int>)
    requires
        is_cycle(g, c),
    ensures
        !installable(g),
{
    if installable(g) {
        let o = choose|o: Seq<(Seq<char>, Seq<char>)>| is_install_order(g, o);
        let n = c.len() as int;
        let pl = Seq::new(c.len(), |t: int| place(g, o, c[t]));
        assert forall|u: int| 0 <= u < pl.len() - 1 implies #[trigger] pl[u + 1] < pl[u] by {
            assert(depends_on(g, c[u], c[u + 1]));
            lemma_dependency_placed_first(g, o, c[u], c[u + 1]);
        }
        lemma_places_descend(pl, n - 1);
        assert(0 <= c[n - 1] < g.len());
        assert(0 <= c[0] < g.len());
        lemma_dependency_placed_first(g, o, c[n - 1], c[0]);
    }
}

} // verus!
