//! The breadth-first walk that builds a call graph.
use vstd::prelude::*;

use crate::calls::{scan_cap, scan_cap_of, CallRow, InRamCallIndex};
use crate::graph::{
    build_root, callable, callee_in, callee_upto, callees_of_name, callers_of_name, callers_upto,
    collect_callees_for_name, collect_callers, defines, definition_sites, enclosing, in_scope,
    index_calls, index_rows, innermost, inside, is_tightest, lemma_innermost, lemma_record_kept,
    lemma_record_source, lemma_tightest_unique, lists, name_recorded, opt_path, sites_at,
    symbol_count, CallGraphNode, CallGraphSite, Neighbour, NeighbourMap, SiteAt, SiteIndex,
    DEFAULT_MAX_DEPTH, DEFAULT_MAX_NODES, MAX_DEPTH_CEILING, MAX_NODES_CEILING,
};
use crate::model::{
    holds_path, lemma_table_at, path_index, paths_ascend, MappedFile, RelPath, ToolError,
};
use crate::tables::{entry_at, names_get, names_held, names_insert, names_new};
use crate::text::{quoted, quoted_text, same_str};

verus! {

/// Why a call graph is not complete.
#[derive(Debug, Clone, Copy, PartialEq, Eq, Structural)]
pub enum Truncation {
    /// No more nodes were allowed.
    MaxNodes,
    /// A name has too many call sites to look at.
    ScanCap,
    /// Nodes at the depth limit were not expanded.
    MaxDepth,
}

impl Truncation {
    /// The wire name of the reason.
    pub open spec fn tag(self) -> Seq<char> {
        match self {
            Truncation::MaxNodes => "max_nodes"@,
            Truncation::ScanCap => "scan_cap"@,
            Truncation::MaxDepth => "max_depth"@,
        }
    }

    /// The wire name of the reason.
    pub fn as_str(self) -> (s: &'static str)
        ensures
            s@ == self.tag(),
    {
        match self {
            Truncation::MaxNodes => "max_nodes",
            Truncation::ScanCap => "scan_cap",
            Truncation::MaxDepth => "max_depth",
        }
    }
}

/// What the neighbours of a node are, given its index and name. `None` where its call sites are
/// too many to look at.
pub type Neighbourhood = spec_fn(int, Seq<char>) -> Option<NeighbourMap>;

/// Whether an edge records that node `a` was found as a neighbour of node `b`. Upward, towards
/// callers, the neighbour points at the node; downward the node points at the neighbour.
pub open spec fn linked(nodes: Seq<CallGraphNode>, upward: bool, a: int, b: int) -> bool {
    if upward {
        nodes[a].edges_to@.contains(b as u32)
    } else {
        nodes[b].edges_to@.contains(a as u32)
    }
}

/// The neighbours of node `b`.
pub open spec fn around(nodes: Seq<CallGraphNode>, nbr: Neighbourhood, b: int) -> Option<
    NeighbourMap,
> {
    nbr(b, nodes[b].name@)
}

/// Whether node `b` is shallow enough to be expanded and few enough call sites speak of it.
pub open spec fn expandable(
    nodes: Seq<CallGraphNode>,
    nbr: Neighbourhood,
    max_depth: u32,
    b: int,
) -> bool {
    nodes[b].depth < max_depth && around(nodes, nbr, b) is Some
}

/// Node `b` is done: each of its neighbours is a node, linked to it, at most one level deeper.
pub open spec fn expanded(
    nodes: Seq<CallGraphNode>,
    nbr: Neighbourhood,
    max_depth: u32,
    upward: bool,
    b: int,
) -> bool {
    expandable(nodes, nbr, max_depth, b) ==> forall|k: Seq<char>| #[trigger]
        around(nodes, nbr, b)->0.contains_key(k) ==> exists|a: int|
            0 <= a < nodes.len() && (#[trigger] nodes[a]).name@ == k && linked(nodes, upward, a, b)
                && nodes[a].depth <= nodes[b].depth + 1
}

/// No two nodes have the same name.
pub open spec fn distinct_names(nodes: Seq<CallGraphNode>) -> bool {
    forall|i: int, j: int|
        0 <= i < j < nodes.len() ==> (#[trigger] nodes[i]).name@ != (#[trigger] nodes[j]).name@
}

/// Nodes come in order of their depth.
pub open spec fn by_depth(nodes: Seq<CallGraphNode>) -> bool {
    forall|i: int, j: int|
        0 <= i <= j < nodes.len() ==> (#[trigger] nodes[i]).depth <= (#[trigger] nodes[j]).depth
}

/// Edges lead to nodes, and none stands twice.
pub open spec fn edges_valid(nodes: Seq<CallGraphNode>) -> bool {
    forall|i: int|
        0 <= i < nodes.len() ==> {
            &&& (#[trigger] nodes[i]).edges_to@.no_duplicates()
            &&& forall|e: int|
                0 <= e < nodes[i].edges_to@.len() ==> #[trigger] nodes[i].edges_to@[e]
                    < nodes.len()
        }
}

/// Every edge is a call: it joins a node that was expanded with one of its neighbours.
pub open spec fn edges_true(
    nodes: Seq<CallGraphNode>,
    nbr: Neighbourhood,
    max_depth: u32,
    upward: bool,
) -> bool {
    forall|a: int, b: int|
        0 <= a < nodes.len() && 0 <= b < nodes.len() && #[trigger] linked(nodes, upward, a, b)
            ==> expandable(nodes, nbr, max_depth, b) && around(nodes, nbr, b)->0.contains_key(
            nodes[a].name@,
        )
}

/// Node `i` was found from node `j`: one level above it, linked to it, with the sites it gave.
pub open spec fn found_from(
    nodes: Seq<CallGraphNode>,
    nbr: Neighbourhood,
    upward: bool,
    i: int,
    j: int,
) -> bool {
    nodes[i].depth == nodes[j].depth + 1 && linked(nodes, upward, i, j) && around(nodes, nbr, j)
        is Some && entry_at(around(nodes, nbr, j)->0, nodes[i].name@) == Some(
        sites_at(nodes[i].sites@),
    )
}

/// Node `i` was found from an earlier one.
pub open spec fn has_finder(
    nodes: Seq<CallGraphNode>,
    nbr: Neighbourhood,
    upward: bool,
    i: int,
) -> bool {
    exists|j: int| 0 <= j < i && #[trigger] found_from(nodes, nbr, upward, i, j)
}

/// Every node but the root was found from an earlier one.
pub open spec fn all_found(nodes: Seq<CallGraphNode>, nbr: Neighbourhood, upward: bool) -> bool {
    forall|i: int| 1 <= i < nodes.len() ==> #[trigger] has_finder(nodes, nbr, upward, i)
}

/// What holds of the nodes at every moment of a walk from `root`.
pub open spec fn is_walk(
    nodes: Seq<CallGraphNode>,
    nbr: Neighbourhood,
    root: Seq<char>,
    root_sites: Seq<SiteAt>,
    max_depth: u32,
    max_nodes: int,
    upward: bool,
) -> bool {
    &&& nodes.len() >= 1
    &&& nodes.len() == 1 || nodes.len() <= max_nodes
    &&& nodes[0].name@ == root
    &&& nodes[0].depth == 0
    &&& sites_at(nodes[0].sites@) == root_sites
    &&& distinct_names(nodes)
    &&& by_depth(nodes)
    &&& edges_valid(nodes)
    &&& edges_true(nodes, nbr, max_depth, upward)
    &&& all_found(nodes, nbr, upward)
}

/// Whether a node of this name exists.
pub open spec fn has_node(nodes: Seq<CallGraphNode>, name: Seq<char>) -> bool {
    exists|i: int| 0 <= i < nodes.len() && (#[trigger] nodes[i]).name@ == name
}

/// No node from `from` on has been expanded.
pub open spec fn untouched(nodes: Seq<CallGraphNode>, upward: bool, from: int) -> bool {
    forall|a: int, b: int|
        0 <= a < nodes.len() && from <= b < nodes.len() ==> !#[trigger] linked(nodes, upward, a, b)
}

/// Whether node `b` has a neighbour that is not there.
pub open spec fn lacks_a_neighbour(nodes: Seq<CallGraphNode>, nbr: Neighbourhood, b: int) -> bool {
    exists|k: Seq<char>| #[trigger] around(nodes, nbr, b)->0.contains_key(k) && !has_node(nodes, k)
}

/// The walk ran out of nodes while it expanded node `h`: the nodes before are done, one of its
/// neighbours is not there, and no node behind it has been expanded.
pub open spec fn ran_out_at(
    nodes: Seq<CallGraphNode>,
    nbr: Neighbourhood,
    max_depth: u32,
    upward: bool,
    h: int,
) -> bool {
    &&& 0 <= h < nodes.len()
    &&& expandable(nodes, nbr, max_depth, h)
    &&& lacks_a_neighbour(nodes, nbr, h)
    &&& forall|b: int| 0 <= b < h ==> #[trigger] expanded(nodes, nbr, max_depth, upward, b)
    &&& untouched(nodes, upward, h + 1)
}

/// Whether the walk ran out of nodes.
pub open spec fn ran_out(
    nodes: Seq<CallGraphNode>,
    nbr: Neighbourhood,
    max_depth: u32,
    upward: bool,
) -> bool {
    exists|h: int| #[trigger] ran_out_at(nodes, nbr, max_depth, upward, h)
}

/// Whether some node shallow enough to be expanded has too many call sites.
pub open spec fn hits_cap(nodes: Seq<CallGraphNode>, nbr: Neighbourhood, max_depth: u32, n: int) -> bool {
    exists|b: int|
        0 <= b < n && (#[trigger] nodes[b]).depth < max_depth && around(nodes, nbr, b) is None
}

/// Whether some node lies at the depth limit.
pub open spec fn hits_depth(nodes: Seq<CallGraphNode>, max_depth: u32, n: int) -> bool {
    exists|b: int| 0 <= b < n && (#[trigger] nodes[b]).depth >= max_depth
}

/// `nodes` is the call graph around `root`, cut short for `reason`.
///
/// A graph that ran out of nodes is full: the nodes before the one at which it ran out have all their
/// neighbours, that one lacks one, and those behind it have been found and not expanded. Any other
/// one is closed: every node above the depth limit has all its neighbours, unless its call sites are too
/// many; and the reason given is the gravest that applies.
pub open spec fn is_call_graph(
    nodes: Seq<CallGraphNode>,
    reason: Option<Truncation>,
    nbr: Neighbourhood,
    root: Seq<char>,
    root_sites: Seq<SiteAt>,
    max_depth: u32,
    max_nodes: int,
    upward: bool,
) -> bool {
    &&& is_walk(nodes, nbr, root, root_sites, max_depth, max_nodes, upward)
    &&& match reason {
        Some(Truncation::MaxNodes) => nodes.len() >= max_nodes && ran_out(
            nodes,
            nbr,
            max_depth,
            upward,
        ),
        other => {
            &&& forall|b: int|
                0 <= b < nodes.len() ==> #[trigger] expanded(nodes, nbr, max_depth, upward, b)
            &&& other == if hits_cap(nodes, nbr, max_depth, nodes.len() as int) {
                Some(Truncation::ScanCap)
            } else if hits_depth(nodes, max_depth, nodes.len() as int) {
                Some(Truncation::MaxDepth)
            } else {
                None
            }
        },
    }
}

/// The nodes of a walk, and where each name's node stands.
struct Walk {
    nodes: Vec<CallGraphNode>,
    at: ahash::AHashMap<String, u32>,
}

impl Walk {
    spec fn wf(&self) -> bool {
        &&& self.nodes@.len() <= u32::MAX
        &&& distinct_names(self.nodes@)
        &&& forall|i: int|
            0 <= i < self.nodes@.len() ==> entry_at(
                names_held(self.at),
                (#[trigger] self.nodes@[i]).name@,
            ) == Some(i as u32)
        &&& forall|k: Seq<char>| #[trigger]
            names_held(self.at).contains_key(k) ==> names_held(self.at)[k] < self.nodes@.len()
                && self.nodes@[names_held(self.at)[k] as int].name@ == k
    }
}

fn copy_sites(list: &Vec<CallGraphSite>) -> (copy: Vec<CallGraphSite>)
    ensures
        sites_at(copy@) == sites_at(list@),
{
    let mut copy: Vec<CallGraphSite> = Vec::new();
    let mut i: usize = 0;
    while i < list.len()
        invariant
            i <= list@.len(),
            copy@.len() == i,
            forall|k: int| 0 <= k < i ==> (#[trigger] copy@[k])@ == list@[k]@,
        decreases list.len() - i,
    {
        copy.push(list[i].copy());
        i += 1;
    }
    assert(sites_at(copy@) =~= sites_at(list@));
    copy
}

fn holds_edge(edges: &Vec<u32>, e: u32) -> (yes: bool)
    ensures
        yes == edges@.contains(e),
{
    let mut i: usize = 0;
    while i < edges.len()
        invariant
            i <= edges@.len(),
            forall|k: int| 0 <= k < i ==> edges@[k] != e,
        decreases edges.len() - i,
    {
        if edges[i] == e {
            return true;
        }
        i += 1;
    }
    false
}

/// Only edges differ, and only by the one from `from` to `to`.
spec fn one_edge_more(
    before: Seq<CallGraphNode>,
    after: Seq<CallGraphNode>,
    from: int,
    to: u32,
) -> bool {
    &&& after.len() == before.len()
    &&& forall|i: int|
        0 <= i < before.len() ==> {
            &&& (#[trigger] after[i]).name@ == before[i].name@
            &&& after[i].depth == before[i].depth
            &&& after[i].sites == before[i].sites
            &&& forall|e: u32| #[trigger]
                after[i].edges_to@.contains(e) == (before[i].edges_to@.contains(e) || (i == from
                    && e == to))
        }
}

fn add_edge(nodes: &mut Vec<CallGraphNode>, from: usize, to: u32)
    requires
        from < old(nodes)@.len(),
        to < old(nodes)@.len(),
        edges_valid(old(nodes)@),
    ensures
        one_edge_more(old(nodes)@, final(nodes)@, from as int, to),
        edges_valid(final(nodes)@),
{
    let ghost before = nodes@;
    if !holds_edge(&nodes[from].edges_to, to) {
        let ghost was = nodes@[from as int].edges_to@;
        nodes[from].edges_to.push(to);
        proof {
            let now = nodes@[from as int].edges_to@;
            assert(now == was.push(to));
            assert forall|e: u32| #[trigger] now.contains(e) == (was.contains(e) || e == to) by {
                if was.contains(e) {
                    assert(now[was.index_of(e)] == e);
                }
                if e == to {
                    assert(now[was.len() as int] == e);
                }
                if now.contains(e) && e != to {
                    assert(was[now.index_of(e)] == e);
                }
            }
            assert(now.no_duplicates()) by {
                assert(was.no_duplicates());
                assert forall|i: int, j: int|
                    0 <= i < now.len() && 0 <= j < now.len() && i != j implies now[i] != now[j] by {
                    if i < was.len() && j < was.len() {
                    } else if i < was.len() {
                        assert(was.contains(was[i]));
                    } else {
                        assert(was.contains(was[j]));
                    }
                }
            }
            assert forall|i: int| 0 <= i < nodes@.len() implies {
                &&& (#[trigger] nodes@[i]).edges_to@.no_duplicates()
                &&& forall|e: int|
                    0 <= e < nodes@[i].edges_to@.len() ==> #[trigger] nodes@[i].edges_to@[e]
                        < nodes@.len()
            } by {
                if i != from {
                    assert(nodes@[i] == before[i]);
                }
            }
        }
    } else {
        assert(one_edge_more(before, nodes@, from as int, to));
    }
}

/// What expanding node `b` by the first `j` names of `list` keeps true.
spec fn absorbing(
    nodes: Seq<CallGraphNode>,
    nbr: Neighbourhood,
    list: Seq<Neighbour>,
    root: Seq<char>,
    root_sites: Seq<SiteAt>,
    max_depth: u32,
    max_nodes: int,
    upward: bool,
    b: int,
    j: int,
) -> bool {
    &&& is_walk(nodes, nbr, root, root_sites, max_depth, max_nodes, upward)
    &&& 0 <= b < nodes.len()
    &&& expandable(nodes, nbr, max_depth, b)
    &&& lists(list, around(nodes, nbr, b)->0)
    &&& forall|i: int| 0 <= i < nodes.len() ==> (#[trigger] nodes[i]).depth <= nodes[b].depth + 1
    &&& forall|c: int| 0 <= c < b ==> #[trigger] expanded(nodes, nbr, max_depth, upward, c)
    &&& untouched(nodes, upward, b + 1)
    &&& forall|k: int|
        0 <= k < j ==> exists|a: int|
            0 <= a < nodes.len() && (#[trigger] nodes[a]).name@ == (#[trigger] list[k]).name@
                && linked(nodes, upward, a, b)
}

proof fn lemma_link(
    before: Seq<CallGraphNode>,
    after: Seq<CallGraphNode>,
    nbr: Neighbourhood,
    list: Seq<Neighbour>,
    root: Seq<char>,
    root_sites: Seq<SiteAt>,
    max_depth: u32,
    max_nodes: int,
    upward: bool,
    b: int,
    j: int,
    a: int,
)
    requires
        absorbing(before, nbr, list, root, root_sites, max_depth, max_nodes, upward, b, j),
        before.len() <= u32::MAX,
        0 <= j < list.len(),
        0 <= a < before.len(),
        before[a].name@ == list[j].name@,
        if upward {
            one_edge_more(before, after, a, b as u32)
        } else {
            one_edge_more(before, after, b, a as u32)
        },
        edges_valid(after),
    ensures
        absorbing(after, nbr, list, root, root_sites, max_depth, max_nodes, upward, b, j + 1),
        forall|k: int| 0 <= k < before.len() ==> (#[trigger] after[k]).name@ == before[k].name@,
{
    assert forall|x: int, y: int| 0 <= x < after.len() && 0 <= y < after.len() implies #[trigger] linked(
        after,
        upward,
        x,
        y,
    ) == (linked(before, upward, x, y) || (x == a && y == b)) by {
        if upward {
            assert(after[x].edges_to@.contains(y as u32) == (before[x].edges_to@.contains(y as u32)
                || (x == a && y as u32 == b as u32)));
        } else {
            assert(after[y].edges_to@.contains(x as u32) == (before[y].edges_to@.contains(x as u32)
                || (y == b && x as u32 == a as u32)));
        }
    }
    assert(list[j].name@ == before[a].name@);
    assert forall|x: int, y: int|
        0 <= x < after.len() && 0 <= y < after.len() && #[trigger] linked(
            after,
            upward,
            x,
            y,
        ) implies expandable(after, nbr, max_depth, y) && around(after, nbr, y)->0.contains_key(
        after[x].name@,
    ) by {
        if !linked(before, upward, x, y) {
            assert(entry_at(around(before, nbr, b)->0, list[j].name@) is Some);
        }
    }
    assert forall|i: int| 1 <= i < after.len() implies #[trigger] has_finder(
        after,
        nbr,
        upward,
        i,
    ) by {
        assert(has_finder(before, nbr, upward, i));
        let p = choose|p: int| 0 <= p < i && #[trigger] found_from(before, nbr, upward, i, p);
        assert(linked(before, upward, i, p));
        assert(linked(after, upward, i, p));
        assert(found_from(after, nbr, upward, i, p));
    }
    assert forall|c: int| 0 <= c < b implies #[trigger] expanded(
        after,
        nbr,
        max_depth,
        upward,
        c,
    ) by {
        lemma_expanded_grows(before, after, nbr, max_depth, upward, c);
    }
    assert forall|k: int| 0 <= k < j + 1 implies exists|x: int|
        0 <= x < after.len() && (#[trigger] after[x]).name@ == (#[trigger] list[k]).name@ && linked(
            after,
            upward,
            x,
            b,
        ) by {
        if k < j {
            let x = choose|x: int|
                0 <= x < before.len() && (#[trigger] before[x]).name@ == list[k].name@ && linked(
                    before,
                    upward,
                    x,
                    b,
                );
            assert(linked(after, upward, x, b));
            assert(after[x].name@ == list[k].name@);
        } else {
            assert(linked(after, upward, a, b));
            assert(after[a].name@ == list[k].name@);
        }
    }
    assert(distinct_names(after));
    assert(by_depth(after));
}

/// A done node stays done when nodes and edges are added.
proof fn lemma_expanded_grows(
    before: Seq<CallGraphNode>,
    after: Seq<CallGraphNode>,
    nbr: Neighbourhood,
    max_depth: u32,
    upward: bool,
    c: int,
)
    requires
        0 <= c < before.len() <= after.len(),
        expanded(before, nbr, max_depth, upward, c),
        forall|i: int|
            0 <= i < before.len() ==> (#[trigger] after[i]).name@ == before[i].name@
                && after[i].depth == before[i].depth,
        forall|x: int, y: int|
            0 <= x < before.len() && 0 <= y < before.len() && #[trigger] linked(
                before,
                upward,
                x,
                y,
            ) ==> linked(after, upward, x, y),
    ensures
        expanded(after, nbr, max_depth, upward, c),
{
    if expandable(after, nbr, max_depth, c) {
        assert forall|k: Seq<char>| #[trigger]
            around(after, nbr, c)->0.contains_key(k) implies exists|a: int|
            0 <= a < after.len() && (#[trigger] after[a]).name@ == k && linked(after, upward, a, c)
                && after[a].depth <= after[c].depth + 1 by {
            assert(around(before, nbr, c)->0.contains_key(k));
            let a = choose|a: int|
                0 <= a < before.len() && (#[trigger] before[a]).name@ == k && linked(
                    before,
                    upward,
                    a,
                    c,
                ) && before[a].depth <= before[c].depth + 1;
            assert(linked(after, upward, a, c));
            assert(after[a].name@ == k);
        }
    }
}

/// Putting a fresh node for the `j`-th name at the end, already linked to node `b`.
proof fn lemma_grow(
    before: Seq<CallGraphNode>,
    after: Seq<CallGraphNode>,
    nbr: Neighbourhood,
    list: Seq<Neighbour>,
    root: Seq<char>,
    root_sites: Seq<SiteAt>,
    max_depth: u32,
    max_nodes: int,
    upward: bool,
    b: int,
    j: int,
)
    requires
        absorbing(before, nbr, list, root, root_sites, max_depth, max_nodes, upward, b, j),
        0 <= j < list.len(),
        before.len() < max_nodes <= u32::MAX,
        !has_node(before, list[j].name@),
        after.len() == before.len() + 1,
        after[before.len() as int].name@ == list[j].name@,
        after[before.len() as int].depth == before[b].depth + 1,
        sites_at(after[before.len() as int].sites@) == sites_at(list[j].sites@),
        forall|i: int|
            0 <= i < before.len() ==> (#[trigger] after[i]).name@ == before[i].name@
                && after[i].depth == before[i].depth && after[i].sites == before[i].sites,
        forall|i: int, e: u32|
            0 <= i < before.len() ==> #[trigger] after[i].edges_to@.contains(e) == (
            before[i].edges_to@.contains(e) || (!upward && i == b && e == before.len())),
        forall|e: u32| #[trigger]
            after[before.len() as int].edges_to@.contains(e) == (upward && e == b),
        edges_valid(after),
    ensures
        absorbing(after, nbr, list, root, root_sites, max_depth, max_nodes, upward, b, j + 1),
{
    let n = before.len() as int;
    assert forall|x: int, y: int| 0 <= x < after.len() && 0 <= y < after.len() implies #[trigger] linked(
        after,
        upward,
        x,
        y,
    ) == ((x < n && y < n && linked(before, upward, x, y)) || (x == n && y == b)) by {
        if upward {
            if x < n {
                assert(after[x].edges_to@.contains(y as u32) == before[x].edges_to@.contains(
                    y as u32,
                ));
                if y == n && before[x].edges_to@.contains(n as u32) {
                    let e = before[x].edges_to@.index_of(n as u32);
                    assert(before[x].edges_to@[e] < before.len());
                }
            } else {
                assert(after[n].edges_to@.contains(y as u32) == (y as u32 == b as u32));
            }
        } else {
            if y < n {
                assert(after[y].edges_to@.contains(x as u32) == (before[y].edges_to@.contains(
                    x as u32,
                ) || (y == b && x as u32 == n as u32)));
                if x == n && before[y].edges_to@.contains(n as u32) {
                    let e = before[y].edges_to@.index_of(n as u32);
                    assert(before[y].edges_to@[e] < before.len());
                }
            } else {
                assert(!after[n].edges_to@.contains(x as u32));
            }
        }
    }
    assert forall|x: int, y: int|
        0 <= x < after.len() && 0 <= y < after.len() && #[trigger] linked(
            after,
            upward,
            x,
            y,
        ) implies expandable(after, nbr, max_depth, y) && around(after, nbr, y)->0.contains_key(
        after[x].name@,
    ) by {
        if x == n && y == b {
            assert(entry_at(around(before, nbr, b)->0, list[j].name@) is Some);
        } else {
            assert(linked(before, upward, x, y));
        }
    }
    assert forall|i: int| 1 <= i < after.len() implies #[trigger] has_finder(
        after,
        nbr,
        upward,
        i,
    ) by {
        if i < n {
            assert(has_finder(before, nbr, upward, i));
            let p = choose|p: int| 0 <= p < i && #[trigger] found_from(before, nbr, upward, i, p);
            assert(linked(before, upward, i, p));
            assert(linked(after, upward, i, p));
            assert(found_from(after, nbr, upward, i, p));
        } else {
            assert(linked(after, upward, n, b));
            assert(entry_at(around(before, nbr, b)->0, list[j].name@) == Some(
                sites_at(list[j].sites@),
            ));
            assert(found_from(after, nbr, upward, n, b));
        }
    }
    assert forall|c: int| 0 <= c < b implies #[trigger] expanded(
        after,
        nbr,
        max_depth,
        upward,
        c,
    ) by {
        lemma_expanded_grows(before, after, nbr, max_depth, upward, c);
    }
    assert forall|k: int| 0 <= k < j + 1 implies exists|x: int|
        0 <= x < after.len() && (#[trigger] after[x]).name@ == (#[trigger] list[k]).name@ && linked(
            after,
            upward,
            x,
            b,
        ) by {
        if k < j {
            let x = choose|x: int|
                0 <= x < before.len() && (#[trigger] before[x]).name@ == list[k].name@ && linked(
                    before,
                    upward,
                    x,
                    b,
                );
            assert(linked(after, upward, x, b));
            assert(after[x].name@ == list[k].name@);
        } else {
            assert(linked(after, upward, n, b));
            assert(after[n].name@ == list[k].name@);
        }
    }
    assert(distinct_names(after)) by {
        assert forall|x: int, y: int| 0 <= x < y < after.len() implies (#[trigger] after[x]).name@
            != (#[trigger] after[y]).name@ by {
            if y == n {
                assert(before[x].name@ != list[j].name@);
            }
        }
    }
    assert(by_depth(after)) by {
        assert forall|x: int, y: int| 0 <= x <= y < after.len() implies (#[trigger] after[x]).depth
            <= (#[trigger] after[y]).depth by {
            if x < n {
                assert(before[x].depth <= before[b].depth + 1);
            }
        }
    }
}

/// Expand node `b` by its neighbours. The result says whether a neighbour had to be left out
/// because no more nodes are allowed.
fn absorb(
    walk: &mut Walk,
    b: usize,
    list: &Vec<Neighbour>,
    max_nodes: usize,
    upward: bool,
    Ghost(nbr): Ghost<Neighbourhood>,
    Ghost(root): Ghost<Seq<char>>,
    Ghost(root_sites): Ghost<Seq<SiteAt>>,
    Ghost(max_depth): Ghost<u32>,
) -> (full: bool)
    requires
        old(walk).wf(),
        max_nodes <= u32::MAX,
        absorbing(
            old(walk).nodes@,
            nbr,
            list@,
            root,
            root_sites,
            max_depth,
            max_nodes as int,
            upward,
            b as int,
            0,
        ),
    ensures
        final(walk).wf(),
        is_walk(
            final(walk).nodes@,
            nbr,
            root,
            root_sites,
            max_depth,
            max_nodes as int,
            upward,
        ),
        b < final(walk).nodes@.len(),
        final(walk).nodes@[b as int].depth == old(walk).nodes@[b as int].depth,
        forall|i: int|
            0 <= i < final(walk).nodes@.len() ==> (#[trigger] final(walk).nodes@[i]).depth
                <= final(walk).nodes@[b as int].depth + 1,
        old(walk).nodes@.len() <= final(walk).nodes@.len(),
        forall|i: int|
            0 <= i < old(walk).nodes@.len() ==> (#[trigger] final(walk).nodes@[i]).name@ == old(
                walk,
            ).nodes@[i].name@ && final(walk).nodes@[i].depth == old(walk).nodes@[i].depth,
        full ==> final(walk).nodes@.len() >= max_nodes && ran_out(
            final(walk).nodes@,
            nbr,
            max_depth,
            upward,
        ),
        untouched(final(walk).nodes@, upward, b + 1),
        !full ==> forall|c: int|
            0 <= c <= b ==> #[trigger] expanded(final(walk).nodes@, nbr, max_depth, upward, c),
{
    let mut j: usize = 0;
    let ghost first = walk.nodes@;
    while j < list.len()
        invariant
            j <= list@.len(),
            walk.wf(),
            max_nodes <= u32::MAX,
            absorbing(
                walk.nodes@,
                nbr,
                list@,
                root,
                root_sites,
                max_depth,
                max_nodes as int,
                upward,
                b as int,
                j as int,
            ),
            first == old(walk).nodes@,
            first.len() <= walk.nodes@.len(),
            b < first.len(),
            forall|i: int|
                0 <= i < first.len() ==> (#[trigger] walk.nodes@[i]).name@ == first[i].name@
                    && walk.nodes@[i].depth == first[i].depth,
        decreases list.len() - j,
    {
        let n = &list[j];
        let ghost before = walk.nodes@;
        let depth: u32 = walk.nodes[b].depth;
        match names_get(&walk.at, n.name.as_str()) {
            Some(i) => {
                if upward {
                    add_edge(&mut walk.nodes, i as usize, b as u32);
                } else {
                    add_edge(&mut walk.nodes, b, i);
                }
                proof {
                    lemma_link(
                        before,
                        walk.nodes@,
                        nbr,
                        list@,
                        root,
                        root_sites,
                        max_depth,
                        max_nodes as int,
                        upward,
                        b as int,
                        j as int,
                        i as int,
                    );
                    assert(walk.wf()) by {
                        assert forall|i: int| 0 <= i < walk.nodes@.len() implies entry_at(
                            names_held(walk.at),
                            (#[trigger] walk.nodes@[i]).name@,
                        ) == Some(i as u32) by {
                            assert(walk.nodes@[i].name@ == before[i].name@);
                        }
                    }
                }
            },
            None => {
                assert(!has_node(before, n.name@)) by {
                    if has_node(before, n.name@) {
                        let i = choose|i: int|
                            0 <= i < before.len() && (#[trigger] before[i]).name@ == n.name@;
                        assert(entry_at(names_held(walk.at), before[i].name@) is Some);
                    }
                }
                if walk.nodes.len() >= max_nodes {
                    proof {
                        assert(entry_at(around(before, nbr, b as int)->0, list@[j as int].name@)
                            is Some);
                        assert(expandable(before, nbr, max_depth, b as int));
                        assert(around(before, nbr, b as int)->0.contains_key(n.name@));
                        assert(lacks_a_neighbour(before, nbr, b as int));
                        assert(ran_out_at(before, nbr, max_depth, upward, b as int));
                    }
                    return true;
                }
                let new_at: u32 = walk.nodes.len() as u32;
                let mut edges: Vec<u32> = Vec::new();
                if upward {
                    edges.push(b as u32);
                }
                assert(depth < max_depth);
                walk.nodes.push(
                    CallGraphNode {
                        name: n.name.clone(),
                        depth: depth + 1,
                        edges_to: edges,
                        sites: copy_sites(&n.sites),
                    },
                );
                names_insert(&mut walk.at, n.name.clone(), new_at);
                let ghost mid = walk.nodes@;
                proof {
                    assert(edges_valid(mid)) by {
                        assert forall|i: int| 0 <= i < mid.len() implies {
                            &&& (#[trigger] mid[i]).edges_to@.no_duplicates()
                            &&& forall|e: int|
                                0 <= e < mid[i].edges_to@.len() ==> #[trigger] mid[i].edges_to@[e]
                                    < mid.len()
                        } by {
                            if i < before.len() {
                                assert(mid[i] == before[i]);
                            }
                        }
                    }
                    if upward {
                        assert forall|e: u32| #[trigger]
                            mid[before.len() as int].edges_to@.contains(e) == (e == b) by {
                            if e == b {
                                assert(mid[before.len() as int].edges_to@[0] == e);
                            }
                        }
                    }
                }
                if !upward {
                    add_edge(&mut walk.nodes, b, new_at);
                }
                proof {
                    assert forall|i: int| 0 <= i < before.len() implies (
                    #[trigger] walk.nodes@[i]).name@ == before[i].name@ && walk.nodes@[i].depth
                        == before[i].depth && walk.nodes@[i].sites == before[i].sites by {
                        assert(mid[i] == before[i]);
                    }
                    assert forall|i: int, e: u32| 0 <= i < before.len() implies #[trigger] walk.nodes@[i].edges_to@.contains(
                        e,
                    ) == (before[i].edges_to@.contains(e) || (!upward && i == b && e
                        == before.len())) by {
                        assert(mid[i] == before[i]);
                    }
                    assert(walk.nodes@[before.len() as int].name@ == n.name@);
                    lemma_grow(
                        before,
                        walk.nodes@,
                        nbr,
                        list@,
                        root,
                        root_sites,
                        max_depth,
                        max_nodes as int,
                        upward,
                        b as int,
                        j as int,
                    );
                    assert(walk.wf()) by {
                        assert forall|i: int| 0 <= i < walk.nodes@.len() implies entry_at(
                            names_held(walk.at),
                            (#[trigger] walk.nodes@[i]).name@,
                        ) == Some(i as u32) by {
                            if i < before.len() {
                                assert(walk.nodes@[i].name@ == before[i].name@);
                                assert(before[i].name@ != n.name@);
                            }
                        }
                    }
                }
            },
        }
        j += 1;
    }
    proof {
        let nodes = walk.nodes@;
        assert(expanded(nodes, nbr, max_depth, upward, b as int)) by {
            assert forall|k: Seq<char>| #[trigger]
                around(nodes, nbr, b as int)->0.contains_key(k) implies exists|a: int|
                0 <= a < nodes.len() && (#[trigger] nodes[a]).name@ == k && linked(
                    nodes,
                    upward,
                    a,
                    b as int,
                ) && nodes[a].depth <= nodes[b as int].depth + 1 by {
                let i = choose|i: int| 0 <= i < list@.len() && (#[trigger] list@[i]).name@ == k;
                let a = choose|a: int|
                    0 <= a < nodes.len() && (#[trigger] nodes[a]).name@ == list@[i].name@ && linked(
                        nodes,
                        upward,
                        a,
                        b as int,
                    );
                assert(nodes[a].name@ == k);
            }
        }
    }
    false
}

/// The neighbours towards callers: the functions around the call sites of a name.
pub open spec fn caller_neighbours(
    files: Seq<MappedFile>,
    rows: Seq<CallRow>,
    cap: int,
) -> Neighbourhood {
    |i: int, name: Seq<char>| callers_of_name(files, rows, name, cap)
}

/// The neighbours towards callees: the names called inside a name's definitions. For the root
/// only definitions in the file asked about count.
pub open spec fn callee_neighbours(
    index: Option<&InRamCallIndex>,
    files: Seq<MappedFile>,
    path: Option<Seq<u8>>,
    cap: int,
) -> Neighbourhood {
    |i: int, name: Seq<char>|
        callees_of_name(index, files, name, if i == 0 { path } else { None }, cap)
}

/// A call graph.
pub struct BfsOutcome {
    pub nodes: Vec<CallGraphNode>,
    pub truncated: bool,
    pub truncation_reason: Option<Truncation>,
}

proof fn lemma_flags_stable(
    before: Seq<CallGraphNode>,
    after: Seq<CallGraphNode>,
    nbr: Neighbourhood,
    max_depth: u32,
    n: int,
)
    requires
        0 <= n <= before.len() <= after.len(),
        forall|i: int|
            0 <= i < before.len() ==> (#[trigger] after[i]).name@ == before[i].name@
                && after[i].depth == before[i].depth,
    ensures
        hits_cap(after, nbr, max_depth, n) == hits_cap(before, nbr, max_depth, n),
        hits_depth(after, max_depth, n) == hits_depth(before, max_depth, n),
{
    if hits_cap(before, nbr, max_depth, n) {
        let b = choose|b: int|
            0 <= b < n && (#[trigger] before[b]).depth < max_depth && around(before, nbr, b) is None;
        assert(after[b].depth < max_depth && around(after, nbr, b) is None);
    }
    if hits_cap(after, nbr, max_depth, n) {
        let b = choose|b: int|
            0 <= b < n && (#[trigger] after[b]).depth < max_depth && around(after, nbr, b) is None;
        assert(before[b].depth < max_depth && around(before, nbr, b) is None);
    }
    if hits_depth(before, max_depth, n) {
        let b = choose|b: int| 0 <= b < n && (#[trigger] before[b]).depth >= max_depth;
        assert(after[b].depth >= max_depth);
    }
    if hits_depth(after, max_depth, n) {
        let b = choose|b: int| 0 <= b < n && (#[trigger] after[b]).depth >= max_depth;
        assert(before[b].depth >= max_depth);
    }
}

/// Looking at one more node.
proof fn lemma_flags_step(nodes: Seq<CallGraphNode>, nbr: Neighbourhood, max_depth: u32, n: int)
    requires
        0 <= n < nodes.len(),
    ensures
        hits_cap(nodes, nbr, max_depth, n + 1) == (hits_cap(nodes, nbr, max_depth, n) || (
        nodes[n].depth < max_depth && around(nodes, nbr, n) is None)),
        hits_depth(nodes, max_depth, n + 1) == (hits_depth(nodes, max_depth, n) || nodes[n].depth
            >= max_depth),
{
    if hits_cap(nodes, nbr, max_depth, n) {
        let b = choose|b: int|
            0 <= b < n && (#[trigger] nodes[b]).depth < max_depth && around(nodes, nbr, b) is None;
        assert(0 <= b < n + 1 && nodes[b].depth < max_depth);
    }
    if hits_depth(nodes, max_depth, n) {
        let b = choose|b: int| 0 <= b < n && (#[trigger] nodes[b]).depth >= max_depth;
        assert(0 <= b < n + 1 && nodes[b].depth >= max_depth);
    }
}

/// The single-node walk that a search starts from.
fn start_walk(root: CallGraphNode) -> (walk: Walk)
    requires
        root.depth == 0,
        root.edges_to@.len() == 0,
    ensures
        walk.wf(),
        walk.nodes@.len() == 1,
        walk.nodes@[0] == root,
        forall|nbr: Neighbourhood, max_depth: u32, max_nodes: int, upward: bool| #[trigger]
            is_walk(
                walk.nodes@,
                nbr,
                root.name@,
                sites_at(root.sites@),
                max_depth,
                max_nodes,
                upward,
            ),
{
    let mut at = names_new();
    names_insert(&mut at, root.name.clone(), 0);
    let mut nodes: Vec<CallGraphNode> = Vec::new();
    nodes.push(root);
    Walk { nodes, at }
}

/// What a search knows between two steps.
spec fn searching(
    nodes: Seq<CallGraphNode>,
    nbr: Neighbourhood,
    root: Seq<char>,
    root_sites: Seq<SiteAt>,
    max_depth: u32,
    max_nodes: int,
    upward: bool,
    head: int,
) -> bool {
    &&& is_walk(nodes, nbr, root, root_sites, max_depth, max_nodes, upward)
    &&& 0 <= head <= nodes.len()
    &&& head < nodes.len() ==> forall|i: int|
        0 <= i < nodes.len() ==> (#[trigger] nodes[i]).depth <= nodes[head].depth + 1
    &&& forall|c: int| 0 <= c < head ==> #[trigger] expanded(nodes, nbr, max_depth, upward, c)
    &&& untouched(nodes, upward, head)
}

fn conclude(
    nodes: Vec<CallGraphNode>,
    full: bool,
    hit_cap: bool,
    gated: bool,
    Ghost(nbr): Ghost<Neighbourhood>,
    Ghost(root): Ghost<Seq<char>>,
    Ghost(root_sites): Ghost<Seq<SiteAt>>,
    Ghost(max_depth): Ghost<u32>,
    Ghost(max_nodes): Ghost<int>,
    Ghost(upward): Ghost<bool>,
) -> (out: BfsOutcome)
    requires
        is_walk(nodes@, nbr, root, root_sites, max_depth, max_nodes, upward),
        full ==> nodes@.len() >= max_nodes && ran_out(nodes@, nbr, max_depth, upward),
        !full ==> hit_cap == hits_cap(nodes@, nbr, max_depth, nodes@.len() as int),
        !full ==> gated == hits_depth(nodes@, max_depth, nodes@.len() as int),
        !full ==> forall|b: int|
            0 <= b < nodes@.len() ==> #[trigger] expanded(nodes@, nbr, max_depth, upward, b),
    ensures
        is_call_graph(
            out.nodes@,
            out.truncation_reason,
            nbr,
            root,
            root_sites,
            max_depth,
            max_nodes,
            upward,
        ),
        out.truncated == (out.truncation_reason is Some),
{
    let truncation_reason = if full {
        Some(Truncation::MaxNodes)
    } else if hit_cap {
        Some(Truncation::ScanCap)
    } else if gated {
        Some(Truncation::MaxDepth)
    } else {
        None
    };
    BfsOutcome { nodes, truncated: truncation_reason.is_some(), truncation_reason }
}

/// Who calls into `root_name`, and who calls those, up to the bounds given.
pub fn bfs_callers(
    index: Option<&InRamCallIndex>,
    files: &Vec<MappedFile>,
    root_name: &str,
    path_filter: Option<&RelPath>,
    max_depth: u32,
    max_nodes: usize,
) -> (out: BfsOutcome)
    requires
        paths_ascend(files@),
        index is Some ==> index->0.wf() && index->0.rows().len() < u32::MAX,
        max_nodes <= u32::MAX,
    ensures
        is_call_graph(
            out.nodes@,
            out.truncation_reason,
            caller_neighbours(files@, index_rows(index), scan_cap(max_nodes as int)),
            root_name@,
            definition_sites(files@, root_name@, opt_path(path_filter)),
            max_depth,
            max_nodes as int,
            true,
        ),
        out.truncated == (out.truncation_reason is Some),
{
    let cap: usize = scan_cap_of(max_nodes);
    let ghost nbr = caller_neighbours(files@, index_rows(index), cap as int);
    let ghost root_sites = definition_sites(files@, root_name@, opt_path(path_filter));
    let mut walk = start_walk(build_root(root_name, files, path_filter));
    assert(is_walk(walk.nodes@, nbr, root_name@, root_sites, max_depth, max_nodes as int, true));
    let mut head: usize = 0;
    let mut hit_cap: bool = false;
    let mut gated: bool = false;
    let mut full: bool = false;
    while !full && head < walk.nodes.len()
        invariant
            paths_ascend(files@),
            index is Some ==> index->0.wf() && index->0.rows().len() < u32::MAX,
            max_nodes <= u32::MAX,
            nbr == caller_neighbours(files@, index_rows(index), cap as int),
            walk.wf(),
            !full ==> searching(
                walk.nodes@,
                nbr,
                root_name@,
                root_sites,
                max_depth,
                max_nodes as int,
                true,
                head as int,
            ),
            !full ==> hit_cap == hits_cap(walk.nodes@, nbr, max_depth, head as int),
            !full ==> gated == hits_depth(walk.nodes@, max_depth, head as int),
            is_walk(
                walk.nodes@,
                nbr,
                root_name@,
                root_sites,
                max_depth,
                max_nodes as int,
                true,
            ),
            full ==> walk.nodes@.len() >= max_nodes && ran_out(
                walk.nodes@,
                nbr,
                max_depth,
                true,
            ),
            head <= walk.nodes@.len(),
            walk.nodes@.len() == 1 || walk.nodes@.len() <= max_nodes,
        decreases (max_nodes + 1) - head + (if full { 0int } else { 1 }),
    {
        let ghost before = walk.nodes@;
        proof {
            lemma_flags_step(before, nbr, max_depth, head as int);
        }
        if walk.nodes[head].depth >= max_depth {
            gated = true;
            head += 1;
        } else {
            let found = collect_callers(index, files, walk.nodes[head].name.as_str(), cap);
            match found {
                Some(list) => {
                    full = absorb(
                        &mut walk,
                        head,
                        &list,
                        max_nodes,
                        true,
                        Ghost(nbr),
                        Ghost(root_name@),
                        Ghost(root_sites),
                        Ghost(max_depth),
                    );
                    proof {
                        lemma_flags_stable(before, walk.nodes@, nbr, max_depth, head + 1);
                    }
                    head += 1;
                },
                None => {
                    hit_cap = true;
                    head += 1;
                },
            }
        }
    }
    conclude(
        walk.nodes,
        full,
        hit_cap,
        gated,
        Ghost(nbr),
        Ghost(root_name@),
        Ghost(root_sites),
        Ghost(max_depth),
        Ghost(max_nodes as int),
        Ghost(true),
    )
}

/// What `root_name` calls, and what those call, up to the bounds given.
pub fn bfs_callees(
    index: Option<&InRamCallIndex>,
    files: &Vec<MappedFile>,
    root_name: &str,
    path_filter: Option<&RelPath>,
    max_depth: u32,
    max_nodes: usize,
) -> (out: BfsOutcome)
    requires
        paths_ascend(files@),
        index is Some ==> index->0.wf(),
        max_nodes <= u32::MAX,
        symbol_count(files@, files@.len() as int) < u32::MAX,
    ensures
        is_call_graph(
            out.nodes@,
            out.truncation_reason,
            callee_neighbours(
                index,
                files@,
                opt_path(path_filter),
                scan_cap(max_nodes as int),
            ),
            root_name@,
            definition_sites(files@, root_name@, opt_path(path_filter)),
            max_depth,
            max_nodes as int,
            false,
        ),
        out.truncated == (out.truncation_reason is Some),
{
    let cap: usize = scan_cap_of(max_nodes);
    let sites = SiteIndex::build(files);
    let ghost nbr = callee_neighbours(index, files@, opt_path(path_filter), cap as int);
    let ghost root_sites = definition_sites(files@, root_name@, opt_path(path_filter));
    let mut walk = start_walk(build_root(root_name, files, path_filter));
    assert(is_walk(walk.nodes@, nbr, root_name@, root_sites, max_depth, max_nodes as int, false));
    let mut head: usize = 0;
    let mut hit_cap: bool = false;
    let mut gated: bool = false;
    let mut full: bool = false;
    while !full && head < walk.nodes.len()
        invariant
            paths_ascend(files@),
            index is Some ==> index->0.wf(),
            max_nodes <= u32::MAX,
            sites.wf(),
            forall|k: Seq<char>| #[trigger] sites.listed(k) == definition_sites(files@, k, None),
            nbr == callee_neighbours(index, files@, opt_path(path_filter), cap as int),
            walk.wf(),
            !full ==> searching(
                walk.nodes@,
                nbr,
                root_name@,
                root_sites,
                max_depth,
                max_nodes as int,
                false,
                head as int,
            ),
            !full ==> hit_cap == hits_cap(walk.nodes@, nbr, max_depth, head as int),
            !full ==> gated == hits_depth(walk.nodes@, max_depth, head as int),
            is_walk(
                walk.nodes@,
                nbr,
                root_name@,
                root_sites,
                max_depth,
                max_nodes as int,
                false,
            ),
            full ==> walk.nodes@.len() >= max_nodes && ran_out(
                walk.nodes@,
                nbr,
                max_depth,
                false,
            ),
            head <= walk.nodes@.len(),
            walk.nodes@.len() == 1 || walk.nodes@.len() <= max_nodes,
        decreases (max_nodes + 1) - head + (if full { 0int } else { 1 }),
    {
        let ghost before = walk.nodes@;
        proof {
            lemma_flags_step(before, nbr, max_depth, head as int);
        }
        if walk.nodes[head].depth >= max_depth {
            gated = true;
            head += 1;
        } else {
            let filter = if head == 0 {
                path_filter
            } else {
                None
            };
            let found = collect_callees_for_name(
                index,
                files,
                &sites,
                walk.nodes[head].name.as_str(),
                filter,
                cap,
            );
            match found {
                Some(list) => {
                    full = absorb(
                        &mut walk,
                        head,
                        &list,
                        max_nodes,
                        false,
                        Ghost(nbr),
                        Ghost(root_name@),
                        Ghost(root_sites),
                        Ghost(max_depth),
                    );
                    proof {
                        lemma_flags_stable(before, walk.nodes@, nbr, max_depth, head + 1);
                    }
                    head += 1;
                },
                None => {
                    hit_cap = true;
                    head += 1;
                },
            }
        }
    }
    conclude(
        walk.nodes,
        full,
        hit_cap,
        gated,
        Ghost(nbr),
        Ghost(root_name@),
        Ghost(root_sites),
        Ghost(max_depth),
        Ghost(max_nodes as int),
        Ghost(false),
    )
}

// ─── The tool ────────────────────────────────────────────────────────────────

/// What a call-graph query asks.
pub struct CallGraphParams {
    pub name: String,
    pub path: Option<RelPath>,
    /// `callers` or `callees`.
    pub direction: String,
    pub max_depth: Option<u32>,
    pub max_nodes: Option<u32>,
}

/// The answer to a call-graph query.
pub struct CallGraphResponse {
    pub root: String,
    pub direction: String,
    pub nodes: Vec<CallGraphNode>,
    pub truncated: bool,
    pub truncation_reason: Option<Truncation>,
}

/// A request's number, or the default, but no more than the ceiling.
pub open spec fn bounded(asked: Option<u32>, default: u32, ceiling: u32) -> u32 {
    let n = match asked {
        Some(a) => a,
        None => default,
    };
    if n > ceiling {
        ceiling
    } else {
        n
    }
}

/// A request's number, or the default, but no more than the ceiling.
pub fn bound(asked: Option<u32>, default: u32, ceiling: u32) -> (n: u32)
    ensures
        n == bounded(asked, default, ceiling),
        n <= ceiling,
{
    let n: u32 = match asked {
        Some(a) => a,
        None => default,
    };
    if n > ceiling {
        ceiling
    } else {
        n
    }
}

/// Answer a call-graph query. A direction other than `callers` and `callees` is refused.
pub fn run_call_graph(
    index: Option<&InRamCallIndex>,
    params: CallGraphParams,
    files: &Vec<MappedFile>,
) -> (r: Result<CallGraphResponse, ToolError>)
    requires
        paths_ascend(files@),
        index is Some ==> index->0.wf() && index->0.rows().len() < u32::MAX,
        symbol_count(files@, files@.len() as int) < u32::MAX,
    ensures
        ({
            let upward = params.direction@ == "callers"@;
            let max_depth = bounded(params.max_depth, DEFAULT_MAX_DEPTH, MAX_DEPTH_CEILING);
            let max_nodes = bounded(params.max_nodes, DEFAULT_MAX_NODES, MAX_NODES_CEILING) as int;
            let path = match params.path {
                Some(p) => Some(p@),
                None => None,
            };
            match r {
                Ok(out) => {
                    &&& upward || params.direction@ == "callees"@
                    &&& out.root@ == params.name@
                    &&& out.direction@ == params.direction@
                    &&& out.truncated == (out.truncation_reason is Some)
                    &&& is_call_graph(
                        out.nodes@,
                        out.truncation_reason,
                        if upward {
                            caller_neighbours(files@, index_rows(index), scan_cap(max_nodes))
                        } else {
                            callee_neighbours(index, files@, path, scan_cap(max_nodes))
                        },
                        params.name@,
                        definition_sites(files@, params.name@, path),
                        max_depth,
                        max_nodes,
                        upward,
                    )
                },
                Err(e) => {
                    &&& !upward && params.direction@ != "callees"@
                    &&& e is InvalidParams
                    &&& e.text() == "direction must be \"callers\" or \"callees\", got "@
                        + quoted_text(params.direction@)
                },
            }
        }),
{
    let upward: bool = same_str(params.direction.as_str(), "callers");
    if !upward && !same_str(params.direction.as_str(), "callees") {
        let mut m = String::from_str("direction must be \"callers\" or \"callees\", got ");
        m.append(quoted(params.direction.as_str()).as_str());
        return Err(ToolError::InvalidParams(m));
    }
    let max_depth: u32 = bound(params.max_depth, DEFAULT_MAX_DEPTH, MAX_DEPTH_CEILING);
    let max_nodes: usize = bound(params.max_nodes, DEFAULT_MAX_NODES, MAX_NODES_CEILING) as usize;
    let path = match &params.path {
        Some(p) => Some(p),
        None => None,
    };
    let out = if upward {
        bfs_callers(index, files, params.name.as_str(), path, max_depth, max_nodes)
    } else {
        bfs_callees(index, files, params.name.as_str(), path, max_depth, max_nodes)
    };
    Ok(
        CallGraphResponse {
            root: params.name,
            direction: params.direction,
            nodes: out.nodes,
            truncated: out.truncated,
            truncation_reason: out.truncation_reason,
        },
    )
}

// ─── Laws ────────────────────────────────────────────────────────────────────

/// `chain` leads from the root by neighbour steps: whichever node stands for a name of it has the
/// next name among its neighbours.
pub open spec fn is_chain(
    nodes: Seq<CallGraphNode>,
    nbr: Neighbourhood,
    root: Seq<char>,
    chain: Seq<Seq<char>>,
) -> bool {
    &&& chain.len() >= 1
    &&& chain[0] == root
    &&& forall|i: int, b: int|
        #![trigger chain[i], nodes[b]]
        0 <= i < chain.len() - 1 && 0 <= b < nodes.len() && nodes[b].name@ == chain[i] ==> around(
            nodes,
            nbr,
            b,
        ) is Some && around(nodes, nbr, b)->0.contains_key(chain[i + 1])
}

/// Depth is the shortest distance from the root: in a graph that did not run out of nodes, what a
/// chain of steps within the depth limit reaches is a node, no deeper than the chain is long.
pub proof fn law_depth_is_shortest(
    nodes: Seq<CallGraphNode>,
    reason: Option<Truncation>,
    nbr: Neighbourhood,
    root: Seq<char>,
    root_sites: Seq<SiteAt>,
    max_depth: u32,
    max_nodes: int,
    upward: bool,
    chain: Seq<Seq<char>>,
)
    requires
        is_call_graph(
            nodes,
            reason,
            nbr,
            root,
            root_sites,
            max_depth,
            max_nodes,
            upward,
        ),
        reason != Some(Truncation::MaxNodes),
        is_chain(nodes, nbr, root, chain),
        chain.len() - 1 <= max_depth,
    ensures
        exists|a: int|
            0 <= a < nodes.len() && (#[trigger] nodes[a]).name@ == chain.last() && nodes[a].depth
                <= chain.len() - 1,
    decreases chain.len(),
{
    if chain.len() == 1 {
        assert(nodes[0].name@ == chain.last());
    } else {
        let front = chain.drop_last();
        assert(is_chain(nodes, nbr, root, front)) by {
            assert forall|i: int, b: int|
                #![trigger front[i], nodes[b]]
                0 <= i < front.len() - 1 && 0 <= b < nodes.len() && nodes[b].name@
                    == front[i] implies around(nodes, nbr, b) is Some && around(
                nodes,
                nbr,
                b,
            )->0.contains_key(front[i + 1]) by {
                assert(chain[i] == front[i] && chain[i + 1] == front[i + 1]);
            }
        }
        law_depth_is_shortest(
            nodes,
            reason,
            nbr,
            root,
            root_sites,
            max_depth,
            max_nodes,
            upward,
            front,
        );
        let b = choose|b: int|
            0 <= b < nodes.len() && (#[trigger] nodes[b]).name@ == front.last() && nodes[b].depth
                <= front.len() - 1;
        let k = chain.len() - 2;
        assert(chain[k] == front.last());
        assert(around(nodes, nbr, b)->0.contains_key(chain[k + 1]));
        assert(expanded(nodes, nbr, max_depth, upward, b));
        let a = choose|a: int|
            0 <= a < nodes.len() && (#[trigger] nodes[a]).name@ == chain[k + 1] && linked(
                nodes,
                upward,
                a,
                b,
            ) && nodes[a].depth <= nodes[b].depth + 1;
        assert(nodes[a].name@ == chain.last());
    }
}

/// `chain` leads from node to node to node `a`, and is as long as that node is deep.
pub open spec fn leads_to(
    nodes: Seq<CallGraphNode>,
    nbr: Neighbourhood,
    root: Seq<char>,
    a: int,
    chain: Seq<Seq<char>>,
) -> bool {
    &&& is_chain(nodes, nbr, root, chain)
    &&& forall|i: int| 0 <= i < chain.len() ==> has_node(nodes, #[trigger] chain[i])
    &&& chain.last() == nodes[a].name@
    &&& chain.len() == nodes[a].depth + 1
}

/// Depth is the length of a chain: each node is at the end of a chain of steps from the root that is
/// as long as the node is deep.
pub proof fn law_every_node_has_its_chain(
    nodes: Seq<CallGraphNode>,
    nbr: Neighbourhood,
    root: Seq<char>,
    root_sites: Seq<SiteAt>,
    max_depth: u32,
    max_nodes: int,
    upward: bool,
    a: int,
)
    requires
        is_walk(nodes, nbr, root, root_sites, max_depth, max_nodes, upward),
        0 <= a < nodes.len(),
    ensures
        exists|chain: Seq<Seq<char>>| leads_to(nodes, nbr, root, a, chain),
    decreases a,
{
    if a == 0 {
        assert(has_node(nodes, root));
        assert(leads_to(nodes, nbr, root, 0, seq![root]));
    } else {
        assert(has_finder(nodes, nbr, upward, a));
        let j = choose|j: int| 0 <= j < a && #[trigger] found_from(nodes, nbr, upward, a, j);
        law_every_node_has_its_chain(
            nodes,
            nbr,
            root,
            root_sites,
            max_depth,
            max_nodes,
            upward,
            j,
        );
        let front = choose|chain: Seq<Seq<char>>| leads_to(nodes, nbr, root, j, chain);
        let chain = front.push(nodes[a].name@);
        assert forall|i: int, b: int|
            #![trigger chain[i], nodes[b]]
            0 <= i < chain.len() - 1 && 0 <= b < nodes.len() && nodes[b].name@
                == chain[i] implies around(nodes, nbr, b) is Some && around(
            nodes,
            nbr,
            b,
        )->0.contains_key(chain[i + 1]) by {
            assert(chain[i] == front[i]);
            if i < front.len() - 1 {
                assert(chain[i + 1] == front[i + 1]);
            } else {
                assert(b == j);
            }
        }
        assert forall|i: int| 0 <= i < chain.len() implies has_node(nodes, #[trigger] chain[i]) by {
            if i < front.len() {
                assert(chain[i] == front[i]);
            } else {
                assert(nodes[a].name@ == chain[i]);
            }
        }
        assert(leads_to(nodes, nbr, root, a, chain));
    }
}

proof fn lemma_caller_is_neighbour(
    files: Seq<MappedFile>,
    rows: Seq<CallRow>,
    name: Seq<char>,
    cap: int,
    r: int,
    f: int,
    s: int,
)
    requires
        paths_ascend(files),
        callers_of_name(files, rows, name, cap) is Some,
        0 <= r < rows.len(),
        rows[r].callee == name,
        0 <= f < files.len(),
        files[f].path@ == rows[r].rel,
        innermost(files[f].map.symbols@, rows[r].start, s),
        forall|j: int|
            0 <= j < files[f].map.symbols@.len() && callable(#[trigger] files[f].map.symbols@[j])
                && files[f].map.symbols@[j].start_row == files[f].map.symbols@[s].start_row
                && files[f].map.symbols@[j].start_col == files[f].map.symbols@[s].start_col
                ==> files[f].map.symbols@[j].name@ == files[f].map.symbols@[s].name@,
    ensures
        callers_of_name(files, rows, name, cap)->0.contains_key(files[f].map.symbols@[s].name@),
{
    let symbols = files[f].map.symbols@;
    let n = rows.len() as int;
    let records = callers_upto(files, rows, name, n);
    lemma_innermost(symbols, rows[r].start, s);
    lemma_tightest_unique(symbols, rows[r].start, s);
    lemma_table_at(files, f);
    assert(holds_path(files, rows[r].rel));
    let k = lemma_record_kept(files, rows, name, n, r);
    let q = lemma_record_source(files, rows, name, n, k);
    let t = enclosing(symbols, rows[q].start)->0;
    assert(is_tightest(symbols, rows[q].start, t));
    assert(callable(symbols[t]));
    assert(records[k].name == symbols[s].name@);
    assert(name_recorded(records, symbols[s].name@));
}

/// A graph towards callers misses no call. Let node `b` lie above the depth limit, row `r` be a call of
/// its name in file `f`, and `s` the innermost callable symbol around that call, with no other name
/// starting at its place. Unless nodes or call sites were too many, a node has that symbol's name, and
/// an edge leads from it to `b`.
pub proof fn law_callers_reach_the_graph(
    files: Seq<MappedFile>,
    rows: Seq<CallRow>,
    cap: int,
    nodes: Seq<CallGraphNode>,
    reason: Option<Truncation>,
    root: Seq<char>,
    root_sites: Seq<SiteAt>,
    max_depth: u32,
    max_nodes: int,
    b: int,
    r: int,
    f: int,
    s: int,
) -> (a: int)
    requires
        paths_ascend(files),
        is_call_graph(
            nodes,
            reason,
            caller_neighbours(files, rows, cap),
            root,
            root_sites,
            max_depth,
            max_nodes,
            true,
        ),
        reason is None || reason == Some(Truncation::MaxDepth),
        0 <= b < nodes.len(),
        nodes[b].depth < max_depth,
        0 <= r < rows.len(),
        rows[r].callee == nodes[b].name@,
        0 <= f < files.len(),
        files[f].path@ == rows[r].rel,
        innermost(files[f].map.symbols@, rows[r].start, s),
        forall|j: int|
            0 <= j < files[f].map.symbols@.len() && callable(#[trigger] files[f].map.symbols@[j])
                && files[f].map.symbols@[j].start_row == files[f].map.symbols@[s].start_row
                && files[f].map.symbols@[j].start_col == files[f].map.symbols@[s].start_col
                ==> files[f].map.symbols@[j].name@ == files[f].map.symbols@[s].name@,
    ensures
        0 <= a < nodes.len(),
        nodes[a].name@ == files[f].map.symbols@[s].name@,
        nodes[a].edges_to@.contains(b as u32),
        nodes[a].depth <= nodes[b].depth + 1,
{
    let nbr = caller_neighbours(files, rows, cap);
    let k = files[f].map.symbols@[s].name@;
    assert(around(nodes, nbr, b) is Some) by {
        assert(!hits_cap(nodes, nbr, max_depth, nodes.len() as int));
    }
    lemma_caller_is_neighbour(files, rows, nodes[b].name@, cap, r, f, s);
    assert(around(nodes, nbr, b)->0.contains_key(k));
    assert(expanded(nodes, nbr, max_depth, true, b));
    let a = choose|a: int|
        0 <= a < nodes.len() && (#[trigger] nodes[a]).name@ == k && linked(nodes, true, a, b)
            && nodes[a].depth <= nodes[b].depth + 1;
    assert(linked(nodes, true, a, b));
    a
}

/// Every edge of a graph towards callers is a call: some row calls the name that the edge leads to,
/// and the innermost callable symbol around the call has the name that the edge comes from. The result
/// gives the row, the file and the symbol.
pub proof fn law_caller_edges_are_calls(
    files: Seq<MappedFile>,
    rows: Seq<CallRow>,
    cap: int,
    nodes: Seq<CallGraphNode>,
    reason: Option<Truncation>,
    root: Seq<char>,
    root_sites: Seq<SiteAt>,
    max_depth: u32,
    max_nodes: int,
    a: int,
    e: int,
) -> (at: (int, int, int))
    requires
        paths_ascend(files),
        is_call_graph(
            nodes,
            reason,
            caller_neighbours(files, rows, cap),
            root,
            root_sites,
            max_depth,
            max_nodes,
            true,
        ),
        0 <= a < nodes.len(),
        0 <= e < nodes[a].edges_to@.len(),
    ensures
        nodes[a].edges_to@[e] < nodes.len(),
        nodes[nodes[a].edges_to@[e] as int].depth < max_depth,
        0 <= at.0 < rows.len(),
        rows[at.0].callee == nodes[nodes[a].edges_to@[e] as int].name@,
        0 <= at.1 < files.len(),
        files[at.1].path@ == rows[at.0].rel,
        innermost(files[at.1].map.symbols@, rows[at.0].start, at.2),
        files[at.1].map.symbols@[at.2].name@ == nodes[a].name@,
{
    let nbr = caller_neighbours(files, rows, cap);
    let b = nodes[a].edges_to@[e] as int;
    let name = nodes[b].name@;
    assert(nodes[a].edges_to@[e] < nodes.len());
    assert(linked(nodes, true, a, b));
    let n = rows.len() as int;
    let records = callers_upto(files, rows, name, n);
    assert(around(nodes, nbr, b) == callers_of_name(files, rows, name, cap));
    assert(name_recorded(records, nodes[a].name@));
    let k = choose|k: int| 0 <= k < records.len() && (#[trigger] records[k]).name == nodes[a].name@;
    let r = lemma_record_source(files, rows, name, n, k);
    let f = path_index(files, rows[r].rel);
    let symbols = files[f].map.symbols@;
    let s = enclosing(symbols, rows[r].start)->0;
    assert(is_tightest(symbols, rows[r].start, s));
    lemma_innermost(symbols, rows[r].start, s);
    (r, f, s)
}

/// A graph towards callees misses no call. Let node `b` lie above the depth limit, and let a call of
/// file `f` lie in a callable symbol with that node's name; at the root the file is the one asked
/// about, where one is. Unless nodes or call sites were too many, a node has the name that is called, and
/// an edge leads to it from `b`.
pub proof fn law_callees_reach_the_graph(
    index: &InRamCallIndex,
    files: Seq<MappedFile>,
    path: Option<Seq<u8>>,
    cap: int,
    nodes: Seq<CallGraphNode>,
    reason: Option<Truncation>,
    root: Seq<char>,
    root_sites: Seq<SiteAt>,
    max_depth: u32,
    max_nodes: int,
    b: int,
    f: int,
    s: int,
    c: int,
) -> (a: int)
    requires
        paths_ascend(files),
        is_call_graph(
            nodes,
            reason,
            callee_neighbours(Some(index), files, path, cap),
            root,
            root_sites,
            max_depth,
            max_nodes,
            false,
        ),
        reason is None || reason == Some(Truncation::MaxDepth),
        0 <= b < nodes.len(),
        nodes[b].depth < max_depth,
        0 <= f < files.len(),
        b == 0 && path is Some ==> files[f].path@ == path->0,
        0 <= s < files[f].map.symbols@.len(),
        files[f].map.symbols@[s].name@ == nodes[b].name@,
        callable(files[f].map.symbols@[s]),
        0 <= c < index.calls_of(files[f].path@).len(),
        files[f].map.symbols@[s].start_byte <= index.calls_of(files[f].path@)[c].start_byte,
        index.calls_of(files[f].path@)[c].start_byte < files[f].map.symbols@[s].end_byte,
    ensures
        0 <= a < nodes.len(),
        nodes[a].name@ == index.calls_of(files[f].path@)[c].callee@,
        nodes[b].edges_to@.contains(a as u32),
        nodes[a].depth <= nodes[b].depth + 1,
{
    let nbr = callee_neighbours(Some(index), files, path, cap);
    let calls = index.calls_of(files[f].path@);
    let name = nodes[b].name@;
    let k = calls[c].callee@;
    let asked = if b == 0 { path } else { None };
    let scope = in_scope(files, asked);
    assert(around(nodes, nbr, b) is Some) by {
        assert(!hits_cap(nodes, nbr, max_depth, nodes.len() as int));
    }
    lemma_table_at(files, f);
    let at = match asked {
        Some(p) => {
            assert(holds_path(files, p));
            0int
        },
        None => f,
    };
    assert(scope[at] == files[f]);
    assert(defines(files[f].map.symbols@[s], name));
    assert(inside(files[f].map.symbols@, name, calls[c].start_byte));
    assert(callee_in(files[f], calls, name, k, calls.len() as int));
    assert(index_calls(Some(index), scope[at].path@) == calls);
    assert(callee_upto(Some(index), scope, name, k, scope.len() as int));
    assert(around(nodes, nbr, b)->0.contains_key(k));
    assert(expanded(nodes, nbr, max_depth, false, b));
    let a = choose|a: int|
        0 <= a < nodes.len() && (#[trigger] nodes[a]).name@ == k && linked(nodes, false, a, b)
            && nodes[a].depth <= nodes[b].depth + 1;
    assert(linked(nodes, false, a, b));
    a
}

} // verus!
