//! A directed graph of (name, url) package nodes with "depends" edges,
//! stored in a petgraph graph behind contracts over its node and edge lists.

use vstd::prelude::*;
use vstd::string::StringExecFns;

use crate::package::Package;

verus! {

/// The stored graph: nodes carry (name, url) pairs, edges a fixed label.
/// The usize index type never runs out of indices, so insertions cannot
/// panic on capacity.
pub type PkgGraph = petgraph::graph::DiGraph<(String, String), &'static str, usize>;

#[verifier::external_type_specification]
#[verifier::external_body]
#[verifier::reject_recursive_types(N)]
#[verifier::reject_recursive_types(E)]
#[verifier::reject_recursive_types(Ty)]
#[verifier::reject_recursive_types(Ix)]
pub struct ExGraph<N, E, Ty, Ix>(petgraph::graph::Graph<N, E, Ty, Ix>);

#[verifier::external_type_specification]
#[verifier::external_body]
pub struct ExDirected(petgraph::Directed);

/// The node weights of the graph, in index order.
pub uninterp spec fn nodes_of(g: PkgGraph) -> Seq<(Seq<char>, Seq<char>)>;

/// The edges of the graph as (source index, target index) pairs, in
/// insertion order.
pub uninterp spec fn edges_of(g: PkgGraph) -> Seq<(int, int)>;

/// The node indices a depth-first traversal from `start` emits, in order.
pub uninterp spec fn dfs_of(g: PkgGraph, start: int) -> Seq<int>;

/// The DOT rendering of the graph.
pub uninterp spec fn dot_of(g: PkgGraph) -> Seq<char>;

/// Relies on petgraph's Graph::with_capacity: the created graph is empty.
#[verifier::external_body]
fn graph_new() -> (g: PkgGraph)
    ensures
        nodes_of(g) == Seq::<(Seq<char>, Seq<char>)>::empty(),
        edges_of(g) == Seq::<(int, int)>::empty(),
{
    petgraph::graph::DiGraph::with_capacity(0, 0)
}

/// Relies on petgraph's Graph::add_node: appends one node and returns its
/// index, which is the node count before the call.
#[verifier::external_body]
fn graph_add_node(g: &mut PkgGraph, name: String, url: String) -> (r: usize)
    ensures
        nodes_of(*final(g)) == nodes_of(*old(g)).push((name@, url@)),
        edges_of(*final(g)) == edges_of(*old(g)),
        r == nodes_of(*old(g)).len(),
{
    g.add_node((name, url)).index()
}

/// Relies on petgraph's Graph::add_edge: appends one directed edge from
/// `a` to `b`.
#[verifier::external_body]
fn graph_add_edge(g: &mut PkgGraph, a: usize, b: usize, label: &'static str)
    requires
        a < nodes_of(*old(g)).len(),
        b < nodes_of(*old(g)).len(),
    ensures
        nodes_of(*final(g)) == nodes_of(*old(g)),
        edges_of(*final(g)) == edges_of(*old(g)).push((a as int, b as int)),
{
    g.add_edge(
        petgraph::graph::NodeIndex::<usize>::new(a),
        petgraph::graph::NodeIndex::<usize>::new(b),
        label,
    );
}

/// Relies on petgraph's Graph::node_count: the number of nodes.
#[verifier::external_body]
fn graph_node_count(g: &PkgGraph) -> (r: usize)
    ensures
        r == nodes_of(*g).len(),
{
    g.node_count()
}

/// Relies on petgraph's Graph::node_weight: the weight stored at index `i`.
#[verifier::external_body]
fn graph_node_get(g: &PkgGraph, i: usize) -> (r: (String, String))
    requires
        i < nodes_of(*g).len(),
    ensures
        r.deep_view() == nodes_of(*g)[i as int],
{
    let w = g.node_weight(petgraph::graph::NodeIndex::<usize>::new(i)).unwrap();
    (w.0.clone(), w.1.clone())
}

/// Whether `edges` holds an edge from `a` to `b`.
pub open spec fn has_edge(edges: Seq<(int, int)>, a: int, b: int) -> bool {
    exists|k: int| 0 <= k < edges.len() && edges[k] == (a, b)
}

/// Whether `t` can be reached from `s` along `edges` in at most `k` hops.
pub open spec fn reachable_within(edges: Seq<(int, int)>, s: int, t: int, k: nat) -> bool
    decreases k,
{
    s == t || (k > 0 && exists|m: int|
        #[trigger] has_edge(edges, s, m) && reachable_within(edges, m, t, (k - 1) as nat))
}

/// Whether `t` can be reached from `s` along `edges`.
pub open spec fn reachable(edges: Seq<(int, int)>, s: int, t: int) -> bool {
    exists|k: nat| reachable_within(edges, s, t, k)
}

/// Relies on petgraph's Dfs: a depth-first traversal emitting, in preorder
/// and exactly once each, the nodes reachable from `start`, beginning with
/// `start` itself.
#[verifier::external_body]
fn dfs_from(g: &PkgGraph, start: usize) -> (r: Vec<usize>)
    requires
        (start as int) < nodes_of(*g).len(),
    ensures
        r@.map_values(|x: usize| x as int) == dfs_of(*g, start as int),
        r@.len() >= 1 && r@[0] == start,
        forall|i: int| 0 <= i < r@.len() ==> (r@[i] as int) < nodes_of(*g).len(),
        forall|i: int, j: int| 0 <= i < j < r@.len() ==> r@[i] != r@[j],
        forall|i: int|
            0 <= i < r@.len() ==> reachable(edges_of(*g), start as int, r@[i] as int),
        forall|t: int|
            0 <= t < nodes_of(*g).len() && reachable(edges_of(*g), start as int, t)
                ==> exists|i: int| 0 <= i < r@.len() && r@[i] as int == t,
{
    let mut dfs = petgraph::visit::Dfs::new(g, petgraph::graph::NodeIndex::<usize>::new(start));
    let mut order = Vec::new();
    while let Some(ix) = dfs.next(g) {
        order.push(ix.index());
    }
    order
}

/// Relies on petgraph's Dot formatter for the DOT text of the graph.
#[verifier::external_body]
fn graph_dot(g: &PkgGraph) -> (r: String)
    ensures
        r@ == dot_of(*g),
{
    format!(
        "{:?}",
        petgraph::dot::Dot::with_config(g, &[petgraph::dot::Config::GraphContentOnly])
    )
}

/// The first index at or after `i` whose node equals `p`, if any.
pub open spec fn find_from(
    nodes: Seq<(Seq<char>, Seq<char>)>,
    p: (Seq<char>, Seq<char>),
    i: int,
) -> Option<int>
    decreases nodes.len() - i,
{
    if i < 0 || i >= nodes.len() {
        None
    } else if nodes[i] == p {
        Some(i)
    } else {
        find_from(nodes, p, i + 1)
    }
}

/// A found index lies between the search start and the end of the node
/// list, and holds the pair searched for.
pub proof fn lemma_find_from_range(
    nodes: Seq<(Seq<char>, Seq<char>)>,
    p: (Seq<char>, Seq<char>),
    i: int,
)
    requires
        find_from(nodes, p, i) is Some,
    ensures
        i <= find_from(nodes, p, i)->Some_0 < nodes.len(),
        nodes[find_from(nodes, p, i)->Some_0] == p,
    decreases nodes.len() - i,
{
    if !(i < 0 || i >= nodes.len()) && nodes[i] != p {
        lemma_find_from_range(nodes, p, i + 1);
    }
}

/// The index the package's own node gets: the first structurally equal
/// node if one exists, else the next fresh index.
pub open spec fn package_node_index(
    nodes: Seq<(Seq<char>, Seq<char>)>,
    p: (Seq<char>, Seq<char>),
) -> int {
    match find_from(nodes, p, 0) {
        Some(i) => i,
        None => nodes.len() as int,
    }
}

/// The node list after inserting the package's own node, unless a
/// structurally equal node already exists.
pub open spec fn nodes_after_package(
    nodes: Seq<(Seq<char>, Seq<char>)>,
    p: (Seq<char>, Seq<char>),
) -> Seq<(Seq<char>, Seq<char>)> {
    match find_from(nodes, p, 0) {
        Some(i) => nodes,
        None => nodes.push(p),
    }
}

/// Folds the package's dependency tuples into the graph from position `i`
/// on: each tuple not yet present becomes a fresh node with an edge from
/// the package's node `idx` to it.
pub open spec fn insert_missing_deps(
    nodes: Seq<(Seq<char>, Seq<char>)>,
    edges: Seq<(int, int)>,
    idx: int,
    deps: Seq<(Seq<char>, Seq<char>)>,
    i: int,
) -> (Seq<(Seq<char>, Seq<char>)>, Seq<(int, int)>)
    decreases deps.len() - i,
{
    if i < 0 || i >= deps.len() {
        (nodes, edges)
    } else if find_from(nodes, deps[i], 0) is Some {
        insert_missing_deps(nodes, edges, idx, deps, i + 1)
    } else {
        insert_missing_deps(
            nodes.push(deps[i]),
            edges.push((idx, nodes.len() as int)),
            idx,
            deps,
            i + 1,
        )
    }
}

/// The state a tree rendering threads along: the node indices already
/// expanded, the package names already printed, and the lines emitted so
/// far.
#[verifier::ext_equal]
pub ghost struct RenderState {
    pub visited: Set<int>,
    pub printed: Set<Seq<char>>,
    pub lines: Seq<Seq<char>>,
}

/// The node indices held by a list of visited entries.
pub open spec fn visited_view(v: Seq<usize>) -> Set<int> {
    Set::new(|x: int| exists|j: int| 0 <= j < v.len() && v[j] as int == x)
}

/// The names held by a list of printed entries.
pub open spec fn printed_view(v: Seq<Seq<char>>) -> Set<Seq<char>> {
    Set::new(|n: Seq<char>| exists|j: int| 0 <= j < v.len() && v[j] == n)
}

/// The render state the three executable lists stand for.
pub open spec fn state_of(v: Seq<usize>, p: Seq<Seq<char>>, l: Seq<Seq<char>>) -> RenderState {
    RenderState { visited: visited_view(v), printed: printed_view(p), lines: l }
}

/// `levels` copies of the three-space indentation step.
pub open spec fn indent_of(levels: nat) -> Seq<char>
    decreases levels,
{
    if levels == 0 {
        Seq::empty()
    } else {
        indent_of((levels - 1) as nat) + "   "@
    }
}

/// The color escape for a depth: green on even depths, white on odd ones.
pub open spec fn color_of(depth: nat) -> Seq<char> {
    if depth % 2 == 0 {
        "\x1b[32m"@
    } else {
        "\x1b[37m"@
    }
}

/// One printed line: indentation by depth, the depth's color, the branch
/// glyph, the package name and its homepage url, and the color reset.
pub open spec fn line_of(depth: nat, name: Seq<char>, url: Seq<char>) -> Seq<char> {
    indent_of(depth) + color_of(depth) + " ├── "@ + name + " - ("@ + url + ")\x1b[0m"@
}

/// What rendering one package at `depth` does to the state: nothing at or
/// past `max_depth`, for an absent or already expanded node, or for a name
/// already printed when `max_depth <= 2`; otherwise one line, and then every
/// node the depth-first traversal reaches from it, one level deeper.
pub open spec fn render_node(
    g: PkgGraph,
    name: Seq<char>,
    url: Seq<char>,
    depth: nat,
    max_depth: nat,
    st: RenderState,
) -> RenderState
    decreases max_depth - depth, 0int, 0int,
{
    if depth >= max_depth {
        st
    } else {
        match find_from(nodes_of(g), (name, url), 0) {
            None => st,
            Some(ix) => {
                if st.visited.contains(ix) {
                    st
                } else if st.printed.contains(name) && max_depth <= 2 {
                    RenderState {
                        visited: st.visited.insert(ix),
                        printed: st.printed,
                        lines: st.lines,
                    }
                } else {
                    let st2 = RenderState {
                        visited: st.visited.insert(ix),
                        printed: st.printed.insert(name),
                        lines: st.lines.push(line_of(depth, name, url)),
                    };
                    render_list(g, dfs_of(g, ix), 0, (depth + 1) as nat, max_depth, st2)
                }
            },
        }
    }
}

/// Renders, in order, the nodes of `lst` from position `i` on, each at
/// `depth`.
pub open spec fn render_list(
    g: PkgGraph,
    lst: Seq<int>,
    i: int,
    depth: nat,
    max_depth: nat,
    st: RenderState,
) -> RenderState
    decreases max_depth - depth, 1int, lst.len() - i,
{
    if i < 0 || i >= lst.len() {
        st
    } else {
        let ix = lst[i];
        let st1 = if 0 <= ix < nodes_of(g).len() {
            render_node(g, nodes_of(g)[ix].0, nodes_of(g)[ix].1, depth, max_depth, st)
        } else {
            st
        };
        render_list(g, lst, i + 1, depth, max_depth, st1)
    }
}

/// With no edges, only a node itself is reachable from it.
proof fn lemma_reachable_no_edges(edges: Seq<(int, int)>, s: int, t: int)
    requires
        edges.len() == 0,
        reachable(edges, s, t),
    ensures
        s == t,
{
    let k = choose|k: nat| reachable_within(edges, s, t, k);
    lemma_reachable_within_no_edges(edges, s, t, k);
}

proof fn lemma_reachable_within_no_edges(edges: Seq<(int, int)>, s: int, t: int, k: nat)
    requires
        edges.len() == 0,
        reachable_within(edges, s, t, k),
    ensures
        s == t,
    decreases k,
{
    if s != t {
        let m = choose|m: int|
            #[trigger] has_edge(edges, s, m) && reachable_within(edges, m, t, (k - 1) as nat);
        let e = choose|e: int| 0 <= e < edges.len() && edges[e] == (s, m);
        assert(false);
    }
}

/// Rendering a list of nodes at or past the depth limit changes nothing.
proof fn lemma_render_list_at_max(
    g: PkgGraph,
    lst: Seq<int>,
    i: int,
    depth: nat,
    max_depth: nat,
    st: RenderState,
)
    requires
        depth >= max_depth,
    ensures
        render_list(g, lst, i, depth, max_depth, st) == st,
    decreases lst.len() - i,
{
    if !(i < 0 || i >= lst.len()) {
        let ix = lst[i];
        if 0 <= ix < nodes_of(g).len() {
            assert(render_node(g, nodes_of(g)[ix].0, nodes_of(g)[ix].1, depth, max_depth, st)
                == st);
        }
        lemma_render_list_at_max(g, lst, i + 1, depth, max_depth, st);
    }
}

/// Pushing an index onto the visited list inserts it into the visited set.
proof fn lemma_visited_view_push(v: Seq<usize>, e: usize)
    ensures
        visited_view(v.push(e)) == visited_view(v).insert(e as int),
{
    assert forall|x: int| visited_view(v).insert(e as int).contains(x) implies visited_view(
        v.push(e),
    ).contains(x) by {
        if x == e as int {
            assert(v.push(e)[v.len() as int] as int == x);
        } else {
            let j = choose|j: int| 0 <= j < v.len() && v[j] as int == x;
            assert(v.push(e)[j] as int == x);
        }
    }
    assert forall|x: int| visited_view(v.push(e)).contains(x) implies visited_view(v).insert(
        e as int,
    ).contains(x) by {
        let j = choose|j: int| 0 <= j < v.push(e).len() && v.push(e)[j] as int == x;
        if j < v.len() {
            assert(v[j] as int == x);
        }
    }
    assert(visited_view(v.push(e)) =~= visited_view(v).insert(e as int));
}

/// Pushing a name onto the printed list inserts it into the printed set.
proof fn lemma_printed_view_push(v: Seq<Seq<char>>, e: Seq<char>)
    ensures
        printed_view(v.push(e)) == printed_view(v).insert(e),
{
    assert forall|n: Seq<char>| printed_view(v).insert(e).contains(n) implies printed_view(
        v.push(e),
    ).contains(n) by {
        if n == e {
            assert(v.push(e)[v.len() as int] == n);
        } else {
            let j = choose|j: int| 0 <= j < v.len() && v[j] == n;
            assert(v.push(e)[j] == n);
        }
    }
    assert forall|n: Seq<char>| printed_view(v.push(e)).contains(n) implies printed_view(
        v,
    ).insert(e).contains(n) by {
        let j = choose|j: int| 0 <= j < v.push(e).len() && v.push(e)[j] == n;
        if j < v.len() {
            assert(v[j] == n);
        }
    }
    assert(printed_view(v.push(e)) =~= printed_view(v).insert(e));
}

/// Whether the visited list already holds `x`.
fn contains_index(v: &Vec<usize>, x: usize) -> (r: bool)
    ensures
        r == visited_view(v@).contains(x as int),
{
    let mut j: usize = 0;
    while j < v.len()
        invariant
            j <= v@.len(),
            forall|k: int| 0 <= k < j ==> v@[k] != x,
        decreases v@.len() - j,
    {
        if v[j] == x {
            assert(v@[j as int] as int == x as int);
            return true;
        }
        j = j + 1;
    }
    assert(!visited_view(v@).contains(x as int)) by {
        if visited_view(v@).contains(x as int) {
            let k = choose|k: int| 0 <= k < v@.len() && v@[k] as int == x as int;
            assert(v@[k] != x);
        }
    }
    false
}

/// Whether the printed list already holds `x`.
fn contains_name(v: &Vec<String>, x: &String) -> (r: bool)
    ensures
        r == printed_view(v.deep_view()).contains(x@),
{
    let mut j: usize = 0;
    while j < v.len()
        invariant
            j <= v@.len(),
            forall|k: int| 0 <= k < j ==> v.deep_view()[k] != x@,
        decreases v@.len() - j,
    {
        assert(v.deep_view()[j as int] == v@[j as int]@);
        if v[j].eq(x) {
            return true;
        }
        j = j + 1;
    }
    assert(!printed_view(v.deep_view()).contains(x@)) by {
        if printed_view(v.deep_view()).contains(x@) {
            let k = choose|k: int| 0 <= k < v.deep_view().len() && v.deep_view()[k] == x@;
        }
    }
    false
}

/// Builds one output line for a package at a depth.
fn render_line(depth: usize, name: &String, url: &String) -> (r: String)
    ensures
        r@ == line_of(depth as nat, name@, url@),
{
    let mut s = String::new();
    let mut i: usize = 0;
    while i < depth
        invariant
            i <= depth,
            s@ == indent_of(i as nat),
        decreases depth - i,
    {
        s.append("   ");
        i = i + 1;
    }
    if depth % 2 == 0 {
        s.append("\x1b[32m");
    } else {
        s.append("\x1b[37m");
    }
    s.append(" ├── ");
    s.append(name.as_str());
    s.append(" - (");
    s.append(url.as_str());
    s.append(")\x1b[0m");
    proof {
        assert(s@ =~= line_of(depth as nat, name@, url@));
    }
    s
}

/// A directed dependency graph of (name, url) nodes.
pub struct DependencyGraph {
    graph: PkgGraph,
}

impl Default for DependencyGraph {
    /// An empty dependency graph.
    fn default() -> (r: DependencyGraph)
        ensures
            r.nodes() == Seq::<(Seq<char>, Seq<char>)>::empty(),
            r.edges() == Seq::<(int, int)>::empty(),
    {
        DependencyGraph::new()
    }
}

impl DependencyGraph {
    /// The stored graph value, for specification purposes.
    pub closed spec fn raw(&self) -> PkgGraph {
        self.graph
    }

    /// The node weights, in index order.
    pub open spec fn nodes(&self) -> Seq<(Seq<char>, Seq<char>)> {
        nodes_of(self.raw())
    }

    /// The edges, as (source, target) index pairs in insertion order.
    pub open spec fn edges(&self) -> Seq<(int, int)> {
        edges_of(self.raw())
    }

    /// Creates an empty dependency graph.
    pub fn new() -> (r: DependencyGraph)
        ensures
            r.nodes() == Seq::<(Seq<char>, Seq<char>)>::empty(),
            r.edges() == Seq::<(int, int)>::empty(),
    {
        DependencyGraph { graph: graph_new() }
    }

    /// The index of the first node equal to (name, url), if any.
    pub fn find_node(&self, name: &String, url: &String) -> (r: Option<usize>)
        ensures
            match r {
                Some(i) => find_from(self.nodes(), (name@, url@), 0) == Some(i as int),
                None => find_from(self.nodes(), (name@, url@), 0) is None,
            },
    {
        let n = graph_node_count(&self.graph);
        let mut j: usize = 0;
        while j < n
            invariant
                j <= n,
                n == self.nodes().len(),
                find_from(self.nodes(), (name@, url@), 0) == find_from(
                    self.nodes(),
                    (name@, url@),
                    j as int,
                ),
            decreases n - j,
        {
            let w = graph_node_get(&self.graph, j);
            if w.0 == *name && w.1 == *url {
                return Some(j);
            }
            j = j + 1;
        }
        None
    }

    /// Adds the package's (name, url) node unless a structurally equal node
    /// already exists, then adds a fresh node for each of the package's
    /// dependency tuples not yet present, linking the package's node to it.
    /// Returns the index of the package's own node.
    pub fn add_package_to_graph(&mut self, package: &Package) -> (r: usize)
        ensures
            r as int == package_node_index(old(self).nodes(), (package@.name, package@.url)),
            (final(self).nodes(), final(self).edges()) == insert_missing_deps(
                nodes_after_package(old(self).nodes(), (package@.name, package@.url)),
                old(self).edges(),
                package_node_index(old(self).nodes(), (package@.name, package@.url)),
                package@.dependencies,
                0,
            ),
    {
        let ghost old_nodes = self.nodes();
        let ghost old_edges = self.edges();
        let ghost pair = (package@.name, package@.url);
        let node_index: usize = match self.find_node(&package.name, &package.url) {
            Some(i) => i,
            None => graph_add_node(&mut self.graph, package.name.clone(), package.url.clone()),
        };
        let ghost nodes0 = nodes_after_package(old_nodes, pair);
        let ghost idx = package_node_index(old_nodes, pair);
        proof {
            if find_from(old_nodes, pair, 0) is Some {
                lemma_find_from_range(old_nodes, pair, 0);
            }
        }
        assert(node_index as int == idx);
        assert(self.nodes() == nodes0);
        assert(self.edges() == old_edges);
        assert(idx < nodes0.len());

        let mut i: usize = 0;
        let deps_len = package.dependencies.len();
        assert(package.dependencies.deep_view().len() == deps_len) by {
            assert(package.dependencies.deep_view().len() == package.dependencies@.len());
        }
        while i < deps_len
            invariant
                i <= deps_len,
                deps_len == package@.dependencies.len(),
                package@.dependencies == package.dependencies.deep_view(),
                idx == node_index as int,
                0 <= idx < self.nodes().len(),
                insert_missing_deps(
                    self.nodes(),
                    self.edges(),
                    idx,
                    package@.dependencies,
                    i as int,
                ) == insert_missing_deps(nodes0, old_edges, idx, package@.dependencies, 0),
            decreases deps_len - i,
        {
            let dep = &package.dependencies[i];
            assert(dep.deep_view() == package@.dependencies[i as int]);
            match self.find_node(&dep.0, &dep.1) {
                Some(_) => {},
                None => {
                    let fresh = graph_add_node(&mut self.graph, dep.0.clone(), dep.1.clone());
                    graph_add_edge(&mut self.graph, node_index, fresh, "depends");
                },
            }
            i = i + 1;
        }
        node_index
    }

    /// Adds one "depends"-labeled directed edge from `source` to `target`.
    pub fn add_dependency_edge(&mut self, source: usize, target: usize)
        requires
            (source as int) < old(self).nodes().len(),
            (target as int) < old(self).nodes().len(),
        ensures
            final(self).nodes() == old(self).nodes(),
            final(self).edges() == old(self).edges().push((source as int, target as int)),
    {
        graph_add_edge(&mut self.graph, source, target, "depends");
    }

    /// Renders the tree for `package`, starting at `depth`, with fresh
    /// visited and printed tracking; returns the lines in print order.
    pub fn print_dependencies_at_level(
        &self,
        package: &Package,
        depth: usize,
        max_depth: usize,
    ) -> (lines: Vec<String>)
        ensures
            lines.deep_view() == render_node(
                self.raw(),
                package@.name,
                package@.url,
                depth as nat,
                max_depth as nat,
                RenderState {
                    visited: Set::empty(),
                    printed: Set::empty(),
                    lines: Seq::empty(),
                },
            ).lines,
            // a package whose graph holds only its own node and no edges
            // renders exactly one line, its own
            (depth < max_depth && nodes_of(self.raw()).len() == 1 && nodes_of(self.raw())[0] == (
            package@.name,
            package@.url,
            ) && edges_of(self.raw()).len() == 0) ==> lines.deep_view() == seq![
                line_of(depth as nat, package@.name, package@.url),
            ],
            // with exactly one level left, only the package's own line is
            // rendered, whatever hangs below it
            (depth + 1 == max_depth && find_from(
                nodes_of(self.raw()),
                (package@.name, package@.url),
                0,
            ) is Some) ==> lines.deep_view() == seq![
                line_of(depth as nat, package@.name, package@.url),
            ],
    {
        let mut visited_nodes: Vec<usize> = Vec::new();
        let mut printed_packages: Vec<String> = Vec::new();
        let mut lines: Vec<String> = Vec::new();
        proof {
            assert(visited_view(visited_nodes@) =~= Set::<int>::empty());
            assert(printed_view(printed_packages.deep_view()) =~= Set::<Seq<char>>::empty());
            assert(lines.deep_view() =~= Seq::<Seq<char>>::empty());
        }
        self.print_dependencies_recursive(
            package,
            depth,
            max_depth,
            &mut visited_nodes,
            &mut printed_packages,
            &mut lines,
        );
        lines
    }

    /// Renders `package` at `depth` and, through the graph's depth-first
    /// reachability, everything below it, sharing the visited and printed
    /// tracking with the caller and appending the lines emitted.
    pub fn print_dependencies_recursive(
        &self,
        package: &Package,
        depth: usize,
        max_depth: usize,
        visited_nodes: &mut Vec<usize>,
        printed_packages: &mut Vec<String>,
        lines: &mut Vec<String>,
    )
        ensures
            state_of(
                final(visited_nodes)@,
                final(printed_packages).deep_view(),
                final(lines).deep_view(),
            ) == render_node(
                self.raw(),
                package@.name,
                package@.url,
                depth as nat,
                max_depth as nat,
                state_of(
                    old(visited_nodes)@,
                    old(printed_packages).deep_view(),
                    old(lines).deep_view(),
                ),
            ),
            (depth < max_depth && nodes_of(self.raw()).len() == 1 && nodes_of(self.raw())[0] == (
            package@.name,
            package@.url,
            ) && edges_of(self.raw()).len() == 0 && !visited_view(old(visited_nodes)@).contains(0)
                && (!printed_view(old(printed_packages).deep_view()).contains(package@.name)
                || max_depth > 2)) ==> final(lines).deep_view() == old(lines).deep_view().push(
                line_of(depth as nat, package@.name, package@.url),
            ),
            (depth + 1 == max_depth && (find_from(
                nodes_of(self.raw()),
                (package@.name, package@.url),
                0,
            ) matches Some(fx) && !visited_view(old(visited_nodes)@).contains(fx)) && (
            !printed_view(old(printed_packages).deep_view()).contains(package@.name) || max_depth
                > 2)) ==> final(lines).deep_view() == old(lines).deep_view().push(
                line_of(depth as nat, package@.name, package@.url),
            ),
        decreases max_depth - depth,
    {
        let ghost st = state_of(
            old(visited_nodes)@,
            old(printed_packages).deep_view(),
            old(lines).deep_view(),
        );
        if depth >= max_depth {
            return ;
        }
        let node_opt = self.find_node(&package.name, &package.url);
        let ix = match node_opt {
            None => {
                return ;
            },
            Some(ix) => ix,
        };
        proof {
            lemma_find_from_range(self.nodes(), (package@.name, package@.url), 0);
        }
        if contains_index(visited_nodes, ix) {
            return ;
        }
        visited_nodes.push(ix);
        proof {
            lemma_visited_view_push(old(visited_nodes)@, ix);
        }
        let already = contains_name(printed_packages, &package.name);
        if already && max_depth <= 2 {
            return ;
        }
        if !already {
            printed_packages.push(package.name.clone());
            proof {
                lemma_printed_view_push(old(printed_packages).deep_view(), package@.name);
                assert(printed_packages.deep_view() =~= old(printed_packages).deep_view().push(
                    package@.name,
                ));
            }
        } else {
            proof {
                assert(printed_view(printed_packages.deep_view()).insert(package@.name)
                    =~= printed_view(printed_packages.deep_view()));
            }
        }
        let line = render_line(depth, &package.name, &package.url);
        lines.push(line);
        proof {
            assert(lines.deep_view() =~= old(lines).deep_view().push(
                line_of(depth as nat, package@.name, package@.url),
            ));
        }
        let ghost st2 = RenderState {
            visited: st.visited.insert(ix as int),
            printed: st.printed.insert(package@.name),
            lines: st.lines.push(line_of(depth as nat, package@.name, package@.url)),
        };
        assert(state_of(visited_nodes@, printed_packages.deep_view(), lines.deep_view()) == st2);

        let order = dfs_from(&self.graph, ix);
        let ghost lst = dfs_of(self.raw(), ix as int);
        assert(lst.len() == order@.len());
        let mut k: usize = 0;
        while k < order.len()
            invariant
                k <= order@.len(),
                lst == dfs_of(self.raw(), ix as int),
                lst == order@.map_values(|x: usize| x as int),
                forall|i: int| 0 <= i < order@.len() ==> (order@[i] as int) < self.nodes().len(),
                depth < max_depth,
                render_list(
                    self.raw(),
                    lst,
                    k as int,
                    (depth + 1) as nat,
                    max_depth as nat,
                    state_of(visited_nodes@, printed_packages.deep_view(), lines.deep_view()),
                ) == render_list(
                    self.raw(),
                    lst,
                    0,
                    (depth + 1) as nat,
                    max_depth as nat,
                    st2,
                ),
            decreases order@.len() - k,
        {
            let node_ix = order[k];
            let w = graph_node_get(&self.graph, node_ix);
            let neighbor = Package::new(w.0, w.1, Vec::new(), false);
            let ghost before = state_of(
                visited_nodes@,
                printed_packages.deep_view(),
                lines.deep_view(),
            );
            self.print_dependencies_recursive(
                &neighbor,
                depth + 1,
                max_depth,
                visited_nodes,
                printed_packages,
                lines,
            );
            proof {
                assert(lst[k as int] == node_ix as int);
                assert(nodes_of(self.raw())[node_ix as int] == (neighbor@.name, neighbor@.url));
                assert(render_list(
                    self.raw(),
                    lst,
                    k as int,
                    (depth + 1) as nat,
                    max_depth as nat,
                    before,
                ) == render_list(
                    self.raw(),
                    lst,
                    k + 1,
                    (depth + 1) as nat,
                    max_depth as nat,
                    state_of(visited_nodes@, printed_packages.deep_view(), lines.deep_view()),
                ));
            }
            k = k + 1;
        }
        proof {
            assert(render_list(
                self.raw(),
                lst,
                lst.len() as int,
                (depth + 1) as nat,
                max_depth as nat,
                state_of(visited_nodes@, printed_packages.deep_view(), lines.deep_view()),
            ) == state_of(visited_nodes@, printed_packages.deep_view(), lines.deep_view()));
            if depth + 1 == max_depth {
                lemma_render_list_at_max(
                    self.raw(),
                    lst,
                    0,
                    (depth + 1) as nat,
                    max_depth as nat,
                    st2,
                );
            }
            if nodes_of(self.raw()).len() == 1 && edges_of(self.raw()).len() == 0 {
                assert forall|i: int| 0 <= i < order@.len() implies order@[i] == ix by {
                    lemma_reachable_no_edges(
                        edges_of(self.raw()),
                        ix as int,
                        order@[i] as int,
                    );
                }
                if order@.len() >= 2 {
                    assert(order@[0] == ix && order@[1] == ix);
                    assert(false);
                }
                assert(lst =~= seq![ix as int]);
                assert(nodes_of(self.raw())[ix as int] == (package@.name, package@.url));
                assert(st2.visited.contains(ix as int));
                if depth + 1 < max_depth {
                    assert(render_node(
                        self.raw(),
                        package@.name,
                        package@.url,
                        (depth + 1) as nat,
                        max_depth as nat,
                        st2,
                    ) == st2);
                }
                assert(render_list(
                    self.raw(),
                    lst,
                    1,
                    (depth + 1) as nat,
                    max_depth as nat,
                    st2,
                ) == st2);
                assert(render_list(
                    self.raw(),
                    lst,
                    0,
                    (depth + 1) as nat,
                    max_depth as nat,
                    st2,
                ) == st2);
            }
        }
    }

    /// The DOT text of the graph.
    pub fn to_dot(&self) -> (r: String)
        ensures
            r@ == dot_of(self.raw()),
    {
        graph_dot(&self.graph)
    }
}

} // verus!
