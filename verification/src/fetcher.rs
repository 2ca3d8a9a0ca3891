//! The depth-bounded traversal that builds the visited cache and the
//! dependency graph. The traversal is driven from outside: `next_action`
//! says which package to look up next, the driver answers through
//! `provide`, and no package name is ever requested twice.

use vstd::prelude::*;

use crate::dependency_graph::{
    find_from, insert_missing_deps, lemma_find_from_range, nodes_after_package,
    package_node_index, DependencyGraph,
};
use crate::package::{
    clone_pairs, filter_dependencies, is_internal_name, name_is_internal, selected_deps,
    DeclaredDep, DeclaredDepView, Package, PackageView,
};

verus! {

/// The registry's answer for one package: its homepage, if any, and its
/// declared dependencies.
pub struct CrateMeta {
    pub homepage: Option<String>,
    pub dependencies: Vec<DeclaredDep>,
}

/// The mathematical content of a registry answer.
#[verifier::ext_equal]
pub ghost struct CrateMetaView {
    pub homepage: Option<Seq<char>>,
    pub dependencies: Seq<DeclaredDepView>,
}

impl View for CrateMeta {
    type V = CrateMetaView;

    open spec fn view(&self) -> CrateMetaView {
        CrateMetaView {
            homepage: match self.homepage {
                Some(u) => Some(u@),
                None => None,
            },
            dependencies: self.dependencies.deep_view(),
        }
    }
}

/// What the fetcher asks of its driver next.
pub enum Action {
    /// Look this package up in the registry and answer through `provide`.
    Fetch(String),
    /// Internal work was done; ask again.
    Continue,
    /// The traversal is complete.
    Finished,
}

/// The mathematical content of an action.
pub ghost enum ActionView {
    Fetch(Seq<char>),
    Continue,
    Finished,
}

impl View for Action {
    type V = ActionView;

    open spec fn view(&self) -> ActionView {
        match self {
            Action::Fetch(n) => ActionView::Fetch(n@),
            Action::Continue => ActionView::Continue,
            Action::Finished => ActionView::Finished,
        }
    }
}

/// One level of the traversal: a package whose selected dependencies are
/// being expanded in order. The frame at the bottom is virtual: it has no
/// node and no package, and its single dependency is the root.
struct Frame {
    node: Option<usize>,
    pkg: Option<Package>,
    deps: Vec<(String, String)>,
    next: usize,
    depth: usize,
}

/// The mathematical content of a frame.
#[verifier::ext_equal]
pub ghost struct FrameView {
    pub node: Option<int>,
    pub pkg: Option<PackageView>,
    pub deps: Seq<(Seq<char>, Seq<char>)>,
    pub next: int,
    pub depth: int,
}

impl View for Frame {
    type V = FrameView;

    closed spec fn view(&self) -> FrameView {
        FrameView {
            node: match self.node {
                Some(i) => Some(i as int),
                None => None,
            },
            pkg: match self.pkg {
                Some(p) => Some(p@),
                None => None,
            },
            deps: self.deps.deep_view(),
            next: self.next as int,
            depth: self.depth as int,
        }
    }
}

/// The whole traversal state, mathematically: the visited cache in
/// insertion order, the graph's nodes and edges, the frame stack, the
/// name whose answer is awaited, the root package once resolved, whether
/// the traversal is over, and the selection mode.
#[verifier::ext_equal]
pub ghost struct FetchView {
    pub visited: Seq<PackageView>,
    pub nodes: Seq<(Seq<char>, Seq<char>)>,
    pub edges: Seq<(int, int)>,
    pub frames: Seq<FrameView>,
    pub pending: Option<Seq<char>>,
    pub root: Option<PackageView>,
    pub done: bool,
    pub optional: bool,
}

/// The first cached package with the given name at or after `i`, if any.
pub open spec fn find_visited(
    vis: Seq<PackageView>,
    name: Seq<char>,
    i: int,
) -> Option<PackageView>
    decreases vis.len() - i,
{
    if i < 0 || i >= vis.len() {
        None
    } else if vis[i].name == name {
        Some(vis[i])
    } else {
        find_visited(vis, name, i + 1)
    }
}

/// The names of the cached packages.
pub open spec fn visited_names(vis: Seq<PackageView>) -> Set<Seq<char>> {
    Set::new(|n: Seq<char>| exists|i: int| 0 <= i < vis.len() && vis[i].name == n)
}

/// Links a finished or cached child package into the frame on top: under
/// the virtual root frame the child becomes the traversal's result; under
/// a package frame the child (with its missing dependency tuples) is added
/// to the graph and one "depends" edge runs from the frame's node to the
/// child's. Either way the frame moves on to its next dependency.
pub open spec fn link_into_top(s: FetchView, child: PackageView) -> FetchView
    recommends
        s.frames.len() > 0,
{
    let g = s.frames.last();
    let advanced = FrameView { next: g.next + 1, ..g };
    let frames2 = s.frames.update(s.frames.len() - 1, advanced);
    match g.node {
        None => FetchView { root: Some(child), frames: frames2, ..s },
        Some(pn) => {
            let pair = (child.name, child.url);
            let idx = package_node_index(s.nodes, pair);
            let folded = insert_missing_deps(
                nodes_after_package(s.nodes, pair),
                s.edges,
                idx,
                child.dependencies,
                0,
            );
            FetchView {
                nodes: folded.0,
                edges: folded.1.push((pn, idx)),
                frames: frames2,
                ..s
            }
        },
    }
}

/// One step of a traversal that is neither done nor awaiting an answer:
/// finish when no frames are left; pop an exhausted frame and link its
/// package into the frame below; link a cached dependency directly; or
/// request the fetch of an unvisited one.
pub open spec fn step_spec(s: FetchView) -> (FetchView, ActionView) {
    if s.frames.len() == 0 {
        (FetchView { done: true, ..s }, ActionView::Finished)
    } else {
        let f = s.frames.last();
        if f.next >= f.deps.len() {
            let popped = FetchView { frames: s.frames.drop_last(), ..s };
            match f.node {
                None => (FetchView { done: true, ..popped }, ActionView::Finished),
                Some(_) => match f.pkg {
                    Some(p) => (link_into_top(popped, p), ActionView::Continue),
                    None => (popped, ActionView::Continue),
                },
            }
        } else {
            let d = f.deps[f.next];
            match find_visited(s.visited, d.0, 0) {
                Some(p) => (link_into_top(s, p), ActionView::Continue),
                None => (FetchView { pending: Some(d.0), ..s }, ActionView::Fetch(d.0)),
            }
        }
    }
}

/// The state after the registry's answer for the pending package: the
/// package is built from the answer, with the dependencies the selection
/// mode keeps, the homepage defaulting to the empty string, and the
/// internal mark from its name; it is cached, added to the graph with its
/// dependency tuples, and gets a frame of its own, with dependencies to
/// expand exactly when its remaining budget is above one.
pub open spec fn provide_spec(s: FetchView, meta: CrateMetaView) -> FetchView
    recommends
        s.pending is Some,
        s.frames.len() > 0,
        s.frames.last().depth >= 1,
{
    let name = s.pending->Some_0;
    let url = match meta.homepage {
        Some(u) => u,
        None => Seq::empty(),
    };
    let deps_sel = selected_deps(meta.dependencies, s.optional);
    let pkg = PackageView {
        name: name,
        url: url,
        dependencies: deps_sel,
        internal: is_internal_name(name),
    };
    let pair = (pkg.name, pkg.url);
    let idx = package_node_index(s.nodes, pair);
    let folded = insert_missing_deps(
        nodes_after_package(s.nodes, pair),
        s.edges,
        idx,
        deps_sel,
        0,
    );
    let budget = s.frames.last().depth - 1;
    let frame = FrameView {
        node: Some(idx),
        pkg: Some(pkg),
        deps: if budget > 1 {
            deps_sel
        } else {
            Seq::empty()
        },
        next: 0,
        depth: budget,
    };
    FetchView {
        visited: s.visited.push(pkg),
        nodes: folded.0,
        edges: folded.1,
        frames: s.frames.push(frame),
        pending: None,
        ..s
    }
}

/// The state a traversal starts from: an empty cache and graph, and one
/// virtual frame whose single dependency is the root package and whose
/// budget is one above the requested depth, so that the root itself is
/// fetched even at depth zero.
pub open spec fn initial_view(name: Seq<char>, depth: int, optional: bool) -> FetchView {
    FetchView {
        visited: Seq::empty(),
        nodes: Seq::empty(),
        edges: Seq::empty(),
        frames: seq![
            FrameView {
                node: None,
                pkg: None,
                deps: seq![(name, Seq::<char>::empty())],
                next: 0,
                depth: depth + 1,
            },
        ],
        pending: None,
        root: None,
        done: false,
        optional: optional,
    }
}

/// The invariant every reachable traversal state satisfies.
pub open spec fn inv(s: FetchView) -> bool {
    &&& (s.frames.len() > 0 ==> s.frames[0].node is None)
    &&& forall|i: int| 1 <= i < s.frames.len() ==> (#[trigger] s.frames[i]).node is Some
    &&& forall|i: int|
        0 <= i < s.frames.len() ==> ((#[trigger] s.frames[i]).node is Some <==> s.frames[i].pkg
            is Some)
    &&& forall|i: int|
        0 <= i < s.frames.len() ==> 0 <= (#[trigger] s.frames[i]).next <= s.frames[i].deps.len()
    &&& forall|i: int|
        0 <= i < s.frames.len() - 1 ==> (#[trigger] s.frames[i]).next < s.frames[i].deps.len()
    &&& forall|i: int|
        0 <= i < s.frames.len() ==> (s.frames[i].deps.len() > 0 ==> (
        #[trigger] s.frames[i]).depth >= 1)
    &&& forall|i: int|
        0 <= i < s.frames.len() ==> ((#[trigger] s.frames[i]).node matches Some(n) ==> 0 <= n
            < s.nodes.len())
    &&& forall|i: int| 0 <= i < s.frames.len() ==> (#[trigger] s.frames[i]).depth >= 0
    &&& forall|i: int|
        0 <= i < s.frames.len() - 1 ==> (#[trigger] s.frames[i + 1]).depth < s.frames[i].depth
    &&& (s.pending matches Some(n) ==> {
        &&& s.frames.len() > 0
        &&& s.frames.last().next < s.frames.last().deps.len()
        &&& s.frames.last().deps[s.frames.last().next].0 == n
        &&& !visited_names(s.visited).contains(n)
        &&& s.frames.last().depth >= 1
    })
    &&& forall|i: int, j: int|
        0 <= i < j < s.visited.len() ==> (#[trigger] s.visited[i]).name != (
        #[trigger] s.visited[j]).name
}

/// Folding dependency tuples into the graph never removes nodes or edges.
proof fn lemma_insert_missing_grows(
    nodes: Seq<(Seq<char>, Seq<char>)>,
    edges: Seq<(int, int)>,
    idx: int,
    deps: Seq<(Seq<char>, Seq<char>)>,
    i: int,
)
    ensures
        insert_missing_deps(nodes, edges, idx, deps, i).0.len() >= nodes.len(),
        insert_missing_deps(nodes, edges, idx, deps, i).1.len() >= edges.len(),
    decreases deps.len() - i,
{
    if !(i < 0 || i >= deps.len()) {
        if find_from(nodes, deps[i], 0) is Some {
            lemma_insert_missing_grows(nodes, edges, idx, deps, i + 1);
        } else {
            lemma_insert_missing_grows(
                nodes.push(deps[i]),
                edges.push((idx, nodes.len() as int)),
                idx,
                deps,
                i + 1,
            );
        }
    }
}

/// The node a package gets lies inside the folded node list.
proof fn lemma_package_node_in_range(
    nodes: Seq<(Seq<char>, Seq<char>)>,
    edges: Seq<(int, int)>,
    idx: int,
    p: (Seq<char>, Seq<char>),
    deps: Seq<(Seq<char>, Seq<char>)>,
)
    requires
        idx == package_node_index(nodes, p),
    ensures
        0 <= idx < insert_missing_deps(nodes_after_package(nodes, p), edges, idx, deps, 0).0.len(),
{
    if find_from(nodes, p, 0) is Some {
        lemma_find_from_range(nodes, p, 0);
    }
    lemma_insert_missing_grows(nodes_after_package(nodes, p), edges, idx, deps, 0);
}

/// Caching a package adds exactly its name to the visited names.
proof fn lemma_visited_names_push(vis: Seq<PackageView>, p: PackageView)
    ensures
        visited_names(vis.push(p)) == visited_names(vis).insert(p.name),
{
    assert forall|n: Seq<char>| visited_names(vis).insert(p.name).contains(n) implies visited_names(
        vis.push(p),
    ).contains(n) by {
        if n == p.name {
            assert(vis.push(p)[vis.len() as int].name == n);
        } else {
            let j = choose|j: int| 0 <= j < vis.len() && vis[j].name == n;
            assert(vis.push(p)[j].name == n);
        }
    }
    assert forall|n: Seq<char>| visited_names(vis.push(p)).contains(n) implies visited_names(
        vis,
    ).insert(p.name).contains(n) by {
        let j = choose|j: int| 0 <= j < vis.push(p).len() && vis.push(p)[j].name == n;
        if j < vis.len() {
            assert(vis[j].name == n);
        }
    }
    assert(visited_names(vis.push(p)) =~= visited_names(vis).insert(p.name));
}

/// A found cache entry bears the name searched for, and a cached name is
/// always found.
proof fn lemma_find_visited_names(vis: Seq<PackageView>, name: Seq<char>, i: int)
    ensures
        find_visited(vis, name, i) matches Some(p) ==> p.name == name,
        i == 0 ==> ((find_visited(vis, name, 0) is Some) <==> visited_names(vis).contains(name)),
    decreases vis.len() - i,
{
    if !(i < 0 || i >= vis.len()) && vis[i].name != name {
        lemma_find_visited_names(vis, name, i + 1);
    }
    if i == 0 {
        lemma_find_visited_scan(vis, name, 0);
        if visited_names(vis).contains(name) {
            let j = choose|j: int| 0 <= j < vis.len() && vis[j].name == name;
            assert(find_visited(vis, name, 0) is Some);
        }
    }
}

/// A scan that comes back empty saw no entry with the name.
proof fn lemma_find_visited_scan(vis: Seq<PackageView>, name: Seq<char>, i: int)
    requires
        i >= 0,
    ensures
        find_visited(vis, name, i) is None ==> forall|j: int|
            i <= j < vis.len() ==> (#[trigger] vis[j]).name != name,
        find_visited(vis, name, i) is Some ==> exists|j: int|
            i <= j < vis.len() && (#[trigger] vis[j]).name == name,
    decreases vis.len() - i,
{
    if !(i < 0 || i >= vis.len()) {
        lemma_find_visited_scan(vis, name, i + 1);
        if vis[i].name == name {
            assert(i <= i < vis.len() && (#[trigger] vis[i]).name == name);
        } else if find_visited(vis, name, i + 1) is Some {
            let j = choose|j: int| i + 1 <= j < vis.len() && (#[trigger] vis[j]).name == name;
            assert(i <= j < vis.len() && vis[j].name == name);
        } else {
            assert forall|j: int| i <= j < vis.len() implies (#[trigger] vis[j]).name != name by {
                if j != i {
                    assert(vis[j].name != name);
                }
            }
        }
    }
}

/// A step preserves the invariant, leaves the cache as it is, and requests
/// a fetch only for a name that is not cached, recording it as pending.
pub proof fn lemma_step_preserves_inv(s: FetchView)
    requires
        inv(s),
        !s.done,
        s.pending is None,
    ensures
        inv(step_spec(s).0),
        step_spec(s).0.visited == s.visited,
        step_spec(s).0.optional == s.optional,
        step_spec(s).1 matches ActionView::Fetch(n) ==> !visited_names(s.visited).contains(n)
            && step_spec(s).0.pending == Some(n),
        !(step_spec(s).1 is Fetch) ==> step_spec(s).0.pending is None,
{
    if s.frames.len() == 0 {
    } else {
        let f = s.frames.last();
        if f.next >= f.deps.len() {
            let popped = FetchView { frames: s.frames.drop_last(), ..s };
            match f.node {
                None => {
                    assert(s.frames.len() == 1);
                },
                Some(fn_) => {
                    assert(s.frames.len() >= 2);
                    let p = f.pkg->Some_0;
                    lemma_link_into_top_inv(popped, p);
                },
            }
        } else {
            let d = f.deps[f.next];
            match find_visited(s.visited, d.0, 0) {
                Some(p) => {
                    lemma_link_into_top_inv(s, p);
                },
                None => {
                    lemma_find_visited_names(s.visited, d.0, 0);
                },
            }
        }
    }
}

/// Linking a child into the top frame preserves the invariant and the
/// cache.
proof fn lemma_link_into_top_inv(s: FetchView, child: PackageView)
    requires
        inv(s),
        s.pending is None,
        s.frames.len() > 0,
        s.frames.last().next < s.frames.last().deps.len(),
    ensures
        inv(link_into_top(s, child)),
        link_into_top(s, child).visited == s.visited,
        link_into_top(s, child).pending is None,
{
    let g = s.frames.last();
    let s2 = link_into_top(s, child);
    match g.node {
        None => {},
        Some(pn) => {
            let pair = (child.name, child.url);
            let idx = package_node_index(s.nodes, pair);
            lemma_insert_missing_grows(
                nodes_after_package(s.nodes, pair),
                s.edges,
                idx,
                child.dependencies,
                0,
            );
            assert(s2.nodes.len() >= s.nodes.len());
        },
    }
    assert forall|i: int| 1 <= i < s2.frames.len() implies (#[trigger] s2.frames[i]).node
        is Some by {
        assert(s.frames[i].node is Some);
    }
}

/// An answer preserves the invariant and caches exactly the pending name.
pub proof fn lemma_provide_preserves_inv(s: FetchView, meta: CrateMetaView)
    requires
        inv(s),
        s.pending is Some,
    ensures
        inv(provide_spec(s, meta)),
        visited_names(provide_spec(s, meta).visited) == visited_names(s.visited).insert(
            s.pending->Some_0,
        ),
        provide_spec(s, meta).pending is None,
        provide_spec(s, meta).optional == s.optional,
{
    let s2 = provide_spec(s, meta);
    let name = s.pending->Some_0;
    let deps_sel = selected_deps(meta.dependencies, s.optional);
    let url = match meta.homepage {
        Some(u) => u,
        None => Seq::<char>::empty(),
    };
    let pkg = PackageView {
        name: name,
        url: url,
        dependencies: deps_sel,
        internal: is_internal_name(name),
    };
    lemma_visited_names_push(s.visited, pkg);
    lemma_package_node_in_range(
        s.nodes,
        s.edges,
        package_node_index(s.nodes, (name, url)),
        (name, url),
        deps_sel,
    );
    lemma_insert_missing_grows(
        nodes_after_package(s.nodes, (name, url)),
        s.edges,
        package_node_index(s.nodes, (name, url)),
        deps_sel,
        0,
    );
    assert forall|i: int, j: int| 0 <= i < j < s2.visited.len() implies (
    #[trigger] s2.visited[i]).name != (#[trigger] s2.visited[j]).name by {
        if j < s.visited.len() {
        } else {
            assert(s2.visited[j].name == name);
            assert(!visited_names(s.visited).contains(name));
            if s2.visited[i].name == name {
                assert(visited_names(s.visited).contains(name));
            }
        }
    }
    assert forall|i: int| 1 <= i < s2.frames.len() implies (#[trigger] s2.frames[i]).node
        is Some by {
        if i < s.frames.len() {
            assert(s.frames[i].node is Some);
        }
    }
    assert forall|i: int|
        0 <= i < s2.frames.len() - 1 implies (#[trigger] s2.frames[i]).next
        < s2.frames[i].deps.len() by {
        if i < s.frames.len() - 1 {
            assert(s.frames[i].next < s.frames[i].deps.len());
        } else {
            assert(i == s.frames.len() - 1);
            assert(s2.frames[i] == s.frames.last());
        }
    }
}

/// Within a stack, each frame's budget lies under the frame below it.
proof fn lemma_depth_chain(s: FetchView, i: int)
    requires
        inv(s),
        0 <= i < s.frames.len(),
    ensures
        s.frames[i].depth <= s.frames[0].depth - i,
    decreases i,
{
    if i > 0 {
        lemma_depth_chain(s, i - 1);
        assert(s.frames[(i - 1) + 1].depth < s.frames[i - 1].depth);
    }
}

/// The frame stack never grows past one more than the bottom frame's
/// budget, whatever the registry answers: the traversal's expansion depth
/// is bounded by the depth it was asked for.
pub proof fn lemma_stack_bounded(s: FetchView)
    requires
        inv(s),
        s.frames.len() > 0,
    ensures
        s.frames.len() <= s.frames[0].depth + 1,
{
    lemma_depth_chain(s, s.frames.len() - 1);
}

/// One driver turn: a call of `next_action` where one is allowed, or an
/// answer to a pending fetch.
pub ghost enum Turn {
    Step,
    Answer(CrateMetaView),
}

/// The state after one turn, and the name requested if the turn issued a
/// fetch. A turn the driver protocol does not allow changes nothing.
pub open spec fn apply_turn(s: FetchView, t: Turn) -> (FetchView, Option<Seq<char>>) {
    match t {
        Turn::Step => if !s.done && s.pending is None {
            let r = step_spec(s);
            (
                r.0,
                match r.1 {
                    ActionView::Fetch(n) => Some(n),
                    _ => None,
                },
            )
        } else {
            (s, None)
        },
        Turn::Answer(m) => if s.pending is Some {
            (provide_spec(s, m), None)
        } else {
            (s, None)
        },
    }
}

/// The names requested over a sequence of turns, in order.
pub open spec fn requests(s: FetchView, ts: Seq<Turn>) -> Seq<Seq<char>>
    decreases ts.len(),
{
    if ts.len() == 0 {
        Seq::empty()
    } else {
        let r = apply_turn(s, ts[0]);
        (match r.1 {
            Some(n) => seq![n],
            None => Seq::<Seq<char>>::empty(),
        }) + requests(r.0, ts.drop_first())
    }
}

/// The names a state already accounts for: the cached ones, and the one
/// awaiting its answer, if any.
pub open spec fn accounted(s: FetchView) -> Set<Seq<char>> {
    match s.pending {
        Some(n) => visited_names(s.visited).insert(n),
        None => visited_names(s.visited),
    }
}

/// A turn preserves the invariant, and never drops an accounted name.
proof fn lemma_turn_preserves(s: FetchView, t: Turn)
    requires
        inv(s),
    ensures
        inv(apply_turn(s, t).0),
        accounted(s).subset_of(accounted(apply_turn(s, t).0)),
        apply_turn(s, t).1 matches Some(n) ==> !accounted(s).contains(n) && accounted(
            apply_turn(s, t).0,
        ).contains(n),
{
    let s2 = apply_turn(s, t).0;
    match t {
        Turn::Step => {
            if !s.done && s.pending is None {
                lemma_step_preserves_inv(s);
                match step_spec(s).1 {
                    ActionView::Fetch(n) => {
                        assert(accounted(s2) == visited_names(s.visited).insert(n));
                    },
                    _ => {},
                }
            }
        },
        Turn::Answer(m) => {
            if s.pending is Some {
                lemma_provide_preserves_inv(s, m);
                assert(accounted(s2) =~= accounted(s));
            }
        },
    }
}

/// Over any sequence of driver turns from a state that satisfies the
/// invariant, every requested package name is new — neither cached nor
/// already awaiting an answer — and no name is requested twice: each
/// package costs at most one registry call, however often it occurs in
/// the dependency tree, and a dependency cycle cannot make the traversal
/// request a package again.
pub proof fn lemma_each_name_fetched_at_most_once(s: FetchView, ts: Seq<Turn>)
    requires
        inv(s),
    ensures
        forall|a: int|
            0 <= a < requests(s, ts).len() ==> !accounted(s).contains(
                #[trigger] requests(s, ts)[a],
            ),
        forall|a: int, b: int|
            0 <= a < b < requests(s, ts).len() ==> requests(s, ts)[a] != requests(s, ts)[b],
    decreases ts.len(),
{
    if ts.len() > 0 {
        let r = apply_turn(s, ts[0]);
        let s2 = r.0;
        lemma_turn_preserves(s, ts[0]);
        lemma_each_name_fetched_at_most_once(s2, ts.drop_first());
        let tail = requests(s2, ts.drop_first());
        let whole = requests(s, ts);
        match r.1 {
            Some(n) => {
                assert(whole == seq![n] + tail);
                assert(whole[0] == n);
                assert forall|a: int| 0 <= a < whole.len() implies !accounted(s).contains(
                    #[trigger] whole[a],
                ) by {
                    if a == 0 {
                    } else {
                        assert(whole[a] == tail[a - 1]);
                        assert(!accounted(s2).contains(tail[a - 1]));
                    }
                }
                assert forall|a: int, b: int|
                    0 <= a < b < whole.len() implies whole[a] != whole[b] by {
                    if a == 0 {
                        assert(whole[b] == tail[b - 1]);
                        assert(!accounted(s2).contains(tail[b - 1]));
                        assert(accounted(s2).contains(n));
                    } else {
                        assert(whole[a] == tail[a - 1]);
                        assert(whole[b] == tail[b - 1]);
                    }
                }
            },
            None => {
                assert(whole == Seq::<Seq<char>>::empty() + tail);
                assert(whole =~= tail);
            },
        }
    }
}

impl DeepView for Frame {
    type V = FrameView;

    closed spec fn deep_view(&self) -> FrameView {
        self.view()
    }
}

/// The first cached package with the given name, copied out.
fn find_cached(v: &Vec<Package>, name: &String) -> (r: Option<Package>)
    ensures
        match r {
            Some(p) => find_visited(v.deep_view(), name@, 0) == Some(p@),
            None => find_visited(v.deep_view(), name@, 0) is None,
        },
{
    let mut j: usize = 0;
    while j < v.len()
        invariant
            j <= v@.len(),
            v.deep_view().len() == v@.len(),
            find_visited(v.deep_view(), name@, 0) == find_visited(v.deep_view(), name@, j as int),
        decreases v@.len() - j,
    {
        proof {
            assert(v.deep_view()[j as int] == v@[j as int]@);
        }
        if v[j].name.eq(name) {
            let c = v[j].duplicate();
            return Some(c);
        }
        j = j + 1;
    }
    None
}

/// The traversal state: the visited cache, the graph under construction,
/// the frame stack, the pending request, and the root result.
pub struct Fetcher {
    visited: Vec<Package>,
    graph: DependencyGraph,
    frames: Vec<Frame>,
    pending: Option<String>,
    root: Option<Package>,
    done: bool,
    optional: bool,
}

impl View for Fetcher {
    type V = FetchView;

    closed spec fn view(&self) -> FetchView {
        FetchView {
            visited: self.visited.deep_view(),
            nodes: self.graph.nodes(),
            edges: self.graph.edges(),
            frames: self.frames.deep_view(),
            pending: match self.pending {
                Some(n) => Some(n@),
                None => None,
            },
            root: match self.root {
                Some(p) => Some(p@),
                None => None,
            },
            done: self.done,
            optional: self.optional,
        }
    }
}

impl Fetcher {
    /// The state satisfies the traversal invariant.
    pub open spec fn wf(&self) -> bool {
        inv(self@)
    }

    /// Starts a traversal of `package_name` with the given depth budget
    /// and selection mode.
    pub fn new(package_name: &str, depth: usize, optional: bool) -> (r: Fetcher)
        requires
            package_name@.len() > 0,
            depth < usize::MAX,
        ensures
            r@ == initial_view(package_name@, depth as int, optional),
            r.wf(),
    {
        let mut deps: Vec<(String, String)> = Vec::new();
        deps.push((package_name.to_owned(), String::new()));
        let mut frames: Vec<Frame> = Vec::new();
        frames.push(Frame { node: None, pkg: None, deps, next: 0, depth: depth + 1 });
        let r = Fetcher {
            visited: Vec::new(),
            graph: DependencyGraph::new(),
            frames,
            pending: None,
            root: None,
            done: false,
            optional: optional,
        };
        proof {
            let iv = initial_view(package_name@, depth as int, optional);
            assert(r@.visited =~= iv.visited);
            assert(r@.frames[0].deps =~= iv.frames[0].deps);
            assert(r@.frames[0] =~~= iv.frames[0]);
            assert(r@.frames =~~= iv.frames);
            assert(r@ =~~= iv);
        }
        r
    }

    /// Links a finished or cached child package into the frame on top.
    fn link_child(&mut self, child: &Package)
        requires
            old(self)@.frames.len() > 0,
            old(self)@.frames.last().next < old(self)@.frames.last().deps.len(),
            (old(self)@.frames.last().node matches Some(n) ==> 0 <= n
                < old(self)@.nodes.len()),
        ensures
            final(self)@ == link_into_top(old(self)@, child@),
    {
        let ghost s0 = self@;
        let ghost frames0 = self.frames.deep_view();
        let mut f = match self.frames.pop() {
            Some(f) => f,
            None => {
                proof {
                    assert(false);
                }
                Frame { node: None, pkg: None, deps: Vec::new(), next: 0, depth: 0 }
            },
        };
        proof {
            assert(self.frames.deep_view() =~= frames0.drop_last());
            assert(f@ == frames0.last());
        }
        match f.node {
            None => {
                self.root = Some(child.duplicate());
            },
            Some(pn) => {
                let ghost pair = (child@.name, child@.url);
                let ghost idx = package_node_index(s0.nodes, pair);
                proof {
                    lemma_package_node_in_range(
                        s0.nodes,
                        s0.edges,
                        idx,
                        pair,
                        child@.dependencies,
                    );
                    lemma_insert_missing_grows(
                        nodes_after_package(s0.nodes, pair),
                        s0.edges,
                        idx,
                        child@.dependencies,
                        0,
                    );
                }
                let ci = self.graph.add_package_to_graph(child);
                self.graph.add_dependency_edge(pn, ci);
            },
        }
        proof {
            assert(f@.next < f@.deps.len());
            assert(f.deps.deep_view().len() == f.deps@.len());
        }
        if f.next < f.deps.len() {
            f.next = f.next + 1;
        } else {
            proof {
                assert(false);
            }
        }
        self.frames.push(f);
        proof {
            let advanced = FrameView { next: frames0.last().next + 1, ..frames0.last() };
            assert(f@ =~~= advanced);
            assert(self.frames.deep_view() =~~= frames0.update(frames0.len() - 1, advanced));
            assert(self@ =~~= link_into_top(s0, child@));
        }
    }

    /// Does one unit of work: finishes the traversal, pops an exhausted
    /// frame and links its package below, links a cached dependency, or
    /// asks for the fetch of a package never seen before. A fetch is only
    /// ever requested for a name that is not in the visited cache.
    pub fn next_action(&mut self) -> (r: Action)
        requires
            old(self).wf(),
            !old(self)@.done,
            old(self)@.pending is None,
        ensures
            final(self).wf(),
            (final(self)@, r@) == step_spec(old(self)@),
    {
        proof {
            lemma_step_preserves_inv(old(self)@);
        }
        let ghost s0 = self@;
        if self.frames.len() == 0 {
            self.done = true;
            proof {
                assert(self@ =~~= step_spec(s0).0);
            }
            return Action::Finished;
        }
        let li = self.frames.len() - 1;
        proof {
            assert(self.frames.deep_view()[li as int] == self.frames@[li as int]@);
        }
        if self.frames[li].next >= self.frames[li].deps.len() {
            let ghost frames0 = self.frames.deep_view();
            let f = match self.frames.pop() {
                Some(f) => f,
                None => {
                    proof {
                        assert(false);
                    }
                    Frame { node: None, pkg: None, deps: Vec::new(), next: 0, depth: 0 }
                },
            };
            proof {
                assert(self.frames.deep_view() =~= frames0.drop_last());
                assert(f@ == frames0.last());
            }
            match &f.node {
                None => {
                    self.done = true;
                    proof {
                        assert(self@ =~~= step_spec(s0).0);
                    }
                    Action::Finished
                },
                Some(_) => {
                    proof {
                        assert(frames0.last().node is Some);
                        if frames0.len() == 1 {
                            assert(s0.frames[0].node is None);
                            assert(false);
                        }
                        assert(self.frames.deep_view().len() > 0);
                    }
                    match &f.pkg {
                        Some(p) => {
                            self.link_child(p);
                            proof {
                                assert(self@ =~~= step_spec(s0).0);
                            }
                            Action::Continue
                        },
                        None => {
                            proof {
                                assert(false);
                            }
                            Action::Continue
                        },
                    }
                },
            }
        } else {
            let nx = self.frames[li].next;
            let dep_name = self.frames[li].deps[nx].0.clone();
            proof {
                assert(self.frames[li as int].deps.deep_view()[nx as int]
                    == self.frames@[li as int].deps@[nx as int].deep_view());
                assert(dep_name@ == s0.frames.last().deps[s0.frames.last().next].0);
            }
            match find_cached(&self.visited, &dep_name) {
                Some(cached) => {
                    proof {
                        lemma_find_visited_names(s0.visited, dep_name@, 0);
                    }
                    self.link_child(&cached);
                    proof {
                        assert(self@ =~~= step_spec(s0).0);
                    }
                    Action::Continue
                },
                None => {
                    self.pending = Some(dep_name.clone());
                    proof {
                        assert(self@ =~~= step_spec(s0).0);
                    }
                    Action::Fetch(dep_name)
                },
            }
        }
    }

    /// Takes the registry's answer for the package requested by the last
    /// `Fetch` action: the package is built, cached, added to the graph,
    /// and queued for expansion within the remaining depth budget.
    pub fn provide(&mut self, meta: CrateMeta)
        requires
            old(self).wf(),
            old(self)@.pending is Some,
        ensures
            final(self).wf(),
            final(self)@ == provide_spec(old(self)@, meta@),
    {
        proof {
            lemma_provide_preserves_inv(old(self)@, meta@);
        }
        let ghost s0 = self@;
        let ghost metav = meta@;
        let name = match self.pending.take() {
            Some(n) => n,
            None => {
                proof {
                    assert(false);
                }
                String::new()
            },
        };
        let ghost nm = name@;
        let CrateMeta { homepage, dependencies } = meta;
        let deps_sel = filter_dependencies(&dependencies, self.optional);
        let url = match homepage {
            Some(u) => u,
            None => String::new(),
        };
        let internal = name_is_internal(&name);
        let li = self.frames.len() - 1;
        proof {
            assert(self.frames.deep_view()[li as int] == self.frames@[li as int]@);
            assert(s0.frames.last().depth >= 1);
        }
        let parent_depth = self.frames[li].depth;
        let budget = parent_depth - 1;
        let pkg = Package::new(name, url, deps_sel, internal);
        let ghost visited0 = self.visited.deep_view();
        let dup = pkg.duplicate();
        self.visited.push(dup);
        proof {
            assert(self.visited.deep_view() =~~= visited0.push(pkg@));
        }
        let node = self.graph.add_package_to_graph(&pkg);
        let frame_deps: Vec<(String, String)> = if budget > 1 {
            clone_pairs(&pkg.dependencies)
        } else {
            Vec::new()
        };
        let ghost frames0 = self.frames.deep_view();
        self.frames.push(
            Frame { node: Some(node), pkg: Some(pkg), deps: frame_deps, next: 0, depth: budget },
        );
        proof {
            let s2 = provide_spec(s0, metav);
            assert(self.frames.deep_view().last() =~~= s2.frames.last());
            assert(self.frames.deep_view() =~~= frames0.push(s2.frames.last()));
            assert(self@ =~~= s2);
        }
    }

    /// Hands out the traversal's result: the root package, if one was
    /// resolved, and the graph that was built.
    pub fn take_result(self) -> (r: (Option<Package>, DependencyGraph))
        ensures
            (match r.0 {
                Some(p) => self@.root == Some(p@),
                None => self@.root is None,
            }),
            r.1.nodes() == self@.nodes,
            r.1.edges() == self@.edges,
    {
        (self.root, self.graph)
    }
}

} // verus!
