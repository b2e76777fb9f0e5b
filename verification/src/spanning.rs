use vstd::prelude::*;
use crate::junction::Junction;
use crate::network::{Link, Network};

verus! {

/// A routing-table record: at junction `junction`, to reach junction
/// `dest_junc`, leave by the exit whose heading is `exit`.
#[derive(PartialEq, Eq, Structural, Debug, Copy, Clone, Hash)]
pub struct Hop {
    pub junction: u32,
    pub dest_junc: u32,
    pub exit: u32,
}

impl Hop {
    pub fn from(junction: u32, dest_junc: u32, exit: u32) -> (r: Hop)
        ensures
            r == (Hop { junction, dest_junc, exit }),
    {
        Hop { junction, dest_junc, exit }
    }
}

/// The routing table: a set of hops, kept as a vector that never holds
/// the same triple twice.
pub struct Routing {
    pub hops: Vec<Hop>,
}

impl Routing {
    /// No hop triple appears twice.
    pub open spec fn wf(&self) -> bool {
        forall|i: int, j: int| 0 <= i < j < self.hops@.len() ==> self.hops@[i] != self.hops@[j]
    }

    pub fn new() -> (r: Routing)
        ensures
            r.hops@.len() == 0,
            r.wf(),
    {
        Routing { hops: Vec::new() }
    }

    /// Insert with set semantics: a hop equal to a stored one is
    /// dropped.
    pub fn insert(&mut self, h: Hop)
        ensures
            old(self).hops@.contains(h) ==> final(self).hops@ == old(self).hops@,
            !old(self).hops@.contains(h) ==> final(self).hops@ == old(self).hops@.push(h),
            old(self).wf() ==> final(self).wf(),
    {
        let mut i: usize = 0;
        while i < self.hops.len()
            invariant
                i <= self.hops@.len(),
                self == old(self),
                forall|k: int| 0 <= k < i ==> self.hops@[k] != h,
            decreases self.hops@.len() - i,
        {
            if self.hops[i] == h {
                assert(self.hops@.contains(h));
                return ;
            }
            i = i + 1;
        }
        assert(!self.hops@.contains(h));
        self.hops.push(h);
    }
}

/// A node of the DFS spanning tree: the index of its junction in the
/// network's junction store, the index of its parent node, and its
/// children in discovery order.
#[derive(Debug, Clone)]
pub struct SpanningNode {
    pub junction: usize,
    pub parent: Option<usize>,
    pub children: Vec<usize>,
}

impl SpanningNode {
    pub fn new(parent: Option<usize>, junction: usize) -> (r: SpanningNode)
        ensures
            r.parent == parent,
            r.junction == junction,
            r.children@.len() == 0,
    {
        SpanningNode { junction, parent, children: Vec::new() }
    }

    pub fn empty() -> (r: SpanningNode)
        ensures
            r.parent is None,
            r.junction == 0,
            r.children@.len() == 0,
    {
        SpanningNode { junction: 0, parent: Option::None, children: Vec::new() }
    }
}

/// The spanning tree as an arena: nodes in discovery (pre-)order, the
/// root at index 0.
#[derive(Debug, Clone)]
pub struct SpanningTree {
    pub nodes: Vec<SpanningNode>,
}

/// Structural soundness of the arena: parents come before their
/// children, children after their parents, the root alone has no
/// parent, junction indices lie in the store, and no junction appears
/// under two nodes.
pub open spec fn tree_wf(nodes: Seq<SpanningNode>, njunctions: int) -> bool {
    &&& forall|k: int|
        0 <= k < nodes.len() ==> match (#[trigger] nodes[k]).parent {
            Option::Some(p) => 0 <= p < k,
            Option::None => k == 0,
        }
    &&& forall|k: int, c: int|
        0 <= k < nodes.len() && 0 <= c < nodes[k].children@.len() ==> k < #[trigger] nodes[k].children@[c]
            < nodes.len()
    &&& forall|k: int| 0 <= k < nodes.len() ==> (#[trigger] nodes[k]).junction < njunctions
    &&& forall|k1: int, k2: int|
        0 <= k1 < k2 < nodes.len() ==> (#[trigger] nodes[k1]).junction != (
        #[trigger] nodes[k2]).junction
}

impl SpanningTree {
    pub fn empty() -> (r: SpanningTree)
        ensures
            r.nodes@.len() == 0,
    {
        SpanningTree { nodes: Vec::new() }
    }

    /// How many junctions the tree reaches.
    pub fn num_nodes(&self) -> (r: usize)
        ensures
            r == self.nodes@.len(),
    {
        self.nodes.len()
    }

    /// The node indices in depth-first pre-order, which for an arena
    /// built in discovery order is the stored order itself.
    pub fn depth_first_traversal(&self) -> (r: Vec<usize>)
        ensures
            r@.len() == self.nodes@.len(),
            forall|k: int| 0 <= k < r@.len() ==> r@[k] == k,
    {
        let mut out: Vec<usize> = Vec::new();
        let mut k: usize = 0;
        while k < self.nodes.len()
            invariant
                k <= self.nodes@.len(),
                out@.len() == k,
                forall|i: int| 0 <= i < k ==> out@[i] == i,
            decreases self.nodes@.len() - k,
        {
            out.push(k);
            k = k + 1;
        }
        out
    }
}

/// How many junctions the visited map still leaves unvisited.
pub open spec fn count_unvisited(s: Seq<bool>) -> nat
    decreases s.len(),
{
    if s.len() == 0 {
        0
    } else {
        (if s[0] {
            0nat
        } else {
            1nat
        }) + count_unvisited(s.drop_first())
    }
}

proof fn lemma_count_unvisited_mono(a: Seq<bool>, b: Seq<bool>)
    requires
        a.len() == b.len(),
        forall|i: int| 0 <= i < a.len() ==> a[i] ==> b[i],
    ensures
        count_unvisited(b) <= count_unvisited(a),
    decreases a.len(),
{
    if a.len() > 0 {
        assert(forall|i: int|
            0 <= i < a.drop_first().len() ==> a.drop_first()[i] ==> b.drop_first()[i]) by {
            assert(forall|i: int| 0 <= i < a.drop_first().len() ==> a.drop_first()[i] == a[i + 1]);
            assert(forall|i: int| 0 <= i < b.drop_first().len() ==> b.drop_first()[i] == b[i + 1]);
        }
        lemma_count_unvisited_mono(a.drop_first(), b.drop_first());
    }
}

proof fn lemma_count_unvisited_strict(a: Seq<bool>, b: Seq<bool>, w: int)
    requires
        a.len() == b.len(),
        forall|i: int| 0 <= i < a.len() ==> a[i] ==> b[i],
        0 <= w < a.len(),
        !a[w],
        b[w],
    ensures
        count_unvisited(b) < count_unvisited(a),
    decreases a.len(),
{
    assert(forall|i: int| 0 <= i < a.drop_first().len() ==> a.drop_first()[i] == a[i + 1]);
    assert(forall|i: int| 0 <= i < b.drop_first().len() ==> b.drop_first()[i] == b[i + 1]);
    if w == 0 {
        lemma_count_unvisited_mono(a.drop_first(), b.drop_first());
    } else {
        lemma_count_unvisited_strict(a.drop_first(), b.drop_first(), w - 1);
    }
}

/// Appending a fresh leaf under `node_idx` keeps the children lists in
/// step with the parent pointers.
proof fn lemma_children_linked_push(
    pre: Seq<SpanningNode>,
    post: Seq<SpanningNode>,
    node_idx: usize,
    child_idx: usize,
    njunctions: int,
)
    requires
        children_linked(pre),
        tree_wf(pre, njunctions),
        (node_idx as int) < pre.len(),
        child_idx == pre.len(),
        post.len() == pre.len() + 1,
        forall|k: int| 0 <= k < pre.len() && k != node_idx ==> post[k] == pre[k],
        post[node_idx as int].children@ == pre[node_idx as int].children@.push(child_idx),
        post[node_idx as int].parent == pre[node_idx as int].parent,
        post[node_idx as int].junction == pre[node_idx as int].junction,
        post[child_idx as int].parent == Option::Some(node_idx),
        post[child_idx as int].children@.len() == 0,
    ensures
        children_linked(post),
{
    reveal(children_linked);
    assert forall|k: int, ci: int|
        0 <= k < post.len() && 0 <= ci < post[k].children@.len() implies post[(
    #[trigger] post[k].children@[ci]) as int].parent == Option::Some(k as usize) by {
        if k == child_idx as int {
        } else if k == node_idx as int {
            if ci < pre[node_idx as int].children@.len() {
                let t = pre[node_idx as int].children@[ci];
                assert(post[k].children@[ci] == t);
                assert(pre[t as int].parent == Option::Some(node_idx));
                assert((t as int) != node_idx as int);
                assert(post[t as int] == pre[t as int]);
            } else {
                assert(post[k].children@[ci] == child_idx);
            }
        } else {
            assert(post[k] == pre[k]);
            let t = pre[k].children@[ci];
            assert(pre[t as int].parent == Option::Some(k as usize));
            assert(post[t as int].parent == pre[t as int].parent) by {
                if (t as int) != node_idx as int {
                    assert(post[t as int] == pre[t as int]);
                }
            }
        }
    }
    assert forall|c: int|
        0 <= c < post.len() implies match (#[trigger] post[c]).parent {
        Option::Some(p) => (p as int) < post.len() && post[p as int].children@.contains(c as usize),
        Option::None => true,
    } by {
        if c == child_idx as int {
            let cl = post[node_idx as int].children@;
            assert(cl[cl.len() - 1] == child_idx);
            assert(cl.contains(child_idx));
        } else {
            assert(post[c].parent == pre[c].parent) by {
                if c != node_idx as int {
                    assert(post[c] == pre[c]);
                }
            }
            match pre[c].parent {
                Option::Some(p) => {
                    assert(pre[p as int].children@.contains(c as usize));
                    if p as int == node_idx as int {
                        let w = choose|w: int|
                            0 <= w < pre[p as int].children@.len() && pre[p as int].children@[w]
                                == (c as usize);
                        assert(post[p as int].children@[w] == (c as usize));
                        assert(post[p as int].children@.contains(c as usize));
                    } else {
                        assert(post[p as int].children@ == pre[p as int].children@);
                    }
                },
                Option::None => {},
            }
        }
    }
    assert forall|k: int, ci: int, cj: int|
        0 <= k < post.len() && 0 <= ci < cj < post[k].children@.len() implies (
    #[trigger] post[k].children@[ci]) < (#[trigger] post[k].children@[cj]) by {
        if k == node_idx as int {
            assert(post[k].children@[ci] == pre[k].children@[ci]);
            if cj == post[k].children@.len() - 1 {
                assert((pre[k].children@[ci] as int) < pre.len());
                assert(post[k].children@[cj] == child_idx);
            } else {
                assert(post[k].children@[cj] == pre[k].children@[cj]);
            }
        } else if k == child_idx as int {
        } else {
            assert(post[k] == pre[k]);
        }
    }
}

/// The junction at the far side of a link entered from the junction
/// whose id is `from_id`: the destination when `from_id` is the
/// origin, the origin otherwise; nothing when the link does not
/// resolve or lacks an endpoint.
pub open spec fn dfs_other_end(links: Seq<Link>, lid: int, from_id: u32) -> Option<u32> {
    match crate::network::spec_link_at(links, lid) {
        Option::Some(l) => match (l.origin, l.destination) {
            (Option::Some(o), Option::Some(d)) => Option::Some(
                if o == from_id {
                    d
                } else {
                    o
                },
            ),
            _ => Option::None,
        },
        Option::None => Option::None,
    }
}

/// One of `parent`'s exits leads to the junction stored at index
/// `child`.
pub open spec fn junction_edge_ok(parent: Junction, child: usize, links: Seq<Link>) -> bool {
    exists|e: int|
        0 <= e < parent.links@.len() && ({
            let w = dfs_other_end(links, (#[trigger] parent.links@[e]).link_id as int, parent.id);
            &&& w is Some
            &&& w.unwrap() >= 1
            &&& w.unwrap() - 1 == child
        })
}

/// The tree edge into node `k`, if any, is a graph edge: the child's
/// junction is the far side of one of its parent junction's exits.
pub open spec fn edge_ok(
    nodes: Seq<SpanningNode>,
    junctions: Seq<Junction>,
    links: Seq<Link>,
    k: int,
) -> bool {
    if 0 <= k < nodes.len() {
        match nodes[k].parent {
            Option::Some(p) => (p as int) < nodes.len() && nodes[p as int].junction
                < junctions.len() && junction_edge_ok(
                junctions[nodes[p as int].junction as int],
                nodes[k].junction,
                links,
            ),
            Option::None => true,
        }
    } else {
        true
    }
}

/// Every tree edge is a graph edge.
pub open spec fn tree_edges_valid(
    nodes: Seq<SpanningNode>,
    junctions: Seq<Junction>,
    links: Seq<Link>,
) -> bool {
    forall|k: int| 0 <= k < nodes.len() ==> #[trigger] edge_ok(nodes, junctions, links, k)
}

/// The children lists record the parent structure exactly: a node's
/// children are precisely the nodes naming it as parent, listed in
/// increasing index order — which, for an arena built in discovery
/// order, is the order the children were discovered in.
#[verifier::opaque]
pub open spec fn children_linked(nodes: Seq<SpanningNode>) -> bool {
    &&& forall|k: int, ci: int|
        0 <= k < nodes.len() && 0 <= ci < nodes[k].children@.len() ==> nodes[(
        #[trigger] nodes[k].children@[ci]) as int].parent == Option::Some(k as usize)
    &&& forall|c: int|
        0 <= c < nodes.len() ==> match (#[trigger] nodes[c]).parent {
            Option::Some(p) => (p as int) < nodes.len() && nodes[p as int].children@.contains(
                c as usize,
            ),
            Option::None => true,
        }
    &&& forall|k: int, ci: int, cj: int|
        0 <= k < nodes.len() && 0 <= ci < cj < nodes[k].children@.len() ==> #[trigger] nodes[k].children@[ci]
            < #[trigger] nodes[k].children@[cj]
}

/// The junction index reached through exit `e` of the junction at
/// index `v`: the far side of the exit's link, when the link resolves,
/// has both endpoints, and the far side names a stored junction.
pub open spec fn exit_target(
    junctions: Seq<Junction>,
    links: Seq<Link>,
    v: int,
    e: int,
) -> Option<int> {
    if 0 <= v < junctions.len() && 0 <= e < junctions[v].links@.len() {
        match dfs_other_end(links, junctions[v].links@[e].link_id as int, junctions[v].id) {
            Option::Some(w) => if 1 <= w <= junctions.len() {
                Option::Some(w - 1)
            } else {
                Option::None
            },
            Option::None => Option::None,
        }
    } else {
        Option::None
    }
}

/// The junction at index `j` can be reached from the first junction in
/// at most `steps` exit-following hops.
pub open spec fn reachable_in(junctions: Seq<Junction>, links: Seq<Link>, j: int, steps: nat) -> bool
    decreases steps,
{
    if steps == 0 {
        j == 0
    } else {
        reachable_in(junctions, links, j, (steps - 1) as nat) || exists|v: int, e: int|
            reachable_in(junctions, links, v, (steps - 1) as nat) && #[trigger] exit_target(
                junctions,
                links,
                v,
                e,
            ) == Option::Some(j)
    }
}

/// Every junction one exit away from the junction at index `v` is
/// marked visited.
pub open spec fn neighbors_visited(
    junctions: Seq<Junction>,
    links: Seq<Link>,
    v: int,
    visited: Seq<bool>,
) -> bool {
    forall|e: int|
        match #[trigger] exit_target(junctions, links, v, e) {
            Option::Some(w) => 0 <= w < visited.len() && visited[w],
            Option::None => true,
        }
}

proof fn lemma_neighbors_visited_mono(
    junctions: Seq<Junction>,
    links: Seq<Link>,
    v: int,
    a: Seq<bool>,
    b: Seq<bool>,
)
    requires
        neighbors_visited(junctions, links, v, a),
        a.len() == b.len(),
        forall|i: int| 0 <= i < a.len() ==> a[i] ==> b[i],
    ensures
        neighbors_visited(junctions, links, v, b),
{
}

/// Every visited junction stands under some node of the arena.
pub open spec fn arena_covers(nodes: Seq<SpanningNode>, visited: Seq<bool>) -> bool {
    forall|j: int|
        0 <= j < visited.len() && visited[j] ==> exists|k: int|
            0 <= k < nodes.len() && #[trigger] nodes[k].junction == j
}

/// The junction at index `j` stands under some node of the arena.
pub open spec fn in_tree(nodes: Seq<SpanningNode>, j: int) -> bool {
    exists|k: int| 0 <= k < nodes.len() && #[trigger] nodes[k].junction == j
}

/// The arena is closed under following exits: every junction one exit
/// away from a junction in the tree is in the tree.
pub open spec fn tree_closed(
    nodes: Seq<SpanningNode>,
    junctions: Seq<Junction>,
    links: Seq<Link>,
) -> bool {
    forall|v: int, e: int|
        in_tree(nodes, v) ==> match #[trigger] exit_target(junctions, links, v, e) {
            Option::Some(w) => in_tree(nodes, w),
            Option::None => true,
        }
}

/// The spanning tree reaches every junction connected, transitively,
/// to the first junction: a tree that holds the first junction and is
/// closed under following exits holds everything reachable.
pub proof fn lemma_tree_reaches_connected(
    nodes: Seq<SpanningNode>,
    junctions: Seq<Junction>,
    links: Seq<Link>,
    j: int,
    steps: nat,
)
    requires
        in_tree(nodes, 0),
        tree_closed(nodes, junctions, links),
        reachable_in(junctions, links, j, steps),
    ensures
        in_tree(nodes, j),
    decreases steps,
{
    if steps > 0 {
        if reachable_in(junctions, links, j, (steps - 1) as nat) {
            lemma_tree_reaches_connected(nodes, junctions, links, j, (steps - 1) as nat);
        } else {
            let (v, e) = choose|v: int, e: int|
                reachable_in(junctions, links, v, (steps - 1) as nat) && #[trigger] exit_target(
                    junctions,
                    links,
                    v,
                    e,
                ) == Option::Some(j);
            lemma_tree_reaches_connected(nodes, junctions, links, v, (steps - 1) as nat);
        }
    }
}

/// The arena agrees with the visited map: every node's junction is
/// marked visited.
pub open spec fn arena_marked(nodes: Seq<SpanningNode>, visited: Seq<bool>) -> bool {
    forall|k: int|
        0 <= k < nodes.len() ==> (#[trigger] nodes[k]).junction < visited.len() && visited[nodes[k].junction as int]
}

/// A spanning-tree node as spec-level data: the same three fields as
/// `SpanningNode`, over mathematical types, so that the canonical tree
/// can be written down as a spec value.
pub struct GhostNode {
    pub junction: int,
    pub parent: Option<int>,
    pub children: Seq<int>,
}

/// The state a depth-first discovery carries: which junctions are
/// visited, and the arena built so far.
pub struct DfsState {
    pub visited: Seq<bool>,
    pub nodes: Seq<GhostNode>,
}

/// The executable arena holds, node for node and field for field, the
/// same tree as the spec-level arena.
pub open spec fn arena_matches(nodes: Seq<SpanningNode>, canon: Seq<GhostNode>) -> bool {
    &&& nodes.len() == canon.len()
    &&& forall|k: int|
        0 <= k < nodes.len() ==> ((#[trigger] nodes[k]).junction as int == canon[k].junction && (
        match (nodes[k].parent, canon[k].parent) {
            (Option::Some(p), Option::Some(q)) => p as int == q,
            (Option::None, Option::None) => true,
            _ => false,
        }) && nodes[k].children@.len() == canon[k].children.len() && forall|c: int|
            0 <= c < nodes[k].children@.len() ==> (#[trigger] nodes[k].children@[c]) as int
                == canon[k].children[c])
}

/// Expand the node at `node_idx` (junction index `jidx`): follow its
/// exits in stored order from exit `e` on.  The first time an exit's
/// far junction is found unvisited, mark it, hang a fresh node for it
/// under `node_idx`, and expand it in turn before moving to the next
/// exit.  `fuel` bounds the expansion depth; one more than the number
/// of unvisited junctions always suffices.
pub open spec fn spec_dfs_exits(
    junctions: Seq<Junction>,
    links: Seq<Link>,
    st: DfsState,
    jidx: int,
    node_idx: int,
    e: int,
    fuel: nat,
) -> DfsState
    decreases fuel, 0int, (if 0 <= jidx < junctions.len() {
        junctions[jidx].links@.len() - e
    } else {
        0int
    }),
{
    if !(0 <= jidx < junctions.len()) || e < 0 || e >= junctions[jidx].links@.len() {
        st
    } else {
        let st1 = match exit_target(junctions, links, jidx, e) {
            Option::Some(oidx) => if 0 <= oidx < st.visited.len() && !st.visited[oidx] && fuel
                > 0 {
                let child = st.nodes.len() as int;
                let marked = DfsState {
                    visited: st.visited.update(oidx, true),
                    nodes: st.nodes.push(
                        GhostNode {
                            junction: oidx,
                            parent: Option::Some(node_idx),
                            children: Seq::empty(),
                        },
                    ).update(
                        node_idx,
                        GhostNode {
                            junction: st.nodes[node_idx].junction,
                            parent: st.nodes[node_idx].parent,
                            children: st.nodes[node_idx].children.push(child),
                        },
                    ),
                };
                spec_dfs_visit(junctions, links, marked, oidx, child, (fuel - 1) as nat)
            } else {
                st
            },
            Option::None => st,
        };
        spec_dfs_exits(junctions, links, st1, jidx, node_idx, e + 1, fuel)
    }
}

/// Expand a freshly created node: follow all its exits from the first.
pub open spec fn spec_dfs_visit(
    junctions: Seq<Junction>,
    links: Seq<Link>,
    st: DfsState,
    jidx: int,
    node_idx: int,
    fuel: nat,
) -> DfsState
    decreases fuel, 1int, 0int,
{
    spec_dfs_exits(junctions, links, st, jidx, node_idx, 0, fuel)
}

/// The canonical spanning arena of a network: the depth-first
/// discovery from the first junction, following exits in stored order,
/// each junction becoming, on first discovery, a child of the node
/// under expansion.  Empty for a network without junctions.
pub open spec fn spec_spanning_arena(junctions: Seq<Junction>, links: Seq<Link>) -> Seq<
    GhostNode,
> {
    if junctions.len() == 0 {
        Seq::empty()
    } else {
        let st0 = DfsState {
            visited: Seq::new(junctions.len(), |i: int| i == 0),
            nodes: seq![
                GhostNode { junction: 0, parent: Option::None, children: Seq::empty() },
            ],
        };
        spec_dfs_visit(junctions, links, st0, 0, 0, junctions.len() as nat).nodes
    }
}

proof fn lemma_count_unvisited_le_len(s: Seq<bool>)
    ensures
        count_unvisited(s) <= s.len(),
    decreases s.len(),
{
    if s.len() > 0 {
        lemma_count_unvisited_le_len(s.drop_first());
    }
}

proof fn lemma_count_unvisited_pos(s: Seq<bool>, w: int)
    requires
        0 <= w < s.len(),
        !s[w],
    ensures
        count_unvisited(s) >= 1,
    decreases s.len(),
{
    if w > 0 {
        assert(s.drop_first()[w - 1] == s[w]);
        lemma_count_unvisited_pos(s.drop_first(), w - 1);
    }
}

/// Appending a fresh leaf under `node_idx` on both sides of the
/// correspondence keeps the arenas matching.
proof fn lemma_arena_matches_push(
    pre: Seq<SpanningNode>,
    post: Seq<SpanningNode>,
    gpre: Seq<GhostNode>,
    gpost: Seq<GhostNode>,
    node_idx: usize,
    child_idx: usize,
    oidx: usize,
)
    requires
        arena_matches(pre, gpre),
        (node_idx as int) < pre.len(),
        child_idx == pre.len(),
        post.len() == pre.len() + 1,
        forall|k: int| 0 <= k < pre.len() && k != node_idx ==> post[k] == pre[k],
        post[node_idx as int].children@ == pre[node_idx as int].children@.push(child_idx),
        post[node_idx as int].parent == pre[node_idx as int].parent,
        post[node_idx as int].junction == pre[node_idx as int].junction,
        post[child_idx as int].junction == oidx,
        post[child_idx as int].parent == Option::Some(node_idx),
        post[child_idx as int].children@.len() == 0,
        gpost == gpre.push(
            GhostNode {
                junction: oidx as int,
                parent: Option::Some(node_idx as int),
                children: Seq::empty(),
            },
        ).update(
            node_idx as int,
            GhostNode {
                junction: gpre[node_idx as int].junction,
                parent: gpre[node_idx as int].parent,
                children: gpre[node_idx as int].children.push(child_idx as int),
            },
        ),
    ensures
        arena_matches(post, gpost),
{
    assert(gpost.len() == post.len());
    assert forall|k: int|
        0 <= k < post.len() implies ((#[trigger] post[k]).junction as int == gpost[k].junction
        && (match (post[k].parent, gpost[k].parent) {
        (Option::Some(p), Option::Some(q)) => p as int == q,
        (Option::None, Option::None) => true,
        _ => false,
    }) && post[k].children@.len() == gpost[k].children.len() && forall|c: int|
        0 <= c < post[k].children@.len() ==> (#[trigger] post[k].children@[c]) as int
            == gpost[k].children[c]) by {
        if k == child_idx as int {
            assert(gpost[k] == (GhostNode {
                junction: oidx as int,
                parent: Option::Some(node_idx as int),
                children: Seq::empty(),
            }));
        } else if k == node_idx as int {
            assert(gpost[k] == (GhostNode {
                junction: gpre[node_idx as int].junction,
                parent: gpre[node_idx as int].parent,
                children: gpre[node_idx as int].children.push(child_idx as int),
            }));
            assert(pre[k].junction as int == gpre[k].junction);
            assert(pre[k].children@.len() == gpre[k].children.len());
            assert forall|c: int|
                0 <= c < post[k].children@.len() implies (#[trigger] post[k].children@[c]) as int
                    == gpost[k].children[c] by {
                if c < pre[k].children@.len() {
                    assert(post[k].children@[c] == pre[k].children@[c]);
                    assert(gpost[k].children[c] == gpre[k].children[c]);
                } else {
                    assert(post[k].children@[c] == child_idx);
                    assert(gpost[k].children[c] == child_idx as int);
                }
            }
        } else {
            assert(post[k] == pre[k]);
            assert(gpost[k] == gpre[k]);
            assert(pre[k].junction as int == gpre[k].junction);
        }
    }
}

/// Following an exit whose far junction is absent or already visited
/// leaves the discovery state unchanged.
proof fn lemma_dfs_exits_skip(
    junctions: Seq<Junction>,
    links: Seq<Link>,
    st: DfsState,
    jidx: int,
    node_idx: int,
    e: int,
    fuel: nat,
)
    requires
        0 <= jidx < junctions.len(),
        0 <= e < junctions[jidx].links@.len(),
        match exit_target(junctions, links, jidx, e) {
            Option::Some(w) => 0 <= w < st.visited.len() && st.visited[w],
            Option::None => true,
        },
    ensures
        spec_dfs_exits(junctions, links, st, jidx, node_idx, e, fuel) == spec_dfs_exits(
            junctions,
            links,
            st,
            jidx,
            node_idx,
            e + 1,
            fuel,
        ),
{
}

/// Depth-first discovery from the junction at `jidx`, whose node at
/// `node_idx` was just created and marked.  Follows each exit to the
/// other endpoint of its link, skipping links that do not resolve or
/// lack an endpoint, and recurses into junctions not yet visited.
#[verifier::rlimit(100)]
fn dfs_visit(
    junctions: &Vec<Junction>,
    links: &Vec<Link>,
    visited: &mut Vec<bool>,
    nodes: &mut Vec<SpanningNode>,
    jidx: usize,
    node_idx: usize,
    gnodes: Ghost<Seq<GhostNode>>,
    fuel: Ghost<nat>,
)
    requires
        old(visited)@.len() == junctions@.len(),
        jidx < junctions@.len(),
        old(visited)@[jidx as int],
        node_idx < old(nodes)@.len(),
        old(nodes)@[node_idx as int].junction == jidx,
        tree_wf(old(nodes)@, junctions@.len() as int),
        arena_marked(old(nodes)@, old(visited)@),
        tree_edges_valid(old(nodes)@, junctions@, links@),
        arena_covers(old(nodes)@, old(visited)@),
        children_linked(old(nodes)@),
        arena_matches(old(nodes)@, gnodes@),
        fuel@ >= count_unvisited(old(visited)@),
    ensures
        final(visited)@.len() == junctions@.len(),
        forall|i: int| 0 <= i < junctions@.len() ==> old(visited)@[i] ==> final(visited)@[i],
        final(nodes)@.len() >= old(nodes)@.len(),
        forall|k: int|
            0 <= k < old(nodes)@.len() && k != node_idx ==> final(nodes)@[k] == old(nodes)@[k],
        final(nodes)@[node_idx as int].junction == old(nodes)@[node_idx as int].junction,
        final(nodes)@[node_idx as int].parent == old(nodes)@[node_idx as int].parent,
        tree_wf(final(nodes)@, junctions@.len() as int),
        arena_marked(final(nodes)@, final(visited)@),
        tree_edges_valid(final(nodes)@, junctions@, links@),
        arena_covers(final(nodes)@, final(visited)@),
        children_linked(final(nodes)@),
        forall|v: int|
            0 <= v < junctions@.len() && final(visited)@[v] && !old(visited)@[v]
                ==> neighbors_visited(junctions@, links@, v, final(visited)@),
        neighbors_visited(junctions@, links@, jidx as int, final(visited)@),
        final(visited)@ == spec_dfs_visit(
            junctions@,
            links@,
            DfsState { visited: old(visited)@, nodes: gnodes@ },
            jidx as int,
            node_idx as int,
            fuel@,
        ).visited,
        arena_matches(
            final(nodes)@,
            spec_dfs_visit(
                junctions@,
                links@,
                DfsState { visited: old(visited)@, nodes: gnodes@ },
                jidx as int,
                node_idx as int,
                fuel@,
            ).nodes,
        ),
    decreases count_unvisited(old(visited)@),
{
    let ghost entry_visited = visited@;
    let ghost entry_nodes = nodes@;
    let ghost entry_state = DfsState { visited: entry_visited, nodes: gnodes@ };
    let ghost mut gcur = entry_state;
    let nexits = junctions[jidx].links.len();
    let mut e: usize = 0;
    while e < nexits
        invariant
            junctions@.len() == visited@.len(),
            jidx < junctions@.len(),
            nexits == junctions@[jidx as int].links@.len(),
            e <= nexits,
            entry_visited == old(visited)@,
            entry_visited.len() == visited@.len(),
            forall|i: int| 0 <= i < visited@.len() ==> entry_visited[i] ==> visited@[i],
            visited@[jidx as int],
            nodes@.len() >= entry_nodes.len(),
            node_idx < entry_nodes.len(),
            forall|k: int| 0 <= k < entry_nodes.len() && k != node_idx ==> nodes@[k] == entry_nodes[k],
            nodes@[node_idx as int].junction == entry_nodes[node_idx as int].junction,
            nodes@[node_idx as int].junction == jidx,
            nodes@[node_idx as int].parent == entry_nodes[node_idx as int].parent,
            tree_wf(nodes@, junctions@.len() as int),
            arena_marked(nodes@, visited@),
            tree_edges_valid(nodes@, junctions@, links@),
            arena_covers(nodes@, visited@),
            children_linked(nodes@),
            forall|v: int|
                0 <= v < junctions@.len() && visited@[v] && !entry_visited[v]
                    ==> neighbors_visited(junctions@, links@, v, visited@),
            forall|e2: int|
                0 <= e2 < e ==> match #[trigger] exit_target(
                    junctions@,
                    links@,
                    jidx as int,
                    e2,
                ) {
                    Option::Some(w) => 0 <= w < visited@.len() && visited@[w],
                    Option::None => true,
                },
            entry_state == (DfsState { visited: old(visited)@, nodes: gnodes@ }),
            gcur.visited == visited@,
            arena_matches(nodes@, gcur.nodes),
            fuel@ >= count_unvisited(visited@),
            spec_dfs_exits(
                junctions@,
                links@,
                entry_state,
                jidx as int,
                node_idx as int,
                0,
                fuel@,
            ) == spec_dfs_exits(
                junctions@,
                links@,
                gcur,
                jidx as int,
                node_idx as int,
                e as int,
                fuel@,
            ),
        decreases nexits - e,
    {
        let ghost iter_visited = visited@;
        let ex = junctions[jidx].links[e];
        let ghost target = exit_target(junctions@, links@, jidx as int, e as int);
        let link_valid = 1 <= ex.link_id && (ex.link_id as usize) <= links.len();
        if link_valid {
            let link = &links[(ex.link_id - 1) as usize];
            if let (Option::Some(origin), Option::Some(destination)) = (
                link.origin,
                link.destination,
            ) {
                let other = if origin == junctions[jidx].id {
                    destination
                } else {
                    origin
                };
                proof {
                    assert(dfs_other_end(links@, ex.link_id as int, junctions@[jidx as int].id)
                        == Option::Some(other));
                }
                if 1 <= other && (other as usize) <= junctions.len() {
                    let oidx = (other - 1) as usize;
                    proof {
                        assert(target == Option::Some(oidx as int));
                    }
                    if !visited[oidx] {
                        let ghost pre_visited = visited@;
                        let ghost pre_nodes = nodes@;
                        visited[oidx] = true;
                        let child_idx = nodes.len();
                        nodes.push(SpanningNode::new(Option::Some(node_idx), oidx));
                        nodes[node_idx].children.push(child_idx);
                        proof {
                            assert(forall|k: int|
                                0 <= k < nodes@.len() && k != node_idx && k != child_idx
                                    ==> nodes@[k] == pre_nodes[k]);
                            assert(nodes@[child_idx as int].junction == oidx);
                            assert(tree_wf(nodes@, junctions@.len() as int));
                            assert forall|k: int|
                                0 <= k < nodes@.len() implies #[trigger] edge_ok(
                                nodes@,
                                junctions@,
                                links@,
                                k,
                            ) by {
                                if k < pre_nodes.len() {
                                    assert(edge_ok(pre_nodes, junctions@, links@, k));
                                    assert(nodes@[k].parent == pre_nodes[k].parent);
                                    assert(nodes@[k].junction == pre_nodes[k].junction);
                                    if pre_nodes[k].parent is Some {
                                        let p = pre_nodes[k].parent.unwrap();
                                        assert(nodes@[p as int].junction == pre_nodes[p as int].junction);
                                    }
                                } else {
                                    let pj = junctions@[jidx as int];
                                    assert(pj.links@[e as int] == ex);
                                    assert(crate::network::spec_link_at(links@, ex.link_id as int)
                                        == Option::Some(links@[ex.link_id - 1]));
                                    assert(dfs_other_end(links@, ex.link_id as int, pj.id)
                                        == Option::Some(other));
                                    assert(0 <= e < pj.links@.len() && ({
                                        let w = dfs_other_end(
                                            links@,
                                            pj.links@[e as int].link_id as int,
                                            pj.id,
                                        );
                                        &&& w is Some
                                        &&& w.unwrap() >= 1
                                        &&& w.unwrap() - 1 == oidx
                                    }));
                                    assert(junction_edge_ok(pj, oidx, links@));
                                    assert(nodes@[k].parent == Option::Some(node_idx));
                                    assert(nodes@[node_idx as int].junction == jidx);
                                }
                            }
                            assert(tree_edges_valid(nodes@, junctions@, links@));
                            assert(nodes@[node_idx as int].children@ == pre_nodes[node_idx as int].children@.push(
                                child_idx,
                            ));
                            assert(nodes@[node_idx as int].parent == pre_nodes[node_idx as int].parent);
                            assert(nodes@[node_idx as int].junction == pre_nodes[node_idx as int].junction);
                            lemma_children_linked_push(
                                pre_nodes,
                                nodes@,
                                node_idx,
                                child_idx,
                                junctions@.len() as int,
                            );
                            assert(!pre_visited[oidx as int]);
                            assert(!entry_visited[oidx as int]);
                            assert(visited@[oidx as int]);
                            assert(forall|i: int|
                                0 <= i < entry_visited.len() ==> entry_visited[i]
                                    ==> visited@[i]);
                            lemma_count_unvisited_strict(
                                entry_visited,
                                visited@,
                                oidx as int,
                            );
                            assert(count_unvisited(visited@) < count_unvisited(entry_visited));
                            assert(entry_visited == old(visited)@);
                            assert forall|j: int|
                                0 <= j < visited@.len() && visited@[j] implies exists|k: int|
                                0 <= k < nodes@.len() && #[trigger] nodes@[k].junction == j by {
                                if j == oidx {
                                    assert(nodes@[child_idx as int].junction == oidx);
                                } else {
                                    assert(pre_visited[j]);
                                    let k = choose|k: int|
                                        0 <= k < pre_nodes.len() && #[trigger] pre_nodes[k].junction
                                            == j;
                                    assert(nodes@[k].junction == j);
                                }
                            }
                            assert(arena_covers(nodes@, visited@));
                        }
                        let ghost child_g = gcur.nodes.len() as int;
                        let ghost gmarked = DfsState {
                            visited: gcur.visited.update(oidx as int, true),
                            nodes: gcur.nodes.push(
                                GhostNode {
                                    junction: oidx as int,
                                    parent: Option::Some(node_idx as int),
                                    children: Seq::empty(),
                                },
                            ).update(
                                node_idx as int,
                                GhostNode {
                                    junction: gcur.nodes[node_idx as int].junction,
                                    parent: gcur.nodes[node_idx as int].parent,
                                    children: gcur.nodes[node_idx as int].children.push(child_g),
                                },
                            ),
                        };
                        proof {
                            assert(child_g == child_idx as int);
                            assert(gcur.visited == pre_visited);
                            assert(visited@ =~= gmarked.visited);
                            lemma_arena_matches_push(
                                pre_nodes,
                                nodes@,
                                gcur.nodes,
                                gmarked.nodes,
                                node_idx,
                                child_idx,
                                oidx,
                            );
                            lemma_count_unvisited_pos(pre_visited, oidx as int);
                            assert(fuel@ > 0);
                            lemma_count_unvisited_strict(pre_visited, visited@, oidx as int);
                            assert(fuel@ - 1 >= count_unvisited(gmarked.visited));
                        }
                        let ghost pre_call = visited@;
                        dfs_visit(
                            junctions,
                            links,
                            visited,
                            nodes,
                            oidx,
                            child_idx,
                            Ghost(gmarked.nodes),
                            Ghost((fuel@ - 1) as nat),
                        );
                        proof {
                            let gnext = spec_dfs_visit(
                                junctions@,
                                links@,
                                gmarked,
                                oidx as int,
                                child_idx as int,
                                (fuel@ - 1) as nat,
                            );
                            assert((DfsState { visited: pre_call, nodes: gmarked.nodes })
                                == gmarked);
                            assert(visited@ == gnext.visited);
                            assert(arena_matches(nodes@, gnext.nodes));
                            assert(spec_dfs_exits(
                                junctions@,
                                links@,
                                gcur,
                                jidx as int,
                                node_idx as int,
                                e as int,
                                fuel@,
                            ) == spec_dfs_exits(
                                junctions@,
                                links@,
                                gnext,
                                jidx as int,
                                node_idx as int,
                                e as int + 1,
                                fuel@,
                            )) by {
                                assert(0 <= (oidx as int) < gcur.visited.len()
                                    && !gcur.visited[oidx as int] && fuel@ > 0);
                                assert(target == Option::Some(oidx as int));
                            }
                            lemma_count_unvisited_mono(pre_call, visited@);
                            gcur = gnext;
                        }
                        proof {
                            assert forall|i: int|
                                0 <= i < iter_visited.len() && iter_visited[i]
                                    implies visited@[i] by {
                                assert(pre_call[i]);
                            }
                            assert forall|v: int|
                                0 <= v < junctions@.len() && visited@[v] && !entry_visited[v]
                                    implies neighbors_visited(junctions@, links@, v, visited@) by {
                                if pre_call[v] {
                                    if v == oidx as int {
                                        assert(neighbors_visited(
                                            junctions@,
                                            links@,
                                            oidx as int,
                                            visited@,
                                        ));
                                    } else {
                                        assert(iter_visited[v]);
                                        assert(neighbors_visited(
                                            junctions@,
                                            links@,
                                            v,
                                            iter_visited,
                                        ));
                                        lemma_neighbors_visited_mono(
                                            junctions@,
                                            links@,
                                            v,
                                            iter_visited,
                                            visited@,
                                        );
                                    }
                                } else {
                                    assert(neighbors_visited(junctions@, links@, v, visited@));
                                }
                            }
                        }
                    } else {
                        proof {
                            lemma_dfs_exits_skip(
                                junctions@,
                                links@,
                                gcur,
                                jidx as int,
                                node_idx as int,
                                e as int,
                                fuel@,
                            );
                        }
                    }
                } else {
                    proof {
                        assert(target is None);
                        lemma_dfs_exits_skip(
                            junctions@,
                            links@,
                            gcur,
                            jidx as int,
                            node_idx as int,
                            e as int,
                            fuel@,
                        );
                    }
                }
            } else {
                proof {
                    assert(crate::network::spec_link_at(links@, ex.link_id as int)
                        == Option::Some(links@[ex.link_id - 1]));
                    assert(dfs_other_end(links@, ex.link_id as int, junctions@[jidx as int].id)
                        is None);
                    assert(target is None);
                    lemma_dfs_exits_skip(
                        junctions@,
                        links@,
                        gcur,
                        jidx as int,
                        node_idx as int,
                        e as int,
                        fuel@,
                    );
                }
            }
        } else {
            proof {
                assert(crate::network::spec_link_at(links@, ex.link_id as int) is None);
                assert(dfs_other_end(links@, ex.link_id as int, junctions@[jidx as int].id)
                    is None);
                assert(target is None);
                lemma_dfs_exits_skip(
                    junctions@,
                    links@,
                    gcur,
                    jidx as int,
                    node_idx as int,
                    e as int,
                    fuel@,
                );
            }
        }
        e = e + 1;
    }
    proof {
        assert(spec_dfs_exits(
            junctions@,
            links@,
            gcur,
            jidx as int,
            node_idx as int,
            nexits as int,
            fuel@,
        ) == gcur);
        assert(spec_dfs_visit(junctions@, links@, entry_state, jidx as int, node_idx as int, fuel@)
            == gcur);
        assert(neighbors_visited(junctions@, links@, jidx as int, visited@)) by {
            assert forall|e2: int|
                #[trigger] exit_target(junctions@, links@, jidx as int, e2) is Some implies ({
                let w = exit_target(junctions@, links@, jidx as int, e2).unwrap();
                0 <= w < visited@.len() && visited@[w]
            }) by {
                if !(0 <= e2 < nexits) {
                    assert(exit_target(junctions@, links@, jidx as int, e2) is None);
                }
            }
        }
    }
}

/// Insertion with set semantics: a hop equal to a stored one changes
/// nothing.
pub open spec fn spec_insert(hops: Seq<Hop>, h: Hop) -> Seq<Hop> {
    if hops.contains(h) {
        hops
    } else {
        hops.push(h)
    }
}

/// The root-to-`k` path of arena indices, following parent pointers,
/// which in a sound arena strictly decrease.
pub open spec fn spec_path(nodes: Seq<SpanningNode>, k: int) -> Seq<int>
    decreases k,
{
    if 0 <= k < nodes.len() {
        match nodes[k].parent {
            Option::None => seq![k],
            Option::Some(p) => if (p as int) < k {
                spec_path(nodes, p as int).push(k)
            } else {
                seq![k]
            },
        }
    } else {
        Seq::empty()
    }
}

/// The id of the junction a node stands for, or 0 when an index is out
/// of range (which a sound arena never has).
pub open spec fn node_junc_id(junctions: Seq<Junction>, nodes: Seq<SpanningNode>, n: int) -> u32 {
    if 0 <= n < nodes.len() && nodes[n].junction < junctions.len() {
        junctions[nodes[n].junction as int].id
    } else {
        0
    }
}

/// Insert one hop from `src_id` toward the junction of every path node
/// from position `j` on, all through the exit at `heading`.
pub open spec fn add_dests(
    hops: Seq<Hop>,
    junctions: Seq<Junction>,
    nodes: Seq<SpanningNode>,
    path: Seq<int>,
    src_id: u32,
    heading: u32,
    j: int,
) -> Seq<Hop>
    decreases path.len() - j,
{
    if j < 0 || j >= path.len() {
        hops
    } else {
        let dst_id = node_junc_id(junctions, nodes, path[j]);
        add_dests(
            spec_insert(hops, Hop { junction: src_id, dest_junc: dst_id, exit: heading }),
            junctions,
            nodes,
            path,
            src_id,
            heading,
            j + 1,
        )
    }
}

/// For every path position `i` from `i` on: find the exit joining node
/// `i` to node `i + 1` and, unless its heading is 270, record a hop
/// from node `i`'s junction to every later path node's junction.
pub open spec fn add_pairs(
    hops: Seq<Hop>,
    links: Seq<Link>,
    junctions: Seq<Junction>,
    nodes: Seq<SpanningNode>,
    path: Seq<int>,
    i: int,
) -> Seq<Hop>
    decreases path.len() - i,
{
    if i < 0 || i + 1 >= path.len() {
        hops
    } else {
        let valid = 0 <= path[i] < nodes.len() && nodes[path[i]].junction < junctions.len() && 0
            <= path[i + 1] < nodes.len() && nodes[path[i + 1]].junction < junctions.len();
        if valid {
            let src = junctions[nodes[path[i]].junction as int];
            let nxt = junctions[nodes[path[i + 1]].junction as int];
            let e = crate::network::find_exit_scan(links, junctions, src, nxt, 0);
            if 0 <= e < src.links@.len() && src.links@[e].exit != 270 {
                add_pairs(
                    add_dests(hops, junctions, nodes, path, src.id, src.links@[e].exit, i + 1),
                    links,
                    junctions,
                    nodes,
                    path,
                    i + 1,
                )
            } else {
                add_pairs(hops, links, junctions, nodes, path, i + 1)
            }
        } else {
            add_pairs(hops, links, junctions, nodes, path, i + 1)
        }
    }
}

/// Walk the arena in stored order and record, for every leaf, the hops
/// of its root-to-leaf path.
pub open spec fn add_leaves(
    hops: Seq<Hop>,
    links: Seq<Link>,
    junctions: Seq<Junction>,
    nodes: Seq<SpanningNode>,
    idx: int,
) -> Seq<Hop>
    decreases nodes.len() - idx,
{
    if idx < 0 || idx >= nodes.len() {
        hops
    } else {
        let h2 = if nodes[idx].children@.len() == 0 {
            add_pairs(hops, links, junctions, nodes, spec_path(nodes, idx), 0)
        } else {
            hops
        };
        add_leaves(h2, links, junctions, nodes, idx + 1)
    }
}

/// The whole routing table a tree and its stores give rise to.
pub open spec fn spec_build_routes(
    hops: Seq<Hop>,
    links: Seq<Link>,
    junctions: Seq<Junction>,
    nodes: Seq<SpanningNode>,
) -> Seq<Hop> {
    add_leaves(hops, links, junctions, nodes, 0)
}

impl Network {
    /// Build the spanning tree by depth-first traversal from the first
    /// junction, following exits in stored order and visiting each
    /// junction at most once.  The result is pinned completely: it
    /// matches the canonical arena `spec_spanning_arena`, node for
    /// node, so each junction becomes, on first discovery, a child of
    /// the node under expansion.  The tree holds the first junction
    /// and is closed under following exits, which with
    /// `lemma_tree_reaches_connected` makes it reach every junction
    /// connected to the first.  A network without junctions gets an
    /// empty tree.
    pub fn build_spanning_tree(&mut self)
        ensures
            final(self).links == old(self).links,
            final(self).junctions == old(self).junctions,
            final(self).tiles == old(self).tiles,
            final(self).segments == old(self).segments,
            final(self).routing == old(self).routing,
            tree_wf(final(self).spanning_tree.nodes@, old(self).junctions@.len() as int),
            children_linked(final(self).spanning_tree.nodes@),
            tree_edges_valid(
                final(self).spanning_tree.nodes@,
                old(self).junctions@,
                old(self).links@,
            ),
            old(self).junctions@.len() == 0 ==> final(self).spanning_tree.nodes@.len() == 0,
            old(self).junctions@.len() > 0 ==> final(self).spanning_tree.nodes@.len() >= 1
                && final(self).spanning_tree.nodes@[0].junction == 0
                && final(self).spanning_tree.nodes@[0].parent is None,
            old(self).junctions@.len() > 0 ==> in_tree(final(self).spanning_tree.nodes@, 0)
                && tree_closed(
                final(self).spanning_tree.nodes@,
                old(self).junctions@,
                old(self).links@,
            ),
            arena_matches(
                final(self).spanning_tree.nodes@,
                spec_spanning_arena(old(self).junctions@, old(self).links@),
            ),
    {
        let mut nodes: Vec<SpanningNode> = Vec::new();
        if self.junctions.len() > 0 {
            let mut visited: Vec<bool> = Vec::new();
            let n = self.junctions.len();
            let mut i: usize = 0;
            while i < n
                invariant
                    i <= n,
                    visited@.len() == i,
                    forall|k: int| 0 <= k < i ==> !visited@[k],
                decreases n - i,
            {
                visited.push(false);
                i = i + 1;
            }
            visited[0] = true;
            nodes.push(SpanningNode::new(Option::None, 0));
            let ghost g0: Seq<GhostNode> = seq![
                GhostNode { junction: 0, parent: Option::None, children: Seq::empty() },
            ];
            proof {
                assert(arena_covers(nodes@, visited@)) by {
                    assert(nodes@[0].junction == 0);
                }
                assert(children_linked(nodes@)) by {
                    reveal(children_linked);
                    assert(nodes@.len() == 1);
                    assert(nodes@[0].children@.len() == 0);
                    assert(nodes@[0].parent is None);
                }
                assert(arena_matches(nodes@, g0));
                lemma_count_unvisited_le_len(visited@);
                assert(visited@ =~= Seq::new(self.junctions@.len(), |i: int| i == 0));
            }
            let ghost pre_call = visited@;
            dfs_visit(
                &self.junctions,
                &self.links,
                &mut visited,
                &mut nodes,
                0,
                0,
                Ghost(g0),
                Ghost(self.junctions@.len() as nat),
            );
            proof {
                let gn = nodes@;
                let gj = self.junctions@;
                let gl = self.links@;
                assert(gn[0].junction == 0);
                assert(in_tree(gn, 0));
                assert((DfsState { visited: pre_call, nodes: g0 }) == (DfsState {
                    visited: Seq::new(gj.len(), |i: int| i == 0),
                    nodes: seq![
                        GhostNode { junction: 0, parent: Option::None, children: Seq::empty() },
                    ],
                }));
                assert(arena_matches(gn, spec_spanning_arena(gj, gl)));
                assert forall|v: int, e: int| in_tree(gn, v) implies match #[trigger] exit_target(
                    gj,
                    gl,
                    v,
                    e,
                ) {
                    Option::Some(w) => in_tree(gn, w),
                    Option::None => true,
                } by {
                    let k = choose|k: int| 0 <= k < gn.len() && #[trigger] gn[k].junction == v;
                    assert(0 <= v < gj.len());
                    assert(visited@[v]);
                    if v == 0 {
                        assert(neighbors_visited(gj, gl, 0, visited@));
                    } else {
                        assert(!pre_call[v]);
                        assert(neighbors_visited(gj, gl, v, visited@));
                    }
                    match exit_target(gj, gl, v, e) {
                        Option::Some(w) => {
                            assert(visited@[w]);
                            assert(in_tree(gn, w));
                        },
                        Option::None => {},
                    }
                }
                assert(tree_closed(nodes@, self.junctions@, self.links@));
            }
        } else {
            proof {
                assert(children_linked(nodes@)) by {
                    reveal(children_linked);
                    assert(nodes@.len() == 0);
                }
                assert(arena_matches(nodes@, spec_spanning_arena(self.junctions@, self.links@)));
            }
        }
        self.spanning_tree = SpanningTree { nodes };
    }

    /// Synthesise the routing table from the spanning tree.  For every
    /// leaf, take the root-to-leaf path; for every pair `(i, j)` with
    /// `i < j` on it, find the exit joining node `i` to node `i + 1`
    /// and, unless its heading is the 270-degree loading artefact,
    /// insert a hop from node `i`'s junction to node `j`'s.  Insertion
    /// is set-semantic, so the table never repeats a triple.
    pub fn build_routes(&mut self)
        requires
            tree_wf(old(self).spanning_tree.nodes@, old(self).junctions@.len() as int),
        ensures
            final(self).links == old(self).links,
            final(self).junctions == old(self).junctions,
            final(self).tiles == old(self).tiles,
            final(self).segments == old(self).segments,
            final(self).spanning_tree == old(self).spanning_tree,
            final(self).routing.hops@ == spec_build_routes(
                old(self).routing.hops@,
                old(self).links@,
                old(self).junctions@,
                old(self).spanning_tree.nodes@,
            ),
            old(self).routing.wf() ==> final(self).routing.wf(),
            forall|h: int|
                0 <= h < final(self).routing.hops@.len() ==> old(self).routing.hops@.contains(
                    final(self).routing.hops@[h],
                ) || (#[trigger] final(self).routing.hops@[h]).exit != 270,
    {
        let ghost hops0 = self.routing.hops@;
        let ghost gl = self.links@;
        let ghost gj = self.junctions@;
        let ghost gn = self.spanning_tree.nodes@;
        let nnodes = self.spanning_tree.nodes.len();
        let mut idx: usize = 0;
        while idx < nnodes
            invariant
                nnodes == self.spanning_tree.nodes@.len(),
                self.links == old(self).links,
                self.junctions == old(self).junctions,
                self.tiles == old(self).tiles,
                self.segments == old(self).segments,
                self.spanning_tree == old(self).spanning_tree,
                gl == self.links@,
                gj == self.junctions@,
                gn == self.spanning_tree.nodes@,
                hops0 == old(self).routing.hops@,
                tree_wf(gn, gj.len() as int),
                add_leaves(hops0, gl, gj, gn, 0) == add_leaves(
                    self.routing.hops@,
                    gl,
                    gj,
                    gn,
                    idx as int,
                ),
                old(self).routing.wf() ==> self.routing.wf(),
                forall|h: int|
                    0 <= h < self.routing.hops@.len() ==> old(self).routing.hops@.contains(
                        self.routing.hops@[h],
                    ) || (#[trigger] self.routing.hops@[h]).exit != 270,
            decreases nnodes - idx,
        {
            if self.spanning_tree.nodes[idx].children.len() == 0 {
                // The root-to-leaf path, gathered leaf-upward; `suffix`
                // tracks the part of the root-to-leaf path already
                // walked past, in root-to-leaf order.
                let ghost gpath = spec_path(gn, idx as int);
                let mut rpath: Vec<usize> = Vec::new();
                let mut cur: usize = idx;
                rpath.push(cur);
                let ghost mut suffix: Seq<int> = Seq::empty();
                while self.spanning_tree.nodes[cur].parent.is_some()
                    invariant
                        nnodes == self.spanning_tree.nodes@.len(),
                        gn == self.spanning_tree.nodes@,
                        tree_wf(gn, gj.len() as int),
                        gj == self.junctions@,
                        cur < nnodes,
                        rpath@.len() >= 1,
                        rpath@[rpath@.len() - 1] == cur,
                        forall|k: int| 0 <= k < rpath@.len() ==> rpath@[k] < nnodes,
                        gpath == spec_path(gn, cur as int) + suffix,
                        suffix.len() == rpath@.len() - 1,
                        forall|m: int|
                            0 <= m < suffix.len() ==> suffix[m] == rpath@[rpath@.len() - 2 - m],
                    decreases cur,
                {
                    let p = match self.spanning_tree.nodes[cur].parent {
                        Option::Some(p) => p,
                        Option::None => 0,
                    };
                    proof {
                        assert(spec_path(gn, cur as int) == spec_path(gn, p as int).push(
                            cur as int,
                        ));
                        assert(spec_path(gn, p as int).push(cur as int) =~= spec_path(
                            gn,
                            p as int,
                        ) + seq![cur as int]);
                        assert((spec_path(gn, p as int) + seq![cur as int]) + suffix =~= spec_path(
                            gn,
                            p as int,
                        ) + (seq![cur as int] + suffix));
                        suffix = seq![cur as int] + suffix;
                    }
                    cur = p;
                    rpath.push(cur);
                }
                let plen = rpath.len();
                proof {
                    assert(spec_path(gn, cur as int) =~= seq![cur as int]);
                    assert(gpath =~= seq![cur as int] + suffix);
                    assert(gpath.len() == plen);
                    assert(forall|m: int|
                        0 <= m < gpath.len() ==> gpath[m] == rpath@[plen - 1 - m]);
                }
                let ghost leaf_hops = self.routing.hops@;
                let mut i: usize = 0;
                while i < plen
                    invariant
                        nnodes == self.spanning_tree.nodes@.len(),
                        self.links == old(self).links,
                        self.junctions == old(self).junctions,
                        self.tiles == old(self).tiles,
                        self.segments == old(self).segments,
                        self.spanning_tree == old(self).spanning_tree,
                        gl == self.links@,
                        gj == self.junctions@,
                        gn == self.spanning_tree.nodes@,
                        hops0 == old(self).routing.hops@,
                        tree_wf(gn, gj.len() as int),
                        plen == rpath@.len(),
                        gpath.len() == plen,
                        forall|k: int| 0 <= k < rpath@.len() ==> rpath@[k] < nnodes,
                        forall|m: int|
                            0 <= m < gpath.len() ==> gpath[m] == rpath@[plen - 1 - m],
                        add_pairs(leaf_hops, gl, gj, gn, gpath, 0) == add_pairs(
                            self.routing.hops@,
                            gl,
                            gj,
                            gn,
                            gpath,
                            i as int,
                        ),
                        old(self).routing.wf() ==> self.routing.wf(),
                        forall|h: int|
                            0 <= h < self.routing.hops@.len() ==> old(
                                self,
                            ).routing.hops@.contains(self.routing.hops@[h]) || (
                            #[trigger] self.routing.hops@[h]).exit != 270,
                    decreases plen - i,
                {
                    if i + 1 < plen {
                        let src_node = rpath[plen - 1 - i];
                        let nxt_node = rpath[plen - 2 - i];
                        let src_jidx = self.spanning_tree.nodes[src_node].junction;
                        let nxt_jidx = self.spanning_tree.nodes[nxt_node].junction;
                        proof {
                            assert(gpath[i as int] == src_node as int);
                            assert(gpath[i as int + 1] == nxt_node as int);
                        }
                        let eidx = self.find_exit(
                            &self.junctions[src_jidx],
                            &self.junctions[nxt_jidx],
                        );
                        let srclen = self.junctions[src_jidx].links.len();
                        if eidx != usize::MAX {
                            let heading = self.junctions[src_jidx].links[eidx].exit;
                            if heading != 270 {
                                let src_id = self.junctions[src_jidx].id;
                                let ghost pair_hops = self.routing.hops@;
                                let mut j: usize = i + 1;
                                while j < plen
                                    invariant
                                        nnodes == self.spanning_tree.nodes@.len(),
                                        self.links == old(self).links,
                                        self.junctions == old(self).junctions,
                                        self.tiles == old(self).tiles,
                                        self.segments == old(self).segments,
                                        self.spanning_tree == old(self).spanning_tree,
                                        gl == self.links@,
                                        gj == self.junctions@,
                                        gn == self.spanning_tree.nodes@,
                                        hops0 == old(self).routing.hops@,
                                        tree_wf(gn, gj.len() as int),
                                        plen == rpath@.len(),
                                        gpath.len() == plen,
                                        i + 1 <= j <= plen,
                                        forall|k: int| 0 <= k < rpath@.len() ==> rpath@[k] < nnodes,
                                        forall|m: int|
                                            0 <= m < gpath.len() ==> gpath[m] == rpath@[plen - 1
                                                - m],
                                        heading != 270,
                                        src_jidx == gn[gpath[i as int]].junction,
                                        src_jidx < gj.len(),
                                        src_id == gj[src_jidx as int].id,
                                        add_dests(
                                            pair_hops,
                                            gj,
                                            gn,
                                            gpath,
                                            src_id,
                                            heading,
                                            i as int + 1,
                                        ) == add_dests(
                                            self.routing.hops@,
                                            gj,
                                            gn,
                                            gpath,
                                            src_id,
                                            heading,
                                            j as int,
                                        ),
                                        old(self).routing.wf() ==> self.routing.wf(),
                                        forall|h: int|
                                            0 <= h < self.routing.hops@.len() ==> old(
                                                self,
                                            ).routing.hops@.contains(self.routing.hops@[h]) || (
                                            #[trigger] self.routing.hops@[h]).exit != 270,
                                    decreases plen - j,
                                {
                                    let dst_node = rpath[plen - 1 - j];
                                    let dst_jidx = self.spanning_tree.nodes[dst_node].junction;
                                    let dst_id = self.junctions[dst_jidx].id;
                                    proof {
                                        assert(gpath[j as int] == dst_node as int);
                                        assert(node_junc_id(gj, gn, gpath[j as int]) == dst_id);
                                    }
                                    let ghost pre_hops = self.routing.hops@;
                                    self.routing.insert(Hop::from(src_id, dst_id, heading));
                                    proof {
                                        assert(self.routing.hops@ == spec_insert(
                                            pre_hops,
                                            Hop { junction: src_id, dest_junc: dst_id, exit: heading },
                                        ));
                                        assert(forall|h: int|
                                            0 <= h < pre_hops.len() ==> self.routing.hops@[h]
                                                == pre_hops[h]);
                                    }
                                    j = j + 1;
                                }
                                proof {
                                    assert(add_dests(
                                        self.routing.hops@,
                                        gj,
                                        gn,
                                        gpath,
                                        src_id,
                                        heading,
                                        plen as int,
                                    ) == self.routing.hops@);
                                    assert(add_pairs(self.routing.hops@, gl, gj, gn, gpath, i as int
                                        + 1) == add_pairs(
                                        add_dests(pair_hops, gj, gn, gpath, src_id, heading, i as int + 1),
                                        gl,
                                        gj,
                                        gn,
                                        gpath,
                                        i as int + 1,
                                    ));
                                }
                            }
                        }
                        proof {
                            let e = crate::network::find_exit_scan(
                                gl,
                                gj,
                                gj[src_jidx as int],
                                gj[nxt_jidx as int],
                                0,
                            );
                            assert(eidx as int == e);
                            assert(srclen == gj[src_jidx as int].links@.len());
                            if eidx == usize::MAX {
                                assert(!(0 <= e < gj[src_jidx as int].links@.len()));
                            }
                        }
                    }
                    i = i + 1;
                }
                proof {
                    assert(add_pairs(self.routing.hops@, gl, gj, gn, gpath, plen as int)
                        == self.routing.hops@);
                    assert(add_leaves(self.routing.hops@, gl, gj, gn, idx as int + 1) == add_leaves(
                        add_pairs(leaf_hops, gl, gj, gn, gpath, 0),
                        gl,
                        gj,
                        gn,
                        idx as int + 1,
                    ));
                }
            }
            idx = idx + 1;
        }
    }

    /// The junction ids in canonical depth-first discovery order from
    /// the first junction, following each junction's exits in stored
    /// order and visiting no junction twice; empty for a network
    /// without junctions.  The result is the id sequence, node for
    /// node, of the canonical spanning arena.
    pub fn depth_first_traversal(&self) -> (r: Vec<u32>)
        ensures
            self.junctions@.len() == 0 ==> r@.len() == 0,
            self.junctions@.len() > 0 ==> ({
                let canon = spec_spanning_arena(self.junctions@, self.links@);
                &&& r@.len() == canon.len()
                &&& r@.len() >= 1
                &&& forall|k: int|
                    0 <= k < canon.len() ==> 0 <= (#[trigger] canon[k]).junction
                        < self.junctions@.len() && r@[k] == self.junctions@[canon[k].junction].id
            }),
    {
        let mut out: Vec<u32> = Vec::new();
        if self.junctions.len() == 0 {
            return out;
        }
        let mut nodes: Vec<SpanningNode> = Vec::new();
        let mut visited: Vec<bool> = Vec::new();
        let n = self.junctions.len();
        let mut i: usize = 0;
        while i < n
            invariant
                i <= n,
                visited@.len() == i,
                forall|k: int| 0 <= k < i ==> !visited@[k],
            decreases n - i,
        {
            visited.push(false);
            i = i + 1;
        }
        visited[0] = true;
        nodes.push(SpanningNode::new(Option::None, 0));
        let ghost g0: Seq<GhostNode> = seq![
            GhostNode { junction: 0, parent: Option::None, children: Seq::empty() },
        ];
        proof {
            assert(arena_covers(nodes@, visited@)) by {
                assert(nodes@[0].junction == 0);
            }
            assert(children_linked(nodes@)) by {
                reveal(children_linked);
                assert(nodes@.len() == 1);
                assert(nodes@[0].children@.len() == 0);
                assert(nodes@[0].parent is None);
            }
            assert(arena_matches(nodes@, g0));
            lemma_count_unvisited_le_len(visited@);
            assert(visited@ =~= Seq::new(self.junctions@.len(), |i: int| i == 0));
        }
        let ghost pre_call = visited@;
        dfs_visit(
            &self.junctions,
            &self.links,
            &mut visited,
            &mut nodes,
            0,
            0,
            Ghost(g0),
            Ghost(self.junctions@.len() as nat),
        );
        proof {
            let gn = nodes@;
            let gj = self.junctions@;
            let gl = self.links@;
            assert(gn[0].junction == 0);
            assert(in_tree(gn, 0));
            assert((DfsState { visited: pre_call, nodes: g0 }) == (DfsState {
                visited: Seq::new(gj.len(), |i: int| i == 0),
                nodes: seq![
                    GhostNode { junction: 0, parent: Option::None, children: Seq::empty() },
                ],
            }));
            assert(arena_matches(gn, spec_spanning_arena(gj, gl)));
            assert forall|v: int, e: int| in_tree(gn, v) implies match #[trigger] exit_target(
                gj,
                gl,
                v,
                e,
            ) {
                Option::Some(w) => in_tree(gn, w),
                Option::None => true,
            } by {
                let k = choose|k: int| 0 <= k < gn.len() && #[trigger] gn[k].junction == v;
                assert(0 <= v < gj.len());
                assert(visited@[v]);
                if v == 0 {
                    assert(neighbors_visited(gj, gl, 0, visited@));
                } else {
                    assert(!pre_call[v]);
                    assert(neighbors_visited(gj, gl, v, visited@));
                }
                match exit_target(gj, gl, v, e) {
                    Option::Some(w) => {
                        assert(visited@[w]);
                        assert(in_tree(gn, w));
                    },
                    Option::None => {},
                }
            }
            assert(tree_closed(nodes@, self.junctions@, self.links@));
        }
        let mut k: usize = 0;
        while k < nodes.len()
            invariant
                tree_wf(nodes@, self.junctions@.len() as int),
                nodes@.len() >= 1,
                out@.len() == k,
                k <= nodes@.len(),
                forall|m: int|
                    0 <= m < out@.len() ==> out@[m] == self.junctions@[(
                    #[trigger] nodes@[m].junction) as int].id,
            decreases nodes@.len() - k,
        {
            let jidx = nodes[k].junction;
            out.push(self.junctions[jidx].id);
            proof {
                assert(out@[k as int] == self.junctions@[jidx as int].id);
            }
            k = k + 1;
        }
        proof {
            let canon = spec_spanning_arena(self.junctions@, self.links@);
            assert(out@.len() == canon.len());
            assert forall|k: int|
                0 <= k < canon.len() implies 0 <= (#[trigger] canon[k]).junction
                < self.junctions@.len() && out@[k] == self.junctions@[canon[k].junction].id by {
                assert(nodes@[k].junction as int == canon[k].junction);
                assert(nodes@[k].junction < self.junctions@.len());
                assert(out@[k] == self.junctions@[nodes@[k].junction as int].id);
            }
        }
        out
    }

    /// The routing-table scan: the first stored hop standing at
    /// `junc_id` whose recorded destination is `dest_junc` (when
    /// `to_dest`) or `src_junc` (when not).
    pub fn route(&self, junc_id: u32, src_junc: u32, dest_junc: u32, to_dest: bool) -> (r: Option<
        Hop,
    >)
        ensures
            r == route_scan(self.routing.hops@, junc_id, src_junc, dest_junc, to_dest, 0),
    {
        let mut i: usize = 0;
        while i < self.routing.hops.len()
            invariant
                i <= self.routing.hops@.len(),
                route_scan(self.routing.hops@, junc_id, src_junc, dest_junc, to_dest, 0)
                    == route_scan(
                    self.routing.hops@,
                    junc_id,
                    src_junc,
                    dest_junc,
                    to_dest,
                    i as int,
                ),
            decreases self.routing.hops@.len() - i,
        {
            let hop = self.routing.hops[i];
            if hop.junction == junc_id && hop.dest_junc == dest_junc && to_dest {
                return Option::Some(hop);
            }
            if hop.junction == junc_id && hop.dest_junc == src_junc && !to_dest {
                return Option::Some(hop);
            }
            i = i + 1;
        }
        Option::None
    }
}

/// Two arenas that agree on every node's junction, parent and children
/// agree on every root path.
proof fn lemma_spec_path_congruence(a: Seq<SpanningNode>, b: Seq<SpanningNode>, k: int)
    requires
        a.len() == b.len(),
        forall|m: int|
            0 <= m < a.len() ==> (#[trigger] a[m]).junction == b[m].junction && a[m].parent
                == b[m].parent && a[m].children@ == b[m].children@,
    ensures
        spec_path(a, k) == spec_path(b, k),
    decreases k,
{
    if 0 <= k < a.len() {
        match a[k].parent {
            Option::Some(p) => {
                if (p as int) < k {
                    lemma_spec_path_congruence(a, b, p as int);
                }
            },
            Option::None => {},
        }
    }
}

/// The hop fan-out along a path reads the arena only through junctions.
proof fn lemma_add_dests_congruence(
    hops: Seq<Hop>,
    junctions: Seq<Junction>,
    a: Seq<SpanningNode>,
    b: Seq<SpanningNode>,
    path: Seq<int>,
    src_id: u32,
    heading: u32,
    j: int,
)
    requires
        a.len() == b.len(),
        forall|m: int|
            0 <= m < a.len() ==> (#[trigger] a[m]).junction == b[m].junction && a[m].parent
                == b[m].parent && a[m].children@ == b[m].children@,
    ensures
        add_dests(hops, junctions, a, path, src_id, heading, j) == add_dests(
            hops,
            junctions,
            b,
            path,
            src_id,
            heading,
            j,
        ),
    decreases path.len() - j,
{
    if 0 <= j < path.len() {
        assert(node_junc_id(junctions, a, path[j]) == node_junc_id(junctions, b, path[j]));
        lemma_add_dests_congruence(
            spec_insert(
                hops,
                Hop {
                    junction: src_id,
                    dest_junc: node_junc_id(junctions, a, path[j]),
                    exit: heading,
                },
            ),
            junctions,
            a,
            b,
            path,
            src_id,
            heading,
            j + 1,
        );
    }
}

/// The pair walk along a path reads the arena only through junctions.
proof fn lemma_add_pairs_congruence(
    hops: Seq<Hop>,
    links: Seq<Link>,
    junctions: Seq<Junction>,
    a: Seq<SpanningNode>,
    b: Seq<SpanningNode>,
    path: Seq<int>,
    i: int,
)
    requires
        a.len() == b.len(),
        forall|m: int|
            0 <= m < a.len() ==> (#[trigger] a[m]).junction == b[m].junction && a[m].parent
                == b[m].parent && a[m].children@ == b[m].children@,
    ensures
        add_pairs(hops, links, junctions, a, path, i) == add_pairs(
            hops,
            links,
            junctions,
            b,
            path,
            i,
        ),
    decreases path.len() - i,
{
    if 0 <= i && i + 1 < path.len() {
        let valid = 0 <= path[i] < a.len() && a[path[i]].junction < junctions.len() && 0 <= path[i
            + 1] < a.len() && a[path[i + 1]].junction < junctions.len();
        if valid {
            let src = junctions[a[path[i]].junction as int];
            let e = crate::network::find_exit_scan(
                links,
                junctions,
                src,
                junctions[a[path[i + 1]].junction as int],
                0,
            );
            if 0 <= e < src.links@.len() && src.links@[e].exit != 270 {
                lemma_add_dests_congruence(
                    hops,
                    junctions,
                    a,
                    b,
                    path,
                    src.id,
                    src.links@[e].exit,
                    i + 1,
                );
                lemma_add_pairs_congruence(
                    add_dests(hops, junctions, a, path, src.id, src.links@[e].exit, i + 1),
                    links,
                    junctions,
                    a,
                    b,
                    path,
                    i + 1,
                );
            } else {
                lemma_add_pairs_congruence(hops, links, junctions, a, b, path, i + 1);
            }
        } else {
            lemma_add_pairs_congruence(hops, links, junctions, a, b, path, i + 1);
        }
    }
}

/// The leaf walk reads the arena only through junctions, parents and
/// children, so two arenas matching the same canonical arena give rise
/// to the same routing table.
pub proof fn lemma_build_routes_canonical(
    hops: Seq<Hop>,
    links: Seq<Link>,
    junctions: Seq<Junction>,
    a: Seq<SpanningNode>,
    b: Seq<SpanningNode>,
    canon: Seq<GhostNode>,
)
    requires
        arena_matches(a, canon),
        arena_matches(b, canon),
    ensures
        spec_build_routes(hops, links, junctions, a) == spec_build_routes(
            hops,
            links,
            junctions,
            b,
        ),
{
    assert forall|m: int|
        0 <= m < a.len() implies (#[trigger] a[m]).junction == b[m].junction && a[m].parent
        == b[m].parent && a[m].children@ == b[m].children@ by {
        assert(a[m].junction as int == canon[m].junction);
        assert(b[m].junction as int == canon[m].junction);
        assert(a[m].children@.len() == canon[m].children.len());
        assert(b[m].children@.len() == canon[m].children.len());
        assert forall|c: int|
            0 <= c < a[m].children@.len() implies (#[trigger] a[m].children@[c])
                == b[m].children@[c] by {
            assert(a[m].children@[c] as int == canon[m].children[c]);
            assert(b[m].children@[c] as int == canon[m].children[c]);
        }
        assert(a[m].children@ =~= b[m].children@);
        match (a[m].parent, b[m].parent, canon[m].parent) {
            (Option::Some(p), Option::Some(q), Option::Some(r)) => {
                assert(p as int == r && q as int == r);
            },
            _ => {},
        }
    }
    lemma_add_leaves_congruence(hops, links, junctions, a, b, 0);
}

proof fn lemma_add_leaves_congruence(
    hops: Seq<Hop>,
    links: Seq<Link>,
    junctions: Seq<Junction>,
    a: Seq<SpanningNode>,
    b: Seq<SpanningNode>,
    idx: int,
)
    requires
        a.len() == b.len(),
        forall|m: int|
            0 <= m < a.len() ==> (#[trigger] a[m]).junction == b[m].junction && a[m].parent
                == b[m].parent && a[m].children@ == b[m].children@,
    ensures
        add_leaves(hops, links, junctions, a, idx) == add_leaves(hops, links, junctions, b, idx),
    decreases a.len() - idx,
{
    if 0 <= idx < a.len() {
        lemma_spec_path_congruence(a, b, idx);
        let h2 = if a[idx].children@.len() == 0 {
            add_pairs(hops, links, junctions, a, spec_path(a, idx), 0)
        } else {
            hops
        };
        if a[idx].children@.len() == 0 {
            lemma_add_pairs_congruence(hops, links, junctions, a, b, spec_path(a, idx), 0);
        }
        lemma_add_leaves_congruence(h2, links, junctions, a, b, idx + 1);
    }
}

/// The record stores of a three-junction line: link 1 joins junction 1
/// to junction 2 heading north, link 2 joins junction 2 to junction 3
/// heading north.
pub open spec fn line_stores(links: Seq<Link>, junctions: Seq<Junction>) -> bool {
    &&& links.len() == 2
    &&& links[0].id == 1 && links[0].origin == Option::Some(1u32) && links[0].destination
        == Option::Some(2u32)
    &&& links[1].id == 2 && links[1].origin == Option::Some(2u32) && links[1].destination
        == Option::Some(3u32)
    &&& junctions.len() == 3
    &&& junctions[0].id == 1 && junctions[0].links@ == seq![
        crate::junction::Exit { link_id: 1u16, exit: 0u32 },
    ]
    &&& junctions[1].id == 2 && junctions[1].links@ == seq![
        crate::junction::Exit { link_id: 2u16, exit: 0u32 },
        crate::junction::Exit { link_id: 1u16, exit: 180u32 },
    ]
    &&& junctions[2].id == 3 && junctions[2].links@ == seq![
        crate::junction::Exit { link_id: 2u16, exit: 180u32 },
    ]
}

/// Seed scenario: on the line, the properties the loader establishes
/// pin the spanning arena completely, the routing table it gives rise
/// to is the three northward hops, and the query for junction 2 from
/// junction 1 answers the stored hop with exit heading 0.
pub proof fn lemma_line_route_to_next(
    links: Seq<Link>,
    junctions: Seq<Junction>,
    nodes: Seq<SpanningNode>,
    hops: Seq<Hop>,
)
    requires
        line_stores(links, junctions),
        tree_wf(nodes, 3),
        children_linked(nodes),
        tree_edges_valid(nodes, junctions, links),
        nodes.len() >= 1,
        nodes[0].junction == 0,
        in_tree(nodes, 0),
        tree_closed(nodes, junctions, links),
        hops == spec_build_routes(Seq::empty(), links, junctions, nodes),
    ensures
        route_scan(hops, 1, 1, 2, true, 0) == Option::Some(
            Hop { junction: 1, dest_junc: 2, exit: 0 },
        ),
{
    reveal(children_linked);
    let ex1 = junctions[0].links@;
    let ex2 = junctions[1].links@;
    let ex3 = junctions[2].links@;
    // The closure property puts all three junctions in the tree.
    assert(crate::network::spec_link_at(links, 1) == Option::Some(links[0]));
    assert(crate::network::spec_link_at(links, 2) == Option::Some(links[1]));
    assert(dfs_other_end(links, 1, 1) == Option::Some(2u32));
    assert(dfs_other_end(links, 2, 2) == Option::Some(3u32));
    assert(ex1[0] == (crate::junction::Exit { link_id: 1u16, exit: 0u32 }));
    assert(ex2[0] == (crate::junction::Exit { link_id: 2u16, exit: 0u32 }));
    assert(exit_target(junctions, links, 0, 0) == Option::<int>::Some(1));
    assert(in_tree(nodes, 1));
    assert(exit_target(junctions, links, 1, 0) == Option::<int>::Some(2));
    assert(in_tree(nodes, 2));
    // Exactly three nodes: the junction indices are distinct and lie in
    // a three-element range.
    let k1 = choose|k: int| 0 <= k < nodes.len() && #[trigger] nodes[k].junction == 1;
    let k2 = choose|k: int| 0 <= k < nodes.len() && #[trigger] nodes[k].junction == 2;
    assert(k1 != 0 && k2 != 0 && k1 != k2);
    assert(nodes.len() >= 3);
    assert(nodes.len() <= 3) by {
        if nodes.len() > 3 {
            assert(nodes[0].junction != nodes[1].junction);
            assert(nodes[0].junction != nodes[2].junction);
            assert(nodes[0].junction != nodes[3].junction);
            assert(nodes[1].junction != nodes[2].junction);
            assert(nodes[1].junction != nodes[3].junction);
            assert(nodes[2].junction != nodes[3].junction);
            assert(nodes[1].junction < 3 && nodes[2].junction < 3 && nodes[3].junction < 3);
            assert(false);
        }
    }
    // Node 1 hangs under the root, so edge validity forces its
    // junction: the root junction's one exit leads to junction index 1.
    assert(nodes[1].parent == Option::Some(0usize)) by {
        match nodes[1].parent {
            Option::Some(p) => {
                assert(0 <= p < 1);
            },
            Option::None => {
                assert(false);
            },
        }
    }
    assert(edge_ok(nodes, junctions, links, 1));
    assert(nodes[1].junction == 1) by {
        assert(junction_edge_ok(junctions[0], nodes[1].junction, links));
        let e = choose|e: int|
            0 <= e < junctions[0].links@.len() && ({
                let w = dfs_other_end(
                    links,
                    (#[trigger] junctions[0].links@[e]).link_id as int,
                    junctions[0].id,
                );
                &&& w is Some
                &&& w.unwrap() >= 1
                &&& w.unwrap() - 1 == nodes[1].junction
            });
        assert(e == 0);
    }
    assert(nodes[2].junction == 2) by {
        assert(nodes[2].junction != 0 && nodes[2].junction != 1 && nodes[2].junction < 3);
    }
    // Node 2 cannot hang under the root (the root junction's one exit
    // leads elsewhere), so it hangs under node 1.
    assert(nodes[2].parent == Option::Some(1usize)) by {
        match nodes[2].parent {
            Option::Some(p) => {
                assert(0 <= p < 2);
                if p == 0 {
                    assert(edge_ok(nodes, junctions, links, 2));
                    assert(junction_edge_ok(junctions[0], nodes[2].junction, links));
                    let e = choose|e: int|
                        0 <= e < junctions[0].links@.len() && ({
                            let w = dfs_other_end(
                                links,
                                (#[trigger] junctions[0].links@[e]).link_id as int,
                                junctions[0].id,
                            );
                            &&& w is Some
                            &&& w.unwrap() >= 1
                            &&& w.unwrap() - 1 == nodes[2].junction
                        });
                    assert(e == 0);
                    assert(false);
                }
            },
            Option::None => {
                assert(false);
            },
        }
    }
    // The children lists are pinned by the parent pointers.
    assert(nodes[0].children@ =~= seq![1usize]) by {
        assert(nodes[0].children@.contains(1usize));
        assert(forall|ci: int|
            0 <= ci < nodes[0].children@.len() ==> #[trigger] nodes[0].children@[ci] == 1usize)
            by {
            assert(forall|ci: int|
                0 <= ci < nodes[0].children@.len() ==> nodes[(
                #[trigger] nodes[0].children@[ci]) as int].parent == Option::Some(0usize)
                    && 0 < nodes[0].children@[ci] < 3);
        }
        assert(nodes[0].children@.len() <= 1) by {
            if nodes[0].children@.len() >= 2 {
                assert(nodes[0].children@[0] < nodes[0].children@[1]);
                assert(false);
            }
        }
        let w = choose|w: int|
            0 <= w < nodes[0].children@.len() && nodes[0].children@[w] == 1usize;
        assert(nodes[0].children@.len() == 1);
    }
    assert(nodes[1].children@ =~= seq![2usize]) by {
        assert(nodes[1].children@.contains(2usize));
        assert(forall|ci: int|
            0 <= ci < nodes[1].children@.len() ==> #[trigger] nodes[1].children@[ci] == 2usize)
            by {
            assert(forall|ci: int|
                0 <= ci < nodes[1].children@.len() ==> nodes[(
                #[trigger] nodes[1].children@[ci]) as int].parent == Option::Some(1usize)
                    && 1 < nodes[1].children@[ci] < 3);
        }
        assert(nodes[1].children@.len() <= 1) by {
            if nodes[1].children@.len() >= 2 {
                assert(nodes[1].children@[0] < nodes[1].children@[1]);
                assert(false);
            }
        }
        let w = choose|w: int|
            0 <= w < nodes[1].children@.len() && nodes[1].children@[w] == 2usize;
        assert(nodes[1].children@.len() == 1);
    }
    assert(nodes[2].children@ =~= Seq::<usize>::empty()) by {
        if nodes[2].children@.len() >= 1 {
            assert(2 < nodes[2].children@[0] < 3);
            assert(false);
        }
    }
    // The one leaf is node 2, and its root path is the whole line.
    let path = spec_path(nodes, 2);
    assert(spec_path(nodes, 0) =~= seq![0int]);
    assert(spec_path(nodes, 1) =~= seq![0int, 1int]);
    assert(path =~= seq![0int, 1int, 2int]);
    // The synthesised table, pair by pair.
    let h12 = Hop { junction: 1u32, dest_junc: 2u32, exit: 0u32 };
    let h13 = Hop { junction: 1u32, dest_junc: 3u32, exit: 0u32 };
    let h23 = Hop { junction: 2u32, dest_junc: 3u32, exit: 0u32 };
    assert(crate::network::spec_junc_at(junctions, 1) == Option::Some(junctions[0]));
    assert(crate::network::spec_junc_at(junctions, 2) == Option::Some(junctions[1]));
    assert(crate::network::spec_junc_at(junctions, 3) == Option::Some(junctions[2]));
    assert(crate::network::find_exit_scan(links, junctions, junctions[0], junctions[1], 0) == 0);
    assert(crate::network::find_exit_scan(links, junctions, junctions[1], junctions[2], 0) == 0);
    assert(node_junc_id(junctions, nodes, 1) == 2);
    assert(node_junc_id(junctions, nodes, 2) == 3);
    let empty_hops = Seq::<Hop>::empty();
    assert(spec_insert(empty_hops, h12) =~= seq![h12]) by {
        assert(!empty_hops.contains(h12));
    }
    assert(spec_insert(seq![h12], h13) =~= seq![h12, h13]) by {
        assert(!seq![h12].contains(h13)) by {
            assert(seq![h12][0] != h13);
        }
        assert(seq![h12].push(h13) =~= seq![h12, h13]);
    }
    assert(add_dests(seq![h12, h13], junctions, nodes, path, 1, 0, 3) =~= seq![h12, h13]);
    assert(add_dests(seq![h12], junctions, nodes, path, 1, 0, 2) =~= seq![h12, h13]);
    assert(add_dests(empty_hops, junctions, nodes, path, 1, 0, 1) =~= seq![h12, h13]);
    assert(spec_insert(seq![h12, h13], h23) =~= seq![h12, h13, h23]) by {
        assert(!seq![h12, h13].contains(h23)) by {
            assert(seq![h12, h13][0] != h23);
            assert(seq![h12, h13][1] != h23);
        }
        assert(seq![h12, h13].push(h23) =~= seq![h12, h13, h23]);
    }
    assert(add_dests(seq![h12, h13, h23], junctions, nodes, path, 2, 0, 3) =~= seq![
        h12,
        h13,
        h23,
    ]);
    assert(add_dests(seq![h12, h13], junctions, nodes, path, 2, 0, 2) =~= seq![h12, h13, h23]);
    assert(add_pairs(seq![h12, h13, h23], links, junctions, nodes, path, 2) =~= seq![
        h12,
        h13,
        h23,
    ]);
    assert(add_pairs(seq![h12, h13], links, junctions, nodes, path, 1) =~= seq![h12, h13, h23]);
    assert(add_pairs(empty_hops, links, junctions, nodes, path, 0) =~= seq![h12, h13, h23]);
    assert(add_leaves(seq![h12, h13, h23], links, junctions, nodes, 3) =~= seq![h12, h13, h23]);
    assert(add_leaves(empty_hops, links, junctions, nodes, 2) =~= seq![h12, h13, h23]);
    assert(add_leaves(empty_hops, links, junctions, nodes, 1) =~= seq![h12, h13, h23]);
    assert(add_leaves(empty_hops, links, junctions, nodes, 0) =~= seq![h12, h13, h23]);
    assert(hops =~= seq![h12, h13, h23]);
    // The query scan answers the first matching hop.
    assert(hops[0] == h12);
    assert(route_scan(hops, 1, 1, 2, true, 0) == Option::Some(h12));
}

/// The first hop from index `i` on that matches the query, if any.
pub open spec fn route_scan(
    hops: Seq<Hop>,
    junc_id: u32,
    src_junc: u32,
    dest_junc: u32,
    to_dest: bool,
    i: int,
) -> Option<Hop>
    decreases hops.len() - i,
{
    if i < 0 || i >= hops.len() {
        Option::None
    } else if hops[i].junction == junc_id && ((to_dest && hops[i].dest_junc == dest_junc) || (
    !to_dest && hops[i].dest_junc == src_junc)) {
        Option::Some(hops[i])
    } else {
        route_scan(hops, junc_id, src_junc, dest_junc, to_dest, i + 1)
    }
}

} // verus!
