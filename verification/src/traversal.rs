//! Edge traversal over an adjacency-list graph: breadth-first and
//! depth-first walks from a start node, following edges forward,
//! backward, or both ways, with an optional depth cap.

use vstd::prelude::*;

verus! {

use vstd::set_lib::{lemma_int_range, lemma_len_subset, set_int_range};

/// Edge representation; the weight is kept in thousandths.
#[derive(Debug, Clone)]
pub struct Edge {
    /// Source node ID.
    pub source: u32,
    /// Target node ID.
    pub target: u32,
    /// Edge weight in thousandths (for weighted traversal).
    pub weight: u32,
    /// Edge type identifier.
    pub edge_type: u32,
    /// Edge metadata (free-form text).
    pub metadata: Option<String>,
}

/// Mathematical image of an [`Edge`].
pub ghost struct EdgeView {
    pub source: u32,
    pub target: u32,
    pub weight: u32,
    pub edge_type: u32,
    pub metadata: Option<Seq<char>>,
}

impl View for Edge {
    type V = EdgeView;

    open spec fn view(&self) -> EdgeView {
        EdgeView {
            source: self.source,
            target: self.target,
            weight: self.weight,
            edge_type: self.edge_type,
            metadata: match self.metadata {
                Some(m) => Some(m@),
                None => None,
            },
        }
    }
}

/// Views of a sequence of edges.
pub open spec fn edge_views(s: Seq<Edge>) -> Seq<EdgeView> {
    s.map_values(|e: Edge| e@)
}

/// Field-by-field copy of an edge; the copy has the same view.
fn clone_edge(e: &Edge) -> (r: Edge)
    ensures
        r@ == e@,
{
    Edge {
        source: e.source,
        target: e.target,
        weight: e.weight,
        edge_type: e.edge_type,
        metadata: match &e.metadata {
            Some(m) => Some(m.clone()),
            None => None,
        },
    }
}

/// Traversal direction.
#[derive(Debug, Clone, Copy, PartialEq, Eq, Structural)]
pub enum TraversalDirection {
    Forward,
    Backward,
    Bidirectional,
}

/// Traversal result containing visited edges and nodes.
#[derive(Debug, Clone)]
pub struct TraversalResult {
    /// Edges followed, in the order they were taken.
    pub edges: Vec<Edge>,
    /// Visited node IDs in traversal order.
    pub nodes: Vec<u32>,
    /// Total traversal time in microseconds; filled in by the caller
    /// that measures it, zero as returned here.
    pub duration_us: u64,
    /// Number of edges examined.
    pub edges_examined: usize,
}

/// One direction's adjacency table as a map from node id to the views of
/// the edges listed under it.
pub open spec fn adj_map(s: Seq<(u32, Vec<Edge>)>) -> Map<u32, Seq<EdgeView>>
    decreases s.len(),
{
    if s.len() == 0 {
        Map::empty()
    } else {
        adj_map(s.drop_last()).insert(s.last().0, edge_views(s.last().1@))
    }
}

/// No node id appears twice in a table.
pub open spec fn adj_keys_unique(s: Seq<(u32, Vec<Edge>)>) -> bool {
    forall|i: int, j: int| 0 <= i < j < s.len() ==> (#[trigger] s[i]).0 != (#[trigger] s[j]).0
}

proof fn lemma_adj_dom(s: Seq<(u32, Vec<Edge>)>, k: u32)
    ensures
        adj_map(s).dom().contains(k) <==> exists|i: int| 0 <= i < s.len() && (#[trigger] s[i]).0
            == k,
    decreases s.len(),
{
    if s.len() > 0 {
        lemma_adj_dom(s.drop_last(), k);
        if adj_map(s).dom().contains(k) {
            if s.last().0 != k {
                let d = s.drop_last();
                let i = choose|i: int| 0 <= i < d.len() && (#[trigger] d[i]).0 == k;
                assert(s[i].0 == k);
            } else {
                assert(s[s.len() - 1].0 == k);
            }
        }
        if exists|i: int| 0 <= i < s.len() && (#[trigger] s[i]).0 == k {
            let i = choose|i: int| 0 <= i < s.len() && (#[trigger] s[i]).0 == k;
            if i < s.len() - 1 {
                assert(s.drop_last()[i].0 == k);
            }
        }
    }
}

proof fn lemma_adj_index(s: Seq<(u32, Vec<Edge>)>, i: int)
    requires
        adj_keys_unique(s),
        0 <= i < s.len(),
    ensures
        adj_map(s).dom().contains(s[i].0),
        adj_map(s)[s[i].0] == edge_views(s[i].1@),
    decreases s.len(),
{
    if i < s.len() - 1 {
        assert(adj_keys_unique(s.drop_last()));
        assert(s.drop_last()[i] == s[i]);
        lemma_adj_index(s.drop_last(), i);
        assert(s[i].0 != s.last().0);
    }
}

proof fn lemma_adj_update(s: Seq<(u32, Vec<Edge>)>, i: int, e: (u32, Vec<Edge>))
    requires
        adj_keys_unique(s),
        0 <= i < s.len(),
        s[i].0 == e.0,
    ensures
        adj_keys_unique(s.update(i, e)),
        adj_map(s.update(i, e)) == adj_map(s).insert(e.0, edge_views(e.1@)),
    decreases s.len(),
{
    let t = s.update(i, e);
    assert(adj_keys_unique(t));
    if i == s.len() - 1 {
        assert(t.drop_last() =~= s.drop_last());
        assert(t.last() == e);
        assert(adj_map(t) =~= adj_map(s).insert(e.0, edge_views(e.1@)));
    } else {
        assert(adj_keys_unique(s.drop_last()));
        assert(s.drop_last()[i] == s[i]);
        lemma_adj_update(s.drop_last(), i, e);
        assert(t.drop_last() =~= s.drop_last().update(i, e));
        assert(t.last() == s.last());
        assert(s[i].0 != s.last().0);
        assert(adj_map(t) =~= adj_map(s).insert(e.0, edge_views(e.1@)));
    }
}

/// One direction's table of an adjacency list.
struct AdjSide {
    entries: Vec<(u32, Vec<Edge>)>,
}

impl AdjSide {
    spec fn map(self) -> Map<u32, Seq<EdgeView>> {
        adj_map(self.entries@)
    }

    spec fn wf(self) -> bool {
        adj_keys_unique(self.entries@)
    }

    fn new() -> (r: Self)
        ensures
            r.wf(),
            r.map() =~= Map::<u32, Seq<EdgeView>>::empty(),
    {
        AdjSide { entries: Vec::new() }
    }

    fn find(&self, id: u32) -> (r: Option<usize>)
        ensures
            match r {
                Some(i) => i < self.entries@.len() && self.entries@[i as int].0 == id,
                None => forall|i: int|
                    0 <= i < self.entries@.len() ==> (#[trigger] self.entries@[i]).0 != id,
            },
    {
        let mut i: usize = 0;
        while i < self.entries.len()
            invariant
                i <= self.entries@.len(),
                forall|j: int| 0 <= j < i ==> (#[trigger] self.entries@[j]).0 != id,
            decreases self.entries@.len() - i,
        {
            if self.entries[i].0 == id {
                return Some(i);
            }
            i += 1;
        }
        None
    }

    /// Appends an edge to the list under `key`.
    fn push_edge(&mut self, key: u32, edge: Edge)
        requires
            old(self).wf(),
        ensures
            final(self).wf(),
            final(self).map() == old(self).map().insert(
                key,
                if old(self).map().dom().contains(key) {
                    old(self).map()[key].push(edge@)
                } else {
                    seq![edge@]
                },
            ),
    {
        let ghost pre = self.entries@;
        let found = self.find(key);
        proof {
            lemma_adj_dom(pre, key);
        }
        match found {
            Some(i) => {
                proof {
                    lemma_adj_index(pre, i as int);
                }
                let (k, mut list) = self.entries.remove(i);
                let ghost plist = list@;
                list.push(edge);
                self.entries.insert(i, (k, list));
                proof {
                    assert(edge_views(plist.push(edge)) =~= edge_views(plist).push(edge@));
                    assert(self.entries@ =~= pre.update(i as int, self.entries@[i as int]));
                    lemma_adj_update(pre, i as int, self.entries@[i as int]);
                }
            },
            None => {
                let mut list: Vec<Edge> = Vec::new();
                list.push(edge);
                self.entries.push((key, list));
                proof {
                    assert(self.entries@.drop_last() =~= pre);
                    assert(edge_views(self.entries@.last().1@) =~= seq![edge@]);
                }
            },
        }
    }

    /// The stored list under `key`, if any.
    fn get(&self, key: u32) -> (r: Option<&Vec<Edge>>)
        requires
            self.wf(),
        ensures
            match r {
                Some(v) => self.map().dom().contains(key) && edge_views(v@) == self.map()[key],
                None => !self.map().dom().contains(key),
            },
    {
        let found = self.find(key);
        proof {
            lemma_adj_dom(self.entries@, key);
        }
        match found {
            Some(i) => {
                proof {
                    lemma_adj_index(self.entries@, i as int);
                }
                Some(&self.entries[i].1)
            },
            None => None,
        }
    }
}

/// Adjacency list representation for efficient edge lookup, indexed both
/// by source (forward) and by target (backward).
pub struct AdjacencyList {
    forward: AdjSide,
    backward: AdjSide,
    edge_count: usize,
}

impl AdjacencyList {
    /// Forward table: edges by source node.
    pub closed spec fn fwd(self) -> Map<u32, Seq<EdgeView>> {
        self.forward.map()
    }

    /// Backward table: edges by target node.
    pub closed spec fn bwd(self) -> Map<u32, Seq<EdgeView>> {
        self.backward.map()
    }

    /// Number of edges added.
    pub closed spec fn spec_edge_count(self) -> int {
        self.edge_count as int
    }

    /// Structural invariant: both tables keyed uniquely, the forward one
    /// listing each edge under its source, the backward one under its
    /// target.
    pub closed spec fn wf(self) -> bool {
        &&& self.forward.wf()
        &&& self.backward.wf()
        &&& forall|k: u32, i: int|
            self.fwd().dom().contains(k) && 0 <= i < self.fwd()[k].len() ==> (
            #[trigger] self.fwd()[k][i]).source == k
        &&& forall|k: u32, i: int|
            self.bwd().dom().contains(k) && 0 <= i < self.bwd()[k].len() ==> (
            #[trigger] self.bwd()[k][i]).target == k
    }

    /// An edge the graph holds, in either table.
    pub open spec fn spec_has_edge(self, e: EdgeView) -> bool {
        ||| (exists|k: u32| self.fwd().dom().contains(k) && (#[trigger] self.fwd()[k]).contains(e))
        ||| (exists|k: u32| self.bwd().dom().contains(k) && (#[trigger] self.bwd()[k]).contains(e))
    }

    /// Create new empty adjacency list.
    pub fn new() -> (r: Self)
        ensures
            r.wf(),
            r.fwd() =~= Map::<u32, Seq<EdgeView>>::empty(),
            r.bwd() =~= Map::<u32, Seq<EdgeView>>::empty(),
            r.spec_edge_count() == 0,
    {
        AdjacencyList { forward: AdjSide::new(), backward: AdjSide::new(), edge_count: 0 }
    }

    /// Add an edge: it is listed under its source in the forward table
    /// and under its target in the backward one.
    pub fn add_edge(&mut self, edge: Edge)
        requires
            old(self).wf(),
            old(self).spec_edge_count() < usize::MAX,
        ensures
            final(self).wf(),
            final(self).fwd() == old(self).fwd().insert(
                edge.source,
                if old(self).fwd().dom().contains(edge.source) {
                    old(self).fwd()[edge.source].push(edge@)
                } else {
                    seq![edge@]
                },
            ),
            final(self).bwd() == old(self).bwd().insert(
                edge.target,
                if old(self).bwd().dom().contains(edge.target) {
                    old(self).bwd()[edge.target].push(edge@)
                } else {
                    seq![edge@]
                },
            ),
            final(self).spec_edge_count() == old(self).spec_edge_count() + 1,
    {
        let source = edge.source;
        let target = edge.target;
        self.forward.push_edge(source, clone_edge(&edge));
        self.backward.push_edge(target, edge);
        self.edge_count = self.edge_count + 1;
    }

    /// Get outgoing edges from a node.
    pub fn get_outgoing(&self, node_id: u32) -> (r: Option<&Vec<Edge>>)
        requires
            self.wf(),
        ensures
            match r {
                Some(v) => self.fwd().dom().contains(node_id) && edge_views(v@)
                    == self.fwd().index(node_id),
                None => !self.fwd().dom().contains(node_id),
            },
    {
        self.forward.get(node_id)
    }

    /// Get incoming edges to a node.
    pub fn get_incoming(&self, node_id: u32) -> (r: Option<&Vec<Edge>>)
        requires
            self.wf(),
        ensures
            match r {
                Some(v) => self.bwd().dom().contains(node_id) && edge_views(v@)
                    == self.bwd().index(node_id),
                None => !self.bwd().dom().contains(node_id),
            },
    {
        self.backward.get(node_id)
    }

    /// Get total edge count.
    pub fn edge_count(&self) -> (r: usize)
        ensures
            r == self.spec_edge_count(),
    {
        self.edge_count
    }
}

/// A sequence of distinct 32-bit ids can hold at most 2^32 of them.
proof fn lemma_distinct_u32_bounded(s: Seq<u32>)
    requires
        s.no_duplicates(),
    ensures
        s.len() <= 0x1_0000_0000,
{
    let ints = s.map_values(|x: u32| x as int);
    assert(ints.no_duplicates());
    ints.unique_seq_to_set();
    assert forall|x: int| ints.to_set().contains(x) implies set_int_range(
        0,
        0x1_0000_0000,
    ).contains(x) by {
        let i = choose|i: int| 0 <= i < ints.len() && ints[i] == x;
        assert(ints[i] == s[i] as int);
    }
    lemma_int_range(0, 0x1_0000_0000);
    lemma_len_subset(ints.to_set(), set_int_range(0, 0x1_0000_0000));
}

/// Whether a vector of ids holds one already.
fn contains_id(v: &Vec<u32>, id: u32) -> (r: bool)
    ensures
        r == v@.contains(id),
{
    let mut i: usize = 0;
    while i < v.len()
        invariant
            i <= v@.len(),
            forall|j: int| 0 <= j < i ==> v@[j] != id,
        decreases v@.len() - i,
    {
        if v[i] == id {
            proof {
                assert(v@[i as int] == id);
            }
            return true;
        }
        i += 1;
    }
    false
}

/// Whether a node is an endpoint of some edge in the sequence.
pub open spec fn node_connected(n: u32, edges: Seq<EdgeView>) -> bool {
    exists|j: int| 0 <= j < edges.len() && (n == (#[trigger] edges[j]).source || n == edges[j].target)
}

/// An endpoint of an edge of a sequence stays one when the sequence grows.
proof fn lemma_connected_push(n: u32, es: Seq<EdgeView>, e: EdgeView)
    requires
        node_connected(n, es),
    ensures
        node_connected(n, es.push(e)),
{
    let j = choose|j: int| 0 <= j < es.len() && (n == (#[trigger] es[j]).source || n == es[j].target);
    assert(es.push(e)[j] == es[j]);
}

/// The node an edge leads to from `n` for a direction.
pub open spec fn next_of(e: EdgeView, n: u32, direction: TraversalDirection) -> u32 {
    match direction {
        TraversalDirection::Forward => e.target,
        TraversalDirection::Backward => e.source,
        TraversalDirection::Bidirectional => if e.source == n {
            e.target
        } else {
            e.source
        },
    }
}

/// Whether a node still waits in the breadth-first queue.
pub open spec fn in_queue(q: Seq<(u32, u32)>, n: u32) -> bool {
    exists|j: int| 0 <= j < q.len() && (#[trigger] q[j]).0 == n
}

/// The node ids on the depth-first stack.
pub open spec fn stack_nodes(st: Seq<(u32, u32)>) -> Seq<u32> {
    st.map_values(|p: (u32, u32)| p.0)
}

/// Membership in a sequence survives a push.
proof fn lemma_contains_push(v: Seq<u32>, x: u32, y: u32)
    requires
        v.contains(y),
    ensures
        v.push(x).contains(y),
{
    let i = choose|i: int| 0 <= i < v.len() && v[i] == y;
    assert(v.push(x)[i] == y);
}

impl AdjacencyList {
    /// The edges a walk examines at a node for a direction: the node's
    /// outgoing list, its incoming list, or both in that order; a list
    /// the node has no entry for is empty.
    pub open spec fn spec_edges_at(self, n: u32, direction: TraversalDirection) -> Seq<EdgeView> {
        let f = if self.fwd().dom().contains(n) {
            self.fwd()[n]
        } else {
            Seq::empty()
        };
        let b = if self.bwd().dom().contains(n) {
            self.bwd()[n]
        } else {
            Seq::empty()
        };
        match direction {
            TraversalDirection::Forward => f,
            TraversalDirection::Backward => b,
            TraversalDirection::Bidirectional => f + b,
        }
    }

    /// A node is fully expanded when every edge the walk examines at it
    /// leads to a node among `visited`.
    pub open spec fn spec_expanded(
        self,
        n: u32,
        direction: TraversalDirection,
        visited: Seq<u32>,
    ) -> bool {
        forall|i: int|
            0 <= i < self.spec_edges_at(n, direction).len() ==> visited.contains(
                next_of(#[trigger] self.spec_edges_at(n, direction)[i], n, direction),
            )
    }
}

/// A fully expanded node stays fully expanded when the visited set only
/// grows.
proof fn lemma_expanded_grow(
    adj: AdjacencyList,
    n: u32,
    direction: TraversalDirection,
    v1: Seq<u32>,
    v2: Seq<u32>,
)
    requires
        adj.spec_expanded(n, direction, v1),
        forall|x: u32| #[trigger] v1.contains(x) ==> v2.contains(x),
    ensures
        adj.spec_expanded(n, direction, v2),
{
    assert forall|i: int| 0 <= i < adj.spec_edges_at(n, direction).len() implies v2.contains(
        next_of(#[trigger] adj.spec_edges_at(n, direction)[i], n, direction),
    ) by {
        assert(v1.contains(next_of(adj.spec_edges_at(n, direction)[i], n, direction)));
    }
}

impl AdjacencyList {
    /// The edges to examine at `current` for a direction: the outgoing
    /// list, the incoming list, or both concatenated.
    fn edges_to_check(&self, current: u32, direction: TraversalDirection) -> (r: Vec<Edge>)
        requires
            self.wf(),
        ensures
            edge_views(r@) == self.spec_edges_at(current, direction),
            forall|i: int| 0 <= i < r@.len() ==> self.spec_has_edge((#[trigger] r@[i])@),
            direction != TraversalDirection::Backward ==> forall|i: int|
                0 <= i < r@.len() ==> (#[trigger] r@[i])@.source == current || r@[i]@.target
                    == current,
            direction == TraversalDirection::Backward ==> forall|i: int|
                0 <= i < r@.len() ==> (#[trigger] r@[i])@.target == current,
    {
        let mut out: Vec<Edge> = Vec::new();
        if direction == TraversalDirection::Forward || direction
            == TraversalDirection::Bidirectional {
            match self.get_outgoing(current) {
                Some(list) => {
                    let mut i: usize = 0;
                    while i < list.len()
                        invariant
                            self.wf(),
                            i <= list@.len(),
                            self.fwd().dom().contains(current),
                            edge_views(list@) == self.fwd()[current],
                            edge_views(out@) == self.fwd()[current].take(i as int),
                            forall|j: int|
                                0 <= j < out@.len() ==> self.spec_has_edge(
                                    (#[trigger] out@[j])@,
                                ) && (out@[j]@.source == current || out@[j]@.target == current),
                        decreases list@.len() - i,
                    {
                        proof {
                            assert(edge_views(list@)[i as int] == list@[i as int]@);
                            assert(self.fwd()[current].contains(list@[i as int]@));
                        }
                        let ghost pre = out@;
                        out.push(clone_edge(&list[i]));
                        proof {
                            assert(edge_views(out@) =~= edge_views(pre).push(list@[i as int]@));
                            assert(edge_views(out@) =~= self.fwd()[current].take(i + 1));
                        }
                        i += 1;
                    }
                    proof {
                        assert(self.fwd()[current].take(list@.len() as int)
                            =~= self.fwd().index(current));
                    }
                },
                None => {},
            }
        }
        let ghost fwd_part = edge_views(out@);
        proof {
            if direction != TraversalDirection::Backward {
                assert(fwd_part =~= if self.fwd().dom().contains(current) {
                    self.fwd()[current]
                } else {
                    Seq::<EdgeView>::empty()
                });
            }
        }
        if direction == TraversalDirection::Backward || direction
            == TraversalDirection::Bidirectional {
            match self.get_incoming(current) {
                Some(list) => {
                    let mut i: usize = 0;
                    while i < list.len()
                        invariant
                            self.wf(),
                            i <= list@.len(),
                            self.bwd().dom().contains(current),
                            edge_views(list@) == self.bwd()[current],
                            edge_views(out@) == fwd_part + self.bwd()[current].take(i as int),
                            forall|j: int|
                                0 <= j < out@.len() ==> self.spec_has_edge(
                                    (#[trigger] out@[j])@,
                                ) && (out@[j]@.source == current || out@[j]@.target == current)
                                    && (direction == TraversalDirection::Backward
                                    ==> out@[j]@.target == current),
                        decreases list@.len() - i,
                    {
                        proof {
                            assert(edge_views(list@)[i as int] == list@[i as int]@);
                            assert(self.bwd()[current].contains(list@[i as int]@));
                        }
                        let ghost pre = out@;
                        out.push(clone_edge(&list[i]));
                        proof {
                            assert(edge_views(out@) =~= edge_views(pre).push(list@[i as int]@));
                            assert(edge_views(out@) =~= fwd_part + self.bwd()[current].take(
                                i + 1,
                            ));
                        }
                        i += 1;
                    }
                    proof {
                        assert(self.bwd()[current].take(list@.len() as int)
                            =~= self.bwd().index(current));
                    }
                },
                None => {},
            }
        }
        proof {
            assert(edge_views(out@) =~= self.spec_edges_at(current, direction));
        }
        out
    }

    /// Breadth-first traversal from `start_node`, following edges in the
    /// given direction, visiting each node at most once, and stopping at
    /// `max_depth` levels when one is given. Every reported edge is an
    /// edge of the graph, every visited node beyond the start was
    /// reached over some reported edge, and without a depth cap the
    /// walk is complete: every edge at a visited node leads to a
    /// visited node.
    pub fn bfs_traverse(
        &self,
        start_node: u32,
        direction: TraversalDirection,
        max_depth: Option<u32>,
    ) -> (r: TraversalResult)
        requires
            self.wf(),
        ensures
            r.nodes@.no_duplicates(),
            r.nodes@.len() >= 1 && r.nodes@[0] == start_node,
            r.duration_us == 0,
            forall|i: int| 0 <= i < r.edges@.len() ==> self.spec_has_edge((#[trigger] r.edges@[i])@),
            forall|i: int|
                1 <= i < r.nodes@.len() ==> node_connected(
                    #[trigger] r.nodes@[i],
                    edge_views(r.edges@),
                ),
            max_depth is None ==> forall|i: int|
                0 <= i < r.nodes@.len() ==> self.spec_expanded(
                    #[trigger] r.nodes@[i],
                    direction,
                    r.nodes@,
                ),
    {
        let mut visited_edges: Vec<Edge> = Vec::new();
        let mut node_order: Vec<u32> = Vec::new();
        let mut queue: std::collections::VecDeque<(u32, u32)> =
            std::collections::VecDeque::new();
        let mut edges_examined: usize = 0;

        queue.push_back((start_node, 0));
        node_order.push(start_node);
        proof {
            assert(queue@[0].0 == start_node);
            assert(in_queue(queue@, start_node));
        }

        while queue.len() > 0
            invariant
                self.wf(),
                node_order@.no_duplicates(),
                node_order@.len() >= 1 && node_order@[0] == start_node,
                forall|i: int|
                    0 <= i < visited_edges@.len() ==> self.spec_has_edge(
                        (#[trigger] visited_edges@[i])@,
                    ),
                forall|i: int|
                    1 <= i < node_order@.len() ==> node_connected(
                        #[trigger] node_order@[i],
                        edge_views(visited_edges@),
                    ),
                max_depth is None ==> forall|i: int|
                    0 <= i < node_order@.len() ==> in_queue(queue@, #[trigger] node_order@[i])
                        || self.spec_expanded(node_order@[i], direction, node_order@),
            decreases 0x1_0000_0001 - node_order@.len(), queue@.len(),
        {
            proof {
                lemma_distinct_u32_bounded(node_order@);
            }
            let ghost qpre = queue@;
            let (current, depth) = match queue.pop_front() {
                Some(p) => p,
                None => {
                    proof {
                        assert(false);
                    }
                    (0, 0)
                },
            };
            proof {
                if max_depth is None {
                    assert forall|i: int| 0 <= i < node_order@.len() implies node_order@[i]
                        == current || in_queue(queue@, #[trigger] node_order@[i])
                        || self.spec_expanded(node_order@[i], direction, node_order@) by {
                        if in_queue(qpre, node_order@[i]) {
                            let j = choose|j: int|
                                0 <= j < qpre.len() && (#[trigger] qpre[j]).0 == node_order@[i];
                            if j == 0 {
                                assert(node_order@[i] == current);
                            } else {
                                assert(queue@[j - 1].0 == node_order@[i]);
                            }
                        }
                    }
                }
            }

            let expand = match max_depth {
                Some(max_d) => depth < max_d,
                None => true,
            };
            if expand {
                let to_check = self.edges_to_check(current, direction);
                let next_depth = if depth < u32::MAX {
                    depth + 1
                } else {
                    depth
                };
                let ghost nodes0 = node_order@;
                let ghost queue0 = queue@;
                let mut i: usize = 0;
                while i < to_check.len()
                    invariant
                        self.wf(),
                        i <= to_check@.len(),
                        node_order@.len() == nodes0.len() ==> queue@ == queue0,
                        node_order@.len() >= nodes0.len(),
                        edge_views(to_check@) == self.spec_edges_at(current, direction),
                        forall|j: int|
                            0 <= j < to_check@.len() ==> self.spec_has_edge(
                                (#[trigger] to_check@[j])@,
                            ),
                        node_order@.no_duplicates(),
                        node_order@.len() >= 1 && node_order@[0] == start_node,
                        forall|m: int|
                            0 <= m < i ==> node_order@.contains(
                                next_of((#[trigger] to_check@[m])@, current, direction),
                            ),
                        forall|j: int|
                            0 <= j < visited_edges@.len() ==> self.spec_has_edge(
                                (#[trigger] visited_edges@[j])@,
                            ),
                        forall|j: int|
                            1 <= j < node_order@.len() ==> node_connected(
                                #[trigger] node_order@[j],
                                edge_views(visited_edges@),
                            ),
                        max_depth is None ==> forall|j: int|
                            0 <= j < node_order@.len() ==> node_order@[j] == current || in_queue(
                                queue@,
                                #[trigger] node_order@[j],
                            ) || self.spec_expanded(node_order@[j], direction, node_order@),
                    decreases to_check@.len() - i,
                {
                    if edges_examined < usize::MAX {
                        edges_examined += 1;
                    }
                    let edge = &to_check[i];
                    let next_node = match direction {
                        TraversalDirection::Forward => edge.target,
                        TraversalDirection::Backward => edge.source,
                        TraversalDirection::Bidirectional => {
                            if edge.source == current {
                                edge.target
                            } else {
                                edge.source
                            }
                        },
                    };
                    proof {
                        assert(next_node == next_of(to_check@[i as int]@, current, direction));
                    }
                    if !contains_id(&node_order, next_node) {
                        let ghost e1 = edge_views(visited_edges@);
                        let ghost n1 = node_order@;
                        let ghost q1 = queue@;
                        node_order.push(next_node);
                        queue.push_back((next_node, next_depth));
                        visited_edges.push(clone_edge(edge));
                        proof {
                            let ev = to_check@[i as int]@;
                            let e2 = edge_views(visited_edges@);
                            assert(e2 =~= e1.push(ev));
                            assert(e2[e2.len() - 1] == ev);
                            assert(next_node == ev.source || next_node == ev.target);
                            assert(node_connected(next_node, e2));
                            assert forall|j: int|
                                1 <= j < node_order@.len() implies node_connected(
                                #[trigger] node_order@[j],
                                e2,
                            ) by {
                                if j < node_order@.len() - 1 {
                                    lemma_connected_push(node_order@[j], e1, ev);
                                }
                            }
                            assert forall|m: int| 0 <= m < i + 1 implies node_order@.contains(
                                next_of((#[trigger] to_check@[m])@, current, direction),
                            ) by {
                                if m < i {
                                    lemma_contains_push(
                                        n1,
                                        next_node,
                                        next_of(to_check@[m]@, current, direction),
                                    );
                                } else {
                                    assert(node_order@.last() == next_node);
                                }
                            }
                            if max_depth is None {
                                assert(in_queue(queue@, next_node)) by {
                                    assert(queue@[queue@.len() - 1].0 == next_node);
                                }
                                assert forall|j: int|
                                    0 <= j < node_order@.len() implies node_order@[j] == current
                                    || in_queue(queue@, #[trigger] node_order@[j])
                                    || self.spec_expanded(
                                    node_order@[j],
                                    direction,
                                    node_order@,
                                ) by {
                                    if j < n1.len() {
                                        if in_queue(q1, n1[j]) {
                                            let w = choose|w: int|
                                                0 <= w < q1.len() && (#[trigger] q1[w]).0
                                                    == n1[j];
                                            assert(queue@[w].0 == n1[j]);
                                        } else if n1[j] != current && self.spec_expanded(
                                            n1[j],
                                            direction,
                                            n1,
                                        ) {
                                            assert forall|x: u32| #[trigger]
                                                n1.contains(x) implies node_order@.contains(
                                                x,
                                            ) by {
                                                lemma_contains_push(n1, next_node, x);
                                            }
                                            lemma_expanded_grow(
                                                *self,
                                                n1[j],
                                                direction,
                                                n1,
                                                node_order@,
                                            );
                                        }
                                    }
                                }
                            }
                        }
                    } else {
                        proof {
                            assert(node_order@.contains(
                                next_of(to_check@[i as int]@, current, direction),
                            ));
                        }
                    }
                    i += 1;
                }
                proof {
                    if max_depth is None {
                        assert(self.spec_expanded(current, direction, node_order@)) by {
                            assert forall|m: int|
                                0 <= m < self.spec_edges_at(current, direction).len()
                                implies node_order@.contains(
                                next_of(
                                    #[trigger] self.spec_edges_at(current, direction)[m],
                                    current,
                                    direction,
                                ),
                            ) by {
                                assert(edge_views(to_check@)[m] == to_check@[m]@);
                                assert(self.spec_edges_at(current, direction)[m]
                                    == to_check@[m]@);
                            }
                        }
                    }
                }
            }
            proof {
                lemma_distinct_u32_bounded(node_order@);
                if max_depth is None {
                    assert forall|i: int| 0 <= i < node_order@.len() implies in_queue(
                        queue@,
                        #[trigger] node_order@[i],
                    ) || self.spec_expanded(node_order@[i], direction, node_order@) by {}
                }
            }
        }

        TraversalResult { edges: visited_edges, nodes: node_order, duration_us: 0, edges_examined }
    }

    /// Depth-first traversal from `start_node`: same guarantees as the
    /// breadth-first walk — including completeness without a depth cap —
    /// the nodes visited in depth-first order.
    pub fn dfs_traverse(
        &self,
        start_node: u32,
        direction: TraversalDirection,
        max_depth: Option<u32>,
    ) -> (r: TraversalResult)
        requires
            self.wf(),
        ensures
            r.nodes@.no_duplicates(),
            r.duration_us == 0,
            forall|i: int| 0 <= i < r.edges@.len() ==> self.spec_has_edge((#[trigger] r.edges@[i])@),
            forall|i: int|
                0 <= i < r.nodes@.len() ==> (#[trigger] r.nodes@[i]) == start_node
                    || node_connected(r.nodes@[i], edge_views(r.edges@)),
            max_depth is None ==> forall|i: int|
                0 <= i < r.nodes@.len() ==> self.spec_expanded(
                    #[trigger] r.nodes@[i],
                    direction,
                    r.nodes@,
                ),
    {
        let mut visited_edges: Vec<Edge> = Vec::new();
        let mut node_order: Vec<u32> = Vec::new();
        let mut stack: Vec<(u32, u32)> = Vec::new();
        let mut edges_examined: usize = 0;

        stack.push((start_node, 0));

        while stack.len() > 0
            invariant
                self.wf(),
                node_order@.no_duplicates(),
                forall|i: int|
                    0 <= i < visited_edges@.len() ==> self.spec_has_edge(
                        (#[trigger] visited_edges@[i])@,
                    ),
                forall|i: int|
                    0 <= i < node_order@.len() ==> (#[trigger] node_order@[i]) == start_node
                        || node_connected(node_order@[i], edge_views(visited_edges@)),
                forall|i: int|
                    0 <= i < stack@.len() ==> (#[trigger] stack@[i]).0 == start_node
                        || node_connected(stack@[i].0, edge_views(visited_edges@)),
                max_depth is None ==> forall|i: int|
                    0 <= i < node_order@.len() ==> self.spec_expanded(
                        #[trigger] node_order@[i],
                        direction,
                        node_order@ + stack_nodes(stack@),
                    ),
            decreases 0x1_0000_0001 - node_order@.len(), stack@.len(),
        {
            proof {
                lemma_distinct_u32_bounded(node_order@);
            }
            let ghost spre = stack@;
            let (current, depth) = match stack.pop() {
                Some(p) => p,
                None => {
                    proof {
                        assert(false);
                    }
                    (0, 0)
                },
            };
            proof {
                assert(stack_nodes(stack@) =~= stack_nodes(spre).drop_last());
                assert(stack_nodes(spre).last() == current);
            }

            if contains_id(&node_order, current) {
                proof {
                    if max_depth is None {
                        let c0 = node_order@ + stack_nodes(spre);
                        let c1 = node_order@ + stack_nodes(stack@);
                        assert forall|x: u32| #[trigger] c0.contains(x) implies c1.contains(
                            x,
                        ) by {
                            let w = choose|w: int| 0 <= w < c0.len() && c0[w] == x;
                            if w < c1.len() {
                                assert(c1[w] == x);
                            } else {
                                assert(x == current);
                                let k = choose|k: int|
                                    0 <= k < node_order@.len() && node_order@[k] == current;
                                assert(c1[k] == x);
                            }
                        }
                        assert forall|i: int|
                            0 <= i < node_order@.len() implies self.spec_expanded(
                            #[trigger] node_order@[i],
                            direction,
                            c1,
                        ) by {
                            lemma_expanded_grow(*self, node_order@[i], direction, c0, c1);
                        }
                    }
                }
                continue ;
            }
            let expand = match max_depth {
                Some(max_d) => depth < max_d,
                None => true,
            };
            if !expand {
                continue ;
            }

            let ghost n0 = node_order@;
            node_order.push(current);
            proof {
                if max_depth is None {
                    let c0 = n0 + stack_nodes(spre);
                    let c2 = node_order@ + stack_nodes(stack@);
                    assert forall|x: u32| #[trigger] c0.contains(x) implies c2.contains(x) by {
                        let w = choose|w: int| 0 <= w < c0.len() && c0[w] == x;
                        if w < n0.len() {
                            assert(c2[w] == x);
                        } else if w < c0.len() - 1 {
                            assert(c2[w + 1] == x);
                        } else {
                            assert(x == current);
                            assert(c2[n0.len() as int] == x);
                        }
                    }
                    assert forall|i: int| 0 <= i < node_order@.len() implies node_order@[i]
                        == current || self.spec_expanded(
                        #[trigger] node_order@[i],
                        direction,
                        c2,
                    ) by {
                        if i < n0.len() {
                            lemma_expanded_grow(*self, n0[i], direction, c0, c2);
                        }
                    }
                }
            }

            let to_check = self.edges_to_check(current, direction);
            let next_depth = if depth < u32::MAX {
                depth + 1
            } else {
                depth
            };
            let ghost nodes1 = node_order@;
            let mut i: usize = to_check.len();
            while i > 0
                invariant
                    self.wf(),
                    i <= to_check@.len(),
                    node_order@ == nodes1,
                    nodes1.len() >= 1 && nodes1.last() == current,
                    edge_views(to_check@) == self.spec_edges_at(current, direction),
                    forall|j: int|
                        0 <= j < to_check@.len() ==> self.spec_has_edge((#[trigger] to_check@[j])@),
                    node_order@.no_duplicates(),
                    forall|m: int|
                        i <= m < to_check@.len() ==> (node_order@ + stack_nodes(
                            stack@,
                        )).contains(next_of((#[trigger] to_check@[m])@, current, direction)),
                    forall|j: int|
                        0 <= j < visited_edges@.len() ==> self.spec_has_edge(
                            (#[trigger] visited_edges@[j])@,
                        ),
                    forall|j: int|
                        0 <= j < node_order@.len() ==> (#[trigger] node_order@[j]) == start_node
                            || node_connected(node_order@[j], edge_views(visited_edges@)),
                    forall|j: int|
                        0 <= j < stack@.len() ==> (#[trigger] stack@[j]).0 == start_node
                            || node_connected(stack@[j].0, edge_views(visited_edges@)),
                    max_depth is None ==> forall|j: int|
                        0 <= j < node_order@.len() ==> node_order@[j] == current
                            || self.spec_expanded(
                            #[trigger] node_order@[j],
                            direction,
                            node_order@ + stack_nodes(stack@),
                        ),
                decreases i,
            {
                i -= 1;
                if edges_examined < usize::MAX {
                    edges_examined += 1;
                }
                let edge = &to_check[i];
                let next_node = match direction {
                    TraversalDirection::Forward => edge.target,
                    TraversalDirection::Backward => edge.source,
                    TraversalDirection::Bidirectional => {
                        if edge.source == current {
                            edge.target
                        } else {
                            edge.source
                        }
                    },
                };
                proof {
                    assert(next_node == next_of(to_check@[i as int]@, current, direction));
                }
                if !contains_id(&node_order, next_node) {
                    let ghost e1 = edge_views(visited_edges@);
                    let ghost st1 = stack@;
                    visited_edges.push(clone_edge(edge));
                    stack.push((next_node, next_depth));
                    proof {
                        let ev = to_check@[i as int]@;
                        let e2 = edge_views(visited_edges@);
                        assert(e2 =~= e1.push(ev));
                        assert(e2[e2.len() - 1] == ev);
                        assert(next_node == ev.source || next_node == ev.target);
                        assert(node_connected(next_node, e2));
                        assert forall|j: int|
                            0 <= j < node_order@.len() implies (#[trigger] node_order@[j])
                            == start_node || node_connected(
                            node_order@[j],
                            e2,
                        ) by {
                            if node_order@[j] != start_node {
                                lemma_connected_push(node_order@[j], e1, ev);
                            }
                        }
                        assert forall|j: int|
                            0 <= j < stack@.len() implies (#[trigger] stack@[j]).0 == start_node
                            || node_connected(stack@[j].0, e2) by {
                            if j < stack@.len() - 1 && stack@[j].0 != start_node {
                                lemma_connected_push(stack@[j].0, e1, ev);
                            }
                        }
                        let c1 = node_order@ + stack_nodes(st1);
                        let c2 = node_order@ + stack_nodes(stack@);
                        assert(stack_nodes(stack@) =~= stack_nodes(st1).push(next_node));
                        assert(c2 =~= c1.push(next_node));
                        assert forall|m: int| i <= m < to_check@.len() implies c2.contains(
                            next_of((#[trigger] to_check@[m])@, current, direction),
                        ) by {
                            if m > i {
                                lemma_contains_push(
                                    c1,
                                    next_node,
                                    next_of(to_check@[m]@, current, direction),
                                );
                            } else {
                                assert(c2.last() == next_node);
                            }
                        }
                        if max_depth is None {
                            assert forall|j: int|
                                0 <= j < node_order@.len() implies node_order@[j] == current
                                || self.spec_expanded(
                                #[trigger] node_order@[j],
                                direction,
                                c2,
                            ) by {
                                if node_order@[j] != current {
                                    assert forall|x: u32| #[trigger] c1.contains(
                                        x,
                                    ) implies c2.contains(x) by {
                                        lemma_contains_push(c1, next_node, x);
                                    }
                                    lemma_expanded_grow(
                                        *self,
                                        node_order@[j],
                                        direction,
                                        c1,
                                        c2,
                                    );
                                }
                            }
                        }
                    }
                } else {
                    proof {
                        let c = node_order@ + stack_nodes(stack@);
                        let k = choose|k: int|
                            0 <= k < node_order@.len() && node_order@[k] == next_node;
                        assert(c[k] == next_node);
                        assert(c.contains(next_of(to_check@[i as int]@, current, direction)));
                    }
                }
            }
            proof {
                lemma_distinct_u32_bounded(node_order@);
                if max_depth is None {
                    assert(self.spec_expanded(
                        current,
                        direction,
                        node_order@ + stack_nodes(stack@),
                    )) by {
                        assert forall|m: int|
                            0 <= m < self.spec_edges_at(current, direction).len() implies (
                        node_order@ + stack_nodes(stack@)).contains(
                            next_of(
                                #[trigger] self.spec_edges_at(current, direction)[m],
                                current,
                                direction,
                            ),
                        ) by {
                            assert(edge_views(to_check@)[m] == to_check@[m]@);
                            assert(self.spec_edges_at(current, direction)[m] == to_check@[m]@);
                        }
                    }
                    assert forall|j: int| 0 <= j < node_order@.len() implies self.spec_expanded(
                        #[trigger] node_order@[j],
                        direction,
                        node_order@ + stack_nodes(stack@),
                    ) by {}
                }
            }
        }

        proof {
            if max_depth is None {
                assert(node_order@ + stack_nodes(stack@) =~= node_order@);
            }
        }
        TraversalResult { edges: visited_edges, nodes: node_order, duration_us: 0, edges_examined }
    }

    /// All edges connected to a node on one side: outgoing or incoming.
    pub fn node_edges(&self, node_id: u32, outgoing: bool) -> (r: Vec<Edge>)
        requires
            self.wf(),
        ensures
            outgoing ==> edge_views(r@) == if self.fwd().dom().contains(node_id) {
                self.fwd().index(node_id)
            } else {
                Seq::<EdgeView>::empty()
            },
            !outgoing ==> edge_views(r@) == if self.bwd().dom().contains(node_id) {
                self.bwd().index(node_id)
            } else {
                Seq::<EdgeView>::empty()
            },
    {
        let list = if outgoing {
            self.get_outgoing(node_id)
        } else {
            self.get_incoming(node_id)
        };
        match list {
            Some(list) => {
                let mut out: Vec<Edge> = Vec::new();
                let mut i: usize = 0;
                while i < list.len()
                    invariant
                        i <= list@.len(),
                        out@.len() == i,
                        forall|j: int| 0 <= j < i ==> (#[trigger] out@[j])@ == list@[j]@,
                    decreases list@.len() - i,
                {
                    out.push(clone_edge(&list[i]));
                    i += 1;
                }
                proof {
                    assert(edge_views(out@) =~= edge_views(list@));
                }
                out
            },
            None => {
                let out: Vec<Edge> = Vec::new();
                proof {
                    assert(edge_views(out@) =~= Seq::<EdgeView>::empty());
                }
                out
            },
        }
    }
}

} // verus!
