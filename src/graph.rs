//! The automaton builder: an append-only arena of nodes addressed by dense
//! integer handles, with one mutable attachment point (the active handle) and
//! an "open" marker on every node that is an unterminated branch end.
use vstd::prelude::*;

verus! {

/// A handle: the position of a node in the arena.
pub type NodeIndex = usize;

/// One outgoing edge: its target, and its label (`None` is an epsilon edge).
pub type Edge<T> = (NodeIndex, Option<T>);

#[derive(Debug, PartialEq)]
pub struct Node<T> {
    pub edges: Vec<Edge<T>>,
    pub endlinked: bool,
}

#[derive(Debug, PartialEq)]
pub struct Graph<T> {
    pub arena: Vec<Node<T>>,
    pub start: NodeIndex,
    pub active: NodeIndex,
}

/// The mathematical model of a graph: per node its edges and open marker,
/// the start handle and the active handle.
pub struct GraphView<L> {
    pub edges: Seq<Seq<(NodeIndex, Option<L>)>>,
    pub open: Seq<bool>,
    pub start: NodeIndex,
    pub active: NodeIndex,
}

pub open spec fn label_view<T: View>(l: Option<T>) -> Option<T::V> {
    match l {
        Some(x) => Some(x@),
        None => None,
    }
}

pub open spec fn edge_view<T: View>(e: Edge<T>) -> (NodeIndex, Option<T::V>) {
    (e.0, label_view(e.1))
}

pub open spec fn edges_view<T: View>(es: Seq<Edge<T>>) -> Seq<(NodeIndex, Option<T::V>)> {
    Seq::new(es.len(), |k: int| edge_view(es[k]))
}

impl<T: View> View for Graph<T> {
    type V = GraphView<T::V>;

    open spec fn view(&self) -> GraphView<T::V> {
        GraphView {
            edges: Seq::new(self.arena@.len(), |i: int| edges_view(self.arena@[i].edges@)),
            open: Seq::new(self.arena@.len(), |i: int| self.arena@[i].endlinked),
            start: self.start,
            active: self.active,
        }
    }
}

impl<L> GraphView<L> {
    /// Every handle in use (start, active, edge targets) is a node of the arena.
    pub open spec fn wf(self) -> bool {
        &&& self.edges.len() == self.open.len()
        &&& 0 < self.edges.len() <= usize::MAX
        &&& self.start == 0
        &&& self.active < self.edges.len()
        &&& forall|i: int, k: int|
            0 <= i < self.edges.len() && 0 <= k < self.edges[i].len() ==> (
            #[trigger] self.edges[i][k]).0 < self.edges.len()
    }

    /// A single open node 0 with no edges, which is active.
    pub open spec fn fresh() -> Self {
        GraphView { edges: seq![Seq::empty()], open: seq![true], start: 0, active: 0 }
    }

    /// A new open node reached from the active node by an edge labelled
    /// `label`; the old active node is no longer open; the new one is active.
    pub open spec fn concatenate(self, label: L) -> Self {
        let n = self.edges.len() as NodeIndex;
        GraphView {
            edges: self.edges.update(
                self.active as int,
                self.edges[self.active as int].push((n, Some(label))),
            ).push(Seq::empty()),
            open: self.open.update(self.active as int, false).push(true),
            start: self.start,
            active: n,
        }
    }

    /// `at` becomes open and active; no edge changes.
    pub open spec fn open_branch(self, at: NodeIndex) -> Self {
        GraphView {
            edges: self.edges,
            open: self.open.update(at as int, true),
            start: self.start,
            active: at,
        }
    }

    /// Node `i` is an open branch end at or after `at`.
    pub open spec fn is_end(self, at: NodeIndex, i: int) -> bool {
        at <= i < self.open.len() && self.open[i]
    }

    /// Where some node at or after `at` is open: one new open, active merge
    /// node, and an epsilon edge to it from each such node, which stops being
    /// open. Otherwise nothing changes.
    pub open spec fn close_branches(self, at: NodeIndex) -> Self {
        if exists|i: int| self.is_end(at, i) {
            let n = self.edges.len() as NodeIndex;
            GraphView {
                edges: Seq::new(
                    self.edges.len(),
                    |i: int|
                        if self.is_end(at, i) {
                            self.edges[i].push((n, None))
                        } else {
                            self.edges[i]
                        },
                ).push(Seq::empty()),
                open: Seq::new(self.open.len(), |i: int| self.open[i] && !self.is_end(at, i)).push(
                    true,
                ),
                start: self.start,
                active: n,
            }
        } else {
            self
        }
    }

    /// An epsilon edge from the active node back to `at`.
    pub open spec fn make_repeatable(self, at: NodeIndex) -> Self {
        GraphView {
            edges: self.edges.update(
                self.active as int,
                self.edges[self.active as int].push((at, None)),
            ),
            open: self.open,
            start: self.start,
            active: self.active,
        }
    }

    /// An epsilon path beside what was built from `at` to the active node.
    pub open spec fn make_optional(self, at: NodeIndex) -> Self {
        self.open_branch(at).close_branches(at)
    }

    /// A loop back to `at`, and `at` as the new active node.
    pub open spec fn make_optional_repeatable(self, at: NodeIndex) -> Self {
        self.make_repeatable(at).open_branch(at)
    }

    pub proof fn lemma_concatenate_wf(self, label: L)
        requires
            self.wf(),
            self.edges.len() < usize::MAX,
        ensures
            self.concatenate(label).wf(),
    {
        let r = self.concatenate(label);
        assert forall|i: int, k: int|
            0 <= i < r.edges.len() && 0 <= k < r.edges[i].len() implies (
            #[trigger] r.edges[i][k]).0 < r.edges.len() by {
            if i < self.edges.len() && i != self.active && k < self.edges[i].len() {
                assert(r.edges[i][k] == self.edges[i][k]);
            }
            if i == self.active && k < self.edges[i].len() {
                assert(r.edges[i][k] == self.edges[i][k]);
            }
        }
    }

    pub proof fn lemma_close_branches_wf(self, at: NodeIndex)
        requires
            self.wf(),
            self.edges.len() < usize::MAX,
        ensures
            self.close_branches(at).wf(),
    {
        let r = self.close_branches(at);
        if exists|i: int| self.is_end(at, i) {
            assert forall|i: int, k: int|
                0 <= i < r.edges.len() && 0 <= k < r.edges[i].len() implies (
                #[trigger] r.edges[i][k]).0 < r.edges.len() by {
                if i < self.edges.len() && k < self.edges[i].len() {
                    assert(r.edges[i][k] == self.edges[i][k]);
                }
            }
        }
    }

    pub proof fn lemma_make_repeatable_wf(self, at: NodeIndex)
        requires
            self.wf(),
            at < self.edges.len(),
        ensures
            self.make_repeatable(at).wf(),
    {
        let r = self.make_repeatable(at);
        assert forall|i: int, k: int|
            0 <= i < r.edges.len() && 0 <= k < r.edges[i].len() implies (
            #[trigger] r.edges[i][k]).0 < r.edges.len() by {
            if k < self.edges[i].len() {
                assert(r.edges[i][k] == self.edges[i][k]);
            }
        }
    }

    /// `concatenate` applied with each of `labels` in turn.
    pub open spec fn concat_all(self, labels: Seq<L>) -> Self
        decreases labels.len(),
    {
        if labels.len() == 0 {
            self
        } else {
            self.concat_all(labels.drop_last()).concatenate(labels.last())
        }
    }

    /// After `n` concatenations from a fresh graph the arena holds `n + 1`
    /// nodes; node `k` has one edge, to node `k + 1`, labelled with the `k`-th
    /// label; every edge leads to the next node, so that edge is the only one
    /// into node `k + 1`.
    pub proof fn lemma_concatenate_chain(labels: Seq<L>)
        requires
            labels.len() < usize::MAX,
        ensures
            Self::fresh().concat_all(labels).edges.len() == labels.len() + 1,
            Self::fresh().concat_all(labels).active == labels.len(),
            Self::fresh().concat_all(labels).edges[labels.len() as int] == Seq::<
                (NodeIndex, Option<L>),
            >::empty(),
            forall|k: int|
                0 <= k < labels.len() ==> #[trigger] Self::fresh().concat_all(labels).edges[k] == seq![
                    ((k + 1) as NodeIndex, Some(labels[k])),
                ],
            forall|i: int, e: int|
                0 <= i < labels.len() + 1 && 0 <= e < Self::fresh().concat_all(labels).edges[i].len()
                    ==> e == 0 && (#[trigger] Self::fresh().concat_all(labels).edges[i][e]).0 == i + 1,
        decreases labels.len(),
    {
        let g = Self::fresh().concat_all(labels);
        if labels.len() > 0 {
            let prev = labels.drop_last();
            Self::lemma_concatenate_chain(prev);
            let h = Self::fresh().concat_all(prev);
            assert(g == h.concatenate(labels.last()));
            assert forall|k: int| 0 <= k < labels.len() implies #[trigger] g.edges[k] == seq![
                ((k + 1) as NodeIndex, Some(labels[k])),
            ] by {
                if k < prev.len() {
                    assert(h.edges[k] == seq![((k + 1) as NodeIndex, Some(prev[k]))]);
                    assert(prev[k] == labels[k]);
                } else {
                    assert(g.edges[k] =~= seq![((k + 1) as NodeIndex, Some(labels[k]))]);
                }
            }
        }
        assert forall|i: int, e: int|
            0 <= i < labels.len() + 1 && 0 <= e < g.edges[i].len() implies e == 0 && (
            #[trigger] g.edges[i][e]).0 == i + 1 by {
            if i < labels.len() {
                assert(g.edges[i] == seq![((i + 1) as NodeIndex, Some(labels[i]))]);
            }
        }
    }

    /// The open markers after a run of concatenations: the old active node
    /// is closed, and of the new nodes only the last is open and active.
    pub proof fn lemma_concat_all_open(self, labels: Seq<L>)
        requires
            self.edges.len() == self.open.len(),
            self.active < self.edges.len(),
            self.edges.len() + labels.len() <= usize::MAX,
        ensures
            self.concat_all(labels).edges.len() == self.edges.len() + labels.len(),
            self.concat_all(labels).open.len() == self.edges.len() + labels.len(),
            labels.len() == 0 ==> self.concat_all(labels) == self,
            labels.len() > 0 ==> self.concat_all(labels).active == self.edges.len() + labels.len() - 1,
            labels.len() > 0 ==> forall|i: int|
                0 <= i < self.edges.len() + labels.len() ==> #[trigger] self.concat_all(labels).open[i]
                    == if i < self.edges.len() {
                    i != self.active && self.open[i]
                } else {
                    i == self.edges.len() + labels.len() - 1
                },
        decreases labels.len(),
    {
        if labels.len() > 0 {
            self.lemma_concat_all_open(labels.drop_last());
        }
    }

    /// `branches` built one after the other from `at`: each reopens `at` and
    /// extends it by its labels.
    pub open spec fn build_branches(self, at: NodeIndex, branches: Seq<Seq<L>>) -> Self
        decreases branches.len(),
    {
        if branches.len() == 0 {
            self
        } else {
            self.build_branches(at, branches.drop_last()).open_branch(at).concat_all(
                branches.last(),
            )
        }
    }

    /// The handle at which branch `j` ends: `at` for an empty branch, else the
    /// last node it created.
    pub open spec fn branch_end(self, at: NodeIndex, branches: Seq<Seq<L>>, j: int) -> int {
        if branches[j].len() == 0 {
            at as int
        } else {
            self.edges.len() + total_len(branches.take(j + 1)) - 1
        }
    }

    proof fn lemma_build_branches_open(self, at: NodeIndex, branches: Seq<Seq<L>>)
        requires
            self.edges.len() == self.open.len(),
            at < self.edges.len(),
            self.active == at,
            self.open[at as int],
            forall|i: int| at < i < self.open.len() ==> !#[trigger] self.open[i],
            forall|j: int| 0 <= j < branches.len() - 1 ==> (#[trigger] branches[j]).len() > 0,
            self.edges.len() + total_len(branches) <= usize::MAX,
        ensures
            self.build_branches(at, branches).edges.len() == self.edges.len() + total_len(branches),
            self.build_branches(at, branches).open.len() == self.edges.len() + total_len(branches),
            self.build_branches(at, branches).active < self.edges.len() + total_len(branches),
            forall|i: int|
                at <= i < self.edges.len() + total_len(branches) ==> (#[trigger] self.build_branches(
                    at,
                    branches,
                ).open[i] <==> if branches.len() == 0 {
                    i == at
                } else {
                    exists|j: int| 0 <= j < branches.len() && self.branch_end(at, branches, j) == i
                }),
        decreases branches.len(),
    {
        if branches.len() > 0 {
            let prev = branches.drop_last();
            let m = branches.len();
            let last = branches.last();
            lemma_total_take(branches, m as int, m as int);
            assert(branches.take(m as int) =~= branches);
            assert(forall|j: int| 0 <= j < prev.len() ==> prev[j] == branches[j]);
            lemma_total_take(branches, m - 1, m as int);
            assert(branches.take(m - 1) =~= prev);
            self.lemma_build_branches_open(at, prev);
            let h1 = self.build_branches(at, prev);
            let o = h1.open_branch(at);
            o.lemma_concat_all_open(last);
            let h = o.concat_all(last);
            assert(h == self.build_branches(at, branches));
            let n0 = self.edges.len();
            assert forall|j: int| 0 <= j < prev.len() implies #[trigger] self.branch_end(at, prev, j)
                == self.branch_end(at, branches, j) && n0 <= self.branch_end(at, branches, j) < n0
                + total_len(prev) by {
                assert(prev.take(j + 1) =~= branches.take(j + 1));
                lemma_total_take(branches, j, j + 1);
                lemma_total_take(branches, j + 1, m - 1);
                assert(branches.take(j + 1).drop_last() =~= branches.take(j));
            }
            assert(self.branch_end(at, branches, m - 1) == if last.len() == 0 {
                at as int
            } else {
                n0 + total_len(branches) - 1
            });
            assert forall|i: int| at <= i < n0 + total_len(branches) implies (#[trigger] h.open[i]
                <==> exists|j: int| 0 <= j < branches.len() && self.branch_end(at, branches, j) == i) by {
                if exists|j: int| 0 <= j < branches.len() && self.branch_end(at, branches, j) == i {
                    let j = choose|j: int| 0 <= j < branches.len() && self.branch_end(at, branches, j) == i;
                    if j < prev.len() {
                        assert(self.branch_end(at, prev, j) == i);
                    }
                }
                if h.open[i] {
                    if i == at && last.len() == 0 {
                        assert(self.branch_end(at, branches, m - 1) == i);
                    } else if i >= n0 + total_len(prev) {
                        assert(self.branch_end(at, branches, m - 1) == i);
                    } else {
                        assert(h1.open[i]);
                        if prev.len() > 0 {
                            let j = choose|j: int| 0 <= j < prev.len() && self.branch_end(at, prev, j) == i;
                            assert(self.branch_end(at, branches, j) == i);
                        }
                    }
                }
            }
        }
    }

    /// Closing `m` branches that were opened from `at`, every one but the last
    /// non-empty, adds exactly one node, the new active merge node, and an
    /// epsilon edge to it from the end of each branch and from no other node;
    /// the `m` ends are distinct, so the merge node has `m` incoming epsilon
    /// edges.
    pub proof fn lemma_close_branches_merges(self, at: NodeIndex, branches: Seq<Seq<L>>)
        requires
            self.wf(),
            self.active == at,
            self.open[at as int],
            forall|i: int| at < i < self.open.len() ==> !#[trigger] self.open[i],
            branches.len() > 0,
            forall|j: int| 0 <= j < branches.len() - 1 ==> (#[trigger] branches[j]).len() > 0,
            self.edges.len() + total_len(branches) < usize::MAX,
        ensures
            ({
                let h = self.build_branches(at, branches);
                let r = h.close_branches(at);
                let n = h.edges.len();
                &&& r.edges.len() == n + 1
                &&& r.active == n
                &&& r.edges[n as int] == Seq::<(NodeIndex, Option<L>)>::empty()
                &&& forall|i: int|
                    0 <= i < n ==> #[trigger] r.edges[i] == if exists|j: int|
                        0 <= j < branches.len() && self.branch_end(at, branches, j) == i {
                        h.edges[i].push((n as NodeIndex, None))
                    } else {
                        h.edges[i]
                    }
            }),
            forall|j1: int, j2: int|
                0 <= j1 < j2 < branches.len() ==> self.branch_end(at, branches, j1)
                    != self.branch_end(at, branches, j2),
    {
        self.lemma_build_branches_open(at, branches);
        let h = self.build_branches(at, branches);
        let m = branches.len();
        let n0 = self.edges.len();
        assert forall|j: int| 0 <= j < m implies at <= #[trigger] self.branch_end(at, branches, j) < h.edges.len()
            && (branches[j].len() > 0 ==> n0 <= self.branch_end(at, branches, j)) by {
            lemma_total_take(branches, j, j + 1);
            lemma_total_take(branches, j + 1, m as int);
            assert(branches.take(j + 1).drop_last() =~= branches.take(j));
            assert(branches.take(m as int) =~= branches);
        }
        assert(h.is_end(at, self.branch_end(at, branches, m - 1)));
        assert forall|i: int| #[trigger] h.is_end(at, i) <==> exists|j: int|
            0 <= j < branches.len() && self.branch_end(at, branches, j) == i by {
        }
        assert forall|j1: int, j2: int| 0 <= j1 < j2 < branches.len() implies self.branch_end(
            at,
            branches,
            j1,
        ) != self.branch_end(at, branches, j2) by {
            lemma_total_take(branches, j1 + 1, j2);
            lemma_total_take(branches, j2, j2 + 1);
            assert(branches.take(j2 + 1).drop_last() =~= branches.take(j2));
        }
    }

    /// The same nodes and edges with no node open.
    pub open spec fn finished(self) -> Self {
        GraphView {
            edges: self.edges,
            open: Seq::new(self.open.len(), |i: int| false),
            start: self.start,
            active: self.active,
        }
    }
}

impl<T> Node<T> {
    fn new(edges: Vec<Edge<T>>) -> (r: Self)
        ensures
            r.edges == edges,
            !r.endlinked,
    {
        Node { edges, endlinked: false }
    }
}

impl<T: View> Graph<T> {
    /// Appends a node; handles grow with the arena.
    fn add_node(&mut self, node: Node<T>) -> (index: NodeIndex)
        ensures
            final(self).arena@ == old(self).arena@.push(node),
            final(self).start == old(self).start,
            final(self).active == old(self).active,
            index == old(self).arena@.len(),
    {
        self.arena.push(node);
        let index = self.arena.len() - 1;
        index
    }

    /// A graph of one node, the start, which is open and active.
    pub fn new() -> (r: Self)
        ensures
            r@ == GraphView::<T::V>::fresh(),
            r@.wf(),
    {
        let mut graph = Graph { arena: Vec::new(), start: 0, active: 0 };
        let start = Node::new(Vec::new());
        let index = graph.add_node(start);
        assert(edges_view(graph.arena@[0].edges@) =~= Seq::empty());
        assert(graph@.edges =~= GraphView::<T::V>::fresh().edges);
        graph.set_active(index);
        assert(graph@.open =~= GraphView::<T::V>::fresh().open);
        graph
    }

    fn set_active(&mut self, new_active: NodeIndex)
        requires
            new_active < old(self).arena@.len(),
        ensures
            final(self)@ == old(self)@.open_branch(new_active),
            final(self).arena@.len() == old(self).arena@.len(),
    {
        self.arena[new_active].endlinked = true;
        self.active = new_active;
        assert(self@.edges =~= old(self)@.edges);
        assert(self@.open =~= old(self)@.open.update(new_active as int, true));
    }

    /// Closes node `endlinked` as a branch end and adds an edge from it.
    fn bump_endlinked(&mut self, endlinked: NodeIndex, new: NodeIndex, cost: Option<T>)
        requires
            endlinked < old(self).arena@.len(),
        ensures
            final(self)@ == (GraphView {
                edges: old(self)@.edges.update(
                    endlinked as int,
                    old(self)@.edges[endlinked as int].push((new, label_view(cost))),
                ),
                open: old(self)@.open.update(endlinked as int, false),
                start: old(self)@.start,
                active: old(self)@.active,
            }),
            final(self).arena@.len() == old(self).arena@.len(),
    {
        let ghost cost_view = label_view(cost);
        let bumped_node = &mut self.arena[endlinked];
        bumped_node.endlinked = false;
        bumped_node.edges.push((new, cost));
        assert(edges_view(self.arena@[endlinked as int].edges@) =~= old(self)@.edges[endlinked as int].push(
            (new, cost_view),
        ));
        assert(self@.edges =~= old(self)@.edges.update(
            endlinked as int,
            old(self)@.edges[endlinked as int].push((new, cost_view)),
        ));
        assert(self@.open =~= old(self)@.open.update(endlinked as int, false));
    }

    /// Extends the current path by one step that reads `cost`.
    pub fn add_cost(&mut self, cost: T)
        requires
            old(self)@.wf(),
        ensures
            final(self)@ == old(self)@.concatenate(cost@),
            final(self)@.wf(),
    {
        let ghost g0 = self@;
        let new_active_node = Node::new(Vec::new());
        let new_active_node_index = self.add_node(new_active_node);
        assert(self.arena.len() <= usize::MAX);
        assert(edges_view(self.arena@[new_active_node_index as int].edges@) =~= Seq::empty());
        assert(self@.edges =~= g0.edges.push(Seq::empty()));
        assert(self@.open =~= g0.open.push(false));
        let active = self.active;
        self.bump_endlinked(active, new_active_node_index, Some(cost));
        self.set_active(new_active_node_index);
        assert(self@.edges =~= g0.concatenate(cost@).edges);
        assert(self@.open =~= g0.concatenate(cost@).open);
        proof {
            g0.lemma_concatenate_wf(cost@);
        }
    }

    /// Begins a new alternative at `start`, leaving its edges as they are.
    pub fn add_junction(&mut self, start: NodeIndex)
        requires
            start < old(self).arena@.len(),
        ensures
            final(self)@ == old(self)@.open_branch(start),
    {
        self.set_active(start);
    }

    /// Merges every open branch end at or after `start` into one new node,
    /// which becomes active; does nothing where there is none.
    pub fn close_junction(&mut self, start: NodeIndex)
        requires
            old(self)@.wf(),
            start < old(self).arena@.len(),
        ensures
            final(self)@ == old(self)@.close_branches(start),
            final(self)@.wf(),
    {
        let ghost g0 = self@;
        // Every node of a branch that began at `start` was created after it,
        // so a scan from `start` finds exactly the ends of those branches.
        let mut dangling_nodes: Vec<NodeIndex> = Vec::new();
        let len = self.arena.len();
        let mut node_index: usize = start;
        while node_index < len
            invariant
                start <= node_index <= len,
                len == self.arena@.len(),
                self@ == g0,
                g0.wf(),
                forall|j: NodeIndex| #[trigger]
                    dangling_nodes@.contains(j) <==> (start <= j < node_index && g0.open[j as int]),
                forall|a: int| 0 <= a < dangling_nodes.len() ==> dangling_nodes[a] < node_index,
                forall|a: int, b: int|
                    0 <= a < b < dangling_nodes.len() ==> dangling_nodes[a] < dangling_nodes[b],
            decreases len - node_index,
        {
            let ghost prev = dangling_nodes@;
            if self.arena[node_index].endlinked {
                assert(g0.open[node_index as int]);
                dangling_nodes.push(node_index);
                assert(dangling_nodes@ == prev.push(node_index));
            }
            assert(forall|a: int| 0 <= a < prev.len() ==> dangling_nodes@[a] == prev[a]);
            assert(dangling_nodes.len() == prev.len() || dangling_nodes@ == prev.push(node_index));
            proof {
                assert forall|j: NodeIndex| #[trigger]
                    dangling_nodes@.contains(j) <==> (start <= j < node_index + 1
                        && g0.open[j as int]) by {
                    if j == node_index {
                        if g0.open[j as int] {
                            assert(dangling_nodes@.last() == node_index);
                        }
                    }
                    if dangling_nodes@.contains(j) {
                        let a = dangling_nodes@.index_of(j);
                        assert(dangling_nodes@[a] == j);
                        if a < prev.len() {
                            assert(prev[a] == j);
                            assert(prev.contains(j));
                        }
                    }
                    if prev.contains(j) {
                        let a = prev.index_of(j);
                        assert(dangling_nodes@[a] == j);
                    }
                }
            }
            node_index = node_index + 1;
        }
        if dangling_nodes.len() == 0 {
            assert forall|i: int| !g0.is_end(start, i) by {
                if g0.is_end(start, i) {
                    assert(dangling_nodes@.contains(i as NodeIndex));
                }
            }
            return ;
        }
        assert(g0.is_end(start, dangling_nodes[0] as int)) by {
            assert(dangling_nodes@.contains(dangling_nodes[0]));
        }
        let new_active_node = Node::new(Vec::new());
        let new_active_node_index = self.add_node(new_active_node);
        assert(self.arena.len() <= usize::MAX);
        assert(edges_view(self.arena@[new_active_node_index as int].edges@) =~= Seq::empty());
        let ghost target = g0.close_branches(start);
        let mut k: usize = 0;
        while k < dangling_nodes.len()
            invariant
                0 <= k <= dangling_nodes.len(),
                new_active_node_index == len,
                self.arena@.len() == len + 1,
                self.start == g0.start,
                self.active == g0.active,
                forall|j: NodeIndex| #[trigger]
                    dangling_nodes@.contains(j) <==> g0.is_end(start, j as int),
                forall|a: int| 0 <= a < dangling_nodes.len() ==> dangling_nodes[a] < len,
                forall|a: int, b: int|
                    0 <= a < b < dangling_nodes.len() ==> dangling_nodes[a] < dangling_nodes[b],
                forall|i: int|
                    0 <= i < len ==> #[trigger] self@.edges[i] == if dangling_nodes@.subrange(
                        0,
                        k as int,
                    ).contains(i as NodeIndex) {
                        g0.edges[i].push((len, None))
                    } else {
                        g0.edges[i]
                    },
                forall|i: int|
                    0 <= i < len ==> #[trigger] self@.open[i] == (g0.open[i]
                        && !dangling_nodes@.subrange(0, k as int).contains(i as NodeIndex)),
                self@.edges[len as int] == Seq::<(NodeIndex, Option<T::V>)>::empty(),
            decreases dangling_nodes.len() - k,
        {
            let d = dangling_nodes[k];
            let ghost before = self@;
            self.bump_endlinked(d, new_active_node_index, None);
            proof {
                let sub0 = dangling_nodes@.subrange(0, k as int);
                let sub1 = dangling_nodes@.subrange(0, k + 1);
                assert forall|i: NodeIndex| #[trigger] sub1.contains(i) <==> (sub0.contains(i) || i
                    == d) by {
                    if sub1.contains(i) {
                        let a = sub1.index_of(i);
                        if a < k {
                            assert(sub0[a] == i);
                        }
                    }
                    if sub0.contains(i) {
                        let a = sub0.index_of(i);
                        assert(sub1[a] == i);
                    }
                    if i == d {
                        assert(sub1[k as int] == d);
                    }
                }
                assert(!sub0.contains(d)) by {
                    if sub0.contains(d) {
                        let a = sub0.index_of(d);
                        assert(dangling_nodes[a] < dangling_nodes[k as int]);
                    }
                }
                assert forall|i: int| 0 <= i < len implies #[trigger] self@.edges[i] == if sub1.contains(
                    i as NodeIndex,
                ) {
                    g0.edges[i].push((len, None))
                } else {
                    g0.edges[i]
                } by {
                    assert(before.edges[i] == if sub0.contains(i as NodeIndex) {
                        g0.edges[i].push((len, None))
                    } else {
                        g0.edges[i]
                    });
                }
                assert forall|i: int| 0 <= i < len implies #[trigger] self@.open[i] == (g0.open[i]
                    && !sub1.contains(i as NodeIndex)) by {
                    assert(before.open[i] == (g0.open[i] && !sub0.contains(i as NodeIndex)));
                }
                assert(self@.edges[len as int] == before.edges[len as int]);
            }
            k = k + 1;
        }
        self.set_active(new_active_node_index);
        proof {
            assert(dangling_nodes@.subrange(0, dangling_nodes.len() as int) =~= dangling_nodes@);
            assert(exists|i: int| g0.is_end(start, i));
            assert(self@.edges =~= target.edges);
            assert(self@.open =~= target.open);
            g0.lemma_close_branches_wf(start);
        }
    }

    /// `?`: an epsilon path beside what was built from `start`.
    pub fn zero_or_one(&mut self, start: NodeIndex)
        requires
            old(self)@.wf(),
            start < old(self).arena@.len(),
        ensures
            final(self)@ == old(self)@.make_optional(start),
            final(self)@.wf(),
    {
        self.add_junction(start);
        self.close_junction(start);
    }

    /// `+`: an epsilon edge from the active node back to `start`.
    pub fn one_or_more(&mut self, start: NodeIndex)
        requires
            old(self)@.wf(),
            start < old(self).arena@.len(),
        ensures
            final(self)@ == old(self)@.make_repeatable(start),
            final(self)@.wf(),
    {
        let active = self.active;
        let ghost g0 = self@;
        self.arena[active].edges.push((start, None));
        proof {
            assert(edges_view(self.arena@[active as int].edges@) =~= g0.edges[active as int].push(
                (start, None),
            ));
            assert(self@.edges =~= g0.make_repeatable(start).edges);
            assert(self@.open =~= g0.open);
            g0.lemma_make_repeatable_wf(start);
        }
    }

    /// `*`: a loop back to `start`, which becomes active as the way round it.
    pub fn zero_or_more(&mut self, start: NodeIndex)
        requires
            old(self)@.wf(),
            start < old(self).arena@.len(),
        ensures
            final(self)@ == old(self)@.make_optional_repeatable(start),
            final(self)@.wf(),
    {
        self.one_or_more(start);
        self.add_junction(start);
    }

    /// The finished automaton: the same nodes and edges, no node left open.
    pub fn compile(self) -> (r: Self)
        ensures
            r@ == self@.finished(),
    {
        let mut graph = self;
        let len = graph.arena.len();
        let mut i: usize = 0;
        while i < len
            invariant
                i <= len,
                len == graph.arena@.len(),
                graph@.edges == self@.edges,
                graph.start == self.start,
                graph.active == self.active,
                forall|j: int| 0 <= j < len ==> #[trigger] graph@.open[j] == (j >= i && self@.open[j]),
            decreases len - i,
        {
            let ghost before = graph@;
            graph.arena[i].endlinked = false;
            assert(graph@.edges =~= before.edges);
            assert(graph@.open =~= before.open.update(i as int, false));
            i = i + 1;
        }
        assert(graph@.open =~= self@.finished().open);
        graph
    }
}
/// The total number of labels over all branches.
pub open spec fn total_len<L>(branches: Seq<Seq<L>>) -> nat
    decreases branches.len(),
{
    if branches.len() == 0 {
        0
    } else {
        total_len(branches.drop_last()) + branches.last().len()
    }
}

proof fn lemma_total_take_step<L>(branches: Seq<Seq<L>>, a: int)
    requires
        0 <= a < branches.len(),
    ensures
        total_len(branches.take(a + 1)) == total_len(branches.take(a)) + branches[a].len(),
{
    assert(branches.take(a + 1).drop_last() =~= branches.take(a));
}

proof fn lemma_total_take_le<L>(branches: Seq<Seq<L>>, b: int)
    requires
        0 <= b <= branches.len(),
    ensures
        total_len(branches.take(b)) <= total_len(branches),
    decreases branches.len() - b,
{
    if b < branches.len() {
        lemma_total_take_step(branches, b);
        lemma_total_take_le(branches, b + 1);
    } else {
        assert(branches.take(b) =~= branches);
    }
}

/// Totals of prefixes grow with the prefix, by at least one per non-empty
/// branch.
pub proof fn lemma_total_take<L>(branches: Seq<Seq<L>>, a: int, b: int)
    requires
        0 <= a <= b <= branches.len(),
    ensures
        total_len(branches.take(a)) <= total_len(branches.take(b)),
        total_len(branches.take(b)) <= total_len(branches),
        b == a + 1 ==> total_len(branches.take(b)) == total_len(branches.take(a))
            + branches[a].len(),
        (forall|k: int| a <= k < b ==> (#[trigger] branches[k]).len() > 0) ==> total_len(
            branches.take(a),
        ) + (b - a) <= total_len(branches.take(b)),
    decreases b - a,
{
    if b > a {
        lemma_total_take(branches, a, b - 1);
        lemma_total_take_step(branches, b - 1);
    }
    lemma_total_take_le(branches, b);
}

} // verus!
