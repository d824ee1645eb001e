//! The shape of a computation graph: which earlier nodes each node was computed
//! from, and the order in which backpropagation visits them.
//!
//! Node ids are handed out in creation order, and a node can only be computed
//! from nodes that already exist, so every parent has a smaller id than its child.
use vstd::prelude::*;

verus! {

/// Every parent of a node has a smaller id than the node.
pub open spec fn graph_wf(g: Seq<Seq<usize>>) -> bool {
    forall|i: int, j: int| 0 <= i < g.len() && 0 <= j < g[i].len() ==> #[trigger] g[i][j] < i
}

/// The depth-first post-order that starts at `v`, extending the order `acc`:
/// a node already in `acc` adds nothing; otherwise its parents are visited in
/// the order in which they are listed, and then the node itself is appended.
pub open spec fn visit(g: Seq<Seq<usize>>, v: usize, acc: Seq<usize>) -> Seq<usize>
    decreases v, 1nat, 0nat,
{
    if acc.contains(v) {
        acc
    } else {
        visit_parents(g, v, g[v as int].len(), acc).push(v)
    }
}

/// Visits the first `k` parents of `v` in turn (parents listed out of order are
/// skipped, which never happens in a well-formed graph).
pub open spec fn visit_parents(g: Seq<Seq<usize>>, v: usize, k: nat, acc: Seq<usize>) -> Seq<usize>
    decreases v, 0nat, k,
{
    if k == 0 {
        acc
    } else {
        let prev = visit_parents(g, v, (k - 1) as nat, acc);
        let p = g[v as int][k - 1];
        if p < v {
            visit(g, p, prev)
        } else {
            prev
        }
    }
}


/// The graph below `v` unfolded into a tree, listed top-down: `v` at `depth`,
/// then the unfolding of each of its parents, in order, one level deeper. A node
/// reached along several paths is listed once per path.
pub open spec fn unfold(g: Seq<Seq<usize>>, v: usize, depth: usize) -> Seq<(usize, usize)>
    decreases v, 1nat, 0nat,
{
    seq![(depth, v)] + unfold_parents(g, v, g[v as int].len(), (depth + 1) as usize)
}

/// The unfoldings of the first `k` parents of `v`, one after the other.
pub open spec fn unfold_parents(g: Seq<Seq<usize>>, v: usize, k: nat, depth: usize) -> Seq<
    (usize, usize),
>
    decreases v, 0nat, k,
{
    if k == 0 {
        Seq::empty()
    } else {
        let p = g[v as int][k - 1];
        unfold_parents(g, v, (k - 1) as nat, depth) + (if p < v {
            unfold(g, p, depth)
        } else {
            Seq::empty()
        })
    }
}

/// Whether `x` is `v` or one of the nodes that `v` was (transitively) computed from.
pub open spec fn reaches(g: Seq<Seq<usize>>, v: usize, x: usize) -> bool
    decreases v, 1nat, 0nat,
{
    x == v || reaches_via(g, v, g[v as int].len(), x)
}

/// Whether `x` is reached from one of the first `k` parents of `v`.
pub open spec fn reaches_via(g: Seq<Seq<usize>>, v: usize, k: nat, x: usize) -> bool
    decreases v, 0nat, k,
{
    if k == 0 {
        false
    } else {
        let p = g[v as int][k - 1];
        (p < v && reaches(g, p, x)) || reaches_via(g, v, (k - 1) as nat, x)
    }
}

/// An order in which no node repeats and every node comes after all of its parents.
pub open spec fn closed_order(g: Seq<Seq<usize>>, order: Seq<usize>) -> bool {
    &&& order.no_duplicates()
    &&& forall|i: int| 0 <= i < order.len() ==> #[trigger] order[i] < g.len()
    &&& forall|i: int, j: int|
        0 <= i < order.len() && 0 <= j < g[order[i] as int].len() ==> order.take(i).contains(
            #[trigger] g[order[i] as int][j],
        )
}

proof fn lemma_reaches_le(g: Seq<Seq<usize>>, v: usize, x: usize)
    requires
        reaches(g, v, x),
    ensures
        x <= v,
    decreases v, 1nat, 0nat,
{
    if x != v {
        lemma_reaches_via_lt(g, v, g[v as int].len(), x);
    }
}

proof fn lemma_reaches_via_lt(g: Seq<Seq<usize>>, v: usize, k: nat, x: usize)
    requires
        reaches_via(g, v, k, x),
    ensures
        x < v,
    decreases v, 0nat, k,
{
    if k > 0 {
        let p = g[v as int][k - 1];
        if p < v && reaches(g, p, x) {
            lemma_reaches_le(g, p, x);
        } else {
            lemma_reaches_via_lt(g, v, (k - 1) as nat, x);
        }
    }
}

/// A closed order that holds `v` holds every node that `v` was computed from.
proof fn lemma_closed_has_ancestors(g: Seq<Seq<usize>>, acc: Seq<usize>, v: usize, x: usize)
    requires
        graph_wf(g),
        closed_order(g, acc),
        acc.contains(v),
        reaches(g, v, x),
    ensures
        acc.contains(x),
    decreases v, 1nat, 0nat,
{
    if x != v {
        lemma_closed_has_ancestors_via(g, acc, v, g[v as int].len(), x);
    }
}

proof fn lemma_closed_has_ancestors_via(
    g: Seq<Seq<usize>>,
    acc: Seq<usize>,
    v: usize,
    k: nat,
    x: usize,
)
    requires
        graph_wf(g),
        closed_order(g, acc),
        acc.contains(v),
        k <= g[v as int].len(),
        reaches_via(g, v, k, x),
    ensures
        acc.contains(x),
    decreases v, 0nat, k,
{
    if k > 0 {
        let p = g[v as int][k - 1];
        if p < v && reaches(g, p, x) {
            let i = choose|i: int| 0 <= i < acc.len() && acc[i] == v;
            assert(acc.take(i).contains(g[acc[i] as int][k - 1]));
            let m = choose|m: int| 0 <= m < acc.take(i).len() && acc.take(i)[m] == p;
            assert(acc[m] == p);
            lemma_closed_has_ancestors(g, acc, p, x);
        } else {
            lemma_closed_has_ancestors_via(g, acc, v, (k - 1) as nat, x);
        }
    }
}

/// Appending a node whose parents are all present keeps an order closed.
proof fn lemma_closed_push(g: Seq<Seq<usize>>, acc: Seq<usize>, v: usize)
    requires
        closed_order(g, acc),
        v < g.len(),
        !acc.contains(v),
        forall|j: int| 0 <= j < g[v as int].len() ==> acc.contains(#[trigger] g[v as int][j]),
    ensures
        closed_order(g, acc.push(v)),
{
    let r = acc.push(v);
    assert forall|a: int, b: int| 0 <= a < b < r.len() implies r[a] != r[b] by {
        if b == acc.len() {
            assert(acc[a] == r[a]);
        }
    }
    assert forall|i: int, j: int|
        0 <= i < r.len() && 0 <= j < g[r[i] as int].len() implies r.take(i).contains(
        #[trigger] g[r[i] as int][j],
    ) by {
        if i < acc.len() {
            assert(r.take(i) =~= acc.take(i));
            assert(r[i] == acc[i]);
        } else {
            assert(r.take(i) =~= acc);
        }
    }
}

/// What visiting `v` does to a closed order.
proof fn lemma_visit(g: Seq<Seq<usize>>, v: usize, acc: Seq<usize>)
    requires
        graph_wf(g),
        v < g.len(),
        closed_order(g, acc),
    ensures
        closed_order(g, visit(g, v, acc)),
        acc.len() <= visit(g, v, acc).len(),
        visit(g, v, acc).take(acc.len() as int) == acc,
        visit(g, v, acc).contains(v),
        forall|x: usize|
            #[trigger] visit(g, v, acc).contains(x) <==> (acc.contains(x) || reaches(g, v, x)),
    decreases v, 1nat, 0nat,
{
    let r = visit(g, v, acc);
    if acc.contains(v) {
        assert(acc.take(acc.len() as int) =~= acc);
        assert forall|x: usize| reaches(g, v, x) implies acc.contains(x) by {
            lemma_closed_has_ancestors(g, acc, v, x);
        }
    } else {
        let n = g[v as int].len();
        let vp = visit_parents(g, v, n, acc);
        lemma_visit_parents(g, v, n, acc);
        assert(!vp.contains(v)) by {
            if vp.contains(v) {
                if reaches_via(g, v, n, v) {
                    lemma_reaches_via_lt(g, v, n, v);
                }
            }
        }
        lemma_closed_push(g, vp, v);
        assert(r == vp.push(v));
        assert(r.take(acc.len() as int) =~= vp.take(acc.len() as int));
        assert(r[vp.len() as int] == v);
        assert forall|x: usize| #[trigger] r.contains(x) <==> (acc.contains(x) || reaches(g, v, x)) by {
            if r.contains(x) && x != v {
                let i = choose|i: int| 0 <= i < r.len() && r[i] == x;
                assert(vp[i] == x);
            }
            if vp.contains(x) {
                let i = choose|i: int| 0 <= i < vp.len() && vp[i] == x;
                assert(r[i] == x);
            }
        }
    }
}

/// What visiting the first `k` parents of `v` does to a closed order.
proof fn lemma_visit_parents(g: Seq<Seq<usize>>, v: usize, k: nat, acc: Seq<usize>)
    requires
        graph_wf(g),
        v < g.len(),
        k <= g[v as int].len(),
        closed_order(g, acc),
    ensures
        closed_order(g, visit_parents(g, v, k, acc)),
        acc.len() <= visit_parents(g, v, k, acc).len(),
        visit_parents(g, v, k, acc).take(acc.len() as int) == acc,
        forall|j: int| 0 <= j < k ==> visit_parents(g, v, k, acc).contains(#[trigger] g[v as int][j]),
        forall|x: usize|
            #[trigger] visit_parents(g, v, k, acc).contains(x) <==> (acc.contains(x)
                || reaches_via(g, v, k, x)),
    decreases v, 0nat, k,
{
    if k == 0 {
        assert(acc.take(acc.len() as int) =~= acc);
    } else {
        let prev = visit_parents(g, v, (k - 1) as nat, acc);
        lemma_visit_parents(g, v, (k - 1) as nat, acc);
        let p = g[v as int][k - 1];
        assert(p < v);
        let r = visit(g, p, prev);
        lemma_visit(g, p, prev);
        assert(r.take(acc.len() as int) =~= r.take(prev.len() as int).take(acc.len() as int));
        assert forall|j: int| 0 <= j < k implies r.contains(#[trigger] g[v as int][j]) by {
            if j < k - 1 {
                let i = choose|i: int| 0 <= i < prev.len() && prev[i] == g[v as int][j];
                assert(r.take(prev.len() as int)[i] == g[v as int][j]);
                assert(r[i] == g[v as int][j]);
            }
        }
        assert forall|x: usize| #[trigger] r.contains(x) <==> (acc.contains(x) || reaches_via(
            g,
            v,
            k,
            x,
        )) by {
            if prev.contains(x) {
                let i = choose|i: int| 0 <= i < prev.len() && prev[i] == x;
                assert(r.take(prev.len() as int)[i] == x);
            }
        }
    }
}

/// The shape of a computation graph.
#[derive(Debug)]
pub struct Graph {
    parents: Vec<Vec<usize>>,
}

impl Graph {
    #[verifier::type_invariant]
    spec fn inv(self) -> bool {
        graph_wf(self@)
    }
}

impl View for Graph {
    type V = Seq<Seq<usize>>;

    /// The parents of each node, by id.
    closed spec fn view(&self) -> Seq<Seq<usize>> {
        self.parents@.map_values(|p: Vec<usize>| p@)
    }
}

impl Graph {
    /// A graph with no nodes.
    pub fn new() -> (r: Graph)
        ensures
            r@ == Seq::<Seq<usize>>::empty(),
    {
        let r = Graph { parents: Vec::new() };
        proof {
            assert(r@ =~= Seq::<Seq<usize>>::empty());
        }
        r
    }

    /// The number of nodes.
    pub fn len(&self) -> (r: usize)
        ensures
            r == self@.len(),
    {
        self.parents.len()
    }

    /// The parents of node `id`, in the order in which they were given.
    pub fn parents_of(&self, id: usize) -> (r: &Vec<usize>)
        requires
            id < self@.len(),
        ensures
            r@ == self@[id as int],
    {
        &self.parents[id]
    }

    /// Adds a node computed from the existing nodes `parents` (a leaf when empty)
    /// and returns its id, which is the number of nodes before the call.
    pub fn add_node(&mut self, parents: Vec<usize>) -> (id: usize)
        requires
            forall|j: int| 0 <= j < parents@.len() ==> #[trigger] parents@[j] < old(self)@.len(),
            old(self)@.len() < usize::MAX,
        ensures
            id == old(self)@.len(),
            final(self)@ == old(self)@.push(parents@),
    {
        proof {
            use_type_invariant(&*self);
        }
        let id = self.parents.len();
        let ghost before = self@;
        let ghost pv = parents@;
        let mut all: Vec<Vec<usize>> = Vec::new();
        std::mem::swap(&mut all, &mut self.parents);
        all.push(parents);
        proof {
            assert(all@.map_values(|p: Vec<usize>| p@) =~= before.push(pv));
        }
        self.parents = all;
        id
    }


    /// Forgets every node with an id of `len` or more, keeping the first `len`
    /// nodes exactly as they were.
    pub fn truncate(&mut self, len: usize)
        ensures
            len <= old(self)@.len() ==> final(self)@ == old(self)@.take(len as int),
            len > old(self)@.len() ==> final(self)@ == old(self)@,
    {
        proof {
            use_type_invariant(&*self);
        }
        let ghost before = self@;
        let mut all: Vec<Vec<usize>> = Vec::new();
        std::mem::swap(&mut all, &mut self.parents);
        all.truncate(len);
        proof {
            if len <= before.len() {
                assert(all@.map_values(|p: Vec<usize>| p@) =~= before.take(len as int));
            } else {
                assert(all@.map_values(|p: Vec<usize>| p@) =~= before);
            }
        }
        self.parents = all;
    }

    /// Visits `v` depth-first: its parents first, then `v` itself, unless it was
    /// already visited.
    fn visit_from(&self, v: usize, order: &mut Vec<usize>, visited: &mut Vec<bool>)
        requires
            graph_wf(self@),
            v < self@.len(),
            old(visited)@.len() == self@.len(),
            closed_order(self@, old(order)@),
            forall|i: usize| i < self@.len() ==> (old(visited)@[i as int] <==> old(order)@.contains(i)),
        ensures
            final(order)@ == visit(self@, v, old(order)@),
            final(visited)@.len() == self@.len(),
            forall|i: usize| i < self@.len() ==> (final(visited)@[i as int] <==> final(order)@.contains(i)),
        decreases v,
    {
        let ghost g = self@;
        proof {
            lemma_visit(g, v, order@);
        }
        if visited[v] {
            return;
        }
        let n = self.parents[v].len();
        let ghost start = order@;
        proof {
            assert(n == g[v as int].len());
        }
        for k in 0..n
            invariant
                g == self@,
                graph_wf(g),
                v < g.len(),
                n == g[v as int].len(),
                !start.contains(v),
                closed_order(g, start),
                visited@.len() == g.len(),
                order@ == visit_parents(g, v, k as nat, start),
                forall|i: usize| i < g.len() ==> (visited@[i as int] <==> order@.contains(i)),
        {
            let p = self.parents[v][k];
            proof {
                assert(p == g[v as int][k as int]);
                assert(p < v);
                lemma_visit_parents(g, v, k as nat, start);
            }
            self.visit_from(p, order, visited);
        }
        proof {
            lemma_visit_parents(g, v, n as nat, start);
            if order@.contains(v) {
                if reaches_via(g, v, n as nat, v) {
                    lemma_reaches_via_lt(g, v, n as nat, v);
                }
            }
        }
        let ghost before = order@;
        order.push(v);
        visited.set(v, true);
        proof {
            assert forall|i: usize| i < g.len() implies (visited@[i as int] <==> order@.contains(i)) by {
                if before.contains(i) {
                    let m = choose|m: int| 0 <= m < before.len() && before[m] == i;
                    assert(order@[m] == i);
                }
                if order@.contains(i) && i != v {
                    let m = choose|m: int| 0 <= m < order@.len() && order@[m] == i;
                    assert(m < before.len());
                    assert(before[m] == i);
                }
                if i == v {
                    assert(order@[before.len() as int] == v);
                }
            }
        }
    }


    fn unfold_into(&self, v: usize, depth: usize, out: &mut Vec<(usize, usize)>)
        requires
            graph_wf(self@),
            v < self@.len(),
            depth + v < usize::MAX,
        ensures
            final(out)@ == old(out)@ + unfold(self@, v, depth),
        decreases v,
    {
        let ghost g = self@;
        let ghost start = out@;
        out.push((depth, v));
        let n = self.parents[v].len();
        proof {
            assert(n == g[v as int].len());
            assert(out@ =~= start + seq![(depth, v)] + unfold_parents(g, v, 0, (depth + 1) as usize));
        }
        for k in 0..n
            invariant
                g == self@,
                graph_wf(g),
                v < g.len(),
                depth + v < usize::MAX,
                n == g[v as int].len(),
                out@ == start + seq![(depth, v)] + unfold_parents(g, v, k as nat, (depth + 1) as usize),
        {
            let p = self.parents[v][k];
            proof {
                assert(p == g[v as int][k as int]);
                assert(p < v);
            }
            let ghost before = out@;
            self.unfold_into(p, depth + 1, out);
            proof {
                assert(out@ =~= start + seq![(depth, v)] + unfold_parents(g, v, (k + 1) as nat, (depth + 1) as usize));
            }
        }
        proof {
            assert(out@ =~= start + unfold(g, v, depth));
        }
    }

    /// The graph below `root` unfolded into a tree, as (depth, node) pairs listed
    /// top-down: what a printout of the graph shows, one line per pair.
    pub fn tree_listing(&self, root: usize) -> (r: Vec<(usize, usize)>)
        requires
            root < self@.len(),
        ensures
            r@ == unfold(self@, root, 0),
            r@.len() >= 1,
            r@[0] == (0usize, root),
            forall|i: int| 1 <= i < r@.len() ==> #[trigger] r@[i].0 > 0,
            self@[root as int].len() > 0 ==> r@[1] == (1usize, self@[root as int][0]),
            forall|k: int|
                0 <= k < self@[root as int].len() ==> r@.contains((1usize, #[trigger] self@[root as int][k])),
            forall|i: int| 0 <= i < r@.len() && #[trigger] r@[i].0 == 1 ==> self@[root as int].contains(r@[i].1),
    {
        proof {
            use_type_invariant(self);
        }
        let mut out: Vec<(usize, usize)> = Vec::new();
        let n = self.parents.len();
        assert(root < n);
        self.unfold_into(root, 0, &mut out);
        proof {
            assert(out@ =~= unfold(self@, root, 0));
            law_tree_listing_levels(self@, root, 0);
        }
        out
    }

    /// The nodes that `root` was computed from, `root` included, in depth-first
    /// post-order: parents are visited in the order in which they were given,
    /// and a node is listed once all of its parents are. Backpropagation walks
    /// this order from the end.
    pub fn topo_order(&self, root: usize) -> (r: Vec<usize>)
        requires
            root < self@.len(),
        ensures
            r@ == visit(self@, root, Seq::empty()),
    {
        proof {
            use_type_invariant(self);
        }
        let mut order: Vec<usize> = Vec::new();
        let mut visited: Vec<bool> = Vec::new();
        let n = self.parents.len();
        for i in 0..n
            invariant
                visited@.len() == i,
                forall|j: int| 0 <= j < i ==> !visited@[j],
        {
            visited.push(false);
        }
        proof {
            assert(order@ =~= Seq::<usize>::empty());
        }
        self.visit_from(root, &mut order, &mut visited);
        order
    }
}

/// The order in which backpropagation visits the graph is a topological order
/// of everything the root was computed from: it lists each such node exactly
/// once and nothing else, every node comes after all of its parents, and the
/// root comes last.
pub proof fn law_topological_order(g: Seq<Seq<usize>>, root: usize)
    requires
        graph_wf(g),
        root < g.len(),
    ensures
        visit(g, root, Seq::empty()).no_duplicates(),
        forall|x: usize| #[trigger] visit(g, root, Seq::empty()).contains(x) <==> reaches(g, root, x),
        forall|i: int, j: int|
            0 <= i < visit(g, root, Seq::empty()).len() && 0 <= j < g[visit(g, root, Seq::empty())[i] as int].len()
                ==> visit(g, root, Seq::empty()).take(i).contains(
                #[trigger] g[visit(g, root, Seq::empty())[i] as int][j],
            ),
        visit(g, root, Seq::empty()).len() > 0,
        visit(g, root, Seq::empty()).last() == root,
{
    let e = Seq::<usize>::empty();
    lemma_visit(g, root, e);
    let n = g[root as int].len();
    lemma_visit_parents(g, root, n, e);
    assert(!visit_parents(g, root, n, e).contains(root)) by {
        if visit_parents(g, root, n, e).contains(root) {
            lemma_reaches_via_lt(g, root, n, root);
        }
    }
}

/// The printout of the graph below `v` at depth `depth` starts with `v` at that
/// depth, and everything after it is deeper. Each parent of `v` is listed one
/// level deeper, the first of them right after `v`, and whatever is listed one
/// level deeper is a parent of `v`.
pub proof fn law_tree_listing_levels(g: Seq<Seq<usize>>, v: usize, depth: usize)
    requires
        graph_wf(g),
        v < g.len(),
        depth + v < usize::MAX,
    ensures
        unfold(g, v, depth).len() >= 1,
        unfold(g, v, depth)[0] == (depth, v),
        forall|i: int| 1 <= i < unfold(g, v, depth).len() ==> #[trigger] unfold(g, v, depth)[i].0 > depth,
        g[v as int].len() > 0 ==> unfold(g, v, depth)[1] == ((depth + 1) as usize, g[v as int][0]),
        forall|k: int|
            0 <= k < g[v as int].len() ==> unfold(g, v, depth).contains(
                ((depth + 1) as usize, #[trigger] g[v as int][k]),
            ),
        forall|i: int|
            0 <= i < unfold(g, v, depth).len() && #[trigger] unfold(g, v, depth)[i].0 == depth + 1
                ==> g[v as int].contains(unfold(g, v, depth)[i].1),
    decreases v, 1nat, 0nat,
{
    let n = g[v as int].len();
    let d1 = (depth + 1) as usize;
    lemma_unfold_parents_levels(g, v, n, d1);
    let ps = unfold_parents(g, v, n, d1);
    let u = unfold(g, v, depth);
    assert(u == seq![(depth, v)] + ps);
    assert forall|i: int| 1 <= i < u.len() implies #[trigger] u[i].0 > depth by {
        assert(u[i] == ps[i - 1]);
    }
    assert forall|k: int| 0 <= k < n implies u.contains((d1, #[trigger] g[v as int][k])) by {
        assert(ps.contains((d1, g[v as int][k])));
        let m = choose|m: int| 0 <= m < ps.len() && ps[m] == (d1, g[v as int][k]);
        assert(u[m + 1] == ps[m]);
    }
    assert forall|i: int| 0 <= i < u.len() && #[trigger] u[i].0 == depth + 1 implies g[v as int].contains(
        u[i].1,
    ) by {
        assert(i != 0);
        assert(u[i] == ps[i - 1]);
    }
}

/// The unfoldings of the first `k` parents of `v` at depth `depth`: nothing in
/// them is shallower than `depth`, they start with the first parent, each of the
/// `k` parents is listed at `depth`, and only parents are listed at `depth`.
proof fn lemma_unfold_parents_levels(g: Seq<Seq<usize>>, v: usize, k: nat, depth: usize)
    requires
        graph_wf(g),
        v < g.len(),
        k <= g[v as int].len(),
        depth + v <= usize::MAX,
    ensures
        forall|i: int|
            0 <= i < unfold_parents(g, v, k, depth).len() ==> #[trigger] unfold_parents(g, v, k, depth)[i].0
                >= depth,
        k >= 1 ==> unfold_parents(g, v, k, depth).len() >= 1 && unfold_parents(g, v, k, depth)[0] == (
            depth,
            g[v as int][0],
        ),
        forall|j: int|
            0 <= j < k ==> unfold_parents(g, v, k, depth).contains((depth, #[trigger] g[v as int][j])),
        forall|i: int|
            0 <= i < unfold_parents(g, v, k, depth).len() && #[trigger] unfold_parents(g, v, k, depth)[i].0
                == depth ==> g[v as int].contains(unfold_parents(g, v, k, depth)[i].1),
    decreases v, 0nat, k,
{
    if k > 0 {
        lemma_unfold_parents_levels(g, v, (k - 1) as nat, depth);
        let prev = unfold_parents(g, v, (k - 1) as nat, depth);
        let p = g[v as int][k - 1];
        assert(p < v);
        law_tree_listing_levels(g, p, depth);
        let up = unfold(g, p, depth);
        let all = unfold_parents(g, v, k, depth);
        assert(all == prev + up);
        assert forall|i: int| 0 <= i < all.len() implies #[trigger] all[i].0 >= depth by {
            if i >= prev.len() {
                assert(all[i] == up[i - prev.len()]);
            } else {
                assert(all[i] == prev[i]);
            }
        }
        assert(all[prev.len() as int] == (depth, p));
        if k == 1 {
            assert(prev.len() == 0);
        } else {
            assert(all[0] == prev[0]);
        }
        assert forall|j: int| 0 <= j < k implies all.contains((depth, #[trigger] g[v as int][j])) by {
            if j == k - 1 {
                assert(all[prev.len() as int] == (depth, p));
            } else {
                assert(prev.contains((depth, g[v as int][j])));
                let m = choose|m: int| 0 <= m < prev.len() && prev[m] == (depth, g[v as int][j]);
                assert(all[m] == prev[m]);
            }
        }
        assert forall|i: int| 0 <= i < all.len() && #[trigger] all[i].0 == depth implies g[v as int].contains(
            all[i].1,
        ) by {
            if i >= prev.len() {
                assert(all[i] == up[i - prev.len()]);
                assert(i - prev.len() == 0);
                assert(g[v as int][k - 1] == p);
            } else {
                assert(all[i] == prev[i]);
            }
        }
    }
}

} // verus!
