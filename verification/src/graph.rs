//! The implication graph: a directed graph over (package, feature) vertices
//! with idempotent edge insertion, stable enumeration of edge sources, and
//! breadth-first reachability search with path reconstruction.

use vstd::prelude::*;

verus! {

/// A graph vertex: a package id (or, for an unresolvable dependency, its
/// declared name) paired with a feature name.
pub struct CrateAndFeature(pub String, pub String);

impl View for CrateAndFeature {
    type V = (Seq<char>, Seq<char>);

    open spec fn view(&self) -> (Seq<char>, Seq<char>) {
        (self.0@, self.1@)
    }
}

impl Clone for CrateAndFeature {
    fn clone(&self) -> (r: Self)
        ensures
            r@ == self@,
    {
        CrateAndFeature(self.0.clone(), self.1.clone())
    }
}

impl PartialEq for CrateAndFeature {
    fn eq(&self, other: &Self) -> (r: bool) {
        self.0.eq(&other.0) && self.1.eq(&other.1)
    }
}

impl Eq for CrateAndFeature {

}

impl vstd::std_specs::cmp::PartialEqSpecImpl for CrateAndFeature {
    open spec fn obeys_eq_spec() -> bool {
        true
    }

    open spec fn eq_spec(&self, other: &Self) -> bool {
        self@ == other@
    }
}

/// The mathematical content of a [`Dag`]: the vertices in insertion order and,
/// for each vertex, the indices of its direct successors in insertion order.
#[verifier::ext_equal]
pub struct DagView {
    /// The vertices, as (package id, feature name) pairs.
    pub verts: Seq<(Seq<char>, Seq<char>)>,
    /// Adjacency: `adj[i]` holds the indices of the successors of vertex `i`.
    pub adj: Seq<Seq<int>>,
}

impl DagView {
    /// Well-formedness: vertices are distinct, every adjacency row belongs to
    /// a vertex, successor indices are in range and rows hold no duplicates.
    pub open spec fn wf(self) -> bool {
        &&& self.verts.len() == self.adj.len()
        &&& (forall|i: int, j: int|
            0 <= i < j < self.verts.len() ==> self.verts[i] != self.verts[j])
        &&& (forall|i: int, k: int|
            0 <= i < self.adj.len() && 0 <= k < self.adj[i].len() ==> 0 <= #[trigger] self.adj[i][k]
                < self.verts.len())
        &&& (forall|i: int, k1: int, k2: int|
            0 <= i < self.adj.len() && 0 <= k1 < k2 < self.adj[i].len() ==> self.adj[i][k1]
                != self.adj[i][k2])
    }

    /// The empty graph.
    pub open spec fn empty() -> DagView {
        DagView { verts: Seq::empty(), adj: Seq::empty() }
    }
}

/// The index of the first vertex of `verts` from position `k` on that equals
/// `v`, if any.
pub open spec fn find_vert_from(
    verts: Seq<(Seq<char>, Seq<char>)>,
    v: (Seq<char>, Seq<char>),
    k: int,
) -> Option<int>
    decreases verts.len() - k,
{
    if k < 0 || k >= verts.len() {
        None
    } else if verts[k] == v {
        Some(k)
    } else {
        find_vert_from(verts, v, k + 1)
    }
}

/// The index of vertex `v` in `verts`, if present.
pub open spec fn find_vert(verts: Seq<(Seq<char>, Seq<char>)>, v: (Seq<char>, Seq<char>)) -> Option<
    int,
> {
    find_vert_from(verts, v, 0)
}

/// A `None` result of the scan means no vertex from `k` on equals `v`.
pub proof fn lemma_find_vert_from_none(
    verts: Seq<(Seq<char>, Seq<char>)>,
    v: (Seq<char>, Seq<char>),
    k: int,
)
    requires
        0 <= k <= verts.len(),
        find_vert_from(verts, v, k) is None,
    ensures
        forall|m: int| k <= m < verts.len() ==> verts[m] != v,
    decreases verts.len() - k,
{
    if k < verts.len() {
        lemma_find_vert_from_none(verts, v, k + 1);
    }
}

/// A `Some(i)` result of the scan is in range, points at `v`, and no earlier
/// position from `k` on does.
pub proof fn lemma_find_vert_from_some(
    verts: Seq<(Seq<char>, Seq<char>)>,
    v: (Seq<char>, Seq<char>),
    k: int,
    i: int,
)
    requires
        0 <= k <= verts.len(),
        find_vert_from(verts, v, k) == Some(i),
    ensures
        k <= i < verts.len(),
        verts[i] == v,
        forall|m: int| k <= m < i ==> verts[m] != v,
    decreases verts.len() - k,
{
    if k < verts.len() && verts[k] != v {
        lemma_find_vert_from_some(verts, v, k + 1, i);
    }
}

pub proof fn lemma_find_vert_prefix(
    verts: Seq<(Seq<char>, Seq<char>)>,
    v: (Seq<char>, Seq<char>),
    k: int,
)
    requires
        0 <= k <= verts.len(),
        forall|m: int| 0 <= m < k ==> verts[m] != v,
    ensures
        find_vert(verts, v) == find_vert_from(verts, v, k),
    decreases k,
{
    if k > 0 {
        lemma_find_vert_prefix(verts, v, k - 1);
    }
}

/// Interning a vertex at the spec level: the graph after making sure `v` is a
/// vertex, and `v`'s index.
pub open spec fn spec_intern(g: DagView, v: (Seq<char>, Seq<char>)) -> (DagView, int) {
    match find_vert(g.verts, v) {
        Some(i) => (g, i),
        None => (
            DagView { verts: g.verts.push(v), adj: g.adj.push(Seq::empty()) },
            g.verts.len() as int,
        ),
    }
}

/// Edge insertion at the spec level: both endpoints are interned, then the
/// target index is appended to the source's adjacency row unless it is
/// already there.
pub open spec fn spec_add_edge(
    g: DagView,
    from: (Seq<char>, Seq<char>),
    to: (Seq<char>, Seq<char>),
) -> DagView {
    let (g1, i) = spec_intern(g, from);
    let (g2, j) = spec_intern(g1, to);
    if g2.adj[i].contains(j) {
        g2
    } else {
        DagView { verts: g2.verts, adj: g2.adj.update(i, g2.adj[i].push(j)) }
    }
}

/// In a duplicate-free vertex sequence the scan finds a vertex exactly at
/// its position.
pub proof fn lemma_find_vert_at(verts: Seq<(Seq<char>, Seq<char>)>, v: (Seq<char>, Seq<char>), i: int)
    requires
        forall|a: int, b: int| 0 <= a < b < verts.len() ==> verts[a] != verts[b],
        0 <= i < verts.len(),
        verts[i] == v,
    ensures
        find_vert(verts, v) == Some(i),
{
    assert(forall|m: int| 0 <= m < i ==> verts[m] != v);
    lemma_find_vert_prefix(verts, v, i);
}

/// Law: edge insertion is idempotent. Inserting an edge right after
/// inserting it changes nothing, so the graph construction is purely
/// additive with set semantics for edges.
pub proof fn lemma_add_edge_idempotent(
    g: DagView,
    from: (Seq<char>, Seq<char>),
    to: (Seq<char>, Seq<char>),
)
    requires
        g.wf(),
    ensures
        spec_add_edge(spec_add_edge(g, from, to), from, to) == spec_add_edge(g, from, to),
{
    let (ga, i) = spec_intern(g, from);
    let (gb, j) = spec_intern(ga, to);
    // Interning preserves distinctness of the vertices.
    assert(forall|a: int, b: int| 0 <= a < b < ga.verts.len() ==> ga.verts[a] != ga.verts[b]) by {
        if find_vert(g.verts, from) is None {
            lemma_find_vert_from_none(g.verts, from, 0);
        }
    }
    assert(forall|a: int, b: int| 0 <= a < b < gb.verts.len() ==> gb.verts[a] != gb.verts[b]) by {
        if find_vert(ga.verts, to) is None {
            lemma_find_vert_from_none(ga.verts, to, 0);
        }
    }
    // Both endpoints are vertices of the once-extended graph.
    assert(0 <= i < ga.verts.len() && ga.verts[i] == from) by {
        if find_vert(g.verts, from) is Some {
            lemma_find_vert_from_some(g.verts, from, 0, i);
        }
    }
    assert(0 <= j < gb.verts.len() && gb.verts[j] == to) by {
        if find_vert(ga.verts, to) is Some {
            lemma_find_vert_from_some(ga.verts, to, 0, j);
        }
    }
    assert(gb.verts[i] == from);
    let g1 = spec_add_edge(g, from, to);
    assert(g1.verts == gb.verts);
    assert(g1.adj[i].contains(j)) by {
        if !gb.adj[i].contains(j) {
            assert(g1.adj[i] == gb.adj[i].push(j));
            assert(g1.adj[i][g1.adj[i].len() - 1] == j);
        }
    }
    // The second insertion finds both vertices where they are and sees the
    // edge already recorded.
    lemma_find_vert_at(g1.verts, from, i);
    lemma_find_vert_at(g1.verts, to, j);
    assert(spec_intern(g1, from) == (g1, i));
    assert(spec_intern(g1, to) == (g1, j));
    assert(spec_add_edge(g1, from, to) == g1);
}

/// The vertices with at least one outgoing edge among the first `k` vertices,
/// in insertion order.
pub open spec fn spec_lhs_upto(g: DagView, k: int) -> Seq<(Seq<char>, Seq<char>)>
    decreases k,
{
    if k <= 0 {
        Seq::empty()
    } else {
        spec_lhs_upto(g, k - 1) + (if g.adj[k - 1].len() > 0 {
            seq![g.verts[k - 1]]
        } else {
            Seq::empty()
        })
    }
}

/// The vertices with at least one outgoing edge, in insertion order.
pub open spec fn spec_lhs_nodes(g: DagView) -> Seq<(Seq<char>, Seq<char>)> {
    spec_lhs_upto(g, g.verts.len() as int)
}

/// A directed graph over [`CrateAndFeature`] vertices. Vertices are interned
/// in insertion order; adjacency is index-based.
pub struct Dag {
    verts: Vec<CrateAndFeature>,
    adj: Vec<Vec<usize>>,
}

impl View for Dag {
    type V = DagView;

    closed spec fn view(&self) -> DagView {
        DagView {
            verts: self.verts@.map_values(|v: CrateAndFeature| v@),
            adj: self.adj@.map_values(|row: Vec<usize>| row@.map_values(|x: usize| x as int)),
        }
    }
}

impl Dag {
    /// Well-formedness of the representation.
    pub open spec fn wf(&self) -> bool {
        self@.wf()
    }

    /// Creates an empty graph.
    pub fn new() -> (d: Dag)
        ensures
            d.wf(),
            d@ == DagView::empty(),
    {
        let d = Dag { verts: Vec::new(), adj: Vec::new() };
        proof {
            assert(d@.verts =~= Seq::empty());
            assert(d@.adj =~= Seq::empty());
            assert(d@ =~= DagView::empty());
        }
        d
    }

    /// Finds the index of vertex `v`, scanning in insertion order.
    fn find_vertex(&self, v: &CrateAndFeature) -> (r: Option<usize>)
        ensures
            match r {
                Some(i) => find_vert(self@.verts, v@) == Some(i as int) && 0 <= i
                    < self@.verts.len(),
                None => find_vert(self@.verts, v@) is None,
            },
    {
        let n = self.verts.len();
        let mut i: usize = 0;
        while i < n
            invariant
                n == self.verts@.len(),
                self@.verts.len() == n,
                0 <= i <= n,
                forall|m: int| 0 <= m < i ==> self@.verts[m] != v@,
                forall|m: int| 0 <= m < n ==> self@.verts[m] == self.verts@[m]@,
            decreases n - i,
        {
            if self.verts[i].eq(v) {
                proof {
                    lemma_find_vert_prefix(self@.verts, v@, i as int);
                }
                return Some(i);
            }
            i += 1;
        }
        proof {
            lemma_find_vert_prefix(self@.verts, v@, n as int);
        }
        None
    }

    /// Interns vertex `v`: returns its index, appending it with an empty
    /// adjacency row if it is new.
    fn intern(&mut self, v: &CrateAndFeature) -> (r: usize)
        requires
            old(self).wf(),
        ensures
            final(self).wf(),
            (final(self)@, r as int) == spec_intern(old(self)@, v@),
            0 <= r < final(self)@.verts.len(),
            final(self)@.verts[r as int] == v@,
            old(self)@.verts.len() <= final(self)@.verts.len(),
            forall|m: int|
                0 <= m < old(self)@.verts.len() ==> final(self)@.verts[m] == old(self)@.verts[m]
                    && final(self)@.adj[m] == old(self)@.adj[m],
    {
        match self.find_vertex(v) {
            Some(i) => {
                proof {
                    lemma_find_vert_from_some(self@.verts, v@, 0, i as int);
                }
                i
            },
            None => {
                let i = self.verts.len();
                proof {
                    lemma_find_vert_from_none(self@.verts, v@, 0);
                }
                self.verts.push(v.clone());
                self.adj.push(Vec::new());
                proof {
                    assert(self@.verts =~~= old(self)@.verts.push(v@));
                    assert(self@.adj =~~= old(self)@.adj.push(Seq::empty()));
                    assert forall|a: int, b: int| 0 <= a < b < self@.verts.len() implies self@
                        .verts[a] != self@.verts[b] by {
                        if b == self@.verts.len() - 1 {
                            assert(old(self)@.verts[a] != v@);
                        }
                    }
                }
                i
            },
        }
    }

    /// Inserts the edge `from -> to`, interning both endpoints. Idempotent:
    /// an edge that is already present is not recorded twice.
    pub fn add_edge(&mut self, from: &CrateAndFeature, to: &CrateAndFeature)
        requires
            old(self).wf(),
        ensures
            final(self).wf(),
            final(self)@ == spec_add_edge(old(self)@, from@, to@),
    {
        let i = self.intern(from);
        let ghost g1 = self@;
        let j = self.intern(to);
        let ghost g2 = self@;
        proof {
            assert((g1, i as int) == spec_intern(old(self)@, from@));
            assert((g2, j as int) == spec_intern(g1, to@));
            // Interning `to` leaves `from`'s row unchanged.
            assert(g2.adj[i as int] == g1.adj[i as int]);
        }
        assert(0 <= i < self@.adj.len());
        let row_len = self.adj[i].len();
        let mut k: usize = 0;
        let mut present = false;
        while k < row_len
            invariant
                self@ == g2,
                g2.wf(),
                0 <= (i as int) < g2.adj.len(),
                0 <= (i as int) < self.adj@.len(),
                row_len == g2.adj[i as int].len(),
                0 <= k <= row_len,
                present == exists|m: int| 0 <= m < k && g2.adj[i as int][m] == j as int,
            decreases row_len - k,
        {
            if self.adj[i][k] == j {
                present = true;
                proof {
                    assert(g2.adj[i as int][k as int] == j as int);
                }
                k = row_len;
            } else {
                k += 1;
            }
        }
        proof {
            assert(g2.adj[i as int].contains(j as int) <==> exists|m: int|
                0 <= m < row_len && g2.adj[i as int][m] == j as int);
        }
        if !present {
            let ghost old_adj = self@.adj;
            self.adj[i].push(j);
            proof {
                assert(self@.verts =~~= g2.verts);
                assert(self@.adj =~~= old_adj.update(i as int, old_adj[i as int].push(j as int)));
                assert(self@ =~~= spec_add_edge(old(self)@, from@, to@));
                let gr = self@;
                assert forall|a: int, k1: int, k2: int|
                    0 <= a < gr.adj.len() && 0 <= k1 < k2 < gr.adj[a].len() implies gr.adj[a][k1]
                    != gr.adj[a][k2] by {
                    if a == i as int && k2 == gr.adj[a].len() - 1 {
                        assert(!g2.adj[i as int].contains(j as int));
                        assert(g2.adj[i as int][k1] != j as int);
                    }
                }
            }
        } else {
            proof {
                assert(self@ =~~= spec_add_edge(old(self)@, from@, to@));
            }
        }
    }

    /// Every vertex that has at least one outgoing edge, in insertion order.
    /// The order is stable: it depends only on the order of `add_edge` calls.
    pub fn lhs_nodes(&self) -> (r: Vec<CrateAndFeature>)
        requires
            self.wf(),
        ensures
            r@.map_values(|v: CrateAndFeature| v@) == spec_lhs_nodes(self@),
    {
        let n = self.verts.len();
        let mut r: Vec<CrateAndFeature> = Vec::new();
        let mut i: usize = 0;
        proof {
            assert(r@.map_values(|v: CrateAndFeature| v@) =~= spec_lhs_upto(self@, 0));
        }
        while i < n
            invariant
                self.wf(),
                n == self.verts@.len(),
                self@.verts.len() == n,
                self@.adj.len() == n,
                0 <= i <= n,
                r@.map_values(|v: CrateAndFeature| v@) == spec_lhs_upto(self@, i as int),
            decreases n - i,
        {
            if self.adj[i].len() > 0 {
                r.push(self.verts[i].clone());
                proof {
                    assert(r@.map_values(|v: CrateAndFeature| v@) =~= spec_lhs_upto(
                        self@,
                        i + 1 as int,
                    ));
                }
            } else {
                proof {
                    assert(r@.map_values(|v: CrateAndFeature| v@) =~= spec_lhs_upto(
                        self@,
                        i + 1 as int,
                    ));
                }
            }
            i += 1;
        }
        r
    }
}

/// No path from `start` reaches a vertex whose feature name is `dis`.
pub open spec fn unreachable_feature(
    g: DagView,
    start: (Seq<char>, Seq<char>),
    dis: Seq<char>,
) -> bool {
    forall|q: Seq<(Seq<char>, Seq<char>)>|
        #![trigger is_path(g, q)]
        is_path(g, q) && q[0] == start ==> q.last().1 != dis
}

impl Dag {
    /// Breadth-first search from `start`, following edges forward, for the
    /// first reachable vertex whose feature name reads `stays_disabled`.
    ///
    /// Returns the shortest sequence of vertices `start = v0, v1, ..., vk`
    /// such that `vk`'s feature is `stays_disabled` and no earlier vertex's
    /// is, or `None` if no reachable vertex qualifies. Vertices are never
    /// revisited, so a cyclic graph still terminates. Ties among equally
    /// short paths go to the path discovered first when edges are followed
    /// in insertion order.
    pub fn reachable_predicate(&self, start: &CrateAndFeature, stays_disabled: &String) -> (r:
        Option<Vec<CrateAndFeature>>)
        requires
            self.wf(),
        ensures
            match r {
                Some(path) => {
                    let pv = path@.map_values(|x: CrateAndFeature| x@);
                    &&& pv.len() >= 1
                    &&& pv[0] == start@
                    &&& pv.last().1 == stays_disabled@
                    &&& (forall|k: int|
                        0 <= k < pv.len() - 1 ==> (#[trigger] pv[k]).1 != stays_disabled@)
                    &&& is_path(self@, pv)
                    &&& (forall|q: Seq<(Seq<char>, Seq<char>)>|
                        is_path(self@, q) && q[0] == start@ && q.last().1 == stays_disabled@
                            ==> q.len() >= pv.len())
                },
                None => unreachable_feature(self@, start@, stays_disabled@),
            },
    {
        let ghost g = self@;
        if start.1.eq(stays_disabled) {
            let mut path: Vec<CrateAndFeature> = Vec::new();
            path.push(start.clone());
            proof {
                assert(path@.map_values(|x: CrateAndFeature| x@) =~= seq![start@]);
            }
            return Some(path);
        }
        let s = match self.find_vertex(start) {
            None => {
                proof {
                    lemma_find_vert_from_none(g.verts, start@, 0);
                    assert forall|q: Seq<(Seq<char>, Seq<char>)>|
                        is_path(g, q) && q[0] == start@ implies q.last().1 != stays_disabled@ by {
                        if q.len() >= 2 {
                            let k0 = 0;
                            assert(has_edge(g, q[k0], q[k0 + 1]));
                            assert(false);
                        }
                    }
                }
                return None;
            },
            Some(s) => s,
        };
        proof {
            lemma_find_vert_from_some(g.verts, start@, 0, s as int);
        }
        let n = self.verts.len();
        let mut visited = make_bool_vec(n);
        let mut dist = make_usize_vec(n);
        let mut parent = make_usize_vec(n);
        let mut queue: Vec<usize> = Vec::new();
        visited[s] = true;
        queue.push(s);
        let mut head: usize = 0;
        proof {
            assert(to_ints(queue@) =~= seq![s as int]);
            assert(bfs_inv(g, visited@, to_ints(dist@), to_ints(queue@), 0)) by {
                let q0 = to_ints(queue@);
                assert(q0[0] == s as int);
                assert(forall|v: int|
                    0 <= v < n && visited@[v] ==> v == s as int);
                assert forall|v: int| 0 <= v < n && visited@[v] implies exists|i: int|
                    0 <= i < q0.len() && q0[i] == v by {
                    assert(q0[0] == v);
                }
            }
        }
        while head < queue.len()
            invariant
                g == self@,
                self.wf(),
                n == g.verts.len(),
                0 <= s < n,
                g.verts[s as int] == start@,
                start@.1 != stays_disabled@,
                visited@[s as int],
                to_ints(queue@)[0] == s as int,
                bfs_inv(g, visited@, to_ints(dist@), to_ints(queue@), head as int),
                parent_inv(g, visited@, to_ints(dist@), to_ints(parent@), s as int),
                forall|i: int|
                    0 <= i < head ==> (g.verts[#[trigger] to_ints(queue@)[i]]).1
                        != stays_disabled@,
            decreases n - head,
        {
            let u = queue[head];
            let ghost distI = to_ints(dist@);
            let ghost queueI = to_ints(queue@);
            if self.verts[u].1.eq(stays_disabled) {
                // Found: walk the parent chain back to the root, then
                // reverse it into a forward path.
                let mut out: Vec<CrateAndFeature> = Vec::new();
                out.push(self.verts[u].clone());
                let mut cur = u;
                let ghost mut rev: Seq<int> = seq![u as int];
                while cur != s
                    invariant
                        g == self@,
                        self.wf(),
                        n == g.verts.len(),
                        0 <= s < n,
                        0 <= cur < n,
                        visited@.len() == n,
                        dist@.len() == n,
                        parent@.len() == n,
                        visited@[cur as int],
                        parent_inv(g, visited@, to_ints(dist@), to_ints(parent@), s as int),
                        forall|v: int|
                            0 <= v < n && visited@[v] ==> to_ints(dist@)[v] >= 0,
                        to_ints(dist@)[s as int] == 0,
                        rev.len() == out@.len(),
                        rev.len() >= 1,
                        rev[0] == u as int,
                        rev.last() == cur as int,
                        forall|m: int| 0 <= m < rev.len() ==> 0 <= #[trigger] rev[m] < n,
                        forall|m: int| 0 <= m < rev.len() ==> visited@[#[trigger] rev[m]],
                        forall|m: int|
                            0 <= m < rev.len() ==> out@[m]@ == g.verts[#[trigger] rev[m]],
                        forall|m: int|
                            0 <= m < rev.len() - 1 ==> g.adj[#[trigger] rev[m + 1]].contains(
                                rev[m]),
                        forall|m: int|
                            0 <= m < rev.len() ==> to_ints(dist@)[#[trigger] rev[m]] == to_ints(
                                dist@)[u as int] - m,
                    decreases to_ints(dist@)[cur as int],
                {
                    let ghost cur0 = cur as int;
                    proof {
                        // The parent link of `cur` is valid: `cur` is
                        // visited and is not the root.
                        assert(visited@[cur0] && cur0 != s as int);
                        assert(0 <= to_ints(parent@)[cur0] < n && visited@[to_ints(
                            parent@)[cur0]] && to_ints(dist@)[to_ints(parent@)[cur0]] + 1
                            == to_ints(dist@)[cur0] && g.adj[to_ints(parent@)[cur0]].contains(
                            cur0));
                    }
                    cur = parent[cur];
                    proof {
                        assert(cur as int == to_ints(parent@)[cur0]);
                    }
                    out.push(self.verts[cur].clone());
                    proof {
                        let prev = rev;
                        rev = rev.push(cur as int);
                        assert(rev.last() == cur as int);
                        assert(forall|m: int|
                            0 <= m < prev.len() ==> #[trigger] rev[m] == prev[m]);
                        assert(g.adj[rev[(rev.len() - 2) + 1]].contains(rev[rev.len() - 2]));
                        assert forall|m: int|
                            0 <= m < rev.len() - 1 implies g.adj[#[trigger] rev[m + 1]].contains(
                            rev[m]) by {
                            if m < rev.len() - 2 {
                                assert(g.adj[prev[m + 1]].contains(prev[m]));
                            }
                        }
                    }
                }
                let mut path: Vec<CrateAndFeature> = Vec::new();
                let mut t = out.len();
                while t > 0
                    invariant
                        out@.len() == rev.len(),
                        0 <= t <= out@.len(),
                        path@.len() == out@.len() - t,
                        forall|m: int|
                            0 <= m < path@.len() ==> path@[m]@ == out@[out@.len() - 1 - m]@,
                    decreases t,
                {
                    t -= 1;
                    path.push(out[t].clone());
                }
                proof {
                    let pv = path@.map_values(|x: CrateAndFeature| x@);
                    let d = distI[u as int];
                    let revr = rev.reverse();
                    assert(rev.last() == s as int);
                    // The reversed chain is a forward index path of length
                    // `d + 1` from the root to `u`.
                    assert(pv.len() == rev.len());
                    assert(rev.len() == d + 1) by {
                        assert(distI[rev[rev.len() - 1]] == d - (rev.len() - 1));
                        assert(distI[s as int] == 0);
                    }
                    assert forall|m: int| 0 <= m < pv.len() implies #[trigger] pv[m] == g.verts[rev[pv.len()
                        - 1 - m]] by {
                        assert(path@[m]@ == out@[out@.len() - 1 - m]@);
                    }
                    assert(pv[0] == g.verts[s as int]);
                    assert(pv.last() == g.verts[u as int]);
                    assert(pv.last().1 == stays_disabled@);
                    // Interior vertices sit strictly closer to the root, so
                    // they are expanded, hence not goal vertices.
                    assert forall|m: int| 0 <= m < pv.len() - 1 implies (#[trigger] pv[m]).1
                        != stays_disabled@ by {
                        let v = rev[pv.len() - 1 - m];
                        assert(distI[v] == d - (pv.len() - 1 - m));
                        assert(distI[v] < d);
                        assert(visited@[v]);
                        let iv = choose|i: int| 0 <= i < queueI.len() && queueI[i] == v;
                        assert(0 <= iv < queueI.len() && queueI[iv] == v);
                        assert(iv < head) by {
                            if iv >= head {
                                assert(distI[queueI[head as int]] <= distI[queueI[iv]]);
                            }
                        }
                        assert((g.verts[queueI[iv]]).1 != stays_disabled@);
                    }
                    assert(is_path(g, pv)) by {
                        assert forall|k: int| 0 <= k < pv.len() - 1 implies has_edge(
                            g,
                            #[trigger] pv[k],
                            pv[k + 1],
                        ) by {
                            let a = rev[pv.len() - 1 - k];
                            let b = rev[pv.len() - 1 - (k + 1)];
                            assert(g.adj[rev[(pv.len() - 2 - k) + 1]].contains(rev[pv.len() - 2
                                - k]));
                            assert(g.adj[a].contains(b));
                            let c = choose|c: int| 0 <= c < g.adj[a].len() && g.adj[a][c] == b;
                            assert(pv[k] == g.verts[a] && pv[k + 1] == g.verts[b]);
                        }
                    }
                    // Minimality: every competing path is at least as long.
                    assert forall|q: Seq<(Seq<char>, Seq<char>)>|
                        is_path(g, q) && q[0] == start@ && q.last().1 == stays_disabled@ implies q.len()
                        >= pv.len() by {
                        if q.len() == 1 {
                            assert(q.last() == start@);
                            assert(false);
                        } else {
                            lemma_path_to_ipath(g, q, s as int);
                            let p = choose|p: Seq<int>|
                                is_ipath(g, p) && p.len() == q.len() && p[0] == s as int
                                    && g.verts[p.last()] == q.last();
                            lemma_bfs_lower_bound(g, visited@, distI, queueI, head as int, p);
                            if visited@[p.last()] {
                                // A visited goal vertex is not expanded, so
                                // its distance is at least `d`.
                                let iv = choose|i: int|
                                    0 <= i < queueI.len() && queueI[i] == p.last();
                                assert(0 <= iv < queueI.len() && queueI[iv] == p.last());
                                assert(iv >= head) by {
                                    if iv < head {
                                        assert((g.verts[queueI[iv]]).1 != stays_disabled@);
                                    }
                                }
                                assert(distI[queueI[head as int]] <= distI[queueI[iv]]);
                                assert(q.len() - 1 >= d);
                            } else {
                                assert(q.len() - 1 >= distI[queueI[head as int]] + 1);
                            }
                        }
                    }
                }
                return Some(path);
            }
            // Expand `u`: enqueue its unvisited successors in edge order.
            let deg = self.adj[u].len();
            let mut k: usize = 0;
            while k < deg
                invariant
                    g == self@,
                    self.wf(),
                    n == g.verts.len(),
                    0 <= s < n,
                    g.verts[s as int] == start@,
                    start@.1 != stays_disabled@,
                    visited@[s as int],
                    0 <= head < queue@.len(),
                    to_ints(queue@)[0] == s as int,
                    to_ints(queue@)[head as int] == u as int,
                    0 <= u < n,
                    deg == g.adj[u as int].len(),
                    0 <= k <= deg,
                    (g.verts[u as int]).1 != stays_disabled@,
                    bfs_inv(g, visited@, to_ints(dist@), to_ints(queue@), head as int),
                    parent_inv(g, visited@, to_ints(dist@), to_ints(parent@), s as int),
                    forall|i: int|
                        0 <= i < head ==> (g.verts[#[trigger] to_ints(queue@)[i]]).1
                            != stays_disabled@,
                    forall|m: int| 0 <= m < k ==> visited@[g.adj[u as int][m]],
                decreases deg - k,
            {
                proof {
                    assert(g.adj[u as int] == self.adj@[u as int]@.map_values(|x: usize| x as int));
                }
                let w = self.adj[u][k];
                proof {
                    assert(w as int == g.adj[u as int][k as int]);
                    assert(0 <= (w as int) < n);
                }
                if !visited[w] {
                    let ghost vis0 = visited@;
                    let ghost dist0 = to_ints(dist@);
                    let ghost queue0 = to_ints(queue@);
                    let ghost par0 = to_ints(parent@);
                    let du = dist[u];
                    proof {
                        assert(du as int == dist0[u as int]);
                        assert(du < n) by {
                            assert(dist0[queue0[head as int]] <= head as int);
                        }
                        // The queue cannot already hold all `n` vertices, or
                        // `w` would be visited.
                        if queue0.len() == n {
                            lemma_distinct_full(queue0, n as int, w as int);
                            let iw = choose|i: int| 0 <= i < queue0.len() && queue0[i] == w as int;
                            assert(vis0[queue0[iw]]);
                            assert(false);
                        }
                    }
                    visited[w] = true;
                    dist[w] = du + 1;
                    parent[w] = u;
                    queue.push(w);
                    proof {
                        let vis1 = visited@;
                        let dist1 = to_ints(dist@);
                        let queue1 = to_ints(queue@);
                        let par1 = to_ints(parent@);
                        assert(vis1 =~= vis0.update(w as int, true));
                        assert(dist1 =~= dist0.update(w as int, du + 1 as int));
                        assert(queue1 =~= queue0.push(w as int));
                        assert(par1 =~= par0.update(w as int, u as int));
                        assert(forall|i: int|
                            0 <= i < queue0.len() ==> #[trigger] queue1[i] == queue0[i]);
                        assert(queue1[queue1.len() - 1] == w as int);
                        assert(bfs_inv(g, vis1, dist1, queue1, head as int)) by {
                            assert(dist1[queue1[0]] == 0);
                            assert forall|v: int| 0 <= v < n && vis1[v] implies exists|i: int|
                                0 <= i < queue1.len() && queue1[i] == v by {
                                if v == w as int {
                                    assert(queue1[queue1.len() - 1] == v);
                                } else {
                                    let i = choose|i: int|
                                        0 <= i < queue0.len() && queue0[i] == v;
                                    assert(queue1[i] == v);
                                }
                            }
                            assert forall|i: int, j: int|
                                0 <= i < j < queue1.len() implies queue1[i] != queue1[j] by {
                                if j == queue1.len() - 1 {
                                    assert(vis0[queue0[i]]);
                                }
                            }
                            assert forall|i: int, j: int|
                                0 <= i <= j < queue1.len() implies dist1[#[trigger] queue1[i]]
                                    <= dist1[#[trigger] queue1[j]] by {
                                if j == queue1.len() - 1 && i < j {
                                    assert(dist0[queue0[i]] <= dist0[queue0[head as int]] + 1);
                                }
                            }
                            assert forall|a: int, c: int|
                                0 <= a < n && vis1[a] && 0 <= c < g.adj[a].len() && vis1[#[trigger] g.adj[a][c]]
                                    implies dist1[g.adj[a][c]] <= dist1[a] + 1 by {
                                let b = g.adj[a][c];
                                if a == w as int {
                                    if b != w as int {
                                        assert(vis0[b]);
                                        let ib = choose|i: int|
                                            0 <= i < queue0.len() && queue0[i] == b;
                                        assert(0 <= ib < queue0.len() && queue0[ib] == b);
                                        assert(dist0[queue0[ib]] <= dist0[queue0[head as int]]
                                            + 1);
                                    }
                                    assert(dist1[a] == du + 1);
                                } else if b == w as int {
                                    // `a` saw `w` unvisited, so `a` is not
                                    // expanded and sits at distance >= du.
                                    assert(vis0[a]);
                                    let ia = choose|i: int|
                                        0 <= i < queue0.len() && queue0[i] == a;
                                    assert(0 <= ia < queue0.len() && queue0[ia] == a);
                                    assert(ia >= head) by {
                                        if ia < head {
                                            assert(vis0[g.adj[queue0[ia]][c]]);
                                        }
                                    }
                                    assert(dist0[queue0[head as int]] <= dist0[queue0[ia]]);
                                    assert(dist1[b] == du + 1);
                                } else {
                                    assert(dist0[b] <= dist0[a] + 1);
                                }
                            }
                        }
                        assert(parent_inv(g, vis1, dist1, par1, s as int)) by {
                            assert forall|v: int|
                                0 <= v < n && vis1[v] && v != s as int implies 0 <= #[trigger] par1[v]
                                < n && vis1[par1[v]] && dist1[par1[v]] + 1 == dist1[v]
                                && g.adj[par1[v]].contains(v) by {
                                if v == w as int {
                                    assert(par1[v] == u as int);
                                    assert(g.adj[u as int][k as int] == w as int);
                                    assert(g.adj[u as int].contains(w as int));
                                } else {
                                    assert(vis0[v]);
                                    assert(par0[v] != w as int);
                                }
                            }
                        }
                    }
                }
                k += 1;
            }
            head += 1;
        }
        proof {
            let distI = to_ints(dist@);
            let queueI = to_ints(queue@);
            assert forall|q: Seq<(Seq<char>, Seq<char>)>|
                is_path(g, q) && q[0] == start@ implies q.last().1 != stays_disabled@ by {
                if q.len() == 1 {
                    assert(q.last() == start@);
                } else {
                    lemma_path_to_ipath(g, q, s as int);
                    let p = choose|p: Seq<int>|
                        is_ipath(g, p) && p.len() == q.len() && p[0] == s as int && g.verts[p.last()]
                            == q.last();
                    lemma_bfs_lower_bound(g, visited@, distI, queueI, head as int, p);
                    assert(visited@[p.last()]);
                    let iv = choose|i: int| 0 <= i < queueI.len() && queueI[i] == p.last();
                    assert(0 <= iv < queueI.len() && queueI[iv] == p.last());
                    assert((g.verts[queueI[iv]]).1 != stays_disabled@);
                }
            }
        }
        None
    }
}

/// Whether the graph holds a directed edge between two vertices, named by
/// their (package, feature) views.
pub open spec fn has_edge(
    g: DagView,
    a: (Seq<char>, Seq<char>),
    b: (Seq<char>, Seq<char>),
) -> bool {
    exists|i: int, k: int|
        0 <= i < g.verts.len() && g.verts[i] == a && 0 <= k < g.adj[i].len() && 0 <= g.adj[i][k]
            < g.verts.len() && g.verts[g.adj[i][k]] == b
}

/// A path: a nonempty sequence of vertices, consecutive ones joined by edges.
/// A single vertex is always a path, whether or not it occurs in the graph.
pub open spec fn is_path(g: DagView, p: Seq<(Seq<char>, Seq<char>)>) -> bool {
    p.len() >= 1 && forall|k: int| 0 <= k < p.len() - 1 ==> has_edge(g, #[trigger] p[k], p[k + 1])
}

/// A path over vertex indices.
pub open spec fn is_ipath(g: DagView, p: Seq<int>) -> bool {
    &&& p.len() >= 1
    &&& (forall|k: int| 0 <= k < p.len() ==> 0 <= #[trigger] p[k] < g.verts.len())
    &&& (forall|k: int| 0 <= k < p.len() - 1 ==> g.adj[p[k]].contains(#[trigger] p[k + 1]))
}

/// `s` as a sequence of mathematical integers.
pub open spec fn to_ints(s: Seq<usize>) -> Seq<int> {
    s.map_values(|x: usize| x as int)
}

/// A sequence of `n` distinct integers drawn from `[0, n)` hits every value
/// of `[0, n)`.
pub proof fn lemma_distinct_full(q: Seq<int>, n: int, x: int)
    requires
        q.len() == n,
        n >= 0,
        0 <= x < n,
        forall|i: int| 0 <= i < q.len() ==> 0 <= #[trigger] q[i] < n,
        forall|i: int, j: int| 0 <= i < j < q.len() ==> q[i] != q[j],
    ensures
        exists|i: int| 0 <= i < q.len() && q[i] == x,
{
    if !(exists|i: int| 0 <= i < q.len() && q[i] == x) {
        assert(q.no_duplicates());
        q.unique_seq_to_set();
        vstd::set_lib::lemma_int_range(0, n);
        let r = vstd::set_lib::set_int_range(0, n).remove(x);
        assert(q.to_set().subset_of(r)) by {
            assert forall|y: int| q.to_set().contains(y) implies r.contains(y) by {
                let i = choose|i: int| 0 <= i < q.len() && q[i] == y;
            }
        }
        vstd::set_lib::lemma_len_subset(q.to_set(), r);
        assert(r.len() == n - 1);
        assert(false);
    }
}

/// A vector of `n` `false` entries.
fn make_bool_vec(n: usize) -> (r: Vec<bool>)
    ensures
        r@.len() == n,
        forall|i: int| 0 <= i < n ==> !(#[trigger] r@[i]),
{
    let mut r: Vec<bool> = Vec::new();
    let mut i: usize = 0;
    while i < n
        invariant
            0 <= i <= n,
            r@.len() == i,
            forall|m: int| 0 <= m < i ==> !(#[trigger] r@[m]),
        decreases n - i,
    {
        r.push(false);
        i += 1;
    }
    r
}

/// A vector of `n` zero entries.
fn make_usize_vec(n: usize) -> (r: Vec<usize>)
    ensures
        r@.len() == n,
        forall|i: int| 0 <= i < n ==> #[trigger] r@[i] == 0,
{
    let mut r: Vec<usize> = Vec::new();
    let mut i: usize = 0;
    while i < n
        invariant
            0 <= i <= n,
            r@.len() == i,
            forall|m: int| 0 <= m < i ==> #[trigger] r@[m] == 0,
        decreases n - i,
    {
        r.push(0);
        i += 1;
    }
    r
}

/// The parent links recorded during the search describe, for every visited
/// vertex other than the root, an incoming edge from a visited vertex one
/// step closer to the root.
pub open spec fn parent_inv(
    g: DagView,
    visited: Seq<bool>,
    dist: Seq<int>,
    parent: Seq<int>,
    root: int,
) -> bool {
    &&& parent.len() == g.verts.len()
    &&& (forall|v: int|
        0 <= v < g.verts.len() && visited[v] && v != root ==> 0 <= #[trigger] parent[v]
            < g.verts.len() && visited[parent[v]] && dist[parent[v]] + 1 == dist[v]
            && g.adj[parent[v]].contains(v))
}

/// The breadth-first search invariant over graph `g`: `visited` marks
/// discovered vertices, `dist` their discovery distance, `queue` the
/// discovery order, and the first `head` queue entries are fully expanded.
pub open spec fn bfs_inv(
    g: DagView,
    visited: Seq<bool>,
    dist: Seq<int>,
    queue: Seq<int>,
    head: int,
) -> bool {
    &&& g.wf()
    &&& visited.len() == g.verts.len()
    &&& dist.len() == g.verts.len()
    &&& 1 <= queue.len() <= g.verts.len()
    &&& 0 <= head <= queue.len()
    &&& (forall|i: int| 0 <= i < queue.len() ==> 0 <= #[trigger] queue[i] < g.verts.len())
    &&& (forall|i: int| 0 <= i < queue.len() ==> visited[#[trigger] queue[i]])
    &&& (forall|i: int, j: int| 0 <= i < j < queue.len() ==> queue[i] != queue[j])
    &&& (forall|v: int|
        0 <= v < g.verts.len() && visited[v] ==> exists|i: int|
            0 <= i < queue.len() && queue[i] == v)
    &&& dist[queue[0]] == 0
    &&& (forall|v: int| 0 <= v < g.verts.len() && visited[v] ==> dist[v] >= 0)
    &&& (forall|i: int| 0 <= i < queue.len() ==> dist[#[trigger] queue[i]] <= i)
    &&& (forall|i: int, j: int|
        0 <= i <= j < queue.len() ==> dist[#[trigger] queue[i]] <= dist[#[trigger] queue[j]])
    &&& (head < queue.len() ==> forall|i: int|
        0 <= i < queue.len() ==> dist[#[trigger] queue[i]] <= dist[queue[head]] + 1)
    &&& (forall|i: int, k: int|
        0 <= i < head && 0 <= k < g.adj[queue[i]].len() ==> visited[#[trigger] g.adj[queue[i]][k]])
    &&& (forall|u: int, k: int|
        0 <= u < g.verts.len() && visited[u] && 0 <= k < g.adj[u].len() && visited[#[trigger] g.adj[u][k]]
            ==> dist[g.adj[u][k]] <= dist[u] + 1)
}

/// The heart of the shortest-path argument: under the search invariant,
/// every index path starting at the search root is no shorter than the
/// recorded distance of its visited endpoint; a path that leaves the visited
/// region is strictly longer than the distance of the current frontier.
pub proof fn lemma_bfs_lower_bound(
    g: DagView,
    visited: Seq<bool>,
    dist: Seq<int>,
    queue: Seq<int>,
    head: int,
    p: Seq<int>,
)
    requires
        bfs_inv(g, visited, dist, queue, head),
        is_ipath(g, p),
        p[0] == queue[0],
    ensures
        visited[p.last()] ==> p.len() - 1 >= dist[p.last()],
        !visited[p.last()] ==> head < queue.len() && p.len() - 1 >= dist[queue[head]] + 1,
    decreases p.len(),
{
    if p.len() == 1 {
        assert(p.last() == queue[0]);
    } else {
        let p1 = p.drop_last();
        assert(is_ipath(g, p1)) by {
            assert(forall|k: int| 0 <= k < p1.len() ==> p1[k] == #[trigger] p[k]);
        }
        lemma_bfs_lower_bound(g, visited, dist, queue, head, p1);
        let w = p1.last();
        let v = p.last();
        let k0 = p.len() - 2;
        assert(w == p[k0] && v == p[k0 + 1]);
        assert(g.adj[p[k0]].contains(p[k0 + 1]));
        assert(g.adj[w].contains(v));
        let c = choose|c: int| 0 <= c < g.adj[w].len() && g.adj[w][c] == v;
        if visited[w] {
            if visited[v] {
                // An edge between two visited vertices raises distance by at
                // most one.
                assert(dist[v] <= dist[w] + 1);
            } else {
                // `w` cannot be expanded, or `v` would be visited; so `w`
                // sits in the unexpanded part of the queue.
                let iw = choose|i: int| 0 <= i < queue.len() && queue[i] == w;
                assert(0 <= iw < queue.len() && queue[iw] == w);
                assert(iw >= head) by {
                    if iw < head {
                        assert(visited[g.adj[queue[iw]][c]]);
                    }
                }
                assert(head < queue.len());
                assert(dist[queue[head]] <= dist[queue[iw]]);
                assert(p.len() - 1 >= dist[w] + 1);
            }
        } else {
            assert(head < queue.len() && p1.len() - 1 >= dist[queue[head]] + 1);
            if visited[v] {
                assert(dist[v] <= dist[queue[head]] + 1) by {
                    let iv = choose|i: int| 0 <= i < queue.len() && queue[i] == v;
                    assert(0 <= iv < queue.len() && queue[iv] == v);
                }
            }
        }
    }
}

/// Any vertex path corresponds to an index path of the same length with the
/// same endpoints, provided its first vertex occurs in the graph.
#[verifier::rlimit(100)]
#[verifier::spinoff_prover]
pub proof fn lemma_path_to_ipath(g: DagView, q: Seq<(Seq<char>, Seq<char>)>, s: int)
    requires
        g.wf(),
        is_path(g, q),
        0 <= s < g.verts.len(),
        g.verts[s] == q[0],
    ensures
        exists|p: Seq<int>|
            is_ipath(g, p) && p.len() == q.len() && p[0] == s && g.verts[p.last()] == q.last(),
    decreases q.len(),
{
    if q.len() == 1 {
        let p = seq![s];
        assert(is_ipath(g, p));
        assert(g.verts[p.last()] == q.last());
    } else {
        assert(has_edge(g, q[0], q[1]));
        let (i, k) = choose|i: int, k: int|
            0 <= i < g.verts.len() && g.verts[i] == q[0] && 0 <= k < g.adj[i].len() && 0 <= g.adj[i][k]
                < g.verts.len() && g.verts[g.adj[i][k]] == q[1];
        // Vertices are distinct, so the edge's source index is `s`.
        assert(i == s);
        let j = g.adj[s][k];
        let q1 = q.drop_first();
        assert(is_path(g, q1)) by {
            assert(forall|m: int|
                0 <= m < q1.len() - 1 ==> #[trigger] q1[m] == q[m + 1] && q1[m + 1] == q[m + 2]);
        }
        assert(q1[0] == q[1]);
        lemma_path_to_ipath(g, q1, j);
        let p1 = choose|p1: Seq<int>|
            is_ipath(g, p1) && p1.len() == q1.len() && p1[0] == j && g.verts[p1.last()]
                == q1.last();
        let p = seq![s] + p1;
        assert(is_ipath(g, p)) by {
            assert(forall|m: int| 0 <= m < p.len() ==> p[m] == (if m == 0 {
                s
            } else {
                p1[m - 1]
            }));
            assert(g.adj[p[0]].contains(p[1])) by {
                assert(g.adj[s][k] == j && p[1] == p1[0] == j);
            }
            assert(forall|m: int|
                1 <= m < p.len() - 1 ==> g.adj[p[m]].contains(#[trigger] p[m + 1]));
        }
        assert(p.last() == p1.last());
        assert(q.last() == q1.last());
        assert(p.len() == q.len() && p[0] == s && g.verts[p.last()] == q.last());
    }
}

} // verus!
