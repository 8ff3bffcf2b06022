//! The constraint graph: one node per variable, each with its points-to set,
//! and the inclusion edges between them. The fixpoint solver and the DOT
//! export stand in the submodules.
use crate::constraint::{ids_after, names, with_id, Constraint, ConstraintKind};
use crate::edges::{graph_add_edge, graph_add_node, graph_contains_edge, graph_edge_list, graph_edges, graph_new, graph_node_count};
use petgraph::graph::DiGraph;
use vstd::prelude::*;

pub mod export;
pub mod solver;

verus! {

broadcast use vstd::seq_lib::group_seq_properties;

/// Variables live in an arena and are addressed by handles: the handle of a
/// variable is its position in `names`, in `pts` and among the nodes of `graph`.
pub struct ConstraintGraph {
    names: Vec<String>,
    pts: Vec<Vec<usize>>,
    graph: DiGraph<(), ()>,
}

impl ConstraintGraph {
    /// The identifier of each node, by handle.
    pub closed spec fn ids(&self) -> Seq<Seq<char>> {
        Seq::new(self.names@.len(), |i: int| self.names@[i]@)
    }

    /// The points-to set of each node, by handle.
    pub closed spec fn solution(&self) -> Seq<Set<usize>> {
        Seq::new(self.pts@.len(), |i: int| self.pts@[i]@.to_set())
    }

    /// The points-to set of each node as a list, in the order its elements came.
    pub closed spec fn lists(&self) -> Seq<Seq<usize>> {
        Seq::new(self.pts@.len(), |i: int| self.pts@[i]@)
    }

    /// The inclusion edges as (source, target) handles, in order of insertion.
    pub closed spec fn edges(&self) -> Seq<(usize, usize)> {
        graph_edges(self.graph)
    }

    /// An edge goes from `a` to `b`.
    pub open spec fn has_edge(&self, a: usize, b: usize) -> bool {
        self.edges().contains((a, b))
    }

    /// Every identifier named by `cs` has a node.
    pub open spec fn covers(&self, cs: Seq<Constraint>) -> bool {
        forall|k: int|
            #![trigger cs[k]]
            0 <= k < cs.len() ==> self.ids().contains(cs[k].left@) && self.ids().contains(cs[k].right@)
    }

    /// Every identifier named by a constraint of kind `kind` in `cs` has a node.
    pub open spec fn covers_kind(&self, cs: Seq<Constraint>, kind: ConstraintKind) -> bool {
        forall|k: int|
            #![trigger cs[k]]
            0 <= k < cs.len() && cs[k].kind == kind ==> self.ids().contains(cs[k].left@) && self.ids().contains(cs[k].right@)
    }

    pub closed spec fn wf(&self) -> bool {
        let n = self.names@.len();
        &&& self.pts@.len() == n
        &&& graph_node_count(self.graph) == n
        &&& n < u32::MAX
        &&& forall|i: int, j: int|
            #![trigger self.names@[i], self.names@[j]]
            0 <= i < n && 0 <= j < n && i != j ==> self.names@[i]@ != self.names@[j]@
        &&& forall|v: int| #![trigger self.pts@[v]] 0 <= v < n ==> self.pts@[v]@.no_duplicates()
        &&& forall|v: int, k: int|
            #![trigger self.pts@[v]@[k]]
            0 <= v < n && 0 <= k < self.pts@[v]@.len() ==> self.pts@[v]@[k] < n
        &&& forall|e: int|
            #![trigger graph_edges(self.graph)[e]]
            0 <= e < graph_edges(self.graph).len() ==> graph_edges(self.graph)[e].0 < n
                && graph_edges(self.graph)[e].1 < n
    }

    /// An empty graph.
    pub fn new() -> (g: ConstraintGraph)
        ensures
            g.wf(),
            g.ids() == Seq::<Seq<char>>::empty(),
            g.solution() == Seq::<Set<usize>>::empty(),
            g.edges() == Seq::<(usize, usize)>::empty(),
    {
        let g = ConstraintGraph { names: Vec::new(), pts: Vec::new(), graph: graph_new() };
        assert(g.ids() =~= Seq::<Seq<char>>::empty());
        assert(g.solution() =~= Seq::<Set<usize>>::empty());
        g
    }

    /// The number of nodes.
    pub fn node_count(&self) -> (r: usize)
        requires
            self.wf(),
        ensures
            r == self.ids().len(),
    {
        self.names.len()
    }

    /// The number of inclusion edges, parallel ones included.
    pub fn edge_count(&self) -> (r: usize)
        ensures
            r == self.edges().len(),
    {
        let es = graph_edge_list(&self.graph);
        es.len()
    }

    /// The handle of the node for `id`, if there is one.
    pub fn index_of(&self, id: &String) -> (r: Option<usize>)
        requires
            self.wf(),
        ensures
            match r {
                Some(i) => names(self.ids(), i as int, id@),
                None => !self.ids().contains(id@),
            },
    {
        let mut i: usize = 0;
        while i < self.names.len()
            invariant
                self.wf(),
                i <= self.names@.len(),
                forall|k: int| 0 <= k < i ==> self.names@[k]@ != id@,
            decreases self.names@.len() - i,
        {
            if self.names[i] == *id {
                return Some(i);
            }
            i += 1;
        }
        assert(!self.ids().contains(id@)) by {
            if self.ids().contains(id@) {
                let k = choose|k: int| 0 <= k < self.ids().len() && self.ids()[k] == id@;
                assert(self.names@[k]@ == id@);
            }
        }
        None
    }

    /// Creates a node for `id` unless one exists; otherwise does nothing.
    pub fn add_node(&mut self, id: String)
        requires
            old(self).wf(),
            old(self).ids().len() + 1 < u32::MAX,
        ensures
            final(self).wf(),
            final(self).ids() == if old(self).ids().contains(id@) {
                old(self).ids()
            } else {
                old(self).ids().push(id@)
            },
            final(self).solution() == if old(self).ids().contains(id@) {
                old(self).solution()
            } else {
                old(self).solution().push(Set::<usize>::empty())
            },
            final(self).edges() == old(self).edges(),
            final(self).ids().no_duplicates(),
            final(self).solution().len() == final(self).ids().len(),
    {
        match self.index_of(&id) {
            Some(_) => {},
            None => {
                let ghost old_self = *self;
                let idx = graph_add_node(&mut self.graph);
                self.names.push(id);
                self.pts.push(Vec::new());
                assert(self.ids() =~= old_self.ids().push(id@));
                assert(self.pts@[idx as int]@.to_set() =~= Set::<usize>::empty());
                assert(self.solution() =~= old_self.solution().push(Set::<usize>::empty()));
                assert(self.wf()) by {
                    assert forall|i: int, j: int|
                        0 <= i < self.names@.len() && 0 <= j < self.names@.len() && i != j
                        implies self.names@[i]@ != self.names@[j]@ by {
                        if i == idx as int {
                            assert(old_self.ids()[j] == self.names@[j]@);
                        } else if j == idx as int {
                            assert(old_self.ids()[i] == self.names@[i]@);
                        }
                    }
                }
            },
        }
        proof {
            self.lemma_wf();
        }
    }

    /// Creates the nodes of every identifier that `cs` names.
    pub fn init_nodes(&mut self, cs: &Vec<Constraint>)
        requires
            old(self).wf(),
            old(self).ids().len() + 2 * cs@.len() + 1 < u32::MAX,
        ensures
            final(self).wf(),
            final(self).covers(cs@),
            final(self).ids() == ids_after(old(self).ids(), cs@),
            final(self).ids().no_duplicates(),
            old(self).ids().is_prefix_of(final(self).ids()),
            final(self).ids().len() <= old(self).ids().len() + 2 * cs@.len(),
            final(self).edges() == old(self).edges(),
            final(self).solution().len() == final(self).ids().len(),
            forall|v: int|
                0 <= v < final(self).ids().len() ==> #[trigger] final(self).solution()[v] == if v
                    < old(self).ids().len() {
                    old(self).solution()[v]
                } else {
                    Set::<usize>::empty()
                },
    {
        let ghost start = *self;
        let mut k: usize = 0;
        while k < cs.len()
            invariant
                self.wf(),
                k <= cs@.len(),
                start.ids().len() + 2 * cs@.len() + 1 < u32::MAX,
                self.covers(cs@.take(k as int)),
                self.ids() == ids_after(start.ids(), cs@.take(k as int)),
                start.ids().is_prefix_of(self.ids()),
                self.ids().len() <= start.ids().len() + 2 * k,
                self.edges() == start.edges(),
                self.solution().len() == self.ids().len(),
                forall|v: int|
                    0 <= v < self.ids().len() ==> #[trigger] self.solution()[v] == if v
                        < start.ids().len() {
                        start.solution()[v]
                    } else {
                        Set::<usize>::empty()
                    },
            decreases cs@.len() - k,
        {
            let ghost before = *self;
            self.add_node(cs[k].left.clone());
            let ghost mid = *self;
            self.add_node(cs[k].right.clone());
            assert(cs@.take(k + 1).drop_last() =~= cs@.take(k as int));
            assert(self.ids() == with_id(with_id(before.ids(), cs@[k as int].left@), cs@[k as int].right@));
            assert forall|j: int| #![trigger cs@.take(k + 1)[j]]
                0 <= j < k + 1 implies self.ids().contains(cs@.take(k + 1)[j].left@)
                && self.ids().contains(cs@.take(k + 1)[j].right@) by {
                if j < k {
                    assert(cs@.take(k as int)[j] == cs@.take(k + 1)[j]);
                    let a = choose|a: int| 0 <= a < before.ids().len() && before.ids()[a] == cs@[j].left@;
                    let b = choose|b: int| 0 <= b < before.ids().len() && before.ids()[b] == cs@[j].right@;
                    assert(self.ids()[a] == before.ids()[a]);
                    assert(self.ids()[b] == before.ids()[b]);
                } else {
                    assert(mid.ids().contains(cs@[j].left@));
                    let a = choose|a: int| 0 <= a < mid.ids().len() && mid.ids()[a] == cs@[j].left@;
                    assert(self.ids()[a] == mid.ids()[a]);
                    assert(self.ids().contains(cs@[j].right@));
                }
            }
            k += 1;
        }
        assert(cs@.take(cs@.len() as int) =~= cs@);
        proof {
            self.lemma_wf();
        }
    }
}


/// A constraint whose identifiers have been turned into node handles.
#[derive(Clone, Copy)]
struct Rule {
    kind: ConstraintKind,
    left: usize,
    right: usize,
}

impl ConstraintGraph {
    /// Node `o` is in the points-to set of node `v`.
    closed spec fn pt(&self, v: int, o: usize) -> bool {
        self.pts@[v]@.contains(o)
    }

    /// `rs` is `cs` with each identifier replaced by its node's handle.
    closed spec fn resolved(&self, cs: Seq<Constraint>, rs: Seq<Rule>) -> bool {
        self.resolved_kind(cs, rs, None)
    }

    /// `rs` is `cs` with each identifier of a constraint of kind `only` (of
    /// any kind, for `None`) replaced by its node's handle.
    closed spec fn resolved_kind(&self, cs: Seq<Constraint>, rs: Seq<Rule>, only: Option<ConstraintKind>) -> bool {
        &&& rs.len() == cs.len()
        &&& forall|k: int|
            #![trigger rs[k]]
            0 <= k < rs.len() ==> rs[k].kind == cs[k].kind && ((only is None || only == Some(cs[k].kind)) ==> names(
                self.ids(),
                rs[k].left as int,
                cs[k].left@,
            ) && names(self.ids(), rs[k].right as int, cs[k].right@))
    }

    /// Every points-to fact and every edge of `self` is still there in `g`,
    /// over the same nodes.
    closed spec fn extends(&self, g: &ConstraintGraph) -> bool {
        &&& g.ids() == self.ids()
        &&& forall|v: int, o: usize| #![trigger g.pt(v, o)] 0 <= v < self.ids().len() && self.pt(v, o) ==> g.pt(v, o)
        &&& forall|a: usize, b: usize| #![trigger g.has_edge(a, b)] self.has_edge(a, b) ==> g.has_edge(a, b)
    }

    /// `g` keeps the nodes of `self`, every points-to fact and every edge.
    pub open spec fn grows_to(&self, g: &ConstraintGraph) -> bool {
        &&& g.ids() == self.ids()
        &&& g.solution().len() == self.solution().len()
        &&& forall|v: int, o: usize|
            #![trigger g.solution()[v].contains(o)]
            0 <= v < self.solution().len() && self.solution()[v].contains(o) ==> g.solution()[v].contains(o)
        &&& forall|a: usize, b: usize| #![trigger g.has_edge(a, b)] self.has_edge(a, b) ==> g.has_edge(a, b)
    }

    /// The shape of a well-formed graph: one points-to set per node, one node
    /// per identifier, each pointee listed once, and edges between nodes only.
    pub proof fn lemma_wf(&self)
        requires
            self.wf(),
        ensures
            self.solution().len() == self.ids().len(),
            self.lists().len() == self.ids().len(),
            self.ids().no_duplicates(),
            forall|v: int| 0 <= v < self.lists().len() ==> #[trigger] self.lists()[v].no_duplicates(),
            forall|v: int| 0 <= v < self.lists().len() ==> #[trigger] self.lists()[v].to_set() == self.solution()[v],
            forall|v: int, k: int| 0 <= v < self.lists().len() && 0 <= k < self.lists()[v].len() ==> #[trigger] self.lists()[v][k] < self.ids().len(),
            forall|a: usize, b: usize| #[trigger] self.has_edge(a, b) ==> a < self.ids().len() && b < self.ids().len(),
    {
        assert forall|i: int, j: int| 0 <= i < self.ids().len() && 0 <= j < self.ids().len() && i != j implies self.ids()[i] != self.ids()[j] by {
            assert(self.names@[i]@ != self.names@[j]@);
        }
        assert forall|v: int| 0 <= v < self.lists().len() implies #[trigger] self.lists()[v].no_duplicates() by {
            assert(self.pts@[v]@.no_duplicates());
        }
        assert forall|a: usize, b: usize| #[trigger] self.has_edge(a, b) implies a < self.ids().len() && b < self.ids().len() by {
            let e = choose|e: int| 0 <= e < self.edges().len() && self.edges()[e] == (a, b);
            assert(graph_edges(self.graph)[e].0 < self.names@.len());
        }
    }

    proof fn lemma_ids_unique(&self, i: int, j: int)
        requires
            self.wf(),
            0 <= i < self.ids().len(),
            0 <= j < self.ids().len(),
            self.ids()[i] == self.ids()[j],
        ensures
            i == j,
    {
        if i != j {
            assert(self.names@[i]@ != self.names@[j]@);
        }
    }

    /// Whether `o` is in the points-to set of `v`.
    fn pts_contains(&self, v: usize, o: usize) -> (r: bool)
        requires
            self.wf(),
            v < self.ids().len(),
        ensures
            r == self.pt(v as int, o),
    {
        let row = &self.pts[v];
        let mut i: usize = 0;
        while i < row.len()
            invariant
                self.wf(),
                v < self.ids().len(),
                row@ == self.pts@[v as int]@,
                i <= row@.len(),
                forall|k: int| 0 <= k < i ==> row@[k] != o,
            decreases row@.len() - i,
        {
            if row[i] == o {
                assert(self.pts@[v as int]@[i as int] == o);
                return true;
            }
            i += 1;
        }
        false
    }

    /// Adds `o` to the points-to set of `v`; says whether it was new there.
    fn insert_pts(&mut self, v: usize, o: usize) -> (added: bool)
        requires
            old(self).wf(),
            v < old(self).ids().len(),
            o < old(self).ids().len(),
        ensures
            final(self).wf(),
            final(self).ids() == old(self).ids(),
            final(self).edges() == old(self).edges(),
            added == !old(self).pt(v as int, o),
            final(self).pts@.len() == old(self).pts@.len(),
            forall|u: int| #![trigger final(self).pts@[u]] 0 <= u < old(self).pts@.len() && u != v ==> final(self).pts@[u] == old(self).pts@[u],
            forall|x: usize| final(self).pt(v as int, x) == (old(self).pt(v as int, x) || x == o),
            !added ==> final(self).pts@ == old(self).pts@,
    {
        if self.pts_contains(v, o) {
            false
        } else {
            let ghost old_self = *self;
            self.pts[v].push(o);
            assert(self.ids() =~= old_self.ids());
            assert(self.pts@[v as int]@ =~= old_self.pts@[v as int]@.push(o));
            proof { lemma_push_no_duplicates(old_self.pts@[v as int]@, o); }
            true
        }
    }

    /// Whether an edge goes from handle `a` to handle `b`.
    fn has_edge_at(&self, a: usize, b: usize) -> (r: bool)
        requires
            self.wf(),
            a < self.ids().len(),
            b < self.ids().len(),
        ensures
            r == self.has_edge(a, b),
    {
        graph_contains_edge(&self.graph, a, b)
    }

    /// Adds an edge from handle `a` to handle `b`.
    fn add_edge_at(&mut self, a: usize, b: usize)
        requires
            old(self).wf(),
            a < old(self).ids().len(),
            b < old(self).ids().len(),
            old(self).edges().len() < u32::MAX,
        ensures
            final(self).wf(),
            final(self).ids() == old(self).ids(),
            final(self).pts@ == old(self).pts@,
            final(self).edges() == old(self).edges().push((a, b)),
    {
        graph_add_edge(&mut self.graph, a, b);
        assert(self.ids() =~= old(self).ids());
    }

    /// Installs an inclusion edge `from -> to` between two existing nodes.
    pub fn add_edge(&mut self, from: &String, to: &String)
        requires
            old(self).wf(),
            old(self).ids().contains(from@),
            old(self).ids().contains(to@),
            old(self).edges().len() < u32::MAX,
        ensures
            final(self).wf(),
            final(self).ids() == old(self).ids(),
            final(self).solution() == old(self).solution(),
            exists|a: int, b: int|
                names(old(self).ids(), a, from@) && names(old(self).ids(), b, to@)
                    && final(self).edges() == old(self).edges().push((a as usize, b as usize)),
    {
        let a = self.index_of(from).unwrap();
        let b = self.index_of(to).unwrap();
        self.add_edge_at(a, b);
        assert(self.solution() =~= old(self).solution());
    }

    /// Whether an edge `from -> to` exists between two existing nodes.
    pub fn contains_edge(&self, from: &String, to: &String) -> (r: bool)
        requires
            self.wf(),
            self.ids().contains(from@),
            self.ids().contains(to@),
        ensures
            r == exists|a: int, b: int|
                names(self.ids(), a, from@) && names(self.ids(), b, to@) && #[trigger] self.has_edge(a as usize, b as usize),
    {
        let a = self.index_of(from).unwrap();
        let b = self.index_of(to).unwrap();
        let r = self.has_edge_at(a, b);
        assert forall|a2: int, b2: int|
            names(self.ids(), a2, from@) && names(self.ids(), b2, to@) implies a2 == a && b2 == b by {
            self.lemma_ids_unique(a2, a as int);
            self.lemma_ids_unique(b2, b as int);
        }
        assert(names(self.ids(), a as int, from@) && names(self.ids(), b as int, to@));
        assert(r ==> self.has_edge((a as int) as usize, (b as int) as usize));
        r
    }

    /// The handles of the identifiers of each constraint of kind `only` (of
    /// every constraint, for `None`); the other constraints get handle 0.
    fn resolve(&self, cs: &Vec<Constraint>, only: Option<ConstraintKind>) -> (rs: Vec<Rule>)
        requires
            self.wf(),
            match only {
                None => self.covers(cs@),
                Some(kind) => self.covers_kind(cs@, kind),
            },
        ensures
            self.resolved_kind(cs@, rs@, only),
    {
        let mut rs: Vec<Rule> = Vec::new();
        let mut k: usize = 0;
        while k < cs.len()
            invariant
                self.wf(),
                match only {
                    None => self.covers(cs@),
                    Some(kind) => self.covers_kind(cs@, kind),
                },
                k <= cs@.len(),
                rs@.len() == k,
                forall|j: int|
                    #![trigger rs@[j]]
                    0 <= j < k ==> rs@[j].kind == cs@[j].kind && ((only is None || only == Some(cs@[j].kind)) ==> names(
                        self.ids(),
                        rs@[j].left as int,
                        cs@[j].left@,
                    ) && names(self.ids(), rs@[j].right as int, cs@[j].right@)),
            decreases cs@.len() - k,
        {
            let wanted = match only {
                None => true,
                Some(kind) => kind == cs[k].kind,
            };
            if wanted {
                assert(self.ids().contains(cs@[k as int].left@));
                let left = self.index_of(&cs[k].left).unwrap();
                let right = self.index_of(&cs[k].right).unwrap();
                rs.push(Rule { kind: cs[k].kind, left, right });
            } else {
                rs.push(Rule { kind: cs[k].kind, left: 0, right: 0 });
            }
            k += 1;
        }
        rs
    }
}

/// Some load `x = *y` of `cs` asks for the edge `a -> b`: `x` is the
/// identifier of node `b`, and the set of `y`'s node holds `a`.
pub open spec fn load_edge(cs: Seq<Constraint>, ids: Seq<Seq<char>>, s: Seq<Set<usize>>, a: int, b: int) -> bool {
    exists|k: int, r: int|
        #![trigger cs[k], ids[r]]
        0 <= k < cs.len() && cs[k].kind == ConstraintKind::DerefRight && names(ids, b, cs[k].left@) && names(ids, r, cs[k].right@)
            && s[r].contains(a as usize)
}

/// Some store `*x = y` of `cs` asks for the edge `a -> b`: `y` is the
/// identifier of node `a`, and the set of `x`'s node holds `b`.
pub open spec fn store_edge(cs: Seq<Constraint>, ids: Seq<Seq<char>>, s: Seq<Set<usize>>, a: int, b: int) -> bool {
    exists|k: int, l: int|
        #![trigger cs[k], ids[l]]
        0 <= k < cs.len() && cs[k].kind == ConstraintKind::DerefLeft && names(ids, a, cs[k].right@) && names(ids, l, cs[k].left@)
            && s[l].contains(b as usize)
}

/// Appending a new element keeps a sequence free of duplicates.
proof fn lemma_push_no_duplicates<T>(s: Seq<T>, x: T)
    requires
        s.no_duplicates(),
        !s.contains(x),
    ensures
        s.push(x).no_duplicates(),
{
    assert forall|i: int, j: int| 0 <= i < s.len() + 1 && 0 <= j < s.len() + 1 && i != j implies s.push(x)[i] != s.push(x)[j] by {
        if i == s.len() {
            assert(s[j] == s.push(x)[j]);
        } else if j == s.len() {
            assert(s[i] == s.push(x)[i]);
        }
    }
}

/// Some `Addr` constraint of `cs` reads `x = &y`, with `x` the identifier of
/// node `v` and `y` that of node `o`.
pub open spec fn addr_fact(cs: Seq<Constraint>, ids: Seq<Seq<char>>, v: int, o: int) -> bool {
    exists|k: int|
        #![trigger cs[k]]
        0 <= k < cs.len() && cs[k].kind == ConstraintKind::Addr && names(ids, v, cs[k].left@)
            && names(ids, o, cs[k].right@)
}

/// Some `Equal` constraint of `cs` reads `x = y`, with `x` the identifier of
/// node `t` and `y` that of node `s`: it asks for the edge `s -> t`.
pub open spec fn copy_edge(cs: Seq<Constraint>, ids: Seq<Seq<char>>, s: int, t: int) -> bool {
    exists|k: int|
        #![trigger cs[k]]
        0 <= k < cs.len() && cs[k].kind == ConstraintKind::Equal && names(ids, t, cs[k].left@)
            && names(ids, s, cs[k].right@)
}

impl ConstraintGraph {
    /// The base case: for each `left = &right`, puts `right`'s node into the
    /// points-to set of `left`'s node.
    pub fn init_basic_ptrs(&mut self, cs: &Vec<Constraint>)
        requires
            old(self).wf(),
            old(self).covers_kind(cs@, ConstraintKind::Addr),
        ensures
            final(self).wf(),
            final(self).ids() == old(self).ids(),
            final(self).edges() == old(self).edges(),
            final(self).solution().len() == old(self).solution().len(),
            forall|v: int, o: usize|
                0 <= v < final(self).ids().len() ==> (#[trigger] final(self).solution()[v].contains(o) <==> (
                old(self).solution()[v].contains(o) || addr_fact(cs@, old(self).ids(), v, o as int))),
    {
        let rs = self.resolve(cs, Some(ConstraintKind::Addr));
        let ghost start = *self;
        let mut k: usize = 0;
        while k < rs.len()
            invariant
                self.wf(),
                start.wf(),
                start.resolved_kind(cs@, rs@, Some(ConstraintKind::Addr)),
                self.ids() == start.ids(),
                self.edges() == start.edges(),
                self.pts@.len() == start.pts@.len(),
                k <= rs@.len(),
                forall|v: int, o: usize|
                    0 <= v < self.ids().len() ==> (#[trigger] self.pt(v, o) <==> (start.pt(v, o) || exists|j: int|
                        #![trigger rs@[j]]
                        0 <= j < k && rs@[j].kind == ConstraintKind::Addr && rs@[j].left == v && rs@[j].right == o)),
            decreases rs@.len() - k,
        {
            let r = rs[k];
            let ghost before = *self;
            match r.kind {
                ConstraintKind::Addr => {
                    self.insert_pts(r.left, r.right);
                },
                _ => {},
            }
            assert forall|v: int, o: usize|
                0 <= v < self.ids().len() implies (#[trigger] self.pt(v, o) <==> (start.pt(v, o) || exists|j: int|
                    #![trigger rs@[j]]
                    0 <= j < k + 1 && rs@[j].kind == ConstraintKind::Addr && rs@[j].left == v && rs@[j].right == o)) by {
                assert(before.pt(v, o) <==> (start.pt(v, o) || exists|j: int|
                    #![trigger rs@[j]]
                    0 <= j < k && rs@[j].kind == ConstraintKind::Addr && rs@[j].left == v && rs@[j].right == o));
                if r.kind == ConstraintKind::Addr && v == r.left as int && o == r.right {
                    assert(rs@[k as int] == r);
                } else {
                    if v != r.left as int {
                        assert(self.pts@[v] == before.pts@[v]);
                    }
                    assert(self.pt(v, o) == before.pt(v, o));
                    if exists|j: int|
                        #![trigger rs@[j]]
                        0 <= j < k + 1 && rs@[j].kind == ConstraintKind::Addr && rs@[j].left == v && rs@[j].right == o {
                        let j = choose|j: int|
                            #![trigger rs@[j]]
                            0 <= j < k + 1 && rs@[j].kind == ConstraintKind::Addr && rs@[j].left == v && rs@[j].right == o;
                        assert(j != k);
                    }
                }
            }
            k += 1;
        }
        assert forall|v: int, o: usize|
            0 <= v < self.ids().len() implies (#[trigger] self.solution()[v].contains(o) <==> (
            start.solution()[v].contains(o) || addr_fact(cs@, start.ids(), v, o as int))) by {
            assert(self.solution()[v].contains(o) == self.pt(v, o));
            assert(start.solution()[v].contains(o) == start.pt(v, o));
            if addr_fact(cs@, start.ids(), v, o as int) {
                let j = choose|j: int|
                    #![trigger cs@[j]]
                    0 <= j < cs@.len() && cs@[j].kind == ConstraintKind::Addr && names(start.ids(), v, cs@[j].left@)
                        && names(start.ids(), o as int, cs@[j].right@);
                assert(rs@[j].kind == ConstraintKind::Addr);
                start.lemma_ids_unique(v, rs@[j].left as int);
                start.lemma_ids_unique(o as int, rs@[j].right as int);
            }
            if exists|j: int|
                #![trigger rs@[j]]
                0 <= j < rs@.len() && rs@[j].kind == ConstraintKind::Addr && rs@[j].left == v && rs@[j].right == o {
                let j = choose|j: int|
                    #![trigger rs@[j]]
                    0 <= j < rs@.len() && rs@[j].kind == ConstraintKind::Addr && rs@[j].left == v && rs@[j].right == o;
                assert(cs@[j].kind == ConstraintKind::Addr);
            }
        }
        assert(self.solution().len() == start.solution().len());
    }

    /// The static edges: for each `left = right`, an edge `right -> left`.
    pub fn init_simple_edges(&mut self, cs: &Vec<Constraint>)
        requires
            old(self).wf(),
            old(self).covers_kind(cs@, ConstraintKind::Equal),
            old(self).edges().len() + cs@.len() < u32::MAX,
        ensures
            final(self).wf(),
            final(self).ids() == old(self).ids(),
            final(self).solution() == old(self).solution(),
            final(self).edges().len() <= old(self).edges().len() + cs@.len(),
            old(self).edges().no_duplicates() ==> final(self).edges().no_duplicates(),
            forall|a: usize, b: usize|
                #![trigger final(self).has_edge(a, b)]
                final(self).has_edge(a, b) <==> (old(self).has_edge(a, b) || copy_edge(cs@, old(self).ids(), a as int, b as int)),
    {
        let rs = self.resolve(cs, Some(ConstraintKind::Equal));
        let ghost start = *self;
        let mut k: usize = 0;
        while k < rs.len()
            invariant
                self.wf(),
                start.wf(),
                start.resolved_kind(cs@, rs@, Some(ConstraintKind::Equal)),
                start.edges().no_duplicates() ==> self.edges().no_duplicates(),
                start.edges().len() + cs@.len() < u32::MAX,
                self.ids() == start.ids(),
                self.pts@ == start.pts@,
                k <= rs@.len(),
                self.edges().len() <= start.edges().len() + k,
                forall|a: usize, b: usize|
                    #![trigger self.has_edge(a, b)]
                    self.has_edge(a, b) <==> (start.has_edge(a, b) || exists|j: int|
                        #![trigger rs@[j]]
                        0 <= j < k && rs@[j].kind == ConstraintKind::Equal && rs@[j].right == a && rs@[j].left == b),
            decreases rs@.len() - k,
        {
            let r = rs[k];
            let ghost before = *self;
            match r.kind {
                ConstraintKind::Equal => {
                    if !self.has_edge_at(r.right, r.left) {
                        self.add_edge_at(r.right, r.left);
                        proof {
                            if before.edges().no_duplicates() {
                                lemma_push_no_duplicates(before.edges(), (r.right, r.left));
                            }
                        }
                    }
                },
                _ => {},
            }
            assert forall|a: usize, b: usize|
                #![trigger self.has_edge(a, b)]
                self.has_edge(a, b) <==> (start.has_edge(a, b) || exists|j: int|
                    #![trigger rs@[j]]
                    0 <= j < k + 1 && rs@[j].kind == ConstraintKind::Equal && rs@[j].right == a && rs@[j].left == b) by {
                assert(before.has_edge(a, b) ==> self.has_edge(a, b));
            }
            k += 1;
        }
        assert(self.solution() =~= start.solution());
        assert forall|a: usize, b: usize|
            #![trigger self.has_edge(a, b)]
            self.has_edge(a, b) <==> (start.has_edge(a, b) || copy_edge(cs@, start.ids(), a as int, b as int)) by {
            if copy_edge(cs@, start.ids(), a as int, b as int) {
                let j = choose|j: int|
                    #![trigger cs@[j]]
                    0 <= j < cs@.len() && cs@[j].kind == ConstraintKind::Equal && names(start.ids(), b as int, cs@[j].left@)
                        && names(start.ids(), a as int, cs@[j].right@);
                assert(rs@[j].kind == ConstraintKind::Equal);
                start.lemma_ids_unique(b as int, rs@[j].left as int);
                start.lemma_ids_unique(a as int, rs@[j].right as int);
            }
            if exists|j: int|
                #![trigger rs@[j]]
                0 <= j < rs@.len() && rs@[j].kind == ConstraintKind::Equal && rs@[j].right == a && rs@[j].left == b {
                let j = choose|j: int|
                    #![trigger rs@[j]]
                    0 <= j < rs@.len() && rs@[j].kind == ConstraintKind::Equal && rs@[j].right == a && rs@[j].left == b;
                assert(cs@[j].kind == ConstraintKind::Equal);
            }
        }
    }
}

/// The largest number of constraints that one solve takes: node and edge
/// handles of the underlying graph are 32-bit.
pub const MAX_CONSTRAINTS: usize = 30000;

impl ConstraintGraph {
    /// The identifier of each node, by handle.
    pub fn node_ids(&self) -> (r: Vec<String>)
        requires
            self.wf(),
        ensures
            r@.len() == self.ids().len(),
            forall|i: int| 0 <= i < r@.len() ==> #[trigger] r@[i]@ == self.ids()[i],
    {
        let mut r: Vec<String> = Vec::new();
        let mut i: usize = 0;
        while i < self.names.len()
            invariant
                i <= self.names@.len(),
                r@.len() == i,
                forall|j: int| 0 <= j < i ==> #[trigger] r@[j]@ == self.names@[j]@,
            decreases self.names@.len() - i,
        {
            r.push(self.names[i].clone());
            i += 1;
        }
        r
    }

    /// The identifiers that the node for `id` may point to, in the order they
    /// came; `None` when `id` has no node.
    pub fn points_to_ids(&self, id: &String) -> (r: Option<Vec<String>>)
        requires
            self.wf(),
        ensures
            match r {
                None => !self.ids().contains(id@),
                Some(l) => exists|v: int|
                    names(self.ids(), v, id@) && l@.len() == self.lists()[v].len() && forall|k: int|
                        0 <= k < l@.len() ==> #[trigger] l@[k]@ == self.ids()[self.lists()[v][k] as int],
            },
    {
        match self.index_of(id) {
            None => None,
            Some(v) => {
                let row = &self.pts[v];
                let mut l: Vec<String> = Vec::new();
                let mut k: usize = 0;
                while k < row.len()
                    invariant
                        self.wf(),
                        v < self.names@.len(),
                        row@ == self.pts@[v as int]@,
                        k <= row@.len(),
                        l@.len() == k,
                        forall|j: int| 0 <= j < k ==> #[trigger] l@[j]@ == self.ids()[row@[j] as int],
                    decreases row@.len() - k,
                {
                    assert(row@[k as int] < self.names@.len());
                    l.push(self.names[row[k]].clone());
                    k += 1;
                }
                assert(self.lists()[v as int] == row@);
                Some(l)
            },
        }
    }
}

} // verus!
