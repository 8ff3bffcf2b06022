//! The worklist fixpoint: passes points-to sets along inclusion edges and
//! adds the edges that loads and stores ask for, until nothing changes.
use super::{addr_fact, copy_edge, load_edge, store_edge, lemma_push_no_duplicates, ConstraintGraph, Rule, MAX_CONSTRAINTS};
use crate::constraint::{
    address_taken, below, closed_under, ids_after, least_solution, names, only_address_taken, rule_holds, Constraint,
    ConstraintKind,
};
use crate::edges::{graph_edge_list, graph_edges};
use std::collections::VecDeque;
use vstd::prelude::*;

verus! {

broadcast use vstd::seq_lib::group_seq_properties;

/// `0 <= a * n + b < n * n` encodes the pair `(a, b)` of handles below `n`.
proof fn lemma_pair_code(n: int, a: int, b: int)
    requires
        0 <= a < n,
        0 <= b < n,
    ensures
        0 <= a * n + b < n * n,
        (a * n + b) / n == a,
        (a * n + b) % n == b,
{
    vstd::arithmetic::div_mod::lemma_fundamental_div_mod_converse(a * n + b, n, a, b);
    assert(0 <= a * n + b < n * n) by (nonlinear_arith)
        requires
            0 <= a < n,
            0 <= b < n,
    ;
}

/// A set of codes below `nn` is finite and has at most `nn` elements.
proof fn lemma_codes_bounded(s: Set<int>, nn: int)
    requires
        nn >= 0,
        forall|c: int| #[trigger] s.contains(c) ==> 0 <= c < nn,
    ensures
        s.finite(),
        s.len() <= nn,
{
    vstd::set_lib::lemma_int_range(0, nn);
    vstd::set_lib::lemma_len_subset(s, vstd::set_lib::set_int_range(0, nn));
}

/// A finite set with an element that a subset of it lacks is larger.
proof fn lemma_strict_growth(s1: Set<int>, s2: Set<int>, x: int)
    requires
        s1.subset_of(s2),
        s2.finite(),
        s2.contains(x),
        !s1.contains(x),
    ensures
        s1.finite(),
        s1.len() < s2.len(),
{
    vstd::set_lib::lemma_len_subset(s1, s2.remove(x));
}

impl ConstraintGraph {
    /// The points-to facts `(v, o)` as codes `v * n + o`.
    closed spec fn fact_codes(&self) -> Set<int> {
        let n = self.names@.len() as int;
        Set::new(|c: int| 0 <= c < n * n && 0 <= c / n < n && self.pt(c / n, (c % n) as usize))
    }

    /// The edges `(a, b)` as codes `a * n + b`.
    closed spec fn edge_codes(&self) -> Set<int> {
        let n = self.names@.len() as int;
        Set::new(|c: int| 0 <= c < n * n && self.has_edge((c / n) as usize, (c % n) as usize))
    }

    /// How far the solver is from the top: facts and edges that may still come.
    closed spec fn rank(&self) -> int {
        let n = self.names@.len() as int;
        2 * (n * n) - self.fact_codes().len() - self.edge_codes().len()
    }

    /// Every load through `v` and every store through `v`, among the first `kmax`
    /// rules, has its edge for the pointee `a`.
    closed spec fn deref_done(&self, rs: Seq<Rule>, v: usize, a: usize, kmax: int) -> bool {
        forall|k: int|
            #![trigger rs[k]]
            0 <= k < kmax ==> (rs[k].kind == ConstraintKind::DerefRight && rs[k].right == v ==> self.has_edge(a, rs[k].left))
                && (rs[k].kind == ConstraintKind::DerefLeft && rs[k].left == v ==> self.has_edge(rs[k].right, a))
    }

    /// The targets of `v`'s edges hold all of `v`'s points-to set.
    closed spec fn out_ok(&self, v: usize) -> bool {
        forall|t: usize, o: usize|
            #![trigger self.has_edge(v, t), self.pt(v as int, o)]
            self.has_edge(v, t) && self.pt(v as int, o) ==> self.pt(t as int, o)
    }

    /// Node `v` has nothing left to pass on.
    closed spec fn node_ok(&self, rs: Seq<Rule>, v: usize) -> bool {
        &&& self.out_ok(v)
        &&& forall|o: usize| #![trigger self.pt(v as int, o)] self.pt(v as int, o) ==> self.deref_done(rs, v, o, rs.len() as int)
    }

    /// Each node but `skip` that is not waiting in `q` has nothing left to pass on.
    closed spec fn pending_ok(&self, rs: Seq<Rule>, q: Seq<usize>, skip: int) -> bool {
        forall|u: usize|
            #![trigger self.node_ok(rs, u)]
            u < self.names@.len() && u != skip && !q.contains(u) ==> self.node_ok(rs, u)
    }

    /// Some rule asks for the edge `a -> b`: a copy `b = a`, a load `b = *r`
    /// with `a` in the set of `r`, or a store `*l = a` with `b` in the set of `l`.
    closed spec fn edge_justified(&self, rs: Seq<Rule>, a: usize, b: usize) -> bool {
        exists|k: int|
            #![trigger rs[k]]
            0 <= k < rs.len() && ((rs[k].kind == ConstraintKind::Equal && rs[k].right == a && rs[k].left == b) || (rs[k].kind
                == ConstraintKind::DerefRight && rs[k].left == b && self.pt(rs[k].right as int, a)) || (rs[k].kind
                == ConstraintKind::DerefLeft && rs[k].right == a && self.pt(rs[k].left as int, b)))
    }

    /// Every edge is asked for by some rule.
    closed spec fn edges_justified(&self, rs: Seq<Rule>) -> bool {
        forall|a: usize, b: usize| #[trigger] self.has_edge(a, b) ==> self.edge_justified(rs, a, b)
    }

    /// Edges that stay justified as points-to sets grow.
    proof fn lemma_justified_after_growth(s1: &Self, s2: &Self, rs: Seq<Rule>)
        requires
            s1.edges_justified(rs),
            s2.edges() == s1.edges(),
            forall|k: int| #![trigger rs[k]] 0 <= k < rs.len() ==> rs[k].left < s1.pts@.len() && rs[k].right < s1.pts@.len(),
            forall|w: int, o: usize| #![trigger s2.pt(w, o)] 0 <= w < s1.pts@.len() && s1.pt(w, o) ==> s2.pt(w, o),
        ensures
            s2.edges_justified(rs),
    {
        assert forall|a: usize, b: usize| #[trigger] s2.has_edge(a, b) implies s2.edge_justified(rs, a, b) by {
            assert(s1.has_edge(a, b));
            let k = choose|k: int|
                #![trigger rs[k]]
                0 <= k < rs.len() && ((rs[k].kind == ConstraintKind::Equal && rs[k].right == a && rs[k].left == b) || (rs[k].kind
                    == ConstraintKind::DerefRight && rs[k].left == b && s1.pt(rs[k].right as int, a)) || (rs[k].kind
                    == ConstraintKind::DerefLeft && rs[k].right == a && s1.pt(rs[k].left as int, b)));
            if rs[k].kind == ConstraintKind::DerefRight && rs[k].left == b && s1.pt(rs[k].right as int, a) {
                assert(s2.pt(rs[k].right as int, a));
            }
            if rs[k].kind == ConstraintKind::DerefLeft && rs[k].right == a && s1.pt(rs[k].left as int, b) {
                assert(s2.pt(rs[k].left as int, b));
            }
        }
    }

    /// What holds of the graph at every step of the solver.
    closed spec fn solver_inv(&self, rs: Seq<Rule>, e0: int) -> bool {
        let n = self.names@.len() as int;
        &&& self.wf()
        &&& forall|k: int| #![trigger rs[k]] 0 <= k < rs.len() ==> rs[k].left < n && rs[k].right < n
        &&& forall|k: int|
            #![trigger rs[k]]
            0 <= k < rs.len() && rs[k].kind == ConstraintKind::Addr ==> self.pt(rs[k].left as int, rs[k].right)
        &&& forall|k: int|
            #![trigger rs[k]]
            0 <= k < rs.len() && rs[k].kind == ConstraintKind::Equal ==> self.has_edge(rs[k].right, rs[k].left)
        &&& forall|v: int, o: usize|
            #![trigger self.pt(v, o)]
            0 <= v < n && self.pt(v, o) ==> exists|k: int|
                #![trigger rs[k]]
                0 <= k < rs.len() && rs[k].kind == ConstraintKind::Addr && rs[k].right == o
        &&& self.fact_codes().finite()
        &&& self.fact_codes().len() <= n * n
        &&& self.edge_codes().finite()
        &&& self.edge_codes().len() <= n * n
        &&& self.edges().len() <= e0 + self.edge_codes().len()
        &&& e0 + n * n < u32::MAX
        &&& self.edges().no_duplicates()
        &&& self.edges_justified(rs)
    }

    proof fn lemma_bounds(&self)
        requires
            self.wf(),
        ensures
            self.fact_codes().finite(),
            self.fact_codes().len() <= self.names@.len() * self.names@.len(),
            self.edge_codes().finite(),
            self.edge_codes().len() <= self.names@.len() * self.names@.len(),
    {
        let n = self.names@.len() as int;
        assert(n * n >= 0) by (nonlinear_arith);
        lemma_codes_bounded(self.fact_codes(), n * n);
        lemma_codes_bounded(self.edge_codes(), n * n);
    }

    /// A copy of the points-to set of `v`.
    fn copy_pts(&self, v: usize) -> (r: Vec<usize>)
        requires
            self.wf(),
            v < self.ids().len(),
        ensures
            r@ == self.pts@[v as int]@,
    {
        let row = &self.pts[v];
        let mut r: Vec<usize> = Vec::new();
        let mut i: usize = 0;
        while i < row.len()
            invariant
                i <= row@.len(),
                r@ == row@.take(i as int),
            decreases row@.len() - i,
        {
            r.push(row[i]);
            i += 1;
            assert(r@ =~= row@.take(i as int));
        }
        assert(row@.take(row@.len() as int) =~= row@);
        r
    }

    /// Merges `src` into the points-to set of `t`; says whether that set grew.
    fn merge_into(&mut self, t: usize, src: &Vec<usize>) -> (grew: bool)
        requires
            old(self).wf(),
            t < old(self).ids().len(),
            forall|i: int| 0 <= i < src@.len() ==> src@[i] < old(self).ids().len(),
        ensures
            final(self).wf(),
            final(self).ids() == old(self).ids(),
            final(self).edges() == old(self).edges(),
            final(self).pts@.len() == old(self).pts@.len(),
            forall|u: int| #![trigger final(self).pts@[u]] 0 <= u < old(self).pts@.len() && u != t ==> final(self).pts@[u] == old(self).pts@[u],
            forall|x: usize| #![trigger final(self).pt(t as int, x)] final(self).pt(t as int, x) == (old(self).pt(t as int, x) || src@.contains(x)),
            !grew ==> final(self).pts@ == old(self).pts@,
            grew ==> exists|x: usize| #![trigger src@.contains(x)] src@.contains(x) && !old(self).pt(t as int, x),
    {
        let ghost start = *self;
        let mut grew = false;
        let mut i: usize = 0;
        while i < src.len()
            invariant
                self.wf(),
                start.wf(),
                t < start.ids().len(),
                forall|j: int| 0 <= j < src@.len() ==> src@[j] < start.ids().len(),
                i <= src@.len(),
                self.ids() == start.ids(),
                self.edges() == start.edges(),
                self.pts@.len() == start.pts@.len(),
                forall|u: int| #![trigger self.pts@[u]] 0 <= u < start.pts@.len() && u != t ==> self.pts@[u] == start.pts@[u],
                forall|x: usize| #![trigger self.pt(t as int, x)] self.pt(t as int, x) == (start.pt(t as int, x) || src@.take(i as int).contains(x)),
                !grew ==> self.pts@ == start.pts@,
                grew ==> exists|x: usize| #![trigger src@.contains(x)] src@.contains(x) && !start.pt(t as int, x),
            decreases src@.len() - i,
        {
            let x = src[i];
            let ghost before = *self;
            let added = self.insert_pts(t, x);
            if added {
                assert(src@.contains(x));
                assert(!start.pt(t as int, x)) by {
                    if start.pt(t as int, x) {
                        assert(before.pt(t as int, x));
                    }
                }
                grew = true;
            }
            assert forall|y: usize| #![trigger self.pt(t as int, y)] self.pt(t as int, y) == (start.pt(t as int, y) || src@.take(i + 1).contains(y)) by {
                assert(src@.take(i + 1) =~= src@.take(i as int).push(x));
                assert(before.pt(t as int, y) == (start.pt(t as int, y) || src@.take(i as int).contains(y)));
            }
            i += 1;
        }
        assert(src@.take(src@.len() as int) =~= src@);
        grew
    }
}


/// `s` meets the rule of every resolved constraint.
spec fn rules_closed(rs: Seq<Rule>, s: Seq<Set<usize>>) -> bool {
    forall|k: int| #![trigger rs[k]] 0 <= k < rs.len() ==> rule_holds(rs[k].kind, rs[k].left as int, rs[k].right as int, s)
}

impl ConstraintGraph {
    /// Every fact of `self` is in `s`, and `s` grows along every edge of `self`.
    closed spec fn under(&self, s: Seq<Set<usize>>) -> bool {
        &&& forall|v: int, o: usize| #![trigger self.pt(v, o)] 0 <= v < self.pts@.len() && self.pt(v, o) ==> s[v].contains(o)
        &&& forall|a: usize, b: usize| #![trigger self.has_edge(a, b)] self.has_edge(a, b) ==> s[a as int].subset_of(s[b as int])
    }

    /// Nothing in `self` goes beyond any solution of the rules.
    closed spec fn least_inv(&self, rs: Seq<Rule>) -> bool {
        forall|s: Seq<Set<usize>>|
            #![trigger rules_closed(rs, s)]
            s.len() == self.pts@.len() && rules_closed(rs, s) ==> self.under(s)
    }
}

impl ConstraintGraph {
    proof fn lemma_node_ok_after_edge(s1: &Self, s2: &Self, rs: Seq<Rule>, u: usize, x: usize, y: usize)
        requires
            s2.pts@ == s1.pts@,
            s2.edges() == s1.edges().push((x, y)),
            u != x,
            s1.node_ok(rs, u),
        ensures
            s2.node_ok(rs, u),
    {
        assert forall|t: usize, o: usize|
            #![trigger s2.has_edge(u, t), s2.pt(u as int, o)]
            s2.has_edge(u, t) && s2.pt(u as int, o) implies s2.pt(t as int, o) by {
            assert(s1.has_edge(u, t));
            assert(s1.pt(u as int, o));
        }
        assert forall|o: usize| #![trigger s2.pt(u as int, o)] s2.pt(u as int, o) implies s2.deref_done(rs, u, o, rs.len() as int) by {
            assert(s1.pt(u as int, o));
            assert(s1.deref_done(rs, u, o, rs.len() as int));
        }
    }

    proof fn lemma_node_ok_after_growth(s1: &Self, s2: &Self, rs: Seq<Rule>, u: usize)
        requires
            s2.edges() == s1.edges(),
            u < s1.pts@.len(),
            s2.pts@[u as int] == s1.pts@[u as int],
            forall|w: int, o: usize| #![trigger s2.pt(w, o)] 0 <= w < s1.pts@.len() && s1.pt(w, o) ==> s2.pt(w, o),
            forall|a: usize, b: usize| #[trigger] s1.has_edge(a, b) ==> a < s1.pts@.len() && b < s1.pts@.len(),
            s1.node_ok(rs, u),
        ensures
            s2.node_ok(rs, u),
    {
        assert forall|t: usize, o: usize|
            #![trigger s2.has_edge(u, t), s2.pt(u as int, o)]
            s2.has_edge(u, t) && s2.pt(u as int, o) implies s2.pt(t as int, o) by {
            assert(s1.has_edge(u, t));
            assert(s1.pt(u as int, o));
            assert(s1.pt(t as int, o));
        }
        assert forall|o: usize| #![trigger s2.pt(u as int, o)] s2.pt(u as int, o) implies s2.deref_done(rs, u, o, rs.len() as int) by {
            assert(s1.pt(u as int, o));
            assert(s1.deref_done(rs, u, o, rs.len() as int));
        }
    }

    proof fn lemma_edges_in_range(&self)
        requires
            self.wf(),
        ensures
            forall|a: usize, b: usize| #[trigger] self.has_edge(a, b) ==> a < self.pts@.len() && b < self.pts@.len(),
    {
        assert forall|a: usize, b: usize| #[trigger] self.has_edge(a, b) implies a < self.pts@.len() && b < self.pts@.len() by {
            let e = choose|e: int| 0 <= e < self.edges().len() && self.edges()[e] == (a, b);
            assert(graph_edges(self.graph)[e].0 < self.names@.len());
        }
    }

    /// Growth as the solver tracks it is growth in the public sense.
    proof fn lemma_extends_grows(s1: &Self, s2: &Self)
        requires
            s1.wf(),
            s2.wf(),
            s1.extends(s2),
        ensures
            s1.grows_to(s2),
    {
        assert(s1.solution().len() == s1.ids().len());
        assert(s2.solution().len() == s2.ids().len());
        assert(s1.ids().len() == s2.ids().len());
        assert forall|v: int, o: usize|
            #![trigger s2.solution()[v].contains(o)]
            0 <= v < s1.solution().len() && s1.solution()[v].contains(o) implies s2.solution()[v].contains(o) by {
            assert(s1.pt(v, o));
            assert(s2.pt(v, o));
        }
    }

    /// Adding a missing edge keeps the solver's invariant and lowers the rank.
    proof fn lemma_after_edge(s1: &Self, s2: &Self, rs: Seq<Rule>, e0: int, a: usize, b: usize)
        requires
            s1.solver_inv(rs, e0),
            s2.wf(),
            s2.ids() == s1.ids(),
            s2.names@.len() == s1.names@.len(),
            s2.pts@ == s1.pts@,
            s2.edges() == s1.edges().push((a, b)),
            !s1.has_edge(a, b),
            s1.edge_justified(rs, a, b),
            a < s1.names@.len(),
            b < s1.names@.len(),
        ensures
            s2.solver_inv(rs, e0),
            s2.rank() < s1.rank(),
            s1.extends(s2),
    {
        let n = s1.names@.len() as int;
        assert(s2.fact_codes() =~= s1.fact_codes());
        lemma_pair_code(n, a as int, b as int);
        let c = a as int * n + b as int;
        assert(s2.edge_codes().contains(c));
        assert(s1.edge_codes().subset_of(s2.edge_codes()));
        s2.lemma_bounds();
        lemma_strict_growth(s1.edge_codes(), s2.edge_codes(), c);
        assert forall|k: int| #![trigger rs[k]]
            0 <= k < rs.len() && rs[k].kind == ConstraintKind::Equal implies s2.has_edge(rs[k].right, rs[k].left) by {
            assert(s1.has_edge(rs[k].right, rs[k].left));
        }
        assert forall|v: int, o: usize| #![trigger s2.pt(v, o)] 0 <= v < n && s2.pt(v, o) implies exists|k: int|
            #![trigger rs[k]]
            0 <= k < rs.len() && rs[k].kind == ConstraintKind::Addr && rs[k].right == o by {
            assert(s1.pt(v, o));
        }
        lemma_push_no_duplicates(s1.edges(), (a, b));
        assert forall|p: usize, q: usize| #[trigger] s2.has_edge(p, q) implies s2.edge_justified(rs, p, q) by {
            if (p, q) == (a, b) {
                let k = choose|k: int|
                    #![trigger rs[k]]
                    0 <= k < rs.len() && ((rs[k].kind == ConstraintKind::Equal && rs[k].right == a && rs[k].left == b) || (
                    rs[k].kind == ConstraintKind::DerefRight && rs[k].left == b && s1.pt(rs[k].right as int, a)) || (rs[k].kind
                        == ConstraintKind::DerefLeft && rs[k].right == a && s1.pt(rs[k].left as int, b)));
                assert(rs[k] == rs[k]);
            } else {
                assert(s1.has_edge(p, q));
                let k = choose|k: int|
                    #![trigger rs[k]]
                    0 <= k < rs.len() && ((rs[k].kind == ConstraintKind::Equal && rs[k].right == p && rs[k].left == q) || (
                    rs[k].kind == ConstraintKind::DerefRight && rs[k].left == q && s1.pt(rs[k].right as int, p)) || (rs[k].kind
                        == ConstraintKind::DerefLeft && rs[k].right == p && s1.pt(rs[k].left as int, q)));
                assert(rs[k] == rs[k]);
            }
        }
    }

    /// Passes on what node `v` holds: first the edges its loads and stores ask
    /// for, then its points-to set along its outgoing edges. Points-to sets and
    /// edges only grow.
    fn process_node(&mut self, rs: &Vec<Rule>, queue: &mut VecDeque<usize>, v: usize, Ghost(e0): Ghost<int>)
        requires
            old(self).solver_inv(rs@, e0),
            v < old(self).ids().len(),
            forall|i: int| 0 <= i < old(queue)@.len() ==> old(queue)@[i] < old(self).ids().len(),
            old(self).pending_ok(rs@, old(queue)@, v as int),
            old(self).least_inv(rs@),
        ensures
            final(self).solver_inv(rs@, e0),
            final(self).least_inv(rs@),
            forall|i: int| 0 <= i < final(queue)@.len() ==> final(queue)@[i] < final(self).ids().len(),
            final(self).pending_ok(rs@, final(queue)@, -1),
            old(self).extends(final(self)),
            old(self).grows_to(final(self)),
            final(queue)@.len() + final(self).rank() <= old(queue)@.len() + old(self).rank(),
    {
        let ghost s0 = *self;
        let ghost q0 = queue@;
        let ghost n = self.names@.len();
        let snap = self.copy_pts(v);
        let mut i: usize = 0;
        while i < snap.len()
            invariant
                self.solver_inv(rs@, e0),
                self.names@.len() == n,
                self.ids() == s0.ids(),
                self.pts@ == s0.pts@,
                s0.extends(self),
                v < n,
                snap@ == s0.pts@[v as int]@,
                i <= snap@.len(),
                forall|j: int| 0 <= j < queue@.len() ==> queue@[j] < n,
                self.pending_ok(rs@, queue@, v as int),
                self.least_inv(rs@),
                forall|j: int| #![trigger snap@[j]] 0 <= j < i ==> self.deref_done(rs@, v, snap@[j], rs@.len() as int),
                queue@.len() + self.rank() <= q0.len() + s0.rank(),
            decreases snap@.len() - i,
        {
            let a = snap[i];
            assert(a < n);
            let mut k: usize = 0;
            while k < rs.len()
                invariant
                    self.solver_inv(rs@, e0),
                    self.names@.len() == n,
                    self.ids() == s0.ids(),
                    self.pts@ == s0.pts@,
                    s0.extends(self),
                    v < n,
                    a < n,
                    a == snap@[i as int],
                    snap@ == s0.pts@[v as int]@,
                    i < snap@.len(),
                    k <= rs@.len(),
                    forall|j: int| 0 <= j < queue@.len() ==> queue@[j] < n,
                    self.pending_ok(rs@, queue@, v as int),
                    self.least_inv(rs@),
                    forall|j: int| #![trigger snap@[j]] 0 <= j < i ==> self.deref_done(rs@, v, snap@[j], rs@.len() as int),
                    self.deref_done(rs@, v, a, k as int),
                    queue@.len() + self.rank() <= q0.len() + s0.rank(),
                decreases rs@.len() - k,
            {
                let r = rs[k];
                let ghost before = *self;
                let ghost qb = queue@;
                let mut added: Option<(usize, usize)> = None;
                match r.kind {
                    ConstraintKind::DerefRight => {
                        if r.right == v && !self.has_edge_at(a, r.left) {
                            self.add_edge_at(a, r.left);
                            queue.push_back(a);
                            added = Some((a, r.left));
                        }
                    },
                    ConstraintKind::DerefLeft => {
                        if r.left == v && !self.has_edge_at(r.right, a) {
                            self.add_edge_at(r.right, a);
                            queue.push_back(r.right);
                            added = Some((r.right, a));
                        }
                    },
                    _ => {},
                }
                proof {
                    match added {
                        Some((x, y)) => {
                            assert(self.pts@[v as int]@[i as int] == a);
                            assert(before.pt(v as int, a));
                            assert(rs@[k as int] == r);
                            assert(before.edge_justified(rs@, x, y));
                            Self::lemma_after_edge(&before, self, rs@, e0, x, y);
                            assert forall|s2: Seq<Set<usize>>|
                                #![trigger rules_closed(rs@, s2)]
                                s2.len() == self.pts@.len() && rules_closed(rs@, s2) implies self.under(s2) by {
                                assert(before.under(s2));
                                assert(rs@[k as int] == r);
                                assert(rule_holds(r.kind, r.left as int, r.right as int, s2));
                                assert(s2[v as int].contains(a));
                                assert forall|p: usize, q: usize| #![trigger self.has_edge(p, q)] self.has_edge(p, q) implies s2[p as int].subset_of(s2[q as int]) by {
                                    if !before.has_edge(p, q) {
                                        assert((p, q) == (x, y));
                                    }
                                }
                                assert forall|w: int, o: usize| #![trigger self.pt(w, o)] 0 <= w < self.pts@.len() && self.pt(w, o) implies s2[w].contains(o) by {
                                    assert(before.pt(w, o));
                                }
                            }
                            assert forall|u: usize| #![trigger self.node_ok(rs@, u)]
                                u < n && u != v && !queue@.contains(u) implies self.node_ok(rs@, u) by {
                                assert(queue@.last() == x);
                                assert(!qb.contains(u));
                                assert(before.node_ok(rs@, u));
                                Self::lemma_node_ok_after_edge(&before, self, rs@, u, x, y);
                            }
                            assert forall|j: int| #![trigger snap@[j]] 0 <= j < i implies self.deref_done(rs@, v, snap@[j], rs@.len() as int) by {
                                assert(before.deref_done(rs@, v, snap@[j], rs@.len() as int));
                            }
                            assert(self.deref_done(rs@, v, a, k + 1)) by {
                                assert(before.deref_done(rs@, v, a, k as int));
                            }
                        },
                        None => {
                            assert(self.deref_done(rs@, v, a, k + 1));
                        },
                    }
                }
                k += 1;
            }
            i += 1;
        }
        let ghost s1 = *self;
        let ghost q1 = queue@;
        proof {
            self.lemma_edges_in_range();
        }
        let es = graph_edge_list(&self.graph);
        let mut e: usize = 0;
        while e < es.len()
            invariant
                self.solver_inv(rs@, e0),
                self.names@.len() == n,
                s0.wf(),
                s0.names@.len() == n,
                self.ids() == s0.ids(),
                self.edges() == s1.edges(),
                es@ == s1.edges(),
                s0.extends(self),
                s1.pts@ == s0.pts@,
                forall|a: usize, b: usize| #[trigger] s1.has_edge(a, b) ==> a < n && b < n,
                v < n,
                snap@ == s0.pts@[v as int]@,
                e <= es@.len(),
                forall|j: int| 0 <= j < queue@.len() ==> queue@[j] < n,
                self.pending_ok(rs@, queue@, v as int),
                self.least_inv(rs@),
                queue@.contains(v) || self.pts@[v as int] == s0.pts@[v as int],
                forall|j: int| #![trigger snap@[j]] 0 <= j < snap@.len() ==> s1.deref_done(rs@, v, snap@[j], rs@.len() as int),
                forall|j: int, o: usize|
                    #![trigger es@[j], self.pt(es@[j].1 as int, o)]
                    0 <= j < e && es@[j].0 == v && snap@.contains(o) ==> self.pt(es@[j].1 as int, o),
                queue@.len() + self.rank() <= q0.len() + s0.rank(),
            decreases es@.len() - e,
        {
            let (src, t) = es[e];
            assert(s1.has_edge(src, t));
            if src == v {
                let ghost before = *self;
                let ghost qb = queue@;
                assert forall|j: int| 0 <= j < snap@.len() implies snap@[j] < n by {
                    assert(s0.pts@[v as int]@[j] < n);
                }
                let grew = self.merge_into(t, &snap);
                if grew {
                    queue.push_back(t);
                }
                proof {
                    self.lemma_bounds();
                    assert(self.edge_codes() =~= before.edge_codes());
                    if grew {
                        let x = choose|x: usize| #![trigger snap@.contains(x)] snap@.contains(x) && !before.pt(t as int, x);
                        lemma_pair_code(n as int, t as int, x as int);
                        let c = t as int * n + x as int;
                        assert(self.pt(t as int, x));
                        assert(self.fact_codes().contains(c));
                        assert(before.fact_codes().subset_of(self.fact_codes())) by {
                            assert forall|c2: int| before.fact_codes().contains(c2) implies self.fact_codes().contains(c2) by {
                                let w = c2 / (n as int);
                                if w == t as int {
                                    assert(self.pt(t as int, (c2 % (n as int)) as usize));
                                } else {
                                    assert(self.pts@[w] == before.pts@[w]);
                                }
                            }
                        }
                        lemma_strict_growth(before.fact_codes(), self.fact_codes(), c);
                    } else {
                        assert(self.fact_codes() =~= before.fact_codes());
                    }
                    Self::lemma_justified_after_growth(&before, self, rs@);
                    assert forall|s2: Seq<Set<usize>>|
                        #![trigger rules_closed(rs@, s2)]
                        s2.len() == self.pts@.len() && rules_closed(rs@, s2) implies self.under(s2) by {
                        assert(before.under(s2));
                        assert(before.has_edge(v, t));
                        assert forall|w: int, o: usize| #![trigger self.pt(w, o)] 0 <= w < self.pts@.len() && self.pt(w, o) implies s2[w].contains(o) by {
                            if w == t as int && !before.pt(w, o) {
                                assert(snap@.contains(o));
                                assert(s0.pt(v as int, o));
                                assert(before.pt(v as int, o));
                                assert(s2[v as int].contains(o));
                            } else {
                                if w != t as int {
                                    assert(self.pts@[w] == before.pts@[w]);
                                }
                                assert(before.pt(w, o));
                            }
                        }
                        assert forall|p: usize, q: usize| #![trigger self.has_edge(p, q)] self.has_edge(p, q) implies s2[p as int].subset_of(s2[q as int]) by {
                            assert(before.has_edge(p, q));
                        }
                    }
                    assert forall|w: int, o: usize| #![trigger self.pt(w, o)] 0 <= w < n && before.pt(w, o) implies self.pt(w, o) by {
                        if w != t as int {
                            assert(self.pts@[w] == before.pts@[w]);
                        }
                    }
                    assert forall|u: usize| #![trigger self.node_ok(rs@, u)]
                        u < n && u != v && !queue@.contains(u) implies self.node_ok(rs@, u) by {
                        assert(!qb.contains(u));
                        assert(before.node_ok(rs@, u));
                        if grew {
                            assert(queue@.last() == t);
                            assert(u != t);
                        }
                        if u != t {
                            assert(self.pts@[u as int] == before.pts@[u as int]);
                        }
                        Self::lemma_node_ok_after_growth(&before, self, rs@, u);
                    }
                    if !queue@.contains(v) {
                        assert(!grew || t != v);
                        assert(!qb.contains(v));
                        if t != v {
                            assert(self.pts@[v as int] == before.pts@[v as int]);
                        }
                    }
                    assert forall|k: int| #![trigger rs@[k]]
                        0 <= k < rs@.len() && rs@[k].kind == ConstraintKind::Addr implies self.pt(rs@[k].left as int, rs@[k].right) by {
                        assert(before.pt(rs@[k].left as int, rs@[k].right));
                    }
                    assert forall|w: int, o: usize| #![trigger self.pt(w, o)] 0 <= w < n && self.pt(w, o) implies exists|k: int|
                        #![trigger rs@[k]]
                        0 <= k < rs@.len() && rs@[k].kind == ConstraintKind::Addr && rs@[k].right == o by {
                        if w == t as int && !before.pt(w, o) {
                            assert(snap@.contains(o));
                            assert(s0.pt(v as int, o));
                            assert(before.pt(v as int, o));
                        } else {
                            if w != t as int {
                                assert(self.pts@[w] == before.pts@[w]);
                            }
                            assert(before.pt(w, o));
                        }
                    }
                    assert forall|j: int, o: usize|
                        #![trigger es@[j], self.pt(es@[j].1 as int, o)]
                        0 <= j < e + 1 && es@[j].0 == v && snap@.contains(o) implies self.pt(es@[j].1 as int, o) by {
                        if j < e {
                            assert(before.pt(es@[j].1 as int, o));
                        }
                    }
                    assert(s0.extends(self)) by {
                        assert forall|w: int, o: usize| #![trigger self.pt(w, o)] 0 <= w < s0.ids().len() && s0.pt(w, o) implies self.pt(w, o) by {
                            assert(before.pt(w, o));
                        }
                        assert forall|a: usize, b: usize| #![trigger self.has_edge(a, b)] s0.has_edge(a, b) implies self.has_edge(a, b) by {
                            assert(before.has_edge(a, b));
                        }
                    }
                }
            }
            e += 1;
        }
        proof {
            if !queue@.contains(v) {
                assert(self.node_ok(rs@, v)) by {
                    assert forall|t: usize, o: usize|
                        #![trigger self.has_edge(v, t), self.pt(v as int, o)]
                        self.has_edge(v, t) && self.pt(v as int, o) implies self.pt(t as int, o) by {
                        let j = choose|j: int| 0 <= j < es@.len() && es@[j] == (v, t);
                        assert(snap@.contains(o));
                        assert(self.pt(es@[j].1 as int, o));
                    }
                    assert forall|o: usize| #![trigger self.pt(v as int, o)] self.pt(v as int, o) implies self.deref_done(rs@, v, o, rs@.len() as int) by {
                        let j = choose|j: int| 0 <= j < snap@.len() && snap@[j] == o;
                        assert(s1.deref_done(rs@, v, snap@[j], rs@.len() as int));
                    }
                }
            }
            assert forall|u: usize| #![trigger self.node_ok(rs@, u)]
                u < n && u != -1 && !queue@.contains(u) implies self.node_ok(rs@, u) by {
                if u != v {
                    assert(self.node_ok(rs@, u));
                }
            }
        }
        proof {
            Self::lemma_extends_grows(&s0, self);
        }
    }
}

impl ConstraintGraph {
    /// Once no node has anything left to pass on, the points-to sets are closed
    /// under every constraint.
    proof fn lemma_fixpoint(&self, cs: Seq<Constraint>, rs: Seq<Rule>, e0: int)
        requires
            self.solver_inv(rs, e0),
            self.resolved(cs, rs),
            self.pending_ok(rs, Seq::<usize>::empty(), -1),
        ensures
            closed_under(cs, self.ids(), self.solution()),
            only_address_taken(cs, self.ids(), self.solution()),
    {
        let ids = self.ids();
        let sol = self.solution();
        let n = self.names@.len();
        assert forall|u: usize| u < n implies #[trigger] self.node_ok(rs, u) by {
            assert(!Seq::<usize>::empty().contains(u));
        }
        assert forall|k: int, i: int, j: int|
            #![trigger cs[k], ids[i], ids[j]]
            0 <= k < cs.len() && names(ids, i, cs[k].left@) && names(ids, j, cs[k].right@)
                implies rule_holds(cs[k].kind, i, j, sol) by {
            let r = rs[k];
            self.lemma_ids_unique(i, r.left as int);
            self.lemma_ids_unique(j, r.right as int);
            match cs[k].kind {
                ConstraintKind::Addr => {
                    assert(self.pt(i, j as usize));
                },
                ConstraintKind::Equal => {
                    assert(self.has_edge(r.right, r.left));
                    assert(self.node_ok(rs, r.right));
                    assert forall|o: usize| sol[j].contains(o) implies sol[i].contains(o) by {
                        assert(self.pt(j, o));
                    }
                },
                ConstraintKind::DerefRight => {
                    assert forall|o: usize| #![trigger sol[o as int]] sol[j].contains(o) && o < sol.len() implies sol[o as int].subset_of(sol[i]) by {
                        assert(self.pt(j, o));
                        assert(self.node_ok(rs, r.right));
                        assert(self.deref_done(rs, r.right, o, rs.len() as int));
                        assert(self.has_edge(o, r.left));
                        assert(self.node_ok(rs, o));
                        assert forall|x: usize| sol[o as int].contains(x) implies sol[i].contains(x) by {
                            assert(self.pt(o as int, x));
                        }
                    }
                },
                ConstraintKind::DerefLeft => {
                    assert forall|o: usize| #![trigger sol[o as int]] sol[i].contains(o) && o < sol.len() implies sol[j].subset_of(sol[o as int]) by {
                        assert(self.pt(i, o));
                        assert(self.node_ok(rs, r.left));
                        assert(self.deref_done(rs, r.left, o, rs.len() as int));
                        assert(self.has_edge(r.right, o));
                        assert(self.node_ok(rs, r.right));
                        assert forall|x: usize| sol[j].contains(x) implies sol[o as int].contains(x) by {
                            assert(self.pt(j, x));
                        }
                    }
                },
            }
        }
        assert forall|v: int, o: usize|
            #![trigger sol[v].contains(o)]
            0 <= v < sol.len() && sol[v].contains(o) implies address_taken(cs, ids, o as int) by {
            assert(self.pt(v, o));
            let k = choose|k: int|
                #![trigger rs[k]]
                0 <= k < rs.len() && rs[k].kind == ConstraintKind::Addr && rs[k].right == o;
            assert(cs[k].kind == ConstraintKind::Addr);
        }
    }

    /// Once no node has anything left to pass on, the edges are exactly those
    /// that the copies, loads and stores ask for.
    proof fn lemma_edges_exact(&self, cs: Seq<Constraint>, rs: Seq<Rule>, e0: int)
        requires
            self.solver_inv(rs, e0),
            self.resolved(cs, rs),
            self.pending_ok(rs, Seq::<usize>::empty(), -1),
        ensures
            forall|a: usize, b: usize|
                #[trigger] self.has_edge(a, b) <==> (copy_edge(cs, self.ids(), a as int, b as int) || load_edge(
                    cs,
                    self.ids(),
                    self.solution(),
                    a as int,
                    b as int,
                ) || store_edge(cs, self.ids(), self.solution(), a as int, b as int)),
    {
        let ids = self.ids();
        let sol = self.solution();
        let n = self.names@.len();
        assert forall|u: usize| u < n implies #[trigger] self.node_ok(rs, u) by {
            assert(!Seq::<usize>::empty().contains(u));
        }
        assert forall|a: usize, b: usize|
            #[trigger] self.has_edge(a, b) <==> (copy_edge(cs, ids, a as int, b as int) || load_edge(cs, ids, sol, a as int, b as int)
                || store_edge(cs, ids, sol, a as int, b as int)) by {
            if self.has_edge(a, b) {
                assert(self.edge_justified(rs, a, b));
                let k = choose|k: int|
                    #![trigger rs[k]]
                    0 <= k < rs.len() && ((rs[k].kind == ConstraintKind::Equal && rs[k].right == a && rs[k].left == b) || (
                    rs[k].kind == ConstraintKind::DerefRight && rs[k].left == b && self.pt(rs[k].right as int, a)) || (rs[k].kind
                        == ConstraintKind::DerefLeft && rs[k].right == a && self.pt(rs[k].left as int, b)));
                let r = rs[k];
                assert(ids[r.left as int] == cs[k].left@ && ids[r.right as int] == cs[k].right@);
                if r.kind == ConstraintKind::Equal && r.right == a && r.left == b {
                    assert(copy_edge(cs, ids, a as int, b as int));
                } else if r.kind == ConstraintKind::DerefRight && r.left == b && self.pt(r.right as int, a) {
                    assert(sol[r.right as int].contains(a));
                    assert(load_edge(cs, ids, sol, a as int, b as int));
                } else {
                    assert(sol[r.left as int].contains(b));
                    assert(store_edge(cs, ids, sol, a as int, b as int));
                }
            }
            if copy_edge(cs, ids, a as int, b as int) {
                let k = choose|k: int|
                    #![trigger cs[k]]
                    0 <= k < cs.len() && cs[k].kind == ConstraintKind::Equal && names(ids, b as int, cs[k].left@) && names(
                        ids,
                        a as int,
                        cs[k].right@,
                    );
                self.lemma_ids_unique(b as int, rs[k].left as int);
                self.lemma_ids_unique(a as int, rs[k].right as int);
            }
            if load_edge(cs, ids, sol, a as int, b as int) {
                let (k, r) = choose|k: int, r: int|
                    #![trigger cs[k], ids[r]]
                    0 <= k < cs.len() && cs[k].kind == ConstraintKind::DerefRight && names(ids, b as int, cs[k].left@) && names(
                        ids,
                        r,
                        cs[k].right@,
                    ) && sol[r].contains(a);
                self.lemma_ids_unique(b as int, rs[k].left as int);
                self.lemma_ids_unique(r, rs[k].right as int);
                assert(self.pt(r, a));
                assert(self.node_ok(rs, r as usize));
                assert(self.deref_done(rs, r as usize, a, rs.len() as int));
            }
            if store_edge(cs, ids, sol, a as int, b as int) {
                let (k, l) = choose|k: int, l: int|
                    #![trigger cs[k], ids[l]]
                    0 <= k < cs.len() && cs[k].kind == ConstraintKind::DerefLeft && names(ids, a as int, cs[k].right@) && names(
                        ids,
                        l,
                        cs[k].left@,
                    ) && sol[l].contains(b);
                self.lemma_ids_unique(a as int, rs[k].right as int);
                self.lemma_ids_unique(l, rs[k].left as int);
                assert(self.pt(l, b));
                assert(self.node_ok(rs, l as usize));
                assert(self.deref_done(rs, l as usize, b, rs.len() as int));
            }
        }
    }

    /// The fixpoint loop. From the base facts and the static edges, passes
    /// points-to sets along inclusion edges, adding the edges that loads and
    /// stores ask for, until no set changes.
    pub fn solve_complex_edges(&mut self, cs: &Vec<Constraint>)
        requires
            old(self).wf(),
            old(self).covers(cs@),
            old(self).edges().len() + old(self).ids().len() * old(self).ids().len() < u32::MAX,
            forall|v: int, o: usize|
                0 <= v < old(self).solution().len() ==> (#[trigger] old(self).solution()[v].contains(o) <==> addr_fact(
                    cs@,
                    old(self).ids(),
                    v,
                    o as int,
                )),
            forall|a: usize, b: usize|
                #[trigger] old(self).has_edge(a, b) <==> copy_edge(cs@, old(self).ids(), a as int, b as int),
            old(self).edges().no_duplicates(),
        ensures
            final(self).wf(),
            final(self).edges().no_duplicates(),
            forall|a: usize, b: usize|
                #[trigger] final(self).has_edge(a, b) <==> (copy_edge(cs@, final(self).ids(), a as int, b as int) || load_edge(
                    cs@,
                    final(self).ids(),
                    final(self).solution(),
                    a as int,
                    b as int,
                ) || store_edge(cs@, final(self).ids(), final(self).solution(), a as int, b as int)),
            old(self).grows_to(final(self)),
            closed_under(cs@, final(self).ids(), final(self).solution()),
            only_address_taken(cs@, final(self).ids(), final(self).solution()),
            forall|s2: Seq<Set<usize>>|
                #![trigger closed_under(cs@, final(self).ids(), s2)]
                s2.len() == final(self).solution().len() && closed_under(cs@, final(self).ids(), s2) ==> below(
                    final(self).solution(),
                    s2,
                ),
    {
        let rs = self.resolve(cs, None);
        let ghost start = *self;
        let ghost e0 = self.edges().len() as int;
        let ghost n = self.names@.len();
        proof {
            self.lemma_bounds();
            assert forall|k: int| #![trigger rs@[k]]
                0 <= k < rs@.len() && rs@[k].kind == ConstraintKind::Addr implies self.pt(rs@[k].left as int, rs@[k].right) by {
                assert(addr_fact(cs@, self.ids(), rs@[k].left as int, rs@[k].right as int));
                assert(self.solution()[rs@[k].left as int].contains(rs@[k].right));
            }
            assert forall|k: int| #![trigger rs@[k]]
                0 <= k < rs@.len() && rs@[k].kind == ConstraintKind::Equal implies self.has_edge(rs@[k].right, rs@[k].left) by {
                assert(copy_edge(cs@, self.ids(), rs@[k].right as int, rs@[k].left as int));
            }
            assert forall|v: int, o: usize| #![trigger self.pt(v, o)] 0 <= v < n && self.pt(v, o) implies exists|k: int|
                #![trigger rs@[k]]
                0 <= k < rs@.len() && rs@[k].kind == ConstraintKind::Addr && rs@[k].right == o by {
                assert(self.solution()[v].contains(o));
                let k = choose|k: int|
                    #![trigger cs@[k]]
                    0 <= k < cs@.len() && cs@[k].kind == ConstraintKind::Addr && names(self.ids(), v, cs@[k].left@)
                        && names(self.ids(), o as int, cs@[k].right@);
                self.lemma_ids_unique(o as int, rs@[k].right as int);
            }
            assert forall|s2: Seq<Set<usize>>|
                #![trigger rules_closed(rs@, s2)]
                s2.len() == self.pts@.len() && rules_closed(rs@, s2) implies self.under(s2) by {
                assert forall|v: int, o: usize| #![trigger self.pt(v, o)] 0 <= v < self.pts@.len() && self.pt(v, o) implies s2[v].contains(o) by {
                    assert(self.solution()[v].contains(o));
                    let k = choose|k: int|
                        #![trigger cs@[k]]
                        0 <= k < cs@.len() && cs@[k].kind == ConstraintKind::Addr && names(self.ids(), v, cs@[k].left@)
                            && names(self.ids(), o as int, cs@[k].right@);
                    self.lemma_ids_unique(v, rs@[k].left as int);
                    self.lemma_ids_unique(o as int, rs@[k].right as int);
                    assert(rule_holds(rs@[k].kind, rs@[k].left as int, rs@[k].right as int, s2));
                }
                assert forall|a: usize, b: usize| #![trigger self.has_edge(a, b)] self.has_edge(a, b) implies s2[a as int].subset_of(s2[b as int]) by {
                    let k = choose|k: int|
                        #![trigger cs@[k]]
                        0 <= k < cs@.len() && cs@[k].kind == ConstraintKind::Equal && names(self.ids(), b as int, cs@[k].left@)
                            && names(self.ids(), a as int, cs@[k].right@);
                    self.lemma_ids_unique(b as int, rs@[k].left as int);
                    self.lemma_ids_unique(a as int, rs@[k].right as int);
                    assert(rule_holds(rs@[k].kind, rs@[k].left as int, rs@[k].right as int, s2));
                }
            }
            assert(self.edge_codes().len() >= 0);
            assert forall|a: usize, b: usize| #[trigger] self.has_edge(a, b) implies self.edge_justified(rs@, a, b) by {
                let k = choose|k: int|
                    #![trigger cs@[k]]
                    0 <= k < cs@.len() && cs@[k].kind == ConstraintKind::Equal && names(self.ids(), b as int, cs@[k].left@)
                        && names(self.ids(), a as int, cs@[k].right@);
                self.lemma_ids_unique(b as int, rs@[k].left as int);
                self.lemma_ids_unique(a as int, rs@[k].right as int);
            }
        }
        let mut queue: VecDeque<usize> = VecDeque::new();
        let mut u: usize = 0;
        while u < self.names.len()
            invariant
                self.solver_inv(rs@, e0),
                *self == start,
                self.names@.len() == n,
                u <= n,
                forall|j: int| 0 <= j < queue@.len() ==> queue@[j] < n,
                forall|w: usize| w < u && !queue@.contains(w) ==> self.pts@[w as int]@.len() == 0,
            decreases n - u,
        {
            if self.pts[u].len() > 0 {
                queue.push_back(u);
            }
            u += 1;
        }
        assert forall|w: usize| #![trigger self.node_ok(rs@, w)] w < n && w != -1 && !queue@.contains(w) implies self.node_ok(rs@, w) by {
            assert(self.pts@[w as int]@.len() == 0);
        }
        while queue.len() > 0
            invariant
                self.solver_inv(rs@, e0),
                start.wf(),
                start.resolved(cs@, rs@),
                self.names@.len() == n,
                start.extends(self),
                forall|j: int| 0 <= j < queue@.len() ==> queue@[j] < n,
                self.pending_ok(rs@, queue@, -1),
                self.least_inv(rs@),
            decreases queue@.len() + self.rank(),
        {
            let ghost q = queue@;
            let v = queue.pop_front().unwrap();
            assert(self.pending_ok(rs@, queue@, v as int)) by {
                assert forall|w: usize| #![trigger self.node_ok(rs@, w)] w < n && w != v && !queue@.contains(w) implies self.node_ok(rs@, w) by {
                    if q.contains(w) {
                        let j = choose|j: int| 0 <= j < q.len() && q[j] == w;
                        assert(queue@[j - 1] == w);
                    }
                }
            }
            let ghost before = *self;
            self.process_node(&rs, &mut queue, v, Ghost(e0));
            proof {
                self.lemma_bounds();
                assert(start.extends(self)) by {
                    assert forall|w: int, o: usize| #![trigger self.pt(w, o)] 0 <= w < start.ids().len() && start.pt(w, o) implies self.pt(w, o) by {
                        assert(before.pt(w, o));
                    }
                    assert forall|a: usize, b: usize| #![trigger self.has_edge(a, b)] start.has_edge(a, b) implies self.has_edge(a, b) by {
                        assert(before.has_edge(a, b));
                    }
                }
            }
        }
        proof {
            assert(queue@ =~= Seq::<usize>::empty());
            self.lemma_fixpoint(cs@, rs@, e0);
            self.lemma_edges_exact(cs@, rs@, e0);
            assert forall|v: int, o: usize|
                #![trigger self.solution()[v].contains(o)]
                0 <= v < start.solution().len() && start.solution()[v].contains(o) implies self.solution()[v].contains(o) by {
                assert(start.pt(v, o));
                assert(self.pt(v, o));
            }
            assert forall|s2: Seq<Set<usize>>|
                #![trigger closed_under(cs@, self.ids(), s2)]
                s2.len() == self.solution().len() && closed_under(cs@, self.ids(), s2) implies below(self.solution(), s2) by {
                assert forall|k: int| #![trigger rs@[k]] 0 <= k < rs@.len() implies rule_holds(
                    rs@[k].kind,
                    rs@[k].left as int,
                    rs@[k].right as int,
                    s2,
                ) by {
                    let i = rs@[k].left as int;
                    let j = rs@[k].right as int;
                    assert(names(self.ids(), i, cs@[k].left@));
                    assert(self.ids()[i] == cs@[k].left@ && self.ids()[j] == cs@[k].right@);
                }
                assert(rules_closed(rs@, s2));
                assert(self.under(s2));
                assert forall|v: int| #![trigger self.solution()[v]] 0 <= v < self.solution().len() implies self.solution()[v].subset_of(s2[v]) by {
                    assert forall|o: usize| self.solution()[v].contains(o) implies s2[v].contains(o) by {
                        assert(self.pt(v, o));
                    }
                }
            }
        }
    }
}


impl ConstraintGraph {
    /// The whole analysis on a fresh graph: creates the nodes, the base facts
    /// and the static edges, then runs the fixpoint loop.
    pub fn solve(&mut self, cs: &Vec<Constraint>)
        requires
            old(self).wf(),
            old(self).ids().len() == 0,
            cs@.len() <= MAX_CONSTRAINTS,
        ensures
            final(self).wf(),
            final(self).covers(cs@),
            final(self).ids().len() <= 2 * cs@.len(),
            final(self).ids() == ids_after(Seq::<Seq<char>>::empty(), cs@),
            final(self).ids().no_duplicates(),
            final(self).solution().len() == final(self).ids().len(),
            final(self).lists().len() == final(self).ids().len(),
            forall|v: int| 0 <= v < final(self).lists().len() ==> #[trigger] final(self).lists()[v].no_duplicates(),
            least_solution(cs@, final(self).ids(), final(self).solution()),
            only_address_taken(cs@, final(self).ids(), final(self).solution()),
            final(self).edges().no_duplicates(),
            forall|a: usize, b: usize|
                #[trigger] final(self).has_edge(a, b) <==> (copy_edge(cs@, final(self).ids(), a as int, b as int) || load_edge(
                    cs@,
                    final(self).ids(),
                    final(self).solution(),
                    a as int,
                    b as int,
                ) || store_edge(cs@, final(self).ids(), final(self).solution(), a as int, b as int)),
    {
        proof {
            assert(self.ids() =~= Seq::<Seq<char>>::empty());
            if self.edges().len() > 0 {
                assert(graph_edges(self.graph)[0].0 < self.names@.len());
            }
        }
        self.init_nodes(cs);
        let ghost g1 = *self;
        self.init_basic_ptrs(cs);
        let ghost g2 = *self;
        self.init_simple_edges(cs);
        proof {
            let n = self.ids().len();
            let m = cs@.len();
            assert(self.edges().len() <= m);
            assert(m + n * n < u32::MAX) by (nonlinear_arith)
                requires
                    n <= 2 * m,
                    m <= 30000,
            ;
            assert forall|v: int, o: usize| 0 <= v < self.solution().len() implies (#[trigger] self.solution()[v].contains(o)
                <==> addr_fact(cs@, self.ids(), v, o as int)) by {
                assert(!g1.solution()[v].contains(o));
            }
            assert forall|a: usize, b: usize| #[trigger] self.has_edge(a, b) implies copy_edge(cs@, self.ids(), a as int, b as int) by {
                assert(!g2.has_edge(a, b));
            }
        }
        self.solve_complex_edges(cs);
        proof {
            self.lemma_wf();
        }
    }
}

/// Solving is deterministic: two graphs that `solve` produced from the same
/// constraints have the same nodes in the same order, the same points-to sets
/// and the same edges.
pub proof fn lemma_solve_deterministic(cs: Seq<Constraint>, g1: ConstraintGraph, g2: ConstraintGraph)
    requires
        g1.wf(),
        g2.wf(),
        g1.ids() == ids_after(Seq::<Seq<char>>::empty(), cs),
        g2.ids() == ids_after(Seq::<Seq<char>>::empty(), cs),
        least_solution(cs, g1.ids(), g1.solution()),
        least_solution(cs, g2.ids(), g2.solution()),
        forall|a: usize, b: usize|
            #[trigger] g1.has_edge(a, b) <==> (copy_edge(cs, g1.ids(), a as int, b as int) || load_edge(cs, g1.ids(), g1.solution(), a as int, b as int)
                || store_edge(cs, g1.ids(), g1.solution(), a as int, b as int)),
        forall|a: usize, b: usize|
            #[trigger] g2.has_edge(a, b) <==> (copy_edge(cs, g2.ids(), a as int, b as int) || load_edge(cs, g2.ids(), g2.solution(), a as int, b as int)
                || store_edge(cs, g2.ids(), g2.solution(), a as int, b as int)),
    ensures
        g1.ids() == g2.ids(),
        g1.solution() == g2.solution(),
        forall|a: usize, b: usize| #[trigger] g1.has_edge(a, b) <==> g2.has_edge(a, b),
{
    assert(g1.solution().len() == g1.ids().len());
    assert(g2.solution().len() == g2.ids().len());
    crate::constraint::lemma_least_solution_unique(cs, g1.ids(), g1.solution(), g2.solution());
    assert forall|a: usize, b: usize| #[trigger] g1.has_edge(a, b) implies g2.has_edge(a, b) by {}
    assert forall|a: usize, b: usize| #[trigger] g2.has_edge(a, b) implies g1.has_edge(a, b) by {}
}

} // verus!
