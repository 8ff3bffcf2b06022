use vstd::prelude::*;

verus! {

/// The four shapes of pointer assignment.
#[derive(Clone, Copy, Debug, PartialEq, Eq, Structural)]
pub enum ConstraintKind {
    /// `left = &right`
    Addr,
    /// `left = right`
    Equal,
    /// `left = *right`
    DerefRight,
    /// `*left = right`
    DerefLeft,
}

/// One parsed assignment statement.
#[derive(Debug)]
pub struct Constraint {
    pub left: String,
    pub right: String,
    pub kind: ConstraintKind,
}

/// Node `i` of `ids` carries the identifier `x`.
pub open spec fn names(ids: Seq<Seq<char>>, i: int, x: Seq<char>) -> bool {
    0 <= i < ids.len() && ids[i] == x
}

/// The rule of one constraint, on a candidate solution `s` that gives each node
/// its points-to set, where `i` names the constraint's left identifier and `j`
/// its right one.
pub open spec fn rule_holds(kind: ConstraintKind, i: int, j: int, s: Seq<Set<usize>>) -> bool {
    match kind {
        ConstraintKind::Addr => s[i].contains(j as usize),
        ConstraintKind::Equal => s[j].subset_of(s[i]),
        ConstraintKind::DerefRight => forall|o: usize|
            #![trigger s[o as int]]
            s[j].contains(o) && o < s.len() ==> s[o as int].subset_of(s[i]),
        ConstraintKind::DerefLeft => forall|o: usize|
            #![trigger s[o as int]]
            s[i].contains(o) && o < s.len() ==> s[j].subset_of(s[o as int]),
    }
}

/// `s` is closed under every constraint of `cs`: it is a fixpoint of the
/// inclusion rules.
pub open spec fn closed_under(cs: Seq<Constraint>, ids: Seq<Seq<char>>, s: Seq<Set<usize>>) -> bool {
    forall|k: int, i: int, j: int|
        #![trigger cs[k], ids[i], ids[j]]
        0 <= k < cs.len() && names(ids, i, cs[k].left@) && names(ids, j, cs[k].right@)
            ==> rule_holds(cs[k].kind, i, j, s)
}

/// Node `o` is address-taken: it is the right operand of some `Addr` constraint.
pub open spec fn address_taken(cs: Seq<Constraint>, ids: Seq<Seq<char>>, o: int) -> bool {
    exists|k: int|
        #![trigger cs[k]]
        0 <= k < cs.len() && cs[k].kind == ConstraintKind::Addr && names(ids, o, cs[k].right@)
}

/// Every element of every points-to set of `s` is address-taken.
pub open spec fn only_address_taken(cs: Seq<Constraint>, ids: Seq<Seq<char>>, s: Seq<Set<usize>>) -> bool {
    forall|v: int, o: usize|
        #![trigger s[v].contains(o)]
        0 <= v < s.len() && s[v].contains(o) ==> address_taken(cs, ids, o as int)
}

/// `s` lies below `t`, node by node.
pub open spec fn below(s: Seq<Set<usize>>, t: Seq<Set<usize>>) -> bool {
    s.len() == t.len() && forall|v: int| #![trigger s[v]] 0 <= v < s.len() ==> s[v].subset_of(t[v])
}


/// `s` is the least solution of `cs`: closed under every constraint, and below
/// every other closed assignment of points-to sets to the same nodes.
pub open spec fn least_solution(cs: Seq<Constraint>, ids: Seq<Seq<char>>, s: Seq<Set<usize>>) -> bool {
    &&& closed_under(cs, ids, s)
    &&& forall|t: Seq<Set<usize>>| #![trigger closed_under(cs, ids, t)] t.len() == s.len() && closed_under(cs, ids, t) ==> below(s, t)
}

/// `ids` with `x` added at the end, unless it is already there.
pub open spec fn with_id(ids: Seq<Seq<char>>, x: Seq<char>) -> Seq<Seq<char>> {
    if ids.contains(x) {
        ids
    } else {
        ids.push(x)
    }
}

/// The node identifiers after registering, constraint by constraint, the left
/// and then the right identifier of each.
pub open spec fn ids_after(ids: Seq<Seq<char>>, cs: Seq<Constraint>) -> Seq<Seq<char>>
    decreases cs.len(),
{
    if cs.len() == 0 {
        ids
    } else {
        with_id(with_id(ids_after(ids, cs.drop_last()), cs.last().left@), cs.last().right@)
    }
}

/// There is only one least solution: two least solutions of the same
/// constraints over the same nodes are equal.
pub proof fn lemma_least_solution_unique(cs: Seq<Constraint>, ids: Seq<Seq<char>>, s: Seq<Set<usize>>, t: Seq<Set<usize>>)
    requires
        least_solution(cs, ids, s),
        least_solution(cs, ids, t),
        s.len() == t.len(),
    ensures
        s == t,
{
    assert(below(s, t));
    assert(below(t, s));
    assert forall|v: int| 0 <= v < s.len() implies s[v] == t[v] by {
        assert(s[v].subset_of(t[v]));
        assert(t[v].subset_of(s[v]));
        assert(s[v] =~= t[v]);
    }
    assert(s =~= t);
}

} // verus!
