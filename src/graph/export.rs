//! The solved graph as a DOT document: a declaration per node, labelled with
//! its identifier and points-to set, and a line per inclusion edge.
use super::ConstraintGraph;
use crate::edges::{graph_edge_list, graph_edges};
use vstd::prelude::*;

verus! {

/// The identifiers of the handles in `l`, joined by commas.
pub open spec fn join_ids(ids: Seq<Seq<char>>, l: Seq<usize>) -> Seq<char>
    decreases l.len(),
{
    if l.len() == 0 {
        Seq::empty()
    } else if l.len() == 1 {
        ids[l[0] as int]
    } else {
        join_ids(ids, l.drop_last()) + ","@ + ids[l.last() as int]
    }
}

/// The declaration of node `v`, labelled with its identifier and the listed
/// points-to set `l`.
pub open spec fn node_line(ids: Seq<Seq<char>>, v: int, l: Seq<usize>) -> Seq<char> {
    "  "@ + ids[v] + " [label=\""@ + ids[v] + "\\n{"@ + join_ids(ids, l) + "}\"]\n"@
}

/// The declarations of the first `k` nodes.
pub open spec fn node_lines(ids: Seq<Seq<char>>, lists: Seq<Seq<usize>>, k: int) -> Seq<char>
    decreases k,
{
    if k <= 0 {
        Seq::empty()
    } else {
        node_lines(ids, lists, k - 1) + node_line(ids, k - 1, lists[k - 1])
    }
}

/// The lines of the first `k` edges.
pub open spec fn edge_lines(ids: Seq<Seq<char>>, es: Seq<(usize, usize)>, k: int) -> Seq<char>
    decreases k,
{
    if k <= 0 {
        Seq::empty()
    } else {
        edge_lines(ids, es, k - 1) + "  "@ + ids[es[k - 1].0 as int] + " -> "@ + ids[es[k - 1].1 as int] + "\n"@
    }
}

/// The graph as a DOT document: one declaration per node, then one line per
/// edge, between a header and a footer.
pub open spec fn dot_document(ids: Seq<Seq<char>>, lists: Seq<Seq<usize>>, es: Seq<(usize, usize)>) -> Seq<char> {
    "digraph {\n"@ + node_lines(ids, lists, ids.len() as int) + edge_lines(ids, es, es.len() as int) + "}\n"@
}

impl ConstraintGraph {
    /// Renders the graph as a DOT document.
    pub fn export_dot(&self) -> (r: String)
        requires
            self.wf(),
        ensures
            r@ == dot_document(self.ids(), self.lists(), self.edges()),
            forall|v: int| 0 <= v < self.lists().len() ==> #[trigger] self.lists()[v].no_duplicates(),
    {
        proof {
            self.lemma_wf();
        }
        let ids = Ghost(self.ids());
        let mut out = String::new();
        out.append("digraph {\n");
        let mut v: usize = 0;
        while v < self.names.len()
            invariant
                self.wf(),
                ids@ == self.ids(),
                v <= self.names@.len(),
                out@ == "digraph {\n"@ + node_lines(ids@, self.lists(), v as int),
            decreases self.names@.len() - v,
        {
            let ghost before = out@;
            let name = self.names[v].as_str();
            out.append("  ");
            out.append(name);
            out.append(" [label=\"");
            out.append(name);
            out.append("\\n{");
            let ghost mid = out@;
            let row = &self.pts[v];
            let mut k: usize = 0;
            while k < row.len()
                invariant
                    self.wf(),
                    ids@ == self.ids(),
                    v < self.names@.len(),
                    row@ == self.pts@[v as int]@,
                    k <= row@.len(),
                    out@ == mid + join_ids(ids@, row@.take(k as int)),
                decreases row@.len() - k,
            {
                assert(row@[k as int] < self.names@.len());
                if k > 0 {
                    out.append(",");
                }
                out.append(self.names[row[k]].as_str());
                proof {
                    let t = row@.take(k + 1);
                    assert(t.drop_last() =~= row@.take(k as int));
                    if k == 0 {
                        assert(row@.take(k as int) =~= Seq::<usize>::empty());
                        assert(join_ids(ids@, row@.take(k as int)) =~= Seq::<char>::empty());
                    }
                }
                k += 1;
            }
            out.append("}\"]\n");
            proof {
                assert(row@.take(row@.len() as int) =~= row@);
                assert(self.lists()[v as int] == row@);
                assert(node_lines(ids@, self.lists(), v + 1) == node_lines(ids@, self.lists(), v as int) + node_line(
                    ids@,
                    v as int,
                    row@,
                ));
                assert(out@ =~= "digraph {\n"@ + node_lines(ids@, self.lists(), v + 1));
            }
            v += 1;
        }
        let es = graph_edge_list(&self.graph);
        let ghost head = out@;
        let mut e: usize = 0;
        while e < es.len()
            invariant
                self.wf(),
                ids@ == self.ids(),
                es@ == self.edges(),
                e <= es@.len(),
                out@ == head + edge_lines(ids@, es@, e as int),
            decreases es@.len() - e,
        {
            let (a, b) = es[e];
            assert(graph_edges(self.graph)[e as int].0 < self.names@.len());
            out.append("  ");
            out.append(self.names[a].as_str());
            out.append(" -> ");
            out.append(self.names[b].as_str());
            out.append("\n");
            assert(out@ =~= head + edge_lines(ids@, es@, e + 1));
            e += 1;
        }
        out.append("}\n");
        assert(out@ =~= dot_document(self.ids(), self.lists(), self.edges()));
        out
    }
}

/// The DOT document is a function of the graph alone: exporting the same graph
/// twice gives the same text.
pub proof fn lemma_export_repeatable(g: ConstraintGraph, first: Seq<char>, second: Seq<char>)
    requires
        first == dot_document(g.ids(), g.lists(), g.edges()),
        second == dot_document(g.ids(), g.lists(), g.edges()),
    ensures
        first == second,
{
}

} // verus!
