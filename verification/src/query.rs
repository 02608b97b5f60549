//! The call-tree query: a bounded-depth tree unrolling of the edge store,
//! never memoized or deduplicated, so traversal of a cyclic graph still
//! terminates within the depth budget.

use vstd::prelude::*;
use vstd::string::StringExecFns;
use crate::graph::GraphNode;
use crate::graph::TreeShape;
use crate::graph::lemma_nodes_view_push;
use crate::graph::node_view;
use crate::graph::nodes_view;
use crate::graph::opt_node_view;
use crate::index::CodeIndex;
use crate::index::IndexModel;
use crate::index::edge_index;
use crate::index::lemma_edge_index_absent;
use crate::index::lemma_edge_index_at;
use crate::index::out_edges;
use crate::interner::intern_id;
use crate::interner::intern_names;

verus! {

broadcast use vstd::string::group_string_axioms;

/// The name shown for an id the symbol table cannot resolve.
pub open spec fn nil_name() -> Seq<char> {
    seq!['n', 'i', 'l']
}

/// The display name of `id`: its interned name, or the nil placeholder.
pub open spec fn resolve_name(m: IndexModel, id: u64) -> Seq<char> {
    if 1 <= id <= m.names.len() {
        m.names[id as int - 1]
    } else {
        nil_name()
    }
}

/// The query result for root `id` under budget `depth`: no result when the
/// budget is not positive; otherwise a node carrying the resolved name, the
/// full recorded out-degree, and one subtree per callee in insertion order,
/// each one level shallower, callees whose subtree has no result omitted.
pub open spec fn query_tree(m: IndexModel, id: u64, depth: int) -> Option<TreeShape>
    decreases depth, 0int, 0int,
{
    if depth <= 0 {
        None
    } else {
        Some(
            TreeShape {
                name: resolve_name(m, id),
                value: out_edges(m.edges, id).len() as int,
                children: children_trees(m, out_edges(m.edges, id), depth - 1),
            },
        )
    }
}

/// The child trees for the callees `outs`, each queried with budget `depth`.
pub open spec fn children_trees(m: IndexModel, outs: Seq<u64>, depth: int) -> Seq<TreeShape>
    decreases depth, 1int, outs.len(),
{
    if outs.len() == 0 {
        Seq::empty()
    } else {
        let rest = children_trees(m, outs.drop_last(), depth);
        match query_tree(m, outs.last(), depth) {
            Some(t) => rest.push(t),
            None => rest,
        }
    }
}

/// A query with a zero or negative depth budget has no result for any name,
/// even one with recorded out-edges.
pub proof fn lemma_query_zero_depth(m: IndexModel, id: u64, depth: int)
    requires
        depth <= 0,
    ensures
        query_tree(m, id, depth) is None,
{
}

/// At every positive depth the root node carries the target's full recorded
/// out-degree, however the budget truncates its children.
pub proof fn lemma_query_full_degree(m: IndexModel, id: u64, depth: int)
    requires
        depth >= 1,
    ensures
        query_tree(m, id, depth) matches Some(t) && t.value == out_edges(m.edges, id).len(),
{
}

impl CodeIndex {
    /// The adjacency row of `id`, if one was recorded.
    #[verifier::loop_isolation(false)]
    fn edges_of(&self, id: u64) -> (r: Option<&Vec<u64>>)
        ensures
            match r {
                Some(v) => edge_index(self@.edges, id) is Some && v@ == out_edges(
                    self@.edges,
                    id,
                ),
                None => edge_index(self@.edges, id) is None,
            },
    {
        let ghost es = self@.edges;
        proof {
            assert(es.len() == self.edges@.len());
        }
        let n = self.edges.len();
        let mut i: usize = 0;
        while i < n
            invariant
                i <= n,
                forall|j: int| 0 <= j < i ==> (#[trigger] es[j]).0 != id,
            decreases n - i,
        {
            proof {
                assert(es[i as int] == (self.edges@[i as int].caller,
                    self.edges@[i as int].callees@));
            }
            if self.edges[i].caller == id {
                proof {
                    lemma_edge_index_at(es, id, i as int);
                }
                return Some(&self.edges[i].callees);
            }
            i += 1;
        }
        proof {
            lemma_edge_index_absent(es, id);
        }
        None
    }

    /// The full recorded out-degree of `id`: one per call site, 0 when no
    /// edges were recorded.
    pub fn degree(&self, id: u64) -> (r: usize)
        ensures
            r as int == out_edges(self@.edges, id).len(),
    {
        match self.edges_of(id) {
            Some(v) => v.len(),
            None => 0,
        }
    }

    /// Runs a call-tree query by name. The name is interned as a side effect,
    /// so even an unseen name yields a childless zero-degree tree whenever the
    /// depth budget is positive.
    pub fn serde_tree(&mut self, funcname: &String, depth: i32) -> (r: Option<GraphNode>)
        ensures
            final(self)@ == (IndexModel {
                names: intern_names(old(self)@.names, funcname@),
                ..old(self)@
            }),
            opt_node_view(r) == query_tree(
                final(self)@,
                intern_id(old(self)@.names, funcname@) as u64,
                depth as int,
            ),
            old(self).wf() ==> final(self).wf(),
    {
        let id = self.intern(funcname);
        self._serde_tree_helper(id, depth)
    }

    /// Builds the tree for `id`: the resolved name, the full out-degree, and
    /// for each callee in insertion order the result one level shallower,
    /// omitting callees whose own result is empty.
    #[verifier::loop_isolation(false)]
    pub fn _serde_tree_helper(&self, id: u64, depth: i32) -> (r: Option<GraphNode>)
        ensures
            opt_node_view(r) == query_tree(self@, id, depth as int),
        decreases depth,
    {
        if depth <= 0 {
            return None;
        }
        let ghost outs = out_edges(self@.edges, id);
        let mut children: Vec<GraphNode> = Vec::new();
        let mut value: usize = 0;
        match self.edges_of(id) {
            Some(outv) => {
                value = outv.len();
                let n = outv.len();
                let mut i: usize = 0;
                proof {
                    assert(outs.take(0) =~= Seq::<u64>::empty());
                    assert(nodes_view(children@) =~= children_trees(
                        self@,
                        outs.take(0),
                        depth as int - 1,
                    ));
                }
                while i < n
                    invariant
                        i <= n,
                        n == outs.len(),
                        outv@ == outs,
                        nodes_view(children@) == children_trees(
                            self@,
                            outs.take(i as int),
                            depth as int - 1,
                        ),
                    decreases n - i,
                {
                    let ghost taken = outs.take(i as int + 1);
                    proof {
                        assert(taken.drop_last() =~= outs.take(i as int));
                        assert(taken.last() == outs[i as int]);
                    }
                    match self._serde_tree_helper(outv[i], depth - 1) {
                        Some(child) => {
                            proof {
                                lemma_nodes_view_push(children@, child);
                            }
                            children.push(child);
                        },
                        None => {},
                    }
                    i += 1;
                }
                proof {
                    assert(outs.take(n as int) =~= outs);
                }
            },
            None => {
                proof {
                    assert(outs =~= Seq::<u64>::empty());
                    assert(nodes_view(children@) =~= children_trees(
                        self@,
                        outs,
                        depth as int - 1,
                    ));
                }
            },
        }
        let name_string = match self.id_gen.name(id) {
            Some(s) => s.clone(),
            None => String::from_str("nil"),
        };
        proof {
            reveal_strlit("nil");
            assert("nil"@ =~= nil_name());
            assert(name_string@ == resolve_name(self@, id));
        }
        let node = GraphNode { name: name_string, children, value };
        proof {
            assert(node_view(node) =~~= query_tree(self@, id, depth as int)->Some_0);
        }
        Some(node)
    }
}

} // verus!
