//! The value object a call-tree query produces: a tree unrolling of the call
//! graph, cut off at the requested depth.

use vstd::prelude::*;

verus! {

broadcast use vstd::std_specs::vec::axiom_vec_decreases_to_view;

/// One node of a query result: the resolved symbol name, the symbol's full
/// recorded out-degree (independent of depth truncation), and the children
/// the depth budget allowed.
pub struct GraphNode {
    pub name: String,
    pub children: Vec<GraphNode>,
    pub value: usize,
}

/// The mathematical shape of a query result node.
#[verifier::ext_equal]
pub ghost struct TreeShape {
    pub name: Seq<char>,
    pub value: int,
    pub children: Seq<TreeShape>,
}

/// The view of a result node, children included.
pub open spec fn node_view(n: GraphNode) -> TreeShape
    decreases n,
{
    TreeShape { name: n.name@, value: n.value as int, children: nodes_view(n.children@) }
}

/// The views of a sequence of result nodes, in order.
pub open spec fn nodes_view(s: Seq<GraphNode>) -> Seq<TreeShape>
    decreases s,
{
    if s.len() == 0 {
        Seq::empty()
    } else {
        nodes_view(s.drop_last()).push(node_view(s.last()))
    }
}

/// The view of an optional result node.
pub open spec fn opt_node_view(r: Option<GraphNode>) -> Option<TreeShape> {
    match r {
        Some(n) => Some(node_view(n)),
        None => None,
    }
}

/// Views distribute over appending one node.
pub proof fn lemma_nodes_view_push(s: Seq<GraphNode>, n: GraphNode)
    ensures
        nodes_view(s.push(n)) == nodes_view(s).push(node_view(n)),
{
    assert(s.push(n).drop_last() =~= s);
    assert(s.push(n).last() == n);
}

} // verus!
