//! The delegate parser's tree, as plain values: kind tags, field labels,
//! character-offset spans, and children in document order. The walk that
//! collects nodes of one kind works off an explicit stack, so candidates
//! arrive in a fixed, reproducible order.

use vstd::prelude::*;
use crate::text::opt_view;
use crate::text::str_eq;
use crate::text::substr;
use crate::text::substr_spec;

verus! {

broadcast use vstd::std_specs::vec::axiom_vec_decreases_to_view;

/// One node of a parsed file's tree. `field` is the label the node carries
/// under its parent; `start` and `end` are character offsets into the file's
/// source text.
pub struct SyntaxNode {
    pub kind: String,
    pub field: Option<String>,
    pub start: usize,
    pub end: usize,
    pub children: Vec<SyntaxNode>,
}

/// The number of nodes in the subtree rooted at `n`.
pub open spec fn node_size(n: SyntaxNode) -> nat
    decreases n,
{
    1 + forest_size(n.children@)
}

/// The number of nodes in a forest.
pub open spec fn forest_size(s: Seq<SyntaxNode>) -> nat
    decreases s,
{
    if s.len() == 0 {
        0
    } else {
        forest_size(s.drop_last()) + node_size(s.last())
    }
}

/// Sizes add up over concatenation.
pub proof fn lemma_forest_size_concat(a: Seq<SyntaxNode>, b: Seq<SyntaxNode>)
    ensures
        forest_size(a + b) == forest_size(a) + forest_size(b),
    decreases b.len(),
{
    if b.len() == 0 {
        assert(a + b =~= a);
    } else {
        assert((a + b).drop_last() =~= a + b.drop_last());
        assert((a + b).last() == b.last());
        lemma_forest_size_concat(a, b.drop_last());
    }
}

/// The children that satisfy `p`, in document order.
pub open spec fn matching(s: Seq<SyntaxNode>, p: spec_fn(SyntaxNode) -> bool) -> Seq<SyntaxNode>
    decreases s.len(),
{
    if s.len() == 0 {
        Seq::empty()
    } else {
        let rest = matching(s.drop_last(), p);
        if p(s.last()) {
            rest.push(s.last())
        } else {
            rest
        }
    }
}

/// The test for one node kind.
pub open spec fn kind_is(kind: Seq<char>) -> spec_fn(SyntaxNode) -> bool {
    |c: SyntaxNode| c.kind@ == kind
}

/// The nodes a stack-driven walk collects below the queued nodes: the last
/// queue entry is popped, its matching children are appended in document
/// order, and all its children are queued. A queued node itself is never a
/// candidate.
pub open spec fn collect_rec(queue: Seq<SyntaxNode>, p: spec_fn(SyntaxNode) -> bool) -> Seq<
    SyntaxNode,
>
    decreases forest_size(queue),
    via collect_rec_decreases
{
    if queue.len() == 0 {
        Seq::empty()
    } else {
        let node = queue.last();
        matching(node.children@, p) + collect_rec(queue.drop_last() + node.children@, p)
    }
}

#[via_fn]
proof fn collect_rec_decreases(queue: Seq<SyntaxNode>, p: spec_fn(SyntaxNode) -> bool) {
    if queue.len() > 0 {
        let node = queue.last();
        lemma_forest_size_concat(queue.drop_last(), node.children@);
        assert(forest_size(queue) == forest_size(queue.drop_last()) + node_size(node));
        assert(node_size(node) == 1 + forest_size(node.children@));
    }
}

/// The owned view of a sequence of borrowed nodes.
pub open spec fn deref_nodes(s: Seq<&SyntaxNode>) -> Seq<SyntaxNode> {
    s.map_values(|n: &SyntaxNode| *n)
}

/// Collects, in walk order, every node strictly below `node` whose kind
/// equals `kind`.
#[verifier::loop_isolation(false)]
pub fn walk_collect<'a>(node: &'a SyntaxNode, kind: &str) -> (r: Vec<&'a SyntaxNode>)
    ensures
        deref_nodes(r@) == collect_rec(seq![*node], kind_is(kind@)),
{
    let ghost p = kind_is(kind@);
    let mut result: Vec<&'a SyntaxNode> = Vec::new();
    let mut queue: Vec<&'a SyntaxNode> = Vec::new();
    queue.push(node);
    proof {
        assert(deref_nodes(queue@) =~= seq![*node]);
        assert(deref_nodes(result@) =~= Seq::<SyntaxNode>::empty());
        assert(deref_nodes(result@) + collect_rec(deref_nodes(queue@), p) =~= collect_rec(
            seq![*node],
            p,
        ));
    }
    while queue.len() > 0
        invariant
            collect_rec(seq![*node], p) == deref_nodes(result@) + collect_rec(
                deref_nodes(queue@),
                p,
            ),
        decreases forest_size(deref_nodes(queue@)),
    {
        let ghost q_before = deref_nodes(queue@);
        let cur: &'a SyntaxNode = match queue.pop() {
            Some(c) => c,
            None => {
                return result;
            },
        };
        let ghost q1 = deref_nodes(queue@);
        let ghost r0 = deref_nodes(result@);
        proof {
            assert(q1 =~= q_before.drop_last());
            assert(q_before.last() == *cur);
            lemma_forest_size_concat(q1, cur.children@);
        }
        let m = cur.children.len();
        let mut j: usize = 0;
        while j < m
            invariant
                j <= m,
                m == cur.children@.len(),
                deref_nodes(result@) == r0 + matching(cur.children@.take(j as int), p),
                deref_nodes(queue@) == q1 + cur.children@.take(j as int),
            decreases m - j,
        {
            let child: &'a SyntaxNode = &cur.children[j];
            let ghost cj = cur.children@[j as int];
            let ghost taken = cur.children@.take(j as int + 1);
            let ghost r_here = deref_nodes(result@);
            let ghost q_here = deref_nodes(queue@);
            proof {
                assert(*child == cj);
                assert(taken.len() == j as int + 1);
                assert(taken.drop_last() =~= cur.children@.take(j as int));
                assert(taken.last() == cj);
            }
            if str_eq(child.kind.as_str(), kind) {
                proof {
                    assert(p(cj));
                    assert(matching(taken, p) == matching(cur.children@.take(j as int), p).push(cj));
                }
                result.push(child);
                proof {
                    assert(deref_nodes(result@) =~= r_here.push(cj));
                    assert(deref_nodes(result@) =~= r0 + matching(taken, p));
                }
            } else {
                proof {
                    assert(!p(cj));
                    assert(matching(taken, p) == matching(cur.children@.take(j as int), p));
                }
            }
            queue.push(child);
            proof {
                assert(deref_nodes(queue@) =~= q_here.push(cj));
                assert(deref_nodes(queue@) =~= q1 + taken);
            }
            j += 1;
        }
        proof {
            assert(cur.children@.take(m as int) =~= cur.children@);
            assert(deref_nodes(queue@) =~= q1 + cur.children@);
            assert(deref_nodes(result@) + collect_rec(deref_nodes(queue@), p) =~= r0
                + collect_rec(q_before, p));
            assert(forest_size(q_before) == forest_size(q1) + node_size(*cur));
            assert(node_size(*cur) == 1 + forest_size(cur.children@));
            assert(forest_size(deref_nodes(queue@)) == forest_size(q1) + forest_size(
                cur.children@,
            ));
            assert(forest_size(deref_nodes(queue@)) < forest_size(q_before));
        }
    }
    proof {
        assert(collect_rec(deref_nodes(queue@), p) =~= Seq::<SyntaxNode>::empty());
        assert(deref_nodes(result@) =~= collect_rec(seq![*node], p));
    }
    result
}

/// The test for either of two node kinds.
pub open spec fn kind_either(a: Seq<char>, b: Seq<char>) -> spec_fn(SyntaxNode) -> bool {
    |c: SyntaxNode| c.kind@ == a || c.kind@ == b
}

/// Collects, in walk order, every node strictly below `node` whose kind
/// equals `kind_a` or `kind_b`.
#[verifier::loop_isolation(false)]
pub fn walk_collect_two<'a>(node: &'a SyntaxNode, kind_a: &str, kind_b: &str) -> (r: Vec<
    &'a SyntaxNode,
>)
    ensures
        deref_nodes(r@) == collect_rec(seq![*node], kind_either(kind_a@, kind_b@)),
{
    let ghost p = kind_either(kind_a@, kind_b@);
    let mut result: Vec<&'a SyntaxNode> = Vec::new();
    let mut queue: Vec<&'a SyntaxNode> = Vec::new();
    queue.push(node);
    proof {
        assert(deref_nodes(queue@) =~= seq![*node]);
        assert(deref_nodes(result@) =~= Seq::<SyntaxNode>::empty());
        assert(deref_nodes(result@) + collect_rec(deref_nodes(queue@), p) =~= collect_rec(
            seq![*node],
            p,
        ));
    }
    while queue.len() > 0
        invariant
            collect_rec(seq![*node], p) == deref_nodes(result@) + collect_rec(
                deref_nodes(queue@),
                p,
            ),
        decreases forest_size(deref_nodes(queue@)),
    {
        let ghost q_before = deref_nodes(queue@);
        let cur: &'a SyntaxNode = match queue.pop() {
            Some(c) => c,
            None => {
                return result;
            },
        };
        let ghost q1 = deref_nodes(queue@);
        let ghost r0 = deref_nodes(result@);
        proof {
            assert(q1 =~= q_before.drop_last());
            assert(q_before.last() == *cur);
            lemma_forest_size_concat(q1, cur.children@);
        }
        let m = cur.children.len();
        let mut j: usize = 0;
        while j < m
            invariant
                j <= m,
                m == cur.children@.len(),
                deref_nodes(result@) == r0 + matching(cur.children@.take(j as int), p),
                deref_nodes(queue@) == q1 + cur.children@.take(j as int),
            decreases m - j,
        {
            let child: &'a SyntaxNode = &cur.children[j];
            let ghost cj = cur.children@[j as int];
            let ghost taken = cur.children@.take(j as int + 1);
            let ghost r_here = deref_nodes(result@);
            let ghost q_here = deref_nodes(queue@);
            proof {
                assert(*child == cj);
                assert(taken.len() == j as int + 1);
                assert(taken.drop_last() =~= cur.children@.take(j as int));
                assert(taken.last() == cj);
            }
            if str_eq(child.kind.as_str(), kind_a) || str_eq(child.kind.as_str(), kind_b) {
                proof {
                    assert(p(cj));
                    assert(matching(taken, p) == matching(cur.children@.take(j as int), p).push(
                        cj,
                    ));
                }
                result.push(child);
                proof {
                    assert(deref_nodes(result@) =~= r_here.push(cj));
                    assert(deref_nodes(result@) =~= r0 + matching(taken, p));
                }
            } else {
                proof {
                    assert(!p(cj));
                    assert(matching(taken, p) == matching(cur.children@.take(j as int), p));
                }
            }
            queue.push(child);
            proof {
                assert(deref_nodes(queue@) =~= q_here.push(cj));
                assert(deref_nodes(queue@) =~= q1 + taken);
            }
            j += 1;
        }
        proof {
            assert(cur.children@.take(m as int) =~= cur.children@);
            assert(deref_nodes(queue@) =~= q1 + cur.children@);
            assert(deref_nodes(result@) + collect_rec(deref_nodes(queue@), p) =~= r0
                + collect_rec(q_before, p));
            assert(forest_size(q_before) == forest_size(q1) + node_size(*cur));
            assert(node_size(*cur) == 1 + forest_size(cur.children@));
            assert(forest_size(deref_nodes(queue@)) == forest_size(q1) + forest_size(
                cur.children@,
            ));
            assert(forest_size(deref_nodes(queue@)) < forest_size(q_before));
        }
    }
    proof {
        assert(collect_rec(deref_nodes(queue@), p) =~= Seq::<SyntaxNode>::empty());
        assert(deref_nodes(result@) =~= collect_rec(seq![*node], p));
    }
    result
}

/// Whether `c` carries the field label `field` under its parent.
pub open spec fn has_field(c: SyntaxNode, field: Seq<char>) -> bool {
    c.field matches Some(f) && f@ == field
}

/// The first child carrying the field label `field`, if any.
pub open spec fn child_by_field(children: Seq<SyntaxNode>, field: Seq<char>) -> Option<SyntaxNode>
    decreases children.len(),
{
    if children.len() == 0 {
        None
    } else if has_field(children[0], field) {
        Some(children[0])
    } else {
        child_by_field(children.drop_first(), field)
    }
}

/// `child_by_field` finds a child exactly where the pointwise facts put it.
pub proof fn lemma_child_by_field_at(children: Seq<SyntaxNode>, field: Seq<char>, i: int)
    requires
        0 <= i < children.len(),
        has_field(children[i], field),
        forall|j: int| 0 <= j < i ==> !has_field(#[trigger] children[j], field),
    ensures
        child_by_field(children, field) == Some(children[i]),
    decreases children.len(),
{
    if i > 0 {
        lemma_child_by_field_at(children.drop_first(), field, i - 1);
    }
}

/// `child_by_field` reports absence exactly when no child matches.
pub proof fn lemma_child_by_field_absent(children: Seq<SyntaxNode>, field: Seq<char>)
    requires
        forall|j: int| 0 <= j < children.len() ==> !has_field(#[trigger] children[j], field),
    ensures
        child_by_field(children, field) is None,
    decreases children.len(),
{
    if children.len() > 0 {
        lemma_child_by_field_absent(children.drop_first(), field);
    }
}

/// The source text of `node`'s child under `field`: the slice of `content` at
/// the child's span, or nothing when the field is absent or the span does not
/// fit the text.
pub open spec fn field_text(node: SyntaxNode, field: Seq<char>, content: Seq<char>) -> Option<
    Seq<char>,
> {
    match child_by_field(node.children@, field) {
        Some(c) => substr_spec(content, c.start as int, c.end as int),
        None => None,
    }
}

/// Finds `node`'s first child carrying the field label `field`.
#[verifier::loop_isolation(false)]
pub fn child_by_field_name<'a>(node: &'a SyntaxNode, field: &str) -> (r: Option<&'a SyntaxNode>)
    ensures
        match r {
            Some(c) => child_by_field(node.children@, field@) == Some(*c),
            None => child_by_field(node.children@, field@) is None,
        },
{
    let n = node.children.len();
    let mut i: usize = 0;
    while i < n
        invariant
            i <= n,
            forall|j: int| 0 <= j < i ==> !has_field(#[trigger] node.children@[j], field@),
        decreases n - i,
    {
        let matched: bool = match &node.children[i].field {
            Some(f) => str_eq(f.as_str(), field),
            None => false,
        };
        if matched {
            proof {
                lemma_child_by_field_at(node.children@, field@, i as int);
            }
            return Some(&node.children[i]);
        }
        i += 1;
    }
    proof {
        lemma_child_by_field_absent(node.children@, field@);
    }
    None
}

/// Extracts the literal source text of `node`'s child under `field`. A
/// missing field or an out-of-range span yields `None`, never a panic.
pub fn str_by_field_name(node: &SyntaxNode, field: &str, content: &str) -> (r: Option<String>)
    ensures
        opt_view(r) == field_text(*node, field@, content@),
{
    match child_by_field_name(node, field) {
        Some(c) => substr(content, c.start, c.end),
        None => None,
    }
}

} // verus!
