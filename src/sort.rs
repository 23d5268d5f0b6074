//! Moving unfinished tasks ahead of everything else in every list.
use vstd::prelude::*;
use crate::model::{
    is_pending, is_unfinished_task, lemma_nodes_view_concat,
    lemma_nodes_view_push, nodes_view, task_state_of, Node, NodeModel, Tag, TaskState,
};

verus! {

/// The unfinished tasks of `s`, in their order.
pub open spec fn pending(s: Seq<NodeModel>) -> Seq<NodeModel>
    decreases s.len(),
{
    if s.len() == 0 {
        Seq::empty()
    } else if is_pending(s.last()) {
        pending(s.drop_last()).push(s.last())
    } else {
        pending(s.drop_last())
    }
}

/// Everything in `s` that is not an unfinished task, in its order.
pub open spec fn settled(s: Seq<NodeModel>) -> Seq<NodeModel>
    decreases s.len(),
{
    if s.len() == 0 {
        Seq::empty()
    } else if !is_pending(s.last()) {
        settled(s.drop_last()).push(s.last())
    } else {
        settled(s.drop_last())
    }
}

/// The stable partition of `s`: unfinished tasks first.
pub open spec fn partitioned(s: Seq<NodeModel>) -> Seq<NodeModel> {
    pending(s) + settled(s)
}

/// A node with every list below it sorted, and its own children too if it is a list.
pub open spec fn sorted_node(n: NodeModel) -> NodeModel
    decreases n,
{
    match n {
        NodeModel::Branch { tag, children } => {
            let c = sorted_seq(children);
            NodeModel::Branch { tag, children: if tag is List { partitioned(c) } else { c } }
        },
        _ => n,
    }
}

/// Each node of `s` sorted, in place.
pub open spec fn sorted_seq(s: Seq<NodeModel>) -> Seq<NodeModel>
    decreases s,
{
    if s.len() == 0 {
        Seq::empty()
    } else {
        sorted_seq(s.drop_last()).push(sorted_node(s.last()))
    }
}

/// Sorts the children of every list in the document, at any depth, so that
/// unfinished tasks come first; each group keeps its order.
pub fn sort_tasks(doc: &mut Vec<Node>)
    ensures
        nodes_view(final(doc)@) == sorted_seq(nodes_view(old(doc)@)),
{
    let mut d: Vec<Node> = Vec::new();
    std::mem::swap(doc, &mut d);
    *doc = sort_nodes(d);
}

fn sort_node(n: Node) -> (r: Node)
    ensures
        r@ == sorted_node(n@),
    decreases n,
{
    match n {
        Node::Node { tag, children } => {
            let c = sort_nodes(children);
            let is_list = match &tag {
                Tag::List(_) => true,
                _ => false,
            };
            if is_list {
                let p = partition_tasks(c);
                Node::Node { tag, children: p }
            } else {
                Node::Node { tag, children: c }
            }
        },
        other => other,
    }
}

fn sort_nodes(v: Vec<Node>) -> (r: Vec<Node>)
    ensures
        nodes_view(r@) == sorted_seq(nodes_view(v@)),
    decreases v,
{
    let ghost orig = v@;
    let mut rest = v;
    let mut out: Vec<Node> = Vec::new();
    let n = rest.len();
    let mut i: usize = 0;
    while i < n
        invariant
            n == orig.len(),
            i <= n,
            rest@ == orig.subrange(i as int, n as int),
            nodes_view(out@) == sorted_seq(nodes_view(orig.subrange(0, i as int))),
            decreases_to!(v => orig),
        decreases n - i,
    {
        let x = rest.remove(0);
        proof {
            assert(x == orig[i as int]);
            assert(decreases_to!(orig => orig[i as int]));
        }
        let y = sort_node(x);
        proof {
            lemma_nodes_view_push(out@, y);
            let pre = orig.subrange(0, i as int);
            assert(orig.subrange(0, i + 1) =~= pre.push(x));
            lemma_nodes_view_push(pre, x);
            assert(nodes_view(pre).push(x@).drop_last() =~= nodes_view(pre));
        }
        out.push(y);
        i = i + 1;
    }
    proof {
        assert(orig.subrange(0, n as int) =~= orig);
    }
    out
}

fn partition_tasks(v: Vec<Node>) -> (r: Vec<Node>)
    ensures
        nodes_view(r@) == partitioned(nodes_view(v@)),
{
    let ghost orig = v@;
    let mut rest = v;
    let mut a: Vec<Node> = Vec::new();
    let mut b: Vec<Node> = Vec::new();
    let n = rest.len();
    let mut i: usize = 0;
    while i < n
        invariant
            n == orig.len(),
            i <= n,
            rest@ == orig.subrange(i as int, n as int),
            nodes_view(a@) == pending(nodes_view(orig.subrange(0, i as int))),
            nodes_view(b@) == settled(nodes_view(orig.subrange(0, i as int))),
        decreases n - i,
    {
        let x = rest.remove(0);
        let st = is_unfinished_task(&x);
        proof {
            let pre = orig.subrange(0, i as int);
            assert(orig.subrange(0, i + 1) =~= pre.push(x));
            lemma_nodes_view_push(pre, x);
            assert(nodes_view(pre).push(x@).drop_last() =~= nodes_view(pre));
            lemma_nodes_view_push(a@, x);
            lemma_nodes_view_push(b@, x);
        }
        if st == TaskState::Unfinished {
            a.push(x);
        } else {
            b.push(x);
        }
        i = i + 1;
    }
    proof {
        assert(orig.subrange(0, n as int) =~= orig);
        lemma_nodes_view_concat(a@, b@);
    }
    a.append(&mut b);
    a
}

pub proof fn lemma_sorted_seq_index(s: Seq<NodeModel>)
    ensures
        sorted_seq(s).len() == s.len(),
        forall|i: int| 0 <= i < s.len() ==> #[trigger] sorted_seq(s)[i] == sorted_node(s[i]),
    decreases s.len(),
{
    if s.len() > 0 {
        lemma_sorted_seq_index(s.drop_last());
    }
}

proof fn lemma_sorted_seq_push(s: Seq<NodeModel>, n: NodeModel)
    ensures
        sorted_seq(s.push(n)) == sorted_seq(s).push(sorted_node(n)),
{
    assert(s.push(n).drop_last() =~= s);
}

proof fn lemma_sorted_seq_concat(a: Seq<NodeModel>, b: Seq<NodeModel>)
    ensures
        sorted_seq(a + b) == sorted_seq(a) + sorted_seq(b),
{
    lemma_sorted_seq_index(a);
    lemma_sorted_seq_index(b);
    lemma_sorted_seq_index(a + b);
    assert(sorted_seq(a + b) =~= sorted_seq(a) + sorted_seq(b));
}

/// Sorting a node leaves its checklist state as it was.
pub proof fn lemma_sorted_state(n: NodeModel)
    ensures
        task_state_of(sorted_node(n)) == task_state_of(n),
{
    match n {
        NodeModel::Branch { tag, children } => {
            lemma_sorted_seq_index(children);
            if children.len() > 0 {
                assert(sorted_seq(children)[0] == sorted_node(children[0]));
            }
        },
        _ => {},
    }
}

proof fn lemma_groups_push(s: Seq<NodeModel>, n: NodeModel)
    ensures
        pending(s.push(n)) == (if is_pending(n) {
            pending(s).push(n)
        } else {
            pending(s)
        }),
        settled(s.push(n)) == (if is_pending(n) {
            settled(s)
        } else {
            settled(s).push(n)
        }),
{
    assert(s.push(n).drop_last() =~= s);
}

proof fn lemma_groups_commute(c: Seq<NodeModel>)
    ensures
        sorted_seq(pending(c)) == pending(sorted_seq(c)),
        sorted_seq(settled(c)) == settled(sorted_seq(c)),
    decreases c.len(),
{
    if c.len() > 0 {
        let x = c.last();
        let c0 = c.drop_last();
        lemma_groups_commute(c0);
        lemma_sorted_state(x);
        assert(c0.push(x) =~= c);
        lemma_sorted_seq_push(c0, x);
        lemma_groups_push(c0, x);
        lemma_groups_push(sorted_seq(c0), sorted_node(x));
        lemma_sorted_seq_push(pending(c0), x);
        lemma_sorted_seq_push(settled(c0), x);
    }
}

proof fn lemma_groups_concat(a: Seq<NodeModel>, b: Seq<NodeModel>)
    ensures
        pending(a + b) == pending(a) + pending(b),
        settled(a + b) == settled(a) + settled(b),
    decreases b.len(),
{
    if b.len() == 0 {
        assert(a + b =~= a);
        assert(pending(a) + pending(b) =~= pending(a));
        assert(settled(a) + settled(b) =~= settled(a));
    } else {
        let b0 = b.drop_last();
        let x = b.last();
        lemma_groups_concat(a, b0);
        assert(a + b =~= (a + b0).push(x));
        assert(b0.push(x) =~= b);
        lemma_groups_push(a + b0, x);
        lemma_groups_push(b0, x);
        assert(pending(a) + pending(b0).push(x) =~= (pending(a) + pending(b0)).push(x));
        assert(settled(a) + settled(b0).push(x) =~= (settled(a) + settled(b0)).push(x));
    }
}

proof fn lemma_groups_members(c: Seq<NodeModel>)
    ensures
        forall|i: int| 0 <= i < pending(c).len() ==> is_pending(#[trigger] pending(c)[i]),
        forall|i: int| 0 <= i < settled(c).len() ==> !is_pending(#[trigger] settled(c)[i]),
        pending(c).len() + settled(c).len() == c.len(),
        (pending(c) + settled(c)).to_multiset() == c.to_multiset(),
    decreases c.len(),
{
    broadcast use vstd::seq_lib::lemma_multiset_commutative, vstd::seq_lib::to_multiset_build;

    if c.len() == 0 {
        assert(pending(c) + settled(c) =~= c);
    } else {
        let c0 = c.drop_last();
        let x = c.last();
        lemma_groups_members(c0);
        assert(c0.push(x) =~= c);
        lemma_groups_push(c0, x);
        assert((pending(c) + settled(c)).to_multiset() =~= c.to_multiset());
    }
}

proof fn lemma_groups_idempotent(c: Seq<NodeModel>)
    ensures
        pending(pending(c)) == pending(c),
        settled(pending(c)) == Seq::<NodeModel>::empty(),
        pending(settled(c)) == Seq::<NodeModel>::empty(),
        settled(settled(c)) == settled(c),
    decreases c.len(),
{
    if c.len() > 0 {
        let c0 = c.drop_last();
        let x = c.last();
        lemma_groups_idempotent(c0);
        assert(c0.push(x) =~= c);
        lemma_groups_push(c0, x);
        lemma_groups_push(pending(c0), x);
        lemma_groups_push(settled(c0), x);
    }
}

proof fn lemma_partitioned_idempotent(c: Seq<NodeModel>)
    ensures
        partitioned(partitioned(c)) == partitioned(c),
{
    lemma_groups_concat(pending(c), settled(c));
    lemma_groups_idempotent(c);
    assert(pending(c) + Seq::<NodeModel>::empty() =~= pending(c));
    assert(Seq::<NodeModel>::empty() + settled(c) =~= settled(c));
}

proof fn lemma_node_idempotent(n: NodeModel)
    ensures
        sorted_node(sorted_node(n)) == sorted_node(n),
    decreases n,
{
    match n {
        NodeModel::Branch { tag, children } => {
            let c = sorted_seq(children);
            lemma_seq_idempotent(children);
            if tag is List {
                lemma_sorted_seq_concat(pending(c), settled(c));
                lemma_groups_commute(c);
                lemma_partitioned_idempotent(c);
            }
        },
        _ => {},
    }
}

proof fn lemma_seq_idempotent(s: Seq<NodeModel>)
    ensures
        sorted_seq(sorted_seq(s)) == sorted_seq(s),
    decreases s,
{
    lemma_sorted_seq_index(s);
    lemma_sorted_seq_index(sorted_seq(s));
    assert forall|i: int| 0 <= i < s.len() implies #[trigger] sorted_seq(sorted_seq(s))[i]
        == sorted_seq(s)[i] by {
        lemma_node_idempotent(s[i]);
    }
    assert(sorted_seq(sorted_seq(s)) =~= sorted_seq(s));
}

/// Sorting twice gives what sorting once gives.
pub proof fn lemma_sort_idempotent(d: Seq<NodeModel>)
    ensures
        sorted_seq(sorted_seq(d)) == sorted_seq(d),
{
    lemma_seq_idempotent(d);
}

/// After sorting, a list's unfinished tasks stand before all its other
/// children; each of the two groups is the list's own group, in its old order,
/// with each member sorted in turn.
pub proof fn lemma_sorted_list_order(start: Option<u64>, children: Seq<NodeModel>)
    ensures
        ({
            let r = sorted_node(NodeModel::Branch { tag: Tag::List(start), children });
            let k = pending(children).len() as int;
            &&& r is Branch
            &&& r->tag == Tag::List(start)
            &&& r->children.len() == children.len()
            &&& forall|i: int| 0 <= i < k ==> is_pending(#[trigger] r->children[i])
            &&& forall|i: int| k <= i < children.len() ==> !is_pending(#[trigger] r->children[i])
            &&& pending(r->children) == sorted_seq(pending(children))
            &&& settled(r->children) == sorted_seq(settled(children))
        }),
{
    let c = sorted_seq(children);
    lemma_sorted_seq_index(children);
    lemma_groups_commute(children);
    lemma_groups_members(c);
    lemma_sorted_seq_index(pending(children));
    lemma_groups_concat(pending(c), settled(c));
    lemma_groups_idempotent(c);
    assert(pending(c) + Seq::<NodeModel>::empty() =~= pending(c));
    assert(Seq::<NodeModel>::empty() + settled(c) =~= settled(c));
    let r = partitioned(c);
    let k = pending(children).len() as int;
    assert forall|i: int| k <= i < children.len() implies !is_pending(#[trigger] r[i]) by {
        assert(r[i] == settled(c)[i - k]);
    }
}

/// Sorting keeps every container's tag; a list keeps the same children, up to
/// their order and their own sorting; any other container keeps its children
/// in order, each sorted in turn; leaves are untouched.
pub proof fn lemma_sort_locality(n: NodeModel)
    ensures
        n is Branch ==> {
            let r = sorted_node(n);
            &&& r is Branch
            &&& r->tag == n->tag
            &&& n->tag is List ==> r->children.to_multiset() == sorted_seq(n->children).to_multiset()
            &&& !(n->tag is List) ==> r->children == sorted_seq(n->children)
        },
        !(n is Branch) ==> sorted_node(n) == n,
{
    if let NodeModel::Branch { tag, children } = n {
        lemma_groups_members(sorted_seq(children));
    }
}

} // verus!
