//! Starting a new day: unfinished tasks move under a fresh heading, finished
//! work stays where it was.
use vstd::prelude::*;
use vstd::string::*;
use crate::model::{
    is_pending, is_unfinished_task, lemma_nodes_view_concat, lemma_nodes_view_index,
    lemma_nodes_view_push, nodes_view, task_state_of, Node, NodeModel, Tag, TaskState,
};

verus! {

/// Why a day could not be started.
#[derive(PartialEq, Eq, Structural, Clone, Copy, Debug)]
pub enum RotateError {
    /// The title holds a line break, which heading text cannot hold.
    InvalidTitle,
}

/// Whether `s` holds a line break.
pub open spec fn has_line_break(s: Seq<char>) -> bool {
    exists|i: int| 0 <= i < s.len() && (s[i] == '\n' || s[i] == '\r')
}

/// How many unfinished tasks open `s`, before the first other node.
pub open spec fn split_point(s: Seq<NodeModel>) -> nat
    decreases s.len(),
{
    if s.len() > 0 && is_pending(s[0]) {
        1 + split_point(s.drop_first())
    } else {
        0
    }
}

/// What a top-level node hands to the new day: the unfinished prefix of a list.
pub open spec fn carried_of(n: NodeModel) -> Seq<NodeModel> {
    match n {
        NodeModel::Branch { tag, children } => {
            if tag is List {
                children.take(split_point(children) as int)
            } else {
                Seq::empty()
            }
        },
        _ => Seq::empty(),
    }
}

/// What a top-level node leaves in place: the rest of a list, if any is left,
/// or the node itself when it is not a list.
pub open spec fn kept_of(n: NodeModel) -> Seq<NodeModel> {
    match n {
        NodeModel::Branch { tag, children } => {
            if tag is List {
                let rest = children.skip(split_point(children) as int);
                if rest.len() == 0 {
                    Seq::empty()
                } else {
                    seq![NodeModel::Branch { tag, children: rest }]
                }
            } else {
                seq![n]
            }
        },
        _ => seq![n],
    }
}

/// The unfinished prefixes of all top-level lists, in document order.
pub open spec fn carried(d: Seq<NodeModel>) -> Seq<NodeModel>
    decreases d.len(),
{
    if d.len() == 0 {
        Seq::empty()
    } else {
        carried(d.drop_last()) + carried_of(d.last())
    }
}

/// The top-level nodes that stay, with each list cut to its remainder.
pub open spec fn kept(d: Seq<NodeModel>) -> Seq<NodeModel>
    decreases d.len(),
{
    if d.len() == 0 {
        Seq::empty()
    } else {
        kept(d.drop_last()) + kept_of(d.last())
    }
}

/// A first-level heading whose text is `title`.
pub open spec fn title_heading(title: Seq<char>) -> NodeModel {
    NodeModel::Branch { tag: Tag::Heading(1), children: seq![NodeModel::Text(title)] }
}

/// The document after a new day titled `title` starts.
pub open spec fn rotated(d: Seq<NodeModel>, title: Seq<char>) -> Seq<NodeModel> {
    seq![title_heading(title), NodeModel::Branch { tag: Tag::List(None), children: carried(d) }]
        + kept(d)
}

/// The number of checklist items in a node, itself and all below it.
pub open spec fn task_count(n: NodeModel) -> nat
    decreases n,
{
    match n {
        NodeModel::Branch { tag, children } => {
            (if tag is Item && task_state_of(n) != TaskState::NotATask {
                1nat
            } else {
                0nat
            }) + tasks_in(children)
        },
        _ => 0,
    }
}

/// The number of checklist items in a sequence of nodes, at any depth.
pub open spec fn tasks_in(s: Seq<NodeModel>) -> nat
    decreases s,
{
    if s.len() == 0 {
        0
    } else {
        tasks_in(s.drop_last()) + task_count(s.last())
    }
}

pub proof fn lemma_tasks_in_concat(a: Seq<NodeModel>, b: Seq<NodeModel>)
    ensures
        tasks_in(a + b) == tasks_in(a) + tasks_in(b),
    decreases b.len(),
{
    if b.len() == 0 {
        assert(a + b =~= a);
    } else {
        lemma_tasks_in_concat(a, b.drop_last());
        assert((a + b).drop_last() =~= a + b.drop_last());
    }
}

proof fn lemma_tasks_in_single(n: NodeModel)
    ensures
        tasks_in(seq![n]) == task_count(n),
{
    assert(seq![n].drop_last() =~= Seq::<NodeModel>::empty());
    assert(seq![n].last() == n);
    assert(tasks_in(seq![n].drop_last()) == 0);
}

proof fn lemma_split_point(s: Seq<NodeModel>, k: int)
    requires
        0 <= k <= s.len(),
        forall|j: int| 0 <= j < k ==> is_pending(#[trigger] s[j]),
        k == s.len() || !is_pending(s[k]),
    ensures
        split_point(s) == k,
    decreases k,
{
    if k > 0 {
        assert forall|j: int| 0 <= j < k - 1 implies is_pending(#[trigger] s.drop_first()[j]) by {
            assert(s.drop_first()[j] == s[j + 1]);
        }
        lemma_split_point(s.drop_first(), k - 1);
    }
}

proof fn lemma_node_split(n: NodeModel)
    ensures
        tasks_in(carried_of(n)) + tasks_in(kept_of(n)) == task_count(n),
{
    match n {
        NodeModel::Branch { tag, children } => {
            if tag is List {
                let k = split_point(children) as int;
                assert(k <= children.len()) by {
                    lemma_split_point_bound(children);
                }
                assert(children =~= children.take(k) + children.skip(k));
                lemma_tasks_in_concat(children.take(k), children.skip(k));
                let rest = children.skip(k);
                if rest.len() == 0 {
                    assert(tasks_in(rest) == 0);
                } else {
                    lemma_tasks_in_single(NodeModel::Branch { tag, children: rest });
                }
            } else {
                lemma_tasks_in_single(n);
            }
        },
        _ => {
            lemma_tasks_in_single(n);
        },
    }
}

proof fn lemma_split_point_bound(s: Seq<NodeModel>)
    ensures
        split_point(s) <= s.len(),
    decreases s.len(),
{
    if s.len() > 0 {
        lemma_split_point_bound(s.drop_first());
    }
}

proof fn lemma_split_conserves(d: Seq<NodeModel>)
    ensures
        tasks_in(carried(d)) + tasks_in(kept(d)) == tasks_in(d),
    decreases d.len(),
{
    if d.len() > 0 {
        lemma_split_conserves(d.drop_last());
        lemma_tasks_in_concat(carried(d.drop_last()), carried_of(d.last()));
        lemma_tasks_in_concat(kept(d.drop_last()), kept_of(d.last()));
        lemma_node_split(d.last());
    }
}

/// Starting a new day neither drops nor duplicates a task: the document holds
/// as many checklist items after as before.
pub proof fn lemma_rotation_conserves_tasks(d: Seq<NodeModel>, title: Seq<char>)
    ensures
        tasks_in(rotated(d, title)) == tasks_in(d),
        tasks_in(carried(d)) + tasks_in(kept(d)) == tasks_in(d),
{
    let h = title_heading(title);
    let l = NodeModel::Branch { tag: Tag::List(None), children: carried(d) };
    lemma_split_conserves(d);
    lemma_tasks_in_concat(seq![h, l], kept(d));
    assert(seq![h, l] =~= seq![h] + seq![l]);
    lemma_tasks_in_concat(seq![h], seq![l]);
    lemma_tasks_in_single(h);
    lemma_tasks_in_single(l);
    lemma_tasks_in_single(NodeModel::Text(title));
}

/// The new heading carries the title exactly, the list of carried tasks comes
/// right after it, and all earlier content follows both.
pub proof fn lemma_rotation_placement(d: Seq<NodeModel>, title: Seq<char>)
    ensures
        rotated(d, title).len() == kept(d).len() + 2,
        rotated(d, title)[0] == (NodeModel::Branch {
            tag: Tag::Heading(1),
            children: seq![NodeModel::Text(title)],
        }),
        rotated(d, title)[1] == (NodeModel::Branch { tag: Tag::List(None), children: carried(d) }),
        rotated(d, title).skip(2) == kept(d),
{
    assert(rotated(d, title).skip(2) =~= kept(d));
}

fn title_has_line_break(title: &str) -> (r: bool)
    ensures
        r == has_line_break(title@),
{
    let n = title.unicode_len();
    let mut i: usize = 0;
    while i < n
        invariant
            n == title@.len(),
            i <= n,
            forall|j: int| 0 <= j < i ==> title@[j] != '\n' && title@[j] != '\r',
        decreases n - i,
    {
        let c = title.get_char(i);
        if c == '\n' || c == '\r' {
            return true;
        }
        i = i + 1;
    }
    false
}

proof fn lemma_view_take_skip(s: Seq<Node>, k: int)
    requires
        0 <= k <= s.len(),
    ensures
        nodes_view(s.take(k)) == nodes_view(s).take(k),
        nodes_view(s.skip(k)) == nodes_view(s).skip(k),
{
    lemma_nodes_view_index(s);
    lemma_nodes_view_index(s.take(k));
    lemma_nodes_view_index(s.skip(k));
    assert(nodes_view(s.take(k)) =~= nodes_view(s).take(k));
    assert(nodes_view(s.skip(k)) =~= nodes_view(s).skip(k));
}

/// Cuts a list's children after its opening run of unfinished tasks.
fn split_children(c: Vec<Node>) -> (r: (Vec<Node>, Vec<Node>))
    ensures
        nodes_view(r.0@) == nodes_view(c@).take(split_point(nodes_view(c@)) as int),
        nodes_view(r.1@) == nodes_view(c@).skip(split_point(nodes_view(c@)) as int),
{
    let ghost m = nodes_view(c@);
    proof {
        lemma_nodes_view_index(c@);
    }
    let n = c.len();
    let mut k: usize = 0;
    while k < n && is_unfinished_task(&c[k]) == TaskState::Unfinished
        invariant
            n == c@.len(),
            m == nodes_view(c@),
            m.len() == n,
            forall|i: int| 0 <= i < m.len() ==> #[trigger] m[i] == c@[i]@,
            k <= n,
            forall|j: int| 0 <= j < k ==> is_pending(#[trigger] m[j]),
        decreases n - k,
    {
        k = k + 1;
    }
    proof {
        lemma_split_point(m, k as int);
        lemma_view_take_skip(c@, k as int);
    }
    let mut first = c;
    let rest = first.split_off(k);
    proof {
        assert(first@ =~= c@.take(k as int));
        assert(rest@ =~= c@.skip(k as int));
    }
    (first, rest)
}

/// Splits every top-level list: what is carried to the new day, and what stays.
fn split_lists(d: Vec<Node>) -> (r: (Vec<Node>, Vec<Node>))
    ensures
        nodes_view(r.0@) == carried(nodes_view(d@)),
        nodes_view(r.1@) == kept(nodes_view(d@)),
{
    let ghost orig = d@;
    let mut rest = d;
    let mut carry: Vec<Node> = Vec::new();
    let mut keep: Vec<Node> = Vec::new();
    let n = rest.len();
    let mut i: usize = 0;
    while i < n
        invariant
            n == orig.len(),
            i <= n,
            rest@ == orig.subrange(i as int, n as int),
            nodes_view(carry@) == carried(nodes_view(orig.subrange(0, i as int))),
            nodes_view(keep@) == kept(nodes_view(orig.subrange(0, i as int))),
        decreases n - i,
    {
        let x = rest.remove(0);
        let ghost xv = x@;
        let ghost pre = orig.subrange(0, i as int);
        proof {
            assert(orig.subrange(0, i + 1) =~= pre.push(x));
            lemma_nodes_view_push(pre, x);
            assert(nodes_view(pre).push(xv).drop_last() =~= nodes_view(pre));
        }
        match x {
            Node::Node { tag: Tag::List(start), children } => {
                let (mut p, q) = split_children(children);
                proof {
                    lemma_nodes_view_concat(carry@, p@);
                }
                carry.append(&mut p);
                if q.len() > 0 {
                    let node = Node::Node { tag: Tag::List(start), children: q };
                    proof {
                        lemma_nodes_view_push(keep@, node);
                        lemma_nodes_view_index(q@);
                        assert(kept_of(xv) =~= seq![node@]);
                        assert(nodes_view(keep@).push(node@) =~= nodes_view(keep@) + seq![node@]);
                    }
                    keep.push(node);
                } else {
                    proof {
                        lemma_nodes_view_index(q@);
                        assert(nodes_view(keep@) + kept_of(xv) =~= nodes_view(keep@));
                    }
                }
            },
            other => {
                proof {
                    lemma_nodes_view_push(keep@, other);
                    assert(nodes_view(keep@).push(other@) =~= nodes_view(keep@) + seq![other@]);
                    assert(nodes_view(carry@) + carried_of(xv) =~= nodes_view(carry@));
                }
                keep.push(other);
            },
        }
        i = i + 1;
    }
    proof {
        assert(orig.subrange(0, n as int) =~= orig);
    }
    (carry, keep)
}

/// Starts a new day titled `title`: a first-level heading with that text and a
/// list of the unfinished tasks that open each top-level list go first; what
/// remains of those lists, and all other content, follows in place, and lists
/// left empty are removed. A title with a line break is refused and the
/// document is left as it was.
pub fn start_next_day(doc: &mut Vec<Node>, title: &str) -> (r: Result<(), RotateError>)
    ensures
        r is Err <==> has_line_break(title@),
        r is Err ==> r == Err::<(), RotateError>(RotateError::InvalidTitle) && *final(doc) == *old(doc),
        r is Ok ==> nodes_view(final(doc)@) == rotated(nodes_view(old(doc)@), title@),
{
    if title_has_line_break(title) {
        return Err(RotateError::InvalidTitle);
    }
    let mut d: Vec<Node> = Vec::new();
    std::mem::swap(doc, &mut d);
    let (carry, mut keep) = split_lists(d);
    let mut heading_children: Vec<Node> = Vec::new();
    heading_children.push(Node::Text(title.to_owned()));
    let heading = Node::Node { tag: Tag::Heading(1), children: heading_children };
    let list = Node::Node { tag: Tag::List(None), children: carry };
    let mut out: Vec<Node> = Vec::new();
    out.push(heading);
    out.push(list);
    proof {
        lemma_nodes_view_index(out@);
        lemma_nodes_view_index(heading_children@);
        assert(heading@ == title_heading(title@)) by {
            assert(nodes_view(heading_children@) =~= seq![NodeModel::Text(title@)]);
        }
        assert(nodes_view(out@) =~= seq![
            title_heading(title@),
            NodeModel::Branch { tag: Tag::List(None), children: carried(nodes_view(old(doc)@)) },
        ]);
        lemma_nodes_view_concat(out@, keep@);
    }
    out.append(&mut keep);
    *doc = out;
    Ok(())
}

} // verus!
