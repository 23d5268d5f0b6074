//! Building the document tree from a markdown parser's event stream: a
//! preorder walk in which each container opens with its tag and closes with
//! an end event.
use vstd::prelude::*;
use crate::model::{lemma_nodes_view_push, nodes_view, Node, NodeModel, Tag};

verus! {

/// One event of the stream.
pub enum Event {
    Start(Tag),
    End,
    Text(String),
    Code(String),
    Html(String),
    FootnoteReference(String),
    SoftBreak,
    HardBreak,
    Rule,
    TaskListMarker(bool),
}

/// The view of an event: a container opens or closes, or a leaf stands.
pub enum EventModel {
    Start(Tag),
    End,
    Leaf(NodeModel),
}

impl Event {
    pub open spec fn view(&self) -> EventModel {
        match self {
            Event::Start(tag) => EventModel::Start(*tag),
            Event::End => EventModel::End,
            Event::Text(s) => EventModel::Leaf(NodeModel::Text(s@)),
            Event::Code(s) => EventModel::Leaf(NodeModel::Code(s@)),
            Event::Html(s) => EventModel::Leaf(NodeModel::Html(s@)),
            Event::FootnoteReference(s) => EventModel::Leaf(NodeModel::FootnoteReference(s@)),
            Event::SoftBreak => EventModel::Leaf(NodeModel::SoftBreak),
            Event::HardBreak => EventModel::Leaf(NodeModel::HardBreak),
            Event::Rule => EventModel::Leaf(NodeModel::Rule),
            Event::TaskListMarker(b) => EventModel::Leaf(NodeModel::TaskListMarker(*b)),
        }
    }
}

pub open spec fn events_view(s: Seq<Event>) -> Seq<EventModel> {
    s.map_values(|e: Event| e@)
}

/// The events of a node: a container's tag, its children's events, an end.
pub open spec fn node_events(n: NodeModel) -> Seq<EventModel>
    decreases n,
{
    match n {
        NodeModel::Branch { tag, children } => seq![EventModel::Start(tag)] + seq_events(children)
            + seq![EventModel::End],
        _ => seq![EventModel::Leaf(n)],
    }
}

/// The events of a sequence of nodes, one node after another.
pub open spec fn seq_events(s: Seq<NodeModel>) -> Seq<EventModel>
    decreases s,
{
    if s.len() == 0 {
        Seq::empty()
    } else {
        seq_events(s.drop_last()) + node_events(s.last())
    }
}

/// How many containers are open after `s`.
pub open spec fn depth(s: Seq<EventModel>) -> int
    decreases s.len(),
{
    if s.len() == 0 {
        0
    } else {
        depth(s.drop_last()) + match s.last() {
            EventModel::Start(_) => 1int,
            EventModel::End => -1int,
            EventModel::Leaf(_) => 0int,
        }
    }
}

/// No end closes a container that was not opened, and all that open close.
pub open spec fn well_nested(s: Seq<EventModel>) -> bool {
    &&& depth(s) == 0
    &&& forall|k: int| 0 <= k <= s.len() ==> depth(#[trigger] s.take(k)) >= 0
}

/// The events consumed by the open containers: for each, the events of the
/// siblings before it, then its start.
pub open spec fn frames_events(st: Seq<(Tag, Vec<Node>)>) -> Seq<EventModel>
    decreases st.len(),
{
    if st.len() == 0 {
        Seq::empty()
    } else {
        frames_events(st.drop_last()) + seq_events(nodes_view(st.last().1@)) + seq![
            EventModel::Start(st.last().0),
        ]
    }
}

proof fn lemma_seq_events_push(v: Seq<Node>, x: Node)
    ensures
        seq_events(nodes_view(v.push(x))) == seq_events(nodes_view(v)) + node_events(x@),
{
    lemma_nodes_view_push(v, x);
    assert(nodes_view(v).push(x@).drop_last() =~= nodes_view(v));
}

proof fn lemma_frames_push(st: Seq<(Tag, Vec<Node>)>, f: (Tag, Vec<Node>))
    ensures
        frames_events(st.push(f)) == frames_events(st) + seq_events(nodes_view(f.1@)) + seq![
            EventModel::Start(f.0),
        ],
{
    assert(st.push(f).drop_last() =~= st);
}

/// Builds the tree that the events describe; `None` when they are not well
/// nested. The tree's own events are exactly the ones given.
pub fn build_document(events: Vec<Event>) -> (r: Option<Vec<Node>>)
    ensures
        r is Some <==> well_nested(events_view(events@)),
        r is Some ==> seq_events(nodes_view(r->0@)) == events_view(events@),
{
    let ghost orig = events@;
    let ghost ev = events_view(events@);
    let n = events.len();
    let mut src = events;
    let mut rev: Vec<Event> = Vec::new();
    while src.len() > 0
        invariant
            orig == events@,
            orig.len() == n,
            rev@.len() + src@.len() == n,
            src@ == orig.take(src@.len() as int),
            forall|j: int| 0 <= j < rev@.len() ==> #[trigger] rev@[j] == orig[n - 1 - j],
        decreases src@.len(),
    {
        let e = src.pop().unwrap();
        rev.push(e);
    }
    let mut stack: Vec<(Tag, Vec<Node>)> = Vec::new();
    let mut top: Vec<Node> = Vec::new();
    let mut i: usize = 0;
    proof {
        assert(ev.take(0) =~= Seq::<EventModel>::empty());
        assert(frames_events(stack@) + seq_events(nodes_view(top@)) =~= ev.take(0));
    }
    while i < n
        invariant
            orig == events@,
            orig.len() == n,
            ev == events_view(orig),
            i <= n,
            rev@.len() == n - i,
            forall|j: int| 0 <= j < rev@.len() ==> #[trigger] rev@[j] == orig[n - 1 - j],
            frames_events(stack@) + seq_events(nodes_view(top@)) == ev.take(i as int),
            stack@.len() == depth(ev.take(i as int)),
            forall|k: int| 0 <= k <= i ==> depth(#[trigger] ev.take(k)) >= 0,
        decreases n - i,
    {
        let ghost before = ev.take(i as int);
        let e = rev.pop().unwrap();
        proof {
            assert(e == orig[i as int]);
            assert(ev[i as int] == e@);
            assert(ev.take(i + 1) =~= before.push(e@));
            assert(ev.take(i + 1).drop_last() =~= before);
        }
        match e {
            Event::Start(tag) => {
                let mut sib: Vec<Node> = Vec::new();
                std::mem::swap(&mut top, &mut sib);
                proof {
                    lemma_frames_push(stack@, (tag, sib));
                    assert(nodes_view(top@) =~= Seq::<NodeModel>::empty());
                    assert(frames_events(stack@.push((tag, sib))) + seq_events(nodes_view(top@))
                        =~= ev.take(i + 1));
                }
                stack.push((tag, sib));
            },
            Event::End => {
                match stack.pop() {
                    Some(frame) => {
                        let (tag, sib) = frame;
                        let mut children = sib;
                        std::mem::swap(&mut top, &mut children);
                        let node = Node::Node { tag, children };
                        proof {
                            lemma_frames_push(stack@, (tag, top));
                            lemma_seq_events_push(top@, node);
                            assert(frames_events(stack@) + seq_events(nodes_view(top@.push(node)))
                                =~= ev.take(i + 1));
                        }
                        top.push(node);
                    },
                    None => {
                        proof {
                            assert(depth(ev.take(i + 1)) < 0);
                            assert(!well_nested(ev));
                        }
                        return None;
                    },
                }
            },
            _ => {
                let node = match e {
                    Event::Text(s) => Node::Text(s),
                    Event::Code(s) => Node::Code(s),
                    Event::Html(s) => Node::Html(s),
                    Event::FootnoteReference(s) => Node::FootnoteReference(s),
                    Event::SoftBreak => Node::SoftBreak,
                    Event::HardBreak => Node::HardBreak,
                    Event::Rule => Node::Rule,
                    Event::TaskListMarker(b) => Node::TaskListMarker(b),
                    Event::Start(_) => Node::Rule,
                    Event::End => Node::Rule,
                };
                proof {
                    assert(node_events(node@) == seq![e@]);
                    lemma_seq_events_push(top@, node);
                    assert(frames_events(stack@) + seq_events(nodes_view(top@.push(node)))
                        =~= ev.take(i + 1));
                }
                top.push(node);
            },
        }
        i = i + 1;
    }
    proof {
        assert(ev.take(n as int) =~= ev);
    }
    if stack.len() > 0 {
        return None;
    }
    proof {
        assert(frames_events(stack@) =~= Seq::<EventModel>::empty());
        assert(seq_events(nodes_view(top@)) =~= ev);
    }
    Some(top)
}

} // verus!
