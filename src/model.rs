//! The document tree, its mathematical view, and the checklist classification.
use vstd::prelude::*;

verus! {

/// How a code block was written.
pub enum CodeBlockKind {
    Indented,
    /// A fenced block with its language tag, which may be empty.
    Fenced(String),
}

/// The kind of a structural node.
pub enum Tag {
    Paragraph,
    Heading(u32),
    BlockQuote,
    CodeBlock(CodeBlockKind),
    /// `Some(n)`: an ordered list starting at `n`; `None`: an unordered list.
    List(Option<u64>),
    Item,
    FootnoteDefinition(String),
    Table,
    TableHead,
    TableRow,
    TableCell,
    Emphasis,
    Strong,
    Strikethrough,
    /// A link: destination and title.
    Link(String, String),
    /// An image: destination and title.
    Image(String, String),
}

/// One node of a document; a container owns its children.
pub enum Node {
    Node { tag: Tag, children: Vec<Node> },
    Text(String),
    Code(String),
    Html(String),
    FootnoteReference(String),
    SoftBreak,
    HardBreak,
    Rule,
    /// A checklist marker; `true` when the task is finished.
    TaskListMarker(bool),
}

/// The mathematical view of a node: children as a sequence, text as characters.
pub enum NodeModel {
    Branch { tag: Tag, children: Seq<NodeModel> },
    Text(Seq<char>),
    Code(Seq<char>),
    Html(Seq<char>),
    FootnoteReference(Seq<char>),
    SoftBreak,
    HardBreak,
    Rule,
    TaskListMarker(bool),
}

/// What a node is with respect to the checklist.
#[derive(PartialEq, Eq, Structural, Clone, Copy, Debug)]
pub enum TaskState {
    Unfinished,
    Finished,
    NotATask,
}

impl Node {
    pub open spec fn view(&self) -> NodeModel
        decreases self,
    {
        match self {
            Node::Node { tag, children } => NodeModel::Branch {
                tag: *tag,
                children: nodes_view(children@),
            },
            Node::Text(s) => NodeModel::Text(s@),
            Node::Code(s) => NodeModel::Code(s@),
            Node::Html(s) => NodeModel::Html(s@),
            Node::FootnoteReference(s) => NodeModel::FootnoteReference(s@),
            Node::SoftBreak => NodeModel::SoftBreak,
            Node::HardBreak => NodeModel::HardBreak,
            Node::Rule => NodeModel::Rule,
            Node::TaskListMarker(b) => NodeModel::TaskListMarker(*b),
        }
    }
}

/// The view of a sequence of nodes, element by element.
pub open spec fn nodes_view(s: Seq<Node>) -> Seq<NodeModel>
    decreases s,
{
    if s.len() == 0 {
        Seq::empty()
    } else {
        nodes_view(s.drop_last()).push(s.last().view())
    }
}

/// A node's checklist state: a marker leaf is a task, and so is an item whose
/// first child is a marker; everything else is not a task.
pub open spec fn task_state_of(n: NodeModel) -> TaskState {
    match n {
        NodeModel::TaskListMarker(done) => marker_state(done),
        NodeModel::Branch { tag: Tag::Item, children } => {
            if children.len() > 0 && children[0] is TaskListMarker {
                marker_state(children[0]->TaskListMarker_0)
            } else {
                TaskState::NotATask
            }
        },
        _ => TaskState::NotATask,
    }
}

pub open spec fn marker_state(done: bool) -> TaskState {
    if done {
        TaskState::Finished
    } else {
        TaskState::Unfinished
    }
}

pub open spec fn is_pending(n: NodeModel) -> bool {
    task_state_of(n) == TaskState::Unfinished
}

pub proof fn lemma_nodes_view_index(s: Seq<Node>)
    ensures
        nodes_view(s).len() == s.len(),
        forall|i: int| 0 <= i < s.len() ==> #[trigger] nodes_view(s)[i] == s[i]@,
    decreases s.len(),
{
    if s.len() > 0 {
        lemma_nodes_view_index(s.drop_last());
    }
}

pub proof fn lemma_nodes_view_push(s: Seq<Node>, n: Node)
    ensures
        nodes_view(s.push(n)) == nodes_view(s).push(n@),
{
    assert(s.push(n).drop_last() =~= s);
}

pub proof fn lemma_nodes_view_concat(a: Seq<Node>, b: Seq<Node>)
    ensures
        nodes_view(a + b) == nodes_view(a) + nodes_view(b),
    decreases b.len(),
{
    if b.len() == 0 {
        assert(a + b =~= a);
        assert(nodes_view(a) + nodes_view(b) =~= nodes_view(a));
    } else {
        lemma_nodes_view_concat(a, b.drop_last());
        assert((a + b).drop_last() =~= a + b.drop_last());
        assert(nodes_view(a) + nodes_view(b) =~= (nodes_view(a) + nodes_view(b.drop_last())).push(
            b.last()@,
        ));
    }
}

/// Classifies a node as an unfinished task, a finished task, or not a task.
pub fn is_unfinished_task(node: &Node) -> (r: TaskState)
    ensures
        r == task_state_of(node@),
{
    match node {
        Node::TaskListMarker(done) => {
            if *done {
                TaskState::Finished
            } else {
                TaskState::Unfinished
            }
        },
        Node::Node { tag: Tag::Item, children } => {
            proof {
                lemma_nodes_view_index(children@);
            }
            if children.len() > 0 {
                match &children[0] {
                    Node::TaskListMarker(done) => {
                        if *done {
                            TaskState::Finished
                        } else {
                            TaskState::Unfinished
                        }
                    },
                    _ => TaskState::NotATask,
                }
            } else {
                TaskState::NotATask
            }
        },
        _ => TaskState::NotATask,
    }
}

} // verus!
