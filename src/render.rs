//! Writing a document back as markdown. The list markers, numbering and
//! indentation are not stored in the tree: they are derived while descending,
//! from state that each container sets for its children and restores after.
//! Containers other than headings, lists, items and code blocks carry no
//! markup of their own: their children are written joined, in place.
use vstd::prelude::*;
use vstd::string::*;
use crate::model::{lemma_nodes_view_index, nodes_view, CodeBlockKind, Node, NodeModel, Tag};

verus! {

/// Whether siblings are written on lines of their own.
#[derive(PartialEq, Eq, Structural, Clone, Copy, Debug)]
pub enum SepMode {
    Join,
    NewLine,
}

/// The marker of the next list item: a fixed character, or a counter.
#[derive(PartialEq, Eq, Structural, Clone, Copy, Debug)]
pub enum BulletMode {
    Char(char),
    Number(u64),
}

/// What is written between two siblings.
pub open spec fn sep_text(s: SepMode) -> Seq<char> {
    match s {
        SepMode::Join => Seq::empty(),
        SepMode::NewLine => seq!['\n'],
    }
}

/// The bullet that a list with this start value installs.
pub open spec fn list_bullet(start: Option<u64>) -> BulletMode {
    match start {
        Some(n) => BulletMode::Number(n),
        None => BulletMode::Char('*'),
    }
}

/// The character of a decimal digit.
pub open spec fn digit_char(d: nat) -> char {
    if d == 0 { '0' }
    else if d == 1 { '1' }
    else if d == 2 { '2' }
    else if d == 3 { '3' }
    else if d == 4 { '4' }
    else if d == 5 { '5' }
    else if d == 6 { '6' }
    else if d == 7 { '7' }
    else if d == 8 { '8' }
    else { '9' }
}

/// The decimal digits of `n`, without leading zeros.
pub open spec fn decimal(n: nat) -> Seq<char>
    decreases n,
{
    if n < 10 {
        seq![digit_char(n)]
    } else {
        decimal(n / 10).push(digit_char(n % 10))
    }
}

/// The marker written before an item's content.
pub open spec fn bullet_text(b: BulletMode) -> Seq<char> {
    match b {
        BulletMode::Char(c) => seq![c, ' '],
        BulletMode::Number(i) => decimal(i as nat) + seq!['.', ' '],
    }
}

/// The bullet after an item has been written: a counter moves on by one and
/// stays at the largest value once there.
pub open spec fn advanced(b: BulletMode) -> BulletMode {
    match b {
        BulletMode::Char(c) => BulletMode::Char(c),
        BulletMode::Number(i) => BulletMode::Number(
            if i < u64::MAX {
                (i + 1) as u64
            } else {
                i
            },
        ),
    }
}

/// The indentation level inside an item.
pub open spec fn deeper(indent: usize) -> usize {
    if indent < usize::MAX {
        (indent + 1) as usize
    } else {
        indent
    }
}

pub open spec fn repeated(c: char, n: nat) -> Seq<char> {
    Seq::new(n, |_i: int| c)
}

/// The text of a leaf; a container has none of its own.
pub open spec fn leaf_text(n: NodeModel) -> Seq<char> {
    match n {
        NodeModel::Text(t) => t,
        NodeModel::Code(t) => seq!['`'] + t + seq!['`'],
        NodeModel::Html(t) => t,
        NodeModel::FootnoteReference(t) => seq!['[', '^'] + t + seq![']'],
        NodeModel::SoftBreak => seq!['\n'],
        NodeModel::HardBreak => seq![' ', ' ', '\n'],
        NodeModel::Rule => seq!['-', '-', '-', '\n'],
        NodeModel::TaskListMarker(done) => if done {
            seq!['[', 'x', ']', ' ']
        } else {
            seq!['[', ' ', ']', ' ']
        },
        NodeModel::Branch { .. } => Seq::empty(),
    }
}

/// The leaves of a code block, each after `prefix`.
pub open spec fn code_text(s: Seq<NodeModel>, prefix: Seq<char>) -> Seq<char>
    decreases s.len(),
{
    if s.len() == 0 {
        Seq::empty()
    } else {
        code_text(s.drop_last(), prefix) + prefix + leaf_text(s.last())
    }
}

/// A node written with separator `sep`, bullet `b` and indentation `indent`;
/// also the bullet that the next sibling sees.
pub open spec fn render_model(n: NodeModel, sep: SepMode, b: BulletMode, indent: usize) -> (
    Seq<char>,
    BulletMode,
)
    decreases n, 0nat,
{
    match n {
        NodeModel::Branch { tag, children } => match tag {
            Tag::Heading(level) => {
                let r = render_seq(children, SepMode::Join, b, indent);
                (repeated('#', if level == 0 { 1 } else { level as nat }) + seq![' '] + r.0, r.1)
            },
            Tag::List(start) => {
                let r = render_seq(children, SepMode::NewLine, list_bullet(start), indent);
                (seq!['\n'] + r.0, b)
            },
            Tag::Item => {
                let r = render_seq(children, SepMode::Join, advanced(b), deeper(indent));
                (repeated(' ', (2 * indent) as nat) + bullet_text(b) + r.0, r.1)
            },
            Tag::CodeBlock(CodeBlockKind::Fenced(lang)) => (
                seq!['`', '`', '`'] + lang@ + seq!['\n'] + code_text(children, Seq::empty())
                    + seq!['`', '`', '`'],
                b,
            ),
            Tag::CodeBlock(CodeBlockKind::Indented) => (
                code_text(children, repeated(' ', 4)),
                b,
            ),
            _ => render_seq(children, SepMode::Join, b, indent),
        },
        _ => (leaf_text(n), b),
    }
}

/// Siblings written one after another with `sep` between them; also the
/// bullet left after the last.
pub open spec fn render_seq(s: Seq<NodeModel>, sep: SepMode, b: BulletMode, indent: usize) -> (
    Seq<char>,
    BulletMode,
)
    decreases s, 0nat,
{
    if s.len() == 0 {
        (Seq::empty(), b)
    } else if s.len() == 1 {
        render_model(s[0], sep, b, indent)
    } else {
        let r = render_seq(s.drop_last(), sep, b, indent);
        let t = render_model(s.last(), sep, r.1, indent);
        (r.0 + sep_text(sep) + t.0, t.1)
    }
}

/// The text of a whole document: a line break, then the top-level nodes on
/// lines of their own, with `*` bullets and no indentation.
pub open spec fn document_text(d: Seq<NodeModel>) -> Seq<char> {
    seq!['\n'] + render_seq(d, SepMode::NewLine, BulletMode::Char('*'), 0).0
}

/// Whether writing `n` leaves the bullet as it found it: it holds no item
/// outside a list of its own.
pub open spec fn keeps_bullet(n: NodeModel) -> bool
    decreases n, 0nat,
{
    match n {
        NodeModel::Branch { tag, children } => match tag {
            Tag::List(_) => true,
            Tag::CodeBlock(_) => true,
            Tag::Item => false,
            _ => all_keep_bullet(children),
        },
        _ => true,
    }
}

pub open spec fn all_keep_bullet(s: Seq<NodeModel>) -> bool
    decreases s, 0nat,
{
    if s.len() == 0 {
        true
    } else {
        all_keep_bullet(s.drop_last()) && keeps_bullet(s.last())
    }
}

/// The bullet of the item at position `j` of a list with this start value.
pub open spec fn bullet_at(start: Option<u64>, j: nat) -> BulletMode {
    match start {
        Some(s) => BulletMode::Number((s + j) as u64),
        None => BulletMode::Char('*'),
    }
}

/// An item whose content leaves the bullet alone.
pub open spec fn plain_item(n: NodeModel) -> bool {
    n is Branch && n->tag is Item && all_keep_bullet(n->children)
}

/// One item's line: indentation, bullet, content one level deeper.
pub open spec fn item_text(item: NodeModel, bullet: BulletMode, indent: usize) -> Seq<char> {
    repeated(' ', (2 * indent) as nat) + bullet_text(bullet) + render_seq(
        item->children,
        SepMode::Join,
        BulletMode::Char('*'),
        deeper(indent),
    ).0
}

/// The items of a list, each after a line break but the first, numbered by position.
pub open spec fn list_lines(items: Seq<NodeModel>, start: Option<u64>, indent: usize) -> Seq<char>
    decreases items.len(),
{
    if items.len() == 0 {
        Seq::empty()
    } else if items.len() == 1 {
        item_text(items[0], bullet_at(start, 0), indent)
    } else {
        list_lines(items.drop_last(), start, indent) + seq!['\n'] + item_text(
            items.last(),
            bullet_at(start, (items.len() - 1) as nat),
            indent,
        )
    }
}

proof fn lemma_keeps_bullet(n: NodeModel, sep: SepMode, b: BulletMode, b2: BulletMode, indent: usize)
    requires
        keeps_bullet(n),
    ensures
        render_model(n, sep, b, indent).1 == b,
        render_model(n, sep, b, indent).0 == render_model(n, sep, b2, indent).0,
    decreases n, 0nat,
{
    match n {
        NodeModel::Branch { tag, children } => match tag {
            Tag::List(_) => {},
            Tag::CodeBlock(_) => {},
            Tag::Item => {},
            _ => lemma_all_keep_bullet(children, SepMode::Join, b, b2, indent),
        },
        _ => {},
    }
}

proof fn lemma_all_keep_bullet(
    s: Seq<NodeModel>,
    sep: SepMode,
    b: BulletMode,
    b2: BulletMode,
    indent: usize,
)
    requires
        all_keep_bullet(s),
    ensures
        render_seq(s, sep, b, indent).1 == b,
        render_seq(s, sep, b, indent).0 == render_seq(s, sep, b2, indent).0,
    decreases s, 0nat,
{
    if s.len() == 1 {
        lemma_keeps_bullet(s[0], sep, b, b2, indent);
    } else if s.len() > 1 {
        lemma_all_keep_bullet(s.drop_last(), sep, b, b2, indent);
        lemma_all_keep_bullet(s.drop_last(), sep, b2, b, indent);
        lemma_keeps_bullet(s.last(), sep, b, b2, indent);
    }
}

proof fn lemma_list_lines(items: Seq<NodeModel>, start: Option<u64>, indent: usize)
    requires
        forall|j: int| 0 <= j < items.len() ==> plain_item(#[trigger] items[j]),
        start is Some ==> start->0 + items.len() <= u64::MAX,
    ensures
        render_seq(items, SepMode::NewLine, list_bullet(start), indent) == (
        list_lines(items, start, indent),
        bullet_at(start, items.len()),
        ),
    decreases items.len(),
{
    if items.len() > 0 {
        let k = (items.len() - 1) as nat;
        let last = items.last();
        assert(plain_item(items[k as int]));
        if items.len() > 1 {
            assert forall|j: int| 0 <= j < items.drop_last().len() implies plain_item(
                #[trigger] items.drop_last()[j],
            ) by {
                assert(items.drop_last()[j] == items[j]);
            }
            lemma_list_lines(items.drop_last(), start, indent);
        }
        let bk = bullet_at(start, k);
        assert(items.len() == 1 ==> bk == list_bullet(start));
        lemma_all_keep_bullet(
            last->children,
            SepMode::Join,
            advanced(bk),
            BulletMode::Char('*'),
            deeper(indent),
        );
        assert(advanced(bk) == bullet_at(start, items.len()));
        assert(render_model(last, SepMode::NewLine, bk, indent) == (
        item_text(last, bk, indent),
        bullet_at(start, items.len()),
        ));
    }
}

/// Writing a list of plain items reproduces its bullets: `*` for an
/// unordered list, and for an ordered one the start value and the numbers
/// after it in order of appearance; each item stands at two spaces per level
/// of nesting, its content one level deeper, and the bullet outside the list
/// is as it was.
pub proof fn lemma_list_rendering(
    start: Option<u64>,
    items: Seq<NodeModel>,
    sep: SepMode,
    b: BulletMode,
    indent: usize,
)
    requires
        forall|j: int| 0 <= j < items.len() ==> plain_item(#[trigger] items[j]),
        start is Some ==> start->0 + items.len() <= u64::MAX,
    ensures
        render_model((NodeModel::Branch { tag: Tag::List(start), children: items }), sep, b, indent)
            == (seq!['\n'] + list_lines(items, start, indent), b),
{
    lemma_list_lines(items, start, indent);
}

/// Relies on std's String::push: appends one character.
#[verifier::external_body]
fn push_char(out: &mut String, c: char)
    ensures
        final(out)@ == old(out)@.push(c),
{
    out.push(c);
}

fn push_digits(out: &mut String, n: u64)
    ensures
        final(out)@ == old(out)@ + decimal(n as nat),
    decreases n,
{
    if n >= 10 {
        push_digits(out, n / 10);
    }
    let d = n % 10;
    let c = if d == 0 { '0' }
        else if d == 1 { '1' }
        else if d == 2 { '2' }
        else if d == 3 { '3' }
        else if d == 4 { '4' }
        else if d == 5 { '5' }
        else if d == 6 { '6' }
        else if d == 7 { '7' }
        else if d == 8 { '8' }
        else { '9' };
    push_char(out, c);
    proof {
        assert(old(out)@ + decimal(n as nat) =~= final(out)@);
    }
}

fn push_text(out: &mut String, s: &String)
    ensures
        final(out)@ == old(out)@ + s@,
{
    out.append(s.as_str());
}

fn push_repeated(out: &mut String, c: char, n: usize)
    ensures
        final(out)@ == old(out)@ + repeated(c, n as nat),
{
    let ghost start = out@;
    let mut i: usize = 0;
    while i < n
        invariant
            i <= n,
            out@ == start + repeated(c, i as nat),
        decreases n - i,
    {
        push_char(out, c);
        proof {
            assert(start + repeated(c, (i + 1) as nat) =~= (start + repeated(c, i as nat)).push(c));
        }
        i = i + 1;
    }
}

/// Writes a leaf's text; a container writes nothing here.
fn push_leaf(out: &mut String, n: &Node)
    ensures
        final(out)@ == old(out)@ + leaf_text(n@),
{
    let ghost start = out@;
    match n {
        Node::Text(t) => push_text(out, t),
        Node::Html(t) => push_text(out, t),
        Node::Code(t) => {
            push_char(out, '`');
            push_text(out, t);
            push_char(out, '`');
        },
        Node::FootnoteReference(t) => {
            push_char(out, '[');
            push_char(out, '^');
            push_text(out, t);
            push_char(out, ']');
        },
        Node::SoftBreak => push_char(out, '\n'),
        Node::HardBreak => {
            push_char(out, ' ');
            push_char(out, ' ');
            push_char(out, '\n');
        },
        Node::Rule => {
            push_char(out, '-');
            push_char(out, '-');
            push_char(out, '-');
            push_char(out, '\n');
        },
        Node::TaskListMarker(done) => {
            push_char(out, '[');
            if *done {
                push_char(out, 'x');
            } else {
                push_char(out, ' ');
            }
            push_char(out, ']');
            push_char(out, ' ');
        },
        Node::Node { .. } => {},
    }
    proof {
        assert(out@ =~= start + leaf_text(n@));
    }
}

fn push_code(out: &mut String, children: &Vec<Node>, indented: bool)
    ensures
        final(out)@ == old(out)@ + code_text(
            nodes_view(children@),
            if indented {
                repeated(' ', 4)
            } else {
                Seq::empty()
            },
        ),
{
    let ghost prefix = if indented {
        repeated(' ', 4)
    } else {
        Seq::<char>::empty()
    };
    let ghost m = nodes_view(children@);
    let ghost start = out@;
    proof {
        lemma_nodes_view_index(children@);
    }
    let n = children.len();
    let mut i: usize = 0;
    while i < n
        invariant
            n == children@.len(),
            m == nodes_view(children@),
            m.len() == n,
            forall|j: int| 0 <= j < n ==> #[trigger] m[j] == children@[j]@,
            i <= n,
            out@ == start + code_text(m.take(i as int), prefix),
            prefix == (if indented {
                repeated(' ', 4)
            } else {
                Seq::<char>::empty()
            }),
        decreases n - i,
    {
        let ghost before = out@;
        if indented {
            push_repeated(out, ' ', 4);
        }
        proof {
            assert(out@ =~= before + prefix);
        }
        push_leaf(out, &children[i]);
        proof {
            assert(m.take(i + 1).drop_last() =~= m.take(i as int));
            assert(m.take(i + 1).last() == children@[i as int]@);
            assert(out@ =~= start + code_text(m.take(i + 1), prefix));
        }
        i = i + 1;
    }
    proof {
        assert(m.take(n as int) =~= m);
    }
}

impl SepMode {
    /// Writes what stands between two siblings.
    pub fn render(&self, output: &mut String)
        ensures
            final(output)@ == old(output)@ + sep_text(*self),
    {
        match self {
            SepMode::Join => {
                assert(old(output)@ + sep_text(*self) =~= old(output)@);
            },
            SepMode::NewLine => push_char(output, '\n'),
        }
    }
}

impl BulletMode {
    /// The bullet of a list nested in this one: a counter from the list's
    /// start value if it has one, a `*` otherwise.
    pub fn next(&self, opt: &Option<u64>) -> (r: BulletMode)
        ensures
            r == list_bullet(*opt),
    {
        match opt {
            Some(start) => BulletMode::Number(*start),
            None => BulletMode::Char('*'),
        }
    }

    /// Writes the marker of one item and moves a counter on.
    pub fn render(&mut self, output: &mut String)
        ensures
            final(output)@ == old(output)@ + bullet_text(*old(self)),
            *final(self) == advanced(*old(self)),
    {
        match self {
            BulletMode::Char(c) => {
                push_char(output, *c);
                push_char(output, ' ');
                assert(final(output)@ =~= old(output)@ + bullet_text(*old(self)));
            },
            BulletMode::Number(i) => {
                push_digits(output, *i);
                push_char(output, '.');
                push_char(output, ' ');
                assert(final(output)@ =~= old(output)@ + bullet_text(*old(self)));
                if *i < u64::MAX {
                    *i = *i + 1;
                }
            },
        }
    }
}

/// The state of one pass of writing: the separator and bullet that the
/// enclosing container installed, the indentation level, and the text so far.
pub struct Renderer {
    pub sep: SepMode,
    pub bullet: BulletMode,
    pub indent: usize,
    pub output: String,
}

/// `after` is `before` with `r.0` written and `r.1` as the bullet; separator
/// and indentation are as they were.
pub open spec fn wrote(before: Renderer, after: Renderer, r: (Seq<char>, BulletMode)) -> bool {
    &&& after.output@ == before.output@ + r.0
    &&& after.bullet == r.1
    &&& after.sep == before.sep
    &&& after.indent == before.indent
}

impl Renderer {
    /// A pass at the top level: siblings on lines of their own, `*` bullets,
    /// no indentation, nothing written.
    pub fn new() -> (r: Renderer)
        ensures
            r.sep == SepMode::NewLine,
            r.bullet == BulletMode::Char('*'),
            r.indent == 0,
            r.output@ == Seq::<char>::empty(),
    {
        Renderer { sep: SepMode::NewLine, bullet: BulletMode::Char('*'), indent: 0, output: String::new() }
    }

    /// Writes two spaces for each level of indentation.
    pub fn render_indent(&mut self)
        ensures
            wrote(*old(self), *final(self), (repeated(' ', (2 * old(self).indent) as nat), old(self).bullet)),
    {
        let ghost start = self.output@;
        let n = self.indent;
        let mut i: usize = 0;
        while i < n
            invariant
                i <= n,
                n == old(self).indent,
                self.sep == old(self).sep,
                self.bullet == old(self).bullet,
                self.indent == old(self).indent,
                start == old(self).output@,
                self.output@ == start + repeated(' ', (2 * i) as nat),
            decreases n - i,
        {
            push_char(&mut self.output, ' ');
            push_char(&mut self.output, ' ');
            proof {
                assert(self.output@ =~= start + repeated(' ', (2 * (i + 1)) as nat));
            }
            i = i + 1;
        }
    }

    /// Writes a group of siblings, the separator between each two.
    pub fn render_children(&mut self, children: &Vec<Node>)
        ensures
            wrote(
                *old(self),
                *final(self),
                render_seq(nodes_view(children@), old(self).sep, old(self).bullet, old(self).indent),
            ),
        decreases children, 0nat,
    {
        let ghost m = nodes_view(children@);
        let ghost sep0 = self.sep;
        let ghost b0 = self.bullet;
        let ghost ind0 = self.indent;
        let ghost out0 = self.output@;
        proof {
            lemma_nodes_view_index(children@);
            assert(m.take(0) =~= Seq::<NodeModel>::empty());
        }
        let n = children.len();
        let mut i: usize = 0;
        while i < n
            invariant
                n == children@.len(),
                m == nodes_view(children@),
                m.len() == n,
                forall|j: int| 0 <= j < n ==> #[trigger] m[j] == children@[j]@,
                i <= n,
                sep0 == old(self).sep,
                b0 == old(self).bullet,
                ind0 == old(self).indent,
                out0 == old(self).output@,
                self.sep == sep0,
                self.indent == ind0,
                self.output@ == out0 + render_seq(m.take(i as int), sep0, b0, ind0).0,
                self.bullet == render_seq(m.take(i as int), sep0, b0, ind0).1,
            decreases n - i,
        {
            let ghost mid = self.output@;
            let ghost r = render_seq(m.take(i as int), sep0, b0, ind0);
            if i > 0 {
                self.sep.render(&mut self.output);
            }
            proof {
                assert(decreases_to!(children => children@));
                assert(decreases_to!(children@ => children@[i as int]));
            }
            let ghost mid2 = self.output@;
            self.render_node(&children[i]);
            proof {
                let s = m.take(i + 1);
                assert(s.drop_last() =~= m.take(i as int));
                assert(s.last() == m[i as int]);
                if i == 0 {
                    assert(mid2 == out0);
                    assert(self.output@ =~= out0 + render_seq(s, sep0, b0, ind0).0);
                } else {
                    assert(self.output@ =~= out0 + render_seq(s, sep0, b0, ind0).0);
                }
            }
            i = i + 1;
        }
        proof {
            assert(m.take(n as int) =~= m);
        }
    }

    /// Writes one node and all below it.
    pub fn render_node(&mut self, child: &Node)
        ensures
            wrote(*old(self), *final(self), render_model(child@, old(self).sep, old(self).bullet, old(self).indent)),
        decreases child, 0nat,
    {
        match child {
            Node::Node { tag, children } => self.render_nested(tag, children),
            _ => push_leaf(&mut self.output, child),
        }
    }

    /// Writes a container, given its tag and its children.
    pub fn render_nested(&mut self, tag: &Tag, children: &Vec<Node>)
        ensures
            wrote(
                *old(self),
                *final(self),
                render_model(
                    (NodeModel::Branch { tag: *tag, children: nodes_view(children@) }),
                    old(self).sep,
                    old(self).bullet,
                    old(self).indent,
                ),
            ),
        decreases children, 1nat,
    {
        match tag {
            Tag::Heading(level) => {
                let sep = self.sep;
                self.sep = SepMode::Join;
                let count: u32 = if *level == 0 { 1 } else { *level };
                push_repeated(&mut self.output, '#', count as usize);
                push_char(&mut self.output, ' ');
                self.render_children(children);
                self.sep = sep;
            },
            Tag::List(opt) => {
                let sep = self.sep;
                self.sep = SepMode::NewLine;
                let bullet = self.bullet;
                self.bullet = bullet.next(opt);
                push_char(&mut self.output, '\n');
                self.render_children(children);
                self.sep = sep;
                self.bullet = bullet;
            },
            Tag::Item => {
                let sep = self.sep;
                self.sep = SepMode::Join;
                self.render_indent();
                let indent = self.indent;
                self.indent = if indent < usize::MAX { indent + 1 } else { indent };
                self.bullet.render(&mut self.output);
                self.render_children(children);
                self.sep = sep;
                self.indent = indent;
            },
            Tag::CodeBlock(CodeBlockKind::Fenced(lang)) => {
                push_repeated(&mut self.output, '`', 3);
                push_text(&mut self.output, lang);
                push_char(&mut self.output, '\n');
                push_code(&mut self.output, children, false);
                push_repeated(&mut self.output, '`', 3);
            },
            Tag::CodeBlock(CodeBlockKind::Indented) => {
                push_code(&mut self.output, children, true);
            },
            _ => {
                let sep = self.sep;
                self.sep = SepMode::Join;
                self.render_children(children);
                self.sep = sep;
            },
        }
        proof {
            assert(self.output@ =~= old(self).output@ + render_model(
                (NodeModel::Branch { tag: *tag, children: nodes_view(children@) }),
                old(self).sep,
                old(self).bullet,
                old(self).indent,
            ).0);
        }
    }
}

/// Writes a whole document as markdown.
pub fn render_document(doc: &Vec<Node>) -> (r: String)
    ensures
        r@ == document_text(nodes_view(doc@)),
{
    let mut renderer = Renderer::new();
    push_char(&mut renderer.output, '\n');
    renderer.render_children(doc);
    proof {
        assert(renderer.output@ =~= document_text(nodes_view(doc@)));
    }
    renderer.output
}

} // verus!
