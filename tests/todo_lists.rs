use two_trucs::model::{is_unfinished_task, CodeBlockKind, Node, Tag, TaskState};
use two_trucs::parse::{build_document, Event};
use two_trucs::render::{render_document, BulletMode, Renderer, SepMode};
use two_trucs::rotate::{start_next_day, RotateError};
use two_trucs::sort::sort_tasks;

fn text(s: &str) -> Node {
    Node::Text(s.to_string())
}

fn node(tag: Tag, children: Vec<Node>) -> Node {
    Node::Node { tag, children }
}

fn task(done: bool, label: &str) -> Node {
    node(Tag::Item, vec![Node::TaskListMarker(done), text(label)])
}

fn heading(level: u32, title: &str) -> Node {
    node(Tag::Heading(level), vec![text(title)])
}

#[test]
fn unfinished_tasks_move_first_and_keep_order() {
    let mut doc = vec![node(
        Tag::List(None),
        vec![task(false, "b"), task(true, "a"), task(false, "c")],
    )];
    sort_tasks(&mut doc);
    assert_eq!(render_document(&doc), "\n\n* [ ] b\n* [ ] c\n* [x] a");
}

#[test]
fn sorting_twice_changes_nothing() {
    let mut doc = vec![
        heading(1, "Todo"),
        node(
            Tag::List(None),
            vec![
                task(true, "one"),
                node(
                    Tag::Item,
                    vec![
                        Node::TaskListMarker(false),
                        text("two"),
                        node(Tag::List(None), vec![task(true, "x"), task(false, "y")]),
                    ],
                ),
                task(false, "three"),
            ],
        ),
    ];
    sort_tasks(&mut doc);
    let once = render_document(&doc);
    sort_tasks(&mut doc);
    assert_eq!(render_document(&doc), once);
    assert_eq!(
        once,
        "\n# Todo\n\n* [ ] two\n  * [ ] y\n  * [x] x\n* [ ] three\n* [x] one"
    );
}

#[test]
fn nested_lists_are_sorted_and_indented() {
    let mut doc = vec![node(
        Tag::List(None),
        vec![node(
            Tag::Item,
            vec![
                text("parent"),
                node(Tag::List(None), vec![task(true, "done"), task(false, "open")]),
            ],
        )],
    )];
    sort_tasks(&mut doc);
    assert_eq!(render_document(&doc), "\n\n* parent\n  * [ ] open\n  * [x] done");
}

#[test]
fn non_task_children_are_grouped_with_finished_ones() {
    let mut doc = vec![node(
        Tag::List(None),
        vec![
            node(Tag::Item, vec![text("note")]),
            task(true, "done"),
            task(false, "open"),
        ],
    )];
    sort_tasks(&mut doc);
    assert_eq!(render_document(&doc), "\n\n* [ ] open\n* note\n* [x] done");
}

#[test]
fn containers_other_than_lists_keep_their_order() {
    let mut doc = vec![node(
        Tag::BlockQuote,
        vec![task(true, "a"), task(false, "b")],
    )];
    sort_tasks(&mut doc);
    assert_eq!(render_document(&doc), "\n* [x] a* [ ] b");
}

#[test]
fn ordered_list_numbers_restart_from_start() {
    let mut doc = vec![node(
        Tag::List(Some(1)),
        vec![task(false, "x"), task(true, "y")],
    )];
    sort_tasks(&mut doc);
    assert_eq!(render_document(&doc), "\n\n1. [ ] x\n2. [x] y");
}

#[test]
fn ordered_list_numbers_follow_new_positions() {
    let mut doc = vec![node(
        Tag::List(Some(7)),
        vec![task(true, "y"), task(false, "x"), task(false, "z")],
    )];
    sort_tasks(&mut doc);
    assert_eq!(render_document(&doc), "\n\n7. [ ] x\n8. [ ] z\n9. [x] y");
}

#[test]
fn numbering_goes_past_one_digit_and_restarts_per_list() {
    let items: Vec<Node> = (0..11).map(|i| node(Tag::Item, vec![text(&format!("i{}", i))])).collect();
    let doc = vec![
        node(Tag::List(Some(1)), items),
        node(Tag::List(Some(1)), vec![node(Tag::Item, vec![text("again")])]),
    ];
    let out = render_document(&doc);
    assert!(out.contains("\n9. i8\n10. i9\n11. i10\n"));
    assert!(out.ends_with("\n\n1. again"));
}

#[test]
fn rotation_moves_unfinished_tasks_under_new_heading() {
    let mut doc = vec![
        heading(1, "Today"),
        node(Tag::List(None), vec![task(true, "finished"), task(false, "unfinished")]),
    ];
    sort_tasks(&mut doc);
    assert_eq!(start_next_day(&mut doc, "Tomorrow"), Ok(()));
    assert_eq!(doc.len(), 4);
    assert_eq!(
        render_document(&doc),
        "\n# Tomorrow\n\n* [ ] unfinished\n# Today\n\n* [x] finished"
    );
}

#[test]
fn rotation_removes_lists_left_empty() {
    let mut doc = vec![
        heading(2, "Old"),
        node(Tag::List(None), vec![task(false, "a"), task(false, "b")]),
        node(Tag::List(None), vec![task(false, "c"), task(true, "d")]),
    ];
    assert_eq!(start_next_day(&mut doc, "New"), Ok(()));
    assert_eq!(doc.len(), 4);
    assert_eq!(
        render_document(&doc),
        "\n# New\n\n* [ ] a\n* [ ] b\n* [ ] c\n## Old\n\n* [x] d"
    );
}

#[test]
fn rotation_keeps_task_count() {
    let mut doc = vec![node(
        Tag::List(None),
        vec![task(false, "a"), task(true, "b"), task(false, "c"), task(true, "d")],
    )];
    sort_tasks(&mut doc);
    start_next_day(&mut doc, "Day").unwrap();
    let out = render_document(&doc);
    assert_eq!(out.matches("[ ]").count(), 2);
    assert_eq!(out.matches("[x]").count(), 2);
    assert_eq!(out, "\n# Day\n\n* [ ] a\n* [ ] c\n\n* [x] b\n* [x] d");
}

#[test]
fn rotation_of_document_without_lists() {
    let mut doc = vec![node(Tag::Paragraph, vec![text("hello")])];
    assert_eq!(start_next_day(&mut doc, "Today"), Ok(()));
    assert_eq!(render_document(&doc), "\n# Today\n\n\nhello");
}

#[test]
fn rotation_refuses_title_with_line_break() {
    let mut doc = vec![node(Tag::List(None), vec![task(false, "a")])];
    assert_eq!(start_next_day(&mut doc, "two\nlines"), Err(RotateError::InvalidTitle));
    assert_eq!(start_next_day(&mut doc, "cr\r"), Err(RotateError::InvalidTitle));
    assert_eq!(render_document(&doc), "\n\n* [ ] a");
}

#[test]
fn classification_of_nodes() {
    assert_eq!(is_unfinished_task(&task(false, "a")), TaskState::Unfinished);
    assert_eq!(is_unfinished_task(&task(true, "a")), TaskState::Finished);
    assert_eq!(is_unfinished_task(&Node::TaskListMarker(false)), TaskState::Unfinished);
    assert_eq!(is_unfinished_task(&node(Tag::Item, vec![text("a")])), TaskState::NotATask);
    assert_eq!(is_unfinished_task(&node(Tag::Item, vec![])), TaskState::NotATask);
    assert_eq!(
        is_unfinished_task(&node(Tag::Paragraph, vec![Node::TaskListMarker(false)])),
        TaskState::NotATask
    );
    assert_eq!(is_unfinished_task(&text("[ ] a")), TaskState::NotATask);
}

#[test]
fn leaves_render_with_their_markup() {
    let doc = vec![node(
        Tag::Paragraph,
        vec![
            text("a"),
            Node::Code("c".to_string()),
            Node::Html("<b>".to_string()),
            Node::FootnoteReference("1".to_string()),
            Node::SoftBreak,
            text("b"),
            Node::HardBreak,
            text("c"),
        ],
    ), Node::Rule];
    assert_eq!(render_document(&doc), "\na`c`<b>[^1]\nb  \nc\n---\n");
}

#[test]
fn headings_use_their_level_and_at_least_one_hash() {
    let doc = vec![heading(3, "Three"), heading(0, "Zero")];
    assert_eq!(render_document(&doc), "\n### Three\n# Zero");
}

#[test]
fn fenced_code_block_keeps_language() {
    let doc = vec![node(
        Tag::CodeBlock(CodeBlockKind::Fenced("rust".to_string())),
        vec![text("fn main() {}\n")],
    )];
    assert_eq!(render_document(&doc), "\n```rust\nfn main() {}\n```");
}

#[test]
fn indented_code_block_is_indented_by_four() {
    let doc = vec![node(
        Tag::List(None),
        vec![node(
            Tag::Item,
            vec![
                text("x"),
                node(Tag::CodeBlock(CodeBlockKind::Indented), vec![text("a\n"), text("b\n")]),
            ],
        )],
    )];
    assert_eq!(render_document(&doc), "\n\n* x    a\n    b\n");
}

#[test]
fn empty_document_renders_one_line_break() {
    let mut doc: Vec<Node> = Vec::new();
    sort_tasks(&mut doc);
    assert_eq!(render_document(&doc), "\n");
}

#[test]
fn renderer_pieces() {
    let mut out = String::new();
    SepMode::NewLine.render(&mut out);
    SepMode::Join.render(&mut out);
    assert_eq!(out, "\n");

    let mut b = BulletMode::Number(99);
    b.render(&mut out);
    b.render(&mut out);
    assert_eq!(out, "\n99. 100. ");
    assert_eq!(b, BulletMode::Number(101));

    let mut top = BulletMode::Number(u64::MAX);
    top.render(&mut out);
    assert_eq!(top, BulletMode::Number(u64::MAX));
    assert!(out.ends_with("18446744073709551615. "));

    assert_eq!(b.next(&Some(3)), BulletMode::Number(3));
    assert_eq!(b.next(&None), BulletMode::Char('*'));

    let mut r = Renderer::new();
    r.indent = 2;
    r.render_indent();
    assert_eq!(r.output, "    ");
    r.render_node(&task(false, "t"));
    assert_eq!(r.output, "        * [ ] t");
    assert_eq!(r.indent, 2);
}

fn start(tag: Tag) -> Event {
    Event::Start(tag)
}

#[test]
fn events_build_the_tree_they_describe() {
    let events = vec![
        start(Tag::Heading(1)),
        Event::Text("Todo".to_string()),
        Event::End,
        start(Tag::List(None)),
        start(Tag::Item),
        Event::TaskListMarker(false),
        Event::Text("b".to_string()),
        Event::End,
        start(Tag::Item),
        Event::TaskListMarker(true),
        Event::Text("a".to_string()),
        Event::End,
        start(Tag::Item),
        Event::TaskListMarker(false),
        Event::Text("c".to_string()),
        Event::End,
        Event::End,
    ];
    let mut doc = build_document(events).unwrap();
    assert_eq!(doc.len(), 2);
    sort_tasks(&mut doc);
    assert_eq!(render_document(&doc), "\n# Todo\n\n* [ ] b\n* [ ] c\n* [x] a");
}

#[test]
fn events_of_leaves_become_leaves() {
    let events = vec![
        Event::Code("x".to_string()),
        Event::Html("<i>".to_string()),
        Event::FootnoteReference("n".to_string()),
        Event::SoftBreak,
        Event::HardBreak,
        Event::Rule,
        Event::TaskListMarker(true),
    ];
    let doc = build_document(events).unwrap();
    assert_eq!(doc.len(), 7);
    assert_eq!(render_document(&doc), "\n`x`\n<i>\n[^n]\n\n\n  \n\n---\n\n[x] ");
}

#[test]
fn unbalanced_events_are_refused() {
    assert!(build_document(vec![Event::End]).is_none());
    assert!(build_document(vec![start(Tag::Paragraph)]).is_none());
    assert!(build_document(vec![start(Tag::Item), Event::End, Event::End]).is_none());
    assert_eq!(build_document(Vec::new()).map(|d| d.len()), Some(0));
}
