use todo_bin::{Todo, TodoItem};

fn listed(t: &Todo) -> Vec<(usize, String, bool)> {
    t.list()
}

#[test]
fn import_reads_numbered_lines_and_skips_the_header() {
    let t = Todo::from_markdown(
        "# TODO for project: proj\n1. buy milk\n2. ~~pay bills~~\n3. call mom\n",
    );
    let l = listed(&t);
    assert_eq!(l.len(), 3);
    assert_eq!(l[0], (1, "buy milk".to_string(), false));
    assert_eq!(l[1], (2, "pay bills".to_string(), true));
    assert_eq!(l[2], (3, "call mom".to_string(), false));
}

#[test]
fn import_does_not_trust_the_ordinals() {
    let t = Todo::from_markdown("7. first\n99. second\n");
    let l = listed(&t);
    assert_eq!(l.len(), 2);
    assert_eq!(l[0], (1, "first".to_string(), false));
    assert_eq!(l[1], (2, "second".to_string(), false));
}

#[test]
fn import_skips_lines_that_match_no_task_pattern() {
    let t = Todo::from_markdown("no ordinal\n1.missing space\n. no digits\n\n2. kept\n");
    let l = listed(&t);
    assert_eq!(l.len(), 1);
    assert_eq!(l[0].1, "kept");
}

#[test]
fn import_anchors_the_trailing_marker_to_the_line_end() {
    let t = Todo::from_markdown("1. ~~a~~ b\n");
    let l = listed(&t);
    assert_eq!(l[0], (1, "~~a~~ b".to_string(), false));
}

#[test]
fn import_ignores_a_marker_in_the_middle() {
    let t = Todo::from_markdown("1. a ~~mid~~ z\n");
    assert_eq!(listed(&t)[0], (1, "a ~~mid~~ z".to_string(), false));
}

#[test]
fn import_reads_bare_markers_as_a_finished_empty_task() {
    let t = Todo::from_markdown("1. ~~~~\n");
    assert_eq!(listed(&t)[0], (1, "".to_string(), true));
}

#[test]
fn import_needs_disjoint_markers() {
    let t = Todo::from_markdown("1. ~~~\n");
    assert_eq!(listed(&t)[0], (1, "~~~".to_string(), false));
}

#[test]
fn import_counts_a_final_line_without_newline() {
    let t = Todo::from_markdown("1. first\n2. ~~last~~");
    let l = listed(&t);
    assert_eq!(l.len(), 2);
    assert_eq!(l[1], (2, "last".to_string(), true));
}

#[test]
fn import_of_empty_text_is_the_empty_store() {
    let t = Todo::from_markdown("");
    assert_eq!(listed(&t).len(), 0);
}

#[test]
fn import_reads_back_an_exported_store() {
    let mut t = Todo::empty();
    t.todo.push(TodoItem::new("buy milk".to_string(), false));
    t.todo.push(TodoItem::new("pay bills".to_string(), true));
    t.todo.push(TodoItem::new("call mom".to_string(), false));
    let back = Todo::from_markdown(&t.get_content_string());
    assert_eq!(listed(&back), listed(&t));
}
