use todo_bin::{Todo, TodoError, TodoItem};

fn store(entries: &[(&str, bool)]) -> Todo {
    let mut t = Todo::empty();
    for (content, finished) in entries {
        t.todo.push(TodoItem::new(content.to_string(), *finished));
    }
    t
}

fn listed(t: &Todo) -> Vec<(usize, String, bool)> {
    t.list()
}

#[test]
fn new_without_data_is_the_empty_store() {
    let t = Todo::new(None).unwrap();
    assert_eq!(listed(&t).len(), 0);
}

#[test]
fn new_of_empty_text_is_the_empty_store() {
    let t = Todo::new(Some("")).unwrap();
    assert_eq!(listed(&t).len(), 0);
}

#[test]
fn save_data_renders_one_marked_line_per_task() {
    let t = store(&[("buy milk", false), ("pay bills", true)]);
    assert_eq!(t.save_data(), "-buy milk\nxpay bills\n");
}

#[test]
fn save_data_escapes_backslash_and_newline() {
    let t = store(&[("a\\b", false), ("two\nlines", true)]);
    assert_eq!(t.save_data(), "-a\\\\b\nxtwo\\nlines\n");
}

#[test]
fn decode_reads_marked_lines() {
    let t = Todo::new(Some("-a\nxb\n")).unwrap();
    let l = listed(&t);
    assert_eq!(l.len(), 2);
    assert_eq!(l[0], (1, "a".to_string(), false));
    assert_eq!(l[1], (2, "b".to_string(), true));
}

#[test]
fn round_trip_preserves_content_flags_and_order() {
    let t = store(&[
        ("buy milk", false),
        ("pay bills", true),
        ("call mom", false),
    ]);
    let encoded = t.save_data();
    let back = Todo::new(Some(encoded.as_str())).unwrap();
    assert_eq!(listed(&back), listed(&t));
}

#[test]
fn round_trip_preserves_awkward_texts() {
    let t = store(&[
        ("ends with backslash \\", false),
        ("embedded\nnewline", true),
        ("~~looks finished~~", false),
        ("1. looks numbered", true),
        ("", false),
    ]);
    let encoded = t.save_data();
    let back = Todo::new(Some(encoded.as_str())).unwrap();
    assert_eq!(listed(&back), listed(&t));
}

#[test]
fn unterminated_line_is_corruption() {
    assert_eq!(
        Todo::new(Some("-no newline")).map(|t| t.list()),
        Err(TodoError::CorruptData)
    );
}

#[test]
fn unknown_completion_mark_is_corruption() {
    assert_eq!(
        Todo::new(Some("?what\n")).map(|t| t.list()),
        Err(TodoError::CorruptData)
    );
}

#[test]
fn empty_line_is_corruption() {
    assert_eq!(
        Todo::new(Some("\n")).map(|t| t.list()),
        Err(TodoError::CorruptData)
    );
}

#[test]
fn bad_escape_is_corruption() {
    assert_eq!(
        Todo::new(Some("-bad\\q\n")).map(|t| t.list()),
        Err(TodoError::CorruptData)
    );
}

#[test]
fn trailing_backslash_is_corruption() {
    assert_eq!(
        Todo::new(Some("-bad\\\n")).map(|t| t.list()),
        Err(TodoError::CorruptData)
    );
}

#[test]
fn export_names_the_project_directory() {
    let t = store(&[("buy milk", false), ("pay bills", true), ("call mom", false)]);
    let text = t.export_markdown("proj", false);
    assert_eq!(
        text,
        "# TODO for project: proj\n1. buy milk\n2. ~~pay bills~~\n3. call mom\n"
    );
}

#[test]
fn export_global_uses_the_global_header() {
    let t = store(&[("only", true)]);
    let text = t.export_markdown("ignored", true);
    assert_eq!(text, "# TODO: Global\n1. ~~only~~\n");
}

#[test]
fn export_numbers_double_digit_positions() {
    let mut t = Todo::empty();
    for i in 0..12 {
        t.todo.push(TodoItem::new(format!("task {}", i), false));
    }
    let text = t.get_content_string();
    assert!(text.contains("10. task 9\n"));
    assert!(text.contains("12. task 11\n"));
}

#[test]
fn export_of_empty_store_is_just_the_header() {
    let t = Todo::empty();
    assert_eq!(t.export_markdown("p", true), "# TODO: Global\n");
}
