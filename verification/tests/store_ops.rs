use todo_bin::{Todo, TodoError, TodoItem};

fn args(xs: &[&str]) -> Vec<String> {
    xs.iter().map(|s| s.to_string()).collect()
}

fn store(entries: &[(&str, bool)]) -> Todo {
    let mut t = Todo::empty();
    for (content, finished) in entries {
        t.todo.push(TodoItem::new(content.to_string(), *finished));
    }
    t
}

fn entries(t: &Todo) -> Vec<(usize, String, bool)> {
    t.list()
}

#[test]
fn add_appends_one_unfinished_task_verbatim() {
    let mut t = Todo::empty();
    assert!(t.add(&args(&["buy milk"])).is_ok());
    let listed = entries(&t);
    assert_eq!(listed.len(), 1);
    assert_eq!(listed[0], (1, "buy milk".to_string(), false));
}

#[test]
fn add_keeps_surrounding_whitespace_verbatim() {
    let mut t = Todo::empty();
    assert!(t.add(&args(&["  padded  "])).is_ok());
    let listed = entries(&t);
    assert_eq!(listed.len(), 1);
    assert_eq!(listed[0].1, "  padded  ");
}

#[test]
fn add_skips_blank_entries() {
    let mut t = Todo::empty();
    assert!(t.add(&args(&["", "   ", "\t\n", "\u{00A0}\u{3000}"])).is_ok());
    assert_eq!(entries(&t).len(), 0);
}

#[test]
fn add_mixed_blank_and_real_entries() {
    let mut t = Todo::empty();
    assert!(t.add(&args(&["  ", "first", "", "second"])).is_ok());
    let listed = entries(&t);
    assert_eq!(listed.len(), 2);
    assert_eq!(listed[0].1, "first");
    assert_eq!(listed[1].1, "second");
}

#[test]
fn add_without_arguments_is_a_usage_error() {
    let mut t = store(&[("kept", false)]);
    assert_eq!(t.add(&args(&[])), Err(TodoError::MissingArguments));
    assert_eq!(entries(&t).len(), 1);
}

#[test]
fn done_toggles_selected_index() {
    let mut t = store(&[("a", false), ("b", false)]);
    assert!(t.done(&args(&["2"])).is_ok());
    let listed = entries(&t);
    assert_eq!(listed[0].2, false);
    assert_eq!(listed[1].2, true);
}

#[test]
fn done_twice_restores_the_original_state() {
    let mut t = store(&[("a", false), ("b", true), ("c", false)]);
    let before: Vec<(usize, String, bool)> = entries(&t);
    assert!(t.done(&args(&["2", "3"])).is_ok());
    assert!(t.done(&args(&["2", "3"])).is_ok());
    assert_eq!(entries(&t), before);
}

#[test]
fn done_out_of_range_is_silently_ignored() {
    let mut t = store(&[("a", false), ("b", true)]);
    let before = entries(&t);
    assert!(t.done(&args(&["7", "0"])).is_ok());
    assert_eq!(entries(&t), before);
}

#[test]
fn done_matches_the_canonical_index_rendering_only() {
    let mut t = store(&[("a", false)]);
    assert!(t.done(&args(&["01"])).is_ok());
    assert_eq!(entries(&t)[0].2, false);
    assert!(t.done(&args(&["1"])).is_ok());
    assert_eq!(entries(&t)[0].2, true);
}

#[test]
fn done_without_arguments_is_a_usage_error() {
    let mut t = store(&[("a", false)]);
    assert_eq!(t.done(&args(&[])), Err(TodoError::MissingArguments));
}

#[test]
fn remove_done_removes_exactly_the_finished_tasks() {
    let mut t = store(&[("a", true), ("b", false), ("c", true), ("d", false)]);
    assert!(t.remove(&args(&["done"])).is_ok());
    let listed = entries(&t);
    assert_eq!(listed.len(), 2);
    assert_eq!(listed[0], (1, "b".to_string(), false));
    assert_eq!(listed[1], (2, "d".to_string(), false));
}

#[test]
fn remove_by_index_judges_positions_against_the_snapshot() {
    let mut t = store(&[("a", false), ("b", false), ("c", false)]);
    assert!(t.remove(&args(&["1", "3"])).is_ok());
    let listed = entries(&t);
    assert_eq!(listed.len(), 1);
    assert_eq!(listed[0].1, "b");
}

#[test]
fn remove_mixes_done_selector_and_indices() {
    let mut t = store(&[("a", false), ("b", true), ("c", false)]);
    assert!(t.remove(&args(&["done", "1"])).is_ok());
    let listed = entries(&t);
    assert_eq!(listed.len(), 1);
    assert_eq!(listed[0].1, "c");
}

#[test]
fn remove_without_arguments_is_a_usage_error() {
    let mut t = store(&[("a", false)]);
    assert_eq!(t.remove(&args(&[])), Err(TodoError::MissingArguments));
    assert_eq!(entries(&t).len(), 1);
}

#[test]
fn sort_partitions_stably() {
    let mut t = store(&[("buy milk", false), ("pay bills", true), ("call mom", false)]);
    t.sort();
    let listed = entries(&t);
    assert_eq!(listed[0], (1, "buy milk".to_string(), false));
    assert_eq!(listed[1], (2, "call mom".to_string(), false));
    assert_eq!(listed[2], (3, "pay bills".to_string(), true));
}

#[test]
fn sort_twice_equals_sort_once() {
    let mut t = store(&[("a", true), ("b", false), ("c", true), ("d", false)]);
    t.sort();
    let once = entries(&t);
    t.sort();
    assert_eq!(entries(&t), once);
}

#[test]
fn sort_of_empty_store_is_empty() {
    let mut t = Todo::empty();
    t.sort();
    assert_eq!(entries(&t).len(), 0);
}

#[test]
fn list_numbers_tasks_from_one() {
    let t = store(&[("x", false), ("y", true)]);
    let listed = entries(&t);
    assert_eq!(listed[0].0, 1);
    assert_eq!(listed[1].0, 2);
}

#[test]
fn raw_todo_yields_unfinished_contents_only() {
    let mut t = store(&[("buy milk", false), ("pay bills", true), ("call mom", false)]);
    t.sort();
    let lines = t.raw(&args(&["todo"])).unwrap();
    assert_eq!(lines, vec!["buy milk".to_string(), "call mom".to_string()]);
}

#[test]
fn raw_done_yields_finished_contents_only() {
    let t = store(&[("a", false), ("b", true), ("c", true)]);
    let lines = t.raw(&args(&["done"])).unwrap();
    assert_eq!(lines, vec!["b".to_string(), "c".to_string()]);
}

#[test]
fn raw_with_unknown_filter_yields_nothing() {
    let t = store(&[("a", false), ("b", true)]);
    let lines = t.raw(&args(&["bogus"])).unwrap();
    assert_eq!(lines.len(), 0);
}

#[test]
fn raw_without_arguments_is_a_usage_error() {
    let t = store(&[("a", false)]);
    assert_eq!(t.raw(&args(&[])), Err(TodoError::MissingArguments));
}

#[test]
fn raw_with_two_arguments_is_a_usage_error() {
    let t = store(&[("a", false)]);
    assert_eq!(t.raw(&args(&["todo", "done"])), Err(TodoError::ExtraArguments));
}

#[test]
fn help_text_names_the_commands() {
    let text = todo_bin::help();
    assert!(text.contains("Usage: todo"));
    assert!(text.contains("- add"));
    assert!(text.contains("- raw"));
}
