use toolbox::todo::{
    add, is_overdue, keep_after_answer, parse_todos, show_text, sort_by_due_date, todos_to_print,
    TodoEntry,
};

fn entry(create: &str, due: &str, task: &str) -> TodoEntry {
    TodoEntry {
        create_date: create.to_string(),
        due_date: due.to_string(),
        task_description: task.to_string(),
    }
}

#[test]
fn it_works() {
    let result = add(2, 2);
    assert_eq!(result, 4);
}

#[test]
fn sorting_works() {
    let todos = vec![
        entry("xxx", "999", "desc"),
        entry("xxx", "909", "desc"),
        entry("xxx", "109", "desc"),
        entry("xxx", "666", "desc"),
    ];
    let expected_todos = vec![
        entry("xxx", "109", "desc"),
        entry("xxx", "666", "desc"),
        entry("xxx", "909", "desc"),
        entry("xxx", "999", "desc"),
    ];
    let todos = sort_by_due_date(todos);
    assert_eq!(todos_to_print(todos), todos_to_print(expected_todos));
}

#[test]
fn sorting_keeps_the_order_of_equal_dates() {
    let todos = vec![
        entry("1", "202401010000", "first"),
        entry("2", "202301010000", "early"),
        entry("3", "202401010000", "second"),
    ];
    let sorted = sort_by_due_date(todos);
    let tasks: Vec<&str> = sorted.iter().map(|t| t.task_description.as_str()).collect();
    assert_eq!(tasks, vec!["early", "first", "second"]);
}

#[test]
fn rows_are_written_and_read_back() {
    let todo = entry("202401010900", "202402011200", "write tests");
    assert_eq!(todo.make_row(), "202401010900|>write tests|>202402011200");
    let back = TodoEntry::from_row(todo.make_row()).unwrap();
    assert_eq!(back.create_date, "202401010900");
    assert_eq!(back.task_description, "write tests");
    assert_eq!(back.due_date, "202402011200");
    assert!(TodoEntry::from_row("only|>two".to_string()).is_none());
    assert!(TodoEntry::from_row("a|>b|>c|>d".to_string()).is_none());
    assert!(TodoEntry::from_row("".to_string()).is_none());
}

#[test]
fn file_text_is_parsed_and_printed() {
    let todos = parse_todos("a|>one|>1\n  b|>two|>2  \nrubbish\n\nc|>three|>3");
    assert_eq!(todos.len(), 3);
    assert_eq!(todos[1].create_date, "b");
    assert_eq!(todos[1].due_date, "2");
    assert_eq!(todos_to_print(todos), "a|>one|>1\nb|>two|>2\nc|>three|>3");
    assert_eq!(todos_to_print(Vec::new()), "");
}

#[test]
fn entries_are_shown() {
    assert_eq!(show_text(&Vec::new()), "No Todo's to show.");
    let todos = vec![entry("c1", "d1", "t1"), entry("c2", "d2", "t2")];
    assert_eq!(
        show_text(&todos),
        "(c1)\nt1\n[Due: d1]\n===\n\n(c2)\nt2\n[Due: d2]\n===\n"
    );
    assert_eq!(todos[0].display_text(), "(c1)\nt1\n[Due: d1]\n===\n");
}

#[test]
fn overdue_entries() {
    let todo = entry("x", "197001010001", "old");
    assert_eq!(is_overdue(&todo, 61), Some(true));
    assert_eq!(is_overdue(&todo, 60), Some(false));
    assert_eq!(is_overdue(&entry("x", "202413010000", "bad month"), 0), None);
    assert_eq!(is_overdue(&entry("x", "soon", "no date"), 0), None);
}

#[test]
fn only_a_plain_yes_drops_an_entry() {
    assert!(!keep_after_answer(" y\n"));
    assert!(keep_after_answer("n\n"));
    assert!(keep_after_answer("yes\n"));
    assert!(keep_after_answer("\n"));
}
