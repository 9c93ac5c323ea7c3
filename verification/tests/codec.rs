use todo_store::error::Error;
use todo_store::list::TodoList;
use todo_store::priority::Priority;
use todo_store::todo::Todo;

fn task(id: u64, name: &str, details: &str, done: bool, priority: Priority) -> Todo {
    Todo {
        id,
        name: String::from(name),
        details: String::from(details),
        done,
        priority,
    }
}

#[test]
fn document_format_exact() {
    let s = TodoList::new()
        .add_todo(task(0, "write spec", "", false, Priority::High));
    let text = s.to_document();
    let expected = "last_id = 1\n\n[[todos]]\nid = 0\nname = \"write spec\"\ndetails = \"\"\ndone = false\npriority = 3\n";
    assert_eq!(text, expected);
}

#[test]
fn round_trip_simple() {
    let s = TodoList::new()
        .add_todo(task(0, "one", "first thing", false, Priority::Low))
        .add_todo(task(1, "two", "", true, Priority::Critical));
    let text = s.to_document();
    let back = TodoList::parse_document(&text).expect("own document must load");
    assert_eq!(back, s);
}

#[test]
fn round_trip_empty_store() {
    let s = TodoList::new();
    let back = TodoList::parse_document(&s.to_document()).expect("empty store must load");
    assert_eq!(back, s);
}

#[test]
fn round_trip_awkward_strings() {
    let s = TodoList::new()
        .add_todo(task(0, "say \"hi\"", "line one\nline two", false, Priority::Medium))
        .add_todo(task(1, "back\\slash", "tab\there\rreturn", true, Priority::Unknown))
        .add_todo(task(2, "uml\u{e4}ut \u{2714}", "", false, Priority::High));
    let text = s.to_document();
    let back = TodoList::parse_document(&text).expect("escaped document must load");
    assert_eq!(back, s);
}

#[test]
fn round_trip_large_ids() {
    let mut s = TodoList::new();
    s.last_id = u64::MAX - 1;
    let s = s.add_todo(task(u64::MAX - 1, "last", "", false, Priority::Low));
    let back = TodoList::parse_document(&s.to_document()).expect("large ids must load");
    assert_eq!(back, s);
}

#[test]
fn blank_lines_are_skipped() {
    let text = "\nlast_id = 1\n\n\n[[todos]]\nid = 0\nname = \"x\"\ndetails = \"\"\ndone = true\npriority = 4\n\n";
    let s = TodoList::parse_document(text).expect("blank lines are harmless");
    assert_eq!(s.last_id, 1);
    assert_eq!(s.todos.len(), 1);
    assert!(s.todos[0].done);
    assert_eq!(s.todos[0].priority, Priority::Critical);
}

#[test]
fn missing_trailing_newline_is_accepted() {
    let s = TodoList::parse_document("last_id = 0").expect("a bare last_id line is a store");
    assert_eq!(s.last_id, 0);
    assert_eq!(s.todos.len(), 0);
}

#[test]
fn priority_out_of_range_decodes_leniently() {
    let text = "last_id = 1\n[[todos]]\nid = 0\nname = \"x\"\ndetails = \"\"\ndone = false\npriority = 99\n";
    let s = TodoList::parse_document(text).expect("out-of-range priority is lenient");
    assert_eq!(s.todos[0].priority, Priority::Unknown);
}

#[test]
fn ill_formed_line_is_a_parse_error_with_location() {
    let text = "last_id = 0\nwhat is this\n";
    match TodoList::parse_document(text) {
        Err(Error::ParserError(issues)) => {
            assert_eq!(issues.len(), 1);
            assert_eq!(issues[0].line, 2);
            assert_eq!(issues[0].col, 1);
        }
        other => panic!("expected a parse error, got {:?}", other),
    }
}

#[test]
fn every_ill_formed_line_is_reported() {
    let text = "garbage\nlast_id = 0\nid = not a number\nname = \"unterminated\n";
    match TodoList::parse_document(text) {
        Err(Error::ParserError(issues)) => {
            let lines: Vec<u64> = issues.iter().map(|i| i.line).collect();
            assert_eq!(lines, vec![1, 3, 4]);
        }
        other => panic!("expected a parse error, got {:?}", other),
    }
}

#[test]
fn numeric_overflow_is_rejected() {
    let text = "last_id = 99999999999999999999999999\n";
    assert!(matches!(
        TodoList::parse_document(text),
        Err(Error::ParserError(_))
    ));
}

#[test]
fn wrong_shape_is_a_decode_error() {
    // well-formed lines, but no last_id at the front
    assert!(matches!(
        TodoList::parse_document("id = 0\n"),
        Err(Error::DecodeError)
    ));
    // empty document: nothing at all
    assert!(matches!(
        TodoList::parse_document(""),
        Err(Error::DecodeError)
    ));
    // task block with a missing field
    let text = "last_id = 1\n[[todos]]\nid = 0\nname = \"x\"\ndone = false\npriority = 0\n";
    assert!(matches!(
        TodoList::parse_document(text),
        Err(Error::DecodeError)
    ));
    // fields out of order
    let text2 = "last_id = 1\n[[todos]]\nname = \"x\"\nid = 0\ndetails = \"\"\ndone = false\npriority = 0\n";
    assert!(matches!(
        TodoList::parse_document(text2),
        Err(Error::DecodeError)
    ));
}

#[test]
fn strict_line_syntax() {
    // no spaces around the equals sign
    assert!(matches!(
        TodoList::parse_document("last_id=0\n"),
        Err(Error::ParserError(_))
    ));
    // unquoted string value
    let text = "last_id = 1\n[[todos]]\nid = 0\nname = x\ndetails = \"\"\ndone = false\npriority = 0\n";
    assert!(matches!(
        TodoList::parse_document(text),
        Err(Error::ParserError(_))
    ));
    // junk after a closing quote
    let text2 = "last_id = 1\n[[todos]]\nid = 0\nname = \"x\" tail\ndetails = \"\"\ndone = false\npriority = 0\n";
    assert!(matches!(
        TodoList::parse_document(text2),
        Err(Error::ParserError(_))
    ));
}

#[test]
fn error_messages() {
    assert_eq!(Error::DecodeError.message(), "Decode Error");
    assert_eq!(Error::EncodeError.message(), "Encode Error");
    assert_eq!(
        Error::IOError(String::from("no such file")).message(),
        "IO Error: no such file"
    );
    assert_eq!(
        Error::BaseDirectoriesError(String::from("no home")).message(),
        "BaseDirectories Error: no home"
    );
    match TodoList::parse_document("last_id = 0\n???\n") {
        Err(e @ Error::ParserError(_)) => {
            assert_eq!(e.message(), "Parse Errors:\n  line 2, column 1");
        }
        other => panic!("expected a parse error, got {:?}", other),
    }
}

#[test]
fn full_scenario() {
    // start empty, add "write spec" with priority High: it gets id 0
    let s0 = TodoList::new();
    let id = s0.get_next_id();
    assert_eq!(id, 0);
    let s1 = s0.add_todo(task(id, "write spec", "", false, Priority::High));
    assert_eq!(s1.last_id, 1);

    // find it back by id
    let (index, found) = s1.find_by_id(0).expect("task 0 exists");
    assert_eq!(index, 0);
    assert_eq!(found.name, "write spec");

    // mark it done by replacement
    let done = found.done(true);
    let s2 = s1.replace_todo(index, done);
    assert!(s2.todos[0].done);
    assert_eq!(s2.todos[0].id, 0);

    // saving and loading reproduces the exact state
    let text = s2.to_document();
    let back = TodoList::parse_document(&text).expect("document must load");
    assert_eq!(back, s2);
    assert!(back.todos[0].done);
    assert_eq!(back.todos[0].priority, Priority::High);
}
