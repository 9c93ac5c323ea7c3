use todo_store::list::TodoList;
use todo_store::priority::Priority;
use todo_store::todo::Todo;

fn task(id: u64, name: &str, priority: Priority) -> Todo {
    Todo {
        id,
        name: String::from(name),
        details: String::new(),
        done: false,
        priority,
    }
}

#[test]
fn empty_store() {
    let s = TodoList::new();
    assert_eq!(s.get_next_id(), 0);
    assert_eq!(s.todos.len(), 0);
    assert_eq!(s.last_id, 0);
}

#[test]
fn add_assigns_sequential_ids() {
    let s0 = TodoList::new();
    let s1 = s0.add_todo(task(s0.get_next_id(), "one", Priority::Low));
    let s2 = s1.add_todo(task(s1.get_next_id(), "two", Priority::High));
    let s3 = s2.add_todo(task(s2.get_next_id(), "three", Priority::Unknown));
    assert_eq!(s3.last_id, 3);
    assert_eq!(s3.todos[0].id, 0);
    assert_eq!(s3.todos[1].id, 1);
    assert_eq!(s3.todos[2].id, 2);
}

#[test]
fn ids_not_reused_after_remove() {
    let s0 = TodoList::new();
    let s1 = s0.add_todo(task(s0.get_next_id(), "one", Priority::Low));
    let s2 = s1.add_todo(task(s1.get_next_id(), "two", Priority::High));
    let s3 = s2.remove_todo(0);
    // last_id is untouched by removal, so the freed id 0 is never assigned again
    assert_eq!(s3.last_id, 2);
    assert_eq!(s3.get_next_id(), 2);
    let s4 = s3.add_todo(task(s3.get_next_id(), "three", Priority::Medium));
    assert_eq!(s4.todos[1].id, 2);
}

#[test]
fn operations_leave_receiver_unchanged() {
    let s0 = TodoList::new();
    let s1 = s0.add_todo(task(0, "one", Priority::Low));
    let s2 = s1.add_todo(task(1, "two", Priority::High));
    let snapshot = s2.clone();

    let _ = s2.add_todo(task(2, "three", Priority::Medium));
    assert_eq!(s2, snapshot);
    let _ = s2.replace_todo(0, task(0, "changed", Priority::Critical));
    assert_eq!(s2, snapshot);
    let _ = s2.remove_todo(1);
    assert_eq!(s2, snapshot);
    let _ = s2.find_by_id(1);
    assert_eq!(s2, snapshot);

    let t = task(7, "seven", Priority::Unknown);
    let t_snapshot = t.clone();
    let flipped = t.done(true);
    assert_eq!(t, t_snapshot);
    assert!(flipped.done);
    assert_eq!(flipped.id, 7);
}

#[test]
fn replace_changes_only_that_index() {
    let s0 = TodoList::new();
    let s1 = s0.add_todo(task(0, "one", Priority::Low));
    let s2 = s1.add_todo(task(1, "two", Priority::High));
    let s3 = s2.add_todo(task(2, "three", Priority::Medium));
    let replacement = task(1, "two rewritten", Priority::Critical);
    let s4 = s3.replace_todo(1, replacement.clone());
    assert_eq!(s4.todos.len(), 3);
    assert_eq!(s4.todos[0], s3.todos[0]);
    assert_eq!(s4.todos[1], replacement);
    assert_eq!(s4.todos[2], s3.todos[2]);
    assert_eq!(s4.last_id, s3.last_id);
}

#[test]
fn remove_shifts_later_entries_down() {
    let s0 = TodoList::new();
    let s1 = s0.add_todo(task(0, "one", Priority::Low));
    let s2 = s1.add_todo(task(1, "two", Priority::High));
    let s3 = s2.add_todo(task(2, "three", Priority::Medium));
    let s4 = s3.remove_todo(1);
    assert_eq!(s4.todos.len(), 2);
    assert_eq!(s4.todos[0], s3.todos[0]);
    assert_eq!(s4.todos[1], s3.todos[2]);
    assert_eq!(s4.last_id, s3.last_id);
}

#[test]
fn find_by_id_reports_position_and_absence() {
    let s0 = TodoList::new();
    let s1 = s0.add_todo(task(0, "one", Priority::Low));
    let s2 = s1.add_todo(task(1, "two", Priority::High));
    let s3 = s2.remove_todo(0);
    match s3.find_by_id(1) {
        Some((index, t)) => {
            assert_eq!(index, 0);
            assert_eq!(t.name, "two");
        }
        None => panic!("task 1 should be found"),
    }
    assert!(s3.find_by_id(0).is_none());
    assert!(s3.find_by_id(42).is_none());
}

#[test]
fn render_shows_state_priority_id_and_name() {
    let t = Todo {
        id: 3,
        name: String::from("fix roof"),
        details: String::from("before winter"),
        done: false,
        priority: Priority::High,
    };
    assert_eq!(t.render(), "  H #3 fix roof");
    let d = t.done(true);
    assert_eq!(d.render(), "\u{2714} H #3 fix roof");
    let u = Todo {
        id: 10,
        name: String::from("x"),
        details: String::new(),
        done: false,
        priority: Priority::Unknown,
    };
    assert_eq!(u.render(), "  ? #10 x");
}
