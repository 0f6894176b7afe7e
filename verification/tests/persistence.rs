use todo_list::codec::PersistenceError;
use todo_list::tasks::EditOutcome;
use todo_list::tasks::Priority;
use todo_list::tasks::TaskStatus;
use todo_list::tasks::TodoList;

fn assert_lists_equal(a: &TodoList, b: &TodoList) {
    assert_eq!(a.next_id, b.next_id);
    assert_eq!(a.tasks.len(), b.tasks.len());
    for (x, y) in a.tasks.iter().zip(b.tasks.iter()) {
        assert_eq!(x.id, y.id);
        assert_eq!(x.description, y.description);
        assert_eq!(x.importance, y.importance);
        assert_eq!(x.status, y.status);
    }
}

#[test]
fn empty_list_renders_exactly() {
    let list = TodoList::new();
    assert_eq!(list.to_json(), "{\"tasks\":[],\"next_id\":1}");
}

#[test]
fn one_task_renders_exactly() {
    let mut list = TodoList::new();
    list.add_task(String::from("Learn X"), Priority::Low);
    assert_eq!(
        list.to_json(),
        "{\"tasks\":[{\"id\":1,\"description\":\"Learn X\",\"importance\":\"Low\",\"status\":\"Pending\"}],\"next_id\":2}"
    );
}

#[test]
fn quote_backslash_and_newline_are_escaped() {
    let mut list = TodoList::new();
    list.add_task(String::from("say \"hi\"\\\n"), Priority::High);
    assert_eq!(
        list.to_json(),
        "{\"tasks\":[{\"id\":1,\"description\":\"say \\\"hi\\\"\\\\\\u000a\",\"importance\":\"High\",\"status\":\"Pending\"}],\"next_id\":2}"
    );
}

#[test]
fn round_trip_reproduces_the_collection() {
    let mut list = TodoList::new();
    list.add_task(String::from("plain"), Priority::Low);
    list.add_task(String::from("with \"quotes\" and \\slashes\\"), Priority::High);
    list.add_task(String::from("tabs\tand\nnewlines"), Priority::Medium);
    list.add_task(String::from("unicode: sch\u{f6}n \u{1f600}"), Priority::Low);
    assert_eq!(list.complete_task(2), Ok(()));
    assert_eq!(list.edit_task(3, String::from("edited text")), Ok(EditOutcome::Edited));
    assert_eq!(list.remove_task(1), Ok(()));
    let text = list.to_json();
    let loaded = TodoList::from_json(&text).expect("round trip must parse");
    assert_lists_equal(&list, &loaded);
}

#[test]
fn round_trip_of_empty_collection() {
    let list = TodoList::new();
    let loaded = TodoList::from_json(&list.to_json()).expect("round trip must parse");
    assert_lists_equal(&list, &loaded);
}

#[test]
fn indented_document_loads_as_well() {
    let text = "{\n  \"tasks\": [\n    {\n      \"id\": 1,\n      \"description\": \"A task\",\n      \"importance\": \"Medium\",\n      \"status\": \"Completed\"\n    },\n    {\n      \"id\": 4,\n      \"description\": \"Another\",\n      \"importance\": \"High\",\n      \"status\": \"Pending\"\n    }\n  ],\n  \"next_id\": 5\n}\n";
    let list = TodoList::from_json(text).expect("indented document must parse");
    assert_eq!(list.next_id, 5);
    assert_eq!(list.tasks.len(), 2);
    assert_eq!(list.tasks[0].id, 1);
    assert_eq!(list.tasks[0].description, "A task");
    assert_eq!(list.tasks[0].importance, Priority::Medium);
    assert_eq!(list.tasks[0].status, TaskStatus::Completed);
    assert_eq!(list.tasks[1].id, 4);
    assert_eq!(list.tasks[1].status, TaskStatus::Pending);
}

#[test]
fn named_and_hex_escapes_are_decoded() {
    let text = "{\"tasks\":[{\"id\":1,\"description\":\"a\\tb\\nc\\\"d\\\\e\\/f\\u0041g\",\"importance\":\"Low\",\"status\":\"Pending\"}],\"next_id\":2}";
    let list = TodoList::from_json(text).expect("escapes must parse");
    assert_eq!(list.tasks[0].description, "a\tb\nc\"d\\e/fAg");
}

#[test]
fn malformed_documents_are_refused() {
    let cases = [
        "",
        "{}",
        "not json at all",
        "{\"tasks\":[],\"next_id\":}",
        "{\"tasks\":[],\"next_id\":1",
        "{\"tasks\":[{\"id\":1}],\"next_id\":2}",
        "{\"next_id\":1,\"tasks\":[]}",
        "{\"tasks\":[],\"next_id\":1}trailing",
        "{\"tasks\":[{\"id\":1,\"description\":\"x\",\"importance\":\"Urgent\",\"status\":\"Pending\"}],\"next_id\":2}",
        "{\"tasks\":[{\"id\":1,\"description\":\"x\",\"importance\":\"Low\",\"status\":\"Done\"}],\"next_id\":2}",
        "{\"tasks\":[{\"id\":1,\"description\":\"unterminated,\"importance\":\"Low\",\"status\":\"Pending\"}],\"next_id\":2}",
        "{\"tasks\":[],\"next_id\":99999999999999999999999999}",
    ];
    for text in cases {
        let r = TodoList::from_json(text);
        assert!(
            matches!(r, Err(PersistenceError::Malformed)),
            "expected Malformed for {:?}",
            text
        );
    }
}

#[test]
fn inconsistent_documents_are_refused() {
    let cases = [
        // counter of zero
        "{\"tasks\":[],\"next_id\":0}",
        // id at the counter
        "{\"tasks\":[{\"id\":5,\"description\":\"x\",\"importance\":\"Low\",\"status\":\"Pending\"}],\"next_id\":5}",
        // id of zero
        "{\"tasks\":[{\"id\":0,\"description\":\"x\",\"importance\":\"Low\",\"status\":\"Pending\"}],\"next_id\":3}",
        // ids out of storage order
        "{\"tasks\":[{\"id\":2,\"description\":\"x\",\"importance\":\"Low\",\"status\":\"Pending\"},{\"id\":1,\"description\":\"y\",\"importance\":\"High\",\"status\":\"Pending\"}],\"next_id\":3}",
        // duplicate ids
        "{\"tasks\":[{\"id\":1,\"description\":\"x\",\"importance\":\"Low\",\"status\":\"Pending\"},{\"id\":1,\"description\":\"y\",\"importance\":\"High\",\"status\":\"Pending\"}],\"next_id\":3}",
    ];
    for text in cases {
        let r = TodoList::from_json(text);
        assert!(
            matches!(r, Err(PersistenceError::InconsistentState)),
            "expected InconsistentState for {:?}",
            text
        );
    }
}

#[test]
fn loaded_collection_keeps_working() {
    let text = "{\"tasks\":[{\"id\":2,\"description\":\"carried over\",\"importance\":\"High\",\"status\":\"Pending\"}],\"next_id\":7}";
    let mut list = TodoList::from_json(text).expect("must parse");
    let id = list.add_task(String::from("fresh"), Priority::Low);
    assert_eq!(id, 7);
    assert_eq!(list.complete_task(2), Ok(()));
    assert_eq!(list.tasks[0].status, TaskStatus::Completed);
}

#[test]
fn control_characters_round_trip() {
    let mut list = TodoList::new();
    list.add_task(String::from("bell\u{7} and esc\u{1b} and nul\u{0}"), Priority::Low);
    let text = list.to_json();
    let loaded = TodoList::from_json(&text).expect("must parse");
    assert_eq!(loaded.tasks[0].description, "bell\u{7} and esc\u{1b} and nul\u{0}");
}
