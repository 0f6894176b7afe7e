use todo_list::tasks::EditOutcome;
use todo_list::tasks::Priority;
use todo_list::tasks::Task;
use todo_list::tasks::TaskError;
use todo_list::tasks::TaskStatus;
use todo_list::tasks::TodoList;

#[test]
fn new_list_is_empty_and_starts_at_one() {
    let list = TodoList::new();
    assert_eq!(list.tasks.len(), 0);
    assert_eq!(list.next_id, 1);
    assert_eq!(list.task_count(), 0);
}

#[test]
fn task_new_starts_pending() {
    let t = Task::new(7, String::from("write docs"), Priority::Medium);
    assert_eq!(t.id, 7);
    assert_eq!(t.description, "write docs");
    assert_eq!(t.importance, Priority::Medium);
    assert_eq!(t.status, TaskStatus::Pending);
}

#[test]
fn task_complete_is_idempotent() {
    let mut t = Task::new(1, String::from("x"), Priority::Low);
    t.complete();
    assert_eq!(t.status, TaskStatus::Completed);
    t.complete();
    assert_eq!(t.status, TaskStatus::Completed);
    assert_eq!(t.description, "x");
}

#[test]
fn ids_increase_without_gaps_despite_removals() {
    let mut list = TodoList::new();
    let a = list.add_task(String::from("a"), Priority::Low);
    let b = list.add_task(String::from("b"), Priority::Low);
    assert_eq!(a, 1);
    assert_eq!(b, 2);
    assert_eq!(list.remove_task(1), Ok(()));
    let c = list.add_task(String::from("c"), Priority::Low);
    assert_eq!(c, 3);
    assert_eq!(list.remove_task(3), Ok(()));
    let d = list.add_task(String::from("d"), Priority::Low);
    assert_eq!(d, 4);
    assert_eq!(list.next_id, 5);
}

#[test]
fn sorted_tasks_orders_by_priority_descending_stably() {
    let mut list = TodoList::new();
    list.add_task(String::from("low one"), Priority::Low);
    list.add_task(String::from("high one"), Priority::High);
    list.add_task(String::from("med one"), Priority::Medium);
    list.add_task(String::from("high two"), Priority::High);
    list.add_task(String::from("low two"), Priority::Low);
    let sorted = list.sorted_tasks();
    let ids: Vec<usize> = sorted.iter().map(|t| t.id).collect();
    assert_eq!(ids, vec![2, 4, 3, 1, 5]);
    assert_eq!(sorted[0].description, "high one");
    assert_eq!(sorted[1].description, "high two");
    assert_eq!(sorted[2].description, "med one");
    assert_eq!(sorted[3].description, "low one");
    assert_eq!(sorted[4].description, "low two");
}

#[test]
fn sorted_tasks_does_not_touch_storage_order() {
    let mut list = TodoList::new();
    list.add_task(String::from("a"), Priority::Low);
    list.add_task(String::from("b"), Priority::High);
    let _ = list.sorted_tasks();
    assert_eq!(list.tasks[0].id, 1);
    assert_eq!(list.tasks[1].id, 2);
}

#[test]
fn completed_listing_keeps_insertion_order() {
    let mut list = TodoList::new();
    list.add_task(String::from("first"), Priority::Low);
    list.add_task(String::from("second"), Priority::High);
    list.add_task(String::from("third"), Priority::Medium);
    assert_eq!(list.complete_task(3), Ok(()));
    assert_eq!(list.complete_task(1), Ok(()));
    let done = list.list_completed_tasks();
    let ids: Vec<usize> = done.iter().map(|t| t.id).collect();
    assert_eq!(ids, vec![1, 3]);
    assert!(done.iter().all(|t| t.status == TaskStatus::Completed));
}

#[test]
fn edit_on_completed_task_is_rejected_and_changes_nothing() {
    let mut list = TodoList::new();
    list.add_task(String::from("keep me"), Priority::Low);
    assert_eq!(list.complete_task(1), Ok(()));
    let before = list.tasks[0].description.clone();
    let r = list.edit_task(1, String::from("overwrite"));
    assert_eq!(r, Ok(EditOutcome::RejectedCompleted));
    assert_eq!(list.tasks[0].description, before);
    assert_eq!(list.tasks[0].description, "keep me");
}

#[test]
fn edit_on_pending_task_replaces_description() {
    let mut list = TodoList::new();
    list.add_task(String::from("old text"), Priority::High);
    let r = list.edit_task(1, String::from("new text"));
    assert_eq!(r, Ok(EditOutcome::Edited));
    assert_eq!(list.tasks[0].description, "new text");
    assert_eq!(list.tasks[0].status, TaskStatus::Pending);
}

#[test]
fn operations_on_missing_id_report_not_found() {
    let mut list = TodoList::new();
    list.add_task(String::from("only"), Priority::Low);
    assert_eq!(list.complete_task(2), Err(TaskError::NotFound));
    assert_eq!(list.edit_task(2, String::from("x")), Err(TaskError::NotFound));
    assert_eq!(list.remove_task(2), Err(TaskError::NotFound));
    assert_eq!(list.tasks.len(), 1);
}

#[test]
fn removed_id_stays_gone() {
    let mut list = TodoList::new();
    list.add_task(String::from("a"), Priority::Low);
    list.add_task(String::from("b"), Priority::High);
    assert_eq!(list.remove_task(1), Ok(()));
    assert_eq!(list.complete_task(1), Err(TaskError::NotFound));
    assert_eq!(list.edit_task(1, String::from("x")), Err(TaskError::NotFound));
    assert_eq!(list.tasks.len(), 1);
    assert_eq!(list.tasks[0].id, 2);
}

#[test]
fn remove_preserves_order_of_remaining_tasks() {
    let mut list = TodoList::new();
    list.add_task(String::from("a"), Priority::Low);
    list.add_task(String::from("b"), Priority::Low);
    list.add_task(String::from("c"), Priority::Low);
    assert_eq!(list.remove_task(2), Ok(()));
    let ids: Vec<usize> = list.tasks.iter().map(|t| t.id).collect();
    assert_eq!(ids, vec![1, 3]);
}

#[test]
fn scenario_full_workflow() {
    let mut list = TodoList::new();
    list.add_task(String::from("Learn X"), Priority::Low);
    list.add_task(String::from("Build Y"), Priority::High);
    let all = list.sorted_tasks();
    assert_eq!(all.len(), 2);
    assert_eq!(all[0].description, "Build Y");
    assert_eq!(all[0].importance, Priority::High);
    assert_eq!(all[1].description, "Learn X");
    assert_eq!(all[1].importance, Priority::Low);
    assert_eq!(list.complete_task(1), Ok(()));
    let done = list.list_completed_tasks();
    assert_eq!(done.len(), 1);
    assert_eq!(done[0].description, "Learn X");
    assert_eq!(list.edit_task(1, String::from("new")), Ok(EditOutcome::RejectedCompleted));
    assert_eq!(list.tasks[0].description, "Learn X");
    assert_eq!(list.edit_task(2, String::from("new")), Ok(EditOutcome::Edited));
    assert_eq!(list.tasks[1].description, "new");
    assert_eq!(list.remove_task(1), Ok(()));
    assert_eq!(list.complete_task(1), Err(TaskError::NotFound));
}

#[test]
fn tasks_with_priority_filters_in_insertion_order() {
    let mut list = TodoList::new();
    list.add_task(String::from("a"), Priority::High);
    list.add_task(String::from("b"), Priority::Low);
    list.add_task(String::from("c"), Priority::High);
    let high = list.tasks_with_priority(Priority::High);
    let ids: Vec<usize> = high.iter().map(|t| t.id).collect();
    assert_eq!(ids, vec![1, 3]);
    let medium = list.tasks_with_priority(Priority::Medium);
    assert!(medium.is_empty());
}
