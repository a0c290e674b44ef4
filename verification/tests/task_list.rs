use pwdmgr::evens::get_even_numbers;
use pwdmgr::models::Task;
use pwdmgr::tasks::{add_task, delete_task, edit_task, mark_task};

fn sample() -> Vec<Task> {
    let mut tasks: Vec<Task> = Vec::new();
    add_task(&mut tasks, String::from("write report"));
    add_task(&mut tasks, String::from("buy milk"));
    add_task(&mut tasks, String::from("call bank"));
    tasks
}

#[test]
fn added_tasks_are_numbered_in_order() {
    let tasks = sample();
    assert_eq!(tasks.len(), 3);
    assert_eq!(tasks[0].id, 1);
    assert_eq!(tasks[0].description, "write report");
    assert!(!tasks[0].completed);
    assert_eq!(tasks[1].id, 2);
    assert_eq!(tasks[2].id, 3);
}

#[test]
fn edit_replaces_description_of_that_task() {
    let mut tasks = sample();
    assert!(edit_task(&mut tasks, 2, String::from("buy oat milk")));
    assert_eq!(tasks[1].description, "buy oat milk");
    assert_eq!(tasks[0].description, "write report");
    assert_eq!(tasks[2].description, "call bank");
}

#[test]
fn edit_rejects_out_of_range_ids() {
    let mut tasks = sample();
    assert!(!edit_task(&mut tasks, 0, String::from("nothing")));
    assert!(!edit_task(&mut tasks, 4, String::from("nothing")));
    assert_eq!(tasks[0].description, "write report");
    assert_eq!(tasks[1].description, "buy milk");
}

#[test]
fn mark_sets_completed() {
    let mut tasks = sample();
    assert!(mark_task(&mut tasks, 3));
    assert!(tasks[2].completed);
    assert!(!tasks[0].completed);
    assert!(!mark_task(&mut tasks, 9));
}

#[test]
fn delete_renumbers_following_tasks() {
    let mut tasks = sample();
    assert!(delete_task(&mut tasks, 2));
    assert_eq!(tasks.len(), 2);
    assert_eq!(tasks[0].id, 1);
    assert_eq!(tasks[0].description, "write report");
    assert_eq!(tasks[1].id, 2);
    assert_eq!(tasks[1].description, "call bank");
}

#[test]
fn delete_rejects_out_of_range_ids() {
    let mut tasks = sample();
    assert!(!delete_task(&mut tasks, 0));
    assert!(!delete_task(&mut tasks, 4));
    assert_eq!(tasks.len(), 3);
}

#[test]
fn evens_are_sorted_and_joined() {
    assert_eq!(get_even_numbers(&[3, 1, 2, 8, 5, 4]), "2 - 4 - 8");
}

#[test]
fn evens_handle_negatives_and_duplicates() {
    assert_eq!(get_even_numbers(&[-4, -3, 7, 2, 2]), "-4 - 2 - 2");
}

#[test]
fn evens_of_odd_only_input_is_empty() {
    assert_eq!(get_even_numbers(&[1, 3, 5]), "");
    assert_eq!(get_even_numbers(&[]), "");
}

#[test]
fn evens_of_single_even_value() {
    assert_eq!(get_even_numbers(&[10]), "10");
    assert_eq!(get_even_numbers(&[0]), "0");
}
