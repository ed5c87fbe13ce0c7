use kvittis::store::{print_sql_result, ExpenseRow, FileState, GroupRow, StoreError, UserRow};

fn user(id: u128, name: &str) -> UserRow {
    UserRow::new(id, name.to_string(), vec![])
}

fn expense(id: u128, payer: u128, participants: Vec<u128>, group: Option<u128>) -> ExpenseRow {
    ExpenseRow::new(id, payer, participants, 100, Some("x".to_string()), group, 5)
}

#[test]
fn user_read_after_write() {
    let mut s = FileState::new();
    let stored = s.create_user(user(7, "alice"));
    assert_eq!(stored, user(7, "alice"));
    assert_eq!(s.get_user(7), Some(user(7, "alice")));
    assert_eq!(s.get_user(8), None);
    s.update_user(user(7, "alice2"));
    assert_eq!(s.get_user(7).unwrap().username(), "alice2");
    s.delete_user(7);
    assert_eq!(s.get_user(7), None);
    s.delete_user(7);
    assert_eq!(s.list_users(), vec![]);
}

#[test]
fn users_are_listed_by_ascending_id() {
    let mut s = FileState::new();
    s.create_user(user(30, "c"));
    s.create_user(user(10, "a"));
    s.create_user(user(20, "b"));
    let ids: Vec<u128> = s.list_users().iter().map(|u| u.id()).collect();
    assert_eq!(ids, vec![10, 20, 30]);
}

#[test]
fn friends_are_added_both_ways() {
    let mut s = FileState::new();
    s.create_user(user(1, "a"));
    s.create_user(user(2, "b"));
    assert_eq!(s.add_friend(1, 2), Ok(()));
    assert_eq!(s.get_user(1).unwrap().friends(), &[2]);
    assert_eq!(s.get_user(2).unwrap().friends(), &[1]);
}

#[test]
fn befriending_oneself_lists_oneself_twice() {
    let mut s = FileState::new();
    s.create_user(user(1, "a"));
    assert_eq!(s.add_friend(1, 1), Ok(()));
    assert_eq!(s.get_user(1).unwrap().friends(), &[1, 1]);
}

#[test]
fn friendship_between_unknown_users_is_refused() {
    let mut s = FileState::new();
    s.create_user(user(1, "a"));
    assert_eq!(s.add_friend(5, 6), Err(StoreError::UsersNotFound));
    assert_eq!(s.get_user(1), Some(user(1, "a")));
    assert_eq!(StoreError::UsersNotFound.message(), "users not found");
}

#[test]
fn groups_read_after_write() {
    let mut s = FileState::new();
    let g = GroupRow::new(3, "trip".to_string(), 1, vec![1, 2]);
    s.create_group(g.clone());
    assert_eq!(s.get_group(3), Some(g.clone()));
    assert_eq!(s.get_group(3).unwrap().members(), &vec![1, 2]);
    s.create_group(GroupRow::new(1, "home".to_string(), 2, vec![]));
    let names: Vec<String> = s.get_groups().iter().map(|g| g.name().to_string()).collect();
    assert_eq!(names, vec!["home".to_string(), "trip".to_string()]);
    s.update_group(GroupRow::new(3, "trip".to_string(), 1, vec![1, 2, 4]));
    assert_eq!(s.get_group(3).unwrap().members().len(), 3);
    s.delete_group(3);
    assert_eq!(s.get_group(3), None);
}

// TC1: the listing for a user holds what the user paid and what the user
// takes part in.
#[test]
fn tc1_user_listing_includes_payer_and_participant() {
    let mut s = FileState::new();
    s.create_expense(expense(1, 10, vec![10, 20], None));
    s.create_expense(expense(2, 30, vec![10, 30], None));
    s.create_expense(expense(3, 30, vec![30], None));
    let ids: Vec<u128> = s.list_expenses_for_user(10).iter().map(|e| e.id()).collect();
    assert_eq!(ids, vec![1, 2]);
    let ids: Vec<u128> = s.list_expenses_for_user(20).iter().map(|e| e.id()).collect();
    assert_eq!(ids, vec![1]);
    let ids: Vec<u128> = s.list_expenses_for_user(30).iter().map(|e| e.id()).collect();
    assert_eq!(ids, vec![2, 3]);
}

#[test]
fn group_listing_holds_the_group_expenses() {
    let mut s = FileState::new();
    s.create_expense(expense(5, 1, vec![1, 2], Some(9)));
    s.create_expense(expense(4, 1, vec![1, 2], Some(9)));
    s.create_expense(expense(6, 1, vec![1, 2], Some(8)));
    s.create_expense(expense(7, 1, vec![1, 2], None));
    let ids: Vec<u128> = s.list_expenses_for_group(9).iter().map(|e| e.id()).collect();
    assert_eq!(ids, vec![4, 5]);
    s.delete_expense(4);
    let ids: Vec<u128> = s.list_expenses_for_group(9).iter().map(|e| e.id()).collect();
    assert_eq!(ids, vec![5]);
    assert_eq!(s.get_expense(4), None);
    let e = s.get_expense(5).unwrap();
    assert_eq!(e.payer(), 1);
    assert_eq!(e.amount(), 100);
    assert_eq!(e.group_id(), Some(9));
    assert_eq!(e.description(), Some(&"x".to_string()));
    assert_eq!(e.timestamp_ms(), 5);
    assert_eq!(e.participants(), &vec![1, 2]);
}

#[test]
fn sql_errors_become_store_errors() {
    let ok: Result<u32, sqlx::Error> = Ok(5);
    assert_eq!(print_sql_result(ok), Ok(5));
    let err: Result<u32, sqlx::Error> = Err(sqlx::Error::RowNotFound);
    assert_eq!(print_sql_result(err), Err(StoreError::SqlQueryFailed));
    assert_eq!(StoreError::SqlQueryFailed.message(), "Failed to SQL query");
}

#[test]
fn deleting_what_was_created_restores_the_store() {
    let mut s = FileState::new();
    s.create_user(user(1, "a"));
    let before = s.clone();
    s.create_user(user(2, "b"));
    s.delete_user(2);
    assert_eq!(s, before);
    s.delete_user(2);
    assert_eq!(s, before);
}

#[test]
fn user_found_by_name_takes_smallest_id() {
    let mut s = FileState::new();
    s.create_user(user(9, "bob"));
    s.create_user(user(4, "bob"));
    s.create_user(user(6, "carol"));
    assert_eq!(s.get_user_by_name("bob").map(|u| u.id()), Some(4));
    assert_eq!(s.get_user_by_name("carol").map(|u| u.id()), Some(6));
    assert_eq!(s.get_user_by_name("dave"), None);
}
