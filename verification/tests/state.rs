use kvittis::api::{
    CreateExpenseRequest, CreateGroupRequest, DeleteExpenseRequest, GetExpenseRequest,
    NewGroupMemberRequest,
};
use kvittis::state::{AppState, StateError};
use kvittis::api::TokenType;
use kvittis::store::{FileState, StoreError, UserRow};
use kvittis::types::{Group, NewUser, User};

fn new_state() -> AppState {
    AppState::new(FileState::new())
}

fn new_user(name: &str, password: &str) -> NewUser {
    NewUser { username: name.to_string(), email: format!("{name}@example.com"), password: password.to_string() }
}

fn add_user(st: &mut AppState, id: u128, name: &str) {
    st.store.create_user(UserRow::new(id, name.to_string(), vec![]));
}

#[test]
fn registered_user_is_found() {
    let mut st = new_state();
    let u = st.register_user(new_user("bob", "pw"));
    assert_eq!(u.username, "bob");
    assert!(u.friends.is_empty());
    assert_eq!(st.get_user(u.id), Ok(u.clone()));
    assert_eq!(st.get_user(u.id + 1), Err(StateError::UserNotFound));
    assert_eq!(StateError::UserNotFound.message(), "Failed to get user");
    let row = st.store.get_user(u.id).unwrap();
    assert_eq!(row.email, "bob@example.com");
    assert_eq!(row.password, "pw");
}

#[test]
fn registered_user_logs_in() {
    let mut st = new_state();
    let u = st.register_user(new_user("register_test_user", "secret_password"));
    let (who, token, kind) = st.login_user("register_test_user", "secret_password").unwrap();
    assert_eq!(who, u);
    assert_eq!(kind, TokenType::Bearer);
    // The text of a version-4 UUID.
    assert_eq!(token.len(), 36);
    for (i, c) in token.chars().enumerate() {
        if i == 8 || i == 13 || i == 18 || i == 23 {
            assert_eq!(c, '-');
        } else {
            assert!(c.is_ascii_digit() || ('a'..='f').contains(&c));
        }
    }
    assert_eq!(token.chars().nth(14), Some('4'));
    assert_eq!(st.login_user("register_test_user", "wrong"), Err(StateError::AuthenticationFailed));
    assert_eq!(st.login_user("nobody", "secret_password"), Err(StateError::AuthenticationFailed));
    assert_eq!(StateError::AuthenticationFailed.message(), "Authentication failed");
}

#[test]
fn login_takes_the_smallest_id_of_a_name() {
    let mut st = new_state();
    st.store.create_user(UserRow { id: 9, username: "x".to_string(), friends: vec![], email: "a".to_string(), password: "p9".to_string() });
    st.store.create_user(UserRow { id: 4, username: "x".to_string(), friends: vec![], email: "b".to_string(), password: "p4".to_string() });
    assert_eq!(st.login_user("x", "p4").unwrap().0.id, 4);
    assert_eq!(st.login_user("x", "p9"), Err(StateError::AuthenticationFailed));
}

#[test]
fn deleted_user_is_gone() {
    let mut st = new_state();
    let u = st.register_user(new_user("bob", "pw"));
    st.delete_user(u.id);
    assert_eq!(st.get_user(u.id), Err(StateError::UserNotFound));
    assert_eq!(st.login_user("bob", "pw"), Err(StateError::AuthenticationFailed));
}

#[test]
fn edited_user_replaces_old_and_keeps_credentials() {
    let mut st = new_state();
    let u = st.register_user(new_user("bob", "pw"));
    let e = st.edit_user(User { id: u.id, username: "bobby".to_string(), friends: vec![9] });
    assert_eq!(e.username, "bobby");
    assert_eq!(st.get_user(u.id).unwrap().friends, vec![9]);
    assert!(st.login_user("bobby", "pw").is_ok());
}

#[test]
fn users_listed_and_searched() {
    let mut st = new_state();
    add_user(&mut st, 3, "test_search_alpha");
    add_user(&mut st, 1, "test_search_beta");
    add_user(&mut st, 2, "other");
    let all: Vec<u128> = st.get_users().iter().map(|u| u.id).collect();
    assert_eq!(all, vec![1, 2, 3]);
    let found: Vec<u128> = st.search_users("test_search").iter().map(|u| u.id).collect();
    assert_eq!(found, vec![1, 3]);
    let found: Vec<u128> = st.search_users("alpha").iter().map(|u| u.id).collect();
    assert_eq!(found, vec![3]);
    assert_eq!(st.search_users("").len(), 3);
    assert_eq!(st.search_users("zzz").len(), 0);
}

#[test]
fn add_friend_refused_when_neither_exists() {
    let mut st = new_state();
    assert_eq!(st.add_friend(1, 2), Err(StateError::Store(StoreError::UsersNotFound)));
    assert_eq!(StateError::Store(StoreError::UsersNotFound).message(), "users not found");
    add_user(&mut st, 1, "a");
    add_user(&mut st, 2, "b");
    assert_eq!(st.add_friend(1, 2), Ok(()));
    assert_eq!(st.get_user(1).unwrap().friends, vec![2]);
    assert_eq!(st.get_user(2).unwrap().friends, vec![1]);
}

#[test]
fn expense_lifecycle() {
    let mut st = new_state();
    let e = st.create_expense(CreateExpenseRequest {
        payer: 1,
        participants: vec![1, 2, 3],
        amount: 300,
        description: Some("Dinner".to_string()),
        group_id: None,
    });
    assert_eq!(e.payer, 1);
    assert_eq!(e.participants, vec![1, 2, 3]);
    assert_eq!(e.amount, 300);
    assert_eq!(e.description, Some("Dinner".to_string()));
    // A version-4 UUID.
    assert_eq!((e.id >> 76) & 0xf, 4);
    assert_eq!((e.id >> 62) & 0x3, 2);
    assert_eq!(st.get_expense(GetExpenseRequest { id: e.id }), Ok(e.clone()));
    assert_eq!(st.list_expenses_for_user(2), vec![e.clone()]);
    assert_eq!(st.list_expenses_for_user(4), vec![]);
    st.delete_expense(DeleteExpenseRequest { id: e.id });
    assert_eq!(st.get_expense(GetExpenseRequest { id: e.id }), Err(StateError::ExpenseNotFound));
    assert_eq!(StateError::ExpenseNotFound.message(), "Expense not found");
}

#[test]
fn group_lifecycle() {
    let mut st = new_state();
    let g = st.create_group(CreateGroupRequest {
        name: "test_group_trip".to_string(),
        owner_id: 1,
        members: vec![1],
    });
    assert_eq!(g.name, "test_group_trip");
    assert_eq!(st.get_group(g.id), Some(g.clone()));
    let found: Vec<Group> = st.search_groups("trip");
    assert_eq!(found, vec![g.clone()]);
    assert_eq!(st.search_groups("home"), vec![]);
    let g2 = st.new_group_member(NewGroupMemberRequest { group_id: g.id, new_member: 2 }).unwrap();
    assert_eq!(g2.members, vec![1, 2]);
    assert_eq!(st.get_group(g.id).unwrap().members, vec![1, 2]);
    assert_eq!(
        st.new_group_member(NewGroupMemberRequest { group_id: g.id + 1, new_member: 2 }),
        Err(StateError::GroupNotFound)
    );
    assert_eq!(StateError::GroupNotFound.message(), "Group not found");
    st.delete_group(g.id);
    assert_eq!(st.get_group(g.id), None);
}

#[test]
fn balances_through_the_state() {
    let mut st = new_state();
    st.create_expense(CreateExpenseRequest {
        payer: 1,
        participants: vec![1, 2],
        amount: 100,
        description: None,
        group_id: None,
    });
    st.create_expense(CreateExpenseRequest {
        payer: 1,
        participants: vec![1, 2],
        amount: 100,
        description: None,
        group_id: Some(7),
    });
    assert!(st.user_balances_computable(1));
    let b = st.get_user_non_group_balances(1);
    assert_eq!(b.len(), 1);
    assert_eq!((b[0].other, b[0].amount), (2, 50));
    assert!(st.group_balances_computable(7));
    let t = st.get_group_balance_overview(7);
    assert_eq!(t.len(), 1);
    assert_eq!((t[0].from, t[0].to, t[0].amount), (2, 1, 50));
    assert_eq!(st.get_group_balance_overview(8), vec![]);
}

#[test]
fn listed_balances_mirror_each_other() {
    let mut st = new_state();
    for (payer, parts, amount) in [(1u128, vec![1u128, 2, 3], 100i64), (2, vec![2, 3], 55), (3, vec![1, 3], 7)] {
        st.create_expense(CreateExpenseRequest { payer, participants: parts, amount, description: None, group_id: None });
    }
    let bal = |st: &AppState, x: u128, y: u128| -> i64 {
        st.get_user_non_group_balances(x).iter().find(|b| b.other == y).map(|b| b.amount).unwrap_or(0)
    };
    for (x, y) in [(1, 2), (1, 3), (2, 3)] {
        assert_eq!(bal(&st, x, y), -bal(&st, y, x));
    }
    // The remainder of 100 goes to the lowest id: 1 is owed 33 + 33 = 66 by
    // 2 and 3, less its share 4 of 3's expense.
    let total: i64 = st.get_user_non_group_balances(1).iter().map(|b| b.amount).sum();
    assert_eq!(total, 66 - 4);
    // Two listings hold the same entries (in whatever order).
    let entries = |st: &AppState| -> Vec<(u128, i64)> {
        let mut v: Vec<(u128, i64)> = st.get_user_non_group_balances(1).iter().map(|b| (b.other, b.amount)).collect();
        v.sort();
        v
    };
    assert_eq!(entries(&st), entries(&st));
}

#[test]
fn recorded_expense_has_the_given_id_and_time() {
    let mut st = new_state();
    let e = st.record_expense(
        CreateExpenseRequest { payer: 1, participants: vec![1, 2], amount: 40, description: None, group_id: Some(3) },
        77,
        1_700_000_000_123,
    );
    assert_eq!(e.id, 77);
    assert_eq!(e.timestamp_ms, 1_700_000_000_123);
    assert_eq!(e.group_id, Some(3));
    assert_eq!(st.get_expense(GetExpenseRequest { id: 77 }), Ok(e));
}

#[test]
fn created_ids_are_version_4() {
    let mut st = new_state();
    let u = st.register_user(new_user("v4", "pw"));
    assert_eq!(((u.id >> 76) & 0xf, (u.id >> 62) & 0x3), (4, 2));
    let g = st.create_group(CreateGroupRequest { name: "g".to_string(), owner_id: u.id, members: vec![u.id] });
    assert_eq!(((g.id >> 76) & 0xf, (g.id >> 62) & 0x3), (4, 2));
}
