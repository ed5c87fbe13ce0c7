use kvittis::api::{
    TokenType, ApiResponse, AuthorizedUserRequest, BalanceRequest, ExpenseRequest, GroupRequest,
    UnauthorizedUserRequest,
};
use kvittis::handlers::{
    authorized_user_handler, balance_failure, balance_handler, checked_balance_handler,
    expense_failure, expense_handler, group_failure, group_handler, json_not_implemented,
    unauthorized_user_failure, unauthorized_user_handler, authorized_user_failure, AuthError,
    Payload, Reply,
};
use kvittis::state::AppState;
use kvittis::store::FileState;
use kvittis::types::NewUser;

fn new_state() -> AppState {
    AppState::new(FileState::new())
}

fn error_of(r: &Reply) -> (u16, String) {
    match &r.body {
        ApiResponse::Error { message } => (r.status, message.clone()),
        _ => panic!("not an error reply"),
    }
}

fn status_of(r: &Reply) -> (u16, String) {
    match &r.body {
        ApiResponse::Success(Payload::Status(s)) => (r.status, s.clone()),
        _ => panic!("not a status reply"),
    }
}

fn register(st: &mut AppState, name: &str) -> u128 {
    let r = unauthorized_user_handler(
        st,
        UnauthorizedUserRequest::Register {
            user: NewUser {
                username: name.to_string(),
                email: format!("{name}@example.com"),
                password: "pw".to_string(),
            },
        },
    );
    assert_eq!(r.status, 201);
    match r.body {
        ApiResponse::Success(Payload::Registered(resp)) => {
            assert_eq!(resp.user.username, name);
            assert!(resp.user.friends.is_empty());
            resp.user.id
        }
        _ => panic!("registration failed"),
    }
}

#[test]
fn test_register_user() {
    let mut st = new_state();
    let id = register(&mut st, "test_register_user");
    let r = authorized_user_handler(&mut st, AuthorizedUserRequest::Get { user_id: id });
    assert_eq!(r.status, 200);
    match r.body {
        ApiResponse::Success(Payload::User(resp)) => assert_eq!(resp.user.username, "test_register_user"),
        _ => panic!("user not found"),
    }
}

#[test]
fn test_delete_user() {
    let mut st = new_state();
    let id = register(&mut st, "test_delete_user");
    let r = authorized_user_handler(&mut st, AuthorizedUserRequest::Delete { user_id: id });
    assert_eq!(status_of(&r), (200, "User deleted".to_string()));
    let r = authorized_user_handler(&mut st, AuthorizedUserRequest::Get { user_id: id });
    assert_eq!(error_of(&r), (404, "User not found".to_string()));
}

#[test]
fn login_after_registering() {
    let mut st = new_state();
    let id = register(&mut st, "someone");
    let r = unauthorized_user_handler(
        &mut st,
        UnauthorizedUserRequest::Login { username: "someone".to_string(), password: "pw".to_string() },
    );
    assert_eq!(r.status, 200);
    match r.body {
        ApiResponse::Success(Payload::LoggedIn(resp)) => {
            assert_eq!(resp.user.id, id);
            assert_eq!(resp.token_type, TokenType::Bearer);
        }
        _ => panic!("login failed"),
    }
    let r = unauthorized_user_handler(
        &mut st,
        UnauthorizedUserRequest::Login { username: "someone".to_string(), password: "nope".to_string() },
    );
    assert_eq!(error_of(&r), (401, "Authentication failed".to_string()));
}

#[test]
fn test_get_users() {
    let mut st = new_state();
    let a = register(&mut st, "get_users_test_user1");
    let b = register(&mut st, "get_users_test_user2");
    let r = authorized_user_handler(&mut st, AuthorizedUserRequest::List);
    assert_eq!(r.status, 200);
    match r.body {
        ApiResponse::Success(Payload::UserList(v)) => {
            let names: Vec<String> = v.iter().map(|g| g.user.username.clone()).collect();
            assert!(names.contains(&"get_users_test_user1".to_string()));
            assert!(names.contains(&"get_users_test_user2".to_string()));
            let mut ids: Vec<u128> = v.iter().map(|g| g.user.id).collect();
            let sorted = { let mut x = ids.clone(); x.sort(); x };
            assert_eq!(ids, sorted);
            ids.sort();
            let mut want = vec![a, b];
            want.sort();
            assert_eq!(ids, want);
        }
        _ => panic!("listing failed"),
    }
}

#[test]
fn logout_unimplemented() {
    let mut st = new_state();
    let r = authorized_user_handler(&mut st, AuthorizedUserRequest::Logout);
    assert_eq!(error_of(&r), (500, "Function not implemented".to_string()));
    assert_eq!(error_of(&json_not_implemented()), (500, "Function not implemented".to_string()));
}

#[test]
fn test_search_users() {
    let mut st = new_state();
    let a = register(&mut st, "test_search_users_alpha");
    let b = register(&mut st, "test_search_users_beta");
    let r = authorized_user_handler(&mut st, AuthorizedUserRequest::Search { query: "test_search_users".to_string() });
    assert_eq!(r.status, 200);
    match r.body {
        ApiResponse::Success(Payload::Users(resp)) => {
            let mut ids: Vec<u128> = resp.user.iter().map(|u| u.id).collect();
            ids.sort();
            let mut want = vec![a, b];
            want.sort();
            assert_eq!(ids, want);
        }
        _ => panic!("search failed"),
    }
    let r = authorized_user_handler(&mut st, AuthorizedUserRequest::Search { query: "alpha".to_string() });
    match r.body {
        ApiResponse::Success(Payload::Users(resp)) => {
            assert_eq!(resp.user.len(), 1);
            assert_eq!(resp.user[0].id, a);
            assert_eq!(resp.user[0].username, "test_search_users_alpha");
        }
        _ => panic!("search failed"),
    }
}

#[test]
fn add_friend_replies() {
    let mut st = new_state();
    let a = register(&mut st, "a");
    let b = register(&mut st, "b");
    let r = authorized_user_handler(&mut st, AuthorizedUserRequest::AddFriend { user_id: a, friend_id: b });
    assert_eq!(status_of(&r), (200, "friend added".to_string()));
    assert_eq!(st.get_user(a).unwrap().friends, vec![b]);
    let r = authorized_user_handler(&mut st, AuthorizedUserRequest::AddFriend { user_id: a + 1, friend_id: a + 1 });
    if st.get_user(a + 1).is_err() {
        assert_eq!(error_of(&r), (400, "user_id or friend_id not found".to_string()));
    }
}

#[test]
fn test_create_group_and_add_member() {
    let mut st = new_state();
    let owner = register(&mut st, "owner");
    let member = register(&mut st, "member");
    let r = group_handler(
        &mut st,
        GroupRequest::Create { name: "test_create_group".to_string(), owner_id: owner, members: vec![owner] },
    );
    assert_eq!(r.status, 201);
    let gid = match r.body {
        ApiResponse::Success(Payload::CreatedGroup(c)) => {
            assert_eq!(c.name, "test_create_group");
            c.id
        }
        _ => panic!("group not created"),
    };
    let r = group_handler(&mut st, GroupRequest::AddMember { group_id: gid, new_member: member });
    assert_eq!(status_of(&r), (200, "member added".to_string()));
    let r = group_handler(&mut st, GroupRequest::Get { group_id: gid });
    match r.body {
        ApiResponse::Success(Payload::Group(g)) => {
            assert_eq!(g.owner_id, owner);
            assert_eq!(g.members, vec![owner, member]);
        }
        _ => panic!("group not found"),
    }
    let r = group_handler(&mut st, GroupRequest::Search { query: "create_group".to_string() });
    match r.body {
        ApiResponse::Success(Payload::Groups(v)) => assert_eq!(v.len(), 1),
        _ => panic!("search failed"),
    }
    let r = group_handler(&mut st, GroupRequest::AddMember { group_id: gid + 1, new_member: member });
    assert_eq!(error_of(&r), (500, "Failed to add member".to_string()));
    let r = group_handler(&mut st, GroupRequest::Delete { group_id: gid });
    assert_eq!(status_of(&r), (200, "Group deleted".to_string()));
    let r = group_handler(&mut st, GroupRequest::Get { group_id: gid });
    assert_eq!(error_of(&r), (404, "Group not found".to_string()));
}

#[test]
fn test_expense_handler_flow() {
    let mut st = new_state();
    let r = expense_handler(
        &mut st,
        ExpenseRequest::Create {
            payer: 1,
            participants: vec![1, 2, 3],
            amount: 300,
            description: Some("Dinner".to_string()),
            group_id: Some(9),
        },
    );
    assert_eq!(r.status, 201);
    let id = match r.body {
        ApiResponse::Success(Payload::CreatedExpense(c)) => {
            assert_eq!(c.payer, 1);
            assert_eq!(c.participants, vec![1, 2, 3]);
            assert_eq!(c.description, Some("Dinner".to_string()));
            c.id
        }
        _ => panic!("expense not created"),
    };
    let r = expense_handler(&mut st, ExpenseRequest::Get { id });
    match r.body {
        ApiResponse::Success(Payload::Expense(e)) => assert_eq!(e.amount, 300),
        _ => panic!("expense not found"),
    }
    let r = expense_handler(&mut st, ExpenseRequest::ListForUser { user_id: 3 });
    match r.body {
        ApiResponse::Success(Payload::Expenses(v)) => assert_eq!(v.len(), 1),
        _ => panic!("listing failed"),
    }
    let r = expense_handler(&mut st, ExpenseRequest::ListForGroup { group_id: 9 });
    match r.body {
        ApiResponse::Success(Payload::Expenses(v)) => assert_eq!(v[0].id, id),
        _ => panic!("listing failed"),
    }
    let r = balance_handler(&st, BalanceRequest::Group { group_id: 9 });
    match r.body {
        ApiResponse::Success(Payload::Transfers(t)) => {
            let t: Vec<(u128, u128, i64)> = t.iter().map(|x| (x.from, x.to, x.amount)).collect();
            assert_eq!(t, vec![(2, 1, 100), (3, 1, 100)]);
        }
        _ => panic!("overview failed"),
    }
    let r = expense_handler(&mut st, ExpenseRequest::Delete { id });
    assert_eq!(status_of(&r), (200, "Expense deleted".to_string()));
    let r = expense_handler(&mut st, ExpenseRequest::Get { id });
    assert_eq!(error_of(&r), (500, "Failed to get expense".to_string()));
}

#[test]
fn user_balance_reply() {
    let mut st = new_state();
    expense_handler(
        &mut st,
        ExpenseRequest::Create { payer: 1, participants: vec![1, 2], amount: 300, description: None, group_id: None },
    );
    let r = checked_balance_handler(&st, BalanceRequest::User { user_id: 2 }).unwrap();
    assert_eq!(r.status, 200);
    match r.body {
        ApiResponse::Success(Payload::Balances(v)) => {
            assert_eq!(v.len(), 1);
            assert_eq!((v[0].other, v[0].amount), (1, -150));
        }
        _ => panic!("balances failed"),
    }
}

#[test]
fn overflowing_balance_is_not_computed() {
    let mut st = new_state();
    for _ in 0..3 {
        expense_handler(
            &mut st,
            ExpenseRequest::Create { payer: 1, participants: vec![1, 2], amount: i64::MAX, description: None, group_id: None },
        );
    }
    assert!(checked_balance_handler(&st, BalanceRequest::User { user_id: 1 }).is_none());
    assert!(checked_balance_handler(&st, BalanceRequest::Group { group_id: 5 }).is_some());
}

#[test]
fn failure_replies() {
    let r = group_failure(&GroupRequest::Create { name: "g".to_string(), owner_id: 1, members: vec![] });
    assert_eq!(error_of(&r), (500, "Failed to create group".to_string()));
    let r = expense_failure(&ExpenseRequest::Delete { id: 1 });
    assert_eq!(error_of(&r), (500, "Failed to delete expense".to_string()));
    let r = balance_failure(&BalanceRequest::User { user_id: 1 });
    assert_eq!(error_of(&r), (500, "Failed to get user balances".to_string()));
    let r = authorized_user_failure(&AuthorizedUserRequest::Delete { user_id: 1 }).unwrap();
    assert_eq!(error_of(&r), (404, "User not found".to_string()));
    assert!(authorized_user_failure(&AuthorizedUserRequest::Logout).is_none());
    let r = authorized_user_failure(&AuthorizedUserRequest::List).unwrap();
    assert_eq!(error_of(&r), (500, "Failed to get users".to_string()));
    let r = unauthorized_user_failure(&UnauthorizedUserRequest::Register {
        user: NewUser { username: "x".to_string(), email: "e".to_string(), password: "p".to_string() },
    })
    .unwrap();
    assert_eq!(error_of(&r), (400, "Failed to register user".to_string()));
}

#[test]
fn auth_errors() {
    assert_eq!((AuthError::InvalidToken.status(), AuthError::InvalidToken.message()), (400, "Invalid token".to_string()));
    assert_eq!((AuthError::_WrongCredentials.status(), AuthError::_WrongCredentials.message()), (401, "Wrong credentials".to_string()));
    assert_eq!((AuthError::_MissingCredentials.status(), AuthError::_MissingCredentials.message()), (400, "Missing credentials".to_string()));
    assert_eq!((AuthError::_TokenCreation.status(), AuthError::_TokenCreation.message()), (500, "Token creation error".to_string()));
}
