use kvittis::config::{Args, DbType};
use kvittis::search::{contains_text, same_text};
use kvittis::types::{FriendRequestState, GroupRole};

#[test]
fn friend_request_state_names() {
    assert_eq!(FriendRequestState::from_str("Pending"), Ok(FriendRequestState::Pending));
    assert_eq!(FriendRequestState::from_str("Rejected"), Ok(FriendRequestState::Rejected));
    assert_eq!(FriendRequestState::from_str("Accepted"), Ok(FriendRequestState::Accepted));
    assert_eq!(FriendRequestState::from_str("pending"), Err("pending is not a valid string".to_string()));
    assert_eq!(FriendRequestState::Accepted.to_string(), "Accepted");
    assert_eq!(FriendRequestState::Pending.to_string(), "Pending");
}

#[test]
fn group_role_names() {
    assert_eq!(GroupRole::from_str("Admin"), Ok(GroupRole::Admin));
    assert_eq!(GroupRole::from_str("Member"), Ok(GroupRole::Member));
    assert_eq!(GroupRole::from_str(""), Err(" is not a valid string".to_string()));
    assert_eq!(GroupRole::Member.to_string(), "Member");
    assert_eq!(GroupRole::Admin.to_string(), "Admin");
}

#[test]
fn default_settings() {
    let a = Args::default();
    assert_eq!(a.port, 3000);
    assert_eq!(a.ip, "127.0.0.1");
    assert_eq!(a.db_type, DbType::File);
    assert_eq!(a.data_dir, "");
}

#[test]
fn substring_search() {
    assert!(contains_text("test_search_users", "search"));
    assert!(contains_text("abc", ""));
    assert!(contains_text("abc", "abc"));
    assert!(!contains_text("abc", "abcd"));
    assert!(!contains_text("abc", "ac"));
    assert!(contains_text("åäö", "äö"));
    assert!(same_text("x", "x"));
    assert!(!same_text("x", "y"));
}

#[test]
fn names_read_back() {
    for s in [FriendRequestState::Pending, FriendRequestState::Rejected, FriendRequestState::Accepted] {
        assert_eq!(FriendRequestState::from_str(&s.to_string()), Ok(s.clone()));
    }
    for r in [GroupRole::Admin, GroupRole::Member] {
        assert_eq!(GroupRole::from_str(&r.to_string()), Ok(r));
    }
}
