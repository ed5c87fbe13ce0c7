//! Domain types: users, groups, expenses and their ids.
use vstd::prelude::*;
use vstd::string::*;
use crate::search::same_text;

verus! {

/// A user's id (the 128-bit value of a UUID).
pub type UserId = u128;

/// A group's id (the 128-bit value of a UUID).
pub type GroupId = u128;

/// An expense's id (the 128-bit value of a UUID).
pub type ExpenseId = u128;

/// A friend request's id (the 128-bit value of a UUID).
pub type FriendRequestId = u128;

/// What a user row holds, as values.
#[verifier::ext_equal]
pub struct UserRecord {
    pub id: UserId,
    pub username: Seq<char>,
    pub friends: Seq<UserId>,
}

/// What a group row holds, as values.
#[verifier::ext_equal]
pub struct GroupRecord {
    pub id: GroupId,
    pub name: Seq<char>,
    pub owner_id: UserId,
    pub members: Seq<UserId>,
}

/// What an expense row holds, as values.
#[verifier::ext_equal]
pub struct ExpenseRecord {
    pub id: ExpenseId,
    pub payer: UserId,
    pub participants: Seq<UserId>,
    pub amount: i64,
    pub description: Option<Seq<char>>,
    pub group_id: Option<GroupId>,
    pub timestamp_ms: i64,
}

/// The value of an optional text.
pub open spec fn opt_text(t: Option<String>) -> Option<Seq<char>> {
    match t {
        Some(s) => Some(s@),
        None => None,
    }
}

/// What a new user registers with.
#[derive(Debug, Clone, PartialEq, Eq)]
pub struct NewUser {
    pub username: String,
    pub email: String,
    pub password: String,
}

/// What anyone may see of a user.
#[derive(Debug, Clone, PartialEq, Eq)]
pub struct PublicUser {
    pub id: UserId,
    pub username: String,
}

/// Where a friend request stands.
#[derive(Debug, Clone, PartialEq, Eq)]
pub enum FriendRequestState {
    Pending,
    Rejected,
    Accepted,
}

/// The name of each friend request state.
pub open spec fn friend_request_state_name(s: FriendRequestState) -> Seq<char> {
    match s {
        FriendRequestState::Pending => "Pending"@,
        FriendRequestState::Rejected => "Rejected"@,
        FriendRequestState::Accepted => "Accepted"@,
    }
}

/// The message for a text that names nothing.
pub open spec fn not_valid_text(s: Seq<char>) -> Seq<char> {
    s + " is not a valid string"@
}

/// The error for a text that names nothing: the text, then
/// " is not a valid string".
fn not_valid(s: &str) -> (r: String)
    ensures
        r@ == not_valid_text(s@),
{
    let mut r = s.to_string();
    r.append(" is not a valid string");
    r
}

impl FriendRequestState {
    /// The state that `s` names ("Pending", "Rejected" or "Accepted").
    pub fn from_str(s: &str) -> (r: Result<Self, String>)
        ensures
            match r {
                Ok(st) => friend_request_state_name(st) == s@,
                Err(m) => m@ == not_valid_text(s@) && forall|st: FriendRequestState|
                    friend_request_state_name(st) != s@,
            },
            forall|st: FriendRequestState|
                #[trigger] friend_request_state_name(st) == s@ ==> r == Ok::<Self, String>(st),
    {
        proof {
            reveal_strlit("Pending");
            reveal_strlit("Rejected");
            reveal_strlit("Accepted");
            assert("Pending"@[0] != "Rejected"@[0] && "Pending"@[0] != "Accepted"@[0] && "Rejected"@[0]
                != "Accepted"@[0]);
        }
        if same_text(s, "Pending") {
            Ok(FriendRequestState::Pending)
        } else if same_text(s, "Rejected") {
            Ok(FriendRequestState::Rejected)
        } else if same_text(s, "Accepted") {
            Ok(FriendRequestState::Accepted)
        } else {
            Err(not_valid(s))
        }
    }

    /// The state's name.
    pub fn to_string(&self) -> (r: String)
        ensures
            r@ == friend_request_state_name(*self),
    {
        match self {
            FriendRequestState::Pending => "Pending".to_string(),
            FriendRequestState::Rejected => "Rejected".to_string(),
            FriendRequestState::Accepted => "Accepted".to_string(),
        }
    }
}

/// No two friend request states share a name, so reading the name that
/// `to_string` writes gives the same state back.
pub proof fn law_friend_request_state_names_differ(a: FriendRequestState, b: FriendRequestState)
    ensures
        friend_request_state_name(a) == friend_request_state_name(b) ==> a == b,
{
    reveal_strlit("Pending");
    reveal_strlit("Rejected");
    reveal_strlit("Accepted");
    assert("Pending"@ != "Rejected"@ && "Pending"@ != "Accepted"@ && "Rejected"@ != "Accepted"@) by {
        assert("Pending"@[0] != "Rejected"@[0] && "Pending"@[0] != "Accepted"@[0] && "Rejected"@[0]
            != "Accepted"@[0]);
    }
}

/// How a user answers a friend request.
#[derive(Debug, Clone, PartialEq, Eq)]
pub enum FriendRequestAction {
    Accept,
    Reject,
    Cancel,
}

/// A member's role in a group.
#[derive(Debug, Clone, Copy, PartialEq, Eq, Structural)]
pub enum GroupRole {
    Admin,
    Member,
}

/// The name of each group role.
pub open spec fn group_role_name(r: GroupRole) -> Seq<char> {
    match r {
        GroupRole::Admin => "Admin"@,
        GroupRole::Member => "Member"@,
    }
}

impl GroupRole {
    /// The role that `s` names ("Admin" or "Member").
    pub fn from_str(s: &str) -> (r: Result<Self, String>)
        ensures
            match r {
                Ok(role) => group_role_name(role) == s@,
                Err(m) => m@ == not_valid_text(s@) && forall|role: GroupRole|
                    group_role_name(role) != s@,
            },
            forall|role: GroupRole| #[trigger] group_role_name(role) == s@ ==> r == Ok::<Self, String>(role),
    {
        proof {
            reveal_strlit("Admin");
            reveal_strlit("Member");
            assert("Admin"@[0] != "Member"@[0]);
        }
        if same_text(s, "Admin") {
            Ok(GroupRole::Admin)
        } else if same_text(s, "Member") {
            Ok(GroupRole::Member)
        } else {
            Err(not_valid(s))
        }
    }

    /// The role's name.
    pub fn to_string(&self) -> (r: String)
        ensures
            r@ == group_role_name(*self),
    {
        match self {
            GroupRole::Admin => "Admin".to_string(),
            GroupRole::Member => "Member".to_string(),
        }
    }
}

/// No two group roles share a name, so reading the name that `to_string`
/// writes gives the same role back.
pub proof fn law_group_role_names_differ(a: GroupRole, b: GroupRole)
    ensures
        group_role_name(a) == group_role_name(b) ==> a == b,
{
    reveal_strlit("Admin");
    reveal_strlit("Member");
    assert("Admin"@[0] != "Member"@[0]);
}

/// A user.
#[derive(Debug, Clone, PartialEq, Eq)]
pub struct User {
    pub id: UserId,
    pub username: String,
    pub friends: Vec<UserId>,
}

impl View for User {
    type V = UserRecord;

    open spec fn view(&self) -> UserRecord {
        UserRecord { id: self.id, username: self.username@, friends: self.friends@ }
    }
}

/// A group of users who share expenses; `owner_id` created it.
#[derive(Debug, Clone, PartialEq, Eq)]
pub struct Group {
    pub id: GroupId,
    pub name: String,
    pub owner_id: UserId,
    pub members: Vec<UserId>,
}

impl View for Group {
    type V = GroupRecord;

    open spec fn view(&self) -> GroupRecord {
        GroupRecord {
            id: self.id,
            name: self.name@,
            owner_id: self.owner_id,
            members: self.members@,
        }
    }
}

/// An expense: `payer` paid `amount` (minor units) on behalf of
/// `participants`, who share it equally.
#[derive(Debug, Clone, PartialEq, Eq)]
pub struct Expense {
    pub id: ExpenseId,
    pub payer: UserId,
    pub participants: Vec<UserId>,
    pub amount: i64,
    pub description: Option<String>,
    pub group_id: Option<GroupId>,
    pub timestamp_ms: i64,
}

impl View for Expense {
    type V = ExpenseRecord;

    open spec fn view(&self) -> ExpenseRecord {
        ExpenseRecord {
            id: self.id,
            payer: self.payer,
            participants: self.participants@,
            amount: self.amount,
            description: opt_text(self.description),
            group_id: self.group_id,
            timestamp_ms: self.timestamp_ms,
        }
    }
}

} // verus!
