//! Request and response values exchanged with clients.
use vstd::prelude::*;
use crate::types::{Expense, ExpenseId, Group, GroupId, NewUser, PublicUser, User, UserId};

verus! {

// ── Response types ──────────────────────────────────────────────────────────

/// The user that a registration created.
#[derive(Debug, Clone, PartialEq, Eq)]
pub struct RegisterResponse {
    pub user: User,
}

/// How a client authenticates after logging in.
#[derive(Debug, Clone, PartialEq, Eq)]
pub enum TokenType {
    Bearer,
}

/// The user that logged in, with the token to authenticate with.
#[derive(Debug, Clone, PartialEq, Eq)]
pub struct LoginResponse {
    pub user: User,
    pub token: String,
    pub token_type: TokenType,
}

/// A user, as a lookup returns it.
#[derive(Debug, Clone, PartialEq, Eq)]
pub struct GetUserResponse {
    pub user: User,
}

/// The users whose names matched a search, without their friends.
#[derive(Debug, Clone, PartialEq, Eq)]
pub struct SearchUserResponse {
    pub user: Vec<PublicUser>,
}

/// The outcome of answering a friend request.
#[derive(Debug, Clone, PartialEq, Eq)]
pub struct HandleFriendRequestResponse {
    pub status: String,
}

/// The id and name of a group that was created.
#[derive(Debug, Clone, PartialEq, Eq)]
pub struct CreateGroupResponse {
    pub id: GroupId,
    pub name: String,
}

/// A group, as a lookup returns it.
#[derive(Debug, Clone, PartialEq, Eq)]
pub struct GetGroupResponse {
    pub id: GroupId,
    pub name: String,
    pub owner_id: UserId,
    pub members: Vec<UserId>,
}

/// An expense that was created.
#[derive(Debug, Clone, PartialEq, Eq)]
pub struct CreateExpenseResponse {
    pub id: ExpenseId,
    pub payer: UserId,
    pub participants: Vec<UserId>,
    pub amount: i64,
    pub description: Option<String>,
    pub group_id: Option<GroupId>,
    pub timestamp_ms: i64,
}

/// An expense, as a lookup returns it.
#[derive(Debug, Clone, PartialEq, Eq)]
pub struct GetExpenseResponse {
    pub id: ExpenseId,
    pub payer: UserId,
    pub participants: Vec<UserId>,
    pub amount: i64,
    pub description: Option<String>,
    pub group_id: Option<GroupId>,
    pub timestamp_ms: i64,
}

// ── Requests handed to the state ────────────────────────────────────────────

/// A group to create; the state gives it a fresh id.
#[derive(Debug, Clone, PartialEq, Eq)]
pub struct CreateGroupRequest {
    pub name: String,
    pub owner_id: UserId,
    pub members: Vec<UserId>,
}

/// A member to add to a group.
#[derive(Debug, Clone, PartialEq, Eq)]
pub struct NewGroupMemberRequest {
    pub group_id: GroupId,
    pub new_member: UserId,
}

/// An expense to create; the state gives it a fresh id and the time.
#[derive(Debug, Clone, PartialEq, Eq)]
pub struct CreateExpenseRequest {
    pub payer: UserId,
    pub participants: Vec<UserId>,
    pub amount: i64,
    pub description: Option<String>,
    pub group_id: Option<GroupId>,
}

/// The expense to look up.
#[derive(Debug, Clone, PartialEq, Eq)]
pub struct GetExpenseRequest {
    pub id: ExpenseId,
}

/// The expense to delete.
#[derive(Debug, Clone, PartialEq, Eq)]
pub struct DeleteExpenseRequest {
    pub id: ExpenseId,
}

/// A new user's name, as a registration form sends it.
#[derive(Debug, Clone, PartialEq, Eq)]
pub struct RegisterRequest {
    pub username: String,
}

// ── Request enums (one per resource, action-based) ──────────────────────────

/// Requests that need no login.
#[derive(Debug, Clone, PartialEq, Eq)]
pub enum UnauthorizedUserRequest {
    Register { user: NewUser },
    Login { username: String, password: String },
}

/// Requests about users.
#[derive(Debug, Clone, PartialEq, Eq)]
pub enum AuthorizedUserRequest {
    Get { user_id: UserId },
    Delete { user_id: UserId },
    List,
    Search { query: String },
    AddFriend { user_id: UserId, friend_id: UserId },
    Logout,
}

/// Requests about groups.
#[derive(Debug, Clone, PartialEq, Eq)]
pub enum GroupRequest {
    Create { name: String, owner_id: UserId, members: Vec<UserId> },
    Get { group_id: GroupId },
    Delete { group_id: GroupId },
    Search { query: String },
    AddMember { group_id: GroupId, new_member: UserId },
}

/// Requests about expenses.
#[allow(inconsistent_fields)]
#[derive(Debug, Clone, PartialEq, Eq)]
pub enum ExpenseRequest {
    Create {
        payer: UserId,
        participants: Vec<UserId>,
        amount: i64,
        description: Option<String>,
        group_id: Option<GroupId>,
    },
    Get { id: ExpenseId },
    Delete { id: ExpenseId },
    ListForUser { user_id: UserId },
    ListForGroup { group_id: GroupId },
}

/// Requests for balances.
#[derive(Debug, Clone, PartialEq, Eq)]
pub enum BalanceRequest {
    User { user_id: UserId },
    Group { group_id: GroupId },
}

// ── Shared types ────────────────────────────────────────────────────────────

/// Amount is in minor units (cents/öre). Positive means `other` owes the
/// requesting user; negative means the requesting user owes `other`.
#[derive(Debug, Clone, PartialEq, Eq)]
pub struct BalanceEntry {
    pub other: UserId,
    pub amount: i64,
}

/// Amount is in minor units (cents/öre). `from` owes `to` this amount.
#[derive(Debug, Clone, PartialEq, Eq)]
pub struct GroupBalance {
    pub from: UserId,
    pub to: UserId,
    pub amount: i64,
}

/// What an endpoint answers: the data, or an error message.
#[derive(Debug, Clone, PartialEq, Eq)]
pub enum ApiResponse<T> {
    Success(T),
    Error { message: String },
}

// ── Conversions ─────────────────────────────────────────────────────────────

impl From<User> for GetUserResponse {
    fn from(value: User) -> (r: Self) {
        GetUserResponse { user: value }
    }
}

impl vstd::std_specs::convert::FromSpecImpl<User> for GetUserResponse {
    open spec fn obeys_from_spec() -> bool {
        true
    }

    open spec fn from_spec(value: User) -> Self {
        GetUserResponse { user: value }
    }
}

impl From<GetUserResponse> for User {
    fn from(value: GetUserResponse) -> (r: Self) {
        value.user
    }
}

impl vstd::std_specs::convert::FromSpecImpl<GetUserResponse> for User {
    open spec fn obeys_from_spec() -> bool {
        true
    }

    open spec fn from_spec(value: GetUserResponse) -> Self {
        value.user
    }
}

impl From<User> for RegisterResponse {
    fn from(value: User) -> (r: Self) {
        RegisterResponse { user: value }
    }
}

impl vstd::std_specs::convert::FromSpecImpl<User> for RegisterResponse {
    open spec fn obeys_from_spec() -> bool {
        true
    }

    open spec fn from_spec(value: User) -> Self {
        RegisterResponse { user: value }
    }
}

impl From<RegisterResponse> for User {
    fn from(value: RegisterResponse) -> (r: Self) {
        value.user
    }
}

impl vstd::std_specs::convert::FromSpecImpl<RegisterResponse> for User {
    open spec fn obeys_from_spec() -> bool {
        true
    }

    open spec fn from_spec(value: RegisterResponse) -> Self {
        value.user
    }
}

impl From<GetGroupResponse> for Group {
    fn from(value: GetGroupResponse) -> (r: Self) {
        Group { id: value.id, name: value.name, owner_id: value.owner_id, members: value.members }
    }
}

impl vstd::std_specs::convert::FromSpecImpl<GetGroupResponse> for Group {
    open spec fn obeys_from_spec() -> bool {
        true
    }

    open spec fn from_spec(value: GetGroupResponse) -> Self {
        Group { id: value.id, name: value.name, owner_id: value.owner_id, members: value.members }
    }
}

impl From<CreateExpenseResponse> for Expense {
    fn from(value: CreateExpenseResponse) -> (r: Self) {
        Expense {
            id: value.id,
            payer: value.payer,
            participants: value.participants,
            amount: value.amount,
            description: value.description,
            group_id: value.group_id,
            timestamp_ms: value.timestamp_ms,
        }
    }
}

impl vstd::std_specs::convert::FromSpecImpl<CreateExpenseResponse> for Expense {
    open spec fn obeys_from_spec() -> bool {
        true
    }

    open spec fn from_spec(value: CreateExpenseResponse) -> Self {
        Expense {
            id: value.id,
            payer: value.payer,
            participants: value.participants,
            amount: value.amount,
            description: value.description,
            group_id: value.group_id,
            timestamp_ms: value.timestamp_ms,
        }
    }
}

impl From<Expense> for CreateExpenseResponse {
    fn from(value: Expense) -> (r: Self) {
        CreateExpenseResponse {
            id: value.id,
            payer: value.payer,
            participants: value.participants,
            amount: value.amount,
            description: value.description,
            group_id: value.group_id,
            timestamp_ms: value.timestamp_ms,
        }
    }
}

impl vstd::std_specs::convert::FromSpecImpl<Expense> for CreateExpenseResponse {
    open spec fn obeys_from_spec() -> bool {
        true
    }

    open spec fn from_spec(value: Expense) -> Self {
        CreateExpenseResponse {
            id: value.id,
            payer: value.payer,
            participants: value.participants,
            amount: value.amount,
            description: value.description,
            group_id: value.group_id,
            timestamp_ms: value.timestamp_ms,
        }
    }
}

impl From<Expense> for GetExpenseResponse {
    fn from(value: Expense) -> (r: Self) {
        GetExpenseResponse {
            id: value.id,
            payer: value.payer,
            participants: value.participants,
            amount: value.amount,
            description: value.description,
            group_id: value.group_id,
            timestamp_ms: value.timestamp_ms,
        }
    }
}

impl vstd::std_specs::convert::FromSpecImpl<Expense> for GetExpenseResponse {
    open spec fn obeys_from_spec() -> bool {
        true
    }

    open spec fn from_spec(value: Expense) -> Self {
        GetExpenseResponse {
            id: value.id,
            payer: value.payer,
            participants: value.participants,
            amount: value.amount,
            description: value.description,
            group_id: value.group_id,
            timestamp_ms: value.timestamp_ms,
        }
    }
}

} // verus!
