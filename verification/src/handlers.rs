//! What the server answers to each request: the operation on the state, the
//! HTTP status and the body.
use vstd::prelude::*;
use vstd::string::*;
use crate::api::{
    ApiResponse, AuthorizedUserRequest, BalanceEntry, BalanceRequest, CreateExpenseRequest,
    CreateExpenseResponse, CreateGroupRequest, CreateGroupResponse, DeleteExpenseRequest,
    ExpenseRequest, GetExpenseRequest, GetExpenseResponse, GetGroupResponse, GetUserResponse,
    GroupBalance, GroupRequest, LoginResponse, NewGroupMemberRequest, RegisterResponse,
    SearchUserResponse, TokenType, UnauthorizedUserRequest,
};
use crate::balance::{group_fits, lists_balances, participant_counts_fit, prefixes_fit, user_deltas};
use crate::state::{AppState, group_name_matches, is_v4_id, is_v4_uuid_text, user_name_matches};
use crate::types::{
    Expense, ExpenseRecord, Group, GroupRecord, PublicUser, User, UserId, UserRecord, opt_text,
};

verus! {

/// 200 OK.
pub const OK: u16 = 200;

/// 201 Created.
pub const CREATED: u16 = 201;

/// 400 Bad Request.
pub const BAD_REQUEST: u16 = 400;

/// 401 Unauthorized.
pub const UNAUTHORIZED: u16 = 401;

/// 404 Not Found.
pub const NOT_FOUND: u16 = 404;

/// 500 Internal Server Error.
pub const INTERNAL_SERVER_ERROR: u16 = 500;

/// The data of a successful reply.
#[derive(Debug, Clone, PartialEq, Eq)]
pub enum Payload {
    Registered(RegisterResponse),
    LoggedIn(LoginResponse),
    User(GetUserResponse),
    /// Every user.
    UserList(Vec<GetUserResponse>),
    Users(SearchUserResponse),
    /// `{"status": ...}`
    Status(String),
    CreatedGroup(CreateGroupResponse),
    Group(GetGroupResponse),
    Groups(Vec<GetGroupResponse>),
    CreatedExpense(CreateExpenseResponse),
    Expense(GetExpenseResponse),
    Expenses(Vec<GetExpenseResponse>),
    Balances(Vec<BalanceEntry>),
    Transfers(Vec<GroupBalance>),
}

/// A reply: an HTTP status and a body.
#[derive(Debug, Clone, PartialEq, Eq)]
pub struct Reply {
    pub status: u16,
    pub body: ApiResponse<Payload>,
}

/// `r` is an error reply with `status` and message `text`.
pub open spec fn is_error(r: Reply, status: u16, text: Seq<char>) -> bool {
    &&& r.status == status
    &&& r.body matches ApiResponse::Error { message } && message@ == text
}

/// `r` is a success reply with `status` whose data is a status message `text`.
pub open spec fn is_status(r: Reply, status: u16, text: Seq<char>) -> bool {
    &&& r.status == status
    &&& r.body matches ApiResponse::Success(Payload::Status(s)) && s@ == text
}

/// An error reply.
pub fn json_error(status: u16, message: &str) -> (r: Reply)
    ensures
        is_error(r, status, message@),
{
    Reply { status, body: ApiResponse::Error { message: message.to_string() } }
}

/// A success reply.
pub fn json_success(status: u16, data: Payload) -> (r: Reply)
    ensures
        r.status == status,
        r.body == ApiResponse::Success(data),
{
    Reply { status, body: ApiResponse::Success(data) }
}

/// The reply to a request that the server does not implement.
pub fn json_not_implemented() -> (r: Reply)
    ensures
        is_error(r, INTERNAL_SERVER_ERROR, "Function not implemented"@),
{
    json_error(INTERNAL_SERVER_ERROR, "Function not implemented")
}

/// A success reply carrying a status message.
fn status_reply(status: u16, text: &str) -> (r: Reply)
    ensures
        is_status(r, status, text@),
{
    json_success(status, Payload::Status(text.to_string()))
}

/// What authentication can fail with.
#[derive(Debug, Clone, PartialEq, Eq)]
pub enum AuthError {
    _WrongCredentials,
    _MissingCredentials,
    _TokenCreation,
    InvalidToken,
}

/// The status of each authentication error.
pub open spec fn auth_error_status(e: AuthError) -> u16 {
    match e {
        AuthError::_WrongCredentials => UNAUTHORIZED,
        AuthError::_MissingCredentials => BAD_REQUEST,
        AuthError::_TokenCreation => INTERNAL_SERVER_ERROR,
        AuthError::InvalidToken => BAD_REQUEST,
    }
}

/// The message of each authentication error.
pub open spec fn auth_error_text(e: AuthError) -> Seq<char> {
    match e {
        AuthError::_WrongCredentials => "Wrong credentials"@,
        AuthError::_MissingCredentials => "Missing credentials"@,
        AuthError::_TokenCreation => "Token creation error"@,
        AuthError::InvalidToken => "Invalid token"@,
    }
}

impl AuthError {
    /// The HTTP status the error is answered with.
    pub fn status(&self) -> (s: u16)
        ensures
            s == auth_error_status(*self),
    {
        match self {
            AuthError::_WrongCredentials => UNAUTHORIZED,
            AuthError::_MissingCredentials => BAD_REQUEST,
            AuthError::_TokenCreation => INTERNAL_SERVER_ERROR,
            AuthError::InvalidToken => BAD_REQUEST,
        }
    }

    /// The message the error is answered with (as `{"error": message}`).
    pub fn message(&self) -> (m: String)
        ensures
            m@ == auth_error_text(*self),
    {
        match self {
            AuthError::_WrongCredentials => "Wrong credentials".to_string(),
            AuthError::_MissingCredentials => "Missing credentials".to_string(),
            AuthError::_TokenCreation => "Token creation error".to_string(),
            AuthError::InvalidToken => "Invalid token".to_string(),
        }
    }
}


// ── Views of response values ───────────────────────────────────────────────

/// The values of a group as a lookup answers it.
pub open spec fn group_response_view(g: GetGroupResponse) -> GroupRecord {
    GroupRecord { id: g.id, name: g.name@, owner_id: g.owner_id, members: g.members@ }
}

/// The values of an expense as a lookup answers it.
pub open spec fn expense_response_view(e: GetExpenseResponse) -> ExpenseRecord {
    ExpenseRecord {
        id: e.id,
        payer: e.payer,
        participants: e.participants@,
        amount: e.amount,
        description: opt_text(e.description),
        group_id: e.group_id,
        timestamp_ms: e.timestamp_ms,
    }
}

/// The values of an expense that was created.
pub open spec fn created_expense_view(e: CreateExpenseResponse) -> ExpenseRecord {
    ExpenseRecord {
        id: e.id,
        payer: e.payer,
        participants: e.participants@,
        amount: e.amount,
        description: opt_text(e.description),
        group_id: e.group_id,
        timestamp_ms: e.timestamp_ms,
    }
}

/// The id and name of a user, as a search answers them.
pub open spec fn public_view(u: PublicUser) -> (UserId, Seq<char>) {
    (u.id, u.username@)
}

/// The id and name of a stored user.
pub open spec fn public_of(u: UserRecord) -> (UserId, Seq<char>) {
    (u.id, u.username)
}

/// A group as a lookup answers it.
fn group_response(g: Group) -> (r: GetGroupResponse)
    ensures
        group_response_view(r) == g@,
{
    GetGroupResponse { id: g.id, name: g.name, owner_id: g.owner_id, members: g.members }
}

/// A list of users as a lookup answers them.
fn user_responses(users: Vec<User>) -> (r: Vec<GetUserResponse>)
    ensures
        r@.map_values(|g: GetUserResponse| g.user@) == users@.map_values(|u: User| u@),
{
    let mut rest = reversed(users);
    let ghost all = rest@.reverse();
    let mut r: Vec<GetUserResponse> = Vec::new();
    while rest.len() > 0
        invariant
            rest@.len() + r@.len() == all.len(),
            forall|i: int| 0 <= i < rest@.len() ==> #[trigger] rest@[i] == all[all.len() - 1 - i],
            forall|i: int| 0 <= i < r@.len() ==> #[trigger] r@[i].user@ == all[i]@,
        decreases rest@.len(),
    {
        let u = rest.pop().unwrap();
        r.push(GetUserResponse::from(u));
    }
    proof {
        assert(r@.map_values(|g: GetUserResponse| g.user@) =~= all.map_values(|u: User| u@));
    }
    r
}

/// The elements of `v` in the opposite order.
fn reversed<T>(v: Vec<T>) -> (r: Vec<T>)
    ensures
        r@ == v@.reverse(),
{
    let mut v = v;
    let ghost all = v@;
    let mut r: Vec<T> = Vec::new();
    while v.len() > 0
        invariant
            v@.len() <= all.len(),
            v@ == all.take(v@.len() as int),
            r@ == all.skip(v@.len() as int).reverse(),
        decreases v@.len(),
    {
        let ghost n = v@.len() as int;
        let ghost before = v@;
        let x = v.pop().unwrap();
        proof {
            assert(before == all.take(n));
            assert(x == all[n - 1]);
            assert(v@ =~= all.take(n - 1));
            let a = all.skip(n - 1).reverse();
            let b = all.skip(n).reverse().push(x);
            assert(a.len() == b.len());
            assert forall|i: int| 0 <= i < a.len() implies a[i] == b[i] by {
                assert(a[i] == all.skip(n - 1)[all.len() - n - i]);
                if i < a.len() - 1 {
                    assert(b[i] == all.skip(n)[all.len() - n - 1 - i]);
                }
            }
            assert(a =~= b);
        }
        r.push(x);
    }
    proof {
        assert(all.skip(0) =~= all);
    }
    r
}

/// A list of expenses as a lookup answers them.
fn expense_responses(expenses: Vec<Expense>) -> (r: Vec<GetExpenseResponse>)
    ensures
        r@.map_values(|e: GetExpenseResponse| expense_response_view(e)) == expenses@.map_values(
            |e: Expense| e@,
        ),
{
    let mut rest = reversed(expenses);
    let ghost all = rest@.reverse();
    let mut r: Vec<GetExpenseResponse> = Vec::new();
    while rest.len() > 0
        invariant
            rest@.len() + r@.len() == all.len(),
            forall|i: int| 0 <= i < rest@.len() ==> #[trigger] rest@[i] == all[all.len() - 1 - i],
            forall|i: int| 0 <= i < r@.len() ==> expense_response_view(#[trigger] r@[i]) == all[i]@,
        decreases rest@.len(),
    {
        let e = rest.pop().unwrap();
        r.push(GetExpenseResponse::from(e));
    }
    proof {
        assert(r@.map_values(|e: GetExpenseResponse| expense_response_view(e)) =~= all.map_values(
            |e: Expense| e@,
        ));
    }
    r
}

/// A list of groups as a lookup answers them.
fn group_responses(groups: Vec<Group>) -> (r: Vec<GetGroupResponse>)
    ensures
        r@.map_values(|g: GetGroupResponse| group_response_view(g)) == groups@.map_values(
            |g: Group| g@,
        ),
{
    let mut rest = reversed(groups);
    let ghost all = rest@.reverse();
    let mut r: Vec<GetGroupResponse> = Vec::new();
    while rest.len() > 0
        invariant
            rest@.len() + r@.len() == all.len(),
            forall|i: int| 0 <= i < rest@.len() ==> #[trigger] rest@[i] == all[all.len() - 1 - i],
            forall|i: int| 0 <= i < r@.len() ==> group_response_view(#[trigger] r@[i]) == all[i]@,
        decreases rest@.len(),
    {
        let g = rest.pop().unwrap();
        r.push(group_response(g));
    }
    proof {
        assert(r@.map_values(|g: GetGroupResponse| group_response_view(g)) =~= all.map_values(
            |g: Group| g@,
        ));
    }
    r
}

// ── Handlers ───────────────────────────────────────────────────────────────

/// The answer to a request that needs no login: registering a new user
/// (fresh id, no friends, with the e-mail address and password given), or
/// logging in with a name and password.
pub fn unauthorized_user_handler(state: &mut AppState, payload: UnauthorizedUserRequest) -> (r:
    Reply)
    ensures
        old(state).store.keyed() ==> final(state).store.keyed(),
        match payload {
            UnauthorizedUserRequest::Register { user } => {
                &&& r.status == CREATED
                &&& r.body matches ApiResponse::Success(Payload::Registered(resp)) && {
                    &&& is_v4_id(resp.user.id)
                    &&& resp.user.username@ == user.username@
                    &&& resp.user.friends@ == Seq::<UserId>::empty()
                    &&& final(state).store.user_map() == old(state).store.user_map().insert(
                        resp.user.id,
                        resp.user@,
                    )
                    &&& final(state).store.credentials() == old(state).store.credentials().insert(
                        resp.user.id,
                        (user.email@, user.password@),
                    )
                }
                &&& final(state).store.groups@ == old(state).store.groups@
                &&& final(state).store.expenses@ == old(state).store.expenses@
            },
            UnauthorizedUserRequest::Login { username, password } => {
                &&& *final(state) == *old(state)
                &&& match old(state).store.first_named_id(username@) {
                    Some(k) => if old(state).store.credentials()[k].1 == password@ {
                        &&& r.status == OK
                        &&& r.body matches ApiResponse::Success(Payload::LoggedIn(resp))
                            && resp.user@ == old(state).store.user_map()[k] && resp.token_type
                            == TokenType::Bearer && is_v4_uuid_text(resp.token@)
                    } else {
                        is_error(r, UNAUTHORIZED, "Authentication failed"@)
                    },
                    None => is_error(r, UNAUTHORIZED, "Authentication failed"@),
                }
            },
        },
{
    match payload {
        UnauthorizedUserRequest::Register { user } => {
            let u = state.register_user(user);
            json_success(CREATED, Payload::Registered(RegisterResponse { user: u }))
        },
        UnauthorizedUserRequest::Login { username, password } => {
            match state.login_user(username.as_str(), password.as_str()) {
                Ok((user, token, token_type)) => json_success(
                    OK,
                    Payload::LoggedIn(LoginResponse { user, token, token_type }),
                ),
                Err(_) => json_error(UNAUTHORIZED, "Authentication failed"),
            }
        },
    }
}

/// The answer to a request about users.
pub fn authorized_user_handler(state: &mut AppState, payload: AuthorizedUserRequest) -> (r: Reply)
    requires
        payload matches AuthorizedUserRequest::AddFriend { user_id, friend_id } ==> old(
            state,
        ).store.users@.contains_key(user_id) == old(state).store.users@.contains_key(friend_id),
    ensures
        old(state).store.keyed() ==> final(state).store.keyed(),
        match payload {
            AuthorizedUserRequest::Logout => {
                &&& is_error(r, INTERNAL_SERVER_ERROR, "Function not implemented"@)
                &&& *final(state) == *old(state)
            },
            AuthorizedUserRequest::Get { user_id } => {
                &&& *final(state) == *old(state)
                &&& if old(state).store.user_map().contains_key(user_id) {
                    &&& r.status == OK
                    &&& r.body matches ApiResponse::Success(Payload::User(resp)) && resp.user@
                        == old(state).store.user_map()[user_id]
                } else {
                    is_error(r, NOT_FOUND, "User not found"@)
                }
            },
            AuthorizedUserRequest::Delete { user_id } => {
                &&& is_status(r, OK, "User deleted"@)
                &&& final(state).store.user_map() == old(state).store.user_map().remove(user_id)
                &&& final(state).store.groups@ == old(state).store.groups@
                &&& final(state).store.expenses@ == old(state).store.expenses@
            },
            AuthorizedUserRequest::List => {
                &&& *final(state) == *old(state)
                &&& r.status == OK
                &&& r.body matches ApiResponse::Success(Payload::UserList(v)) && v@.map_values(
                    |g: GetUserResponse| g.user@,
                ) == old(state).store.users_in_order()
            },
            AuthorizedUserRequest::Search { query } => {
                &&& *final(state) == *old(state)
                &&& r.status == OK
                &&& r.body matches ApiResponse::Success(Payload::Users(resp)) && resp.user@.map_values(
                    |p: PublicUser| public_view(p),
                ) == old(state).store.users_in_order().filter(
                    user_name_matches(query@),
                ).map_values(|u: UserRecord| public_of(u))
            },
            AuthorizedUserRequest::AddFriend { user_id, friend_id } => {
                &&& final(state).store.groups@ == old(state).store.groups@
                &&& final(state).store.expenses@ == old(state).store.expenses@
                &&& if old(state).store.users@.contains_key(user_id) {
                    &&& is_status(r, OK, "friend added"@)
                    &&& final(state).store.user_map() == crate::store::befriend(
                        old(state).store.user_map(),
                        user_id,
                        friend_id,
                    )
                } else {
                    &&& is_error(r, BAD_REQUEST, "user_id or friend_id not found"@)
                    &&& *final(state) == *old(state)
                }
            },
        },
{
    match payload {
        AuthorizedUserRequest::Logout => json_not_implemented(),
        AuthorizedUserRequest::Get { user_id } => match state.get_user(user_id) {
            Ok(u) => json_success(OK, Payload::User(GetUserResponse::from(u))),
            Err(_) => json_error(NOT_FOUND, "User not found"),
        },
        AuthorizedUserRequest::Delete { user_id } => {
            state.delete_user(user_id);
            status_reply(OK, "User deleted")
        },
        AuthorizedUserRequest::List => {
            let users = state.get_users();
            let resp = user_responses(users);
            json_success(OK, Payload::UserList(resp))
        },
        AuthorizedUserRequest::Search { query } => {
            let users = state.search_users(query.as_str());
            let ghost found = users@;
            let mut public: Vec<PublicUser> = Vec::new();
            for i in 0..users.len()
                invariant
                    found == users@,
                    public@.len() == i,
                    forall|j: int|
                        0 <= j < i ==> public_view(#[trigger] public@[j]) == public_of(users@[j]@),
            {
                let u = &users[i];
                public.push(PublicUser { id: u.id, username: u.username.clone() });
            }
            proof {
                let want = state.store.users_in_order().filter(
                    user_name_matches(query@),
                );
                assert(users@.map_values(|u: User| u@) == want);
                assert(public@.map_values(|p: PublicUser| public_view(p)) =~= want.map_values(
                    |u: UserRecord| public_of(u),
                )) by {
                    assert forall|j: int| 0 <= j < public@.len() implies public_view(public@[j])
                        == public_of(want[j]) by {
                        assert(want[j] == users@.map_values(|u: User| u@)[j]);
                    }
                }
            }
            json_success(OK, Payload::Users(SearchUserResponse { user: public }))
        },
        AuthorizedUserRequest::AddFriend { user_id, friend_id } => {
            match state.add_friend(user_id, friend_id) {
                Ok(_) => status_reply(OK, "friend added"),
                Err(_) => json_error(BAD_REQUEST, "user_id or friend_id not found"),
            }
        },
    }
}

/// The answer to a request about groups.
pub fn group_handler(state: &mut AppState, payload: GroupRequest) -> (r: Reply)
    ensures
        old(state).store.keyed() ==> final(state).store.keyed(),
        match payload {
            GroupRequest::Create { name, owner_id, members } => {
                &&& r.status == CREATED
                &&& r.body matches ApiResponse::Success(Payload::CreatedGroup(c)) && {
                    &&& is_v4_id(c.id)
                    &&& c.name@ == name@
                    &&& final(state).store.group_map() == old(state).store.group_map().insert(
                        c.id,
                        GroupRecord { id: c.id, name: name@, owner_id, members: members@ },
                    )
                }
                &&& final(state).store.users@ == old(state).store.users@
                &&& final(state).store.expenses@ == old(state).store.expenses@
            },
            GroupRequest::Get { group_id } => {
                &&& *final(state) == *old(state)
                &&& if old(state).store.group_map().contains_key(group_id) {
                    &&& r.status == OK
                    &&& r.body matches ApiResponse::Success(Payload::Group(g)) && group_response_view(g)
                        == old(state).store.group_map()[group_id]
                } else {
                    is_error(r, NOT_FOUND, "Group not found"@)
                }
            },
            GroupRequest::Delete { group_id } => {
                &&& is_status(r, OK, "Group deleted"@)
                &&& final(state).store.group_map() == old(state).store.group_map().remove(group_id)
                &&& final(state).store.users@ == old(state).store.users@
                &&& final(state).store.expenses@ == old(state).store.expenses@
            },
            GroupRequest::Search { query } => {
                &&& *final(state) == *old(state)
                &&& r.status == OK
                &&& r.body matches ApiResponse::Success(Payload::Groups(v)) && v@.map_values(
                    |g: GetGroupResponse| group_response_view(g),
                ) == old(state).store.groups_in_order().filter(
                    group_name_matches(query@),
                )
            },
            GroupRequest::AddMember { group_id, new_member } => {
                &&& final(state).store.users@ == old(state).store.users@
                &&& final(state).store.expenses@ == old(state).store.expenses@
                &&& if old(state).store.group_map().contains_key(group_id) {
                    let before = old(state).store.group_map()[group_id];
                    &&& is_status(r, OK, "member added"@)
                    &&& final(state).store.group_map() == old(state).store.group_map().insert(
                        before.id,
                        GroupRecord {
                            id: before.id,
                            name: before.name,
                            owner_id: before.owner_id,
                            members: before.members.push(new_member),
                        },
                    )
                } else {
                    &&& is_error(r, INTERNAL_SERVER_ERROR, "Failed to add member"@)
                    &&& final(state).store.group_map() == old(state).store.group_map()
                }
            },
        },
{
    match payload {
        GroupRequest::Create { name, owner_id, members } => {
            let req = CreateGroupRequest { name, owner_id, members };
            let g = state.create_group(req);
            json_success(CREATED, Payload::CreatedGroup(CreateGroupResponse { id: g.id, name: g.name }))
        },
        GroupRequest::Get { group_id } => match state.get_group(group_id) {
            Some(g) => json_success(OK, Payload::Group(group_response(g))),
            None => json_error(NOT_FOUND, "Group not found"),
        },
        GroupRequest::Delete { group_id } => {
            state.delete_group(group_id);
            status_reply(OK, "Group deleted")
        },
        GroupRequest::Search { query } => {
            let groups = state.search_groups(query.as_str());
            let v = group_responses(groups);
            json_success(OK, Payload::Groups(v))
        },
        GroupRequest::AddMember { group_id, new_member } => {
            let req = NewGroupMemberRequest { group_id, new_member };
            match state.new_group_member(req) {
                Ok(_) => status_reply(OK, "member added"),
                Err(_) => json_error(INTERNAL_SERVER_ERROR, "Failed to add member"),
            }
        },
    }
}

/// The answer to a request about expenses.
pub fn expense_handler(state: &mut AppState, payload: ExpenseRequest) -> (r: Reply)
    ensures
        old(state).store.keyed() ==> final(state).store.keyed(),
        match payload {
            ExpenseRequest::Create { payer, participants, amount, description, group_id } => {
                &&& r.status == CREATED
                &&& r.body matches ApiResponse::Success(Payload::CreatedExpense(c)) && {
                    &&& is_v4_id(c.id)
                    &&& c.payer == payer
                    &&& c.participants@ == participants@
                    &&& c.amount == amount
                    &&& opt_text(c.description) == opt_text(description)
                    &&& c.group_id == group_id
                    &&& final(state).store.expense_map() == old(state).store.expense_map().insert(
                        c.id,
                        created_expense_view(c),
                    )
                }
                &&& final(state).store.users@ == old(state).store.users@
                &&& final(state).store.groups@ == old(state).store.groups@
            },
            ExpenseRequest::Get { id } => {
                &&& *final(state) == *old(state)
                &&& if old(state).store.expense_map().contains_key(id) {
                    &&& r.status == OK
                    &&& r.body matches ApiResponse::Success(Payload::Expense(e))
                        && expense_response_view(e) == old(state).store.expense_map()[id]
                } else {
                    is_error(r, INTERNAL_SERVER_ERROR, "Failed to get expense"@)
                }
            },
            ExpenseRequest::Delete { id } => {
                &&& is_status(r, OK, "Expense deleted"@)
                &&& final(state).store.expense_map() == old(state).store.expense_map().remove(id)
                &&& final(state).store.users@ == old(state).store.users@
                &&& final(state).store.groups@ == old(state).store.groups@
            },
            ExpenseRequest::ListForUser { user_id } => {
                &&& *final(state) == *old(state)
                &&& r.status == OK
                &&& r.body matches ApiResponse::Success(Payload::Expenses(v)) && v@.map_values(
                    |e: GetExpenseResponse| expense_response_view(e),
                ) == old(state).user_expenses(user_id).map_values(|e: Expense| e@)
            },
            ExpenseRequest::ListForGroup { group_id } => {
                &&& *final(state) == *old(state)
                &&& r.status == OK
                &&& r.body matches ApiResponse::Success(Payload::Expenses(v)) && v@.map_values(
                    |e: GetExpenseResponse| expense_response_view(e),
                ) == old(state).group_expenses(group_id).map_values(|e: Expense| e@)
            },
        },
{
    match payload {
        ExpenseRequest::Create { payer, participants, amount, description, group_id } => {
            let req = CreateExpenseRequest { payer, participants, amount, description, group_id };
            let e = state.create_expense(req);
            json_success(CREATED, Payload::CreatedExpense(CreateExpenseResponse::from(e)))
        },
        ExpenseRequest::Get { id } => match state.get_expense(GetExpenseRequest { id }) {
            Ok(e) => json_success(OK, Payload::Expense(GetExpenseResponse::from(e))),
            Err(_) => json_error(INTERNAL_SERVER_ERROR, "Failed to get expense"),
        },
        ExpenseRequest::Delete { id } => {
            state.delete_expense(DeleteExpenseRequest { id });
            status_reply(OK, "Expense deleted")
        },
        ExpenseRequest::ListForUser { user_id } => {
            let expenses = state.list_expenses_for_user(user_id);
            json_success(OK, Payload::Expenses(expense_responses(expenses)))
        },
        ExpenseRequest::ListForGroup { group_id } => {
            let expenses = state.list_expenses_for_group(group_id);
            json_success(OK, Payload::Expenses(expense_responses(expenses)))
        },
    }
}

/// Whether the balances that `payload` asks for can be computed in `i64`
/// without overflow.
pub open spec fn balance_request_fits(state: AppState, payload: BalanceRequest) -> bool {
    match payload {
        BalanceRequest::User { user_id } => {
            &&& participant_counts_fit(state.user_expenses(user_id))
            &&& prefixes_fit(user_deltas(user_id, state.user_expenses(user_id)))
        },
        BalanceRequest::Group { group_id } => {
            &&& participant_counts_fit(state.group_expenses(group_id))
            &&& group_fits(state.group_expenses(group_id))
        },
    }
}

/// `r` answers the balance request `payload` over `state`: status 200 with
/// the user's balances (one entry per other user whose balance is not zero)
/// or the group's settlement transfers.
pub open spec fn is_balance_reply(state: AppState, payload: BalanceRequest, r: Reply) -> bool {
    &&& r.status == OK
    &&& match payload {
        BalanceRequest::User { user_id } => r.body matches ApiResponse::Success(
            Payload::Balances(v),
        ) && lists_balances(user_id, state.user_expenses(user_id), v@),
        BalanceRequest::Group { group_id } => r.body matches ApiResponse::Success(
            Payload::Transfers(v),
        ) && crate::balance::transfers_view(v@) == crate::balance::group_settlement(
            state.group_expenses(group_id),
        ),
    }
}

/// The answer to a request for balances.
pub fn balance_handler(state: &AppState, payload: BalanceRequest) -> (r: Reply)
    requires
        balance_request_fits(*state, payload),
    ensures
        is_balance_reply(*state, payload, r),
{
    match payload {
        BalanceRequest::User { user_id } => {
            let balances = state.get_user_non_group_balances(user_id);
            json_success(OK, Payload::Balances(balances))
        },
        BalanceRequest::Group { group_id } => {
            let transfers = state.get_group_balance_overview(group_id);
            json_success(OK, Payload::Transfers(transfers))
        },
    }
}

/// The answer to a request for balances, or `None` when computing it would
/// leave the range of `i64` (where `balance_handler` cannot run).
pub fn checked_balance_handler(state: &AppState, payload: BalanceRequest) -> (r: Option<Reply>)
    ensures
        r is Some <==> balance_request_fits(*state, payload),
        r matches Some(reply) ==> is_balance_reply(*state, payload, reply),
{
    let fits = match &payload {
        BalanceRequest::User { user_id } => state.user_balances_computable(*user_id),
        BalanceRequest::Group { group_id } => state.group_balances_computable(*group_id),
    };
    if fits {
        Some(balance_handler(state, payload))
    } else {
        None
    }
}

// ── Replies when the store fails ───────────────────────────────────────────

/// The reply to `payload` when the store fails to carry it out (for
/// instance when a change cannot be persisted); `None` for the requests
/// that never reach the store.
pub fn unauthorized_user_failure(payload: &UnauthorizedUserRequest) -> (r: Option<Reply>)
    ensures
        match *payload {
            UnauthorizedUserRequest::Register { .. } => r matches Some(reply) && is_error(
                reply,
                BAD_REQUEST,
                "Failed to register user"@,
            ),
            UnauthorizedUserRequest::Login { .. } => r matches Some(reply) && is_error(
                reply,
                UNAUTHORIZED,
                "Authentication failed"@,
            ),
        },
{
    match payload {
        UnauthorizedUserRequest::Register { .. } => Some(
            json_error(BAD_REQUEST, "Failed to register user"),
        ),
        UnauthorizedUserRequest::Login { .. } => Some(json_error(UNAUTHORIZED, "Authentication failed")),
    }
}

/// The reply to `payload` when the store fails to carry it out; `None`
/// for the requests that never reach the store.
pub fn authorized_user_failure(payload: &AuthorizedUserRequest) -> (r: Option<Reply>)
    ensures
        match *payload {
            AuthorizedUserRequest::Logout => r is None,
            AuthorizedUserRequest::List => r matches Some(reply) && is_error(
                reply,
                INTERNAL_SERVER_ERROR,
                "Failed to get users"@,
            ),
            AuthorizedUserRequest::Get { .. } => r matches Some(reply) && is_error(
                reply,
                NOT_FOUND,
                "User not found"@,
            ),
            AuthorizedUserRequest::Delete { .. } => r matches Some(reply) && is_error(
                reply,
                NOT_FOUND,
                "User not found"@,
            ),
            AuthorizedUserRequest::Search { .. } => r matches Some(reply) && is_error(
                reply,
                INTERNAL_SERVER_ERROR,
                "Failed to search users"@,
            ),
            AuthorizedUserRequest::AddFriend { .. } => r matches Some(reply) && is_error(
                reply,
                BAD_REQUEST,
                "user_id or friend_id not found"@,
            ),
        },
{
    match payload {
        AuthorizedUserRequest::Logout => None,
        AuthorizedUserRequest::List => Some(json_error(INTERNAL_SERVER_ERROR, "Failed to get users")),
        AuthorizedUserRequest::Get { .. } => Some(json_error(NOT_FOUND, "User not found")),
        AuthorizedUserRequest::Delete { .. } => Some(json_error(NOT_FOUND, "User not found")),
        AuthorizedUserRequest::Search { .. } => Some(
            json_error(INTERNAL_SERVER_ERROR, "Failed to search users"),
        ),
        AuthorizedUserRequest::AddFriend { .. } => Some(
            json_error(BAD_REQUEST, "user_id or friend_id not found"),
        ),
    }
}

/// The reply to `payload` when the store fails to carry it out.
pub fn group_failure(payload: &GroupRequest) -> (r: Reply)
    ensures
        match *payload {
            GroupRequest::Create { .. } => is_error(
                r,
                INTERNAL_SERVER_ERROR,
                "Failed to create group"@,
            ),
            GroupRequest::Get { .. } => is_error(r, INTERNAL_SERVER_ERROR, "Failed to get group"@),
            GroupRequest::Delete { .. } => is_error(
                r,
                INTERNAL_SERVER_ERROR,
                "Failed to delete group"@,
            ),
            GroupRequest::Search { .. } => is_error(
                r,
                INTERNAL_SERVER_ERROR,
                "Failed to search groups"@,
            ),
            GroupRequest::AddMember { .. } => is_error(
                r,
                INTERNAL_SERVER_ERROR,
                "Failed to add member"@,
            ),
        },
{
    match payload {
        GroupRequest::Create { .. } => json_error(INTERNAL_SERVER_ERROR, "Failed to create group"),
        GroupRequest::Get { .. } => json_error(INTERNAL_SERVER_ERROR, "Failed to get group"),
        GroupRequest::Delete { .. } => json_error(INTERNAL_SERVER_ERROR, "Failed to delete group"),
        GroupRequest::Search { .. } => json_error(INTERNAL_SERVER_ERROR, "Failed to search groups"),
        GroupRequest::AddMember { .. } => json_error(INTERNAL_SERVER_ERROR, "Failed to add member"),
    }
}

/// The reply to `payload` when the store fails to carry it out.
pub fn expense_failure(payload: &ExpenseRequest) -> (r: Reply)
    ensures
        match *payload {
            ExpenseRequest::Create { .. } => is_error(
                r,
                INTERNAL_SERVER_ERROR,
                "Failed to create expense"@,
            ),
            ExpenseRequest::Get { .. } => is_error(r, INTERNAL_SERVER_ERROR, "Failed to get expense"@),
            ExpenseRequest::Delete { .. } => is_error(
                r,
                INTERNAL_SERVER_ERROR,
                "Failed to delete expense"@,
            ),
            ExpenseRequest::ListForUser { .. } => is_error(
                r,
                INTERNAL_SERVER_ERROR,
                "Failed to list expenses for user"@,
            ),
            ExpenseRequest::ListForGroup { .. } => is_error(
                r,
                INTERNAL_SERVER_ERROR,
                "Failed to list expenses for group"@,
            ),
        },
{
    match payload {
        ExpenseRequest::Create { .. } => json_error(INTERNAL_SERVER_ERROR, "Failed to create expense"),
        ExpenseRequest::Get { .. } => json_error(INTERNAL_SERVER_ERROR, "Failed to get expense"),
        ExpenseRequest::Delete { .. } => json_error(INTERNAL_SERVER_ERROR, "Failed to delete expense"),
        ExpenseRequest::ListForUser { .. } => json_error(
            INTERNAL_SERVER_ERROR,
            "Failed to list expenses for user",
        ),
        ExpenseRequest::ListForGroup { .. } => json_error(
            INTERNAL_SERVER_ERROR,
            "Failed to list expenses for group",
        ),
    }
}

/// The reply to `payload` when the store fails to carry it out.
pub fn balance_failure(payload: &BalanceRequest) -> (r: Reply)
    ensures
        match *payload {
            BalanceRequest::User { .. } => is_error(
                r,
                INTERNAL_SERVER_ERROR,
                "Failed to get user balances"@,
            ),
            BalanceRequest::Group { .. } => is_error(
                r,
                INTERNAL_SERVER_ERROR,
                "Failed to get group balances"@,
            ),
        },
{
    match payload {
        BalanceRequest::User { .. } => json_error(INTERNAL_SERVER_ERROR, "Failed to get user balances"),
        BalanceRequest::Group { .. } => json_error(
            INTERNAL_SERVER_ERROR,
            "Failed to get group balances",
        ),
    }
}

} // verus!
