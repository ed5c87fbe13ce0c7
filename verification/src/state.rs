//! The application state: the store, and what each operation does to it.
use vstd::prelude::*;
use vstd::string::*;
use crate::api::{
    TokenType, BalanceEntry, CreateExpenseRequest, CreateGroupRequest, DeleteExpenseRequest,
    GetExpenseRequest, GroupBalance, NewGroupMemberRequest,
};
use crate::settlement::law_settlement_ignores_order;
use crate::balance::{
    group_balance_overview, group_balances_fit, group_fits, group_net, group_settlement,
    law_own_balances_mirror, lemma_same_effects_counts, lemma_same_effects_group,
    lemma_same_effects_user, lists_balances, same_in_group, takes_part,
    participant_counts_fit, prefixes_fit, same_effect, same_effects, transfers_view, user_balance,
    user_balances_fit, user_deltas, user_non_group_balances,
};
use crate::ordered::{ascending, lemma_ascending_exists, lemma_ascending_filter};
use crate::search::{contains_text, same_text, text_contains};
use crate::store::{
    ExpenseRow, FileState, GroupRow, StoreError, UserRow, involves, store_error_text,
};
use crate::types::{
    Expense, ExpenseId, Group, GroupId, GroupRecord, NewUser, User, UserId, UserRecord, opt_text,
};

verus! {

/// `id` has the shape of a version-4 UUID read as a number: version nibble
/// (bits 76 to 79) 4 and variant bits (62 and 63) `10`.
pub open spec fn is_v4_id(id: u128) -> bool {
    &&& (id >> 76u128) & 0xfu128 == 4
    &&& (id >> 62u128) & 0x3u128 == 2
}

/// A fresh random id: the value of a new version-4 UUID.
///
/// `uuid::Uuid::new_v4` draws random bits and then sets the version nibble
/// (bits 76 to 79 of the value) to 4 and the variant bits (62 and 63) to
/// `10`; `as_u128` reads the UUID's bytes big-endian.  That is all this
/// contract claims: the other bits are chance.
#[verifier::external_body]
fn new_id() -> (id: u128)
    ensures
        is_v4_id(id),
{
    uuid::Uuid::new_v4().as_u128()
}

/// The current time, in milliseconds since the Unix epoch, as
/// `chrono::Utc::now().timestamp_millis()` reads the system clock.  Nothing
/// is claimed of the value: it is the clock's.
#[verifier::external_body]
fn now_millis() -> i64 {
    chrono::Utc::now().timestamp_millis()
}

/// `c` is a lower-case hexadecimal digit.
pub open spec fn is_lower_hex(c: char) -> bool {
    ('0' as int <= c as int <= '9' as int) || ('a' as int <= c as int <= 'f' as int)
}

/// `t` is the text of a version-4 UUID as `uuid` writes it: 36 characters,
/// hyphens at positions 8, 13, 18 and 23, lower-case hexadecimal digits
/// elsewhere, and the version digit `4` at position 14.
pub open spec fn is_v4_uuid_text(t: Seq<char>) -> bool {
    &&& t.len() == 36
    &&& forall|i: int|
        0 <= i < 36 ==> if i == 8 || i == 13 || i == 18 || i == 23 {
            #[trigger] t[i] == '-'
        } else {
            is_lower_hex(t[i])
        }
    &&& t[14] == '4'
}

/// A fresh random token: the text of a new version-4 UUID, from
/// `uuid::Uuid::new_v4().to_string()` (its `Display` writes the hyphenated
/// lower-case form).  Only the shape of the text is claimed: its digits are
/// chance.
#[verifier::external_body]
fn new_token() -> (t: String)
    ensures
        is_v4_uuid_text(t@),
{
    uuid::Uuid::new_v4().to_string()
}

/// Why the state refused a request.
#[derive(Debug, Clone, PartialEq, Eq)]
pub enum StateError {
    /// No user has the requested id.
    UserNotFound,
    /// No expense has the requested id.
    ExpenseNotFound,
    /// No group has the requested id.
    GroupNotFound,
    /// The name and password match no user.
    AuthenticationFailed,
    /// The store refused the request.
    Store(StoreError),
}

/// The message of each state error.
pub open spec fn state_error_text(e: StateError) -> Seq<char> {
    match e {
        StateError::UserNotFound => "Failed to get user"@,
        StateError::ExpenseNotFound => "Expense not found"@,
        StateError::GroupNotFound => "Group not found"@,
        StateError::AuthenticationFailed => "Authentication failed"@,
        StateError::Store(s) => store_error_text(s),
    }
}

impl StateError {
    /// The error's message.
    pub fn message(&self) -> (m: String)
        ensures
            m@ == state_error_text(*self),
    {
        match self {
            StateError::UserNotFound => "Failed to get user".to_string(),
            StateError::ExpenseNotFound => "Expense not found".to_string(),
            StateError::GroupNotFound => "Group not found".to_string(),
            StateError::AuthenticationFailed => "Authentication failed".to_string(),
            StateError::Store(s) => s.message(),
        }
    }
}

// ── Conversions between domain values and stored rows ──────────────────────

impl From<UserRow> for User {
    fn from(user: UserRow) -> (r: Self) {
        User { id: user.id, username: user.username, friends: user.friends }
    }
}

impl vstd::std_specs::convert::FromSpecImpl<UserRow> for User {
    open spec fn obeys_from_spec() -> bool {
        true
    }

    open spec fn from_spec(user: UserRow) -> Self {
        User { id: user.id, username: user.username, friends: user.friends }
    }
}

impl From<Group> for GroupRow {
    fn from(value: Group) -> (r: Self) {
        GroupRow::new(value.id, value.name, value.owner_id, value.members)
    }
}

impl vstd::std_specs::convert::FromSpecImpl<Group> for GroupRow {
    open spec fn obeys_from_spec() -> bool {
        true
    }

    open spec fn from_spec(value: Group) -> Self {
        GroupRow {
            id: value.id,
            name: value.name,
            owner_id: value.owner_id,
            members: value.members,
        }
    }
}

impl From<GroupRow> for Group {
    fn from(value: GroupRow) -> (r: Self) {
        Group { id: value.id, name: value.name, owner_id: value.owner_id, members: value.members }
    }
}

impl vstd::std_specs::convert::FromSpecImpl<GroupRow> for Group {
    open spec fn obeys_from_spec() -> bool {
        true
    }

    open spec fn from_spec(value: GroupRow) -> Self {
        Group { id: value.id, name: value.name, owner_id: value.owner_id, members: value.members }
    }
}

impl From<Expense> for ExpenseRow {
    fn from(value: Expense) -> (r: Self) {
        ExpenseRow::new(
            value.id,
            value.payer,
            value.participants,
            value.amount,
            value.description,
            value.group_id,
            value.timestamp_ms,
        )
    }
}

impl vstd::std_specs::convert::FromSpecImpl<Expense> for ExpenseRow {
    open spec fn obeys_from_spec() -> bool {
        true
    }

    open spec fn from_spec(value: Expense) -> Self {
        ExpenseRow {
            id: value.id,
            payer: value.payer,
            participants: value.participants,
            amount: value.amount,
            description: value.description,
            group_id: value.group_id,
            timestamp_ms: value.timestamp_ms,
        }
    }
}

impl From<ExpenseRow> for Expense {
    fn from(value: ExpenseRow) -> (r: Self) {
        Expense {
            id: value.id,
            payer: value.payer,
            participants: value.participants,
            amount: value.amount,
            description: value.description,
            group_id: value.group_id,
            timestamp_ms: value.timestamp_ms,
        }
    }
}

impl vstd::std_specs::convert::FromSpecImpl<ExpenseRow> for Expense {
    open spec fn obeys_from_spec() -> bool {
        true
    }

    open spec fn from_spec(value: ExpenseRow) -> Self {
        expense_of(value)
    }
}

/// The expense that a stored row holds.
pub open spec fn expense_of(r: ExpenseRow) -> Expense {
    Expense {
        id: r.id,
        payer: r.payer,
        participants: r.participants,
        amount: r.amount,
        description: r.description,
        group_id: r.group_id,
        timestamp_ms: r.timestamp_ms,
    }
}

/// Expenses with the same values agree on what the balances read.
proof fn lemma_views_same_effects(a: Seq<Expense>, b: Seq<Expense>)
    requires
        a.map_values(|e: Expense| e@) == b.map_values(|e: Expense| e@),
    ensures
        same_effects(a, b),
{
    assert(a.len() == a.map_values(|e: Expense| e@).len());
    assert forall|i: int| 0 <= i < a.len() implies #[trigger] same_effect(a[i], b[i]) by {
        assert(a.map_values(|e: Expense| e@)[i] == b.map_values(|e: Expense| e@)[i]);
    }
}

/// Whether a user's name contains `query`.
pub open spec fn user_name_matches(query: Seq<char>) -> spec_fn(UserRecord) -> bool {
    |u: UserRecord| text_contains(u.username, query)
}

/// Whether a group's name contains `query`.
pub open spec fn group_name_matches(query: Seq<char>) -> spec_fn(GroupRecord) -> bool {
    |g: GroupRecord| text_contains(g.name, query)
}

// ── The state ──────────────────────────────────────────────────────────────

/// The server's state: its store.
#[derive(Debug, Clone, PartialEq, Eq)]
pub struct AppState {
    pub store: FileState,
}

impl AppState {
    /// The expenses that `u` takes part in, in ascending id order.
    pub open spec fn user_expenses(self, u: UserId) -> Seq<Expense> {
        self.store.user_expense_ids(u).map_values(|k: ExpenseId| expense_of(self.store.expenses@[k]))
    }

    /// Every stored expense, in ascending id order.
    pub open spec fn all_expenses(self) -> Seq<Expense> {
        ascending(self.store.expenses@.dom()).map_values(
            |k: ExpenseId| expense_of(self.store.expenses@[k]),
        )
    }

    /// The expenses of group `g`, in ascending id order.
    pub open spec fn group_expenses(self, g: GroupId) -> Seq<Expense> {
        self.store.group_expense_ids(g).map_values(|k: ExpenseId| expense_of(self.store.expenses@[k]))
    }

    /// The state of a server whose store holds `store`.
    pub fn new(store: FileState) -> (s: Self)
        ensures
            s.store == store,
    {
        AppState { store }
    }

    /// Registers a new user: a fresh id, the requested name, no friends,
    /// and the e-mail address and password to log in with.
    pub fn register_user(&mut self, user: NewUser) -> (r: User)
        ensures
            is_v4_id(r.id),
            r.username@ == user.username@,
            r.friends@ == Seq::<UserId>::empty(),
            final(self).store.user_map() == old(self).store.user_map().insert(r.id, r@),
            final(self).store.credentials() == old(self).store.credentials().insert(
                r.id,
                (user.email@, user.password@),
            ),
            final(self).store.groups@ == old(self).store.groups@,
            final(self).store.expenses@ == old(self).store.expenses@,
            old(self).store.keyed() ==> final(self).store.keyed(),
    {
        let row = UserRow {
            id: new_id(),
            username: user.username,
            friends: Vec::new(),
            email: user.email,
            password: user.password,
        };
        let stored = self.store.create_user(row);
        User { id: stored.id, username: stored.username, friends: stored.friends }
    }

    /// Logs in the user named `username` (the one with the smallest id when
    /// several share the name) when `password` is that user's password:
    /// the user, a fresh token and its type.
    pub fn login_user(&self, username: &str, password: &str) -> (r: Result<
        (User, String, TokenType),
        StateError,
    >)
        ensures
            match self.store.first_named_id(username@) {
                Some(k) => if self.store.credentials()[k].1 == password@ {
                    r matches Ok((u, token, t)) && u@ == self.store.user_map()[k] && t
                        == TokenType::Bearer && is_v4_uuid_text(token@)
                } else {
                    r == Err::<(User, String, TokenType), StateError>(
                        StateError::AuthenticationFailed,
                    )
                },
                None => r == Err::<(User, String, TokenType), StateError>(
                    StateError::AuthenticationFailed,
                ),
            },
    {
        match self.store.get_user_by_name(username) {
            Some(row) => {
                if same_text(row.password.as_str(), password) {
                    let user = User::from(row);
                    Ok((user, new_token(), TokenType::Bearer))
                } else {
                    Err(StateError::AuthenticationFailed)
                }
            },
            None => Err(StateError::AuthenticationFailed),
        }
    }

    /// The user with id `id`.
    pub fn get_user(&self, id: UserId) -> (r: Result<User, StateError>)
        ensures
            match r {
                Ok(u) => self.store.user_map().contains_key(id) && u@ == self.store.user_map()[id],
                Err(e) => e == StateError::UserNotFound && !self.store.user_map().contains_key(id),
            },
    {
        match self.store.get_user(id) {
            Some(u) => Ok(User::from(u)),
            None => Err(StateError::UserNotFound),
        }
    }

    /// Every user, in ascending id order.
    pub fn get_users(&self) -> (r: Vec<User>)
        ensures
            r@.map_values(|u: User| u@) == self.store.users_in_order(),
    {
        let rows = self.store.list_users();
        let mut res: Vec<User> = Vec::new();
        for i in 0..rows.len()
            invariant
                rows@.map_values(|r: UserRow| r@) == self.store.users_in_order(),
                res@.len() == i,
                forall|j: int| 0 <= j < i ==> #[trigger] res@[j]@ == rows@[j]@,
        {
            res.push(User::from(rows[i].duplicate()));
        }
        proof {
            assert(res@.map_values(|u: User| u@) =~= rows@.map_values(|r: UserRow| r@));
        }
        res
    }

    /// The users whose names contain `query`, in ascending id order.
    pub fn search_users(&self, query: &str) -> (r: Vec<User>)
        ensures
            r@.map_values(|u: User| u@) == self.store.users_in_order().filter(
                user_name_matches(query@),
            ),
    {
        let rows = self.store.list_users();
        let ghost all = self.store.users_in_order();
        let ghost pred = user_name_matches(query@);
        let mut res: Vec<User> = Vec::new();
        for i in 0..rows.len()
            invariant
                rows@.map_values(|r: UserRow| r@) == all,
                pred == user_name_matches(query@),
                res@.map_values(|u: User| u@) == all.take(i as int).filter(pred),
        {
            proof {
                reveal(Seq::filter);
                assert(all.take(i + 1).drop_last() =~= all.take(i as int));
                assert(all[i as int] == rows@[i as int]@);
            }
            if contains_text(rows[i].username.as_str(), query) {
                let ghost before = res@;
                res.push(User::from(rows[i].duplicate()));
                proof {
                    assert(res@.map_values(|u: User| u@) =~= before.map_values(|u: User| u@).push(
                        rows@[i as int]@,
                    ));
                }
            }
        }
        proof {
            assert(all.take(rows@.len() as int) =~= all);
        }
        res
    }

    /// Removes the user with id `id`, if there is one.
    pub fn delete_user(&mut self, id: UserId)
        ensures
            final(self).store.user_map() == old(self).store.user_map().remove(id),
            final(self).store.groups@ == old(self).store.groups@,
            final(self).store.expenses@ == old(self).store.expenses@,
            old(self).store.keyed() ==> final(self).store.keyed(),
    {
        self.store.delete_user(id);
    }

    /// Stores `updated_user` under its id, replacing the user there; the
    /// e-mail address and password stored for that id stay (empty for a
    /// new id).
    pub fn edit_user(&mut self, updated_user: User) -> (r: User)
        ensures
            r@ == updated_user@,
            final(self).store.user_map() == old(self).store.user_map().insert(
                updated_user.id,
                updated_user@,
            ),
            final(self).store.credentials() == old(self).store.credentials().insert(
                updated_user.id,
                if old(self).store.credentials().contains_key(updated_user.id) {
                    old(self).store.credentials()[updated_user.id]
                } else {
                    (Seq::<char>::empty(), Seq::<char>::empty())
                },
            ),
            final(self).store.groups@ == old(self).store.groups@,
            final(self).store.expenses@ == old(self).store.expenses@,
            old(self).store.keyed() ==> final(self).store.keyed(),
    {
        let (email, password) = match self.store.get_user(updated_user.id) {
            Some(old_row) => (old_row.email, old_row.password),
            None => (String::new(), String::new()),
        };
        let row = UserRow {
            id: updated_user.id,
            username: updated_user.username,
            friends: updated_user.friends,
            email,
            password,
        };
        let stored = self.store.update_user(row);
        User { id: stored.id, username: stored.username, friends: stored.friends }
    }

    /// Makes `user_id` and `friend_id` friends of each other.
    pub fn add_friend(&mut self, user_id: UserId, friend_id: UserId) -> (r: Result<(), StateError>)
        requires
            old(self).store.users@.contains_key(user_id) == old(self).store.users@.contains_key(
                friend_id,
            ),
        ensures
            r is Err <==> !old(self).store.users@.contains_key(user_id),
            r matches Err(e) ==> e == StateError::Store(StoreError::UsersNotFound) && *final(self)
                == *old(self),
            r is Ok ==> final(self).store.user_map() == crate::store::befriend(
                old(self).store.user_map(),
                user_id,
                friend_id,
            ),
            final(self).store.groups@ == old(self).store.groups@,
            final(self).store.expenses@ == old(self).store.expenses@,
            old(self).store.keyed() ==> final(self).store.keyed(),
    {
        match self.store.add_friend(user_id, friend_id) {
            Ok(()) => Ok(()),
            Err(e) => Err(StateError::Store(e)),
        }
    }

    /// Records a new expense with a fresh id and the current time: the
    /// request's expense under id `new_id()`, stamped `now_millis()`.
    pub fn create_expense(&mut self, expense_req: CreateExpenseRequest) -> (r: Expense)
        ensures
            is_v4_id(r.id),
            r.payer == expense_req.payer,
            r.participants@ == expense_req.participants@,
            r.amount == expense_req.amount,
            opt_text(r.description) == opt_text(expense_req.description),
            r.group_id == expense_req.group_id,
            final(self).store.expense_map() == old(self).store.expense_map().insert(r.id, r@),
            final(self).store.users@ == old(self).store.users@,
            final(self).store.groups@ == old(self).store.groups@,
            old(self).store.keyed() ==> final(self).store.keyed(),
    {
        let id = new_id();
        let now_ms = now_millis();
        self.record_expense(expense_req, id, now_ms)
    }

    /// Records the requested expense under id `id` with the time `now_ms`
    /// (milliseconds since the Unix epoch), and returns it.
    pub fn record_expense(&mut self, expense_req: CreateExpenseRequest, id: ExpenseId, now_ms: i64) -> (r: Expense)
        ensures
            r.id == id,
            r.timestamp_ms == now_ms,
            r.payer == expense_req.payer,
            r.participants@ == expense_req.participants@,
            r.amount == expense_req.amount,
            opt_text(r.description) == opt_text(expense_req.description),
            r.group_id == expense_req.group_id,
            final(self).store.expense_map() == old(self).store.expense_map().insert(id, r@),
            final(self).store.users@ == old(self).store.users@,
            final(self).store.groups@ == old(self).store.groups@,
            old(self).store.keyed() ==> final(self).store.keyed(),
    {
        let expense = Expense {
            id,
            payer: expense_req.payer,
            participants: expense_req.participants,
            amount: expense_req.amount,
            description: expense_req.description,
            group_id: expense_req.group_id,
            timestamp_ms: now_ms,
        };
        let stored = self.store.create_expense(ExpenseRow::from(expense));
        Expense::from(stored)
    }

    /// The expense with the requested id.
    pub fn get_expense(&self, expense_req: GetExpenseRequest) -> (r: Result<Expense, StateError>)
        ensures
            match r {
                Ok(e) => self.store.expense_map().contains_key(expense_req.id) && e@
                    == self.store.expense_map()[expense_req.id],
                Err(e) => e == StateError::ExpenseNotFound && !self.store.expense_map().contains_key(
                    expense_req.id,
                ),
            },
    {
        match self.store.get_expense(expense_req.id) {
            Some(e) => Ok(Expense::from(e)),
            None => Err(StateError::ExpenseNotFound),
        }
    }

    /// Removes the expense with the requested id, if there is one.
    pub fn delete_expense(&mut self, expense_req: DeleteExpenseRequest)
        ensures
            final(self).store.expense_map() == old(self).store.expense_map().remove(expense_req.id),
            final(self).store.users@ == old(self).store.users@,
            final(self).store.groups@ == old(self).store.groups@,
            old(self).store.keyed() ==> final(self).store.keyed(),
    {
        self.store.delete_expense(expense_req.id);
    }

    /// The expenses that `user_id` takes part in, in ascending id order.
    pub fn list_expenses_for_user(&self, user_id: UserId) -> (r: Vec<Expense>)
        ensures
            r@.map_values(|e: Expense| e@) == self.user_expenses(user_id).map_values(
                |e: Expense| e@,
            ),
    {
        let rows = self.store.list_expenses_for_user(user_id);
        let ghost want = self.user_expenses(user_id);
        proof {
            let ids = self.store.user_expense_ids(user_id);
            assert forall|i: int| 0 <= i < ids.len() implies self.store.expenses@.contains_key(
                #[trigger] ids[i],
            ) by {
                assert(ids.to_set().contains(ids[i]));
            }
            assert(rows@.map_values(|r: ExpenseRow| r@) =~= want.map_values(|e: Expense| e@));
        }
        let mut res: Vec<Expense> = Vec::new();
        for i in 0..rows.len()
            invariant
                rows@.map_values(|r: ExpenseRow| r@) == want.map_values(|e: Expense| e@),
                res@.len() == i,
                forall|j: int| 0 <= j < i ==> #[trigger] res@[j]@ == rows@[j]@,
        {
            res.push(Expense::from(rows[i].duplicate()));
        }
        proof {
            assert(res@.map_values(|e: Expense| e@) =~= rows@.map_values(|r: ExpenseRow| r@));
        }
        res
    }

    /// The expenses of group `group_id`, in ascending id order.
    pub fn list_expenses_for_group(&self, group_id: GroupId) -> (r: Vec<Expense>)
        ensures
            r@.map_values(|e: Expense| e@) == self.group_expenses(group_id).map_values(
                |e: Expense| e@,
            ),
    {
        let rows = self.store.list_expenses_for_group(group_id);
        let ghost want = self.group_expenses(group_id);
        proof {
            let ids = self.store.group_expense_ids(group_id);
            assert forall|i: int| 0 <= i < ids.len() implies self.store.expenses@.contains_key(
                #[trigger] ids[i],
            ) by {
                assert(ids.to_set().contains(ids[i]));
            }
            assert(rows@.map_values(|r: ExpenseRow| r@) =~= want.map_values(|e: Expense| e@));
        }
        let mut res: Vec<Expense> = Vec::new();
        for i in 0..rows.len()
            invariant
                rows@.map_values(|r: ExpenseRow| r@) == want.map_values(|e: Expense| e@),
                res@.len() == i,
                forall|j: int| 0 <= j < i ==> #[trigger] res@[j]@ == rows@[j]@,
        {
            res.push(Expense::from(rows[i].duplicate()));
        }
        proof {
            assert(res@.map_values(|e: Expense| e@) =~= rows@.map_values(|r: ExpenseRow| r@));
        }
        res
    }

    /// The balances of `user_id` towards every other user, over the
    /// expenses without a group that `user_id` takes part in: one entry per
    /// user whose balance is not zero (positive: that user owes `user_id`).
    pub fn get_user_non_group_balances(&self, user_id: UserId) -> (res: Vec<BalanceEntry>)
        requires
            participant_counts_fit(self.user_expenses(user_id)),
            prefixes_fit(user_deltas(user_id, self.user_expenses(user_id))),
        ensures
            lists_balances(user_id, self.user_expenses(user_id), res@),
    {
        let expenses = self.list_expenses_for_user(user_id);
        proof {
            lemma_views_same_effects(expenses@, self.user_expenses(user_id));
            lemma_same_effects_user(user_id, expenses@, self.user_expenses(user_id));
        }
        let res = user_non_group_balances(user_id, &expenses);
        proof {
            assert forall|o: UserId|
                #[trigger] user_balance(user_id, self.user_expenses(user_id), o) == user_balance(
                    user_id,
                    expenses@,
                    o,
                ) by {}
            assert(lists_balances(user_id, self.user_expenses(user_id), res@));
        }
        res
    }

    /// The settlement transfers of group `group_id`: every member's net
    /// position over all the group's expenses, settled greedily (see
    /// `group_balance_overview`).
    pub fn get_group_balance_overview(&self, group_id: GroupId) -> (res: Vec<GroupBalance>)
        requires
            participant_counts_fit(self.group_expenses(group_id)),
            group_fits(self.group_expenses(group_id)),
        ensures
            transfers_view(res@) == group_settlement(self.group_expenses(group_id)),
    {
        let expenses = self.list_expenses_for_group(group_id);
        proof {
            lemma_views_same_effects(expenses@, self.group_expenses(group_id));
            lemma_same_effects_counts(expenses@, self.group_expenses(group_id));
            lemma_same_effects_group(expenses@, self.group_expenses(group_id));
            assert forall|k: UserId| #[trigger]
                group_net(expenses@, k) == group_net(self.group_expenses(group_id), k) by {}
        }
        group_balance_overview(&expenses)
    }

    /// Whether the balances of `user_id` can be computed without leaving
    /// the range of `i64` (the requirement of `get_user_non_group_balances`).
    pub fn user_balances_computable(&self, user_id: UserId) -> (b: bool)
        ensures
            b == (participant_counts_fit(self.user_expenses(user_id)) && prefixes_fit(
                user_deltas(user_id, self.user_expenses(user_id)),
            )),
    {
        let expenses = self.list_expenses_for_user(user_id);
        proof {
            lemma_views_same_effects(expenses@, self.user_expenses(user_id));
            lemma_same_effects_user(user_id, expenses@, self.user_expenses(user_id));
        }
        user_balances_fit(user_id, &expenses)
    }

    /// Whether the overview of group `group_id` can be computed without
    /// leaving the range of `i64` (the requirement of
    /// `get_group_balance_overview`).
    pub fn group_balances_computable(&self, group_id: GroupId) -> (b: bool)
        ensures
            b == (participant_counts_fit(self.group_expenses(group_id)) && group_fits(
                self.group_expenses(group_id),
            )),
    {
        let expenses = self.list_expenses_for_group(group_id);
        proof {
            lemma_views_same_effects(expenses@, self.group_expenses(group_id));
            lemma_same_effects_counts(expenses@, self.group_expenses(group_id));
            lemma_same_effects_group(expenses@, self.group_expenses(group_id));
            let want = self.group_expenses(group_id);
            assert forall|k: UserId| #[trigger]
                group_net(expenses@, k) == group_net(want, k) by {}
            if group_fits(expenses@) {
                assert forall|k: UserId| #[trigger] group_net(want, k) != i64::MIN by {
                    assert(group_net(expenses@, k) != i64::MIN);
                }
            }
            if group_fits(want) {
                assert forall|k: UserId| #[trigger] group_net(expenses@, k) != i64::MIN by {
                    assert(group_net(want, k) != i64::MIN);
                }
            }
        }
        group_balances_fit(&expenses)
    }

    /// Creates a group with a fresh id.
    pub fn create_group(&mut self, group_req: CreateGroupRequest) -> (r: Group)
        ensures
            is_v4_id(r.id),
            r.name@ == group_req.name@,
            r.owner_id == group_req.owner_id,
            r.members@ == group_req.members@,
            final(self).store.group_map() == old(self).store.group_map().insert(r.id, r@),
            final(self).store.users@ == old(self).store.users@,
            final(self).store.expenses@ == old(self).store.expenses@,
            old(self).store.keyed() ==> final(self).store.keyed(),
    {
        let group = Group {
            id: new_id(),
            name: group_req.name,
            owner_id: group_req.owner_id,
            members: group_req.members,
        };
        let stored = self.store.create_group(GroupRow::from(group));
        Group::from(stored)
    }

    /// Removes group `group_id`, if there is one.
    pub fn delete_group(&mut self, group_id: GroupId)
        ensures
            final(self).store.group_map() == old(self).store.group_map().remove(group_id),
            final(self).store.users@ == old(self).store.users@,
            final(self).store.expenses@ == old(self).store.expenses@,
            old(self).store.keyed() ==> final(self).store.keyed(),
    {
        self.store.delete_group(group_id);
    }

    /// The group with id `group_id`, if there is one.
    pub fn get_group(&self, group_id: GroupId) -> (r: Option<Group>)
        ensures
            match r {
                Some(g) => self.store.group_map().contains_key(group_id) && g@
                    == self.store.group_map()[group_id],
                None => !self.store.group_map().contains_key(group_id),
            },
    {
        match self.store.get_group(group_id) {
            Some(g) => Some(Group::from(g)),
            None => None,
        }
    }

    /// The groups whose names contain `query`, in ascending id order.
    pub fn search_groups(&self, query: &str) -> (r: Vec<Group>)
        ensures
            r@.map_values(|g: Group| g@) == self.store.groups_in_order().filter(
                group_name_matches(query@),
            ),
    {
        let rows = self.store.get_groups();
        let ghost all = self.store.groups_in_order();
        let ghost pred = group_name_matches(query@);
        let mut res: Vec<Group> = Vec::new();
        for i in 0..rows.len()
            invariant
                rows@.map_values(|r: GroupRow| r@) == all,
                pred == group_name_matches(query@),
                res@.map_values(|g: Group| g@) == all.take(i as int).filter(pred),
        {
            proof {
                reveal(Seq::filter);
                assert(all.take(i + 1).drop_last() =~= all.take(i as int));
                assert(all[i as int] == rows@[i as int]@);
            }
            if contains_text(rows[i].name.as_str(), query) {
                let ghost before = res@;
                res.push(Group::from(rows[i].duplicate()));
                proof {
                    assert(res@.map_values(|g: Group| g@) =~= before.map_values(|g: Group| g@).push(
                        rows@[i as int]@,
                    ));
                }
            }
        }
        proof {
            assert(all.take(rows@.len() as int) =~= all);
        }
        res
    }

    /// Appends `new_member` to the members of the requested group and
    /// stores the group (under its own id).
    pub fn new_group_member(&mut self, req: NewGroupMemberRequest) -> (r: Result<Group, StateError>)
        ensures
            match r {
                Ok(g) => {
                    let before = old(self).store.group_map()[req.group_id];
                    &&& old(self).store.group_map().contains_key(req.group_id)
                    &&& g@ == (GroupRecord {
                        id: before.id,
                        name: before.name,
                        owner_id: before.owner_id,
                        members: before.members.push(req.new_member),
                    })
                    &&& final(self).store.group_map() == old(self).store.group_map().insert(
                        before.id,
                        g@,
                    )
                },
                Err(e) => {
                    &&& e == StateError::GroupNotFound
                    &&& !old(self).store.group_map().contains_key(req.group_id)
                    &&& final(self).store.group_map() == old(self).store.group_map()
                },
            },
            final(self).store.users@ == old(self).store.users@,
            final(self).store.expenses@ == old(self).store.expenses@,
            old(self).store.keyed() ==> final(self).store.keyed(),
    {
        let mut group = match self.store.get_group(req.group_id) {
            Some(g) => g,
            None => {
                return Err(StateError::GroupNotFound);
            },
        };
        group.members.push(req.new_member);
        let stored = self.store.update_group(group);
        Ok(Group::from(stored))
    }
}

// ── Laws ───────────────────────────────────────────────────────────────────

/// A user search answers stored users only, each with a name that contains
/// the query, and answers every stored user whose name contains the query.
pub proof fn law_search_users(s: AppState, query: Seq<char>)
    ensures
        forall|x: UserRecord|
            #[trigger] s.store.users_in_order().filter(
                user_name_matches(query),
            ).contains(x) <==> (s.store.users_in_order().contains(x) && text_contains(
                x.username,
                query,
            )),
{
    let all = s.store.users_in_order();
    let pred = user_name_matches(query);
    broadcast use vstd::seq_lib::group_filter_ensures;
    assert forall|x: UserRecord| #[trigger] all.filter(pred).contains(x) <==> (all.contains(x) && pred(x)) by {
        if all.filter(pred).contains(x) {
            all.lemma_filter_contains_rev(pred, x);
            let i = choose|i: int| 0 <= i < all.filter(pred).len() && all.filter(pred)[i] == x;
            assert(pred(all.filter(pred)[i]));
        }
        if all.contains(x) && pred(x) {
            let i = choose|i: int| 0 <= i < all.len() && all[i] == x;
            all.lemma_filter_contains(pred, i);
        }
    }
}

/// A group search answers stored groups only, each with a name that
/// contains the query, and answers every stored group whose name contains
/// the query.
pub proof fn law_search_groups(s: AppState, query: Seq<char>)
    ensures
        forall|x: GroupRecord|
            #[trigger] s.store.groups_in_order().filter(
                group_name_matches(query),
            ).contains(x) <==> (s.store.groups_in_order().contains(x) && text_contains(
                x.name,
                query,
            )),
{
    let all = s.store.groups_in_order();
    let pred = group_name_matches(query);
    broadcast use vstd::seq_lib::group_filter_ensures;
    assert forall|x: GroupRecord| #[trigger] all.filter(pred).contains(x) <==> (all.contains(x) && pred(x)) by {
        if all.filter(pred).contains(x) {
            all.lemma_filter_contains_rev(pred, x);
            let i = choose|i: int| 0 <= i < all.filter(pred).len() && all.filter(pred)[i] == x;
            assert(pred(all.filter(pred)[i]));
        }
        if all.contains(x) && pred(x) {
            let i = choose|i: int| 0 <= i < all.len() && all[i] == x;
            all.lemma_filter_contains(pred, i);
        }
    }
}

/// Keeping the ids that satisfy `p` and then looking them up is looking
/// them all up and keeping the expenses that satisfy `q`, when `p` and `q`
/// agree.
proof fn lemma_filter_lookup(
    ids: Seq<ExpenseId>,
    p: spec_fn(ExpenseId) -> bool,
    g: spec_fn(ExpenseId) -> Expense,
    q: spec_fn(Expense) -> bool,
)
    requires
        forall|i: int| 0 <= i < ids.len() ==> p(#[trigger] ids[i]) == q(g(ids[i])),
    ensures
        ids.filter(p).map_values(g) == ids.map_values(g).filter(q),
    decreases ids.len(),
{
    reveal(Seq::filter);
    if ids.len() > 0 {
        let init = ids.drop_last();
        lemma_filter_lookup(init, p, g, q);
        assert(ids.map_values(g).drop_last() =~= init.map_values(g));
        assert(p(ids[ids.len() - 1]) == q(g(ids[ids.len() - 1])));
        if p(ids.last()) {
            assert(ids.filter(p).map_values(g) =~= init.filter(p).map_values(g).push(g(ids.last())));
        } else {
            assert(ids.filter(p).map_values(g) =~= init.filter(p).map_values(g));
        }
    } else {
        assert(ids.filter(p).map_values(g) =~= ids.map_values(g).filter(q));
    }
}

/// The expenses listed for `u` are all stored expenses, in ascending id
/// order, with those that `u` takes no part in left out.
pub proof fn lemma_user_expenses_are_own(s: AppState, u: UserId)
    ensures
        s.user_expenses(u) == s.all_expenses().filter(takes_part(u)),
{
    let d = s.store.expenses@.dom();
    assert(d.finite());
    lemma_ascending_exists(d);
    let ids = ascending(d);
    let p = |k: ExpenseId| involves(s.store.expense_map()[k], u);
    let g = |k: ExpenseId| expense_of(s.store.expenses@[k]);
    lemma_ascending_filter(ids, p);
    assert(ids.to_set() == d);
    assert(d.filter(p) =~= s.store.expenses@.dom().filter(
        |k: ExpenseId| involves(s.store.expense_map()[k], u),
    ));
    assert forall|i: int| 0 <= i < ids.len() implies p(#[trigger] ids[i]) == takes_part(u)(g(ids[i])) by {
        assert(ids.to_set().contains(ids[i]));
    }
    lemma_filter_lookup(ids, p, g, takes_part(u));
    assert(s.user_expenses(u) =~= ids.filter(p).map_values(g));
    assert(s.all_expenses() =~= ids.map_values(g));
}

/// The balances that two users see, each over the expenses listed for
/// them, mirror each other: what `a` is owed by `b` is what `b` owes `a`.
pub proof fn law_listed_balances_mirror(s: AppState, a: UserId, b: UserId)
    ensures
        user_balance(a, s.user_expenses(a), b) == -user_balance(b, s.user_expenses(b), a),
{
    lemma_user_expenses_are_own(s, a);
    lemma_user_expenses_are_own(s, b);
    law_own_balances_mirror(a, b, s.all_expenses());
}

/// Two stores whose group `g` holds the same expenses, listed in any order
/// and each with its participants in any order, give the same group
/// overview (`get_group_balance_overview` answers exactly
/// `group_settlement` of the group's expenses): `b` is the first store's
/// expenses reordered, and the second store's agree with `b` expense by
/// expense up to the order of participants.
pub proof fn law_overview_ignores_order(s1: AppState, s2: AppState, g: GroupId, b: Seq<Expense>)
    requires
        s1.group_expenses(g).to_multiset() == b.to_multiset(),
        b.len() == s2.group_expenses(g).len(),
        forall|i: int| 0 <= i < b.len() ==> #[trigger] same_in_group(b[i], s2.group_expenses(g)[i]),
    ensures
        group_settlement(s1.group_expenses(g)) == group_settlement(s2.group_expenses(g)),
{
    law_settlement_ignores_order(s1.group_expenses(g), b, s2.group_expenses(g));
}

} // verus!
