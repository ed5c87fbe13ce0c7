//! The persistent store: users, groups and expenses, each table keyed by id
//! and listed in ascending id order.
use std::collections::BTreeMap;
use vstd::prelude::*;
use vstd::std_specs::iter::IteratorSpec;
use vstd::std_specs::btree::increasing_seq;
use crate::ordered::{
    ascending, lemma_ascending_exists, lemma_increasing_ids, lemma_is_ascending, strictly_increasing,
};
use crate::search::same_text;
use crate::types::{ExpenseId, ExpenseRecord, GroupId, GroupRecord, UserId, UserRecord, opt_text};

verus! {

broadcast use vstd::std_specs::btree::group_btree_axioms;

/// What a walk over a table meets: each row once, in ascending id order.
proof fn lemma_iter_lists_map<V>(m: &BTreeMap<u128, V>, all: Seq<(&u128, &V)>)
    requires
        all == m.iter().remaining(),
        increasing_seq(all.map_values(|kv: (&u128, &V)| *kv.0)),
    ensures
        all.len() == m@.dom().len(),
        ascending(m@.dom()) == all.map_values(|kv: (&u128, &V)| *kv.0),
        strictly_increasing(all.map_values(|kv: (&u128, &V)| *kv.0)),
        all.map_values(|kv: (&u128, &V)| *kv.0).to_set() == m@.dom(),
        forall|i: int| 0 <= i < all.len() ==> m@.contains_key(*all[i].0) && m@[*all[i].0] == *all[i].1,
{
    broadcast use vstd::laws_cmp::group_laws_cmp;
    let ks = all.map_values(|kv: (&u128, &V)| *kv.0);
    lemma_increasing_ids(ks);
    assert forall|k: u128| ks.to_set().contains(k) <==> m@.dom().contains(k) by {
        if m@.contains_key(k) {
            assert(all.contains((&k, &m@[k])));
            let i = choose|i: int| 0 <= i < all.len() && all[i] == (&k, &m@[k]);
            assert(ks[i] == k);
        }
        if ks.to_set().contains(k) {
            let i = choose|i: int| 0 <= i < ks.len() && ks[i] == k;
            assert(m@.contains_key(*all[i].0));
        }
    }
    assert(ks.to_set() =~= m@.dom());
    lemma_is_ascending(ks, m@.dom());
}

/// What a sequence with one more element holds.
proof fn lemma_push_contains(s: Seq<u128>, a: u128)
    ensures
        forall|x: u128| #[trigger] s.push(a).contains(x) <==> (s.contains(x) || x == a),
{
    assert forall|x: u128| #[trigger] s.push(a).contains(x) <==> (s.contains(x) || x == a) by {
        if s.push(a).contains(x) {
            let i = choose|i: int| 0 <= i < s.len() + 1 && s.push(a)[i] == x;
            if i < s.len() {
                assert(s[i] == x);
            }
        }
        if s.contains(x) {
            let i = choose|i: int| 0 <= i < s.len() && s[i] == x;
            assert(s.push(a)[i] == x);
        }
        if x == a {
            assert(s.push(a)[s.len() as int] == x);
        }
    }
}

// ---------------------------------------------------------------------------
// Rows
// ---------------------------------------------------------------------------

/// A stored user.
#[derive(Debug, Clone, PartialEq, Eq)]
pub struct UserRow {
    pub id: UserId,
    pub username: String,
    pub friends: Vec<UserId>,
    /// The e-mail address the user registered with.
    pub email: String,
    /// The password the user registered with, as given.
    pub password: String,
}

impl View for UserRow {
    type V = UserRecord;

    open spec fn view(&self) -> UserRecord {
        UserRecord { id: self.id, username: self.username@, friends: self.friends@ }
    }
}

/// A copy of a list of ids.
fn copy_ids(v: &Vec<u128>) -> (r: Vec<u128>)
    ensures
        r@ == v@,
{
    let mut r: Vec<u128> = Vec::new();
    for i in 0..v.len()
        invariant
            r@ == v@.take(i as int),
    {
        r.push(v[i]);
        assert(r@ =~= v@.take(i + 1));
    }
    assert(v@.take(v.len() as int) =~= v@);
    r
}

impl UserRow {
    /// A row with the given fields.
    pub fn new(id: UserId, username: String, friends: Vec<UserId>) -> (r: Self)
        ensures
            r.id == id,
            r.username == username,
            r.friends == friends,
            r.email@ == Seq::<char>::empty(),
            r.password@ == Seq::<char>::empty(),
    {
        UserRow { id, username, friends, email: String::new(), password: String::new() }
    }

    pub fn id(&self) -> (r: UserId)
        ensures
            r == self.id,
    {
        self.id
    }

    pub fn username(&self) -> (r: &str)
        ensures
            r@ == self.username@,
    {
        self.username.as_str()
    }

    pub fn friends(&self) -> (r: &[UserId])
        ensures
            r@ == self.friends@,
    {
        self.friends.as_slice()
    }

    /// A copy of this row.
    pub fn duplicate(&self) -> (r: Self)
        ensures
            r@ == self@,
            credentials_of(r) == credentials_of(*self),
    {
        UserRow {
            id: self.id,
            username: self.username.clone(),
            friends: copy_ids(&self.friends),
            email: self.email.clone(),
            password: self.password.clone(),
        }
    }
}

/// The e-mail address and password that a user row holds.
pub open spec fn credentials_of(r: UserRow) -> (Seq<char>, Seq<char>) {
    (r.email@, r.password@)
}

/// A stored group.
#[derive(Debug, Clone, PartialEq, Eq)]
pub struct GroupRow {
    pub id: GroupId,
    pub name: String,
    pub owner_id: UserId,
    pub members: Vec<UserId>,
}

impl View for GroupRow {
    type V = GroupRecord;

    open spec fn view(&self) -> GroupRecord {
        GroupRecord {
            id: self.id,
            name: self.name@,
            owner_id: self.owner_id,
            members: self.members@,
        }
    }
}

impl GroupRow {
    /// A row with the given fields.
    pub fn new(id: GroupId, name: String, owner_id: UserId, members: Vec<UserId>) -> (r: Self)
        ensures
            r == (GroupRow { id, name, owner_id, members }),
    {
        GroupRow { id, name, owner_id, members }
    }

    pub fn id(&self) -> (r: GroupId)
        ensures
            r == self.id,
    {
        self.id
    }

    pub fn name(&self) -> (r: &str)
        ensures
            r@ == self.name@,
    {
        self.name.as_str()
    }

    pub fn owner_id(&self) -> (r: UserId)
        ensures
            r == self.owner_id,
    {
        self.owner_id
    }

    pub fn members(&self) -> (r: &Vec<UserId>)
        ensures
            r@ == self.members@,
    {
        &self.members
    }

    /// A copy of this row.
    pub fn duplicate(&self) -> (r: Self)
        ensures
            r@ == self@,
    {
        GroupRow {
            id: self.id,
            name: self.name.clone(),
            owner_id: self.owner_id,
            members: copy_ids(&self.members),
        }
    }
}

/// A stored expense.
#[derive(Debug, Clone, PartialEq, Eq)]
pub struct ExpenseRow {
    pub id: ExpenseId,
    pub payer: UserId,
    pub participants: Vec<UserId>,
    pub amount: i64,
    pub description: Option<String>,
    pub group_id: Option<GroupId>,
    pub timestamp_ms: i64,
}

impl View for ExpenseRow {
    type V = ExpenseRecord;

    open spec fn view(&self) -> ExpenseRecord {
        ExpenseRecord {
            id: self.id,
            payer: self.payer,
            participants: self.participants@,
            amount: self.amount,
            description: opt_text(self.description),
            group_id: self.group_id,
            timestamp_ms: self.timestamp_ms,
        }
    }
}

/// A copy of an optional text.
fn copy_text(t: &Option<String>) -> (r: Option<String>)
    ensures
        opt_text(r) == opt_text(*t),
{
    match t {
        Some(s) => Some(s.clone()),
        None => None,
    }
}

impl ExpenseRow {
    /// A row with the given fields.
    pub fn new(
        id: ExpenseId,
        payer: UserId,
        participants: Vec<UserId>,
        amount: i64,
        description: Option<String>,
        group_id: Option<GroupId>,
        timestamp_ms: i64,
    ) -> (r: Self)
        ensures
            r == (ExpenseRow {
                id,
                payer,
                participants,
                amount,
                description,
                group_id,
                timestamp_ms,
            }),
    {
        ExpenseRow { id, payer, participants, amount, description, group_id, timestamp_ms }
    }

    pub fn id(&self) -> (r: ExpenseId)
        ensures
            r == self.id,
    {
        self.id
    }

    pub fn payer(&self) -> (r: UserId)
        ensures
            r == self.payer,
    {
        self.payer
    }

    pub fn participants(&self) -> (r: &Vec<UserId>)
        ensures
            r@ == self.participants@,
    {
        &self.participants
    }

    pub fn amount(&self) -> (r: i64)
        ensures
            r == self.amount,
    {
        self.amount
    }

    pub fn description(&self) -> (r: Option<&String>)
        ensures
            match r {
                Some(d) => self.description == Some(*d),
                None => self.description is None,
            },
    {
        self.description.as_ref()
    }

    pub fn group_id(&self) -> (r: Option<GroupId>)
        ensures
            r == self.group_id,
    {
        self.group_id
    }

    pub fn timestamp_ms(&self) -> (r: i64)
        ensures
            r == self.timestamp_ms,
    {
        self.timestamp_ms
    }

    /// A copy of this row.
    pub fn duplicate(&self) -> (r: Self)
        ensures
            r@ == self@,
    {
        ExpenseRow {
            id: self.id,
            payer: self.payer,
            participants: copy_ids(&self.participants),
            amount: self.amount,
            description: copy_text(&self.description),
            group_id: self.group_id,
            timestamp_ms: self.timestamp_ms,
        }
    }
}

/// Whether `u` takes part in expense `e`: as its payer or as a participant.
pub open spec fn involves(e: ExpenseRecord, u: UserId) -> bool {
    e.payer == u || e.participants.contains(u)
}

/// Whether expense `e` belongs to group `g`.
pub open spec fn in_group(e: ExpenseRecord, g: GroupId) -> bool {
    e.group_id == Some(g)
}

/// Whether a listing picks expense `e`: by group, those of group `id`;
/// otherwise those that user `id` takes part in.
pub open spec fn picks(e: ExpenseRecord, by_group: bool, id: u128) -> bool {
    if by_group {
        in_group(e, id)
    } else {
        involves(e, id)
    }
}

/// `ids` holds `x`.
fn contains_id(ids: &Vec<UserId>, x: UserId) -> (r: bool)
    ensures
        r == ids@.contains(x),
{
    for i in 0..ids.len()
        invariant
            forall|j: int| 0 <= j < i ==> ids@[j] != x,
    {
        if ids[i] == x {
            return true;
        }
    }
    false
}

/// The users map after `a` and `b` befriend each other: `b` is appended to
/// the friends of `a`, then `a` to the friends of `b`.
pub open spec fn befriend(m: Map<UserId, UserRecord>, a: UserId, b: UserId) -> Map<
    UserId,
    UserRecord,
> {
    let m1 = m.insert(
        a,
        UserRecord { id: m[a].id, username: m[a].username, friends: m[a].friends.push(b) },
    );
    m1.insert(
        b,
        UserRecord { id: m1[b].id, username: m1[b].username, friends: m1[b].friends.push(a) },
    )
}

/// Why the store refused a request.
#[derive(Debug, Clone, PartialEq, Eq)]
pub enum StoreError {
    /// Neither user of a friendship exists.
    UsersNotFound,
    /// A query of the database failed.
    SqlQueryFailed,
}

impl StoreError {
    /// The error's message.
    pub fn message(&self) -> (m: String)
        ensures
            m@ == store_error_text(*self),
    {
        match self {
            StoreError::UsersNotFound => "users not found".to_string(),
            StoreError::SqlQueryFailed => "Failed to SQL query".to_string(),
        }
    }
}

/// The message of each store error.
pub open spec fn store_error_text(e: StoreError) -> Seq<char> {
    match e {
        StoreError::UsersNotFound => "users not found"@,
        StoreError::SqlQueryFailed => "Failed to SQL query"@,
    }
}

/// The error type of the `sqlx` database driver.
#[verifier::external_type_specification]
#[verifier::external_body]
pub struct ExSqlxError(sqlx::Error);

/// The outcome of a database query as the store reports it: a result passes
/// through; any driver error becomes `StoreError::SqlQueryFailed`.
pub fn print_sql_result<T>(res: Result<T, sqlx::Error>) -> (r: Result<T, StoreError>)
    ensures
        match res {
            Ok(v) => r == Ok::<T, StoreError>(v),
            Err(_) => r == Err::<T, StoreError>(StoreError::SqlQueryFailed),
        },
{
    match res {
        Ok(v) => Ok(v),
        Err(_) => Err(StoreError::SqlQueryFailed),
    }
}

// ---------------------------------------------------------------------------
// The store
// ---------------------------------------------------------------------------

/// Users, groups and expenses, each table keyed by id.
#[derive(Debug, Clone, PartialEq, Eq)]
pub struct FileState {
    pub users: BTreeMap<UserId, UserRow>,
    pub groups: BTreeMap<GroupId, GroupRow>,
    pub expenses: BTreeMap<ExpenseId, ExpenseRow>,
}

impl FileState {
    /// The users, by id.
    pub open spec fn user_map(self) -> Map<UserId, UserRecord> {
        self.users@.map_values(|r: UserRow| r@)
    }

    /// The e-mail address and password of each user, by id.
    pub open spec fn credentials(self) -> Map<UserId, (Seq<char>, Seq<char>)> {
        self.users@.map_values(|r: UserRow| credentials_of(r))
    }

    /// `k` is the smallest id of a user named `name`.
    pub open spec fn first_named(self, k: UserId, name: Seq<char>) -> bool {
        &&& self.users@.contains_key(k)
        &&& self.users@[k].username@ == name
        &&& forall|j: UserId| #[trigger]
            self.users@.contains_key(j) && j < k ==> self.users@[j].username@ != name
    }

    /// The smallest id of a user named `name`, if any user has that name.
    pub open spec fn first_named_id(self, name: Seq<char>) -> Option<UserId> {
        if exists|k: UserId| self.first_named(k, name) {
            Some(choose|k: UserId| self.first_named(k, name))
        } else {
            None
        }
    }

    /// The groups, by id.
    pub open spec fn group_map(self) -> Map<GroupId, GroupRecord> {
        self.groups@.map_values(|r: GroupRow| r@)
    }

    /// The expenses, by id.
    pub open spec fn expense_map(self) -> Map<ExpenseId, ExpenseRecord> {
        self.expenses@.map_values(|r: ExpenseRow| r@)
    }

    /// Every row is stored under its own id.
    pub open spec fn keyed(self) -> bool {
        &&& forall|k: UserId| #[trigger] self.users@.contains_key(k) ==> self.users@[k].id == k
        &&& forall|k: GroupId| #[trigger] self.groups@.contains_key(k) ==> self.groups@[k].id == k
        &&& forall|k: ExpenseId| #[trigger] self.expenses@.contains_key(k) ==> self.expenses@[k].id
            == k
    }

    /// The users in ascending id order.
    pub open spec fn users_in_order(self) -> Seq<UserRecord> {
        ascending(self.users@.dom()).map_values(|k: UserId| self.user_map()[k])
    }

    /// The groups in ascending id order.
    pub open spec fn groups_in_order(self) -> Seq<GroupRecord> {
        ascending(self.groups@.dom()).map_values(|k: GroupId| self.group_map()[k])
    }

    /// The ids of the expenses that `u` takes part in, ascending.
    pub open spec fn user_expense_ids(self, u: UserId) -> Seq<ExpenseId> {
        ascending(self.expenses@.dom().filter(|k: ExpenseId| involves(self.expense_map()[k], u)))
    }

    /// The ids of the expenses of group `g`, ascending.
    pub open spec fn group_expense_ids(self, g: GroupId) -> Seq<ExpenseId> {
        ascending(self.expenses@.dom().filter(|k: ExpenseId| in_group(self.expense_map()[k], g)))
    }

    /// An empty store.
    pub fn new() -> (s: Self)
        ensures
            s.users@ == Map::<UserId, UserRow>::empty(),
            s.groups@ == Map::<GroupId, GroupRow>::empty(),
            s.expenses@ == Map::<ExpenseId, ExpenseRow>::empty(),
    {
        FileState { users: BTreeMap::new(), groups: BTreeMap::new(), expenses: BTreeMap::new() }
    }

    // -------- Users --------

    /// Stores `user` under its id, replacing any user with that id.
    pub fn create_user(&mut self, user: UserRow) -> (r: UserRow)
        ensures
            r@ == user@,
            credentials_of(r) == credentials_of(user),
            final(self).user_map() == old(self).user_map().insert(user.id, user@),
            final(self).credentials() == old(self).credentials().insert(
                user.id,
                credentials_of(user),
            ),
            final(self).groups@ == old(self).groups@,
            final(self).expenses@ == old(self).expenses@,
            old(self).keyed() ==> final(self).keyed(),
    {
        let r = user.duplicate();
        self.users.insert(user.id, user);
        proof {
            assert(self.user_map() =~= old(self).user_map().insert(user.id, user@));
            assert(self.credentials() =~= old(self).credentials().insert(user.id, credentials_of(user)));
        }
        r
    }

    /// The user with id `id`, if there is one.
    pub fn get_user(&self, id: UserId) -> (r: Option<UserRow>)
        ensures
            match r {
                Some(u) => self.user_map().contains_key(id) && u@ == self.user_map()[id]
                    && credentials_of(u) == self.credentials()[id],
                None => !self.user_map().contains_key(id),
            },
    {
        match self.users.get(&id) {
            Some(u) => Some(u.duplicate()),
            None => None,
        }
    }

    /// Removes the user with id `id`, if there is one.
    pub fn delete_user(&mut self, id: UserId)
        ensures
            final(self).user_map() == old(self).user_map().remove(id),
            final(self).credentials() == old(self).credentials().remove(id),
            final(self).groups@ == old(self).groups@,
            final(self).expenses@ == old(self).expenses@,
            old(self).keyed() ==> final(self).keyed(),
    {
        self.users.remove(&id);
        proof {
            assert(self.user_map() =~= old(self).user_map().remove(id));
            assert(self.credentials() =~= old(self).credentials().remove(id));
        }
    }

    /// Every user, in ascending id order.
    pub fn list_users(&self) -> (res: Vec<UserRow>)
        ensures
            res@.map_values(|r: UserRow| r@) == self.users_in_order(),
    {
        let mut res: Vec<UserRow> = Vec::new();
        let iter = self.users.iter();
        let ghost all = iter.remaining();
        proof {
            assert(increasing_seq(all.map_values(|kv: (&u128, &UserRow)| *kv.0)));
            lemma_iter_lists_map(&self.users, all);
        }
        for kv in it: iter
            invariant
                it.seq() == all,
                res@.len() == it.index(),
                forall|i: int| 0 <= i < res@.len() ==> #[trigger] res@[i]@ == (*all[i].1)@,
        {
            let (_k, v) = kv;
            res.push(v.duplicate());
        }
        proof {
            assert(res@.map_values(|r: UserRow| r@) =~= self.users_in_order());
        }
        res
    }

    /// The user with the smallest id among those named `name`, if any.
    pub fn get_user_by_name(&self, name: &str) -> (r: Option<UserRow>)
        ensures
            match self.first_named_id(name@) {
                Some(k) => r matches Some(u) && u@ == self.user_map()[k] && credentials_of(u)
                    == self.credentials()[k],
                None => r is None,
            },
    {
        let iter = self.users.iter();
        let ghost all = iter.remaining();
        let ghost ks = all.map_values(|kv: (&u128, &UserRow)| *kv.0);
        proof {
            assert(increasing_seq(all.map_values(|kv: (&u128, &UserRow)| *kv.0)));
            lemma_iter_lists_map(&self.users, all);
        }
        for kv in it: iter
            invariant
                it.seq() == all,
                ks == all.map_values(|kv: (&u128, &UserRow)| *kv.0),
                strictly_increasing(ks),
                ks.to_set() == self.users@.dom(),
                all.len() == ks.len(),
                forall|i: int|
                    0 <= i < all.len() ==> self.users@.contains_key(*all[i].0)
                        && self.users@[*all[i].0] == *all[i].1,
                forall|j: int| 0 <= j < it.index() ==> self.users@[ks[j]].username@ != name@,
        {
            let (k, v) = kv;
            let ghost idx = it.index();
            proof {
                assert(ks[idx] == *k);
            }
            if same_text(v.username.as_str(), name) {
                proof {
                    assert forall|j: UserId| #[trigger]
                        self.users@.contains_key(j) && j < *k implies self.users@[j].username@
                        != name@ by {
                        assert(ks.to_set().contains(j));
                        let t = choose|t: int| 0 <= t < ks.len() && ks[t] == j;
                        if t >= idx {
                            if t > idx {
                                assert(ks[idx] < ks[t]);
                            }
                        }
                    }
                    assert(self.first_named(*k, name@));
                    assert(forall|a: UserId, b: UserId|
                        self.first_named(a, name@) && self.first_named(b, name@) ==> a == b);
                }
                return Some(v.duplicate());
            }
        }
        proof {
            assert forall|k: UserId| !self.first_named(k, name@) by {
                if self.users@.contains_key(k) {
                    assert(ks.to_set().contains(k));
                    let t = choose|t: int| 0 <= t < ks.len() && ks[t] == k;
                }
            }
        }
        None
    }

    /// Makes `user1` and `user2` friends: each is appended to the other's
    /// friends.  Refused when neither user exists.
    pub fn add_friend(&mut self, user1: UserId, user2: UserId) -> (r: Result<(), StoreError>)
        requires
            old(self).users@.contains_key(user1) == old(self).users@.contains_key(user2),
        ensures
            r is Err <==> !old(self).users@.contains_key(user1),
            r matches Err(e) ==> e == StoreError::UsersNotFound && *final(self) == *old(self),
            r is Ok ==> final(self).user_map() == befriend(old(self).user_map(), user1, user2),
            final(self).credentials() == old(self).credentials(),
            final(self).groups@ == old(self).groups@,
            final(self).expenses@ == old(self).expenses@,
            old(self).keyed() ==> final(self).keyed(),
    {
        if !self.users.contains_key(&user1) && !self.users.contains_key(&user2) {
            return Err(StoreError::UsersNotFound);
        }
        let ghost m0 = self.user_map();
        let mut u1 = self.users.remove(&user1).unwrap();
        u1.friends.push(user2);
        self.users.insert(user1, u1);
        let ghost m1 = self.user_map();
        proof {
            assert(m1 =~= m0.insert(
                user1,
                UserRecord { id: m0[user1].id, username: m0[user1].username, friends: m0[user1].friends.push(user2) },
            ));
        }
        let mut u2 = self.users.remove(&user2).unwrap();
        u2.friends.push(user1);
        self.users.insert(user2, u2);
        proof {
            assert(self.user_map() =~= befriend(m0, user1, user2));
            assert(self.credentials() =~= old(self).credentials());
        }
        Ok(())
    }

    /// Stores `user` under its id, replacing any user with that id.
    pub fn update_user(&mut self, user: UserRow) -> (r: UserRow)
        ensures
            r@ == user@,
            credentials_of(r) == credentials_of(user),
            final(self).user_map() == old(self).user_map().insert(user.id, user@),
            final(self).credentials() == old(self).credentials().insert(
                user.id,
                credentials_of(user),
            ),
            final(self).groups@ == old(self).groups@,
            final(self).expenses@ == old(self).expenses@,
            old(self).keyed() ==> final(self).keyed(),
    {
        self.create_user(user)
    }

    // -------- Groups --------

    /// Stores `group` under its id, replacing any group with that id.
    pub fn create_group(&mut self, group: GroupRow) -> (r: GroupRow)
        ensures
            r@ == group@,
            final(self).group_map() == old(self).group_map().insert(group.id, group@),
            final(self).users@ == old(self).users@,
            final(self).expenses@ == old(self).expenses@,
            old(self).keyed() ==> final(self).keyed(),
    {
        let r = group.duplicate();
        self.groups.insert(group.id, group);
        proof {
            assert(self.group_map() =~= old(self).group_map().insert(group.id, group@));
        }
        r
    }

    /// Removes the group with id `id`, if there is one.
    pub fn delete_group(&mut self, id: GroupId)
        ensures
            final(self).group_map() == old(self).group_map().remove(id),
            final(self).users@ == old(self).users@,
            final(self).expenses@ == old(self).expenses@,
            old(self).keyed() ==> final(self).keyed(),
    {
        self.groups.remove(&id);
        proof {
            assert(self.group_map() =~= old(self).group_map().remove(id));
        }
    }

    /// The group with id `id`, if there is one.
    pub fn get_group(&self, id: GroupId) -> (r: Option<GroupRow>)
        ensures
            match r {
                Some(g) => self.group_map().contains_key(id) && g@ == self.group_map()[id],
                None => !self.group_map().contains_key(id),
            },
    {
        match self.groups.get(&id) {
            Some(g) => Some(g.duplicate()),
            None => None,
        }
    }

    /// Every group, in ascending id order.
    pub fn get_groups(&self) -> (res: Vec<GroupRow>)
        ensures
            res@.map_values(|r: GroupRow| r@) == self.groups_in_order(),
    {
        let mut res: Vec<GroupRow> = Vec::new();
        let iter = self.groups.iter();
        let ghost all = iter.remaining();
        proof {
            assert(increasing_seq(all.map_values(|kv: (&u128, &GroupRow)| *kv.0)));
            lemma_iter_lists_map(&self.groups, all);
        }
        for kv in it: iter
            invariant
                it.seq() == all,
                res@.len() == it.index(),
                forall|i: int| 0 <= i < res@.len() ==> #[trigger] res@[i]@ == (*all[i].1)@,
        {
            let (_k, v) = kv;
            res.push(v.duplicate());
        }
        proof {
            assert(res@.map_values(|r: GroupRow| r@) =~= self.groups_in_order());
        }
        res
    }

    /// Stores `group` under its id, replacing any group with that id.
    pub fn update_group(&mut self, group: GroupRow) -> (r: GroupRow)
        ensures
            r@ == group@,
            final(self).group_map() == old(self).group_map().insert(group.id, group@),
            final(self).users@ == old(self).users@,
            final(self).expenses@ == old(self).expenses@,
            old(self).keyed() ==> final(self).keyed(),
    {
        self.create_group(group)
    }

    // -------- Expenses --------

    /// Stores `expense` under its id, replacing any expense with that id.
    pub fn create_expense(&mut self, expense: ExpenseRow) -> (r: ExpenseRow)
        ensures
            r@ == expense@,
            final(self).expense_map() == old(self).expense_map().insert(expense.id, expense@),
            final(self).users@ == old(self).users@,
            final(self).groups@ == old(self).groups@,
            old(self).keyed() ==> final(self).keyed(),
    {
        let r = expense.duplicate();
        self.expenses.insert(expense.id, expense);
        proof {
            assert(self.expense_map() =~= old(self).expense_map().insert(expense.id, expense@));
        }
        r
    }

    /// Removes the expense with id `id`, if there is one.
    pub fn delete_expense(&mut self, id: ExpenseId)
        ensures
            final(self).expense_map() == old(self).expense_map().remove(id),
            final(self).users@ == old(self).users@,
            final(self).groups@ == old(self).groups@,
            old(self).keyed() ==> final(self).keyed(),
    {
        self.expenses.remove(&id);
        proof {
            assert(self.expense_map() =~= old(self).expense_map().remove(id));
        }
    }

    /// The expense with id `id`, if there is one.
    pub fn get_expense(&self, id: ExpenseId) -> (r: Option<ExpenseRow>)
        ensures
            match r {
                Some(e) => self.expense_map().contains_key(id) && e@ == self.expense_map()[id],
                None => !self.expense_map().contains_key(id),
            },
    {
        match self.expenses.get(&id) {
            Some(e) => Some(e.duplicate()),
            None => None,
        }
    }

    /// The ids of the expenses that `by_group` and `id` pick, ascending.
    pub open spec fn picked_ids(self, by_group: bool, id: u128) -> Seq<ExpenseId> {
        ascending(self.expenses@.dom().filter(|k: ExpenseId| picks(self.expense_map()[k], by_group, id)))
    }

    /// The expenses that `by_group` and `id` pick, in ascending id order.
    fn list_picked(&self, by_group: bool, id: u128) -> (res: Vec<ExpenseRow>)
        ensures
            res@.map_values(|r: ExpenseRow| r@) == self.picked_ids(by_group, id).map_values(
                |k: ExpenseId| self.expense_map()[k],
            ),
            strictly_increasing(self.picked_ids(by_group, id)),
            self.picked_ids(by_group, id).to_set() == self.expenses@.dom().filter(
                |k: ExpenseId| picks(self.expense_map()[k], by_group, id),
            ),
    {
        let ghost pred = |k: ExpenseId| picks(self.expense_map()[k], by_group, id);
        let mut res: Vec<ExpenseRow> = Vec::new();
        let iter = self.expenses.iter();
        let ghost all = iter.remaining();
        let ghost ks = all.map_values(|kv: (&u128, &ExpenseRow)| *kv.0);
        let ghost mut picked: Seq<ExpenseId> = Seq::empty();
        proof {
            assert(increasing_seq(all.map_values(|kv: (&u128, &ExpenseRow)| *kv.0)));
            lemma_iter_lists_map(&self.expenses, all);
        }
        for kv in it: iter
            invariant
                it.seq() == all,
                ks == all.map_values(|kv: (&u128, &ExpenseRow)| *kv.0),
                ks == ascending(self.expenses@.dom()),
                strictly_increasing(ks),
                all.len() == ks.len(),
                forall|i: int|
                    0 <= i < all.len() ==> self.expenses@.contains_key(*all[i].0)
                        && self.expenses@[*all[i].0] == *all[i].1,
                pred == (|k: ExpenseId| picks(self.expense_map()[k], by_group, id)),
                res@.len() == picked.len(),
                forall|i: int|
                    0 <= i < res@.len() ==> #[trigger] res@[i]@ == self.expense_map()[picked[i]],
                strictly_increasing(picked),
                forall|i: int, j: int|
                    0 <= i < picked.len() && it.index() <= j < ks.len() ==> picked[i] < ks[j],
                forall|x: ExpenseId|
                    picked.contains(x) <==> (ks.take(it.index()).contains(x) && pred(x)),
        {
            let (k, v) = kv;
            let ghost idx = it.index();
            let ghost before = picked;
            proof {
                assert(ks[idx] == *k);
                assert(ks.take(idx + 1) =~= ks.take(idx).push(*k));
                lemma_push_contains(ks.take(idx), *k);
            }
            let picked_here = if by_group {
                v.group_id == Some(id)
            } else {
                v.payer == id || contains_id(&v.participants, id)
            };
            if picked_here {
                res.push(v.duplicate());
                proof {
                    assert(pred(*k));
                    picked = picked.push(*k);
                    lemma_push_contains(before, *k);
                }
            } else {
                proof {
                    assert(!pred(*k));
                }
            }
        }
        proof {
            let d = self.expenses@.dom().filter(pred);
            assert(ks.take(ks.len() as int) =~= ks);
            assert forall|x: ExpenseId| picked.to_set().contains(x) <==> d.contains(x) by {
                assert(ks.to_set().contains(x) <==> self.expenses@.dom().contains(x));
            }
            assert(picked.to_set() =~= d);
            lemma_is_ascending(picked, d);
            assert(res@.map_values(|r: ExpenseRow| r@) =~= self.picked_ids(by_group, id).map_values(
                |k: ExpenseId| self.expense_map()[k],
            ));
        }
        res
    }

    /// The expenses that `user_id` takes part in (as payer or participant),
    /// in ascending id order.
    pub fn list_expenses_for_user(&self, user_id: UserId) -> (res: Vec<ExpenseRow>)
        ensures
            res@.map_values(|r: ExpenseRow| r@) == self.user_expense_ids(user_id).map_values(
                |k: ExpenseId| self.expense_map()[k],
            ),
            strictly_increasing(self.user_expense_ids(user_id)),
            self.user_expense_ids(user_id).to_set() == self.expenses@.dom().filter(
                |k: ExpenseId| involves(self.expense_map()[k], user_id),
            ),
    {
        proof {
            assert((|k: ExpenseId| picks(self.expense_map()[k], false, user_id)) =~= (|k: ExpenseId|
                involves(self.expense_map()[k], user_id)));
        }
        self.list_picked(false, user_id)
    }

    /// The expenses of group `group_id`, in ascending id order.
    pub fn list_expenses_for_group(&self, group_id: GroupId) -> (res: Vec<ExpenseRow>)
        ensures
            res@.map_values(|r: ExpenseRow| r@) == self.group_expense_ids(group_id).map_values(
                |k: ExpenseId| self.expense_map()[k],
            ),
            strictly_increasing(self.group_expense_ids(group_id)),
            self.group_expense_ids(group_id).to_set() == self.expenses@.dom().filter(
                |k: ExpenseId| in_group(self.expense_map()[k], group_id),
            ),
    {
        proof {
            assert((|k: ExpenseId| picks(self.expense_map()[k], true, group_id)) =~= (|k: ExpenseId|
                in_group(self.expense_map()[k], group_id)));
        }
        self.list_picked(true, group_id)
    }
}

// ---------------------------------------------------------------------------
// Laws
// ---------------------------------------------------------------------------

/// Listing the users gives each stored user exactly once, in ascending id
/// order.
pub proof fn law_users_listed_once_in_order(s: FileState)
    ensures
        s.users_in_order().len() == s.users@.dom().len(),
        strictly_increasing(ascending(s.users@.dom())),
        forall|i: int|
            0 <= i < s.users_in_order().len() ==> s.users@.contains_key(
                #[trigger] ascending(s.users@.dom())[i],
            ) && s.users_in_order()[i] == s.user_map()[ascending(s.users@.dom())[i]],
        forall|k: UserId|
            #[trigger] s.users@.contains_key(k) ==> exists|i: int|
                0 <= i < s.users_in_order().len() && ascending(s.users@.dom())[i] == k,
{
    let d = s.users@.dom();
    lemma_ascending_exists(d);
    let a = ascending(d);
    lemma_no_duplicates(a);
    a.unique_seq_to_set();
    assert forall|i: int| 0 <= i < a.len() implies s.users@.contains_key(#[trigger] a[i]) by {
        assert(a.to_set().contains(a[i]));
    }
    assert forall|k: UserId| #[trigger] s.users@.contains_key(k) implies exists|i: int|
        0 <= i < s.users_in_order().len() && a[i] == k by {
        assert(a.to_set().contains(k));
    }
}

/// A strictly increasing list holds no id twice.
proof fn lemma_no_duplicates(s: Seq<u128>)
    requires
        strictly_increasing(s),
    ensures
        s.no_duplicates(),
{
    assert forall|i: int, j: int| 0 <= i < s.len() && 0 <= j < s.len() && i != j implies s[i]
        != s[j] by {
        if i < j {
            assert(s[i] < s[j]);
        } else {
            assert(s[j] < s[i]);
        }
    }
}

/// Users `a` and `b`, both stored, befriend each other: afterwards each is
/// among the other's friends, nobody else changes, and no user appears or
/// disappears.
pub proof fn law_befriend_is_mutual(m: Map<UserId, UserRecord>, a: UserId, b: UserId)
    requires
        m.contains_key(a),
        m.contains_key(b),
    ensures
        befriend(m, a, b).dom() == m.dom(),
        befriend(m, a, b)[a].friends.contains(b),
        befriend(m, a, b)[b].friends.contains(a),
        forall|k: UserId| k != a && k != b && m.contains_key(k) ==> befriend(m, a, b)[k] == m[k],
{
    let m1 = m.insert(
        a,
        UserRecord { id: m[a].id, username: m[a].username, friends: m[a].friends.push(b) },
    );
    let f = m1[b].friends.push(a);
    assert(f[f.len() - 1] == a);
    if a != b {
        assert(befriend(m, a, b)[a] == m1[a]);
        let g = m[a].friends.push(b);
        assert(g[g.len() - 1] == b);
    } else {
        let g = m[a].friends.push(b);
        assert(g[g.len() - 1] == b);
        assert(f[g.len() - 1] == b);
    }
    assert(befriend(m, a, b).dom() =~= m.dom());
}

/// The expenses listed for a user are exactly the stored expenses that the
/// user pays or takes part in; those listed for a group are exactly the
/// stored expenses of that group.
pub proof fn law_expense_listings(s: FileState, u: UserId, g: GroupId)
    ensures
        forall|k: ExpenseId|
            s.user_expense_ids(u).contains(k) <==> (s.expenses@.contains_key(k) && involves(
                s.expense_map()[k],
                u,
            )),
        forall|k: ExpenseId|
            s.group_expense_ids(g).contains(k) <==> (s.expenses@.contains_key(k) && in_group(
                s.expense_map()[k],
                g,
            )),
{
    let du = s.expenses@.dom().filter(|k: ExpenseId| involves(s.expense_map()[k], u));
    let dg = s.expenses@.dom().filter(|k: ExpenseId| in_group(s.expense_map()[k], g));
    assert(s.expenses@.dom().finite());
    vstd::set_lib::lemma_set_subset_finite(s.expenses@.dom(), du);
    vstd::set_lib::lemma_set_subset_finite(s.expenses@.dom(), dg);
    lemma_ascending_exists(du);
    lemma_ascending_exists(dg);
    assert forall|k: ExpenseId|
        s.user_expense_ids(u).contains(k) <==> (s.expenses@.contains_key(k) && involves(
            s.expense_map()[k],
            u,
        )) by {
        assert(s.user_expense_ids(u).to_set().contains(k) == du.contains(k));
    }
    assert forall|k: ExpenseId|
        s.group_expense_ids(g).contains(k) <==> (s.expenses@.contains_key(k) && in_group(
            s.expense_map()[k],
            g,
        )) by {
        assert(s.group_expense_ids(g).to_set().contains(k) == dg.contains(k));
    }
}

/// An expense is listed for user `u` exactly when it is stored and `u` pays
/// it or is one of its participants.
pub proof fn law_user_listing_is_payer_or_participant(s: FileState, u: UserId)
    ensures
        forall|k: ExpenseId|
            #[trigger] s.user_expense_ids(u).contains(k) <==> (s.expenses@.contains_key(k) && (
            s.expense_map()[k].payer == u || s.expense_map()[k].participants.contains(u))),
{
    law_expense_listings(s, u, 0);
}

/// An expense is listed for group `g` exactly when it is stored and its
/// group is `g` itself.
pub proof fn law_group_listing_is_that_group(s: FileState, g: GroupId)
    ensures
        forall|k: ExpenseId|
            #[trigger] s.group_expense_ids(g).contains(k) <==> (s.expenses@.contains_key(k)
                && s.expense_map()[k].group_id == Some(g)),
{
    law_expense_listings(s, 0, g);
}

/// Befriending two different users appends each to the other's friend
/// list, keeping every earlier friend in order; befriending a user with
/// itself appends it twice.  Ids and names stay.
pub proof fn law_befriend_appends(m: Map<UserId, UserRecord>, a: UserId, b: UserId)
    requires
        m.contains_key(a),
        m.contains_key(b),
    ensures
        a != b ==> befriend(m, a, b)[a].friends == m[a].friends.push(b),
        a != b ==> befriend(m, a, b)[b].friends == m[b].friends.push(a),
        a == b ==> befriend(m, a, b)[a].friends == m[a].friends.push(a).push(a),
        befriend(m, a, b)[a].id == m[a].id && befriend(m, a, b)[a].username == m[a].username,
        befriend(m, a, b)[b].id == m[b].id && befriend(m, a, b)[b].username == m[b].username,
{
}

/// The user found by a name is one with that name, and no user with that
/// name has a smaller id; there is none only when no user has the name.
pub proof fn law_first_named_is_smallest(s: FileState, name: Seq<char>)
    ensures
        match s.first_named_id(name) {
            Some(k) => s.users@.contains_key(k) && s.users@[k].username@ == name && forall|j: UserId|
                #[trigger] s.users@.contains_key(j) && s.users@[j].username@ == name ==> k <= j,
            None => forall|j: UserId| #[trigger] s.users@.contains_key(j) ==> s.users@[j].username@ != name,
        },
{
    if s.first_named_id(name) is None {
        assert forall|j: UserId| #[trigger] s.users@.contains_key(j) implies s.users@[j].username@ != name by {
            if s.users@[j].username@ == name {
                lemma_smallest_named(s, name, j);
            }
        }
    }
}

/// When some user has a name, one of them has the smallest id.
proof fn lemma_smallest_named(s: FileState, name: Seq<char>, j: UserId)
    requires
        s.users@.contains_key(j),
        s.users@[j].username@ == name,
    ensures
        exists|k: UserId| s.first_named(k, name),
    decreases j,
{
    if !s.first_named(j, name) {
        let i = choose|i: UserId| s.users@.contains_key(i) && i < j && s.users@[i].username@ == name;
        lemma_smallest_named(s, name, i);
    }
}

/// Deleting a row that was just created under a fresh id gives back the
/// table as it was; deleting twice is deleting once.
pub proof fn law_delete_undoes_create<V>(m: Map<u128, V>, k: u128, v: V)
    ensures
        !m.contains_key(k) ==> m.insert(k, v).remove(k) == m,
        m.remove(k).remove(k) == m.remove(k),
{
    assert(m.remove(k).remove(k) =~= m.remove(k));
    if !m.contains_key(k) {
        assert(m.insert(k, v).remove(k) =~= m);
    }
}

/// A stored expense is listed for its payer, for each of its participants
/// and, when it belongs to a group, for that group.
pub proof fn law_stored_expense_is_listed(s: FileState, k: ExpenseId)
    requires
        s.expenses@.contains_key(k),
    ensures
        s.user_expense_ids(s.expense_map()[k].payer).contains(k),
        forall|p: UserId| #[trigger]
            s.expense_map()[k].participants.contains(p) ==> s.user_expense_ids(p).contains(k),
        s.expense_map()[k].group_id matches Some(g) ==> s.group_expense_ids(g).contains(k),
{
    let e = s.expense_map()[k];
    law_expense_listings(s, e.payer, 0);
    assert forall|p: UserId| #[trigger] e.participants.contains(p) implies s.user_expense_ids(
        p,
    ).contains(k) by {
        law_expense_listings(s, p, 0);
    }
    if let Some(g) = e.group_id {
        law_expense_listings(s, 0, g);
    }
}

/// Logging in finds a user just registered under a name that no other user
/// has, with the password registered.
pub proof fn law_registered_user_logs_in(
    before: FileState,
    after: FileState,
    u: UserRecord,
    email: Seq<char>,
    password: Seq<char>,
)
    requires
        after.user_map() == before.user_map().insert(u.id, u),
        after.credentials() == before.credentials().insert(u.id, (email, password)),
        forall|k: UserId|
            #[trigger] before.users@.contains_key(k) && k != u.id ==> before.users@[k].username@
                != u.username,
    ensures
        after.first_named_id(u.username) == Some(u.id),
        after.credentials()[u.id] == (email, password),
{
    assert(after.user_map().contains_key(u.id));
    assert(after.users@.contains_key(u.id));
    assert(after.user_map()[u.id] == u);
    assert forall|j: UserId| #[trigger]
        after.users@.contains_key(j) && j < u.id implies after.users@[j].username@ != u.username by {
        assert(after.user_map().contains_key(j));
        assert(before.user_map().contains_key(j));
        assert(after.user_map()[j] == before.user_map()[j]);
    }
    assert(after.first_named(u.id, u.username));
    assert forall|a: UserId| after.first_named(a, u.username) implies a == u.id by {
        if a < u.id {
        } else if a > u.id {
            assert(after.users@.contains_key(u.id) && u.id < a);
        }
    }
}

} // verus!
