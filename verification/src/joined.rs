//! Expenses rebuilt from the rows of a database query that joins each
//! expense with its participants: one row per expense and participant, where
//! the participant is absent for an expense without any.
use vstd::prelude::*;
use crate::store::ExpenseRow;
use crate::types::{ExpenseId, GroupId, UserId, opt_text};

verus! {

/// One row of the joined query.
#[derive(Debug, Clone, PartialEq, Eq)]
pub struct ExpenseJoinRow {
    pub expense_id: ExpenseId,
    pub payer: UserId,
    pub amount: i64,
    pub description: Option<String>,
    pub group_id: Option<GroupId>,
    pub created_at: i64,
    pub user_id: Option<UserId>,
}

/// The participant of a row (0 when it has none).
pub open spec fn participant_of(r: ExpenseJoinRow) -> UserId {
    match r.user_id {
        Some(u) => u,
        None => 0,
    }
}

/// The participants that the rows of expense `id` name, in row order.
pub open spec fn join_user_ids(rows: Seq<ExpenseJoinRow>, id: ExpenseId) -> Seq<UserId>
    decreases rows.len(),
{
    if rows.len() == 0 {
        Seq::empty()
    } else {
        let before = join_user_ids(rows.drop_last(), id);
        let r = rows.last();
        if r.expense_id == id && r.user_id is Some {
            before.push(participant_of(r))
        } else {
            before
        }
    }
}

/// Row `j` is the first row of expense `id`.
pub open spec fn is_first_row(rows: Seq<ExpenseJoinRow>, id: ExpenseId, j: int) -> bool {
    &&& 0 <= j < rows.len()
    &&& rows[j].expense_id == id
    &&& forall|t: int| 0 <= t < j ==> rows[t].expense_id != id
}

/// `e` has the expense fields (all but the participants) of row `head`.
pub open spec fn headed_by(e: ExpenseRow, head: ExpenseJoinRow) -> bool {
    &&& e.id == head.expense_id
    &&& e.payer == head.payer
    &&& e.amount == head.amount
    &&& opt_text(e.description) == opt_text(head.description)
    &&& e.group_id == head.group_id
    &&& e.timestamp_ms == head.created_at
}

/// Some row of `rows` is the first row of `e`'s expense and gives `e` its
/// fields.
pub open spec fn has_first_row(rows: Seq<ExpenseJoinRow>, e: ExpenseRow) -> bool {
    exists|j: int| is_first_row(rows, e.id, j) && headed_by(e, rows[j])
}

/// One of the expenses `v` has id `id`.
pub open spec fn lists_id(v: Seq<ExpenseRow>, id: ExpenseId) -> bool {
    exists|i: int| 0 <= i < v.len() && v[i].id == id
}

/// An expense headed by a row carries that row's id, payer, amount,
/// description, group and time.
pub proof fn law_headed_by_copies_row(e: ExpenseRow, head: ExpenseJoinRow)
    requires
        headed_by(e, head),
    ensures
        e.id == head.expense_id,
        e.payer == head.payer,
        e.amount == head.amount,
        opt_text(e.description) == opt_text(head.description),
        e.group_id == head.group_id,
        e.timestamp_ms == head.created_at,
{
}

/// The participants that the rows name for expense `id` are the users of
/// the rows of that id that have one, in row order.
pub proof fn law_join_user_ids_in_row_order(rows: Seq<ExpenseJoinRow>, id: ExpenseId)
    ensures
        join_user_ids(rows, id) == rows.filter(
            |r: ExpenseJoinRow| r.expense_id == id && r.user_id is Some,
        ).map_values(|r: ExpenseJoinRow| participant_of(r)),
    decreases rows.len(),
{
    reveal(Seq::filter);
    let p = |r: ExpenseJoinRow| r.expense_id == id && r.user_id is Some;
    if rows.len() > 0 {
        law_join_user_ids_in_row_order(rows.drop_last(), id);
        let f = rows.drop_last().filter(p);
        if p(rows.last()) {
            assert(rows.filter(p) == f.push(rows.last()));
            assert(f.push(rows.last()).map_values(|r: ExpenseJoinRow| participant_of(r)) =~= f.map_values(
                |r: ExpenseJoinRow| participant_of(r),
            ).push(participant_of(rows.last())));
        } else {
            assert(rows.filter(p) == f);
        }
    } else {
        assert(rows.filter(p) =~= Seq::<ExpenseJoinRow>::empty());
        assert(join_user_ids(rows, id) =~= Seq::<UserId>::empty());
    }
}

/// A copy of an optional text.
fn copy_text(t: &Option<String>) -> (r: Option<String>)
    ensures
        opt_text(r) == opt_text(*t),
{
    match t {
        Some(s) => Some(s.clone()),
        None => None,
    }
}

/// The expense that the rows of one expense describe: its fields from the
/// first row, its participants from all rows in order; `None` for no rows.
pub fn expense_from_rows(rows: &Vec<ExpenseJoinRow>) -> (r: Option<ExpenseRow>)
    requires
        forall|i: int|
            0 <= i < rows@.len() ==> #[trigger] rows@[i].expense_id == rows@[0].expense_id
                && rows@[i].user_id is Some,
    ensures
        r is None <==> rows@.len() == 0,
        r matches Some(e) ==> headed_by(e, rows@[0]) && e.participants@ == rows@.map_values(
            |x: ExpenseJoinRow| participant_of(x),
        ),
{
    if rows.len() == 0 {
        return None;
    }
    let mut participants: Vec<UserId> = Vec::new();
    for i in 0..rows.len()
        invariant
            participants@ == rows@.take(i as int).map_values(|x: ExpenseJoinRow| participant_of(x)),
            forall|t: int|
                0 <= t < rows@.len() ==> #[trigger] rows@[t].expense_id == rows@[0].expense_id
                    && rows@[t].user_id is Some,
    {
        let u = match rows[i].user_id {
            Some(u) => u,
            None => 0,
        };
        participants.push(u);
        proof {
            assert(rows@.take(i + 1).map_values(|x: ExpenseJoinRow| participant_of(x))
                =~= rows@.take(i as int).map_values(|x: ExpenseJoinRow| participant_of(x)).push(
                participant_of(rows@[i as int]),
            ));
        }
    }
    proof {
        assert(rows@.take(rows@.len() as int) =~= rows@);
    }
    let head = &rows[0];
    Some(
        ExpenseRow {
            id: head.expense_id,
            payer: head.payer,
            participants,
            amount: head.amount,
            description: copy_text(&head.description),
            group_id: head.group_id,
            timestamp_ms: head.created_at,
        },
    )
}

/// Whether one of the rows at `heads` belongs to expense `id`.
fn has_head(rows: &Vec<ExpenseJoinRow>, heads: &Vec<usize>, id: ExpenseId) -> (b: bool)
    requires
        forall|a: int| 0 <= a < heads@.len() ==> #[trigger] heads@[a] < rows@.len(),
    ensures
        b == exists|a: int| 0 <= a < heads@.len() && rows@[heads@[a] as int].expense_id == id,
{
    for a in 0..heads.len()
        invariant
            forall|c: int| 0 <= c < heads@.len() ==> #[trigger] heads@[c] < rows@.len(),
            forall|c: int| 0 <= c < a ==> rows@[heads@[c] as int].expense_id != id,
    {
        if rows[heads[a]].expense_id == id {
            return true;
        }
    }
    false
}

/// The participants that the rows of expense `id` name, in row order.
fn user_ids_of(rows: &Vec<ExpenseJoinRow>, id: ExpenseId) -> (r: Vec<UserId>)
    ensures
        r@ == join_user_ids(rows@, id),
{
    let mut r: Vec<UserId> = Vec::new();
    for t in 0..rows.len()
        invariant
            r@ == join_user_ids(rows@.take(t as int), id),
    {
        proof {
            assert(rows@.take(t + 1).drop_last() =~= rows@.take(t as int));
        }
        if rows[t].expense_id == id {
            match rows[t].user_id {
                Some(u) => r.push(u),
                None => {},
            }
        }
    }
    proof {
        assert(rows@.take(rows@.len() as int) =~= rows@);
    }
    r
}

/// What the two passes of `expense_rows` establish gives its contract.
proof fn lemma_expense_rows(
    rows: Seq<ExpenseJoinRow>,
    heads: Seq<usize>,
    pos: Seq<int>,
    v: Seq<ExpenseRow>,
)
    requires
        pos.len() == rows.len(),
        v.len() == heads.len(),
        forall|t: int|
            0 <= t < rows.len() ==> 0 <= #[trigger] pos[t] < heads.len() && rows[heads[pos[t]] as int].expense_id
                == rows[t].expense_id,
        forall|c: int, b: int|
            0 <= c < b < heads.len() ==> rows[heads[c] as int].expense_id
                != rows[heads[b] as int].expense_id,
        forall|c: int|
            0 <= c < heads.len() ==> is_first_row(
                rows,
                rows[#[trigger] heads[c] as int].expense_id,
                heads[c] as int,
            ),
        forall|c: int|
            0 <= c < v.len() ==> #[trigger] v[c].id == rows[heads[c] as int].expense_id
                && headed_by(v[c], rows[heads[c] as int]) && v[c].participants@
                == join_user_ids(rows, v[c].id),
    ensures
        forall|i: int, j: int| 0 <= i < j < v.len() ==> v[i].id != v[j].id,
        forall|i: int| 0 <= i < v.len() ==> #[trigger] has_first_row(rows, v[i]),
        forall|i: int|
            0 <= i < v.len() ==> #[trigger] v[i].participants@ == join_user_ids(rows, v[i].id),
        forall|j: int| 0 <= j < rows.len() ==> #[trigger] lists_id(v, rows[j].expense_id),
{
    assert forall|i: int| 0 <= i < v.len() implies #[trigger] has_first_row(rows, v[i]) by {
        let h = heads[i] as int;
        assert(v[i].id == rows[h].expense_id);
        assert(is_first_row(rows, rows[heads[i] as int].expense_id, h));
        assert(is_first_row(rows, v[i].id, h) && headed_by(v[i], rows[h]));
    }
    assert forall|t: int| 0 <= t < rows.len() implies #[trigger] lists_id(v, rows[t].expense_id) by {
        let c = pos[t];
        assert(v[c].id == rows[heads[c] as int].expense_id);
    }
    assert forall|i: int, k: int| 0 <= i < k < v.len() implies v[i].id != v[k].id by {
        assert(v[i].id == rows[heads[i] as int].expense_id);
        assert(v[k].id == rows[heads[k] as int].expense_id);
    }
}

/// The expenses that joined rows describe: one per expense id, with its
/// fields from that id's first row and its participants from that id's
/// rows, in row order.  (The order of the expenses is the order in which
/// their ids first appear.)
pub fn expense_rows(rows: &Vec<ExpenseJoinRow>) -> (v: Vec<ExpenseRow>)
    ensures
        forall|i: int, j: int| 0 <= i < j < v@.len() ==> v@[i].id != v@[j].id,
        forall|i: int| 0 <= i < v@.len() ==> #[trigger] has_first_row(rows@, v@[i]),
        forall|i: int|
            0 <= i < v@.len() ==> #[trigger] v@[i].participants@ == join_user_ids(rows@, v@[i].id),
        forall|j: int| 0 <= j < rows@.len() ==> #[trigger] lists_id(v@, rows@[j].expense_id),
{
    let mut heads: Vec<usize> = Vec::new();
    let ghost mut pos: Seq<int> = Seq::empty();
    let mut j: usize = 0;
    while j < rows.len()
        invariant
            j <= rows@.len(),
            pos.len() == j,
            forall|a: int| 0 <= a < heads@.len() ==> #[trigger] heads@[a] < j,
            forall|a: int, b: int|
                0 <= a < b < heads@.len() ==> rows@[heads@[a] as int].expense_id
                    != rows@[heads@[b] as int].expense_id,
            forall|a: int|
                0 <= a < heads@.len() ==> is_first_row(
                    rows@,
                    rows@[#[trigger] heads@[a] as int].expense_id,
                    heads@[a] as int,
                ),
            forall|t: int|
                0 <= t < j ==> 0 <= #[trigger] pos[t] < heads@.len() && rows@[heads@[pos[t]] as int].expense_id
                    == rows@[t].expense_id,
        decreases rows@.len() - j,
    {
        let id = rows[j].expense_id;
        if !has_head(rows, &heads, id) {
            proof {
                assert forall|t: int| 0 <= t < j implies rows@[t].expense_id != id by {
                    assert(0 <= pos[t] < heads@.len());
                }
            }
            let ghost before = heads@;
            heads.push(j);
            proof {
                pos = pos.push(before.len() as int);
                assert forall|t: int| 0 <= t < j + 1 implies 0 <= #[trigger] pos[t] < heads@.len()
                    && rows@[heads@[pos[t]] as int].expense_id == rows@[t].expense_id by {
                    if t < j {
                        assert(heads@[pos[t]] == before[pos[t]]);
                    }
                }
            }
        } else {
            proof {
                let a = choose|a: int| 0 <= a < heads@.len() && rows@[heads@[a] as int].expense_id == id;
                pos = pos.push(a);
                assert forall|t: int| 0 <= t < j + 1 implies 0 <= #[trigger] pos[t] < heads@.len()
                    && rows@[heads@[pos[t]] as int].expense_id == rows@[t].expense_id by {
                    if t < j {
                    }
                }
            }
        }
        j = j + 1;
    }
    let mut v: Vec<ExpenseRow> = Vec::new();
    let mut a: usize = 0;
    while a < heads.len()
        invariant
            a <= heads@.len(),
            forall|c: int| 0 <= c < heads@.len() ==> #[trigger] heads@[c] < rows@.len(),
            forall|c: int, b: int|
                0 <= c < b < heads@.len() ==> rows@[heads@[c] as int].expense_id
                    != rows@[heads@[b] as int].expense_id,
            forall|c: int|
                0 <= c < heads@.len() ==> is_first_row(
                    rows@,
                    rows@[#[trigger] heads@[c] as int].expense_id,
                    heads@[c] as int,
                ),
            v@.len() == a,
            forall|c: int|
                0 <= c < a ==> #[trigger] v@[c].id == rows@[heads@[c] as int].expense_id
                    && headed_by(v@[c], rows@[heads@[c] as int]) && v@[c].participants@
                    == join_user_ids(rows@, v@[c].id),
        decreases heads@.len() - a,
    {
        let head = &rows[heads[a]];
        let participants = user_ids_of(rows, head.expense_id);
        let ghost before = v@;
        v.push(
            ExpenseRow {
                id: head.expense_id,
                payer: head.payer,
                participants,
                amount: head.amount,
                description: copy_text(&head.description),
                group_id: head.group_id,
                timestamp_ms: head.created_at,
            },
        );
        proof {
            let last = v@[a as int];
            assert(last.id == rows@[heads@[a as int] as int].expense_id);
            assert(headed_by(last, rows@[heads@[a as int] as int]));
            assert(last.participants@ == join_user_ids(rows@, last.id));
        }
        a = a + 1;
    }
    proof {
        lemma_expense_rows(rows@, heads@, pos, v@);
    }
    v
}

} // verus!
