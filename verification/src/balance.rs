//! Balances between users and settlement of group debts.
//!
//! Both computations run over the expenses in the order given and, inside an
//! expense, over the participants in ascending id order; every step adds one
//! signed amount to the running balance of one user.  The spec functions
//! below describe those steps (`Seq<(UserId, int)>`), the balances they add
//! up to, and the settlement transfers computed from the balances.
use std::collections::HashMap;
use vstd::prelude::*;
use vstd::std_specs::iter::IteratorSpec;
use crate::settlement::lemma_picked_sorted;
use crate::split::{id_leq, lemma_id_leq_total, lemma_sorted_ids_unique, share_at, sorted_ids};
use crate::api::{BalanceEntry, GroupBalance};
use crate::split::{sort_ids, split_shares};
use crate::types::{Expense, UserId};

verus! {

broadcast use {vstd::seq_lib::group_to_multiset_ensures, vstd::std_specs::hash::group_hash_axioms};

// ---------------------------------------------------------------------------
// Running balances
// ---------------------------------------------------------------------------

/// The balance of `k` after the steps `ds`.
pub open spec fn net_of(ds: Seq<(UserId, int)>, k: UserId) -> int
    decreases ds.len(),
{
    if ds.len() == 0 {
        0
    } else {
        net_of(ds.drop_last(), k) + if ds.last().0 == k {
            ds.last().1
        } else {
            0
        }
    }
}

/// After every prefix of `ds`, every running balance fits in an `i64`
/// (so no step of the computation overflows).
pub open spec fn prefixes_fit(ds: Seq<(UserId, int)>) -> bool {
    forall|m: int, k: UserId|
        0 <= m <= ds.len() ==> i64::MIN <= #[trigger] net_of(ds.take(m), k) <= i64::MAX
}

/// The steps of all expenses, in order, where `f` gives the steps of one.
pub open spec fn flat_deltas(
    exps: Seq<Expense>,
    f: spec_fn(Expense) -> Seq<(UserId, int)>,
) -> Seq<(UserId, int)>
    decreases exps.len(),
{
    if exps.len() == 0 {
        Seq::empty()
    } else {
        flat_deltas(exps.drop_last(), f) + f(exps.last())
    }
}

/// The participants of `e` in ascending id order.
pub open spec fn participants_sorted(e: Expense) -> Seq<UserId> {
    sorted_ids(e.participants@)
}

/// The share of position `i` (in id order) of `e`.
pub open spec fn share_of(e: Expense, i: int) -> int {
    share_at(e.amount as int, e.participants@.len() as int, i)
}

proof fn lemma_flat_push(exps: Seq<Expense>, f: spec_fn(Expense) -> Seq<(UserId, int)>, a: int)
    requires
        0 <= a < exps.len(),
    ensures
        flat_deltas(exps.take(a + 1), f) == flat_deltas(exps.take(a), f) + f(exps[a]),
{
    assert(exps.take(a + 1).drop_last() =~= exps.take(a));
}

/// The steps of a prefix of the expenses are a prefix of the steps of all.
proof fn lemma_flat_prefix(exps: Seq<Expense>, f: spec_fn(Expense) -> Seq<(UserId, int)>, a: int)
    requires
        0 <= a <= exps.len(),
    ensures
        flat_deltas(exps.take(a), f).len() <= flat_deltas(exps, f).len(),
        flat_deltas(exps, f).take(flat_deltas(exps.take(a), f).len() as int) == flat_deltas(
            exps.take(a),
            f,
        ),
    decreases exps.len(),
{
    if a == exps.len() {
        assert(exps.take(a) =~= exps);
    } else {
        let init = exps.drop_last();
        assert(exps.take(a) =~= init.take(a));
        lemma_flat_prefix(init, f, a);
        let whole = flat_deltas(exps, f);
        assert(whole == flat_deltas(init, f) + f(exps.last()));
        assert(whole.take(flat_deltas(init.take(a), f).len() as int) =~= flat_deltas(
            init,
            f,
        ).take(flat_deltas(init.take(a), f).len() as int));
    }
}

proof fn lemma_net_of_concat(a: Seq<(UserId, int)>, b: Seq<(UserId, int)>, k: UserId)
    ensures
        net_of(a + b, k) == net_of(a, k) + net_of(b, k),
    decreases b.len(),
{
    if b.len() > 0 {
        assert((a + b).drop_last() =~= a + b.drop_last());
        lemma_net_of_concat(a, b.drop_last(), k);
    } else {
        assert(a + b =~= a);
    }
}

proof fn lemma_net_of_push(a: Seq<(UserId, int)>, x: (UserId, int), k: UserId)
    ensures
        net_of(a.push(x), k) == net_of(a, k) + if x.0 == k {
            x.1
        } else {
            0
        },
{
    assert(a.push(x).drop_last() =~= a);
}

proof fn lemma_sorted_len(e: Expense)
    ensures
        participants_sorted(e).len() == e.participants@.len(),
        participants_sorted(e).to_multiset() == e.participants@.to_multiset(),
{
    lemma_id_leq_total();
    e.participants@.lemma_sort_by_ensures(id_leq());
    assert(participants_sorted(e).to_multiset().len() == participants_sorted(e).len());
    assert(e.participants@.to_multiset().len() == e.participants@.len());
}

// ---------------------------------------------------------------------------
// Running balances kept in a hash map
// ---------------------------------------------------------------------------

/// The balance stored under `k`, or 0 when `k` is absent.
pub open spec fn stored(m: Map<UserId, i64>, k: UserId) -> int {
    if m.dom().contains(k) {
        m[k] as int
    } else {
        0
    }
}

/// Adds `amount` to (or, when `subtract`, takes it from) the balance of
/// `key`, an absent key counting as 0.
fn adjust_entry(net: &mut HashMap<UserId, i64>, key: UserId, amount: i64, subtract: bool)
    requires
        i64::MIN <= stored(old(net)@, key) + (if subtract {
            -amount
        } else {
            amount as int
        }) <= i64::MAX,
    ensures
        stored(final(net)@, key) == stored(old(net)@, key) + (if subtract {
            -amount
        } else {
            amount as int
        }),
        forall|k: UserId| k != key ==> stored(final(net)@, k) == stored(old(net)@, k),
        final(net)@.dom() == old(net)@.dom().insert(key),
{
    let cur = lookup(net, key);
    let nv = if subtract {
        cur - amount
    } else {
        cur + amount
    };
    net.insert(key, nv);
}

/// The balance stored under `key` (0 when absent).
fn lookup(net: &HashMap<UserId, i64>, key: UserId) -> (v: i64)
    ensures
        v == stored(net@, key),
{
    match net.get(&key) {
        Some(v) => *v,
        None => 0,
    }
}

/// No user comes twice in the iteration of a map of balances.
proof fn lemma_iter_keys_distinct(m: Map<UserId, i64>, all: Seq<(&UserId, &i64)>)
    requires
        all.no_duplicates(),
        forall|i: int| 0 <= i < all.len() ==> m.contains_key(*all[i].0) && m[*all[i].0] == *all[i].1,
    ensures
        forall|i: int, j: int| 0 <= i < all.len() && 0 <= j < all.len() && i != j ==> *all[i].0 != *all[j].0,
{
    assert forall|i: int, j: int| 0 <= i < all.len() && 0 <= j < all.len() && i != j implies *all[i].0
        != *all[j].0 by {
        if *all[i].0 == *all[j].0 {
            assert(m[*all[i].0] == *all[i].1);
            assert(m[*all[j].0] == *all[j].1);
            assert(all[i] == all[j]);
        }
    }
}

// ---------------------------------------------------------------------------
// Balances of one user towards others (expenses outside groups)
// ---------------------------------------------------------------------------

/// The step for a participant `p` with share `share` of an expense paid by
/// `payer`, from `user`'s point of view: when `user` paid, `p` owes `user`
/// the share; when `user` is the participant, `user` owes the payer.  The
/// payer's own share, and shares between two others, change nothing.
pub open spec fn user_step(user: UserId, payer: UserId, p: UserId, share: int) -> (UserId, int) {
    if p == payer {
        (p, 0)
    } else if payer == user {
        (p, share)
    } else if p == user {
        (payer, -share)
    } else {
        (p, 0)
    }
}

/// The step of position `i` (in id order) of `e`, for `user`.
pub open spec fn user_step_at(user: UserId, e: Expense, i: int) -> (UserId, int) {
    user_step(user, e.payer, participants_sorted(e)[i], share_of(e, i))
}

/// The steps of the first `k` positions of `e`, for `user`.
pub open spec fn user_steps(user: UserId, e: Expense, k: nat) -> Seq<(UserId, int)> {
    Seq::new(k, |i: int| user_step_at(user, e, i))
}

/// An expense counts towards user balances when it belongs to no group and
/// has participants.
pub open spec fn counts_for_user(e: Expense) -> bool {
    e.group_id is None && e.participants@.len() > 0
}

/// The steps of one expense, for `user`.
pub open spec fn expense_user_deltas(user: UserId, e: Expense) -> Seq<(UserId, int)> {
    if counts_for_user(e) {
        user_steps(user, e, e.participants@.len())
    } else {
        Seq::empty()
    }
}

pub open spec fn user_expense_fn(user: UserId) -> spec_fn(Expense) -> Seq<(UserId, int)> {
    |e: Expense| expense_user_deltas(user, e)
}

/// The steps of all expenses, for `user`.
pub open spec fn user_deltas(user: UserId, exps: Seq<Expense>) -> Seq<(UserId, int)> {
    flat_deltas(exps, user_expense_fn(user))
}

/// What `other` owes `user` over `exps` (negative: what `user` owes `other`).
pub open spec fn user_balance(user: UserId, exps: Seq<Expense>, other: UserId) -> int {
    net_of(user_deltas(user, exps), other)
}

/// Participant counts fit in an `i64`, as the split computes with them.
pub open spec fn participant_counts_fit(exps: Seq<Expense>) -> bool {
    forall|i: int| 0 <= i < exps.len() ==> #[trigger] exps[i].participants@.len() <= i64::MAX
}

/// The balances of `user_id` towards every other user, over the expenses of
/// `expenses` that belong to no group: one entry per user whose balance is
/// not zero.  Per expense, the participants in ascending id order share the
/// amount as `split_shares` does.
pub fn user_non_group_balances(user_id: UserId, expenses: &Vec<Expense>) -> (res: Vec<
    BalanceEntry,
>)
    requires
        participant_counts_fit(expenses@),
        prefixes_fit(user_deltas(user_id, expenses@)),
    ensures
        forall|i: int|
            0 <= i < res@.len() ==> #[trigger] res@[i].amount != 0 && res@[i].amount
                == user_balance(user_id, expenses@, res@[i].other),
        forall|i: int, j: int| 0 <= i < j < res@.len() ==> res@[i].other != res@[j].other,
        forall|o: UserId|
            #[trigger] user_balance(user_id, expenses@, o) != 0 ==> exists|i: int|
                0 <= i < res@.len() && res@[i].other == o,
{
    let ghost exps = expenses@;
    let ghost f = user_expense_fn(user_id);
    let ghost full = user_deltas(user_id, exps);
    let mut net: HashMap<UserId, i64> = HashMap::new();
    let mut idx: usize = 0;
    proof {
        assert(exps.take(0) =~= Seq::<Expense>::empty());
    }
    while idx < expenses.len()
        invariant
            exps == expenses@,
            f == user_expense_fn(user_id),
            full == user_deltas(user_id, exps),
            idx <= exps.len(),
            participant_counts_fit(exps),
            prefixes_fit(full),
            forall|k: UserId| stored(net@, k) == net_of(flat_deltas(exps.take(idx as int), f), k),
        decreases exps.len() - idx,
    {
        let e = &expenses[idx];
        let ghost before = flat_deltas(exps.take(idx as int), f);
        proof {
            lemma_flat_push(exps, f, idx as int);
            lemma_flat_prefix(exps, f, idx + 1);
        }
        if e.group_id.is_none() && e.participants.len() > 0 {
            let sorted = sort_ids(&e.participants);
            let n = sorted.len();
            proof {
                lemma_sorted_len(*e);
                assert(exps[idx as int].participants@.len() <= i64::MAX);
            }
            let shares = split_shares(e.amount, n);
            let mut i: usize = 0;
            while i < n
                invariant
                    exps == expenses@,
                    0 <= idx < exps.len(),
                    *e == exps[idx as int],
                    counts_for_user(*e),
                    sorted@ == participants_sorted(*e),
                    n == sorted@.len(),
                    n == e.participants@.len(),
                    shares@.len() == n,
                    forall|t: int| 0 <= t < n ==> shares@[t] == share_of(*e, t),
                    i <= n,
                    full == user_deltas(user_id, exps),
                    prefixes_fit(full),
                    f == user_expense_fn(user_id),
                    before == flat_deltas(exps.take(idx as int), f),
                    flat_deltas(exps.take(idx + 1), f) == before + f(*e),
                    full.take(flat_deltas(exps.take(idx + 1), f).len() as int) == flat_deltas(
                        exps.take(idx + 1),
                        f,
                    ),
                    flat_deltas(exps.take(idx + 1), f).len() <= full.len(),
                            forall|k: UserId|
                        stored(net@, k) == net_of(before + user_steps(user_id, *e, i as nat), k),
                decreases n - i,
            {
                let p = sorted[i];
                let s = shares[i];
                let ghost prefix = before + user_steps(user_id, *e, i as nat);
                let ghost step = user_step_at(user_id, *e, i as int);
                proof {
                    assert(f(*e) == user_steps(user_id, *e, n as nat));
                    assert(before + user_steps(user_id, *e, (i + 1) as nat) =~= prefix.push(step));
                    let m = prefix.len() + 1int;
                    let whole = before + user_steps(user_id, *e, n as nat);
                    assert(full.take(whole.len() as int) == whole);
                    assert(full.take(m) =~= whole.take(m));
                    assert(whole.take(m) =~= prefix.push(step));
                    assert(i64::MIN <= net_of(full.take(m), step.0) <= i64::MAX);
                    lemma_net_of_push(prefix, step, step.0);
                }
                if p != e.payer {
                    if e.payer == user_id {
                        adjust_entry(&mut net, p, s, false);
                    } else if p == user_id {
                        adjust_entry(&mut net, e.payer, s, true);
                    }
                }
                proof {
                    assert forall|k: UserId|
                        stored(net@, k) == net_of(
                            before + user_steps(user_id, *e, (i + 1) as nat),
                            k,
                        ) by {
                        lemma_net_of_push(prefix, step, k);
                    }
                }
                i = i + 1;
            }
            proof {
                assert(user_steps(user_id, *e, i as nat) == f(*e));
            }
        } else {
            proof {
                assert(f(*e) == Seq::<(UserId, int)>::empty());
                assert(before + f(*e) =~= before);
            }
        }
        idx = idx + 1;
    }
    proof {
        assert(exps.take(exps.len() as int) =~= exps);
    }
    let mut res: Vec<BalanceEntry> = Vec::new();
    let iter = net.iter();
    let ghost all = iter.remaining();
    let ghost m = net@;
    proof {
        lemma_iter_keys_distinct(m, all);
    }
    for kv in it: iter
        invariant
            exps == expenses@,
            it.seq() == all,
            m == net@,
            forall|i: int| 0 <= i < all.len() ==> m.contains_key(*all[i].0) && m[*all[i].0] == *all[i].1,
            forall|k: UserId| #[trigger] m.contains_key(k) ==> all.contains((&k, &m[k])),
            forall|i: int, j: int|
                0 <= i < all.len() && 0 <= j < all.len() && i != j ==> *all[i].0 != *all[j].0,
            forall|k: UserId| stored(m, k) == user_balance(user_id, exps, k),
            forall|i: int|
                0 <= i < res@.len() ==> #[trigger] res@[i].amount != 0 && res@[i].amount
                    == user_balance(user_id, exps, res@[i].other),
            forall|i: int, t: int|
                0 <= i < res@.len() && it.index() <= t < all.len() ==> res@[i].other != *all[t].0,
            forall|i: int, i2: int| 0 <= i < i2 < res@.len() ==> res@[i].other != res@[i2].other,
            forall|t: int|
                0 <= t < it.index() && *all[t].1 != 0 ==> exists|i: int|
                    0 <= i < res@.len() && res@[i].other == *all[t].0,
    {
        let (k, v) = kv;
        let ghost idx = it.index();
        let ghost old_res = res@;
        proof {
            assert(all[idx] == (k, v));
            assert(m.contains_key(*k) && m[*k] == *v);
            assert(stored(m, *k) == user_balance(user_id, exps, *k));
            assert forall|i: int| 0 <= i < old_res.len() implies old_res[i].other != *k by {
                assert(old_res[i].other != *all[idx].0);
            }
        }
        if *v != 0 {
            res.push(BalanceEntry { other: *k, amount: *v });
        }
        proof {
            assert forall|t: int|
                0 <= t < idx + 1 && *all[t].1 != 0 implies exists|i: int|
                0 <= i < res@.len() && res@[i].other == *all[t].0 by {
                if t < idx {
                    let i = choose|i: int| 0 <= i < old_res.len() && old_res[i].other == *all[t].0;
                    assert(res@[i] == old_res[i]);
                } else {
                    assert(res@[res@.len() - 1].other == *all[t].0);
                }
            }
            assert forall|i: int, t: int|
                0 <= i < res@.len() && idx + 1 <= t < all.len() implies res@[i].other != *all[t].0 by {
                if i < old_res.len() {
                    assert(res@[i] == old_res[i]);
                } else {
                    assert(*all[idx].0 == res@[i].other);
                }
            }
        }
    }
    proof {
        assert forall|o: UserId| #[trigger] user_balance(user_id, exps, o) != 0 implies exists|i: int|
            0 <= i < res@.len() && res@[i].other == o by {
            assert(stored(m, o) == user_balance(user_id, exps, o));
            assert(m.contains_key(o));
            assert(all.contains((&o, &m[o])));
            let t = choose|t: int| 0 <= t < all.len() && all[t] == (&o, &m[o]);
            assert(*all[t].1 != 0);
        }
    }
    res
}

/// What one step adds to the balance of `k`.
pub open spec fn step_value(d: (UserId, int), k: UserId) -> int {
    if d.0 == k {
        d.1
    } else {
        0
    }
}

proof fn lemma_net_of_mirror(
    ds1: Seq<(UserId, int)>,
    k1: UserId,
    ds2: Seq<(UserId, int)>,
    k2: UserId,
)
    requires
        ds1.len() == ds2.len(),
        forall|i: int| 0 <= i < ds1.len() ==> step_value(ds1[i], k1) == -step_value(ds2[i], k2),
    ensures
        net_of(ds1, k1) == -net_of(ds2, k2),
    decreases ds1.len(),
{
    if ds1.len() > 0 {
        lemma_net_of_mirror(ds1.drop_last(), k1, ds2.drop_last(), k2);
        assert(step_value(ds1[ds1.len() - 1], k1) == -step_value(ds2[ds2.len() - 1], k2));
    }
}

proof fn lemma_expense_mirror(a: UserId, b: UserId, e: Expense)
    ensures
        net_of(expense_user_deltas(a, e), b) == -net_of(expense_user_deltas(b, e), a),
{
    if counts_for_user(e) {
        let n = e.participants@.len();
        let s1 = user_steps(a, e, n);
        let s2 = user_steps(b, e, n);
        assert forall|i: int| 0 <= i < s1.len() implies step_value(s1[i], b) == -step_value(s2[i], a) by {
            assert(s1[i] == user_step_at(a, e, i));
            assert(s2[i] == user_step_at(b, e, i));
        }
        lemma_net_of_mirror(s1, b, s2, a);
    }
}

/// Balances between two users mirror each other: what `b` owes `a` is
/// exactly what `a` owes `b`, with the sign turned.
pub proof fn law_balances_antisymmetric(a: UserId, b: UserId, exps: Seq<Expense>)
    ensures
        user_balance(a, exps, b) == -user_balance(b, exps, a),
    decreases exps.len(),
{
    if exps.len() > 0 {
        let init = exps.drop_last();
        law_balances_antisymmetric(a, b, init);
        lemma_net_of_concat(user_deltas(a, init), expense_user_deltas(a, exps.last()), b);
        lemma_net_of_concat(user_deltas(b, init), expense_user_deltas(b, exps.last()), a);
        lemma_expense_mirror(a, b, exps.last());
        assert(user_deltas(a, exps) == user_deltas(a, init) + expense_user_deltas(a, exps.last()));
        assert(user_deltas(b, exps) == user_deltas(b, init) + expense_user_deltas(b, exps.last()));
    }
}

/// No user has a balance towards themselves.
pub proof fn law_no_balance_with_self(u: UserId, exps: Seq<Expense>)
    ensures
        user_balance(u, exps, u) == 0,
{
    law_balances_antisymmetric(u, u, exps);
}

/// The balance the payer of `e` sees towards participant `p` (at position
/// `j` in id order), over the first `k` positions.
proof fn lemma_payer_view(e: Expense, p: UserId, j: int, k: nat)
    requires
        p != e.payer,
        0 <= j < participants_sorted(e).len(),
        participants_sorted(e)[j] == p,
        forall|i: int| 0 <= i < participants_sorted(e).len() && i != j ==> participants_sorted(e)[i] != p,
        k <= participants_sorted(e).len(),
    ensures
        net_of(user_steps(e.payer, e, k), p) == if j < k {
            share_of(e, j)
        } else {
            0
        },
    decreases k,
{
    if k == 0 {
        assert(user_steps(e.payer, e, 0) =~= Seq::<(UserId, int)>::empty());
    } else {
        lemma_payer_view(e, p, j, (k - 1) as nat);
        let step = user_step_at(e.payer, e, k - 1);
        assert(user_steps(e.payer, e, k) =~= user_steps(e.payer, e, (k - 1) as nat).push(step));
        lemma_net_of_push(user_steps(e.payer, e, (k - 1) as nat), step, p);
    }
}

/// The balance participant `p` (at position `j` in id order) sees towards
/// the payer of `e`, over the first `k` positions.
proof fn lemma_participant_view(e: Expense, p: UserId, j: int, k: nat)
    requires
        p != e.payer,
        0 <= j < participants_sorted(e).len(),
        participants_sorted(e)[j] == p,
        forall|i: int| 0 <= i < participants_sorted(e).len() && i != j ==> participants_sorted(e)[i] != p,
        k <= participants_sorted(e).len(),
    ensures
        net_of(user_steps(p, e, k), e.payer) == if j < k {
            -share_of(e, j)
        } else {
            0
        },
    decreases k,
{
    if k == 0 {
        assert(user_steps(p, e, 0) =~= Seq::<(UserId, int)>::empty());
    } else {
        lemma_participant_view(e, p, j, (k - 1) as nat);
        let step = user_step_at(p, e, k - 1);
        assert(user_steps(p, e, k) =~= user_steps(p, e, (k - 1) as nat).push(step));
        lemma_net_of_push(user_steps(p, e, (k - 1) as nat), step, e.payer);
    }
}

/// Over one expense outside any group, each participant `p` other than the
/// payer owes the payer `p`'s share, whether or not the payer takes part:
/// the share of `p`'s position in id order, which is the floor of the
/// average or one more, and is positive when the amount is at least the
/// number of participants.  The payer sees `p` owe that share; `p` sees
/// itself owe it.
pub proof fn law_participant_owes_payer(e: Expense, p: UserId)
    requires
        e.group_id is None,
        e.participants@.no_duplicates(),
        e.participants@.contains(p),
        p != e.payer,
    ensures
        exists|j: int|
            0 <= j < e.participants@.len() && sorted_ids(e.participants@)[j] == p && user_balance(
                e.payer,
                seq![e],
                p,
            ) == share_at(e.amount as int, e.participants@.len() as int, j),
        user_balance(p, seq![e], e.payer) == -user_balance(e.payer, seq![e], p),
        user_balance(e.payer, seq![e], p) == (e.amount as int) / (e.participants@.len() as int)
            || user_balance(e.payer, seq![e], p) == (e.amount as int) / (e.participants@.len() as int)
            + 1,
        e.amount >= e.participants@.len() ==> user_balance(e.payer, seq![e], p) > 0,
{
    let ps = e.participants@;
    let n = ps.len();
    let sorted = participants_sorted(e);
    lemma_id_leq_total();
    ps.lemma_sort_by_ensures(id_leq());
    assert(sorted.to_multiset().len() == sorted.len());
    assert(ps.to_multiset().len() == ps.len());
    ps.lemma_multiset_has_no_duplicates();
    assert forall|x: UserId| sorted.to_multiset().contains(x) implies sorted.to_multiset().count(x) == 1 by {
        assert(ps.to_multiset().contains(x));
    }
    sorted.lemma_multiset_has_no_duplicates_conv();
    assert(sorted.to_multiset().count(p) > 0);
    assert(sorted.contains(p));
    let j = choose|j: int| 0 <= j < sorted.len() && sorted[j] == p;
    lemma_payer_view(e, p, j, n);
    lemma_participant_view(e, p, j, n);
    let exps = seq![e];
    assert(exps.drop_last() =~= Seq::<Expense>::empty());
    assert(user_deltas(e.payer, Seq::<Expense>::empty()) =~= Seq::<(UserId, int)>::empty());
    assert(user_deltas(p, Seq::<Expense>::empty()) =~= Seq::<(UserId, int)>::empty());
    assert(user_deltas(e.payer, exps) =~= user_steps(e.payer, e, n));
    assert(user_deltas(p, exps) =~= user_steps(p, e, n));
    let a = e.amount as int;
    let nn = n as int;
    assert(a % nn >= 0) by (nonlinear_arith)
        requires
            nn > 0,
    ;
    if a >= nn {
        assert(a / nn >= 1) by (nonlinear_arith)
            requires
                nn > 0,
                a >= nn,
        ;
    }
}

/// The steps of `e` for `user` move no balance towards `q` when neither
/// `user` nor `q` is the payer, nor when `user` is the payer and `q` is not
/// a participant.
proof fn lemma_steps_untouched(user: UserId, e: Expense, q: UserId, k: nat)
    requires
        (user != e.payer && q != e.payer) || (user == e.payer && !e.participants@.contains(q)),
        k <= participants_sorted(e).len(),
        participants_sorted(e).to_multiset() == e.participants@.to_multiset(),
    ensures
        net_of(user_steps(user, e, k), q) == 0,
    decreases k,
{
    if k == 0 {
        assert(user_steps(user, e, 0) =~= Seq::<(UserId, int)>::empty());
    } else {
        lemma_steps_untouched(user, e, q, (k - 1) as nat);
        let step = user_step_at(user, e, k - 1);
        assert(user_steps(user, e, k) =~= user_steps(user, e, (k - 1) as nat).push(step));
        lemma_net_of_push(user_steps(user, e, (k - 1) as nat), step, q);
        let x = participants_sorted(e)[k - 1];
        assert(participants_sorted(e).to_multiset().count(x) > 0);
        assert(e.participants@.contains(x));
    }
}

/// One expense outside any group creates debts only between its payer and
/// its other participants: a user who does not pay it has no balance
/// towards anyone but the payer, and the payer has none towards anyone who
/// does not take part.
pub proof fn law_one_expense_links_payer_only(e: Expense, user: UserId, q: UserId)
    requires
        (user != e.payer && q != e.payer) || (user == e.payer && !e.participants@.contains(q)),
    ensures
        user_balance(user, seq![e], q) == 0,
{
    let exps = seq![e];
    assert(exps.drop_last() =~= Seq::<Expense>::empty());
    assert(user_deltas(user, Seq::<Expense>::empty()) =~= Seq::<(UserId, int)>::empty());
    if counts_for_user(e) {
        lemma_id_leq_total();
        e.participants@.lemma_sort_by_ensures(id_leq());
        assert(participants_sorted(e).to_multiset().len() == participants_sorted(e).len());
        assert(e.participants@.to_multiset().len() == e.participants@.len());
        lemma_steps_untouched(user, e, q, e.participants@.len());
        assert(user_deltas(user, exps) =~= user_steps(user, e, e.participants@.len()));
    } else {
        assert(user_deltas(user, exps) =~= Seq::<(UserId, int)>::empty());
    }
}

/// Expenses that belong to a group leave every user balance unchanged.
pub proof fn law_group_expenses_ignored(u: UserId, exps: Seq<Expense>, e: Expense, other: UserId)
    requires
        e.group_id is Some,
    ensures
        user_balance(u, exps.push(e), other) == user_balance(u, exps, other),
{
    assert(exps.push(e).drop_last() =~= exps);
    assert(user_deltas(u, exps.push(e)) =~= user_deltas(u, exps));
}

/// Whether `u` takes part in an expense: as its payer or as a participant.
pub open spec fn takes_part(u: UserId) -> spec_fn(Expense) -> bool {
    |e: Expense| e.payer == u || e.participants@.contains(u)
}

/// Steps that add nothing to `k` leave its balance at zero.
proof fn lemma_net_of_zero(ds: Seq<(UserId, int)>, k: UserId)
    requires
        forall|i: int| 0 <= i < ds.len() ==> step_value(#[trigger] ds[i], k) == 0,
    ensures
        net_of(ds, k) == 0,
    decreases ds.len(),
{
    if ds.len() > 0 {
        lemma_net_of_zero(ds.drop_last(), k);
        assert(step_value(ds[ds.len() - 1], k) == 0);
    }
}

/// An expense that `u` takes no part in changes none of `u`'s balances.
proof fn lemma_outsider_expense(u: UserId, e: Expense, w: UserId)
    requires
        !takes_part(u)(e),
    ensures
        net_of(expense_user_deltas(u, e), w) == 0,
{
    if counts_for_user(e) {
        let n = e.participants@.len();
        let ds = user_steps(u, e, n);
        lemma_sorted_len(e);
        assert forall|i: int| 0 <= i < ds.len() implies step_value(#[trigger] ds[i], w) == 0 by {
            let p = participants_sorted(e)[i];
            assert(participants_sorted(e).to_multiset().count(p) > 0);
            assert(e.participants@.to_multiset().count(p) > 0);
            assert(e.participants@.contains(p));
            assert(p != u);
            assert(ds[i] == user_step_at(u, e, i));
        }
        lemma_net_of_zero(ds, w);
    }
}

/// A user's balances over all expenses are their balances over the
/// expenses they take part in.
pub proof fn lemma_balance_over_own_expenses(u: UserId, exps: Seq<Expense>, w: UserId)
    ensures
        user_balance(u, exps.filter(takes_part(u)), w) == user_balance(u, exps, w),
    decreases exps.len(),
{
    reveal(Seq::filter);
    if exps.len() > 0 {
        let init = exps.drop_last();
        let e = exps.last();
        lemma_balance_over_own_expenses(u, init, w);
        let fi = init.filter(takes_part(u));
        assert(user_deltas(u, exps) == user_deltas(u, init) + expense_user_deltas(u, e));
        lemma_net_of_concat(user_deltas(u, init), expense_user_deltas(u, e), w);
        if takes_part(u)(e) {
            assert(exps.filter(takes_part(u)) == fi.push(e));
            assert(fi.push(e).drop_last() =~= fi);
            assert(user_deltas(u, fi.push(e)) == user_deltas(u, fi) + expense_user_deltas(u, e));
            lemma_net_of_concat(user_deltas(u, fi), expense_user_deltas(u, e), w);
        } else {
            assert(exps.filter(takes_part(u)) == fi);
            lemma_outsider_expense(u, e, w);
        }
    }
}

/// What `b`'s own expenses say `b` owes `a` is what `a`'s own expenses say
/// `a` is owed by `b`: the balances that each user sees mirror each other.
pub proof fn law_own_balances_mirror(a: UserId, b: UserId, exps: Seq<Expense>)
    ensures
        user_balance(a, exps.filter(takes_part(a)), b) == -user_balance(
            b,
            exps.filter(takes_part(b)),
            a,
        ),
{
    lemma_balance_over_own_expenses(a, exps, b);
    lemma_balance_over_own_expenses(b, exps, a);
    law_balances_antisymmetric(a, b, exps);
}

/// `v` lists the balances of `user` over `exps`: one entry, with the
/// balance, for each other user whose balance is not zero.
pub open spec fn lists_balances(user: UserId, exps: Seq<Expense>, v: Seq<BalanceEntry>) -> bool {
    &&& forall|i: int|
        0 <= i < v.len() ==> #[trigger] v[i].amount != 0 && v[i].amount == user_balance(
            user,
            exps,
            v[i].other,
        )
    &&& forall|i: int, j: int| 0 <= i < j < v.len() ==> v[i].other != v[j].other
    &&& forall|o: UserId|
        #[trigger] user_balance(user, exps, o) != 0 ==> exists|i: int|
            0 <= i < v.len() && v[i].other == o
}

/// Any two listings of a user's balances over the same expenses hold the
/// same entries (they may differ only in order).
pub proof fn law_balance_listings_agree(
    user: UserId,
    exps: Seq<Expense>,
    v: Seq<BalanceEntry>,
    w: Seq<BalanceEntry>,
)
    requires
        lists_balances(user, exps, v),
        lists_balances(user, exps, w),
    ensures
        v.len() == w.len(),
        v.to_set() == w.to_set(),
{
    assert forall|x: BalanceEntry| v.contains(x) implies w.contains(x) by {
        let i = choose|i: int| 0 <= i < v.len() && v[i] == x;
        assert(v[i].amount != 0);
        assert(user_balance(user, exps, x.other) != 0);
        let j = choose|j: int| 0 <= j < w.len() && w[j].other == x.other;
        assert(w[j].amount != 0);
        assert(w[j] == x);
    }
    assert forall|x: BalanceEntry| w.contains(x) implies v.contains(x) by {
        let i = choose|i: int| 0 <= i < w.len() && w[i] == x;
        assert(w[i].amount != 0);
        assert(user_balance(user, exps, x.other) != 0);
        let j = choose|j: int| 0 <= j < v.len() && v[j].other == x.other;
        assert(v[j].amount != 0);
        assert(v[j] == x);
    }
    assert(v.to_set() =~= w.to_set());
    assert(v.no_duplicates() && w.no_duplicates());
    v.unique_seq_to_set();
    w.unique_seq_to_set();
}

/// Two expenses that agree on everything the balances read: payer,
/// participants, amount and group.
pub open spec fn same_effect(a: Expense, b: Expense) -> bool {
    &&& a.payer == b.payer
    &&& a.participants@ == b.participants@
    &&& a.amount == b.amount
    &&& a.group_id == b.group_id
}

/// Two lists of expenses that agree, position by position, on everything
/// the balances read.
pub open spec fn same_effects(a: Seq<Expense>, b: Seq<Expense>) -> bool {
    &&& a.len() == b.len()
    &&& forall|i: int| 0 <= i < a.len() ==> #[trigger] same_effect(a[i], b[i])
}

/// Steps that depend on expenses only through what they share give the
/// same flat list.
proof fn lemma_flat_congruent(
    a: Seq<Expense>,
    b: Seq<Expense>,
    f: spec_fn(Expense) -> Seq<(UserId, int)>,
)
    requires
        a.len() == b.len(),
        forall|i: int| 0 <= i < a.len() ==> f(a[i]) == f(b[i]),
    ensures
        flat_deltas(a, f) == flat_deltas(b, f),
    decreases a.len(),
{
    if a.len() > 0 {
        lemma_flat_congruent(a.drop_last(), b.drop_last(), f);
        assert(f(a.last()) == f(b.last()));
    }
}

/// Balances only depend on what the expenses share.
pub proof fn lemma_same_effects_user(user: UserId, a: Seq<Expense>, b: Seq<Expense>)
    requires
        same_effects(a, b),
    ensures
        user_deltas(user, a) == user_deltas(user, b),
        participant_counts_fit(a) == participant_counts_fit(b),
{
    let f = user_expense_fn(user);
    assert forall|i: int| 0 <= i < a.len() implies f(a[i]) == f(b[i]) by {
        assert(same_effect(a[i], b[i]));
        assert(participants_sorted(a[i]) == participants_sorted(b[i]));
        let n = a[i].participants@.len();
        assert(user_steps(user, a[i], n) =~= user_steps(user, b[i], n));
    }
    lemma_flat_congruent(a, b, f);
    lemma_same_effects_counts(a, b);
}

/// Participant counts only depend on what the expenses share.
pub proof fn lemma_same_effects_counts(a: Seq<Expense>, b: Seq<Expense>)
    requires
        same_effects(a, b),
    ensures
        participant_counts_fit(a) == participant_counts_fit(b),
{
    if participant_counts_fit(a) {
        assert forall|i: int| 0 <= i < b.len() implies #[trigger] b[i].participants@.len() <= i64::MAX by {
            assert(same_effect(a[i], b[i]));
        }
    }
    if participant_counts_fit(b) {
        assert forall|i: int| 0 <= i < a.len() implies #[trigger] a[i].participants@.len() <= i64::MAX by {
            assert(same_effect(a[i], b[i]));
        }
    }
}

// ---------------------------------------------------------------------------
// Group overview: net positions and settlement transfers
// ---------------------------------------------------------------------------

/// Position `j` of the steps of `e` in a group overview: first the payer is
/// credited the whole amount, then each participant (in id order) is
/// debited their share.
pub open spec fn group_step_at(e: Expense, j: int) -> (UserId, int) {
    if j == 0 {
        (e.payer, e.amount as int)
    } else {
        (participants_sorted(e)[j - 1], -share_of(e, j - 1))
    }
}

/// The first `k` group steps of `e`.
pub open spec fn group_steps(e: Expense, k: nat) -> Seq<(UserId, int)> {
    Seq::new(k, |j: int| group_step_at(e, j))
}

/// The group steps of `e`; an expense without participants has none.
pub open spec fn expense_group_deltas(e: Expense) -> Seq<(UserId, int)> {
    if e.participants@.len() > 0 {
        group_steps(e, e.participants@.len() + 1)
    } else {
        Seq::empty()
    }
}

pub open spec fn group_expense_fn() -> spec_fn(Expense) -> Seq<(UserId, int)> {
    |e: Expense| expense_group_deltas(e)
}

/// The group steps of all expenses.
pub open spec fn group_deltas(exps: Seq<Expense>) -> Seq<(UserId, int)> {
    flat_deltas(exps, group_expense_fn())
}

/// The net position of `u`: what `u` paid minus the shares `u` owes.
pub open spec fn group_net(exps: Seq<Expense>, u: UserId) -> int {
    net_of(group_deltas(exps), u)
}

/// The users the steps `ds` touch, in order of first appearance.
pub open spec fn step_keys(ds: Seq<(UserId, int)>) -> Seq<UserId>
    decreases ds.len(),
{
    if ds.len() == 0 {
        Seq::empty()
    } else {
        let r = step_keys(ds.drop_last());
        if r.contains(ds.last().0) {
            r
        } else {
            r.push(ds.last().0)
        }
    }
}

pub open spec fn is_debtor(ds: Seq<(UserId, int)>) -> spec_fn(UserId) -> bool {
    |k: UserId| net_of(ds, k) < 0
}

pub open spec fn is_creditor(ds: Seq<(UserId, int)>) -> spec_fn(UserId) -> bool {
    |k: UserId| net_of(ds, k) > 0
}

pub open spec fn debt_entry(ds: Seq<(UserId, int)>) -> spec_fn(UserId) -> (UserId, int) {
    |k: UserId| (k, -net_of(ds, k))
}

pub open spec fn credit_entry(ds: Seq<(UserId, int)>) -> spec_fn(UserId) -> (UserId, int) {
    |k: UserId| (k, net_of(ds, k))
}

/// The debtors (negative net position), in ascending id order, each with
/// the amount they have to pay.
pub open spec fn debtors_of(ds: Seq<(UserId, int)>) -> Seq<(UserId, int)> {
    sorted_ids(step_keys(ds).filter(is_debtor(ds))).map_values(debt_entry(ds))
}

/// The creditors (positive net position), in ascending id order, each with
/// the amount they are to receive.
pub open spec fn creditors_of(ds: Seq<(UserId, int)>) -> Seq<(UserId, int)> {
    sorted_ids(step_keys(ds).filter(is_creditor(ds))).map_values(credit_entry(ds))
}

/// Greedy settlement: the first debtor pays the first creditor as much as
/// both allow; whoever is then settled leaves the queue.
pub open spec fn settle(debtors: Seq<(UserId, int)>, creditors: Seq<(UserId, int)>) -> Seq<
    (UserId, UserId, int),
>
    decreases debtors.len() + creditors.len(),
{
    if debtors.len() == 0 || creditors.len() == 0 {
        Seq::empty()
    } else {
        let d = debtors[0];
        let c = creditors[0];
        let paid = if d.1 <= c.1 {
            d.1
        } else {
            c.1
        };
        let rest_d = if d.1 - paid == 0 {
            debtors.drop_first()
        } else {
            debtors.update(0, (d.0, d.1 - paid))
        };
        let rest_c = if c.1 - paid == 0 {
            creditors.drop_first()
        } else {
            creditors.update(0, (c.0, c.1 - paid))
        };
        seq![(d.0, c.0, paid)] + settle(rest_d, rest_c)
    }
}

/// The settlement transfers of a group whose expenses are `exps`.
pub open spec fn group_settlement(exps: Seq<Expense>) -> Seq<(UserId, UserId, int)> {
    settle(debtors_of(group_deltas(exps)), creditors_of(group_deltas(exps)))
}

/// No step overflows, and no debt is `i64::MIN` (whose negation overflows).
pub open spec fn group_fits(exps: Seq<Expense>) -> bool {
    &&& prefixes_fit(group_deltas(exps))
    &&& forall|k: UserId| #[trigger] group_net(exps, k) != i64::MIN
}

/// The values of a list of amounts.
pub open spec fn amounts_view(s: Seq<(UserId, i64)>) -> Seq<(UserId, int)> {
    s.map_values(|p: (UserId, i64)| (p.0, p.1 as int))
}

/// The values of a list of transfers.
pub open spec fn transfers_view(s: Seq<GroupBalance>) -> Seq<(UserId, UserId, int)> {
    s.map_values(|b: GroupBalance| (b.from, b.to, b.amount as int))
}

/// Pays out the debts: repeatedly the first debtor pays the first creditor
/// as much as both allow, and whoever is settled leaves the queue.
pub fn settle_transfers(debtors: Vec<(UserId, i64)>, creditors: Vec<(UserId, i64)>) -> (res: Vec<
    GroupBalance,
>)
    requires
        forall|i: int| 0 <= i < debtors@.len() ==> #[trigger] debtors@[i].1 > 0,
        forall|i: int| 0 <= i < creditors@.len() ==> #[trigger] creditors@[i].1 > 0,
    ensures
        transfers_view(res@) == settle(amounts_view(debtors@), amounts_view(creditors@)),
{
    let ghost goal = settle(amounts_view(debtors@), amounts_view(creditors@));
    let mut debtors = debtors;
    let mut creditors = creditors;
    let mut transfers: Vec<GroupBalance> = Vec::new();
    let mut di: usize = 0;
    let mut ci: usize = 0;
    proof {
        assert(amounts_view(debtors@).skip(0) =~= amounts_view(debtors@));
        assert(amounts_view(creditors@).skip(0) =~= amounts_view(creditors@));
        assert(transfers_view(transfers@) + goal =~= goal);
    }
    while di < debtors.len() && ci < creditors.len()
        invariant
            di <= debtors@.len(),
            ci <= creditors@.len(),
            forall|i: int| di <= i < debtors@.len() ==> #[trigger] debtors@[i].1 > 0,
            forall|i: int| ci <= i < creditors@.len() ==> #[trigger] creditors@[i].1 > 0,
            transfers_view(transfers@) + settle(
                amounts_view(debtors@).skip(di as int),
                amounts_view(creditors@).skip(ci as int),
            ) == goal,
        decreases debtors@.len() - di + creditors@.len() - ci,
    {
        let ghost dd = amounts_view(debtors@).skip(di as int);
        let ghost cc = amounts_view(creditors@).skip(ci as int);
        let ghost tv = transfers_view(transfers@);
        let (d_id, d_amt) = debtors[di];
        let (c_id, c_amt) = creditors[ci];
        let paid = if d_amt <= c_amt {
            d_amt
        } else {
            c_amt
        };
        transfers.push(GroupBalance { from: d_id, to: c_id, amount: paid });
        debtors.set(di, (d_id, d_amt - paid));
        creditors.set(ci, (c_id, c_amt - paid));
        let ghost rest_d = if d_amt - paid == 0 {
            dd.drop_first()
        } else {
            dd.update(0, (d_id, d_amt - paid))
        };
        let ghost rest_c = if c_amt - paid == 0 {
            cc.drop_first()
        } else {
            cc.update(0, (c_id, c_amt - paid))
        };
        proof {
            assert(dd[0] == (d_id, d_amt as int));
            assert(cc[0] == (c_id, c_amt as int));
            assert(settle(dd, cc) == seq![(d_id, c_id, paid as int)] + settle(rest_d, rest_c));
            assert(transfers_view(transfers@) =~= tv.push((d_id, c_id, paid as int)));
        }
        if debtors[di].1 == 0 {
            di = di + 1;
        }
        if creditors[ci].1 == 0 {
            ci = ci + 1;
        }
        proof {
            assert(amounts_view(debtors@).skip(di as int) =~= rest_d);
            assert(amounts_view(creditors@).skip(ci as int) =~= rest_c);
            assert(transfers_view(transfers@) + settle(rest_d, rest_c) =~= tv + settle(dd, cc));
        }
    }
    proof {
        let dd = amounts_view(debtors@).skip(di as int);
        let cc = amounts_view(creditors@).skip(ci as int);
        assert(dd.len() == 0 || cc.len() == 0);
        assert(transfers_view(transfers@) + settle(dd, cc) =~= transfers_view(transfers@));
    }
    transfers
}

/// The net position of every user the expenses touch.
fn group_net_positions(expenses: &Vec<Expense>) -> (net: HashMap<UserId, i64>)
    requires
        participant_counts_fit(expenses@),
        prefixes_fit(group_deltas(expenses@)),
    ensures
        forall|k: UserId| stored(net@, k) == group_net(expenses@, k),
{
    let ghost exps = expenses@;
    let ghost f = group_expense_fn();
    let ghost full = group_deltas(exps);
    let mut net: HashMap<UserId, i64> = HashMap::new();
    let mut idx: usize = 0;
    proof {
        assert(exps.take(0) =~= Seq::<Expense>::empty());
    }
    while idx < expenses.len()
        invariant
            exps == expenses@,
            f == group_expense_fn(),
            full == group_deltas(exps),
            idx <= exps.len(),
            participant_counts_fit(exps),
            prefixes_fit(full),
            forall|k: UserId| stored(net@, k) == net_of(flat_deltas(exps.take(idx as int), f), k),
        decreases exps.len() - idx,
    {
        let e = &expenses[idx];
        let ghost before = flat_deltas(exps.take(idx as int), f);
        proof {
            lemma_flat_push(exps, f, idx as int);
            lemma_flat_prefix(exps, f, idx + 1);
        }
        if e.participants.len() > 0 {
            let sorted = sort_ids(&e.participants);
            let n = sorted.len();
            proof {
                lemma_sorted_len(*e);
                assert(exps[idx as int].participants@.len() <= i64::MAX);
            }
            let shares = split_shares(e.amount, n);
            let ghost whole = before + group_steps(*e, (n + 1) as nat);
            proof {
                assert(f(*e) == group_steps(*e, (n + 1) as nat));
                assert(full.take(whole.len() as int) == whole);
                let step = group_step_at(*e, 0);
                assert(before + group_steps(*e, 1) =~= before.push(step));
                assert(full.take(before.len() + 1int) =~= before.push(step));
                assert(i64::MIN <= net_of(full.take(before.len() + 1int), step.0) <= i64::MAX);
                lemma_net_of_push(before, step, step.0);
            }
            let ghost net0 = net@;
            adjust_entry(&mut net, e.payer, e.amount, false);
            proof {
                let step = group_step_at(*e, 0);
                assert forall|k: UserId|
                    stored(net@, k) == net_of(before + group_steps(*e, 1), k) by {
                    lemma_net_of_push(before, step, k);
                }
            }
            let mut i: usize = 0;
            while i < n
                invariant
                    exps == expenses@,
                    0 <= idx < exps.len(),
                    *e == exps[idx as int],
                    sorted@ == participants_sorted(*e),
                    n == sorted@.len(),
                    n == e.participants@.len(),
                    n > 0,
                    shares@.len() == n,
                    forall|t: int| 0 <= t < n ==> shares@[t] == share_of(*e, t),
                    i <= n,
                    full == group_deltas(exps),
                    prefixes_fit(full),
                    whole == before + group_steps(*e, (n + 1) as nat),
                    full.take(whole.len() as int) == whole,
                    whole.len() <= full.len(),
                    forall|k: UserId|
                        stored(net@, k) == net_of(before + group_steps(*e, (i + 1) as nat), k),
                decreases n - i,
            {
                let p = sorted[i];
                let s = shares[i];
                let ghost prefix = before + group_steps(*e, (i + 1) as nat);
                let ghost step = group_step_at(*e, i + 1);
                proof {
                    assert(before + group_steps(*e, (i + 2) as nat) =~= prefix.push(step));
                    let m = prefix.len() + 1int;
                    assert(full.take(m) =~= whole.take(m));
                    assert(whole.take(m) =~= prefix.push(step));
                    assert(i64::MIN <= net_of(full.take(m), step.0) <= i64::MAX);
                    lemma_net_of_push(prefix, step, step.0);
                }
                adjust_entry(&mut net, p, s, true);
                proof {
                    assert forall|k: UserId|
                        stored(net@, k) == net_of(
                            before + group_steps(*e, (i + 2) as nat),
                            k,
                        ) by {
                        lemma_net_of_push(prefix, step, k);
                    }
                }
                i = i + 1;
            }
            proof {
                assert(group_steps(*e, (i + 1) as nat) == f(*e));
            }
        } else {
            proof {
                assert(f(*e) == Seq::<(UserId, int)>::empty());
                assert(before + f(*e) =~= before);
            }
        }
        idx = idx + 1;
    }
    proof {
        assert(exps.take(exps.len() as int) =~= exps);
    }
    net
}

/// The debtors (`debt`) or creditors of the positions `net`, in ascending
/// id order, with the amount each pays or receives.
fn side_of(net: &HashMap<UserId, i64>, debt: bool, Ghost(ds): Ghost<Seq<(UserId, int)>>) -> (side:
    Vec<(UserId, i64)>)
    requires
        forall|k: UserId| stored(net@, k) == net_of(ds, k),
        forall|k: UserId| #[trigger] net_of(ds, k) != i64::MIN,
    ensures
        amounts_view(side@) == if debt {
            debtors_of(ds)
        } else {
            creditors_of(ds)
        },
        forall|i: int| 0 <= i < side@.len() ==> #[trigger] side@[i].1 > 0,
{
    let ghost pred = if debt {
        is_debtor(ds)
    } else {
        is_creditor(ds)
    };
    let ghost m = net@;
    let mut ids: Vec<UserId> = Vec::new();
    let iter = net.iter();
    let ghost all = iter.remaining();
    proof {
        lemma_iter_keys_distinct(m, all);
    }
    for kv in it: iter
        invariant
            it.seq() == all,
            m == net@,
            forall|i: int| 0 <= i < all.len() ==> m.contains_key(*all[i].0) && m[*all[i].0] == *all[i].1,
            forall|i: int, j: int|
                0 <= i < all.len() && 0 <= j < all.len() && i != j ==> *all[i].0 != *all[j].0,
            forall|k: UserId| stored(m, k) == net_of(ds, k),
            pred == if debt {
                is_debtor(ds)
            } else {
                is_creditor(ds)
            },
            ids@.no_duplicates(),
            forall|i: int| 0 <= i < ids@.len() ==> pred(#[trigger] ids@[i]),
            forall|i: int, t: int|
                0 <= i < ids@.len() && it.index() <= t < all.len() ==> ids@[i] != *all[t].0,
            forall|t: int| 0 <= t < it.index() && pred(*all[t].0) ==> ids@.contains(*all[t].0),
    {
        let (k, v) = kv;
        let ghost idx = it.index();
        let ghost before = ids@;
        proof {
            assert(all[idx] == (k, v));
            assert(stored(m, *k) == *v);
            assert(stored(m, *k) == net_of(ds, *k));
            assert forall|i: int| 0 <= i < before.len() implies before[i] != *k by {
                assert(before[i] != *all[idx].0);
            }
        }
        if (debt && *v < 0) || (!debt && *v > 0) {
            ids.push(*k);
            proof {
                assert(ids@[ids@.len() - 1] == *k);
            }
        }
        proof {
            assert forall|t: int| 0 <= t < idx + 1 && pred(*all[t].0) implies ids@.contains(*all[t].0) by {
                if t < idx {
                    let i = choose|i: int| 0 <= i < before.len() && before[i] == *all[t].0;
                    assert(ids@[i] == before[i]);
                } else {
                    assert(ids@[ids@.len() - 1] == *all[t].0);
                }
            }
        }
    }
    proof {
        assert forall|x: UserId| #[trigger] ids@.contains(x) <==> pred(x) by {
            if ids@.contains(x) {
                let i = choose|i: int| 0 <= i < ids@.len() && ids@[i] == x;
                assert(pred(ids@[i]));
            }
            if pred(x) {
                assert(stored(m, x) == net_of(ds, x));
                assert(stored(m, x) != 0);
                assert(m.contains_key(x));
                assert(all.contains((&x, &m[x])));
                let t = choose|t: int| 0 <= t < all.len() && all[t] == (&x, &m[x]);
                assert(*all[t].0 == x);
            }
        }
        assert forall|k: UserId| #[trigger] pred(k) implies net_of(ds, k) != 0 by {}
        lemma_picked_sorted(ds, pred, ids@);
    }
    let sorted = sort_ids(&ids);
    proof {
        lemma_id_leq_total();
        ids@.lemma_sort_by_ensures(id_leq());
        assert forall|x: UserId| #[trigger] sorted@.contains(x) implies pred(x) by {
            assert(sorted@.to_multiset().count(x) > 0);
            assert(ids@.contains(x));
        }
    }
    let mut side: Vec<(UserId, i64)> = Vec::new();
    let mut i: usize = 0;
    while i < sorted.len()
        invariant
            forall|k: UserId| stored(net@, k) == net_of(ds, k),
            forall|k: UserId| #[trigger] net_of(ds, k) != i64::MIN,
            pred == if debt {
                is_debtor(ds)
            } else {
                is_creditor(ds)
            },
            sorted@ == sorted_ids(step_keys(ds).filter(pred)),
            forall|x: UserId| #[trigger] sorted@.contains(x) ==> pred(x),
            i <= sorted@.len(),
            side@.len() == i,
            forall|t: int| 0 <= t < i ==> #[trigger] side@[t].1 > 0,
            forall|t: int| 0 <= t < i ==> (#[trigger] side@[t]).0 == sorted@[t] && side@[t].1 == (if debt {
                -net_of(ds, sorted@[t])
            } else {
                net_of(ds, sorted@[t])
            }),
        decreases sorted@.len() - i,
    {
        let k = sorted[i];
        let v = lookup(net, k);
        proof {
            assert(sorted@.contains(k));
        }
        let amt = if debt {
            0 - v
        } else {
            v
        };
        side.push((k, amt));
        i = i + 1;
    }
    proof {
        let target = if debt {
            debtors_of(ds)
        } else {
            creditors_of(ds)
        };
        assert(amounts_view(side@) =~= target);
    }
    side
}

/// The settlement transfers of a group: every member's net position (what
/// they paid minus their shares, over all the group's expenses) is settled by
/// debtors (in ascending id order) paying creditors (in ascending id order)
/// greedily.
pub fn group_balance_overview(expenses: &Vec<Expense>) -> (res: Vec<GroupBalance>)
    requires
        participant_counts_fit(expenses@),
        group_fits(expenses@),
    ensures
        transfers_view(res@) == group_settlement(expenses@),
{
    let net = group_net_positions(expenses);
    let ghost ds = group_deltas(expenses@);
    proof {
        assert forall|k: UserId| #[trigger] net_of(ds, k) != i64::MIN by {
            assert(group_net(expenses@, k) != i64::MIN);
        }
    }
    let debtors = side_of(&net, true, Ghost(ds));
    let creditors = side_of(&net, false, Ghost(ds));
    settle_transfers(debtors, creditors)
}

/// Group positions only depend on what the expenses share.
pub proof fn lemma_same_effects_group(a: Seq<Expense>, b: Seq<Expense>)
    requires
        same_effects(a, b),
    ensures
        group_deltas(a) == group_deltas(b),
{
    let f = group_expense_fn();
    assert forall|i: int| 0 <= i < a.len() implies f(a[i]) == f(b[i]) by {
        assert(same_effect(a[i], b[i]));
        assert(participants_sorted(a[i]) == participants_sorted(b[i]));
        let n = a[i].participants@.len();
        assert(group_steps(a[i], n + 1) =~= group_steps(b[i], n + 1));
    }
    lemma_flat_congruent(a, b, f);
}

/// Two expenses that a group overview cannot tell apart: the same payer, the
/// same amount, and the same participants in any order.
pub open spec fn same_in_group(a: Expense, b: Expense) -> bool {
    &&& a.payer == b.payer
    &&& a.amount == b.amount
    &&& a.participants@.to_multiset() == b.participants@.to_multiset()
}

/// Group steps only depend on the payer, the amount and the participants
/// taken in any order.
pub proof fn lemma_same_in_group_deltas(a: Seq<Expense>, b: Seq<Expense>)
    requires
        a.len() == b.len(),
        forall|i: int| 0 <= i < a.len() ==> #[trigger] same_in_group(a[i], b[i]),
    ensures
        group_deltas(a) == group_deltas(b),
{
    let f = group_expense_fn();
    assert forall|i: int| 0 <= i < a.len() implies f(a[i]) == f(b[i]) by {
        assert(same_in_group(a[i], b[i]));
        let x = a[i];
        let y = b[i];
        lemma_id_leq_total();
        y.participants@.lemma_sort_by_ensures(id_leq());
        lemma_sorted_ids_unique(x.participants@, participants_sorted(y));
        assert(x.participants@.len() == x.participants@.to_multiset().len());
        assert(y.participants@.len() == y.participants@.to_multiset().len());
        let n = x.participants@.len();
        assert(group_steps(x, n + 1) =~= group_steps(y, n + 1));
    }
    lemma_flat_congruent(a, b, f);
}

/// The net position of `x` after the first `k + 1` group steps of `e`: the
/// amount if `x` paid, less `x`'s share if `x` is among the first `k`
/// participants in id order (at position `j`, or nowhere when `j` is -1).
proof fn lemma_group_steps_net(e: Expense, x: UserId, j: int, k: nat)
    requires
        k <= participants_sorted(e).len(),
        -1 <= j < participants_sorted(e).len(),
        j >= 0 ==> participants_sorted(e)[j] == x,
        forall|i: int| 0 <= i < participants_sorted(e).len() && i != j ==> participants_sorted(e)[i] != x,
    ensures
        net_of(group_steps(e, k + 1), x) == (if x == e.payer {
            e.amount as int
        } else {
            0
        }) - (if 0 <= j < k {
            share_of(e, j)
        } else {
            0
        }),
    decreases k,
{
    if k == 0 {
        assert(group_steps(e, 1) =~= Seq::<(UserId, int)>::empty().push(group_step_at(e, 0)));
        lemma_net_of_push(Seq::<(UserId, int)>::empty(), group_step_at(e, 0), x);
    } else {
        lemma_group_steps_net(e, x, j, (k - 1) as nat);
        let step = group_step_at(e, k as int);
        assert(group_steps(e, k + 1) =~= group_steps(e, k).push(step));
        lemma_net_of_push(group_steps(e, k), step, x);
    }
}

/// The sorted participants of an expense whose participants do not repeat
/// do not repeat either, and hold the same users.
proof fn lemma_sorted_distinct(e: Expense)
    requires
        e.participants@.no_duplicates(),
    ensures
        participants_sorted(e).no_duplicates(),
        participants_sorted(e).len() == e.participants@.len(),
        forall|x: UserId| #[trigger] participants_sorted(e).contains(x) <==> e.participants@.contains(x),
{
    let ps = e.participants@;
    let sorted = participants_sorted(e);
    lemma_id_leq_total();
    ps.lemma_sort_by_ensures(id_leq());
    assert(sorted.to_multiset().len() == sorted.len());
    assert(ps.to_multiset().len() == ps.len());
    ps.lemma_multiset_has_no_duplicates();
    assert forall|x: UserId| sorted.to_multiset().contains(x) implies sorted.to_multiset().count(x) == 1 by {
        assert(ps.to_multiset().contains(x));
    }
    sorted.lemma_multiset_has_no_duplicates_conv();
    assert forall|x: UserId| #[trigger] sorted.contains(x) <==> ps.contains(x) by {
        assert(sorted.to_multiset().count(x) == ps.to_multiset().count(x));
    }
}

/// The net positions one expense with participants (none twice) gives in a
/// group: the payer is credited the amount, and each participant is
/// debited their share (the floor of the average or one more, by position
/// in id order); everyone else is untouched.
pub proof fn law_group_net_of_one_expense(e: Expense, x: UserId)
    requires
        e.participants@.len() > 0,
        e.participants@.no_duplicates(),
    ensures
        !e.participants@.contains(x) ==> group_net(seq![e], x) == if x == e.payer {
            e.amount as int
        } else {
            0
        },
        e.participants@.contains(x) ==> exists|j: int|
            0 <= j < e.participants@.len() && sorted_ids(e.participants@)[j] == x && group_net(
                seq![e],
                x,
            ) == (if x == e.payer {
                e.amount as int
            } else {
                0
            }) - share_at(e.amount as int, e.participants@.len() as int, j),
{
    let n = e.participants@.len();
    let sorted = participants_sorted(e);
    lemma_sorted_distinct(e);
    let exps = seq![e];
    assert(exps.drop_last() =~= Seq::<Expense>::empty());
    assert(group_deltas(Seq::<Expense>::empty()) =~= Seq::<(UserId, int)>::empty());
    assert(group_deltas(exps) =~= group_steps(e, n + 1));
    if e.participants@.contains(x) {
        assert(sorted.contains(x));
        let j = choose|j: int| 0 <= j < sorted.len() && sorted[j] == x;
        lemma_group_steps_net(e, x, j, n);
    } else {
        assert forall|i: int| 0 <= i < sorted.len() implies sorted[i] != x by {
            assert(sorted.contains(sorted[i]));
        }
        lemma_group_steps_net(e, x, -1, n);
    }
}

/// An expense without participants moves no net position (and no user
/// balance): there is nobody to share it.
pub proof fn law_expense_without_participants(e: Expense, user: UserId, x: UserId)
    requires
        e.participants@.len() == 0,
    ensures
        group_net(seq![e], x) == 0,
        user_balance(user, seq![e], x) == 0,
{
    let exps = seq![e];
    assert(exps.drop_last() =~= Seq::<Expense>::empty());
    assert(group_deltas(Seq::<Expense>::empty()) =~= Seq::<(UserId, int)>::empty());
    assert(user_deltas(user, Seq::<Expense>::empty()) =~= Seq::<(UserId, int)>::empty());
    assert(group_deltas(exps) =~= Seq::<(UserId, int)>::empty());
    assert(user_deltas(user, exps) =~= Seq::<(UserId, int)>::empty());
}

proof fn lemma_flat_concat(a: Seq<Expense>, b: Seq<Expense>, f: spec_fn(Expense) -> Seq<(UserId, int)>)
    ensures
        flat_deltas(a + b, f) == flat_deltas(a, f) + flat_deltas(b, f),
    decreases b.len(),
{
    if b.len() == 0 {
        assert(a + b =~= a);
        assert(flat_deltas(a, f) + flat_deltas(b, f) =~= flat_deltas(a, f));
    } else {
        assert((a + b).drop_last() =~= a + b.drop_last());
        lemma_flat_concat(a, b.drop_last(), f);
        assert(flat_deltas(a + b, f) =~= flat_deltas(a, f) + flat_deltas(b, f));
    }
}

/// Balances and net positions over two lists of expenses, one after the
/// other, are the sums of those over each list.
pub proof fn law_balances_add_up(a: Seq<Expense>, b: Seq<Expense>, user: UserId, x: UserId)
    ensures
        user_balance(user, a + b, x) == user_balance(user, a, x) + user_balance(user, b, x),
        group_net(a + b, x) == group_net(a, x) + group_net(b, x),
{
    lemma_flat_concat(a, b, user_expense_fn(user));
    lemma_flat_concat(a, b, group_expense_fn());
    lemma_net_of_concat(user_deltas(user, a), user_deltas(user, b), x);
    lemma_net_of_concat(group_deltas(a), group_deltas(b), x);
}

// ---------------------------------------------------------------------------
// Checking ahead that a balance computation stays within `i64`
// ---------------------------------------------------------------------------

/// The values of a list of steps.
pub open spec fn steps_view(s: Seq<(UserId, i128)>) -> Seq<(UserId, int)> {
    s.map_values(|p: (UserId, i128)| (p.0, p.1 as int))
}

/// Whether every running balance along `ds` fits in an `i64`; when it
/// does, also whether no final balance is `i64::MIN`.
fn check_steps(ds: &Vec<(UserId, i128)>) -> (r: (bool, bool))
    requires
        steps_bounded(ds@),
    ensures
        r.0 == prefixes_fit(steps_view(ds@)),
        r.0 ==> (r.1 <==> forall|k: UserId| #[trigger] net_of(steps_view(ds@), k) != i64::MIN),
{
    let ghost v = steps_view(ds@);
    let mut net: HashMap<UserId, i64> = HashMap::new();
    let mut i: usize = 0;
    proof {
        assert forall|m: int, k: UserId| 0 <= m <= 0 implies i64::MIN <= #[trigger] net_of(
            v.take(m),
            k,
        ) <= i64::MAX by {
            assert(v.take(m) =~= Seq::<(UserId, int)>::empty());
        }
    }
    while i < ds.len()
        invariant
            v == steps_view(ds@),
            i <= ds@.len(),
            forall|j: int| 0 <= j < ds@.len() ==> -0x1_0000_0000_0000_0000 <= #[trigger] ds@[j].1
                <= 0x1_0000_0000_0000_0000,
            forall|k: UserId| stored(net@, k) == net_of(v.take(i as int), k),
            forall|m: int, k: UserId|
                0 <= m <= i ==> i64::MIN <= #[trigger] net_of(v.take(m), k) <= i64::MAX,
        decreases ds@.len() - i,
    {
        let (k, d) = ds[i];
        let cur = lookup(&net, k);
        let next: i128 = cur as i128 + d;
        proof {
            assert(v.take(i + 1) =~= v.take(i as int).push(v[i as int]));
            lemma_net_of_push(v.take(i as int), v[i as int], k);
        }
        if next < -0x8000_0000_0000_0000i128 || next > 0x7fff_ffff_ffff_ffffi128 {
            proof {
                assert(!(i64::MIN <= net_of(v.take(i + 1), k) <= i64::MAX));
            }
            return (false, false);
        }
        let ghost pre = net@;
        net.insert(k, next as i64);
        proof {
            assert forall|kk: UserId| stored(net@, kk) == net_of(v.take(i + 1), kk) by {
                lemma_net_of_push(v.take(i as int), v[i as int], kk);
                assert(stored(pre, kk) == net_of(v.take(i as int), kk));
                if kk != k {
                    assert(net@.dom().contains(kk) == pre.dom().contains(kk));
                    assert(stored(net@, kk) == stored(pre, kk));
                }
            }
            assert forall|m: int, kk: UserId| 0 <= m <= i + 1 implies i64::MIN <= #[trigger] net_of(
                v.take(m),
                kk,
            ) <= i64::MAX by {
                if m == i + 1 {
                    lemma_net_of_push(v.take(i as int), v[i as int], kk);
                    assert(stored(net@, kk) == net_of(v.take(i + 1), kk));
                }
            }
        }
        i = i + 1;
    }
    proof {
        assert(v.take(i as int) =~= v);
    }
    let mut no_min = true;
    let ghost m = net@;
    let iter = net.iter();
    let ghost all = iter.remaining();
    for kv in it: iter
        invariant
            it.seq() == all,
            m == net@,
            forall|i: int| 0 <= i < all.len() ==> m.contains_key(*all[i].0) && m[*all[i].0] == *all[i].1,
            forall|k: UserId| stored(m, k) == net_of(v, k),
            no_min <==> forall|t: int| 0 <= t < it.index() ==> *all[t].1 != i64::MIN,
    {
        let (_k, x) = kv;
        proof {
            assert(all[it.index()] == (_k, x));
        }
        if *x == -0x8000_0000_0000_0000i64 {
            no_min = false;
        }
    }
    proof {
        if no_min {
            assert forall|k: UserId| #[trigger] net_of(v, k) != i64::MIN by {
                if m.contains_key(k) {
                    assert(all.contains((&k, &m[k])));
                    let t = choose|t: int| 0 <= t < all.len() && all[t] == (&k, &m[k]);
                    assert(*all[t].1 != i64::MIN);
                }
            }
        } else {
            let t = choose|t: int| 0 <= t < all.len() && *all[t].1 == i64::MIN;
            assert(stored(m, *all[t].0) == i64::MIN);
            assert(net_of(v, *all[t].0) == i64::MIN);
        }
    }
    (true, no_min)
}

/// Step values stay within what an `i64` share or its negation can be.
pub open spec fn steps_bounded(s: Seq<(UserId, i128)>) -> bool {
    forall|i: int| 0 <= i < s.len() ==> -0x1_0000_0000_0000_0000 <= #[trigger] s[i].1
        <= 0x1_0000_0000_0000_0000
}

/// The steps of all expenses for `user` (see `user_deltas`).
fn user_step_list(user: UserId, expenses: &Vec<Expense>) -> (r: Vec<(UserId, i128)>)
    requires
        participant_counts_fit(expenses@),
    ensures
        steps_view(r@) == user_deltas(user, expenses@),
        steps_bounded(r@),
{
    let ghost exps = expenses@;
    let ghost f = user_expense_fn(user);
    let mut r: Vec<(UserId, i128)> = Vec::new();
    let mut idx: usize = 0;
    proof {
        assert(exps.take(0) =~= Seq::<Expense>::empty());
        assert(steps_view(r@) =~= Seq::<(UserId, int)>::empty());
    }
    while idx < expenses.len()
        invariant
            exps == expenses@,
            f == user_expense_fn(user),
            idx <= exps.len(),
            participant_counts_fit(exps),
            steps_view(r@) == flat_deltas(exps.take(idx as int), f),
            steps_bounded(r@),
        decreases exps.len() - idx,
    {
        let e = &expenses[idx];
        let ghost before = steps_view(r@);
        proof {
            lemma_flat_push(exps, f, idx as int);
        }
        if e.group_id.is_none() && e.participants.len() > 0 {
            let sorted = sort_ids(&e.participants);
            let n = sorted.len();
            proof {
                lemma_sorted_len(*e);
                assert(exps[idx as int].participants@.len() <= i64::MAX);
            }
            let shares = split_shares(e.amount, n);
            let mut i: usize = 0;
            proof {
                assert(before + user_steps(user, *e, 0) =~= before);
            }
            while i < n
                invariant
                    *e == exps[idx as int],
                    counts_for_user(*e),
                    sorted@ == participants_sorted(*e),
                    n == sorted@.len(),
                    shares@.len() == n,
                    forall|t: int| 0 <= t < n ==> shares@[t] == share_of(*e, t),
                    i <= n,
                    steps_view(r@) == before + user_steps(user, *e, i as nat),
                    steps_bounded(r@),
                decreases n - i,
            {
                let p = sorted[i];
                let sh = shares[i];
                let step: (UserId, i128) = if p == e.payer {
                    (p, 0)
                } else if e.payer == user {
                    (p, sh as i128)
                } else if p == user {
                    (e.payer, -(sh as i128))
                } else {
                    (p, 0)
                };
                let ghost prev = r@;
                r.push(step);
                proof {
                    assert(step.0 == user_step_at(user, *e, i as int).0);
                    assert(step.1 == user_step_at(user, *e, i as int).1);
                    assert(before + user_steps(user, *e, (i + 1) as nat) =~= (before + user_steps(
                        user,
                        *e,
                        i as nat,
                    )).push(user_step_at(user, *e, i as int)));
                    assert(steps_view(r@) =~= steps_view(prev).push(user_step_at(user, *e, i as int)));
                }
                i = i + 1;
            }
            proof {
                assert(f(*e) == user_steps(user, *e, n as nat));
            }
        } else {
            proof {
                assert(f(*e) == Seq::<(UserId, int)>::empty());
                assert(before + f(*e) =~= before);
            }
        }
        idx = idx + 1;
    }
    proof {
        assert(exps.take(exps.len() as int) =~= exps);
    }
    r
}

/// The group steps of all expenses (see `group_deltas`).
fn group_step_list(expenses: &Vec<Expense>) -> (r: Vec<(UserId, i128)>)
    requires
        participant_counts_fit(expenses@),
    ensures
        steps_view(r@) == group_deltas(expenses@),
        steps_bounded(r@),
{
    let ghost exps = expenses@;
    let ghost f = group_expense_fn();
    let mut r: Vec<(UserId, i128)> = Vec::new();
    let mut idx: usize = 0;
    proof {
        assert(exps.take(0) =~= Seq::<Expense>::empty());
        assert(steps_view(r@) =~= Seq::<(UserId, int)>::empty());
    }
    while idx < expenses.len()
        invariant
            exps == expenses@,
            f == group_expense_fn(),
            idx <= exps.len(),
            participant_counts_fit(exps),
            steps_view(r@) == flat_deltas(exps.take(idx as int), f),
            steps_bounded(r@),
        decreases exps.len() - idx,
    {
        let e = &expenses[idx];
        let ghost before = steps_view(r@);
        proof {
            lemma_flat_push(exps, f, idx as int);
        }
        if e.participants.len() > 0 {
            let sorted = sort_ids(&e.participants);
            let n = sorted.len();
            proof {
                lemma_sorted_len(*e);
                assert(exps[idx as int].participants@.len() <= i64::MAX);
            }
            let shares = split_shares(e.amount, n);
            let ghost prev0 = r@;
            r.push((e.payer, e.amount as i128));
            proof {
                assert(before + group_steps(*e, 1) =~= before.push(group_step_at(*e, 0)));
                assert(steps_view(r@) =~= steps_view(prev0).push(group_step_at(*e, 0)));
            }
            let mut i: usize = 0;
            while i < n
                invariant
                    *e == exps[idx as int],
                    e.participants@.len() > 0,
                    sorted@ == participants_sorted(*e),
                    n == sorted@.len(),
                    shares@.len() == n,
                    forall|t: int| 0 <= t < n ==> shares@[t] == share_of(*e, t),
                    i <= n,
                    steps_view(r@) == before + group_steps(*e, (i + 1) as nat),
                    steps_bounded(r@),
                decreases n - i,
            {
                let p = sorted[i];
                let sh = shares[i];
                let ghost prev = r@;
                r.push((p, -(sh as i128)));
                proof {
                    assert(before + group_steps(*e, (i + 2) as nat) =~= (before + group_steps(
                        *e,
                        (i + 1) as nat,
                    )).push(group_step_at(*e, i + 1)));
                    assert(steps_view(r@) =~= steps_view(prev).push(group_step_at(*e, i + 1)));
                }
                i = i + 1;
            }
            proof {
                assert(f(*e) == group_steps(*e, (n + 1) as nat));
            }
        } else {
            proof {
                assert(f(*e) == Seq::<(UserId, int)>::empty());
                assert(before + f(*e) =~= before);
            }
        }
        idx = idx + 1;
    }
    proof {
        assert(exps.take(exps.len() as int) =~= exps);
    }
    r
}

/// Whether the participant counts of all expenses fit in an `i64`.
fn participant_counts_fit_exec(expenses: &Vec<Expense>) -> (b: bool)
    ensures
        b == participant_counts_fit(expenses@),
{
    for i in 0..expenses.len()
        invariant
            forall|j: int| 0 <= j < i ==> #[trigger] expenses@[j].participants@.len() <= i64::MAX,
    {
        let n: u64 = expenses[i].participants.len() as u64;
        if n > 0x7fff_ffff_ffff_ffffu64 {
            return false;
        }
    }
    true
}

/// Whether `user_non_group_balances(user_id, expenses)` can run: no
/// running balance leaves the range of `i64`.
pub fn user_balances_fit(user_id: UserId, expenses: &Vec<Expense>) -> (b: bool)
    ensures
        b == (participant_counts_fit(expenses@) && prefixes_fit(user_deltas(user_id, expenses@))),
{
    if !participant_counts_fit_exec(expenses) {
        return false;
    }
    let steps = user_step_list(user_id, expenses);
    let (fits, _) = check_steps(&steps);
    fits
}

/// Whether `group_balance_overview(expenses)` can run: no running balance
/// leaves the range of `i64`, and no final balance is `i64::MIN`.
pub fn group_balances_fit(expenses: &Vec<Expense>) -> (b: bool)
    ensures
        b == (participant_counts_fit(expenses@) && group_fits(expenses@)),
{
    if !participant_counts_fit_exec(expenses) {
        return false;
    }
    let steps = group_step_list(expenses);
    let (fits, no_min) = check_steps(&steps);
    proof {
        let ds = steps_view(steps@);
        if fits {
            if no_min {
                assert forall|k: UserId| #[trigger] group_net(expenses@, k) != i64::MIN by {
                    assert(net_of(ds, k) != i64::MIN);
                }
            } else {
                let k = choose|k: UserId| !(#[trigger] net_of(ds, k) != i64::MIN);
                assert(group_net(expenses@, k) == i64::MIN);
            }
        }
    }
    fits && no_min
}

} // verus!
