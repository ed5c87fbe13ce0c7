//! Why the group overview settles every debt: paying the transfers moves
//! each member's balance by exactly their net position.
use vstd::prelude::*;
use crate::balance::{
    credit_entry, creditors_of, debt_entry, debtors_of, expense_group_deltas, group_deltas,
    group_expense_fn, group_net, group_settlement, group_step_at, group_steps, is_creditor,
    is_debtor, lemma_same_in_group_deltas, lists_balances, net_of, participants_sorted,
    same_in_group, settle, share_of, step_keys, user_balance, user_deltas, user_expense_fn,
    user_step_at, user_steps,
};
use crate::api::BalanceEntry;
use crate::split::{
    id_leq, lemma_id_leq_total, lemma_sorted_ids_unique, law_shares_sum_to_amount, sorted_ids,
    split_prefix, split_spec, sum,
};
use crate::types::{Expense, UserId};

verus! {

broadcast use vstd::seq_lib::group_to_multiset_ensures;

/// The sum of the amounts of `s`.
pub open spec fn total(s: Seq<(UserId, int)>) -> int
    decreases s.len(),
{
    if s.len() == 0 {
        0
    } else {
        total(s.drop_last()) + s.last().1
    }
}

/// What the transfers `ts` move to `u` (received minus paid).
pub open spec fn flow(ts: Seq<(UserId, UserId, int)>, u: UserId) -> int
    decreases ts.len(),
{
    if ts.len() == 0 {
        0
    } else {
        let t = ts.last();
        flow(ts.drop_last(), u) + (if t.1 == u {
            t.2
        } else {
            0
        }) - (if t.0 == u {
            t.2
        } else {
            0
        })
    }
}

/// Every amount is positive.
pub open spec fn all_positive(s: Seq<(UserId, int)>) -> bool {
    forall|i: int| 0 <= i < s.len() ==> #[trigger] s[i].1 > 0
}

proof fn lemma_total_concat(a: Seq<(UserId, int)>, b: Seq<(UserId, int)>)
    ensures
        total(a + b) == total(a) + total(b),
    decreases b.len(),
{
    if b.len() > 0 {
        assert((a + b).drop_last() =~= a + b.drop_last());
        lemma_total_concat(a, b.drop_last());
    } else {
        assert(a + b =~= a);
    }
}

proof fn lemma_flow_concat(a: Seq<(UserId, UserId, int)>, b: Seq<(UserId, UserId, int)>, u: UserId)
    ensures
        flow(a + b, u) == flow(a, u) + flow(b, u),
    decreases b.len(),
{
    if b.len() > 0 {
        assert((a + b).drop_last() =~= a + b.drop_last());
        lemma_flow_concat(a, b.drop_last(), u);
    } else {
        assert(a + b =~= a);
    }
}

proof fn lemma_net_of_concat2(a: Seq<(UserId, int)>, b: Seq<(UserId, int)>, k: UserId)
    ensures
        net_of(a + b, k) == net_of(a, k) + net_of(b, k),
    decreases b.len(),
{
    if b.len() > 0 {
        assert((a + b).drop_last() =~= a + b.drop_last());
        lemma_net_of_concat2(a, b.drop_last(), k);
    } else {
        assert(a + b =~= a);
    }
}

proof fn lemma_positive_total(s: Seq<(UserId, int)>)
    requires
        all_positive(s),
    ensures
        s.len() > 0 ==> total(s) > 0,
        total(s) >= 0,
    decreases s.len(),
{
    if s.len() > 0 {
        assert(all_positive(s.drop_last()));
        lemma_positive_total(s.drop_last());
    }
}

/// Splits off the first entry of `s`, whose amount becomes `v`.
proof fn lemma_front(s: Seq<(UserId, int)>, v: int, u: UserId)
    requires
        s.len() > 0,
    ensures
        total(s.drop_first()) == total(s) - s[0].1,
        net_of(s.drop_first(), u) == net_of(s, u) - (if s[0].0 == u {
            s[0].1
        } else {
            0
        }),
        total(s.update(0, (s[0].0, v))) == total(s) - s[0].1 + v,
        net_of(s.update(0, (s[0].0, v)), u) == net_of(s, u) - (if s[0].0 == u {
            s[0].1 - v
        } else {
            0
        }),
{
    let head = seq![s[0]];
    let head2 = seq![(s[0].0, v)];
    assert(s =~= head + s.drop_first());
    assert(s.update(0, (s[0].0, v)) =~= head2 + s.drop_first());
    lemma_total_concat(head, s.drop_first());
    lemma_total_concat(head2, s.drop_first());
    lemma_net_of_concat2(head, s.drop_first(), u);
    lemma_net_of_concat2(head2, s.drop_first(), u);
    assert(head.drop_last() =~= Seq::<(UserId, int)>::empty());
    assert(head2.drop_last() =~= Seq::<(UserId, int)>::empty());
    reveal_with_fuel(total, 2);
    reveal_with_fuel(net_of, 2);
    assert(head.len() == 1 && head.last() == s[0]);
    assert(head2.len() == 1 && head2.last() == (s[0].0, v));
    assert(total(head) == s[0].1);
    assert(total(head2) == v);
    assert(net_of(head, u) == if s[0].0 == u {
        s[0].1
    } else {
        0
    });
    assert(net_of(head2, u) == if s[0].0 == u {
        v
    } else {
        0
    });
}

/// Greedy settlement of balanced queues pays every creditor and collects
/// from every debtor exactly their amount.
pub proof fn lemma_settle_flow(debtors: Seq<(UserId, int)>, creditors: Seq<(UserId, int)>, u: UserId)
    requires
        all_positive(debtors),
        all_positive(creditors),
        total(debtors) == total(creditors),
    ensures
        flow(settle(debtors, creditors), u) == net_of(creditors, u) - net_of(debtors, u),
    decreases debtors.len() + creditors.len(),
{
    lemma_positive_total(debtors);
    lemma_positive_total(creditors);
    if debtors.len() == 0 || creditors.len() == 0 {
        assert(debtors.len() == 0 && creditors.len() == 0);
    } else {
        let d = debtors[0];
        let c = creditors[0];
        let paid = if d.1 <= c.1 {
            d.1
        } else {
            c.1
        };
        let rest_d = if d.1 - paid == 0 {
            debtors.drop_first()
        } else {
            debtors.update(0, (d.0, d.1 - paid))
        };
        let rest_c = if c.1 - paid == 0 {
            creditors.drop_first()
        } else {
            creditors.update(0, (c.0, c.1 - paid))
        };
        lemma_front(debtors, d.1 - paid, u);
        lemma_front(creditors, c.1 - paid, u);
        assert(all_positive(rest_d)) by {
            assert forall|i: int| 0 <= i < rest_d.len() implies #[trigger] rest_d[i].1 > 0 by {
                if d.1 - paid == 0 {
                    assert(rest_d[i] == debtors[i + 1]);
                } else if i > 0 {
                    assert(rest_d[i] == debtors[i]);
                }
            }
        }
        assert(all_positive(rest_c)) by {
            assert forall|i: int| 0 <= i < rest_c.len() implies #[trigger] rest_c[i].1 > 0 by {
                if c.1 - paid == 0 {
                    assert(rest_c[i] == creditors[i + 1]);
                } else if i > 0 {
                    assert(rest_c[i] == creditors[i]);
                }
            }
        }
        lemma_settle_flow(rest_d, rest_c, u);
        let t = seq![(d.0, c.0, paid)];
        assert(settle(debtors, creditors) == t + settle(rest_d, rest_c));
        lemma_flow_concat(t, settle(rest_d, rest_c), u);
        assert(t.drop_last() =~= Seq::<(UserId, UserId, int)>::empty());
        assert(t.len() == 1 && t.last() == (d.0, c.0, paid));
        reveal_with_fuel(flow, 2);
        assert(flow(t, u) == (if c.0 == u {
            paid
        } else {
            0
        }) - (if d.0 == u {
            paid
        } else {
            0
        }));
    }
}

// ---------------------------------------------------------------------------
// Sums over the members of a group
// ---------------------------------------------------------------------------

/// The sum of `w` over `s`.
pub open spec fn wsum(s: Seq<UserId>, w: spec_fn(UserId) -> int) -> int
    decreases s.len(),
{
    if s.len() == 0 {
        0
    } else {
        wsum(s.drop_last(), w) + w(s.last())
    }
}

pub open spec fn net_w(ds: Seq<(UserId, int)>) -> spec_fn(UserId) -> int {
    |k: UserId| net_of(ds, k)
}

pub open spec fn pos_w(ds: Seq<(UserId, int)>) -> spec_fn(UserId) -> int {
    |k: UserId|
        if net_of(ds, k) > 0 {
            net_of(ds, k)
        } else {
            0
        }
}

pub open spec fn neg_w(ds: Seq<(UserId, int)>) -> spec_fn(UserId) -> int {
    |k: UserId|
        if net_of(ds, k) < 0 {
            -net_of(ds, k)
        } else {
            0
        }
}

pub open spec fn ind_w(x: (UserId, int)) -> spec_fn(UserId) -> int {
    |k: UserId|
        if k == x.0 {
            x.1
        } else {
            0
        }
}

proof fn lemma_wsum_add(s: Seq<UserId>, w1: spec_fn(UserId) -> int, w2: spec_fn(UserId) -> int, w3: spec_fn(UserId) -> int)
    requires
        forall|k: UserId| #[trigger] w3(k) == w1(k) + w2(k),
    ensures
        wsum(s, w3) == wsum(s, w1) + wsum(s, w2),
    decreases s.len(),
{
    if s.len() > 0 {
        lemma_wsum_add(s.drop_last(), w1, w2, w3);
        assert(w3(s.last()) == w1(s.last()) + w2(s.last()));
    }
}

proof fn lemma_wsum_ind(s: Seq<UserId>, x: (UserId, int))
    requires
        s.no_duplicates(),
    ensures
        wsum(s, ind_w(x)) == if s.contains(x.0) {
            x.1
        } else {
            0
        },
    decreases s.len(),
{
    if s.len() > 0 {
        let init = s.drop_last();
        assert(init.no_duplicates());
        lemma_wsum_ind(init, x);
        if s.last() == x.0 {
            assert(!init.contains(x.0));
            assert(s.contains(x.0));
        } else {
            assert(s.contains(x.0) == init.contains(x.0)) by {
                if s.contains(x.0) {
                    let j = choose|j: int| 0 <= j < s.len() && s[j] == x.0;
                    assert(init[j] == x.0);
                }
                if init.contains(x.0) {
                    let j = choose|j: int| 0 <= j < init.len() && init[j] == x.0;
                    assert(s[j] == x.0);
                }
            }
        }
    }
}

proof fn lemma_wsum_push(s: Seq<UserId>, x: UserId, w: spec_fn(UserId) -> int)
    ensures
        wsum(s.push(x), w) == wsum(s, w) + w(x),
{
    assert(s.push(x).drop_last() =~= s);
}

proof fn lemma_wsum_remove(s: Seq<UserId>, j: int, w: spec_fn(UserId) -> int)
    requires
        0 <= j < s.len(),
    ensures
        wsum(s, w) == wsum(s.remove(j), w) + w(s[j]),
    decreases s.len(),
{
    if j == s.len() - 1 {
        assert(s.remove(j) =~= s.drop_last());
    } else {
        let init = s.drop_last();
        lemma_wsum_remove(init, j, w);
        assert(s.remove(j) =~= init.remove(j).push(s.last()));
        lemma_wsum_push(init.remove(j), s.last(), w);
    }
}

/// A sum does not depend on the order of the summands.
proof fn lemma_wsum_permutation(s: Seq<UserId>, t: Seq<UserId>, w: spec_fn(UserId) -> int)
    requires
        s.to_multiset() == t.to_multiset(),
    ensures
        wsum(s, w) == wsum(t, w),
    decreases s.len(),
{
    broadcast use vstd::multiset::group_multiset_axioms;
    if s.len() == 0 {
        assert(t.to_multiset().len() == 0);
        assert(t.len() == 0);
    } else {
        let x = s.last();
        let init = s.drop_last();
        assert(s =~= init.push(x));
        assert(s.to_multiset() == init.to_multiset().insert(x));
        assert(t.to_multiset().count(x) > 0);
        assert(t.contains(x));
        let j = choose|j: int| 0 <= j < t.len() && t[j] == x;
        assert(t.remove(j).to_multiset() == t.to_multiset().remove(x));
        assert(init.to_multiset() =~= t.remove(j).to_multiset());
        lemma_wsum_permutation(init, t.remove(j), w);
        lemma_wsum_remove(t, j, w);
    }
}

/// Dropping members that weigh nothing does not change a sum.
proof fn lemma_wsum_filter(s: Seq<UserId>, p: spec_fn(UserId) -> bool, w: spec_fn(UserId) -> int)
    requires
        forall|k: UserId| !p(k) ==> #[trigger] w(k) == 0,
    ensures
        wsum(s.filter(p), w) == wsum(s, w),
    decreases s.len(),
{
    reveal(Seq::filter);
    if s.len() > 0 {
        lemma_wsum_filter(s.drop_last(), p, w);
        if p(s.last()) {
            lemma_wsum_push(s.drop_last().filter(p), s.last(), w);
        } else {
            assert(w(s.last()) == 0);
        }
    }
}

proof fn lemma_total_map(s: Seq<UserId>, g: spec_fn(UserId) -> (UserId, int), w: spec_fn(UserId) -> int)
    requires
        forall|i: int| 0 <= i < s.len() ==> (#[trigger] g(s[i])).1 == w(s[i]),
    ensures
        total(s.map_values(g)) == wsum(s, w),
    decreases s.len(),
{
    if s.len() > 0 {
        assert(s.map_values(g).drop_last() =~= s.drop_last().map_values(g));
        lemma_total_map(s.drop_last(), g, w);
        assert(g(s[s.len() - 1]).1 == w(s[s.len() - 1]));
    }
}

proof fn lemma_step_keys_facts(ds: Seq<(UserId, int)>, k: UserId)
    ensures
        step_keys(ds).no_duplicates(),
        !step_keys(ds).contains(k) ==> net_of(ds, k) == 0,
    decreases ds.len(),
{
    if ds.len() > 0 {
        let init = ds.drop_last();
        lemma_step_keys_facts(init, k);
        let r = step_keys(init);
        if !r.contains(ds.last().0) {
            assert forall|i: int, j: int| 0 <= i < r.push(ds.last().0).len() && 0 <= j < r.push(
                ds.last().0,
            ).len() && i != j implies r.push(ds.last().0)[i] != r.push(ds.last().0)[j] by {
                if i < r.len() && j < r.len() {
                } else if i == r.len() {
                    assert(r[j] != ds.last().0);
                } else {
                    assert(r[i] != ds.last().0);
                }
            }
        }
        if !step_keys(ds).contains(k) {
            if !r.contains(ds.last().0) {
                assert(step_keys(ds) == r.push(ds.last().0));
                assert(step_keys(ds)[r.len() as int] == ds.last().0);
                if r.contains(k) {
                    let j = choose|j: int| 0 <= j < r.len() && r[j] == k;
                    assert(step_keys(ds)[j] == k);
                }
            } else {
                let j = choose|j: int| 0 <= j < r.len() && r[j] == ds.last().0;
                assert(ds.last().0 != k);
            }
        }
    }
}

/// The net positions of the members add up to the sum of all steps.
proof fn lemma_wsum_net(ds: Seq<(UserId, int)>)
    ensures
        wsum(step_keys(ds), net_w(ds)) == total(ds),
    decreases ds.len(),
{
    if ds.len() > 0 {
        let init = ds.drop_last();
        let x = ds.last();
        lemma_wsum_net(init);
        let keys = step_keys(ds);
        let r = step_keys(init);
        lemma_step_keys_facts(ds, x.0);
        lemma_step_keys_facts(init, x.0);
        assert forall|k: UserId| #[trigger] net_w(ds)(k) == net_w(init)(k) + ind_w(x)(k) by {
            assert(ds =~= init.push(x));
        }
        lemma_wsum_add(keys, net_w(init), ind_w(x), net_w(ds));
        lemma_wsum_ind(keys, x);
        if r.contains(x.0) {
            assert(keys == r);
        } else {
            assert(keys == r.push(x.0));
            lemma_wsum_push(r, x.0, net_w(init));
            assert(keys[r.len() as int] == x.0);
        }
        assert(keys.contains(x.0)) by {
            if r.contains(x.0) {
            } else {
                assert(keys[r.len() as int] == x.0);
            }
        }
    }
}

proof fn lemma_filter_no_duplicates(s: Seq<UserId>, p: spec_fn(UserId) -> bool)
    requires
        s.no_duplicates(),
    ensures
        s.filter(p).no_duplicates(),
    decreases s.len(),
{
    reveal(Seq::filter);
    if s.len() > 0 {
        let init = s.drop_last();
        assert(init.no_duplicates());
        lemma_filter_no_duplicates(init, p);
        if p(s.last()) {
            let f = init.filter(p);
            assert(!init.contains(s.last()));
            if f.contains(s.last()) {
                init.lemma_filter_contains_rev(p, s.last());
            }
            assert forall|i: int, j: int|
                0 <= i < f.push(s.last()).len() && 0 <= j < f.push(s.last()).len() && i != j implies f.push(
                s.last(),
            )[i] != f.push(s.last())[j] by {
                if i == f.len() {
                    assert(f[j] != s.last());
                } else if j == f.len() {
                    assert(f[i] != s.last());
                }
            }
        }
    }
}

proof fn lemma_net_of_map(s: Seq<UserId>, g: spec_fn(UserId) -> (UserId, int), u: UserId)
    requires
        s.no_duplicates(),
        forall|i: int| 0 <= i < s.len() ==> (#[trigger] g(s[i])).0 == s[i],
    ensures
        net_of(s.map_values(g), u) == if s.contains(u) {
            g(u).1
        } else {
            0
        },
    decreases s.len(),
{
    if s.len() > 0 {
        let init = s.drop_last();
        assert(init.no_duplicates());
        assert(s.map_values(g).drop_last() =~= init.map_values(g));
        lemma_net_of_map(init, g, u);
        assert(g(s[s.len() - 1]).0 == s.last());
        assert(s.contains(u) == (init.contains(u) || s.last() == u)) by {
            if s.contains(u) {
                let j = choose|j: int| 0 <= j < s.len() && s[j] == u;
                if j < init.len() {
                    assert(init[j] == u);
                }
            }
            if init.contains(u) {
                let j = choose|j: int| 0 <= j < init.len() && init[j] == u;
                assert(s[j] == u);
            }
        }
        if s.last() == u {
            assert(!init.contains(u));
        }
    }
}

/// The creditors of `ds` receive, each, exactly their positive net
/// position, and in all the sum of the positive positions.
proof fn lemma_creditors(ds: Seq<(UserId, int)>, u: UserId)
    ensures
        net_of(creditors_of(ds), u) == pos_w(ds)(u),
        total(creditors_of(ds)) == wsum(step_keys(ds), pos_w(ds)),
        all_positive(creditors_of(ds)),
{
    let keys = step_keys(ds);
    let p = is_creditor(ds);
    let f = keys.filter(p);
    let sorted = sorted_ids(f);
    lemma_id_leq_total();
    f.lemma_sort_by_ensures(id_leq());
    lemma_step_keys_facts(ds, u);
    lemma_filter_no_duplicates(keys, p);
    f.lemma_multiset_has_no_duplicates();
    sorted.lemma_multiset_has_no_duplicates_conv();
    assert forall|x: UserId| #[trigger] sorted.contains(x) <==> f.contains(x) by {
        assert(sorted.to_multiset().count(x) == f.to_multiset().count(x));
    }
    assert forall|i: int| 0 <= i < sorted.len() implies net_of(ds, #[trigger] sorted[i]) > 0 by {
        assert(sorted.contains(sorted[i]));
        let j = choose|j: int| 0 <= j < f.len() && f[j] == sorted[i];
        keys.lemma_filter_pred(p, j);
    }
    assert forall|i: int| 0 <= i < sorted.len() implies (#[trigger] credit_entry(ds)(sorted[i])).0
        == sorted[i] by {}
    lemma_net_of_map(sorted, credit_entry(ds), u);
    if sorted.contains(u) {
    } else {
        if keys.contains(u) && net_of(ds, u) > 0 {
            let j = choose|j: int| 0 <= j < keys.len() && keys[j] == u;
            keys.lemma_filter_contains(p, j);
        }
    }
    assert forall|i: int| 0 <= i < sorted.len() implies (#[trigger] credit_entry(ds)(sorted[i])).1
        == pos_w(ds)(sorted[i]) by {
        assert(net_of(ds, sorted[i]) > 0);
    }
    lemma_total_map(sorted, credit_entry(ds), pos_w(ds));
    lemma_wsum_permutation(sorted, f, pos_w(ds));
    assert forall|k: UserId| !p(k) implies #[trigger] pos_w(ds)(k) == 0 by {}
    lemma_wsum_filter(keys, p, pos_w(ds));
    assert forall|i: int| 0 <= i < creditors_of(ds).len() implies #[trigger] creditors_of(ds)[i].1
        > 0 by {
        assert(net_of(ds, sorted[i]) > 0);
    }
}

/// The debtors of `ds` pay, each, exactly their negative net position, and
/// in all the sum of the negative positions.
proof fn lemma_debtors(ds: Seq<(UserId, int)>, u: UserId)
    ensures
        net_of(debtors_of(ds), u) == neg_w(ds)(u),
        total(debtors_of(ds)) == wsum(step_keys(ds), neg_w(ds)),
        all_positive(debtors_of(ds)),
{
    let keys = step_keys(ds);
    let p = is_debtor(ds);
    let f = keys.filter(p);
    let sorted = sorted_ids(f);
    lemma_id_leq_total();
    f.lemma_sort_by_ensures(id_leq());
    lemma_step_keys_facts(ds, u);
    lemma_filter_no_duplicates(keys, p);
    f.lemma_multiset_has_no_duplicates();
    sorted.lemma_multiset_has_no_duplicates_conv();
    assert forall|x: UserId| #[trigger] sorted.contains(x) <==> f.contains(x) by {
        assert(sorted.to_multiset().count(x) == f.to_multiset().count(x));
    }
    assert forall|i: int| 0 <= i < sorted.len() implies net_of(ds, #[trigger] sorted[i]) < 0 by {
        assert(sorted.contains(sorted[i]));
        let j = choose|j: int| 0 <= j < f.len() && f[j] == sorted[i];
        keys.lemma_filter_pred(p, j);
    }
    assert forall|i: int| 0 <= i < sorted.len() implies (#[trigger] debt_entry(ds)(sorted[i])).0
        == sorted[i] by {}
    lemma_net_of_map(sorted, debt_entry(ds), u);
    if sorted.contains(u) {
    } else {
        if keys.contains(u) && net_of(ds, u) < 0 {
            let j = choose|j: int| 0 <= j < keys.len() && keys[j] == u;
            keys.lemma_filter_contains(p, j);
        }
    }
    assert forall|i: int| 0 <= i < sorted.len() implies (#[trigger] debt_entry(ds)(sorted[i])).1
        == neg_w(ds)(sorted[i]) by {
        assert(net_of(ds, sorted[i]) < 0);
    }
    lemma_total_map(sorted, debt_entry(ds), neg_w(ds));
    lemma_wsum_permutation(sorted, f, neg_w(ds));
    assert forall|k: UserId| !p(k) implies #[trigger] neg_w(ds)(k) == 0 by {}
    lemma_wsum_filter(keys, p, neg_w(ds));
    assert forall|i: int| 0 <= i < debtors_of(ds).len() implies #[trigger] debtors_of(ds)[i].1
        > 0 by {
        assert(net_of(ds, sorted[i]) < 0);
    }
}

/// The group steps of one expense credit the amount and debit the first
/// `k` shares.
proof fn lemma_group_steps_total(e: Expense, k: nat)
    requires
        k <= e.participants@.len(),
    ensures
        total(group_steps(e, k + 1)) == e.amount - sum(
            split_prefix(e.amount as int, e.participants@.len() as int, k),
        ),
    decreases k,
{
    let n = e.participants@.len() as int;
    reveal_with_fuel(total, 2);
    if k == 0 {
        assert(group_steps(e, 1).drop_last() =~= Seq::<(UserId, int)>::empty());
        assert(group_steps(e, 1).last() == group_step_at(e, 0));
    } else {
        lemma_group_steps_total(e, (k - 1) as nat);
        assert(group_steps(e, k + 1).drop_last() =~= group_steps(e, k));
        assert(group_steps(e, k + 1).last() == group_step_at(e, k as int));
        assert(split_prefix(e.amount as int, n, k).drop_last() =~= split_prefix(
            e.amount as int,
            n,
            (k - 1) as nat,
        ));
    }
}

/// The group steps add up to zero.
proof fn lemma_group_total_zero(exps: Seq<Expense>)
    ensures
        total(group_deltas(exps)) == 0,
    decreases exps.len(),
{
    if exps.len() > 0 {
        let init = exps.drop_last();
        let e = exps.last();
        lemma_group_total_zero(init);
        assert(group_deltas(exps) == group_deltas(init) + expense_group_deltas(e));
        lemma_total_concat(group_deltas(init), expense_group_deltas(e));
        if e.participants@.len() > 0 {
            let n = e.participants@.len();
            lemma_group_steps_total(e, n);
            law_shares_sum_to_amount(e.amount as int, n);
        }
    }
}

/// The net positions of all members of a group add up to zero: what some
/// paid over their share is what the others owe.
pub proof fn law_net_positions_sum_to_zero(exps: Seq<Expense>)
    ensures
        wsum(step_keys(group_deltas(exps)), net_w(group_deltas(exps))) == 0,
{
    lemma_group_total_zero(exps);
    lemma_wsum_net(group_deltas(exps));
}

/// Paying the overview's transfers settles the group: every user receives
/// (or pays) through them exactly their net position.
pub proof fn law_settlement_settles(exps: Seq<Expense>, u: UserId)
    ensures
        flow(group_settlement(exps), u) == group_net(exps, u),
{
    let ds = group_deltas(exps);
    lemma_creditors(ds, u);
    lemma_debtors(ds, u);
    lemma_group_total_zero(exps);
    lemma_wsum_net(ds);
    let keys = step_keys(ds);
    assert forall|k: UserId| #[trigger] net_w(ds)(k) == pos_w(ds)(k) + (-neg_w(ds)(k)) by {}
    let mneg = |k: UserId| -neg_w(ds)(k);
    lemma_wsum_add(keys, pos_w(ds), mneg, net_w(ds));
    lemma_wsum_negate(keys, neg_w(ds), mneg);
    lemma_settle_flow(debtors_of(ds), creditors_of(ds), u);
}

proof fn lemma_wsum_negate(s: Seq<UserId>, w: spec_fn(UserId) -> int, m: spec_fn(UserId) -> int)
    requires
        forall|k: UserId| #[trigger] m(k) == -w(k),
    ensures
        wsum(s, m) == -wsum(s, w),
    decreases s.len(),
{
    if s.len() > 0 {
        lemma_wsum_negate(s.drop_last(), w, m);
        assert(m(s.last()) == -w(s.last()));
    }
}

/// A group with `d` debtors and `c` creditors is settled with at most
/// `d + c - 1` transfers, each of a positive amount.
pub proof fn law_settlement_is_short(debtors: Seq<(UserId, int)>, creditors: Seq<(UserId, int)>)
    requires
        all_positive(debtors),
        all_positive(creditors),
    ensures
        debtors.len() > 0 && creditors.len() > 0 ==> settle(debtors, creditors).len() <= debtors.len()
            + creditors.len() - 1,
        forall|i: int|
            0 <= i < settle(debtors, creditors).len() ==> #[trigger] settle(debtors, creditors)[i].2
                > 0,
    decreases debtors.len() + creditors.len(),
{
    if debtors.len() > 0 && creditors.len() > 0 {
        let d = debtors[0];
        let c = creditors[0];
        let paid = if d.1 <= c.1 {
            d.1
        } else {
            c.1
        };
        let rest_d = if d.1 - paid == 0 {
            debtors.drop_first()
        } else {
            debtors.update(0, (d.0, d.1 - paid))
        };
        let rest_c = if c.1 - paid == 0 {
            creditors.drop_first()
        } else {
            creditors.update(0, (c.0, c.1 - paid))
        };
        assert(all_positive(rest_d)) by {
            assert forall|i: int| 0 <= i < rest_d.len() implies #[trigger] rest_d[i].1 > 0 by {
                if d.1 - paid == 0 {
                    assert(rest_d[i] == debtors[i + 1]);
                } else if i > 0 {
                    assert(rest_d[i] == debtors[i]);
                }
            }
        }
        assert(all_positive(rest_c)) by {
            assert forall|i: int| 0 <= i < rest_c.len() implies #[trigger] rest_c[i].1 > 0 by {
                if c.1 - paid == 0 {
                    assert(rest_c[i] == creditors[i + 1]);
                } else if i > 0 {
                    assert(rest_c[i] == creditors[i]);
                }
            }
        }
        law_settlement_is_short(rest_d, rest_c);
        let t = seq![(d.0, c.0, paid)];
        assert(settle(debtors, creditors) == t + settle(rest_d, rest_c));
        let all = settle(debtors, creditors);
        assert forall|i: int| 0 <= i < all.len() implies #[trigger] all[i].2 > 0 by {
            if i > 0 {
                assert(all[i] == settle(rest_d, rest_c)[i - 1]);
            }
        }
    }
}

/// `k` is one of the users of the list `s`.
pub open spec fn party_of(s: Seq<(UserId, int)>, k: UserId) -> bool {
    exists|j: int| 0 <= j < s.len() && s[j].0 == k
}

/// Every transfer of the settlement goes from one of the debtors to one of
/// the creditors.
pub proof fn law_settlement_parties(debtors: Seq<(UserId, int)>, creditors: Seq<(UserId, int)>)
    ensures
        forall|i: int|
            0 <= i < settle(debtors, creditors).len() ==> party_of(
                debtors,
                #[trigger] settle(debtors, creditors)[i].0,
            ) && party_of(creditors, settle(debtors, creditors)[i].1),
    decreases debtors.len() + creditors.len(),
{
    if debtors.len() > 0 && creditors.len() > 0 {
        let d = debtors[0];
        let c = creditors[0];
        let paid = if d.1 <= c.1 {
            d.1
        } else {
            c.1
        };
        let rest_d = if d.1 - paid == 0 {
            debtors.drop_first()
        } else {
            debtors.update(0, (d.0, d.1 - paid))
        };
        let rest_c = if c.1 - paid == 0 {
            creditors.drop_first()
        } else {
            creditors.update(0, (c.0, c.1 - paid))
        };
        law_settlement_parties(rest_d, rest_c);
        let t = seq![(d.0, c.0, paid)];
        let r = settle(rest_d, rest_c);
        assert(settle(debtors, creditors) == t + r);
        assert forall|i: int| 0 <= i < settle(debtors, creditors).len() implies party_of(
            debtors,
            #[trigger] settle(debtors, creditors)[i].0,
        ) && party_of(creditors, settle(debtors, creditors)[i].1) by {
            let all = settle(debtors, creditors);
            if i > 0 {
                assert(all[i] == r[i - 1]);
                assert(party_of(rest_d, r[i - 1].0));
                assert(party_of(rest_c, r[i - 1].1));
                let j = choose|j: int| 0 <= j < rest_d.len() && rest_d[j].0 == r[i - 1].0;
                if d.1 - paid == 0 {
                    assert(debtors[j + 1].0 == all[i].0);
                } else {
                    assert(debtors[j].0 == all[i].0);
                }
                let jc = choose|jc: int| 0 <= jc < rest_c.len() && rest_c[jc].0 == r[i - 1].1;
                if c.1 - paid == 0 {
                    assert(creditors[jc + 1].0 == all[i].1);
                } else {
                    assert(creditors[jc].0 == all[i].1);
                }
            } else {
                assert(all[0] == (d.0, c.0, paid));
                assert(debtors[0].0 == all[0].0);
                assert(creditors[0].0 == all[0].1);
            }
        }
    } else {
        assert(settle(debtors, creditors).len() == 0);
    }
}

/// Every user listed among the debtors owes (negative net position); every
/// user listed among the creditors is owed.
proof fn lemma_sides_signs(ds: Seq<(UserId, int)>)
    ensures
        forall|k: UserId| party_of(debtors_of(ds), k) ==> net_of(ds, k) < 0,
        forall|k: UserId| party_of(creditors_of(ds), k) ==> net_of(ds, k) > 0,
{
    let keys = step_keys(ds);
    lemma_id_leq_total();
    broadcast use vstd::seq_lib::group_filter_ensures;
    let fd = keys.filter(is_debtor(ds));
    let fc = keys.filter(is_creditor(ds));
    fd.lemma_sort_by_ensures(id_leq());
    fc.lemma_sort_by_ensures(id_leq());
    assert forall|k: UserId| party_of(debtors_of(ds), k) implies net_of(ds, k) < 0 by {
        let sd = sorted_ids(fd);
        let j = choose|j: int| 0 <= j < debtors_of(ds).len() && debtors_of(ds)[j].0 == k;
        assert(debtors_of(ds)[j] == debt_entry(ds)(sd[j]));
        assert(sd.to_multiset().count(sd[j]) > 0);
        assert(fd.to_multiset().count(sd[j]) > 0);
        assert(fd.contains(sd[j]));
        let t = choose|t: int| 0 <= t < fd.len() && fd[t] == sd[j];
        assert(is_debtor(ds)(fd[t]));
    }
    assert forall|k: UserId| party_of(creditors_of(ds), k) implies net_of(ds, k) > 0 by {
        let sc = sorted_ids(fc);
        let j = choose|j: int| 0 <= j < creditors_of(ds).len() && creditors_of(ds)[j].0 == k;
        assert(creditors_of(ds)[j] == credit_entry(ds)(sc[j]));
        assert(sc.to_multiset().count(sc[j]) > 0);
        assert(fc.to_multiset().count(sc[j]) > 0);
        assert(fc.contains(sc[j]));
        let t = choose|t: int| 0 <= t < fc.len() && fc[t] == sc[j];
        assert(is_creditor(ds)(fc[t]));
    }
}

/// In a group's settlement every transfer goes from a member who owes
/// (negative net position) to a member who is owed (positive net position).
pub proof fn law_transfers_go_from_debtors_to_creditors(exps: Seq<Expense>)
    ensures
        forall|i: int|
            0 <= i < group_settlement(exps).len() ==> group_net(
                exps,
                #[trigger] group_settlement(exps)[i].0,
            ) < 0 && group_net(exps, group_settlement(exps)[i].1) > 0,
{
    let ds = group_deltas(exps);
    law_settlement_parties(debtors_of(ds), creditors_of(ds));
    lemma_sides_signs(ds);
}

/// A group's settlement owes and is owed only positive amounts, pays every
/// transfer a positive amount, and needs at most one transfer fewer than the
/// members who owe or are owed.
pub proof fn law_group_settlement_is_short(exps: Seq<Expense>)
    ensures
        all_positive(debtors_of(group_deltas(exps))),
        all_positive(creditors_of(group_deltas(exps))),
        forall|i: int|
            0 <= i < group_settlement(exps).len() ==> #[trigger] group_settlement(exps)[i].2 > 0,
        debtors_of(group_deltas(exps)).len() > 0 && creditors_of(group_deltas(exps)).len() > 0
            ==> group_settlement(exps).len() <= debtors_of(group_deltas(exps)).len()
            + creditors_of(group_deltas(exps)).len() - 1,
{
    let ds = group_deltas(exps);
    lemma_creditors(ds, 0);
    lemma_debtors(ds, 0);
    law_settlement_is_short(debtors_of(ds), creditors_of(ds));
}

/// Two lists of steps that leave every user with the same balance.
pub open spec fn same_nets(a: Seq<(UserId, int)>, b: Seq<(UserId, int)>) -> bool {
    forall|k: UserId| #[trigger] net_of(a, k) == net_of(b, k)
}

/// The users that `p` picks among those the steps touch are the same for
/// steps with the same balances, when `p` picks only users whose balance is
/// not zero.
proof fn lemma_side_members(ds1: Seq<(UserId, int)>, ds2: Seq<(UserId, int)>, p: spec_fn(UserId) -> bool)
    requires
        same_nets(ds1, ds2),
        forall|k: UserId| #[trigger] p(k) ==> net_of(ds1, k) != 0,
    ensures
        step_keys(ds1).filter(p).to_multiset() == step_keys(ds2).filter(p).to_multiset(),
{
    broadcast use vstd::seq_lib::group_filter_ensures;

    let k1 = step_keys(ds1);
    let k2 = step_keys(ds2);
    let f1 = k1.filter(p);
    let f2 = k2.filter(p);
    assert forall|x: UserId| #[trigger] f1.contains(x) <==> p(x) by {
        lemma_step_keys_facts(ds1, x);
        if f1.contains(x) {
            let j = choose|j: int| 0 <= j < f1.len() && f1[j] == x;
            k1.lemma_filter_pred(p, j);
        }
        if p(x) {
            let j = choose|j: int| 0 <= j < k1.len() && k1[j] == x;
            k1.lemma_filter_contains(p, j);
        }
    }
    assert forall|x: UserId| #[trigger] f2.contains(x) <==> p(x) by {
        lemma_step_keys_facts(ds2, x);
        assert(net_of(ds1, x) == net_of(ds2, x));
        if f2.contains(x) {
            let j = choose|j: int| 0 <= j < f2.len() && f2[j] == x;
            k2.lemma_filter_pred(p, j);
        }
        if p(x) {
            let j = choose|j: int| 0 <= j < k2.len() && k2[j] == x;
            k2.lemma_filter_contains(p, j);
        }
    }
    lemma_step_keys_facts(ds1, 0);
    lemma_step_keys_facts(ds2, 0);
    lemma_filter_no_duplicates(k1, p);
    lemma_filter_no_duplicates(k2, p);
    f1.lemma_multiset_has_no_duplicates();
    f2.lemma_multiset_has_no_duplicates();
    assert forall|x: UserId| f1.to_multiset().count(x) == f2.to_multiset().count(x) by {
        if f1.contains(x) {
            assert(f2.contains(x));
            assert(f1.to_multiset().contains(x));
            assert(f2.to_multiset().contains(x));
        } else {
            assert(!f2.contains(x));
        }
    }
    assert(f1.to_multiset() =~= f2.to_multiset());
}

/// A list without repeats that holds exactly the users `p` picks is, once
/// sorted, the sorted list of the users `p` picks among those the steps
/// touch (when `p` picks only users whose balance is not zero).
pub(crate) proof fn lemma_picked_sorted(ds: Seq<(UserId, int)>, p: spec_fn(UserId) -> bool, ids: Seq<UserId>)
    requires
        ids.no_duplicates(),
        forall|x: UserId| #[trigger] ids.contains(x) <==> p(x),
        forall|k: UserId| #[trigger] p(k) ==> net_of(ds, k) != 0,
    ensures
        sorted_ids(ids) == sorted_ids(step_keys(ds).filter(p)),
{
    broadcast use vstd::seq_lib::group_filter_ensures;

    let keys = step_keys(ds);
    let f = keys.filter(p);
    assert forall|x: UserId| #[trigger] f.contains(x) <==> p(x) by {
        lemma_step_keys_facts(ds, x);
        if f.contains(x) {
            let j = choose|j: int| 0 <= j < f.len() && f[j] == x;
            keys.lemma_filter_pred(p, j);
        }
        if p(x) {
            let j = choose|j: int| 0 <= j < keys.len() && keys[j] == x;
            keys.lemma_filter_contains(p, j);
        }
    }
    lemma_step_keys_facts(ds, 0);
    lemma_filter_no_duplicates(keys, p);
    f.lemma_multiset_has_no_duplicates();
    ids.lemma_multiset_has_no_duplicates();
    assert forall|x: UserId| ids.to_multiset().count(x) == f.to_multiset().count(x) by {
        if ids.contains(x) {
            assert(f.contains(x));
            assert(ids.to_multiset().contains(x));
            assert(f.to_multiset().contains(x));
        } else {
            assert(!f.contains(x));
        }
    }
    assert(ids.to_multiset() =~= f.to_multiset());
    lemma_id_leq_total();
    ids.lemma_sort_by_ensures(id_leq());
    lemma_sorted_ids_unique(f, sorted_ids(ids));
}

/// Steps with the same balances give the same debtors and creditors, and so
/// the same settlement.
proof fn lemma_same_nets_same_settlement(ds1: Seq<(UserId, int)>, ds2: Seq<(UserId, int)>)
    requires
        same_nets(ds1, ds2),
    ensures
        debtors_of(ds1) == debtors_of(ds2),
        creditors_of(ds1) == creditors_of(ds2),
        settle(debtors_of(ds1), creditors_of(ds1)) == settle(debtors_of(ds2), creditors_of(ds2)),
{
    assert(is_debtor(ds1) =~= is_debtor(ds2));
    assert(is_creditor(ds1) =~= is_creditor(ds2));
    assert(debt_entry(ds1) =~= debt_entry(ds2));
    assert(credit_entry(ds1) =~= credit_entry(ds2));
    lemma_side_members(ds1, ds2, is_debtor(ds1));
    lemma_side_members(ds1, ds2, is_creditor(ds1));
    lemma_id_leq_total();
    let d1 = step_keys(ds1).filter(is_debtor(ds1));
    let d2 = step_keys(ds2).filter(is_debtor(ds1));
    d2.lemma_sort_by_ensures(id_leq());
    lemma_sorted_ids_unique(d1, sorted_ids(d2));
    let c1 = step_keys(ds1).filter(is_creditor(ds1));
    let c2 = step_keys(ds2).filter(is_creditor(ds1));
    c2.lemma_sort_by_ensures(id_leq());
    lemma_sorted_ids_unique(c1, sorted_ids(c2));
}

/// Group balances over two lists of expenses, one after the other, add up.
proof fn lemma_group_net_concat(a: Seq<Expense>, b: Seq<Expense>, k: UserId)
    ensures
        group_net(a + b, k) == group_net(a, k) + group_net(b, k),
    decreases b.len(),
{
    if b.len() == 0 {
        assert(a + b =~= a);
    } else {
        let f = group_expense_fn();
        assert((a + b).drop_last() =~= a + b.drop_last());
        lemma_group_net_concat(a, b.drop_last(), k);
        lemma_net_of_concat2(group_deltas(a + b.drop_last()), f(b.last()), k);
        lemma_net_of_concat2(group_deltas(b.drop_last()), f(b.last()), k);
    }
}

/// Taking one expense out of a list takes its steps out of every balance.
proof fn lemma_group_net_remove(b: Seq<Expense>, j: int, k: UserId)
    requires
        0 <= j < b.len(),
    ensures
        group_net(b, k) == group_net(b.remove(j), k) + net_of(expense_group_deltas(b[j]), k),
{
    let head = b.take(j);
    let one = seq![b[j]];
    let tail = b.skip(j + 1);
    assert(b =~= head + (one + tail));
    assert(b.remove(j) =~= head + tail);
    lemma_group_net_concat(head, one + tail, k);
    lemma_group_net_concat(one, tail, k);
    lemma_group_net_concat(head, tail, k);
    let none = Seq::<Expense>::empty();
    assert(one.drop_last() =~= none);
    assert(group_deltas(none) =~= Seq::<(UserId, int)>::empty());
    assert(group_deltas(one) == group_deltas(none) + group_expense_fn()(b[j]));
    assert(group_deltas(one) =~= expense_group_deltas(b[j]));
}

/// Group balances do not depend on the order of the expenses.
proof fn lemma_group_net_permutation(a: Seq<Expense>, b: Seq<Expense>, k: UserId)
    requires
        a.to_multiset() == b.to_multiset(),
    ensures
        group_net(a, k) == group_net(b, k),
    decreases a.len(),
{
    if a.len() == 0 {
        assert(b.len() == b.to_multiset().len());
        assert(b =~= Seq::<Expense>::empty());
    } else {
        let x = a.last();
        let rest = a.drop_last();
        assert(a =~= rest.push(x));
        assert(a.to_multiset().count(x) > 0);
        assert(b.contains(x));
        let j = choose|j: int| 0 <= j < b.len() && b[j] == x;
        assert(rest.to_multiset() =~= a.to_multiset().remove(x));
        assert(b.remove(j).to_multiset() == b.to_multiset().remove(x));
        lemma_group_net_permutation(rest, b.remove(j), k);
        lemma_group_net_remove(b, j, k);
        lemma_net_of_concat2(group_deltas(rest), expense_group_deltas(x), k);
    }
}

/// A group's settlement does not depend on the order in which its expenses
/// are listed: the same expenses in any order give the same transfers in the
/// same order.
pub proof fn law_settlement_ignores_expense_order(a: Seq<Expense>, b: Seq<Expense>)
    requires
        a.to_multiset() == b.to_multiset(),
    ensures
        group_settlement(a) == group_settlement(b),
{
    assert forall|k: UserId| #[trigger] net_of(group_deltas(a), k) == net_of(group_deltas(b), k) by {
        lemma_group_net_permutation(a, b, k);
    }
    lemma_same_nets_same_settlement(group_deltas(a), group_deltas(b));
}

/// A group's settlement does not depend on the order in which each expense
/// lists its participants.
pub proof fn law_settlement_ignores_participant_order(a: Seq<Expense>, b: Seq<Expense>)
    requires
        a.len() == b.len(),
        forall|i: int| 0 <= i < a.len() ==> #[trigger] same_in_group(a[i], b[i]),
    ensures
        group_settlement(a) == group_settlement(b),
{
    lemma_same_in_group_deltas(a, b);
}

/// A group's settlement is the same for the same expenses listed in any
/// order, each with its participants in any order: `b` is `a` reordered, and
/// `c` agrees with `b` expense by expense up to the order of participants.
pub proof fn law_settlement_ignores_order(a: Seq<Expense>, b: Seq<Expense>, c: Seq<Expense>)
    requires
        a.to_multiset() == b.to_multiset(),
        b.len() == c.len(),
        forall|i: int| 0 <= i < b.len() ==> #[trigger] same_in_group(b[i], c[i]),
    ensures
        group_settlement(a) == group_settlement(c),
{
    law_settlement_ignores_expense_order(a, b);
    law_settlement_ignores_participant_order(b, c);
}

// ---------------------------------------------------------------------------
// What a user's balance listing adds up to
// ---------------------------------------------------------------------------

/// The sum of the amounts of a balance listing.
pub open spec fn listing_total(v: Seq<BalanceEntry>) -> int
    decreases v.len(),
{
    if v.len() == 0 {
        0
    } else {
        listing_total(v.drop_last()) + v.last().amount
    }
}

proof fn lemma_listing_wsum(v: Seq<BalanceEntry>, w: spec_fn(UserId) -> int)
    requires
        forall|i: int| 0 <= i < v.len() ==> #[trigger] v[i].amount == w(v[i].other),
    ensures
        listing_total(v) == wsum(v.map_values(|b: BalanceEntry| b.other), w),
    decreases v.len(),
{
    if v.len() > 0 {
        lemma_listing_wsum(v.drop_last(), w);
        assert(v.map_values(|b: BalanceEntry| b.other).drop_last() =~= v.drop_last().map_values(
            |b: BalanceEntry| b.other,
        ));
        assert(v[v.len() - 1].amount == w(v[v.len() - 1].other));
    }
}

/// The entries of a listing of a user's balances add up to the sum of all
/// of that user's steps.
pub proof fn law_listing_total(user: UserId, exps: Seq<Expense>, v: Seq<BalanceEntry>)
    requires
        lists_balances(user, exps, v),
    ensures
        listing_total(v) == total(user_deltas(user, exps)),
{
    let ds = user_deltas(user, exps);
    let nz = |k: UserId| net_of(ds, k) != 0;
    let others = v.map_values(|b: BalanceEntry| b.other);
    assert forall|i: int, j: int| 0 <= i < others.len() && 0 <= j < others.len() && i != j implies others[i]
        != others[j] by {
        if i < j {
            assert(v[i].other != v[j].other);
        } else {
            assert(v[j].other != v[i].other);
        }
    }
    assert forall|x: UserId| #[trigger] others.contains(x) <==> nz(x) by {
        if others.contains(x) {
            let i = choose|i: int| 0 <= i < others.len() && others[i] == x;
            assert(v[i].amount != 0 && v[i].amount == user_balance(user, exps, v[i].other));
        }
        if nz(x) {
            assert(user_balance(user, exps, x) != 0);
            let i = choose|i: int| 0 <= i < v.len() && v[i].other == x;
            assert(others[i] == x);
        }
    }
    lemma_picked_sorted(ds, nz, others);
    let f = step_keys(ds).filter(nz);
    lemma_id_leq_total();
    others.lemma_sort_by_ensures(id_leq());
    f.lemma_sort_by_ensures(id_leq());
    lemma_wsum_permutation(others, f, net_w(ds));
    assert forall|k: UserId| !nz(k) implies #[trigger] net_w(ds)(k) == 0 by {}
    lemma_wsum_filter(step_keys(ds), nz, net_w(ds));
    lemma_wsum_net(ds);
    assert forall|i: int| 0 <= i < v.len() implies #[trigger] v[i].amount == net_w(ds)(v[i].other) by {
        assert(v[i].amount == user_balance(user, exps, v[i].other));
    }
    lemma_listing_wsum(v, net_w(ds));
}

/// The steps of the first `k` positions of an expense that `user` paid add
/// up to the first `k` shares, less the payer's own share once it is among
/// them.
proof fn lemma_payer_steps_total(user: UserId, e: Expense, j: int, k: nat)
    requires
        e.payer == user,
        0 <= j < participants_sorted(e).len(),
        participants_sorted(e)[j] == user,
        forall|i: int| 0 <= i < participants_sorted(e).len() && i != j ==> participants_sorted(e)[i] != user,
        k <= participants_sorted(e).len(),
        participants_sorted(e).len() == e.participants@.len(),
    ensures
        total(user_steps(user, e, k)) == sum(split_prefix(e.amount as int, e.participants@.len() as int, k))
            - if j < k {
            share_of(e, j)
        } else {
            0
        },
    decreases k,
{
    let n = e.participants@.len() as int;
    if k > 0 {
        lemma_payer_steps_total(user, e, j, (k - 1) as nat);
        assert(user_steps(user, e, k).drop_last() =~= user_steps(user, e, (k - 1) as nat));
        assert(user_steps(user, e, k).last() == user_step_at(user, e, k - 1));
        assert(split_prefix(e.amount as int, n, k).drop_last() =~= split_prefix(
            e.amount as int,
            n,
            (k - 1) as nat,
        ));
    } else {
        assert(user_steps(user, e, 0) =~= Seq::<(UserId, int)>::empty());
        assert(split_prefix(e.amount as int, n, 0) =~= Seq::<int>::empty());
    }
}

/// When the only expense is one that a user paid for themselves and others
/// (each participant once, no group), the user's balance listing adds up to
/// the amount less the user's own share: the floor of the average, or one
/// more when the user is among the lowest ids that take the remainder.
pub proof fn law_payer_listing_total(user: UserId, e: Expense, v: Seq<BalanceEntry>)
    requires
        lists_balances(user, seq![e], v),
        e.payer == user,
        e.group_id is None,
        e.participants@.contains(user),
        e.participants@.no_duplicates(),
    ensures
        listing_total(v) == e.amount - (e.amount as int) / (e.participants@.len() as int)
            || listing_total(v) == e.amount - ((e.amount as int) / (e.participants@.len() as int) + 1),
{
    let exps = seq![e];
    let n = e.participants@.len();
    let ps = e.participants@;
    let sorted = participants_sorted(e);
    law_listing_total(user, exps, v);
    lemma_id_leq_total();
    ps.lemma_sort_by_ensures(id_leq());
    assert(sorted.to_multiset().len() == sorted.len());
    assert(ps.to_multiset().len() == ps.len());
    ps.lemma_multiset_has_no_duplicates();
    assert forall|x: UserId| sorted.to_multiset().contains(x) implies sorted.to_multiset().count(x) == 1 by {
        assert(ps.to_multiset().contains(x));
    }
    sorted.lemma_multiset_has_no_duplicates_conv();
    assert(sorted.to_multiset().count(user) > 0);
    assert(sorted.contains(user));
    let j = choose|j: int| 0 <= j < sorted.len() && sorted[j] == user;
    lemma_payer_steps_total(user, e, j, n);
    law_shares_sum_to_amount(e.amount as int, n);
    assert(split_prefix(e.amount as int, n as int, n) == split_spec(e.amount as int, n));
    let f = user_expense_fn(user);
    assert(exps.drop_last() =~= Seq::<Expense>::empty());
    assert(user_deltas(user, Seq::<Expense>::empty()) =~= Seq::<(UserId, int)>::empty());
    assert(user_deltas(user, exps) =~= user_steps(user, e, n));
}

/// The debtors and the creditors of a group are listed in strictly
/// ascending id order, each with the amount of their net position (what a
/// debtor owes, what a creditor is owed); every member who owes is among the
/// debtors and every member who is owed among the creditors.
pub proof fn law_sides_in_id_order(exps: Seq<Expense>)
    ensures
        forall|i: int, j: int|
            0 <= i < j < debtors_of(group_deltas(exps)).len() ==> debtors_of(group_deltas(exps))[i].0
                < debtors_of(group_deltas(exps))[j].0,
        forall|i: int, j: int|
            0 <= i < j < creditors_of(group_deltas(exps)).len() ==> creditors_of(group_deltas(exps))[i].0
                < creditors_of(group_deltas(exps))[j].0,
        forall|i: int|
            0 <= i < debtors_of(group_deltas(exps)).len() ==> #[trigger] debtors_of(group_deltas(exps))[i].1
                == -group_net(exps, debtors_of(group_deltas(exps))[i].0),
        forall|i: int|
            0 <= i < creditors_of(group_deltas(exps)).len() ==> #[trigger] creditors_of(group_deltas(exps))[i].1
                == group_net(exps, creditors_of(group_deltas(exps))[i].0),
        forall|k: UserId| #[trigger] group_net(exps, k) < 0 ==> party_of(debtors_of(group_deltas(exps)), k),
        forall|k: UserId| #[trigger] group_net(exps, k) > 0 ==> party_of(creditors_of(group_deltas(exps)), k),
{
    let ds = group_deltas(exps);
    let keys = step_keys(ds);
    lemma_id_leq_total();
    broadcast use vstd::seq_lib::group_filter_ensures;
    let fd = keys.filter(is_debtor(ds));
    let fc = keys.filter(is_creditor(ds));
    fd.lemma_sort_by_ensures(id_leq());
    fc.lemma_sort_by_ensures(id_leq());
    lemma_step_keys_facts(ds, 0);
    lemma_filter_no_duplicates(keys, is_debtor(ds));
    lemma_filter_no_duplicates(keys, is_creditor(ds));
    let sd = sorted_ids(fd);
    let sc = sorted_ids(fc);
    fd.lemma_multiset_has_no_duplicates();
    fc.lemma_multiset_has_no_duplicates();
    assert forall|x: UserId| sd.to_multiset().contains(x) implies sd.to_multiset().count(x) == 1 by {
        assert(fd.to_multiset().contains(x));
    }
    assert forall|x: UserId| sc.to_multiset().contains(x) implies sc.to_multiset().count(x) == 1 by {
        assert(fc.to_multiset().contains(x));
    }
    sd.lemma_multiset_has_no_duplicates_conv();
    sc.lemma_multiset_has_no_duplicates_conv();
    assert forall|i: int, j: int| 0 <= i < j < debtors_of(ds).len() implies debtors_of(ds)[i].0
        < debtors_of(ds)[j].0 by {
        assert(id_leq()(sd[i], sd[j]));
        assert(sd[i] != sd[j]);
    }
    assert forall|i: int, j: int| 0 <= i < j < creditors_of(ds).len() implies creditors_of(ds)[i].0
        < creditors_of(ds)[j].0 by {
        assert(id_leq()(sc[i], sc[j]));
        assert(sc[i] != sc[j]);
    }
    assert forall|k: UserId| #[trigger] group_net(exps, k) < 0 implies party_of(debtors_of(ds), k) by {
        lemma_step_keys_facts(ds, k);
        let t = choose|t: int| 0 <= t < keys.len() && keys[t] == k;
        keys.lemma_filter_contains(is_debtor(ds), t);
        assert(fd.to_multiset().count(k) > 0);
        assert(sd.contains(k));
        let j = choose|j: int| 0 <= j < sd.len() && sd[j] == k;
        assert(debtors_of(ds)[j].0 == k);
    }
    assert forall|k: UserId| #[trigger] group_net(exps, k) > 0 implies party_of(creditors_of(ds), k) by {
        lemma_step_keys_facts(ds, k);
        let t = choose|t: int| 0 <= t < keys.len() && keys[t] == k;
        keys.lemma_filter_contains(is_creditor(ds), t);
        assert(fc.to_multiset().count(k) > 0);
        assert(sc.contains(k));
        let j = choose|j: int| 0 <= j < sc.len() && sc[j] == k;
        assert(creditors_of(ds)[j].0 == k);
    }
}

/// Greedy settlement: while some debtor and some creditor remain, the
/// first debtor pays the first creditor the smaller of what the one owes
/// and the other is owed; whoever is then settled leaves the list.
pub proof fn law_settle_pays_first_in_line(debtors: Seq<(UserId, int)>, creditors: Seq<(UserId, int)>)
    ensures
        (debtors.len() == 0 || creditors.len() == 0) ==> settle(debtors, creditors).len() == 0,
        debtors.len() > 0 && creditors.len() > 0 ==> {
            let d = debtors[0];
            let c = creditors[0];
            let paid = if d.1 <= c.1 { d.1 } else { c.1 };
            &&& paid <= d.1 && paid <= c.1 && (paid == d.1 || paid == c.1)
            &&& settle(debtors, creditors)[0] == (d.0, c.0, paid)
            &&& settle(debtors, creditors).drop_first() == settle(
                if d.1 == paid { debtors.drop_first() } else { debtors.update(0, (d.0, d.1 - paid)) },
                if c.1 == paid { creditors.drop_first() } else { creditors.update(0, (c.0, c.1 - paid)) },
            )
        },
{
    if debtors.len() > 0 && creditors.len() > 0 {
        let d = debtors[0];
        let c = creditors[0];
        let paid = if d.1 <= c.1 { d.1 } else { c.1 };
        let rest_d = if d.1 == paid { debtors.drop_first() } else { debtors.update(0, (d.0, d.1 - paid)) };
        let rest_c = if c.1 == paid { creditors.drop_first() } else { creditors.update(0, (c.0, c.1 - paid)) };
        assert((seq![(d.0, c.0, paid)] + settle(rest_d, rest_c)).drop_first() =~= settle(rest_d, rest_c));
    }
}

} // verus!
