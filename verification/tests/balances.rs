use kvittis::api::{BalanceEntry, GroupBalance};
use kvittis::balance::{
    group_balance_overview, group_balances_fit, settle_transfers, user_balances_fit,
    user_non_group_balances,
};
use kvittis::split::{sort_ids, split_shares};
use kvittis::types::Expense;

const A: u128 = 1;
const B: u128 = 2;
const C: u128 = 3;

fn expense(id: u128, payer: u128, participants: Vec<u128>, amount: i64, group: Option<u128>) -> Expense {
    Expense {
        id,
        payer,
        participants,
        amount,
        description: None,
        group_id: group,
        timestamp_ms: 0,
    }
}

fn sorted(mut v: Vec<BalanceEntry>) -> Vec<(u128, i64)> {
    v.sort_by_key(|b| b.other);
    v.into_iter().map(|b| (b.other, b.amount)).collect()
}

fn transfers(v: Vec<GroupBalance>) -> Vec<(u128, u128, i64)> {
    v.into_iter().map(|t| (t.from, t.to, t.amount)).collect()
}

#[test]
fn split_gives_remainder_to_lowest_ids() {
    assert_eq!(split_shares(100, 3), vec![34, 33, 33]);
    assert_eq!(split_shares(300, 3), vec![100, 100, 100]);
    assert_eq!(split_shares(200, 3), vec![67, 67, 66]);
    assert_eq!(split_shares(7, 1), vec![7]);
}

#[test]
fn split_of_negative_amount_floors_the_average() {
    // The floor of -100 / 3 is -34, with remainder 2 for the two lowest ids.
    assert_eq!(split_shares(-100, 3), vec![-33, -33, -34]);
    assert_eq!(split_shares(-7, 2), vec![-3, -4]);
    assert_eq!(split_shares(-9, 3), vec![-3, -3, -3]);
}

#[test]
fn shares_sum_to_amount() {
    for amount in [0i64, 1, 99, 100, 101, 12345, -1, -99, -100, -101, -12345] {
        for n in 1usize..8 {
            let total: i64 = split_shares(amount, n).iter().sum();
            assert_eq!(total, amount);
        }
    }
}

#[test]
fn sort_ids_ascending() {
    assert_eq!(sort_ids(&vec![5, 1, 4, 1, 3]), vec![1, 1, 3, 4, 5]);
    assert_eq!(sort_ids(&vec![]), Vec::<u128>::new());
}

// TC2: a basic split between two users.
#[test]
fn tc2_user_balances_basic_split() {
    let exps = vec![expense(10, A, vec![A, B], 100, None)];
    assert_eq!(sorted(user_non_group_balances(A, &exps)), vec![(B, 50)]);
    assert_eq!(sorted(user_non_group_balances(B, &exps)), vec![(A, -50)]);
}

// TC3: expenses of a group do not count towards user balances.
#[test]
fn tc3_user_balances_ignore_group_expenses() {
    let exps = vec![
        expense(10, A, vec![A, B], 100, None),
        expense(11, A, vec![A, B], 100, Some(77)),
    ];
    assert_eq!(sorted(user_non_group_balances(A, &exps)), vec![(B, 50)]);
}

// TC5: the remainder goes to the lowest ids.
#[test]
fn tc5_remainder_split_is_deterministic() {
    let exps = vec![expense(10, C, vec![C, A, B], 100, None)];
    // Sorted: A, B, C; shares 34, 33, 33.
    assert_eq!(sorted(user_non_group_balances(C, &exps)), vec![(A, 34), (B, 33)]);
    assert_eq!(sorted(user_non_group_balances(A, &exps)), vec![(C, -34)]);
}

#[test]
fn test_user_balances_basic() {
    let exps = vec![expense(10, A, vec![A, B], 300, None)];
    assert_eq!(sorted(user_non_group_balances(A, &exps)), vec![(B, 150)]);
    assert_eq!(sorted(user_non_group_balances(B, &exps)), vec![(A, -150)]);
}

#[test]
fn test_user_balances_multiple_expenses() {
    let exps = vec![
        expense(10, A, vec![A, B, C], 300, None),
        expense(11, B, vec![A, B, C], 200, None),
    ];
    // A: +100 from B and C; then A owes B its share 67 of 200.
    assert_eq!(sorted(user_non_group_balances(A, &exps)), vec![(B, 33), (C, 100)]);
    assert_eq!(sorted(user_non_group_balances(C, &exps)), vec![(A, -100), (B, -66)]);
}

#[test]
fn no_entry_for_settled_or_self() {
    let exps = vec![
        expense(10, A, vec![A, B], 100, None),
        expense(11, B, vec![A, B], 100, None),
        expense(12, A, vec![A], 500, None),
    ];
    assert_eq!(sorted(user_non_group_balances(A, &exps)), vec![]);
    assert_eq!(sorted(user_non_group_balances(B, &exps)), vec![]);
}

#[test]
fn balances_are_antisymmetric_on_example() {
    let exps = vec![
        expense(10, A, vec![A, B, C], 301, None),
        expense(11, C, vec![B, C], 77, None),
        expense(12, B, vec![A, B, C], 55, None),
    ];
    let a = sorted(user_non_group_balances(A, &exps));
    let b = sorted(user_non_group_balances(B, &exps));
    let a_to_b = a.iter().find(|e| e.0 == B).map(|e| e.1).unwrap_or(0);
    let b_to_a = b.iter().find(|e| e.0 == A).map(|e| e.1).unwrap_or(0);
    assert_eq!(a_to_b, -b_to_a);
}

#[test]
fn expense_without_participants_changes_nothing() {
    let exps = vec![expense(10, A, vec![], 100, None)];
    assert_eq!(sorted(user_non_group_balances(A, &exps)), vec![]);
    assert_eq!(group_balance_overview(&exps), vec![]);
}

// TC4: the overview counts every group expense.
#[test]
fn tc4_group_overview_includes_all_expenses() {
    let exps = vec![
        expense(10, A, vec![A, B], 300, Some(9)),
        expense(11, B, vec![B, C], 300, Some(9)),
    ];
    assert_eq!(transfers(group_balance_overview(&exps)), vec![(C, A, 150)]);
}

#[test]
fn test_group_balances_basic() {
    let exps = vec![expense(10, A, vec![A, B, C], 300, Some(9))];
    assert_eq!(transfers(group_balance_overview(&exps)), vec![(B, A, 100), (C, A, 100)]);
}

#[test]
fn group_settlement_with_two_payers() {
    let exps = vec![
        expense(10, A, vec![A, B, C], 300, Some(9)),
        expense(11, B, vec![A, B, C], 200, Some(9)),
    ];
    // Nets: A = 300 - 100 - 67 = 133, B = 200 - 100 - 67 = 33, C = -166.
    let t = transfers(group_balance_overview(&exps));
    assert_eq!(t, vec![(C, A, 133), (C, B, 33)]);
    let paid: i64 = t.iter().map(|x| x.2).sum();
    assert_eq!(paid, 166);
}

#[test]
fn settle_transfers_greedy() {
    let t = settle_transfers(vec![(1, 50), (2, 70)], vec![(3, 100), (4, 20)]);
    assert_eq!(transfers(t), vec![(1, 3, 50), (2, 3, 50), (2, 4, 20)]);
    assert_eq!(settle_transfers(vec![], vec![]), vec![]);
}

#[test]
fn overflow_is_detected_before_computing() {
    let big = i64::MAX;
    let three = vec![
        expense(10, A, vec![A, B], big, None),
        expense(11, A, vec![A, B], big, None),
        expense(12, A, vec![A, B], big, None),
    ];
    assert!(!user_balances_fit(A, &three));
    assert!(user_balances_fit(A, &three[..2].to_vec()));
    let group = vec![
        expense(10, A, vec![B], big, Some(1)),
        expense(11, A, vec![B], big, Some(1)),
    ];
    assert!(!group_balances_fit(&group));
    assert!(group_balances_fit(&group[..1].to_vec()));
    // A final position of i64::MIN cannot be negated into a debt.
    let min = vec![expense(10, A, vec![B], i64::MIN, Some(1))];
    assert!(!group_balances_fit(&min));
}

#[test]
fn settlement_settles_every_net_position() {
    let exps = vec![
        expense(10, A, vec![A, B, C], 301, Some(9)),
        expense(11, B, vec![B, C], 77, Some(9)),
        expense(12, C, vec![A, C], 10, Some(9)),
    ];
    // Nets: A = 301 - 101 - 5 = 195; B = 77 - 100 - 39 = -62;
    //       C = 10 - 100 - 38 - 5 = -133.  They add up to zero.
    let t = transfers(group_balance_overview(&exps));
    let flow = |u: u128| -> i64 {
        t.iter().map(|x| if x.1 == u { x.2 } else if x.0 == u { -x.2 } else { 0 }).sum()
    };
    assert_eq!(flow(A), 195);
    assert_eq!(flow(B), -62);
    assert_eq!(flow(C), -133);
    // Each transfer goes from a debtor to a creditor, and there are at most
    // debtors + creditors - 1 of them.
    for x in &t {
        assert!(x.0 == B || x.0 == C);
        assert_eq!(x.1, A);
        assert!(x.2 > 0);
    }
    assert!(t.len() <= 2);
}

#[test]
fn settlement_ignores_expense_and_participant_order() {
    let exps = vec![
        expense(10, A, vec![A, B, C], 301, Some(9)),
        expense(11, B, vec![B, C], 77, Some(9)),
        expense(12, C, vec![A, C], 10, Some(9)),
    ];
    let shuffled = vec![
        expense(12, C, vec![C, A], 10, Some(9)),
        expense(10, A, vec![C, A, B], 301, Some(9)),
        expense(11, B, vec![C, B], 77, Some(9)),
    ];
    let t = transfers(group_balance_overview(&exps));
    assert_eq!(t, transfers(group_balance_overview(&shuffled)));
    assert_eq!(t, vec![(B, A, 62), (C, A, 133)]);
}

#[test]
fn remainder_goes_to_one_share() {
    // A pays 100 for A, B and C: A's own share takes the remainder (34).
    let exps = vec![expense(10, A, vec![A, B, C], 100, None)];
    let first = sorted(user_non_group_balances(A, &exps));
    assert_eq!(first, sorted(user_non_group_balances(A, &exps)));
    let total: i64 = first.iter().map(|x| x.1).sum();
    assert_eq!(total, 66);
    assert_eq!(first, vec![(B, 33), (C, 33)]);
}

#[test]
fn negative_amounts_still_settle() {
    let exps = vec![expense(10, A, vec![A, B, C], -100, Some(9))];
    // Shares -33, -33, -34: A's net is -100 + 33 = -67, B +33, C +34.
    let t = transfers(group_balance_overview(&exps));
    assert_eq!(t, vec![(A, B, 33), (A, C, 34)]);
}

#[test]
fn payer_with_highest_id_is_owed_more() {
    // C pays 100 for A, B and C: the remainder goes to A, C's share is 33.
    let exps = vec![expense(10, C, vec![B, C, A], 100, None)];
    let v = sorted(user_non_group_balances(C, &exps));
    assert_eq!(v, vec![(A, 34), (B, 33)]);
    let total: i64 = v.iter().map(|x| x.1).sum();
    assert_eq!(total, 67);
}
