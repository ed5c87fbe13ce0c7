use kvittis::joined::{expense_from_rows, expense_rows, ExpenseJoinRow};

fn row(expense_id: u128, user_id: Option<u128>) -> ExpenseJoinRow {
    ExpenseJoinRow {
        expense_id,
        payer: 1,
        amount: 90 + expense_id as i64,
        description: Some(format!("e{}", expense_id)),
        group_id: None,
        created_at: 1000 + expense_id as i64,
        user_id,
    }
}

#[test]
fn rows_of_one_expense_make_one_expense() {
    let rows = vec![row(5, Some(1)), row(5, Some(3)), row(5, Some(2))];
    let e = expense_from_rows(&rows).unwrap();
    assert_eq!(e.id, 5);
    assert_eq!(e.payer, 1);
    assert_eq!(e.amount, 95);
    assert_eq!(e.description, Some("e5".to_string()));
    assert_eq!(e.group_id, None);
    assert_eq!(e.timestamp_ms, 1005);
    assert_eq!(e.participants, vec![1, 3, 2]);
}

#[test]
fn no_rows_make_no_expense() {
    assert!(expense_from_rows(&vec![]).is_none());
}

#[test]
fn joined_rows_are_grouped_by_expense() {
    let rows = vec![
        row(7, Some(1)),
        row(8, Some(2)),
        row(7, Some(4)),
        row(9, None),
        row(8, Some(1)),
    ];
    let mut v = expense_rows(&rows);
    v.sort_by_key(|e| e.id);
    assert_eq!(v.len(), 3);
    assert_eq!(v[0].id, 7);
    assert_eq!(v[0].participants, vec![1, 4]);
    assert_eq!(v[0].amount, 97);
    assert_eq!(v[1].id, 8);
    assert_eq!(v[1].participants, vec![2, 1]);
    assert_eq!(v[1].timestamp_ms, 1008);
    assert_eq!(v[2].id, 9);
    assert_eq!(v[2].participants, Vec::<u128>::new());
}

#[test]
fn no_joined_rows_make_no_expenses() {
    assert!(expense_rows(&vec![]).is_empty());
}
