//! Deterministic integer split of an amount among the participants of an
//! expense.
//!
//! Participants are ordered by id (ascending); with `base` the floor of
//! `amount / n` and `rem = amount - base * n` (so `0 <= rem < n`), the first
//! `rem` participants in that order pay `base + 1` and the others pay `base`.
//! The shares always add up to the amount, negative amounts included.
use vstd::prelude::*;
use vstd::arithmetic::div_mod::lemma_fundamental_div_mod_converse;
use vstd::relations::*;
use vstd::seq_lib::*;

verus! {

broadcast use vstd::seq_lib::group_to_multiset_ensures;

/// The ascending order on ids.
pub open spec fn id_leq() -> spec_fn(u128, u128) -> bool {
    |a: u128, b: u128| a <= b
}

/// The ids of `s` in ascending order.
pub open spec fn sorted_ids(s: Seq<u128>) -> Seq<u128> {
    s.sort_by(id_leq())
}

/// Truncating division, as Rust's `/` on signed integers (for `n > 0`).
spec fn trunc_div(a: int, n: int) -> int {
    if a >= 0 {
        a / n
    } else {
        -((-a) / n)
    }
}

/// Truncating remainder, as Rust's `%` on signed integers (for `n > 0`).
spec fn trunc_rem(a: int, n: int) -> int {
    if a >= 0 {
        a % n
    } else {
        -((-a) % n)
    }
}

/// The share of position `i` (in id order) when `amount` is split `n` ways:
/// the floor of the average, plus one for the first `amount % n` positions
/// (`/` and `%` on `int` are floor division and its non-negative remainder
/// for `n > 0`).
pub open spec fn share_at(amount: int, n: int, i: int) -> int {
    if i < amount % n {
        amount / n + 1
    } else {
        amount / n
    }
}

/// The shares of the first `k` positions of an `n`-way split.
pub open spec fn split_prefix(amount: int, n: int, k: nat) -> Seq<int> {
    Seq::new(k, |i: int| share_at(amount, n, i))
}

/// The shares of all `n` positions.
pub open spec fn split_spec(amount: int, n: nat) -> Seq<int> {
    split_prefix(amount, n as int, n)
}

/// The sum of a sequence of integers.
pub open spec fn sum(s: Seq<int>) -> int
    decreases s.len(),
{
    if s.len() == 0 {
        0
    } else {
        sum(s.drop_last()) + s.last()
    }
}

/// The ascending order on ids is a total order.
pub proof fn lemma_id_leq_total()
    ensures
        total_ordering(id_leq()),
{
}

/// Sorting is determined by the multiset of ids: any ascending sequence with
/// the same elements as `s` is `sorted_ids(s)`.
pub proof fn lemma_sorted_ids_unique(s: Seq<u128>, t: Seq<u128>)
    requires
        sorted_by(t, id_leq()),
        t.to_multiset() == s.to_multiset(),
    ensures
        t == sorted_ids(s),
{
    lemma_id_leq_total();
    s.lemma_sort_by_ensures(id_leq());
    lemma_sorted_unique(t, sorted_ids(s), id_leq());
}

/// Returns the ids of `ids` in ascending order.
pub fn sort_ids(ids: &Vec<u128>) -> (sorted: Vec<u128>)
    ensures
        sorted@ == sorted_ids(ids@),
{
    let mut out: Vec<u128> = Vec::new();
    let n = ids.len();
    let mut k: usize = 0;
    while k < n
        invariant
            n == ids.len(),
            k <= n,
            sorted_by(out@, id_leq()),
            out@.to_multiset() == ids@.take(k as int).to_multiset(),
        decreases n - k,
    {
        let x = ids[k];
        let mut j: usize = 0;
        while j < out.len() && out[j] <= x
            invariant
                j <= out.len(),
                forall|t: int| 0 <= t < j ==> out@[t] <= x,
            decreases out.len() - j,
        {
            j = j + 1;
        }
        let ghost before = out@;
        out.insert(j, x);
        proof {
            assert(out@ == before.insert(j as int, x));
            assert forall|a: int, b: int| 0 <= a < b < out@.len() implies #[trigger] id_leq()(
                out@[a],
                out@[b],
            ) by {
                if b < j {
                    assert(id_leq()(before[a], before[b]));
                } else if b == j {
                    assert(out@[a] == before[a]);
                } else if a < j {
                    assert(out@[b] == before[b - 1]);
                    if j < before.len() {
                        assert(id_leq()(before[a], before[b - 1]));
                    }
                } else if a == j {
                    assert(out@[b] == before[b - 1]);
                    assert(j < before.len() && !(before[j as int] <= x));
                    if b - 1 > j {
                        assert(id_leq()(before[j as int], before[b - 1]));
                    }
                } else {
                    assert(id_leq()(before[a - 1], before[b - 1]));
                }
            }
            assert(out@.remove(j as int) == before);
            assert(ids@.take(k + 1) == ids@.take(k as int).push(x));
            assert(out@.to_multiset().remove(x) == before.to_multiset());
            assert(out@.to_multiset().count(x) > 0);
            assert(out@.to_multiset() =~= before.to_multiset().insert(x));
        }
        k = k + 1;
    }
    proof {
        assert(ids@.take(n as int) == ids@);
        lemma_sorted_ids_unique(ids@, out@);
    }
    out
}

/// Splits `amount` into `n` shares: position `i` gets `share_at(amount, n, i)`.
pub fn split_shares(amount: i64, n: usize) -> (shares: Vec<i64>)
    requires
        0 < n <= i64::MAX,
    ensures
        shares@.len() == n,
        forall|i: int| 0 <= i < n ==> shares@[i] == share_at(amount as int, n as int, i),
{
    let nn = n as i64;
    let mut base = amount / nn;
    let mut rem = amount % nn;
    proof {
        lemma_floor_from_trunc(amount as int, n as int);
    }
    if rem < 0 {
        rem = rem + nn;
        base = base - 1;
    }
    let mut shares: Vec<i64> = Vec::new();
    let mut i: usize = 0;
    while i < n
        invariant
            nn == n,
            0 < n <= i64::MAX,
            i <= n,
            base == (amount as int) / (n as int),
            rem == (amount as int) % (n as int),
            rem != 0 ==> base + 1 <= i64::MAX,
            shares@.len() == i,
            forall|t: int| 0 <= t < i ==> shares@[t] == share_at(amount as int, n as int, t),
        decreases n - i,
    {
        let s = if (i as i64) < rem {
            base + 1
        } else {
            base
        };
        shares.push(s);
        i = i + 1;
    }
    shares
}

/// Floor division and its remainder from Rust's truncating ones, and the
/// bounds that keep the split within `i64`.
proof fn lemma_floor_from_trunc(amount: int, n: int)
    requires
        0 < n,
        i64::MIN <= amount <= i64::MAX,
    ensures
        0 <= amount % n < n,
        trunc_rem(amount, n) >= 0 ==> amount / n == trunc_div(amount, n) && amount % n
            == trunc_rem(amount, n),
        trunc_rem(amount, n) < 0 ==> amount / n == trunc_div(amount, n) - 1 && amount % n
            == trunc_rem(amount, n) + n && trunc_div(amount, n) - 1 >= i64::MIN,
        amount % n != 0 ==> amount / n + 1 <= i64::MAX,
        i64::MIN <= amount / n <= i64::MAX,
{
    assert(0 <= amount % n < n) by (nonlinear_arith)
        requires
            n > 0,
    ;
    if amount >= 0 {
        assert(0 <= amount / n <= amount) by (nonlinear_arith)
            requires
                n > 0,
                amount >= 0,
        ;
        if amount % n != 0 {
            assert(n >= 2) by {
                if n == 1 {
                    assert(amount % 1 == 0);
                }
            }
            assert(amount / n <= amount / 2) by (nonlinear_arith)
                requires
                    n >= 2,
                    amount >= 0,
            ;
        }
    } else {
        let b = -amount;
        let q = b / n;
        let r = b % n;
        assert(b == n * q + r && 0 <= r < n) by (nonlinear_arith)
            requires
                n > 0,
                q == b / n,
                r == b % n,
        ;
        assert(0 <= q <= b) by (nonlinear_arith)
            requires
                n > 0,
                b > 0,
                q == b / n,
        ;
        if r == 0 {
            assert(amount == (-q) * n + 0) by (nonlinear_arith)
                requires
                    b == n * q,
                    amount == -b,
            ;
            lemma_fundamental_div_mod_converse(amount, n, -q, 0);
        } else {
            assert(amount == (-q - 1) * n + (n - r)) by (nonlinear_arith)
                requires
                    b == n * q + r,
                    amount == -b,
            ;
            lemma_fundamental_div_mod_converse(amount, n, -q - 1, n - r);
            assert(n >= 2) by {
                if n == 1 {
                    assert(b % 1 == 0);
                }
            }
            assert(q <= b / 2) by (nonlinear_arith)
                requires
                    n >= 2,
                    b > 0,
                    q == b / n,
            ;
        }
    }
}

/// Sum of the first `k` shares.
proof fn lemma_split_prefix_sum(amount: int, n: int, k: int)
    requires
        0 < n,
        0 <= k <= n,
    ensures
        sum(split_prefix(amount, n, k as nat)) == k * (amount / n) + if k
            < amount % n {
            k
        } else {
            amount % n
        },
    decreases k,
{
    assert(0 <= amount % n < n) by (nonlinear_arith)
        requires
            n > 0,
    ;
    if k > 0 {
        let s = split_prefix(amount, n, k as nat);
        assert(s.drop_last() =~= split_prefix(amount, n, (k - 1) as nat));
        lemma_split_prefix_sum(amount, n, k - 1);
        assert(s.last() == share_at(amount, n, k - 1));
        assert(sum(s) == sum(s.drop_last()) + s.last());

        assert(k * (amount / n) == (k - 1) * (amount / n) + amount / n) by (nonlinear_arith);
        let q = amount / n;
        let r = amount % n;
        assert(sum(s.drop_last()) == (k - 1) * q + if k - 1 < r { k - 1 } else { r });
        assert(s.last() == q + if k - 1 < r { 1int } else { 0int });
        assert(sum(s) == k * q + if k < r { k } else { r });
    } else {
        assert(sum(split_prefix(amount, n, 0)) == 0);
    }
}

/// The shares add up to the amount.
pub proof fn law_shares_sum_to_amount(amount: int, n: nat)
    requires
        0 < n,
    ensures
        sum(split_spec(amount, n)) == amount,
{
    lemma_split_prefix_sum(amount, n as int, n as int);
    let nn = n as int;
    assert(amount == nn * (amount / nn) + amount % nn) by (nonlinear_arith)
        requires
            nn > 0,
    ;
    assert(amount % nn < nn) by (nonlinear_arith)
        requires
            nn > 0,
    ;
}

/// Every share is the floor of the average or one more, and the larger
/// shares come first.
pub proof fn law_shares_differ_by_at_most_one(amount: int, n: nat, i: int, j: int)
    requires
        0 < n,
        0 <= i <= j < n,
    ensures
        split_spec(amount, n)[i] == amount / (n as int) || split_spec(amount, n)[i] == amount
            / (n as int) + 1,
        split_spec(amount, n)[j] <= split_spec(amount, n)[i] <= split_spec(amount, n)[j] + 1,
{
}

} // verus!
