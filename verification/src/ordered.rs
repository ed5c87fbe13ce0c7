//! Ids in ascending order: the order in which the store lists its rows.
use vstd::prelude::*;
use vstd::std_specs::btree::increasing_seq;
use vstd::std_specs::cmp::OrdSpec;

verus! {

/// `s` is strictly increasing.
pub open spec fn strictly_increasing(s: Seq<u128>) -> bool {
    forall|i: int, j: int| 0 <= i < j < s.len() ==> s[i] < s[j]
}

/// The ids of the finite set `d` in ascending order.
pub open spec fn ascending(d: Set<u128>) -> Seq<u128> {
    choose|s: Seq<u128>| strictly_increasing(s) && s.to_set() == d
}

/// Two ascending sequences of the same ids are equal.
pub proof fn lemma_ascending_unique(s: Seq<u128>, t: Seq<u128>)
    requires
        strictly_increasing(s),
        strictly_increasing(t),
        s.to_set() == t.to_set(),
    ensures
        s == t,
    decreases s.len(),
{
    if s.len() == 0 {
        if t.len() > 0 {
            assert(t.to_set().contains(t[0]));
        }
    } else if t.len() == 0 {
        assert(s.to_set().contains(s[0]));
    } else {
        assert(s.to_set().contains(s[0]));
        assert(t.to_set().contains(t[0]));
        let j = choose|j: int| 0 <= j < t.len() && t[j] == s[0];
        let k = choose|k: int| 0 <= k < s.len() && s[k] == t[0];
        assert(s[0] <= s[k]);
        assert(t[0] <= t[j]);
        assert(s[0] == t[0]);
        let s1 = s.drop_first();
        let t1 = t.drop_first();
        assert forall|x: u128| s1.to_set().contains(x) implies t1.to_set().contains(x) by {
            let a = choose|a: int| 0 <= a < s1.len() && s1[a] == x;
            assert(s.to_set().contains(x));
            assert(s[a + 1] == x);
            let b = choose|b: int| 0 <= b < t.len() && t[b] == x;
            assert(b != 0);
            assert(t1[b - 1] == x);
        }
        assert forall|x: u128| t1.to_set().contains(x) implies s1.to_set().contains(x) by {
            let a = choose|a: int| 0 <= a < t1.len() && t1[a] == x;
            assert(t.to_set().contains(x));
            assert(t[a + 1] == x);
            let b = choose|b: int| 0 <= b < s.len() && s[b] == x;
            assert(b != 0);
            assert(s1[b - 1] == x);
        }
        assert(s1.to_set() =~= t1.to_set());
        lemma_ascending_unique(s1, t1);
        assert(s =~= seq![s[0]] + s1);
        assert(t =~= seq![t[0]] + t1);
    }
}

/// The order that `BTreeMap` keeps on `u128` keys is `<`.
pub proof fn lemma_increasing_ids(ks: Seq<u128>)
    requires
        increasing_seq(ks),
    ensures
        strictly_increasing(ks),
{
    broadcast use vstd::laws_cmp::group_laws_cmp;
    assert(vstd::laws_cmp::obeys_cmp::<u128>());
    assert forall|i: int, j: int| 0 <= i < j < ks.len() implies ks[i] < ks[j] by {
        assert(ks[i].cmp_spec(&ks[j]) is Less);
    }
}

/// A strictly increasing sequence listing `d` is `ascending(d)`.
pub proof fn lemma_is_ascending(s: Seq<u128>, d: Set<u128>)
    requires
        strictly_increasing(s),
        s.to_set() == d,
    ensures
        ascending(d) == s,
{
    let a = ascending(d);
    assert(strictly_increasing(a) && a.to_set() == d);
    lemma_ascending_unique(a, s);
}

/// Every finite set of ids can be listed in ascending order.
pub proof fn lemma_ascending_exists(d: Set<u128>)
    requires
        d.finite(),
    ensures
        strictly_increasing(ascending(d)),
        ascending(d).to_set() == d,
    decreases d.len(),
{
    if d.len() == 0 {
        let e = Seq::<u128>::empty();
        assert(e.to_set() =~= d);
        assert(strictly_increasing(e) && e.to_set() == d);
    } else {
        let x = d.choose();
        let rest = d.remove(x);
        lemma_ascending_exists(rest);
        let s = ascending(rest);
        assert(!s.contains(x)) by {
            if s.contains(x) {
                assert(s.to_set().contains(x));
            }
        }
        lemma_insert_position(s, x);
        let i = choose|i: int| fits_at(s, x, i);
        let t = s.take(i).push(x) + s.skip(i);
        assert(t.len() == s.len() + 1);
        assert forall|a: int, b: int| 0 <= a < b < t.len() implies t[a] < t[b] by {
            if b < i {
                assert(t[a] == s[a] && t[b] == s[b]);
            } else if b == i {
                assert(t[a] == s[a]);
            } else if a < i {
                assert(t[a] == s[a] && t[b] == s[b - 1]);
                assert(s[a] < x);
                assert(x < s[i]);
                if b - 1 > i {
                    assert(s[i] < s[b - 1]);
                }
            } else if a == i {
                assert(t[b] == s[b - 1]);
                if b - 1 > i {
                    assert(s[i] < s[b - 1]);
                }
            } else {
                assert(t[a] == s[a - 1] && t[b] == s[b - 1]);
            }
        }
        assert forall|y: u128| t.to_set().contains(y) <==> d.contains(y) by {
            if t.to_set().contains(y) {
                let k = choose|k: int| 0 <= k < t.len() && t[k] == y;
                if k < i {
                    assert(s[k] == y);
                    assert(s.to_set().contains(y));
                } else if k > i {
                    assert(s[k - 1] == y);
                    assert(s.to_set().contains(y));
                }
            }
            if d.contains(y) {
                if y == x {
                    assert(t[i] == y);
                } else {
                    assert(rest.contains(y));
                    assert(s.to_set().contains(y));
                    let k = choose|k: int| 0 <= k < s.len() && s[k] == y;
                    if k < i {
                        assert(t[k] == y);
                    } else {
                        assert(t[k + 1] == y);
                    }
                }
            }
        }
        assert(t.to_set() =~= d);
        assert(strictly_increasing(t) && t.to_set() == d);
    }
}

/// Whether `x` goes at position `i` of the ascending list `s`.
spec fn fits_at(s: Seq<u128>, x: u128, i: int) -> bool {
    &&& 0 <= i <= s.len()
    &&& forall|j: int| 0 <= j < i ==> s[j] < x
    &&& i < s.len() ==> x < s[i]
}

/// Where `x` goes in the ascending list `s` (which does not hold it).
proof fn lemma_insert_position(s: Seq<u128>, x: u128)
    requires
        strictly_increasing(s),
        !s.contains(x),
    ensures
        exists|i: int| fits_at(s, x, i),
    decreases s.len(),
{
    if s.len() == 0 {
        assert(fits_at(s, x, 0));
    } else if x < s[0] {
        assert(fits_at(s, x, 0));
    } else {
        assert(s[0] != x);
        let rest = s.drop_first();
        assert(!rest.contains(x)) by {
            if rest.contains(x) {
                let k = choose|k: int| 0 <= k < rest.len() && rest[k] == x;
                assert(s[k + 1] == x);
            }
        }
        lemma_insert_position(rest, x);
        let i = choose|i: int| fits_at(rest, x, i);
        assert forall|j: int| 0 <= j < i + 1 implies s[j] < x by {
            if j > 0 {
                assert(s[j] == rest[j - 1]);
            }
        }
        if i + 1 < s.len() {
            assert(s[i + 1] == rest[i]);
        }
        assert(fits_at(s, x, i + 1));
    }
}

/// Keeping the ids that satisfy `p` keeps an ascending list ascending.
proof fn lemma_filter_increasing(s: Seq<u128>, p: spec_fn(u128) -> bool)
    requires
        strictly_increasing(s),
    ensures
        strictly_increasing(s.filter(p)),
    decreases s.len(),
{
    reveal(Seq::filter);
    if s.len() > 0 {
        let init = s.drop_last();
        lemma_filter_increasing(init, p);
        let f = init.filter(p);
        if p(s.last()) {
            assert forall|i: int| 0 <= i < f.len() implies f[i] < s.last() by {
                assert(f.contains(f[i]));
                init.lemma_filter_contains_rev(p, f[i]);
                let j = choose|j: int| 0 <= j < init.len() && init[j] == f[i];
                assert(s[j] < s[s.len() - 1]);
            }
            assert(s.filter(p) == f.push(s.last()));
        }
    }
}

/// The ascending list of the ids of an ascending list that satisfy `p` is
/// that list with the others left out.
pub proof fn lemma_ascending_filter(s: Seq<u128>, p: spec_fn(u128) -> bool)
    requires
        strictly_increasing(s),
    ensures
        ascending(s.to_set().filter(p)) == s.filter(p),
{
    broadcast use vstd::seq_lib::group_filter_ensures;
    lemma_filter_increasing(s, p);
    let f = s.filter(p);
    assert forall|x: u128| f.to_set().contains(x) <==> s.to_set().filter(p).contains(x) by {
        if f.contains(x) {
            s.lemma_filter_contains_rev(p, x);
            let i = choose|i: int| 0 <= i < f.len() && f[i] == x;
            assert(p(f[i]));
        }
        if s.contains(x) && p(x) {
            let i = choose|i: int| 0 <= i < s.len() && s[i] == x;
            s.lemma_filter_contains(p, i);
        }
    }
    assert(f.to_set() =~= s.to_set().filter(p));
    lemma_is_ascending(f, s.to_set().filter(p));
}

} // verus!
