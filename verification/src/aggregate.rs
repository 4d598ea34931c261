//! Derived views of the ledger, recomputed on demand: spending grouped by
//! the month component of the date, and each category's share of total
//! spending as a whole-number percentage.

use vstd::prelude::*;
use crate::amount::{find_char, lemma_find_char_at, AMOUNT_LIMIT};
use crate::models::{
    cat_spend, lemma_cat_spend_le_neg_total, lemma_sum_bounds, neg_total, sum_values, tx_valid,
    wf_seq, Budget, TxView,
};

verus! {

/// The month component of a date written `YYYY-MM-DD`: the text between the
/// first '-' and the next '-' (or the end). None when the date has no '-'.
pub open spec fn month_of_spec(d: Seq<char>) -> Option<Seq<char>> {
    let i = find_char(d, '-');
    if i == d.len() {
        None
    } else {
        let rest = d.subrange(i + 1, d.len() as int);
        Some(rest.subrange(0, find_char(rest, '-')))
    }
}

/// Absolute amounts of the entries whose date falls in month `m`, summed.
pub open spec fn month_spend(s: Seq<TxView>, m: Seq<char>) -> int
    decreases s.len(),
{
    if s.len() == 0 {
        0
    } else {
        month_spend(s.drop_last(), m) + (if month_of_spec(s.last().date) == Some(m) {
            if s.last().amount < 0 {
                -s.last().amount
            } else {
                s.last().amount
            }
        } else {
            0int
        })
    }
}

/// Some entry's date falls in month `m`.
pub open spec fn month_present(s: Seq<TxView>, m: Seq<char>) -> bool {
    exists|k: int| 0 <= k < s.len() && month_of_spec(#[trigger] s[k].date) == Some(m)
}

pub proof fn lemma_month_spend_bound(s: Seq<TxView>, m: Seq<char>)
    requires
        wf_seq(s),
    ensures
        0 <= month_spend(s, m) <= s.len() * AMOUNT_LIMIT,
    decreases s.len(),
{
    if s.len() > 0 {
        assert(wf_seq(s.drop_last()));
        lemma_month_spend_bound(s.drop_last(), m);
        assert(tx_valid(s[s.len() - 1]));
    }
}

/// A category's share of total spending, as a percentage rounded to the
/// nearest whole number; zero when there is no spending at all.
pub open spec fn percent_of(v: int, total: int) -> int {
    if total <= 0 {
        0
    } else {
        (200 * v + total) / (2 * total)
    }
}

pub open spec fn sum_percents(s: Seq<(String, u64)>) -> int
    decreases s.len(),
{
    if s.len() == 0 {
        0
    } else {
        sum_percents(s.drop_last()) + s.last().1
    }
}

proof fn lemma_sum_values_nonneg(s: Seq<(String, i128)>)
    requires
        forall|q: int| 0 <= q < s.len() ==> s[q].1 >= 0,
    ensures
        sum_values(s) >= 0,
    decreases s.len(),
{
    if s.len() > 0 {
        lemma_sum_values_nonneg(s.drop_last());
    }
}

proof fn lemma_sum_values_prefix(s: Seq<(String, i128)>, i: int)
    requires
        0 <= i <= s.len(),
        forall|q: int| 0 <= q < s.len() ==> s[q].1 >= 0,
    ensures
        0 <= sum_values(s.subrange(0, i)) <= sum_values(s),
    decreases s.len() - i,
{
    assert(forall|q: int| 0 <= q < i ==> s.subrange(0, i)[q].1 >= 0);
    lemma_sum_values_nonneg(s.subrange(0, i));
    if i < s.len() {
        lemma_sum_values_prefix(s, i + 1);
        assert(s.subrange(0, i + 1).drop_last() =~= s.subrange(0, i));
    } else {
        assert(s.subrange(0, i) =~= s);
    }
}

/// The month component of a date, as the monthly chart groups it.
#[verifier::loop_isolation(false)]
pub fn month_of(date: &str) -> (r: Option<String>)
    ensures
        r matches Some(m) ==> month_of_spec(date@) == Some(m@),
        r is None ==> month_of_spec(date@) is None,
{
    let n = date.unicode_len();
    let mut f1: usize = n;
    let mut k: usize = 0;
    while k < n
        invariant
            0 <= k <= n,
            n == date@.len(),
            f1 == n || (f1 < k && date@[f1 as int] == '-' && (forall|q: int|
                0 <= q < f1 ==> date@[q] != '-')),
            f1 == n ==> forall|q: int| 0 <= q < k ==> date@[q] != '-',
        decreases n - k,
    {
        if f1 == n && date.get_char(k) == '-' {
            f1 = k;
        }
        k += 1;
    }
    if f1 == n {
        proof {
            lemma_find_char_at(date@, '-', n as int);
        }
        return None;
    }
    proof {
        lemma_find_char_at(date@, '-', f1 as int);
    }
    let ghost rest = date@.subrange(f1 + 1, n as int);
    let mut f2: usize = n;
    let mut j: usize = f1 + 1;
    while j < n
        invariant
            f1 + 1 <= j <= n,
            n == date@.len(),
            f2 == n || (f2 < j && f1 < f2 && date@[f2 as int] == '-' && (forall|q: int|
                f1 < q < f2 ==> date@[q] != '-')),
            f2 == n ==> forall|q: int| f1 < q < j ==> date@[q] != '-',
        decreases n - j,
    {
        if f2 == n && date.get_char(j) == '-' {
            f2 = j;
        }
        j += 1;
    }
    proof {
        assert(forall|q: int| 0 <= q < f2 - f1 - 1 ==> rest[q] != '-');
        if f2 < n {
            assert(rest[f2 - f1 - 1] == '-');
        }
        lemma_find_char_at(rest, '-', f2 - f1 - 1);
    }
    let sub = date.substring_char(f1 + 1, f2);
    proof {
        assert(sub@ =~= rest.subrange(0, f2 - f1 - 1));
    }
    Some(sub.to_owned())
}

/// Spending per month: every entry's absolute amount is booked to the month
/// component of its date; entries whose date yields no month are skipped.
/// Keys are distinct and the order of the groups is unspecified.
#[verifier::loop_isolation(false)]
pub fn monthly_spending(b: &Budget) -> (r: Vec<(String, i128)>)
    requires
        b.wf(),
    ensures
        forall|i: int, j: int| 0 <= i < j < r@.len() ==> r@[i].0@ != r@[j].0@,
        forall|i: int|
            0 <= i < r@.len() ==> r@[i].1 == month_spend(b@, #[trigger] r@[i].0@),
        forall|i: int| 0 <= i < r@.len() ==> month_present(b@, #[trigger] r@[i].0@),
        forall|k: int|
            0 <= k < b@.len() && (#[trigger] month_of_spec(b@[k].date)) is Some ==> exists|i: int|
                0 <= i < r@.len() && Some(r@[i].0@) == month_of_spec(b@[k].date),
{
    let n = b.transactions.len();
    let mut r: Vec<(String, i128)> = Vec::new();
    let mut k: usize = 0;
    while k < n
        invariant
            0 <= k <= n,
            forall|i: int, j: int| 0 <= i < j < r@.len() ==> r@[i].0@ != r@[j].0@,
            forall|i: int|
                0 <= i < r@.len() ==> r@[i].1 == month_spend(
                    b@.subrange(0, k as int),
                    #[trigger] r@[i].0@,
                ),
            forall|m: Seq<char>|
                #[trigger] month_spend(b@.subrange(0, k as int), m) != 0 ==> exists|i: int|
                    0 <= i < r@.len() && r@[i].0@ == m,
            forall|i: int| 0 <= i < r@.len() ==> month_present(b@, #[trigger] r@[i].0@),
            forall|q: int|
                0 <= q < k && (#[trigger] month_of_spec(b@[q].date)) is Some ==> exists|i: int|
                    0 <= i < r@.len() && Some(r@[i].0@) == month_of_spec(b@[q].date),
        decreases n - k,
    {
        let ghost pre = b@.subrange(0, k as int);
        let ghost post = b@.subrange(0, k as int + 1);
        let ghost tv = b@[k as int];
        proof {
            assert(post.drop_last() =~= pre);
            assert(post.last() == tv);
            assert(tx_valid(tv));
            assert(forall|m: Seq<char>|
                #[trigger] month_spend(post, m) == month_spend(pre, m) + (if month_of_spec(
                    tv.date,
                ) == Some(m) {
                    if tv.amount < 0 {
                        -tv.amount
                    } else {
                        tv.amount
                    }
                } else {
                    0int
                }));
            assert(wf_seq(pre));
        }
        let t = &b.transactions[k];
        proof {
            assert(t@ == tv);
        }
        let month = month_of(t.date.as_str());
        match month {
            Some(mn) => {
                let x: i128 = if t.amount < 0 {
                    -(t.amount as i128)
                } else {
                    t.amount as i128
                };
                let rl = r.len();
                let mut j: usize = 0;
                let mut idx: usize = rl;
                while j < rl
                    invariant
                        0 <= j <= rl,
                        rl == r@.len(),
                        idx == rl || (idx < rl && r@[idx as int].0@ == mn@),
                        idx == rl ==> forall|q: int| 0 <= q < j ==> r@[q].0@ != mn@,
                    decreases rl - j,
                {
                    if idx == rl && r[j].0 == mn {
                        idx = j;
                    }
                    j += 1;
                }
                if idx < rl {
                    proof {
                        lemma_month_spend_bound(pre, r@[idx as int].0@);
                        vstd::arithmetic::mul::lemma_mul_inequality(
                            k as int,
                            0x1_0000_0000_0000_0000,
                            AMOUNT_LIMIT as int,
                        );
                    }
                    let ghost r0 = r@;
                    let cur = r.remove(idx);
                    let bumped = (cur.0, cur.1 + x);
                    let ghost bp = bumped;
                    r.insert(idx, bumped);
                    proof {
                        assert(r@ =~= r0.update(idx as int, bp));
                        assert(bp.0@ == mn@);
                        assert forall|i: int|
                            0 <= i < r@.len() implies month_present(b@, r@[i].0@) by {
                            assert(r@[i].0@ == r0[i].0@);
                            assert(month_present(b@, r0[i].0@));
                        }
                        assert forall|m: Seq<char>|
                            #[trigger] month_spend(post, m) != 0 implies exists|i: int|
                            0 <= i < r@.len() && r@[i].0@ == m by {
                            if month_spend(pre, m) != 0 {
                                let w = choose|i: int| 0 <= i < r0.len() && r0[i].0@ == m;
                                assert(r@[w].0@ == m);
                            } else {
                                assert(month_of_spec(tv.date) == Some(m));
                                assert(r@[idx as int].0@ == m);
                            }
                        }
                        assert forall|q: int|
                            0 <= q < k + 1 && (#[trigger] month_of_spec(
                                b@[q].date,
                            )) is Some implies exists|i: int|
                            0 <= i < r@.len() && Some(r@[i].0@) == month_of_spec(b@[q].date) by {
                            if q < k {
                                let w = choose|i: int|
                                    0 <= i < r0.len() && Some(r0[i].0@) == month_of_spec(
                                        b@[q].date,
                                    );
                                assert(Some(r@[w].0@) == month_of_spec(b@[q].date));
                            } else {
                                assert(Some(r@[idx as int].0@) == month_of_spec(b@[q].date));
                            }
                        }
                    }
                } else {
                    proof {
                        if month_spend(pre, mn@) != 0 {
                            let w = choose|i: int| 0 <= i < r@.len() && r@[i].0@ == mn@;
                            assert(false);
                        }
                    }
                    let ghost r0 = r@;
                    let entry = (mn, x);
                    let ghost ep = entry;
                    r.push(entry);
                    proof {
                        assert(r@.drop_last() =~= r0);
                        assert(r@.last() == ep);
                        assert(forall|q: int| 0 <= q < r0.len() ==> r@[q] == r0[q]);
                        assert(ep.0@ == mn@);
                        assert(month_of_spec(b@[k as int].date) == Some(mn@));
                        assert(month_present(b@, mn@));
                        assert forall|i: int|
                            0 <= i < r@.len() implies month_present(b@, r@[i].0@) by {
                            if i < r0.len() {
                                assert(r@[i].0@ == r0[i].0@);
                                assert(month_present(b@, r0[i].0@));
                            } else {
                                assert(r@[i].0@ == mn@);
                            }
                        }
                        assert forall|m: Seq<char>|
                            #[trigger] month_spend(post, m) != 0 implies exists|i: int|
                            0 <= i < r@.len() && r@[i].0@ == m by {
                            if month_spend(pre, m) != 0 {
                                let w = choose|i: int| 0 <= i < r0.len() && r0[i].0@ == m;
                                assert(r@[w].0@ == m);
                            } else {
                                assert(month_of_spec(tv.date) == Some(m));
                                assert(r@[r0.len() as int].0@ == m);
                            }
                        }
                        assert forall|q: int|
                            0 <= q < k + 1 && (#[trigger] month_of_spec(
                                b@[q].date,
                            )) is Some implies exists|i: int|
                            0 <= i < r@.len() && Some(r@[i].0@) == month_of_spec(b@[q].date) by {
                            if q < k {
                                let w = choose|i: int|
                                    0 <= i < r0.len() && Some(r0[i].0@) == month_of_spec(
                                        b@[q].date,
                                    );
                                assert(Some(r@[w].0@) == month_of_spec(b@[q].date));
                            } else {
                                assert(Some(r@[r0.len() as int].0@) == month_of_spec(b@[q].date));
                            }
                        }
                    }
                }
            },
            None => {
                proof {
                    assert(month_of_spec(tv.date) is None);
                }
            },
        }
        k += 1;
    }
    proof {
        assert(b@.subrange(0, n as int) =~= b@);
    }
    r
}

/// Each category's whole-number share of total spending. With no spending
/// at all the list is empty; otherwise the shares sum to 100 give or take
/// one per category, from rounding.
#[verifier::loop_isolation(false)]
#[verifier::rlimit(60)]
pub fn category_percentages(b: &Budget) -> (r: Vec<(String, u64)>)
    requires
        b.wf(),
    ensures
        forall|i: int, j: int| 0 <= i < j < r@.len() ==> r@[i].0@ != r@[j].0@,
        forall|i: int|
            0 <= i < r@.len() ==> r@[i].1 == percent_of(
                cat_spend(b@, #[trigger] r@[i].0@),
                neg_total(b@),
            ) && cat_spend(b@, r@[i].0@) > 0,
        forall|c: Seq<char>|
            #[trigger] cat_spend(b@, c) != 0 ==> exists|i: int|
                0 <= i < r@.len() && r@[i].0@ == c,
        neg_total(b@) == 0 ==> r@.len() == 0,
        neg_total(b@) > 0 ==> 100 - r@.len() <= sum_percents(r@) <= 100 + r@.len(),
{
    let spend = b.spending_by_category();
    let m = spend.len();
    let lb = b.transactions.len();
    let mut total: i128 = 0;
    let mut q: usize = 0;
    while q < m
        invariant
            0 <= q <= m,
            total == sum_values(spend@.subrange(0, q as int)),
        decreases m - q,
    {
        proof {
            assert(spend@.subrange(0, q + 1).drop_last() =~= spend@.subrange(0, q as int));
            lemma_sum_values_prefix(spend@, q as int);
            lemma_sum_values_prefix(spend@, q + 1);
            lemma_sum_bounds(b@);
            assert(b@.len() == lb);
            vstd::arithmetic::mul::lemma_mul_inequality(
                lb as int,
                0x1_0000_0000_0000_0000,
                AMOUNT_LIMIT as int,
            );
        }
        total = total + spend[q].1;
        q += 1;
    }
    proof {
        assert(spend@.subrange(0, m as int) =~= spend@);
    }
    let ghost t = neg_total(b@);
    proof {
        assert(total == t);
    }
    if total == 0 {
        proof {
            assert forall|c: Seq<char>| #[trigger] cat_spend(b@, c) == 0 by {
                lemma_cat_spend_le_neg_total(b@, c);
            }
        }
        return Vec::new();
    }
    let bl = b.transactions.len();
    proof {
        lemma_sum_bounds(b@);
        assert(t > 0);
        assert(b@.len() == bl);
        vstd::arithmetic::mul::lemma_mul_inequality(
            bl as int,
            0x1_0000_0000_0000_0000,
            AMOUNT_LIMIT as int,
        );
    }
    let mut r: Vec<(String, u64)> = Vec::new();
    let mut k: usize = 0;
    while k < m
        invariant
            0 <= k <= m,
            r@.len() == k,
            total == t,
            t > 0,
            t <= 0x1_0000_0000_0000_0000i128 * (AMOUNT_LIMIT as i128),
            forall|i: int|
                0 <= i < k ==> r@[i].0@ == spend@[i].0@ && r@[i].1 == percent_of(
                    spend@[i].1 as int,
                    t,
                ),
            2 * t * sum_percents(r@) <= 200 * sum_values(spend@.subrange(0, k as int)) + k * t,
            200 * sum_values(spend@.subrange(0, k as int)) + k * t <= 2 * t * sum_percents(r@) + 2
                * (k * t) - k,
        decreases m - k,
    {
        let v = spend[k].1;
        proof {
            assert(spend@[k as int].1 == cat_spend(b@, spend@[k as int].0@));
            lemma_cat_spend_le_neg_total(b@, spend@[k as int].0@);
            assert(0 < v <= t);
        }
        let p128: i128 = (200 * v + total) / (2 * total);
        let ghost s0 = sum_percents(r@);
        let ghost v0 = sum_values(spend@.subrange(0, k as int));
        proof {
            vstd::arithmetic::div_mod::lemma_fundamental_div_mod(200 * (v as int) + t, 2 * t);
            vstd::arithmetic::div_mod::lemma_mod_division_less_than_divisor(
                200 * (v as int) + t,
                2 * t,
            );
            assert(2 * t * (p128 as int) <= 200 * (v as int) + t);
            assert(200 * (v as int) + t < 2 * t * (p128 as int) + 2 * t);
            assert(p128 <= 100) by (nonlinear_arith)
                requires
                    2 * t * (p128 as int) <= 200 * (v as int) + t,
                    v <= t,
                    t > 0,
            ;
            assert(p128 >= 0) by (nonlinear_arith)
                requires
                    200 * (v as int) + t < 2 * t * (p128 as int) + 2 * t,
                    v > 0,
                    t > 0,
            ;
        }
        let p: u64 = p128 as u64;
        let ghost r0 = r@;
        let entry = (spend[k].0.clone(), p);
        let ghost ep = entry;
        r.push(entry);
        proof {
            assert(r@.drop_last() =~= r0);
            assert(r@.last() == ep);
            assert(forall|q2: int| 0 <= q2 < r0.len() ==> r@[q2] == r0[q2]);
            assert(sum_percents(r@) == s0 + p);
            assert(spend@.subrange(0, k + 1).drop_last() =~= spend@.subrange(0, k as int));
            assert(sum_values(spend@.subrange(0, k + 1)) == v0 + v);
            assert(2 * t * (s0 + p128 as int) == 2 * t * s0 + 2 * t * (p128 as int))
                by (nonlinear_arith);
            assert((k as int + 1) * t == k as int * t + t) by (nonlinear_arith);
            assert(2 * ((k as int + 1) * t) == 2 * (k as int * t) + 2 * t) by (nonlinear_arith);
        }
        k += 1;
    }
    proof {
        assert(spend@.subrange(0, m as int) =~= spend@);
        let s = sum_percents(r@);
        assert(2 * t * s <= 200 * t + m as int * t);
        assert(200 * t + m as int * t <= 2 * t * s + 2 * (m as int * t) - m);
        assert(s <= 100 + m as int) by (nonlinear_arith)
            requires
                2 * t * s <= 200 * t + m as int * t,
                t > 0,
                m as int >= 0,
        ;
        assert(s >= 100 - m as int) by (nonlinear_arith)
            requires
                200 * t + m as int * t <= 2 * t * s + 2 * (m as int * t) - m,
                t > 0,
                m as int >= 0,
        ;
        assert forall|c: Seq<char>|
            #[trigger] cat_spend(b@, c) != 0 implies exists|i: int|
            0 <= i < r@.len() && r@[i].0@ == c by {
            let w = choose|i: int| 0 <= i < spend@.len() && spend@[i].0@ == c;
            assert(r@[w].0@ == c);
        }
        assert forall|i: int| 0 <= i < r@.len() implies cat_spend(b@, r@[i].0@) > 0 by {
            assert(spend@[i].1 == cat_spend(b@, spend@[i].0@) && spend@[i].1 > 0);
        }
    }
    r
}

} // verus!
