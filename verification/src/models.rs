//! The ledger and its aggregation queries: an ordered list of transactions,
//! the signed total, and per-category spending.

use vstd::prelude::*;
use crate::amount::AMOUNT_LIMIT;

verus! {

/// Mathematical value of one transaction: cents and the three text fields.
pub ghost struct TxView {
    pub amount: int,
    pub category: Seq<char>,
    pub date: Seq<char>,
    pub description: Seq<char>,
}

/// One ledger entry. `amount` is in cents; positive is income, negative is
/// an expense. `date` is kept as entered, expected as `YYYY-MM-DD`.
#[derive(Clone)]
pub struct Transaction {
    pub amount: i64,
    pub category: String,
    pub date: String,
    pub description: String,
}

impl View for Transaction {
    type V = TxView;

    open spec fn view(&self) -> TxView {
        TxView {
            amount: self.amount as int,
            category: self.category@,
            date: self.date@,
            description: self.description@,
        }
    }
}

/// An amount the ledger accepts: bounded so ledger-wide sums cannot
/// overflow the integers they are computed with.
pub open spec fn tx_valid(t: TxView) -> bool {
    -AMOUNT_LIMIT <= t.amount <= AMOUNT_LIMIT
}

pub open spec fn wf_seq(s: Seq<TxView>) -> bool {
    forall|i: int| 0 <= i < s.len() ==> tx_valid(#[trigger] s[i])
}

/// Sum of all amounts, in cents: the ledger balance.
pub open spec fn sum_amounts(s: Seq<TxView>) -> int
    decreases s.len(),
{
    if s.len() == 0 {
        0
    } else {
        sum_amounts(s.drop_last()) + s.last().amount
    }
}

/// Total spending: the absolute values of all negative amounts, summed.
pub open spec fn neg_total(s: Seq<TxView>) -> int
    decreases s.len(),
{
    if s.len() == 0 {
        0
    } else {
        neg_total(s.drop_last()) + (if s.last().amount < 0 {
            -s.last().amount
        } else {
            0int
        })
    }
}

/// Spending booked to category `c`: absolute values of the negative
/// amounts whose category is `c`, summed.
pub open spec fn cat_spend(s: Seq<TxView>, c: Seq<char>) -> int
    decreases s.len(),
{
    if s.len() == 0 {
        0
    } else {
        cat_spend(s.drop_last(), c) + (if s.last().amount < 0 && s.last().category == c {
            -s.last().amount
        } else {
            0int
        })
    }
}

/// Sum of the numeric halves of a keyed list of totals.
pub open spec fn sum_values(s: Seq<(String, i128)>) -> int
    decreases s.len(),
{
    if s.len() == 0 {
        0
    } else {
        sum_values(s.drop_last()) + s.last().1
    }
}

/// Adding one entry adds exactly its amount to the sum.
pub proof fn lemma_sum_amounts_push(s: Seq<TxView>, t: TxView)
    ensures
        sum_amounts(s.push(t)) == sum_amounts(s) + t.amount,
{
    assert(s.push(t).drop_last() =~= s);
}

/// Concatenation splits the sum: together with commutativity of addition
/// this makes the total independent of the order entries arrive in.
pub proof fn lemma_sum_amounts_concat(s1: Seq<TxView>, s2: Seq<TxView>)
    ensures
        sum_amounts(s1 + s2) == sum_amounts(s1) + sum_amounts(s2),
    decreases s2.len(),
{
    if s2.len() == 0 {
        assert(s1 + s2 =~= s1);
    } else {
        assert((s1 + s2).drop_last() =~= s1 + s2.drop_last());
        lemma_sum_amounts_concat(s1, s2.drop_last());
        assert((s1 + s2).last() == s2.last());
    }
}

/// The ledger total does not depend on the order entries were added:
/// the same entries in either order sum alike.
pub proof fn lemma_total_order_independent(s1: Seq<TxView>, s2: Seq<TxView>)
    ensures
        sum_amounts(s1 + s2) == sum_amounts(s2 + s1),
{
    lemma_sum_amounts_concat(s1, s2);
    lemma_sum_amounts_concat(s2, s1);
}

proof fn lemma_sum_amounts_fold(s: Seq<TxView>, b: int)
    ensures
        s.fold_right(|t: TxView, acc: int| acc + t.amount, b) == b + sum_amounts(s),
    decreases s.len(),
{
    if s.len() > 0 {
        lemma_sum_amounts_fold(s.drop_last(), b + s.last().amount);
    }
}

/// The total is a function of which transactions the ledger holds, not of
/// the order they were added in: two ledgers with the same entries, as a
/// multiset, have the same total.
pub proof fn lemma_total_permutation_independent(s1: Seq<TxView>, s2: Seq<TxView>)
    requires
        s1.to_multiset() == s2.to_multiset(),
    ensures
        sum_amounts(s1) == sum_amounts(s2),
{
    let f = |t: TxView, acc: int| acc + t.amount;
    assert forall|x: TxView, y: TxView, v: int| #[trigger]
        f(x, f(y, v)) == f(y, f(x, v)) by {
        assert(f(x, f(y, v)) == v + y.amount + x.amount);
        assert(f(y, f(x, v)) == v + x.amount + y.amount);
    }
    vstd::seq_lib::lemma_fold_right_permutation(s1, s2, f, 0);
    lemma_sum_amounts_fold(s1, 0);
    lemma_sum_amounts_fold(s2, 0);
}

pub proof fn lemma_sum_bounds(s: Seq<TxView>)
    requires
        wf_seq(s),
    ensures
        -(s.len() * AMOUNT_LIMIT) <= sum_amounts(s) <= s.len() * AMOUNT_LIMIT,
        0 <= neg_total(s) <= s.len() * AMOUNT_LIMIT,
    decreases s.len(),
{
    if s.len() > 0 {
        assert(wf_seq(s.drop_last()));
        lemma_sum_bounds(s.drop_last());
        assert(tx_valid(s[s.len() - 1]));
    }
}

/// A single category never accounts for more than all spending.
pub proof fn lemma_cat_spend_le_neg_total(s: Seq<TxView>, c: Seq<char>)
    ensures
        0 <= cat_spend(s, c) <= neg_total(s),
    decreases s.len(),
{
    if s.len() > 0 {
        lemma_cat_spend_le_neg_total(s.drop_last(), c);
    }
}

pub proof fn lemma_sum_values_update(s: Seq<(String, i128)>, j: int, p: (String, i128))
    requires
        0 <= j < s.len(),
    ensures
        sum_values(s.update(j, p)) == sum_values(s) - s[j].1 + p.1,
    decreases s.len(),
{
    if j == s.len() - 1 {
        assert(s.update(j, p).drop_last() =~= s.drop_last());
        assert(s.update(j, p).last() == p);
    } else {
        assert(s.update(j, p).drop_last() =~= s.drop_last().update(j, p));
        lemma_sum_values_update(s.drop_last(), j, p);
        assert(s.update(j, p).last() == s.last());
        assert(s.drop_last()[j] == s[j]);
    }
}

/// The ledger: an ordered list of transactions, insertion order preserved.
pub struct Budget {
    pub transactions: Vec<Transaction>,
}

impl View for Budget {
    type V = Seq<TxView>;

    open spec fn view(&self) -> Seq<TxView> {
        self.transactions@.map_values(|t: Transaction| t@)
    }
}

impl Budget {
    pub open spec fn wf(&self) -> bool {
        wf_seq(self@)
    }

    pub fn new() -> (b: Budget)
        ensures
            b@ == Seq::<TxView>::empty(),
            b.wf(),
    {
        let b = Budget { transactions: Vec::new() };
        proof {
            assert(b@ =~= Seq::<TxView>::empty());
        }
        b
    }

    /// Appends at the end; always succeeds.
    pub fn add_transaction(&mut self, transaction: Transaction)
        requires
            old(self).wf(),
            tx_valid(transaction@),
        ensures
            final(self)@ == old(self)@.push(transaction@),
            final(self).wf(),
    {
        let ghost tv = transaction@;
        self.transactions.push(transaction);
        proof {
            assert(self@ =~= old(self)@.push(tv));
        }
    }

    /// Removes the entry at `index` and shifts later entries down;
    /// a no-op when `index` is out of range.
    pub fn remove_transaction(&mut self, index: usize)
        ensures
            index < old(self)@.len() ==> final(self)@ == old(self)@.remove(index as int),
            index >= old(self)@.len() ==> *final(self) == *old(self),
            old(self).wf() ==> final(self).wf(),
    {
        if index < self.transactions.len() {
            self.transactions.remove(index);
            proof {
                assert(self@ =~= old(self)@.remove(index as int));
                if old(self).wf() {
                    assert(forall|i: int|
                        0 <= i < self@.len() ==> tx_valid(#[trigger] self@[i]));
                }
            }
        }
    }

    /// The balance: the sum of every amount, zero for an empty ledger.
    #[verifier::loop_isolation(false)]
    pub fn total_balance(&self) -> (t: i128)
        requires
            self.wf(),
        ensures
            t == sum_amounts(self@),
    {
        let n = self.transactions.len();
        let mut acc: i128 = 0;
        let mut k: usize = 0;
        while k < n
            invariant
                0 <= k <= n,
                acc == sum_amounts(self@.subrange(0, k as int)),
                -((k as int) * AMOUNT_LIMIT) <= acc <= (k as int) * AMOUNT_LIMIT,
            decreases n - k,
        {
            proof {
                assert(self@.subrange(0, k + 1).drop_last() =~= self@.subrange(0, k as int));
                assert(self@.subrange(0, k + 1).last() == self@[k as int]);
                assert(tx_valid(self@[k as int]));
                vstd::arithmetic::mul::lemma_mul_inequality(
                    k as int + 1,
                    0x1_0000_0000_0000_0000,
                    AMOUNT_LIMIT as int,
                );
            }
            acc = acc + self.transactions[k].amount as i128;
            k += 1;
        }
        proof {
            assert(self@.subrange(0, n as int) =~= self@);
        }
        acc
    }

    /// Per-category spending: for negative amounts only, groups by category
    /// and sums absolute values. Categories with no negative entry are
    /// absent; the order of the groups is unspecified. The values sum to
    /// the total spending.
    #[verifier::loop_isolation(false)]
    pub fn spending_by_category(&self) -> (r: Vec<(String, i128)>)
        requires
            self.wf(),
        ensures
            forall|i: int, j: int| 0 <= i < j < r@.len() ==> r@[i].0@ != r@[j].0@,
            forall|i: int|
                0 <= i < r@.len() ==> r@[i].1 == cat_spend(self@, #[trigger] r@[i].0@)
                    && r@[i].1 > 0,
            forall|c: Seq<char>|
                #[trigger] cat_spend(self@, c) != 0 ==> exists|i: int|
                    0 <= i < r@.len() && r@[i].0@ == c,
            sum_values(r@) == neg_total(self@),
    {
        let n = self.transactions.len();
        let mut r: Vec<(String, i128)> = Vec::new();
        let mut k: usize = 0;
        while k < n
            invariant
                0 <= k <= n,
                forall|i: int, j: int| 0 <= i < j < r@.len() ==> r@[i].0@ != r@[j].0@,
                forall|i: int|
                    0 <= i < r@.len() ==> r@[i].1 == cat_spend(
                        self@.subrange(0, k as int),
                        #[trigger] r@[i].0@,
                    ) && r@[i].1 > 0,
                forall|c: Seq<char>|
                    #[trigger] cat_spend(self@.subrange(0, k as int), c) != 0 ==> exists|i: int|
                        0 <= i < r@.len() && r@[i].0@ == c,
                sum_values(r@) == neg_total(self@.subrange(0, k as int)),
            decreases n - k,
        {
            let ghost pre = self@.subrange(0, k as int);
            let ghost post = self@.subrange(0, k as int + 1);
            let ghost tv = self@[k as int];
            proof {
                assert(post.drop_last() =~= pre);
                assert(post.last() == tv);
                assert(tx_valid(tv));
                assert(forall|c: Seq<char>|
                    #[trigger] cat_spend(post, c) == cat_spend(pre, c) + (if tv.amount < 0
                        && tv.category == c {
                        -tv.amount
                    } else {
                        0int
                    }));
                assert(neg_total(post) == neg_total(pre) + (if tv.amount < 0 {
                    -tv.amount
                } else {
                    0int
                }));
                assert(wf_seq(pre));
                lemma_sum_bounds(pre);
            }
            let t = &self.transactions[k];
            proof {
                assert(t@ == tv);
            }
            if t.amount < 0 {
                let x: i128 = -(t.amount as i128);
                let rl = r.len();
                let mut j: usize = 0;
                let mut idx: usize = rl;
                while j < rl
                    invariant
                        0 <= j <= rl,
                        rl == r@.len(),
                        idx == rl || (idx < rl && r@[idx as int].0@ == t.category@),
                        idx == rl ==> forall|q: int| 0 <= q < j ==> r@[q].0@ != t.category@,
                    decreases rl - j,
                {
                    if idx == rl && r[j].0 == t.category {
                        idx = j;
                    }
                    j += 1;
                }
                if idx < rl {
                    proof {
                        lemma_cat_spend_le_neg_total(pre, r@[idx as int].0@);
                        vstd::arithmetic::mul::lemma_mul_inequality(
                            k as int + 1,
                            0x1_0000_0000_0000_0000,
                            AMOUNT_LIMIT as int,
                        );
                    }
                    let ghost r0 = r@;
                    let cur = r.remove(idx);
                    let bumped = (cur.0, cur.1 + x);
                    let ghost bp = bumped;
                    r.insert(idx, bumped);
                    proof {
                        assert(r@ =~= r0.update(idx as int, bp));
                        lemma_sum_values_update(r0, idx as int, bp);
                        assert(bp.0@ == tv.category);
                        assert forall|c: Seq<char>|
                            #[trigger] cat_spend(post, c) != 0 implies exists|i: int|
                            0 <= i < r@.len() && r@[i].0@ == c by {
                            if cat_spend(pre, c) != 0 {
                                let w = choose|i: int| 0 <= i < r0.len() && r0[i].0@ == c;
                                assert(r@[w].0@ == c);
                            } else {
                                assert(c == tv.category);
                                assert(r@[idx as int].0@ == c);
                            }
                        }
                    }
                } else {
                    proof {
                        if cat_spend(pre, t.category@) != 0 {
                            let w = choose|i: int|
                                0 <= i < r@.len() && r@[i].0@ == t.category@;
                            assert(false);
                        }
                    }
                    let ghost r0 = r@;
                    let entry = (t.category.clone(), x);
                    let ghost ep = entry;
                    r.push(entry);
                    proof {
                        assert(r@.drop_last() =~= r0);
                        assert(r@.last() == ep);
                        assert(ep.0@ == tv.category);
                        assert(forall|q: int| 0 <= q < r0.len() ==> r@[q] == r0[q]);
                        assert forall|c: Seq<char>|
                            #[trigger] cat_spend(post, c) != 0 implies exists|i: int|
                            0 <= i < r@.len() && r@[i].0@ == c by {
                            if cat_spend(pre, c) != 0 {
                                let w = choose|i: int| 0 <= i < r0.len() && r0[i].0@ == c;
                                assert(r@[w].0@ == c);
                            } else {
                                assert(c == tv.category);
                                assert(r@[r0.len() as int].0@ == c);
                            }
                        }
                    }
                }
            }
            k += 1;
        }
        proof {
            assert(self@.subrange(0, n as int) =~= self@);
        }
        r
    }
}

/// The three panes the interface can highlight.
pub enum Tab {
    Transactions,
    Summary,
    AddTransaction,
}

/// Top-level application state: the ledger plus all interface state.
pub struct AppState {
    pub budget: Budget,
    pub selected_tab: Tab,
    pub selected_transaction: Option<usize>,
    pub current_input_field: usize,
    pub input_amount: String,
    pub input_category: String,
    pub input_date: String,
    pub input_description: String,
}

impl AppState {
    pub fn new() -> (s: AppState)
        ensures
            s.budget@ == Seq::<TxView>::empty(),
            s.budget.wf(),
            s.selected_tab is Transactions,
            s.selected_transaction is None,
            s.current_input_field == 0,
            s.input_amount@.len() == 0,
            s.input_category@.len() == 0,
            s.input_date@.len() == 0,
            s.input_description@.len() == 0,
    {
        AppState {
            budget: Budget::new(),
            selected_tab: Tab::Transactions,
            selected_transaction: None,
            current_input_field: 0,
            input_amount: String::new(),
            input_category: String::new(),
            input_date: String::new(),
            input_description: String::new(),
        }
    }
}

} // verus!
