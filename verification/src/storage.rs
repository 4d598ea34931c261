//! The persistence format: one array of records, each with the four fields
//! `amount` (a number), `category`, `date` and `description` (strings, with
//! `\` and `"` escaped). Encoding and decoding are exact inverses: a saved
//! ledger loads back field for field.

use vstd::prelude::*;
use crate::amount::{
    enc_amount, find_char, format_amount, is_digit, lemma_amount_round_trip,
    lemma_digits_of_are_digits, lemma_find_char_at, lemma_parse_amount_bounds, parse_amount,
    parse_amount_spec,
};
use crate::models::{tx_valid, wf_seq, Transaction, TxView};
use vstd::string::StringExecFns;

verus! {

/// The mathematical contents of a list of transactions.
pub open spec fn seq_views(s: Seq<Transaction>) -> Seq<TxView> {
    s.map_values(|t: Transaction| t@)
}

/// A string-field character as it is written: `\` and `"` get a backslash.
pub open spec fn esc_char(c: char) -> Seq<char> {
    if c == '"' || c == '\\' {
        seq!['\\', c]
    } else {
        seq![c]
    }
}

/// A whole string field as it is written.
pub open spec fn enc_string(x: Seq<char>) -> Seq<char>
    decreases x.len(),
{
    if x.len() == 0 {
        Seq::empty()
    } else {
        esc_char(x[0]) + enc_string(x.drop_first())
    }
}

/// One record as it is written.
pub open spec fn enc_record(t: TxView) -> Seq<char> {
    "{\"amount\":"@ + enc_amount(t.amount) + ",\"category\":\""@ + enc_string(t.category)
        + "\",\"date\":\""@ + enc_string(t.date) + "\",\"description\":\""@ + enc_string(
        t.description,
    ) + "\"}"@
}

/// The records joined with commas.
pub open spec fn enc_recs(m: Seq<TxView>) -> Seq<char>
    decreases m.len(),
{
    if m.len() == 0 {
        Seq::empty()
    } else if m.len() == 1 {
        enc_record(m[0])
    } else {
        enc_record(m[0]) + seq![','] + enc_recs(m.drop_first())
    }
}

/// The whole ledger as it is written: the records inside brackets.
pub open spec fn enc_ledger(m: Seq<TxView>) -> Seq<char> {
    seq!['['] + enc_recs(m) + seq![']']
}

/// The literal `lit` stands in `s` at position `pos`.
pub open spec fn has_lit(s: Seq<char>, pos: int, lit: Seq<char>) -> bool {
    0 <= pos && pos + lit.len() <= s.len() && s.subrange(pos, pos + lit.len()) == lit
}

/// Text that stands at `pos` as a concatenation splits into its two parts.
proof fn lemma_split_at(s: Seq<char>, pos: int, a: Seq<char>, b: Seq<char>)
    requires
        0 <= pos,
        pos + a.len() + b.len() <= s.len(),
        s.subrange(pos, pos + a.len() + b.len()) == a + b,
    ensures
        s.subrange(pos, pos + a.len() as int) == a,
        s.subrange(pos + a.len() as int, pos + a.len() + b.len()) == b,
{
    assert forall|q: int|
        0 <= q < a.len() implies s.subrange(pos, pos + a.len() as int)[q] == a[q] by {
        assert(s.subrange(pos, pos + a.len() + b.len())[q] == s[pos + q]);
        assert(s.subrange(pos, pos + a.len() as int)[q] == s[pos + q]);
        assert((a + b)[q] == a[q]);
    }
    assert(s.subrange(pos, pos + a.len() as int) =~= a);
    assert forall|q: int|
        0 <= q < b.len() implies s.subrange(pos + a.len() as int, pos + a.len() + b.len())[q]
        == b[q] by {
        assert(s.subrange(pos, pos + a.len() + b.len())[a.len() + q] == s[pos + a.len() + q]);
        assert(s.subrange(pos + a.len() as int, pos + a.len() + b.len())[q] == s[pos + a.len()
            + q]);
        assert((a + b)[a.len() + q] == b[q]);
    }
    assert(s.subrange(pos + a.len() as int, pos + a.len() + b.len()) =~= b);
}

/// Reads a string field from `pos` up to its closing quote (not consumed),
/// undoing the escapes; None when the text is not a well-formed field.
pub open spec fn dec_str(s: Seq<char>, pos: int) -> Option<(Seq<char>, int)>
    decreases s.len() - pos,
{
    if pos < 0 || pos >= s.len() {
        None
    } else if s[pos] == '"' {
        Some((Seq::empty(), pos))
    } else if s[pos] == '\\' {
        if pos + 1 < s.len() && (s[pos + 1] == '\\' || s[pos + 1] == '"') {
            match dec_str(s, pos + 2) {
                Some((x, e)) => Some((seq![s[pos + 1]] + x, e)),
                None => None,
            }
        } else {
            None
        }
    } else {
        match dec_str(s, pos + 1) {
            Some((x, e)) => Some((seq![s[pos]] + x, e)),
            None => None,
        }
    }
}

/// Reads the amount field: the text up to the next comma, as an amount.
pub open spec fn dec_amount(s: Seq<char>, pos: int) -> Option<(int, int)> {
    if 0 <= pos <= s.len() {
        let j = pos + find_char(s.subrange(pos, s.len() as int), ',');
        if j < s.len() {
            match parse_amount_spec(s.subrange(pos, j)) {
                Some(v) => Some((v, j)),
                None => None,
            }
        } else {
            None
        }
    } else {
        None
    }
}

/// Reads one record starting at `pos`; yields its value and the position
/// just past its closing brace.
pub open spec fn dec_record(s: Seq<char>, pos: int) -> Option<(TxView, int)> {
    if !has_lit(s, pos, "{\"amount\":"@) {
        None
    } else {
        match dec_amount(s, pos + "{\"amount\":"@.len()) {
            None => None,
            Some((a, p2)) => if !has_lit(s, p2, ",\"category\":\""@) {
                None
            } else {
                match dec_str(s, p2 + ",\"category\":\""@.len()) {
                    None => None,
                    Some((cat, p4)) => if !has_lit(s, p4, "\",\"date\":\""@) {
                        None
                    } else {
                        match dec_str(s, p4 + "\",\"date\":\""@.len()) {
                            None => None,
                            Some((date, p6)) => if !has_lit(s, p6, "\",\"description\":\""@) {
                                None
                            } else {
                                match dec_str(s, p6 + "\",\"description\":\""@.len()) {
                                    None => None,
                                    Some((desc, p8)) => if !has_lit(s, p8, "\"}"@) {
                                        None
                                    } else {
                                        Some(
                                            (
                                                TxView {
                                                    amount: a,
                                                    category: cat,
                                                    date: date,
                                                    description: desc,
                                                },
                                                p8 + "\"}"@.len(),
                                            ),
                                        )
                                    },
                                }
                            },
                        }
                    },
                }
            },
        }
    }
}

/// Reads records separated by commas until the closing bracket, which must
/// end the text.
pub open spec fn dec_records(s: Seq<char>, pos: int) -> Option<Seq<TxView>>
    decreases s.len() - pos,
{
    match dec_record(s, pos) {
        None => None,
        Some((t, e)) => if !(pos < e <= s.len()) {
            None
        } else if e == s.len() - 1 && s[e] == ']' {
            Some(seq![t])
        } else if e < s.len() && s[e] == ',' {
            match dec_records(s, e + 1) {
                None => None,
                Some(rest) => Some(seq![t] + rest),
            }
        } else {
            None
        },
    }
}

/// The whole text as a ledger; None when it is not an encoding.
pub open spec fn dec_ledger(s: Seq<char>) -> Option<Seq<TxView>> {
    if s.len() >= 2 && s[0] == '[' {
        if s.len() == 2 && s[1] == ']' {
            Some(Seq::empty())
        } else {
            dec_records(s, 1)
        }
    } else {
        None
    }
}

/// Escaping one more character extends the written form at the end.
proof fn lemma_enc_string_push(p: Seq<char>, c: char)
    ensures
        enc_string(p.push(c)) == enc_string(p) + esc_char(c),
    decreases p.len(),
{
    if p.len() == 0 {
        assert(p.push(c)[0] == c);
        assert(p.push(c).drop_first() =~= Seq::<char>::empty());
        assert(enc_string(Seq::<char>::empty()) == Seq::<char>::empty());
        assert(p =~= Seq::<char>::empty());
        assert(enc_string(p.push(c)) =~= enc_string(p) + esc_char(c));
    } else {
        assert(p.push(c).drop_first() =~= p.drop_first().push(c));
        lemma_enc_string_push(p.drop_first(), c);
        assert(enc_string(p.push(c)) =~= enc_string(p) + esc_char(c));
    }
}

/// Unescaping undoes escaping: a written string field followed by its
/// closing quote reads back as the original text.
proof fn lemma_dec_str_inv(s: Seq<char>, pos: int, x: Seq<char>)
    requires
        0 <= pos,
        pos + enc_string(x).len() < s.len(),
        s.subrange(pos, pos + enc_string(x).len()) == enc_string(x),
        s[pos + enc_string(x).len()] == '"',
    ensures
        dec_str(s, pos) == Some((x, pos + enc_string(x).len())),
    decreases x.len(),
{
    if x.len() == 0 {
        assert(s[pos] == '"');
    } else {
        let e0 = esc_char(x[0]);
        let rest = enc_string(x.drop_first());
        assert(enc_string(x) == e0 + rest);
        let el = e0.len() as int;
        lemma_split_at(s, pos, e0, rest);
        assert(s.subrange(pos, pos + el)[0] == s[pos]);
        assert(s[pos] == e0[0]);
        if el == 2 {
            assert(s.subrange(pos, pos + el)[1] == s[pos + 1]);
        }
        lemma_dec_str_inv(s, pos + el, x.drop_first());
        if x[0] == '"' || x[0] == '\\' {
            assert(s[pos] == '\\');
            assert(s[pos + 1] == x[0]);
            assert(seq![s[pos + 1]] + x.drop_first() =~= x);
        } else {
            assert(s[pos] == x[0]);
            assert(s[pos] != '"' && s[pos] != '\\');
            assert(seq![s[pos]] + x.drop_first() =~= x);
        }
    }
}

/// An amount's written form holds no comma.
proof fn lemma_enc_amount_no_comma(a: int)
    ensures
        forall|k: int| 0 <= k < enc_amount(a).len() ==> enc_amount(a)[k] != ',',
        enc_amount(a).len() >= 4,
{
    let m = if a < 0 {
        -a
    } else {
        a
    };
    let n = (m / 100) as nat;
    lemma_digits_of_are_digits(n);
    let e = enc_amount(a);
    let sl: int = if a < 0 {
        1
    } else {
        0
    };
    let dl = digits_of_len(a);
    assert forall|k: int| 0 <= k < e.len() implies e[k] != ',' by {
        if k < sl {
            assert(e[k] == '-');
        } else if k < sl + dl {
            assert(e[k] == crate::amount::digits_of(n)[k - sl]);
            assert(is_digit(e[k]));
        } else if k == sl + dl {
            assert(e[k] == '.');
        } else {
            assert(is_digit(e[k]));
        }
    }
}

/// Length of the digit part of an amount's written form.
pub open spec fn digits_of_len(a: int) -> int {
    crate::amount::digits_of(((if a < 0 {
        -a
    } else {
        a
    }) / 100) as nat).len() as int
}

/// A written record followed by anything reads back as exactly that record.
proof fn lemma_dec_record_inv(s: Seq<char>, pos: int, t: TxView)
    requires
        tx_valid(t),
        0 <= pos,
        pos + enc_record(t).len() <= s.len(),
        s.subrange(pos, pos + enc_record(t).len()) == enc_record(t),
    ensures
        dec_record(s, pos) == Some((t, pos + enc_record(t).len())),
        enc_record(t).len() >= 1,
{
    let l1 = "{\"amount\":"@;
    let l2 = ",\"category\":\""@;
    let l3 = "\",\"date\":\""@;
    let l4 = "\",\"description\":\""@;
    let l5 = "\"}"@;
    reveal_strlit("{\"amount\":");
    reveal_strlit(",\"category\":\"");
    reveal_strlit("\",\"date\":\"");
    reveal_strlit("\",\"description\":\"");
    reveal_strlit("\"}");
    let ea = enc_amount(t.amount);
    let ec = enc_string(t.category);
    let ed = enc_string(t.date);
    let es = enc_string(t.description);
    let e = enc_record(t);
    // peel the nine pieces off, right to left
    let x1 = l1 + ea;
    let x2 = x1 + l2;
    let x3 = x2 + ec;
    let x4 = x3 + l3;
    let x5 = x4 + ed;
    let x6 = x5 + l4;
    let x7 = x6 + es;
    assert(e == x7 + l5);
    lemma_split_at(s, pos, x7, l5);
    lemma_split_at(s, pos, x6, es);
    lemma_split_at(s, pos, x5, l4);
    lemma_split_at(s, pos, x4, ed);
    lemma_split_at(s, pos, x3, l3);
    lemma_split_at(s, pos, x2, ec);
    lemma_split_at(s, pos, x1, l2);
    lemma_split_at(s, pos, l1, ea);
    let o1 = pos + l1.len();
    let o2 = o1 + ea.len();
    let o3 = o2 + l2.len();
    let o4 = o3 + ec.len();
    let o5 = o4 + l3.len();
    let o6 = o5 + ed.len();
    let o7 = o6 + l4.len();
    let o8 = o7 + es.len();
    let oend = o8 + l5.len();
    assert(oend == pos + e.len());
    // opening literal
    assert(has_lit(s, pos, l1));
    // the amount runs to the comma that opens the category literal
    lemma_enc_amount_no_comma(t.amount);
    let suff = s.subrange(o1, s.len() as int);
    assert forall|q: int| 0 <= q < ea.len() implies suff[q] != ',' by {
        assert(suff[q] == s[o1 + q]);
        assert(s.subrange(o1, o2 as int)[q] == s[o1 + q]);
    }
    assert(s.subrange(o2, o3 as int)[0] == s[o2]);
    assert(s[o2] == l2[0]);
    assert(suff[ea.len() as int] == s[o2]);
    lemma_find_char_at(suff, ',', ea.len() as int);
    lemma_amount_round_trip(t.amount);
    assert(s.subrange(o1, o2 as int) == ea);
    assert(dec_amount(s, o1) == Some((t.amount, o2)));
    // category
    assert(has_lit(s, o2, l2));
    assert(s.subrange(o4, o5 as int)[0] == s[o4]);
    assert(s[o4] == l3[0] && l3[0] == '"');
    lemma_dec_str_inv(s, o3, t.category);
    // date
    assert(has_lit(s, o4, l3));
    assert(s.subrange(o6, o7 as int)[0] == s[o6]);
    assert(s[o6] == l4[0] && l4[0] == '"');
    lemma_dec_str_inv(s, o5, t.date);
    // description
    assert(has_lit(s, o6, l4));
    assert(s.subrange(o8, oend as int)[0] == s[o8]);
    assert(s[o8] == l5[0] && l5[0] == '"');
    lemma_dec_str_inv(s, o7, t.description);
    // closing literal
    assert(has_lit(s, o8, l5));
}

/// Appending a record extends the joined records at the end.
proof fn lemma_enc_recs_push(m: Seq<TxView>, t: TxView)
    ensures
        m.len() == 0 ==> enc_recs(m.push(t)) == enc_record(t),
        m.len() > 0 ==> enc_recs(m.push(t)) == enc_recs(m) + seq![','] + enc_record(t),
    decreases m.len(),
{
    if m.len() == 0 {
        assert(m.push(t)[0] == t);
    } else {
        assert(m.push(t).drop_first() =~= m.drop_first().push(t));
        lemma_enc_recs_push(m.drop_first(), t);
        assert(m.push(t)[0] == m[0]);
        if m.len() == 1 {
            assert(enc_recs(m.push(t)) =~= enc_recs(m) + seq![','] + enc_record(t));
        } else {
            assert(enc_recs(m.push(t)) =~= enc_recs(m) + seq![','] + enc_record(t));
        }
    }
}

/// Written records followed by the closing bracket read back exactly.
proof fn lemma_dec_records_inv(s: Seq<char>, pos: int, m: Seq<TxView>)
    requires
        m.len() >= 1,
        wf_seq(m),
        0 <= pos,
        s.len() == pos + enc_recs(m).len() + 1,
        s.subrange(pos, pos + enc_recs(m).len()) == enc_recs(m),
        s[s.len() - 1] == ']',
    ensures
        dec_records(s, pos) == Some(m),
    decreases m.len(),
{
    assert(tx_valid(m[0]));
    if m.len() == 1 {
        assert(enc_recs(m) == enc_record(m[0]));
        lemma_dec_record_inv(s, pos, m[0]);
        let e = pos + enc_record(m[0]).len();
        assert(e == s.len() - 1);
        assert(s[e] == ']');
        assert(seq![m[0]] =~= m);
    } else {
        let head = enc_record(m[0]);
        let tail = enc_recs(m.drop_first());
        let hc = head + seq![','];
        assert(enc_recs(m) == hc + tail);
        lemma_split_at(s, pos, hc, tail);
        lemma_split_at(s, pos, head, seq![',']);
        lemma_dec_record_inv(s, pos, m[0]);
        let e = pos + head.len();
        assert(s.subrange(e, e + 1)[0] == s[e]);
        assert(s[e] == ',');
        lemma_enc_recs_len(m.drop_first());
        assert(e < s.len() - 1);
        assert(wf_seq(m.drop_first()));
        lemma_dec_records_inv(s, e + 1, m.drop_first());
        assert(seq![m[0]] + m.drop_first() =~= m);
    }
}

/// Round trip: the written form of any well-formed ledger reads back as
/// exactly that ledger, field for field.
pub proof fn lemma_ledger_round_trip(m: Seq<TxView>)
    requires
        wf_seq(m),
    ensures
        dec_ledger(enc_ledger(m)) == Some(m),
{
    let s = enc_ledger(m);
    assert(s[0] == '[');
    if m.len() == 0 {
        assert(enc_recs(m) == Seq::<char>::empty());
        assert(s.len() == 2);
        assert(s[1] == ']');
    } else {
        lemma_enc_recs_len(m);
        assert(s.len() >= 3);
        assert(s.subrange(1, 1 + enc_recs(m).len() as int) =~= enc_recs(m));
        assert(s[s.len() - 1] == ']');
        lemma_dec_records_inv(s, 1, m);
    }
}

/// The written form of at least one record is never empty.
proof fn lemma_enc_recs_len(m: Seq<TxView>)
    requires
        m.len() > 0,
    ensures
        enc_recs(m).len() >= 1,
{
    reveal_strlit("{\"amount\":");
}

/// Appends a string field in its written (escaped) form.
#[verifier::loop_isolation(false)]
fn append_escaped(out: &mut String, x: &str)
    ensures
        final(out)@ == old(out)@ + enc_string(x@),
{
    let n = x.unicode_len();
    proof {
        assert(enc_string(x@.subrange(0, 0)) =~= Seq::<char>::empty());
        assert(out@ =~= out@ + enc_string(x@.subrange(0, 0)));
    }
    let mut i: usize = 0;
    while i < n
        invariant
            0 <= i <= n,
            n == x@.len(),
            out@ == old(out)@ + enc_string(x@.subrange(0, i as int)),
        decreases n - i,
    {
        let c = x.get_char(i);
        proof {
            lemma_enc_string_push(x@.subrange(0, i as int), x@[i as int]);
            assert(x@.subrange(0, i + 1) =~= x@.subrange(0, i as int).push(x@[i as int]));
        }
        if c == '"' || c == '\\' {
            crate::text::push_char(out, '\\');
            crate::text::push_char(out, c);
        } else {
            crate::text::push_char(out, c);
        }
        proof {
            assert(out@ =~= old(out)@ + enc_string(x@.subrange(0, i + 1)));
        }
        i += 1;
    }
    proof {
        assert(x@.subrange(0, n as int) =~= x@);
    }
}

/// Appends one record in its written form.
fn append_record(out: &mut String, t: &Transaction)
    requires
        tx_valid(t@),
    ensures
        final(out)@ == old(out)@ + enc_record(t@),
{
    out.append("{\"amount\":");
    let amt = format_amount(t.amount);
    out.append(amt.as_str());
    out.append(",\"category\":\"");
    append_escaped(out, t.category.as_str());
    out.append("\",\"date\":\"");
    append_escaped(out, t.date.as_str());
    out.append("\",\"description\":\"");
    append_escaped(out, t.description.as_str());
    out.append("\"}");
    proof {
        assert(out@ =~= old(out)@ + enc_record(t@));
    }
}

/// Writes the whole ledger as text; the exact inverse of
/// `load_transactions`.
#[verifier::loop_isolation(false)]
pub fn save_transactions(transactions: &Vec<Transaction>) -> (r: String)
    requires
        wf_seq(seq_views(transactions@)),
    ensures
        r@ == enc_ledger(seq_views(transactions@)),
{
    let ghost vs = seq_views(transactions@);
    let mut out = String::new();
    crate::text::push_char(&mut out, '[');
    proof {
        assert(enc_recs(vs.take(0)) =~= Seq::<char>::empty());
        assert(out@ =~= seq!['['] + enc_recs(vs.take(0)));
    }
    let n = transactions.len();
    let mut i: usize = 0;
    while i < n
        invariant
            0 <= i <= n,
            n == transactions@.len(),
            vs == seq_views(transactions@),
            out@ == seq!['['] + enc_recs(vs.take(i as int)),
        decreases n - i,
    {
        proof {
            assert(vs.take(i + 1) =~= vs.take(i as int).push(vs[i as int]));
            lemma_enc_recs_push(vs.take(i as int), vs[i as int]);
            assert(transactions@[i as int]@ == vs[i as int]);
            assert(tx_valid(vs[i as int]));
        }
        if i > 0 {
            crate::text::push_char(&mut out, ',');
        }
        append_record(&mut out, &transactions[i]);
        proof {
            assert(out@ =~= seq!['['] + enc_recs(vs.take(i + 1)));
        }
        i += 1;
    }
    crate::text::push_char(&mut out, ']');
    proof {
        assert(vs.take(n as int) =~= vs);
        assert(out@ =~= enc_ledger(vs));
    }
    out
}

/// Checks that `lit` stands at `pos` in `s` and steps over it.
#[verifier::loop_isolation(false)]
fn expect_lit(s: &str, pos: usize, lit: &str) -> (r: Option<usize>)
    ensures
        r is Some <==> has_lit(s@, pos as int, lit@),
        r matches Some(e) ==> e == pos + lit@.len(),
{
    let n = s.unicode_len();
    let ll = lit.unicode_len();
    if pos > n || ll > n - pos {
        return None;
    }
    let mut k: usize = 0;
    while k < ll
        invariant
            0 <= k <= ll,
            ll == lit@.len(),
            n == s@.len(),
            pos + ll <= n,
            forall|q: int| 0 <= q < k ==> s@[pos + q] == lit@[q],
        decreases ll - k,
    {
        if s.get_char(pos + k) != lit.get_char(k) {
            proof {
                assert(s@.subrange(pos as int, pos + lit@.len())[k as int] != lit@[k as int]);
            }
            return None;
        }
        k += 1;
    }
    proof {
        assert(s@.subrange(pos as int, pos + lit@.len()) =~= lit@);
    }
    Some(pos + ll)
}

/// Reads the amount field: the text up to the next comma.
#[verifier::loop_isolation(false)]
fn parse_tx_amount(s: &str, pos: usize) -> (r: Option<(i64, usize)>)
    requires
        pos <= s@.len(),
    ensures
        r matches Some(p) ==> dec_amount(s@, pos as int) == Some((p.0 as int, p.1 as int))
            && pos <= p.1 <= s@.len(),
        r is None ==> dec_amount(s@, pos as int) is None,
{
    let n = s.unicode_len();
    let ghost suff = s@.subrange(pos as int, n as int);
    let mut j: usize = n;
    let mut k: usize = pos;
    while k < n
        invariant
            pos <= k <= n,
            pos <= j <= n,
            n == s@.len(),
            j == n || (j < k && s@[j as int] == ',' && (forall|q: int|
                pos <= q < j ==> s@[q] != ',')),
            j == n ==> forall|q: int| pos <= q < k ==> s@[q] != ',',
        decreases n - k,
    {
        if j == n && s.get_char(k) == ',' {
            j = k;
        }
        k += 1;
    }
    proof {
        assert forall|q: int| 0 <= q < j - pos implies suff[q] != ',' by {
            assert(suff[q] == s@[pos + q]);
        }
        if j < n {
            assert(suff[j - pos] == s@[j as int]);
        }
        lemma_find_char_at(suff, ',', j - pos);
    }
    if j == n {
        return None;
    }
    let field = s.substring_char(pos, j);
    proof {
        assert(field@ =~= s@.subrange(pos as int, j as int));
    }
    match parse_amount(field) {
        Some(v) => Some((v, j)),
        None => None,
    }
}

/// Reads a string field up to its closing quote, undoing the escapes.
#[verifier::loop_isolation(false)]
fn parse_string_field(s: &str, pos: usize) -> (r: Option<(String, usize)>)
    requires
        pos <= s@.len(),
    ensures
        r matches Some(p) ==> dec_str(s@, pos as int) == Some((p.0@, p.1 as int)) && pos <= p.1
            <= s@.len(),
        r is None ==> dec_str(s@, pos as int) is None,
{
    let n = s.unicode_len();
    let mut acc = String::new();
    let mut i: usize = pos;
    while i < n
        invariant
            pos <= i <= n,
            n == s@.len(),
            forall|y: Seq<char>, e: int|
                dec_str(s@, i as int) == Some((y, e)) ==> dec_str(s@, pos as int) == Some(
                    (acc@ + y, e),
                ),
            dec_str(s@, i as int) is None ==> dec_str(s@, pos as int) is None,
        decreases n - i,
    {
        let c = s.get_char(i);
        if c == '"' {
            proof {
                assert(dec_str(s@, i as int) == Some((Seq::<char>::empty(), i as int)));
                assert(acc@ + Seq::<char>::empty() =~= acc@);
            }
            return Some((acc, i));
        } else if c == '\\' {
            if i + 1 < n {
                let c2 = s.get_char(i + 1);
                if c2 == '\\' || c2 == '"' {
                    let ghost acc0 = acc@;
                    crate::text::push_char(&mut acc, c2);
                    proof {
                        assert forall|y: Seq<char>, e: int|
                            dec_str(s@, i + 2) == Some((y, e)) implies dec_str(s@, pos as int)
                            == Some((acc@ + y, e)) by {
                            assert(dec_str(s@, i as int) == Some((seq![s@[i + 1]] + y, e)));
                            assert(acc@ + y =~= acc0 + (seq![s@[i + 1]] + y));
                        }
                        assert(dec_str(s@, i + 2) is None ==> dec_str(s@, i as int) is None);
                    }
                    i = i + 2;
                } else {
                    proof {
                        assert(dec_str(s@, i as int) is None);
                    }
                    return None;
                }
            } else {
                proof {
                    assert(dec_str(s@, i as int) is None);
                }
                return None;
            }
        } else {
            let ghost acc0 = acc@;
            crate::text::push_char(&mut acc, c);
            proof {
                assert forall|y: Seq<char>, e: int|
                    dec_str(s@, i + 1) == Some((y, e)) implies dec_str(s@, pos as int) == Some(
                    (acc@ + y, e),
                ) by {
                    assert(dec_str(s@, i as int) == Some((seq![s@[i as int]] + y, e)));
                    assert(acc@ + y =~= acc0 + (seq![s@[i as int]] + y));
                }
                assert(dec_str(s@, i + 1) is None ==> dec_str(s@, i as int) is None);
            }
            i = i + 1;
        }
    }
    proof {
        assert(dec_str(s@, n as int) is None);
    }
    None
}

/// Reads one record; yields it and the position just past it.
fn parse_record(s: &str, pos: usize) -> (r: Option<(Transaction, usize)>)
    requires
        pos <= s@.len(),
    ensures
        r matches Some(p) ==> dec_record(s@, pos as int) == Some((p.0@, p.1 as int)) && pos
            < p.1 <= s@.len() && tx_valid(p.0@),
        r is None ==> dec_record(s@, pos as int) is None,
{
    let p1 = match expect_lit(s, pos, "{\"amount\":") {
        Some(e) => e,
        None => {
            return None;
        },
    };
    let (amount, p2) = match parse_tx_amount(s, p1) {
        Some(p) => p,
        None => {
            return None;
        },
    };
    proof {
        lemma_parse_amount_bounds(s@.subrange(p1 as int, p2 as int));
    }
    let p3 = match expect_lit(s, p2, ",\"category\":\"") {
        Some(e) => e,
        None => {
            return None;
        },
    };
    let (category, p4) = match parse_string_field(s, p3) {
        Some(p) => p,
        None => {
            return None;
        },
    };
    let p5 = match expect_lit(s, p4, "\",\"date\":\"") {
        Some(e) => e,
        None => {
            return None;
        },
    };
    let (date, p6) = match parse_string_field(s, p5) {
        Some(p) => p,
        None => {
            return None;
        },
    };
    let p7 = match expect_lit(s, p6, "\",\"description\":\"") {
        Some(e) => e,
        None => {
            return None;
        },
    };
    let (description, p8) = match parse_string_field(s, p7) {
        Some(p) => p,
        None => {
            return None;
        },
    };
    let pe = match expect_lit(s, p8, "\"}") {
        Some(e) => e,
        None => {
            return None;
        },
    };
    proof {
        reveal_strlit("{\"amount\":");
    }
    let tx = Transaction { amount, category, date, description };
    Some((tx, pe))
}

/// Reads a whole ledger back from text; any text that is not a written
/// ledger loads as the empty list, so a missing or damaged file only
/// empties the session instead of ending it.
pub fn load_transactions(data: &str) -> (r: Vec<Transaction>)
    ensures
        dec_ledger(data@) matches Some(m) ==> seq_views(r@) == m,
        dec_ledger(data@) is None ==> r@.len() == 0,
        wf_seq(seq_views(r@)),
{
    let n = data.unicode_len();
    if n < 2 || data.get_char(0) != '[' {
        proof {
            assert(seq_views(Seq::<Transaction>::empty()) =~= Seq::<TxView>::empty());
        }
        return Vec::new();
    }
    if n == 2 {
        proof {
            assert(seq_views(Seq::<Transaction>::empty()) =~= Seq::<TxView>::empty());
            if data@[1] != ']' {
                reveal_strlit("{\"amount\":");
                assert(!has_lit(data@, 1, "{\"amount\":"@));
                assert(dec_records(data@, 1) is None);
            }
        }
        return Vec::new();
    }
    let mut out: Vec<Transaction> = Vec::new();
    let mut pos: usize = 1;
    loop
        invariant_except_break
            1 <= pos <= n,
            n == data@.len(),
            n > 2,
            data@[0] == '[',
            wf_seq(seq_views(out@)),
            forall|rest: Seq<TxView>|
                dec_records(data@, pos as int) == Some(rest) ==> dec_ledger(data@) == Some(
                    seq_views(out@) + rest,
                ),
            dec_records(data@, pos as int) is None ==> dec_ledger(data@) is None,
        ensures
            dec_ledger(data@) is None,
        decreases n - pos,
    {
        let parsed = parse_record(data, pos);
        match parsed {
            None => {
                break ;
            },
            Some((tx, e)) => {
                let ghost out0 = out@;
                let ghost tv = tx@;
                out.push(tx);
                proof {
                    assert(seq_views(out@) =~= seq_views(out0).push(tv));
                }
                if e == n {
                    break ;
                }
                let c = data.get_char(e);
                if c == ']' {
                    if e == n - 1 {
                        proof {
                            assert(dec_records(data@, pos as int) == Some(seq![tv]));
                            assert(seq_views(out0) + seq![tv] =~= seq_views(out@));
                        }
                        return out;
                    } else {
                        break ;
                    }
                } else if c == ',' {
                    proof {
                        assert forall|rest: Seq<TxView>|
                            dec_records(data@, e + 1) == Some(rest) implies dec_ledger(data@)
                            == Some(seq_views(out@) + rest) by {
                            assert(dec_records(data@, pos as int) == Some(seq![tv] + rest));
                            assert(seq_views(out0) + (seq![tv] + rest) =~= seq_views(out@)
                                + rest);
                        }
                    }
                    pos = e + 1;
                } else {
                    break ;
                }
            },
        }
    }
    proof {
        assert(seq_views(Seq::<Transaction>::empty()) =~= Seq::<TxView>::empty());
    }
    Vec::new()
}

} // verus!
