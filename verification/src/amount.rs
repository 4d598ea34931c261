//! Monetary amounts. An amount is a signed number of cents, so that values
//! entered with up to two decimal places are represented exactly. Draft text
//! is parsed leniently (`"12"`, `"-3.5"`, `"0.25"`); text that is not a
//! decimal number, or whose magnitude exceeds `AMOUNT_LIMIT` cents, does not
//! parse. Formatting always writes the sign, the units and exactly two
//! fraction digits, and parsing inverts it exactly.

use vstd::prelude::*;

verus! {

/// Largest magnitude, in cents, that a transaction amount may carry. The
/// bound keeps every ledger-wide sum inside the fixed-width integers the
/// aggregates are computed with.
pub const AMOUNT_LIMIT: i64 = 1_000_000_000_000_000;

/// Largest whole-unit part an amount may have: `AMOUNT_LIMIT` expressed in
/// units rather than cents.
pub const UNIT_LIMIT: i64 = 10_000_000_000_000;

pub open spec fn is_digit(c: char) -> bool {
    48 <= c as int && c as int <= 57
}

pub open spec fn digit_val(c: char) -> int {
    c as int - 48
}

pub open spec fn digit_char(d: int) -> char {
    ((48 + d) as u8) as char
}

pub open spec fn all_digits(s: Seq<char>) -> bool {
    forall|i: int| 0 <= i < s.len() ==> is_digit(s[i])
}

/// The number denoted by a digit string, most significant digit first.
pub open spec fn digits_val(s: Seq<char>) -> int
    decreases s.len(),
{
    if s.len() == 0 {
        0
    } else {
        digits_val(s.drop_last()) * 10 + digit_val(s.last())
    }
}

/// The canonical digit string of a number: no leading zeros, except that
/// zero itself is written "0".
pub open spec fn digits_of(n: nat) -> Seq<char>
    decreases n,
{
    if n < 10 {
        seq![digit_char(n as int)]
    } else {
        digits_of(n / 10).push(digit_char((n % 10) as int))
    }
}

/// Index of the first occurrence of `c` in `s`, or `s.len()` if absent.
pub open spec fn find_char(s: Seq<char>, c: char) -> int
    decreases s.len(),
{
    if s.len() == 0 {
        0
    } else if s[0] == c {
        0
    } else {
        1 + find_char(s.drop_first(), c)
    }
}

/// Cents denoted by an integer part and a fraction part of one or two digits.
pub open spec fn mag_val(ip: Seq<char>, fp: Seq<char>) -> int {
    digits_val(ip) * 100 + digits_val(fp) * (if fp.len() == 1 {
        10int
    } else {
        1int
    })
}

/// Unsigned magnitude text: digits, optionally followed by '.' and one or
/// two fraction digits. Yields cents, or None if malformed or over the limit.
pub open spec fn parse_mag(s: Seq<char>) -> Option<int> {
    let d = find_char(s, '.');
    if d == s.len() {
        if s.len() >= 1 && all_digits(s) && digits_val(s) * 100 <= AMOUNT_LIMIT {
            Some(digits_val(s) * 100)
        } else {
            None
        }
    } else {
        let ip = s.subrange(0, d);
        let fp = s.subrange(d + 1, s.len() as int);
        if d >= 1 && 1 <= fp.len() <= 2 && all_digits(ip) && all_digits(fp) && mag_val(ip, fp)
            <= AMOUNT_LIMIT {
            Some(mag_val(ip, fp))
        } else {
            None
        }
    }
}

/// Signed amount text: an optional leading '-' before the magnitude.
pub open spec fn parse_amount_spec(s: Seq<char>) -> Option<int> {
    if s.len() >= 1 && s[0] == '-' {
        match parse_mag(s.drop_first()) {
            Some(v) => Some(-v),
            None => None,
        }
    } else {
        parse_mag(s)
    }
}

/// The amount a draft commits with: the parsed value, or 0 as the silent
/// fallback for text that does not parse.
pub open spec fn parse_or_zero(s: Seq<char>) -> int {
    match parse_amount_spec(s) {
        Some(v) => v,
        None => 0,
    }
}

/// Canonical text of an amount: sign, units, '.', two fraction digits.
pub open spec fn enc_amount(a: int) -> Seq<char> {
    let m = if a < 0 {
        -a
    } else {
        a
    };
    (if a < 0 {
        seq!['-']
    } else {
        Seq::<char>::empty()
    }) + digits_of((m / 100) as nat) + seq!['.', digit_char((m % 100) / 10), digit_char(m % 10)]
}

pub proof fn lemma_digits_val_nonneg(s: Seq<char>)
    requires
        all_digits(s),
    ensures
        digits_val(s) >= 0,
    decreases s.len(),
{
    if s.len() > 0 {
        assert(all_digits(s.drop_last()));
        lemma_digits_val_nonneg(s.drop_last());
    }
}

/// A digit string's value only grows as more digits are appended.
pub proof fn lemma_digits_val_prefix_le(s: Seq<char>, i: int)
    requires
        all_digits(s),
        0 <= i <= s.len(),
    ensures
        0 <= digits_val(s.subrange(0, i)) <= digits_val(s),
    decreases s.len() - i,
{
    assert(all_digits(s.subrange(0, i)));
    lemma_digits_val_nonneg(s.subrange(0, i));
    if i < s.len() {
        lemma_digits_val_prefix_le(s, i + 1);
        assert(s.subrange(0, i + 1).drop_last() =~= s.subrange(0, i));
        lemma_digits_val_nonneg(s.subrange(0, i));
    } else {
        assert(s.subrange(0, i) =~= s);
    }
}

/// `find_char` returns `i` exactly when no earlier position holds `c` and
/// position `i` (if inside the string) does.
pub proof fn lemma_find_char_at(s: Seq<char>, c: char, i: int)
    requires
        0 <= i <= s.len(),
        forall|k: int| 0 <= k < i ==> s[k] != c,
        i < s.len() ==> s[i] == c,
    ensures
        find_char(s, c) == i,
    decreases i,
{
    if i == 0 {
    } else {
        lemma_find_char_at(s.drop_first(), c, i - 1);
    }
}

/// A string that holds `c` somewhere has its first occurrence inside it.
pub proof fn lemma_find_char_found(s: Seq<char>, c: char)
    requires
        exists|i: int| 0 <= i < s.len() && s[i] == c,
    ensures
        0 <= find_char(s, c) < s.len(),
    decreases s.len(),
{
    if s[0] != c {
        let w = choose|i: int| 0 <= i < s.len() && s[i] == c;
        assert(s.drop_first()[w - 1] == c);
        lemma_find_char_found(s.drop_first(), c);
    }
}

pub proof fn lemma_digits_of_are_digits(n: nat)
    ensures
        all_digits(digits_of(n)),
        digits_of(n).len() >= 1,
    decreases n,
{
    if n >= 10 {
        lemma_digits_of_are_digits(n / 10);
        assert(forall|i: int|
            0 <= i < digits_of(n).len() - 1 ==> digits_of(n)[i] == digits_of(n / 10)[i]);
    }
}

pub proof fn lemma_digits_of_val(n: nat)
    ensures
        digits_val(digits_of(n)) == n,
    decreases n,
{
    assert(digits_val(Seq::<char>::empty()) == 0);
    if n < 10 {
        assert(digits_of(n).drop_last() =~= Seq::<char>::empty());
    } else {
        lemma_digits_of_val(n / 10);
        assert(digits_of(n).drop_last() =~= digits_of(n / 10));
    }
}

/// Any value an amount parses to lies within the limit.
pub proof fn lemma_parse_amount_bounds(s: Seq<char>)
    ensures
        parse_amount_spec(s) matches Some(v) ==> -AMOUNT_LIMIT <= v <= AMOUNT_LIMIT,
{
    if s.len() >= 1 && s[0] == '-' {
        lemma_parse_mag_bounds(s.drop_first());
    } else {
        lemma_parse_mag_bounds(s);
    }
}

proof fn lemma_parse_mag_bounds(s: Seq<char>)
    ensures
        parse_mag(s) matches Some(v) ==> 0 <= v <= AMOUNT_LIMIT,
{
    let d = find_char(s, '.');
    if parse_mag(s) is Some {
        if d == s.len() {
            lemma_digits_val_nonneg(s);
        } else {
            lemma_digits_val_nonneg(s.subrange(0, d));
            lemma_digits_val_nonneg(s.subrange(d + 1, s.len() as int));
        }
    }
}

/// Parsing inverts formatting: the canonical text of any in-range amount
/// parses back to exactly that amount.
pub proof fn lemma_amount_round_trip(a: int)
    requires
        -AMOUNT_LIMIT <= a <= AMOUNT_LIMIT,
    ensures
        parse_amount_spec(enc_amount(a)) == Some(a),
{
    let m = if a < 0 {
        -a
    } else {
        a
    };
    let n = (m / 100) as nat;
    let c1 = digit_char((m % 100) / 10);
    let c2 = digit_char(m % 10);
    let mag = digits_of(n) + seq!['.', c1, c2];
    lemma_digits_of_are_digits(n);
    lemma_digits_of_val(n);
    let dl = digits_of(n).len() as int;
    assert(is_digit(c1) && is_digit(c2));
    assert(forall|k: int| 0 <= k < dl ==> mag[k] == digits_of(n)[k]);
    assert(forall|k: int| 0 <= k < dl ==> mag[k] != '.');
    assert(mag[dl] == '.');
    lemma_find_char_at(mag, '.', dl);
    let ip = mag.subrange(0, dl);
    let fp = mag.subrange(dl + 1, mag.len() as int);
    assert(ip =~= digits_of(n));
    assert(fp =~= seq![c1, c2]);
    assert(seq![c1, c2].drop_last() =~= seq![c1]);
    assert(seq![c1].drop_last() =~= Seq::<char>::empty());
    assert(digits_val(Seq::<char>::empty()) == 0);
    assert(digits_val(seq![c1]) == digit_val(c1));
    assert(digits_val(fp) == digits_val(seq![c1]) * 10 + digit_val(c2));
    assert(digit_val(c1) == (m % 100) / 10);
    assert(digit_val(c2) == m % 10);
    assert(m % 10 == (m % 100) % 10) by {
        assert(m % 100 == (m % 100 / 10) * 10 + (m % 100) % 10);
        assert(m == (m / 100) * 100 + m % 100);
        assert((m % 100) % 10 == m % 10) by (nonlinear_arith)
            requires m >= 0;
    }
    assert(digits_val(fp) == m % 100);
    assert(mag_val(ip, fp) == n * 100 + m % 100);
    assert(m == (m / 100) * 100 + m % 100);
    assert(mag_val(ip, fp) == m);
    assert(parse_mag(mag) == Some(m));
    if a < 0 {
        let e = enc_amount(a);
        assert(e == seq!['-'] + digits_of(n) + seq!['.', c1, c2]);
        assert(e[0] == '-');
        assert(e.drop_first() =~= mag);
        assert(parse_amount_spec(e) == Some(a));
    } else {
        let e = enc_amount(a);
        assert(e =~= mag);
        assert(e[0] == digits_of(n)[0]);
        assert(is_digit(e[0]));
        assert(e[0] != '-');
        assert(parse_amount_spec(e) == Some(a));
    }
}

fn digit_to_char(d: u8) -> (c: char)
    requires
        d < 10,
    ensures
        c == digit_char(d as int),
{
    (48 + d) as char
}

/// Appends the canonical digit string of `n` to `out`.
fn push_digits(out: &mut String, n: u64)
    ensures
        final(out)@ == old(out)@ + digits_of(n as nat),
    decreases n,
{
    if n < 10 {
        crate::text::push_char(out, digit_to_char(n as u8));
        assert(out@ =~= old(out)@ + digits_of(n as nat));
    } else {
        push_digits(out, n / 10);
        crate::text::push_char(out, digit_to_char((n % 10) as u8));
        assert(out@ =~= old(out)@ + digits_of(n as nat));
    }
}

/// Formats an amount canonically: sign, units, '.', two fraction digits.
pub fn format_amount(cents: i64) -> (r: String)
    requires
        -AMOUNT_LIMIT <= cents <= AMOUNT_LIMIT,
    ensures
        r@ == enc_amount(cents as int),
{
    let mut out = String::new();
    if cents < 0 {
        crate::text::push_char(&mut out, '-');
    }
    let m: i64 = if cents < 0 {
        -cents
    } else {
        cents
    };
    push_digits(&mut out, (m / 100) as u64);
    crate::text::push_char(&mut out, '.');
    crate::text::push_char(&mut out, digit_to_char(((m % 100) / 10) as u8));
    crate::text::push_char(&mut out, digit_to_char((m % 10) as u8));
    assert(out@ =~= enc_amount(cents as int));
    out
}

/// Parses amount text to cents; None exactly where the lenient grammar or
/// the limit rejects it.
#[verifier::loop_isolation(false)]
#[verifier::rlimit(60)]
pub fn parse_amount(s: &str) -> (r: Option<i64>)
    ensures
        r matches Some(v) ==> parse_amount_spec(s@) == Some(v as int),
        r is None ==> parse_amount_spec(s@) is None,
{
    let n = s.unicode_len();
    let neg = n > 0 && s.get_char(0) == '-';
    let start: usize = if neg {
        1
    } else {
        0
    };
    let ghost mg = s@.skip(start as int);
    proof {
        if neg {
            assert(s@[0] == '-');
            assert(mg =~= s@.drop_first());
        } else {
            assert(mg =~= s@);
        }
    }
    // locate the first '.' at or after `start`
    let mut d: usize = n;
    let mut k: usize = start;
    while k < n
        invariant
            start <= k <= n,
            n == s@.len(),
            start <= d <= n,
            d == n ==> forall|q: int| start <= q < k ==> s@[q] != '.',
            d < n ==> s@[d as int] == '.' && d < k && (forall|q: int|
                start <= q < d ==> s@[q] != '.'),
        decreases n - k,
    {
        if d == n && s.get_char(k) == '.' {
            d = k;
        }
        k += 1;
    }
    let has_dot = d < n;
    proof {
        assert(forall|q: int| 0 <= q < d - start ==> mg[q] != '.');
        if has_dot {
            assert(mg[d - start] == '.');
            lemma_find_char_at(mg, '.', d - start);
        } else {
            lemma_find_char_at(mg, '.', mg.len() as int);
        }
        assert(find_char(mg, '.') == d - start);
    }
    if d == start {
        // empty integer part: "", "-", ".5", "-.5"
        proof {
            if has_dot {
                assert(find_char(mg, '.') == 0 && mg.len() > 0);
                assert(parse_mag(mg) is None);
            } else {
                assert(mg.len() == 0);
                assert(parse_mag(mg) is None);
            }
        }
        return None;
    }
    // integer part: digits between start and d
    let mut val: i64 = 0;
    let mut i: usize = start;
    let ghost ip = mg.subrange(0, d - start);
    while i < d
        invariant
            start <= i <= d <= n,
            n == s@.len(),
            mg == s@.skip(start as int),
            ip == mg.subrange(0, d - start),
            forall|k: int| start <= k < i ==> is_digit(s@[k]),
            val == digits_val(s@.subrange(start as int, i as int)),
            0 <= val <= UNIT_LIMIT,
        decreases d - i,
    {
        let c = s.get_char(i);
        let cv = c as u32;
        if cv < 48 || cv > 57 {
            proof {
                assert(ip[i - start] == s@[i as int]);
                assert(!all_digits(ip));
                if !has_dot {
                    assert(ip =~= mg);
                }
            }
            return None;
        }
        let dig = (cv - 48) as i64;
        let next = val * 10 + dig;
        proof {
            assert(s@.subrange(start as int, i + 1).drop_last() =~= s@.subrange(
                start as int,
                i as int,
            ));
        }
        if next > UNIT_LIMIT {
            proof {
                let p = s@.subrange(start as int, i + 1);
                assert(digits_val(p) == next);
                if all_digits(ip) {
                    assert(p =~= ip.subrange(0, i + 1 - start));
                    lemma_digits_val_prefix_le(ip, i + 1 - start);
                    assert(digits_val(ip) >= next);
                    if has_dot {
                        let fp = mg.subrange(d - start + 1, mg.len() as int);
                        if all_digits(fp) {
                            lemma_digits_val_nonneg(fp);
                        }
                    } else {
                        assert(ip =~= mg);
                    }
                }
            }
            return None;
        }
        val = next;
        i += 1;
    }
    proof {
        assert(s@.subrange(start as int, d as int) =~= ip);
        assert(all_digits(ip));
        assert(digits_val(ip) == val);
    }
    let magnitude: i64;
    if !has_dot {
        proof {
            assert(ip =~= mg);
        }
        magnitude = val * 100;
    } else {
        // fraction part: one or two digits after the dot
        let flen = n - d - 1;
        if flen < 1 || flen > 2 {
            proof {
                let fp = mg.subrange(d - start + 1, mg.len() as int);
                assert(fp.len() == flen);
            }
            return None;
        }
        let ghost fp = mg.subrange(d - start + 1, mg.len() as int);
        let mut fval: i64 = 0;
        let mut j: usize = d + 1;
        while j < n
            invariant
                d + 1 <= j <= n,
                n == s@.len(),
                d < n,
                start <= d,
                mg == s@.skip(start as int),
                fp == mg.subrange(d - start + 1, mg.len() as int),
                forall|k: int| d + 1 <= k < j ==> is_digit(s@[k]),
                fval == digits_val(s@.subrange(d + 1, j as int)),
                j - d - 1 == 0 ==> fval == 0,
                j - d - 1 == 1 ==> fval <= 9,
                0 <= fval <= 99,
                n - d - 1 <= 2,
            decreases n - j,
        {
            let c = s.get_char(j);
            let cv = c as u32;
            if cv < 48 || cv > 57 {
                proof {
                    assert(fp[j - d - 1] == s@[j as int]);
                    assert(!all_digits(fp));
                }
                return None;
            }
            proof {
                assert(s@.subrange(d + 1, j + 1).drop_last() =~= s@.subrange(d + 1, j as int));
            }
            fval = fval * 10 + (cv - 48) as i64;
            j += 1;
        }
        proof {
            assert(s@.subrange(d + 1, n as int) =~= fp);
            assert(all_digits(fp));
            assert(digits_val(fp) == fval);
        }
        let scaled = if flen == 1 {
            fval * 10
        } else {
            fval
        };
        magnitude = val * 100 + scaled;
        proof {
            assert(mag_val(ip, fp) == magnitude);
        }
    }
    if magnitude > AMOUNT_LIMIT {
        return None;
    }
    if neg {
        proof {
            assert(s@[0] == '-');
            assert(mg == s@.drop_first());
        }
        Some(-magnitude)
    } else {
        proof {
            if n > 0 {
                assert(s@[0] != '-');
            }
            assert(mg =~= s@);
        }
        Some(magnitude)
    }
}

} // verus!
