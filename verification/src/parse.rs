//! Parsing a job list from delimited text.
//!
//! The provider's format is whitespace-separated tokens, each of the form
//! `name/processing_time/due_date`: exactly three `/`-delimited fields, the
//! last two decimal integers. A record whose processing time is not a
//! positive `i32`, or whose due date is not an `i32`, is malformed; a job
//! list whose processing times add up beyond the `i32` clock cannot be
//! scheduled and is rejected as a whole. Parsing failures are fatal: no
//! partial job list is ever produced.

use vstd::prelude::*;

use vstd::string::{StrSliceExecFns, StringExecFns};

use crate::job::{job_ok, jobs_ok, sum_p, Job};
use crate::job::lemma_sum_p_take_step;

verus! {

/// The separators between tokens: the characters with the Unicode
/// `White_Space` property, the set `str::split_whitespace` splits on —
/// tab through carriage return, blank, next line, no-break space, ogham
/// space mark, the en-quad .. hair-space run, the line and paragraph
/// separators, the narrow no-break, medium mathematical and ideographic
/// spaces.
pub open spec fn is_sep(c: char) -> bool {
    let u = c as u32;
    ||| (0x09 <= u && u <= 0x0D)
    ||| u == 0x20
    ||| u == 0x85
    ||| u == 0xA0
    ||| u == 0x1680
    ||| (0x2000 <= u && u <= 0x200A)
    ||| u == 0x2028
    ||| u == 0x2029
    ||| u == 0x202F
    ||| u == 0x205F
    ||| u == 0x3000
}

/// A decimal digit.
pub open spec fn is_digit(c: char) -> bool {
    ('0' as u32) <= (c as u32) && (c as u32) <= ('9' as u32)
}

/// The numeric value of a decimal digit.
pub open spec fn digit_val(c: char) -> int {
    (c as u32) - ('0' as u32)
}

/// Every character a decimal digit.
pub open spec fn all_digits(t: Seq<char>) -> bool {
    forall|i: int| 0 <= i < t.len() ==> is_digit(#[trigger] t[i])
}

/// The value of a string of decimal digits, most significant first.
pub open spec fn digits_val(t: Seq<char>) -> int
    decreases t.len(),
{
    if t.len() == 0 {
        0
    } else {
        digits_val(t.drop_last()) * 10 + digit_val(t.last())
    }
}

/// What a decimal integer token denotes: an optional sign followed by at
/// least one digit, as `i32::from_str` accepts it; `None` on anything else.
pub open spec fn int_of_token(t: Seq<char>) -> Option<int> {
    if t.len() >= 1 && (t[0] == '-' || t[0] == '+') {
        if t.len() >= 2 && all_digits(t.skip(1)) {
            if t[0] == '-' {
                Some(-digits_val(t.skip(1)))
            } else {
                Some(digits_val(t.skip(1)))
            }
        } else {
            None
        }
    } else if t.len() >= 1 && all_digits(t) {
        Some(digits_val(t))
    } else {
        None
    }
}

/// The position of the first `/`, or the length when there is none.
pub open spec fn first_slash(t: Seq<char>) -> int
    decreases t.len(),
{
    if t.len() == 0 {
        0
    } else if t[0] == '/' {
        0
    } else {
        1 + first_slash(t.drop_first())
    }
}

/// What a record token denotes: its name, processing time and due date,
/// provided the token is `name/p/d` with exactly two slashes, `p` a
/// positive `i32` and `d` an `i32`; `None` on anything else.
pub open spec fn record_of_token(t: Seq<char>) -> Option<(Seq<char>, int, int)> {
    let i = first_slash(t);
    if i == t.len() {
        None
    } else {
        let rest = t.skip(i + 1);
        let k = first_slash(rest);
        if k == rest.len() {
            None
        } else {
            let pf = rest.take(k);
            let df = rest.skip(k + 1);
            if first_slash(df) != df.len() {
                None
            } else {
                match (int_of_token(pf), int_of_token(df)) {
                    (Some(p), Some(d)) => if 1 <= p && p <= i32::MAX && i32::MIN <= d && d
                        <= i32::MAX {
                        Some((t.take(i), p, d))
                    } else {
                        None
                    },
                    _ => None,
                }
            }
        }
    }
}

/// The length of the leading run of non-separator characters.
pub open spec fn tok_len(s: Seq<char>) -> int
    decreases s.len(),
{
    if s.len() == 0 {
        0
    } else if is_sep(s[0]) {
        0
    } else {
        1 + tok_len(s.drop_first())
    }
}

proof fn lemma_tok_len_bounds(s: Seq<char>)
    ensures
        0 <= tok_len(s) <= s.len(),
    decreases s.len(),
{
    if s.len() > 0 && !is_sep(s[0]) {
        lemma_tok_len_bounds(s.drop_first());
    }
}

/// The whitespace-separated tokens of the input, in order, none empty.
pub open spec fn tokens_of(s: Seq<char>) -> Seq<Seq<char>>
    decreases s.len(),
    via tokens_of_decreases
{
    if s.len() == 0 {
        Seq::empty()
    } else if is_sep(s[0]) {
        tokens_of(s.drop_first())
    } else {
        seq![s.take(tok_len(s))] + tokens_of(s.skip(tok_len(s)))
    }
}

#[via_fn]
proof fn tokens_of_decreases(s: Seq<char>) {
    if s.len() > 0 && !is_sep(s[0]) {
        lemma_tok_len_bounds(s.drop_first());
    }
}

/// What a whole token list denotes: every token's record, in order, or
/// `None` as soon as any token is malformed.
pub open spec fn records_of_tokens(ts: Seq<Seq<char>>) -> Option<Seq<(Seq<char>, int, int)>>
    decreases ts.len(),
{
    if ts.len() == 0 {
        Some(Seq::empty())
    } else {
        match records_of_tokens(ts.drop_last()) {
            Some(rs) => match record_of_token(ts.last()) {
                Some(r) => Some(rs.push(r)),
                None => None,
            },
            None => None,
        }
    }
}

/// The total processing time a record list asks for.
pub open spec fn records_sum_p(rs: Seq<(Seq<char>, int, int)>) -> int
    decreases rs.len(),
{
    if rs.len() == 0 {
        0
    } else {
        records_sum_p(rs.drop_last()) + rs.last().1
    }
}

/// The jobs carry exactly the records' fields, in order.
pub open spec fn jobs_match_records(v: Seq<Job>, rs: Seq<(Seq<char>, int, int)>) -> bool {
    &&& v.len() == rs.len()
    &&& forall|i: int|
        0 <= i < v.len() ==> ((#[trigger] v[i]).name@ == rs[i].0 && v[i].p == rs[i].1 && v[i].d
            == rs[i].2)
}

/// Why a job list failed to parse.
#[derive(Clone, Copy, PartialEq, Eq, Structural, Debug)]
pub enum ParseError {
    /// Some whitespace-separated token is not `name/p/d` with `p` a
    /// positive `i32` and `d` an `i32`.
    BadRecord,
    /// Every record parses, but the processing times add up beyond the
    /// `i32` clock the schedulers run.
    Overload,
}

proof fn lemma_first_slash_at(t: Seq<char>, m: int)
    requires
        0 <= m <= t.len(),
        forall|k: int| 0 <= k < m ==> (#[trigger] t[k]) != '/',
        m < t.len() ==> t[m] == '/',
    ensures
        first_slash(t) == m,
    decreases t.len(),
{
    if m == 0 {
    } else {
        lemma_first_slash_at(t.drop_first(), m - 1);
    }
}

proof fn lemma_first_slash_bounds(t: Seq<char>)
    ensures
        0 <= first_slash(t) <= t.len(),
        forall|k: int| 0 <= k < first_slash(t) ==> (#[trigger] t[k]) != '/',
        first_slash(t) < t.len() ==> t[first_slash(t)] == '/',
    decreases t.len(),
{
    if t.len() > 0 && t[0] != '/' {
        lemma_first_slash_bounds(t.drop_first());
        assert(forall|k: int| 1 <= k < first_slash(t) ==> (#[trigger] t[k]) == t.drop_first()[k - 1]);
    }
}

proof fn lemma_tok_len_at(s: Seq<char>, m: int)
    requires
        0 <= m <= s.len(),
        forall|k: int| 0 <= k < m ==> !is_sep(#[trigger] s[k]),
        m < s.len() ==> is_sep(s[m]),
    ensures
        tok_len(s) == m,
    decreases s.len(),
{
    if m == 0 {
    } else {
        lemma_tok_len_at(s.drop_first(), m - 1);
    }
}

proof fn lemma_records_bad(ts: Seq<Seq<char>>, k: int)
    requires
        0 <= k < ts.len(),
        record_of_token(ts[k]) is None,
    ensures
        records_of_tokens(ts) is None,
    decreases ts.len(),
{
    if k < ts.len() - 1 {
        lemma_records_bad(ts.drop_last(), k);
    }
}

proof fn lemma_digits_val_nonneg(t: Seq<char>)
    requires
        all_digits(t),
    ensures
        0 <= digits_val(t),
    decreases t.len(),
{
    if t.len() > 0 {
        assert(all_digits(t.drop_last()));
        lemma_digits_val_nonneg(t.drop_last());
        assert(is_digit(t[t.len() - 1]));
        assert(0 <= digit_val(t.last()));
    }
}

proof fn lemma_digits_val_prefix(t: Seq<char>, k: int)
    requires
        all_digits(t),
        0 <= k <= t.len(),
    ensures
        0 <= digits_val(t.take(k)),
        digits_val(t.take(k)) <= digits_val(t),
    decreases t.len(),
{
    assert(all_digits(t.take(k)));
    lemma_digits_val_nonneg(t.take(k));
    if k == t.len() {
        assert(t.take(k) =~= t);
    } else {
        assert(all_digits(t.drop_last()));
        lemma_digits_val_prefix(t.drop_last(), k);
        assert(t.drop_last().take(k) =~= t.take(k));
        lemma_digits_val_nonneg(t.drop_last());
        assert(is_digit(t[t.len() - 1]));
        assert(0 <= digit_val(t.last()));
        assert(digits_val(t) == digits_val(t.drop_last()) * 10 + digit_val(t.last()));
        assert(digits_val(t.drop_last()) * 10 >= digits_val(t.drop_last()));
    }
}

proof fn lemma_match_sum(v: Seq<Job>, rs: Seq<(Seq<char>, int, int)>)
    requires
        jobs_match_records(v, rs),
    ensures
        sum_p(v) == records_sum_p(rs),
    decreases v.len(),
{
    if v.len() > 0 {
        assert(jobs_match_records(v.drop_last(), rs.drop_last()));
        lemma_match_sum(v.drop_last(), rs.drop_last());
    }
}

/// Whether a character separates tokens.
fn sep_char(c: char) -> (b: bool)
    ensures
        b == is_sep(c),
{
    let u = c as u32;
    (0x09 <= u && u <= 0x0D) || u == 0x20 || u == 0x85 || u == 0xA0 || u == 0x1680 || (0x2000 <= u
        && u <= 0x200A) || u == 0x2028 || u == 0x2029 || u == 0x202F || u == 0x205F || u == 0x3000
}

/// Parse a decimal integer token as an `i32`: `None` when the token is not
/// an optionally signed digit string, or its value does not fit.
fn parse_i32(t: &str) -> (r: Option<i32>)
    ensures
        match r {
            Some(v) => int_of_token(t@) == Some(v as int),
            None => int_of_token(t@) is None || (int_of_token(t@) matches Some(n) && (n
                < i32::MIN || n > i32::MAX)),
        },
{
    let n = t.unicode_len();
    if n == 0 {
        return None;
    }
    let c0 = t.get_char(0);
    let neg: bool = c0 == '-';
    let start: usize = if c0 == '-' || c0 == '+' {
        1
    } else {
        0
    };
    if n == start {
        return None;
    }
    let ghost sk = t@.skip(start as int);
    proof {
        if start == 0 {
            assert(sk =~= t@);
        }
        assert(start == 1 ==> (t@[0] == '-' || t@[0] == '+'));
        assert(start == 0 ==> !(t@[0] == '-' || t@[0] == '+'));
    }
    let mut i: usize = start;
    let mut m: u64 = 0;
    while i < n
        invariant
            start <= i <= n,
            n == t@.len(),
            start <= 1,
            neg == (t@[0] == '-'),
            start == 1 <==> (t@[0] == '-' || t@[0] == '+'),
            sk == t@.skip(start as int),
            start == 0 ==> sk == t@,
            forall|k: int| start <= k < i ==> is_digit(#[trigger] t@[k]),
            m == digits_val(t@.subrange(start as int, i as int)),
            m <= 0x5_0000_0009u64,
        decreases n - i,
    {
        let c = t.get_char(i);
        let u = c as u32;
        if u < ('0' as u32) || u > ('9' as u32) {
            // A non-digit after the sign: not an integer token at all.
            proof {
                assert(!is_digit(t@[i as int]));
                assert(sk[i - start as int] == t@[i as int]);
                assert(!all_digits(sk));
                assert(int_of_token(t@) is None);
            }
            return None;
        }
        if m > 0x8000_0000u64 {
            // Whatever the remaining characters, the value cannot fit.
            proof {
                match int_of_token(t@) {
                    Some(nv) => {
                        if start == 1 {
                            assert(all_digits(t@.skip(1)));
                            assert(all_digits(sk));
                            assert(nv == -digits_val(sk) || nv == digits_val(sk));
                        } else {
                            assert(all_digits(t@));
                            assert(all_digits(sk));
                            assert(nv == digits_val(sk));
                        }
                        lemma_digits_val_prefix(sk, i - start as int);
                        assert(sk.take(i - start as int) =~= t@.subrange(start as int, i as int));
                        assert(digits_val(sk) >= m);
                        assert(nv < i32::MIN || nv > i32::MAX);
                    },
                    None => {},
                }
            }
            return None;
        }
        proof {
            assert(t@.subrange(start as int, i as int + 1).drop_last() =~= t@.subrange(
                start as int,
                i as int,
            ));
            assert(t@.subrange(start as int, i as int + 1).last() == t@[i as int]);
        }
        m = m * 10 + ((u - ('0' as u32)) as u64);
        i = i + 1;
    }
    proof {
        assert(t@.subrange(start as int, n as int) =~= sk);
        assert forall|j: int| 0 <= j < sk.len() implies is_digit(#[trigger] sk[j]) by {
            assert(sk[j] == t@[j + start]);
        }
        assert(all_digits(sk));
        assert(sk.len() >= 1);
        assert(m == digits_val(sk));
    }
    if neg {
        if m > 0x8000_0000u64 {
            proof {
                assert(int_of_token(t@) == Some(-digits_val(sk)));
            }
            None
        } else {
            Some((-(m as i64)) as i32)
        }
    } else {
        if m > 0x7fff_ffffu64 {
            proof {
                assert(int_of_token(t@) == Some(digits_val(sk)));
            }
            None
        } else {
            Some(m as i32)
        }
    }
}

/// Parse one token as a job record: `None` unless it is `name/p/d` with a
/// positive `i32` processing time and an `i32` due date.
fn parse_record(t: &str) -> (r: Option<Job>)
    ensures
        match r {
            Some(j) => record_of_token(t@) matches Some(rec) && j.name@ == rec.0 && j.p == rec.1
                && j.d == rec.2 && job_ok(j),
            None => record_of_token(t@) is None,
        },
{
    let n = t.unicode_len();
    let mut i: usize = 0;
    while i < n && t.get_char(i) != '/'
        invariant
            0 <= i <= n,
            n == t@.len(),
            forall|k: int| 0 <= k < i ==> (#[trigger] t@[k]) != '/',
        decreases n - i,
    {
        i = i + 1;
    }
    proof {
        lemma_first_slash_at(t@, i as int);
    }
    if i == n {
        return None;
    }
    let ghost rest = t@.skip(i as int + 1);
    let mut j2: usize = i + 1;
    while j2 < n && t.get_char(j2) != '/'
        invariant
            i + 1 <= j2 <= n,
            n == t@.len(),
            i < n,
            forall|k: int| i + 1 <= k < j2 ==> (#[trigger] t@[k]) != '/',
        decreases n - j2,
    {
        j2 = j2 + 1;
    }
    proof {
        assert(forall|k: int| 0 <= k < j2 - i - 1 ==> rest[k] == t@[k + i + 1]);
        lemma_first_slash_at(rest, j2 - i - 1);
    }
    if j2 == n {
        return None;
    }
    let ghost df = rest.skip(j2 - i as int);
    proof {
        assert(df =~= t@.skip(j2 as int + 1));
    }
    let mut j3: usize = j2 + 1;
    while j3 < n && t.get_char(j3) != '/'
        invariant
            j2 + 1 <= j3 <= n,
            n == t@.len(),
            j2 < n,
            forall|k: int| j2 + 1 <= k < j3 ==> (#[trigger] t@[k]) != '/',
        decreases n - j3,
    {
        j3 = j3 + 1;
    }
    if j3 < n {
        // A third slash: the due-date field may not contain one.
        proof {
            lemma_first_slash_bounds(df);
            assert(df[j3 - j2 - 1 as int] == t@[j3 as int]);
            assert(t@[j3 as int] == '/');
        }
        return None;
    }
    proof {
        assert(forall|k: int| 0 <= k < df.len() ==> (#[trigger] df[k]) == t@[k + j2 + 1]);
        lemma_first_slash_at(df, df.len() as int);
    }
    let pf = t.substring_char(i + 1, j2);
    let dfs = t.substring_char(j2 + 1, n);
    proof {
        assert(pf@ =~= rest.take(j2 - i as int - 1));
        assert(dfs@ =~= df);
    }
    let p = match parse_i32(pf) {
        Some(p) => p,
        None => {
            return None;
        },
    };
    if p < 1 {
        return None;
    }
    let d = match parse_i32(dfs) {
        Some(d) => d,
        None => {
            return None;
        },
    };
    let name = String::from_str(t.substring_char(0, i));
    proof {
        assert(name@ =~= t@.take(i as int));
    }
    Some(Job { name, p, d })
}

/// Parse a whole job list from delimited text.
///
/// On success the jobs carry exactly the fields of the input's records, in
/// input order, and are ready for any scheduler: every processing time is
/// positive and their sum fits the `i32` clock. `BadRecord` is returned
/// exactly when some token is malformed, `Overload` exactly when all
/// records parse but their processing times add up beyond the clock.
pub fn parse_job_list(input: &str) -> (r: Result<Vec<Job>, ParseError>)
    ensures
        match r {
            Ok(v) => records_of_tokens(tokens_of(input@)) matches Some(rs) && jobs_match_records(
                v@,
                rs,
            ) && jobs_ok(v@),
            Err(e) => (e == ParseError::BadRecord && records_of_tokens(tokens_of(input@)) is None)
                || (e == ParseError::Overload && (records_of_tokens(tokens_of(input@))
                matches Some(rs) && records_sum_p(rs) > i32::MAX)),
        },
{
    let n = input.unicode_len();
    let mut i: usize = 0;
    let mut out: Vec<Job> = Vec::new();
    let ghost mut ts: Seq<Seq<char>> = Seq::empty();
    proof {
        assert(input@.skip(0) =~= input@);
        assert(Seq::<Seq<char>>::empty() + tokens_of(input@) =~= tokens_of(input@));
    }
    while i < n
        invariant
            0 <= i <= n,
            n == input@.len(),
            tokens_of(input@) == ts + tokens_of(input@.skip(i as int)),
            records_of_tokens(ts) matches Some(rs) && jobs_match_records(out@, rs),
            forall|q: int| 0 <= q < out@.len() ==> job_ok(#[trigger] out@[q]),
        decreases n - i,
    {
        let c = input.get_char(i);
        if sep_char(c) {
            proof {
                assert(input@.skip(i as int).drop_first() =~= input@.skip(i as int + 1));
            }
            i = i + 1;
        } else {
            let ghost tail = input@.skip(i as int);
            let mut e: usize = i;
            while e < n && !sep_char(input.get_char(e))
                invariant
                    i <= e <= n,
                    n == input@.len(),
                    forall|k: int| i <= k < e ==> !is_sep(#[trigger] input@[k]),
                decreases n - e,
            {
                e = e + 1;
            }
            proof {
                assert(forall|k: int| 0 <= k < e - i ==> tail[k] == input@[k + i]);
                lemma_tok_len_at(tail, e - i as int);
                assert(tail.take(e - i as int) =~= input@.subrange(i as int, e as int));
                assert(tail.skip(e - i as int) =~= input@.skip(e as int));
            }
            let tok = input.substring_char(i, e);
            let ghost newts = ts.push(tok@);
            proof {
                assert(tokens_of(tail) == seq![tok@] + tokens_of(input@.skip(e as int)));
                assert(ts + (seq![tok@] + tokens_of(input@.skip(e as int))) =~= newts + tokens_of(
                    input@.skip(e as int),
                ));
                assert(newts.drop_last() =~= ts);
                assert(newts.last() == tok@);
            }
            match parse_record(tok) {
                None => {
                    proof {
                        lemma_records_bad(tokens_of(input@), ts.len() as int);
                    }
                    return Err(ParseError::BadRecord);
                },
                Some(jb) => {
                    out.push(jb);
                    proof {
                        ts = newts;
                    }
                    i = e;
                },
            }
        }
    }
    proof {
        assert(input@.skip(n as int).len() == 0);
        assert(tokens_of(input@) =~= ts + Seq::<Seq<char>>::empty());
        assert(tokens_of(input@) =~= ts);
    }
    // All records parse; now hold the list to the clock.
    let mut sum: i128 = 0;
    let mut k: usize = 0;
    while k < out.len()
        invariant
            0 <= k <= out@.len(),
            records_of_tokens(tokens_of(input@)) matches Some(rs) && jobs_match_records(out@, rs),
            forall|q: int| 0 <= q < out@.len() ==> job_ok(#[trigger] out@[q]),
            sum == sum_p(out@.take(k as int)),
            0 <= sum <= (k as int) * 0x8000_0000,
        decreases out@.len() - k,
    {
        proof {
            lemma_sum_p_take_step(out@, k as int);
        }
        sum = sum + (out[k].p as i128);
        k = k + 1;
    }
    proof {
        assert(out@.take(out@.len() as int) =~= out@);
    }
    if sum > 0x7fff_ffffi128 {
        proof {
            let rs = records_of_tokens(tokens_of(input@)).unwrap();
            lemma_match_sum(out@, rs);
        }
        return Err(ParseError::Overload);
    }
    Ok(out)
}

} // verus!
