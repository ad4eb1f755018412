use vstd::prelude::*;

use crate::archive::SearchDocument;
use crate::text::{chars_of, has_at, has_at_exec, trim, trim_exec};

verus! {

/// A comparison operator of a numeric directive.
#[derive(Clone, Copy, Debug, PartialEq, Eq, Structural)]
pub enum CmpOp {
    Ge,
    Le,
    Gt,
    Lt,
}

/// The integer fields that a range directive can restrict.
#[derive(Clone, Copy, Debug, PartialEq, Eq, Structural)]
pub enum CountField {
    Words,
    Likes,
    Dislikes,
}

/// How a tag directive takes part in the query.
#[derive(Clone, Copy, Debug, PartialEq, Eq, Structural)]
pub enum TagMode {
    /// `#(tag)`: the tag must be present.
    Required,
    /// `-#(tag)`: the tag must be absent.
    Excluded,
    /// `~#(tag)`: at least one tag of this group must be present.
    AnyOf,
}

#[derive(Clone, Copy, Debug, PartialEq, Eq, Structural)]
pub enum Rating {
    Everyone,
    Teen,
    Mature,
}

#[derive(Clone, Copy, Debug, PartialEq, Eq, Structural)]
pub enum Status {
    Incomplete,
    Complete,
    Hiatus,
    Cancelled,
}

/// The ordering of search results.
#[derive(Clone, Copy, Debug, PartialEq, Eq, Structural)]
pub enum Order {
    Relevancy,
    Words,
    Likes,
    Dislikes,
    Wilson,
}

/// What is wrong with a directive of a query string.
#[derive(Clone, Copy, Debug, PartialEq, Eq, Structural)]
pub enum QueryErrorKind {
    /// A `words`, `likes` or `dislikes` value above `i64::MAX`.
    CountTooLarge,
    /// A `words`, `likes` or `dislikes` comparison without digits after it.
    MalformedNumber,
    /// A `wilson` comparison not followed by `0.` or `1.` and digits.
    MalformedDecimal,
    /// A `wilson` value with more than `WILSON_DIGITS` fractional digits.
    WilsonTooPrecise,
    /// A `wilson` value above 1.
    WilsonOutOfRange,
}

/// Why a query string could not be compiled: what is wrong, and the position
/// (in characters) where the offending directive starts.
#[derive(Clone, Copy, Debug, PartialEq, Eq, Structural)]
pub struct QueryError {
    pub kind: QueryErrorKind,
    pub at: usize,
}

/// The largest value of an integer field; also the initial exclusive upper bound.
pub const COUNT_MAX: u64 = 9223372036854775807;

/// Fractional digits kept of a `wilson` value: values are counted in units of 10^-18.
pub const WILSON_DIGITS: usize = 18;

/// The value 1.0 in wilson units.
pub const WILSON_ONE: u64 = 1000000000000000000;

/// A directive as the grammar reads it, before its numbers are evaluated.
pub enum Tok {
    Author(Seq<char>),
    Tag(TagMode, Seq<char>),
    /// Field, operator and the decimal digits of the value.
    Count(CountField, CmpOp, Seq<char>),
    /// Operator, the digit before the point and the digits after it.
    Wilson(CmpOp, char, Seq<char>),
    Rating(Rating),
    Status(Status),
    Order(Order),
    /// A directive keyword and operator whose value is malformed.
    Malformed(QueryErrorKind),
}

/// A directive extracted from a query string.
#[derive(Clone, Debug)]
pub enum Directive {
    Author(String),
    Tag(TagMode, String),
    Count(CountField, CmpOp, u64),
    /// Operator and value in units of 10^-18.
    Wilson(CmpOp, u64),
    Rating(Rating),
    Status(Status),
    Order(Order),
}

// ---------------------------------------------------------------- grammar

pub open spec fn is_digit(c: char) -> bool {
    '0' <= c && c <= '9'
}

pub open spec fn digit_value(c: char) -> nat {
    (c as u32 - '0' as u32) as nat
}

/// The number that a sequence of decimal digits writes.
pub open spec fn digits_value(ds: Seq<char>) -> nat
    decreases ds.len(),
{
    if ds.len() == 0 {
        0
    } else {
        digits_value(ds.drop_last()) * 10 + digit_value(ds.last())
    }
}

/// End of the run of digits that starts at `p`.
pub open spec fn digits_end(s: Seq<char>, p: int) -> int
    decreases s.len() - p,
{
    if 0 <= p < s.len() && is_digit(s[p]) {
        digits_end(s, p + 1)
    } else {
        p
    }
}

/// Reads a name from `p` up to its closing `)`, where `\)` stands for `)`.
/// Gives the position of the closing `)` (or `s.len()` when there is none)
/// and the name with its escapes undone.
pub open spec fn name_scan(s: Seq<char>, p: int) -> (int, Seq<char>)
    decreases s.len() - p,
{
    if p < 0 || p >= s.len() {
        (s.len() as int, seq![])
    } else if s[p] == '\\' && p + 1 < s.len() && s[p + 1] == ')' {
        let r = name_scan(s, p + 2);
        (r.0, seq![')'] + r.1)
    } else if s[p] == ')' {
        (p, seq![])
    } else {
        let r = name_scan(s, p + 1);
        (r.0, seq![s[p]] + r.1)
    }
}

/// A parenthesised name whose opening keyword ends at `p`.
pub open spec fn name_at(s: Seq<char>, p: int) -> Option<(Seq<char>, int)> {
    let r = name_scan(s, p);
    if p < r.0 < s.len() {
        Some((r.1, r.0 + 1))
    } else {
        None
    }
}

pub open spec fn kw_author() -> Seq<char> { seq!['a', 'u', 't', 'h', 'o', 'r', '('] }
pub open spec fn kw_excluded() -> Seq<char> { seq!['-', '#', '('] }
pub open spec fn kw_any_of() -> Seq<char> { seq!['~', '#', '('] }
pub open spec fn kw_required() -> Seq<char> { seq!['#', '('] }
pub open spec fn kw_words() -> Seq<char> { seq!['w', 'o', 'r', 'd', 's'] }
pub open spec fn kw_likes() -> Seq<char> { seq!['l', 'i', 'k', 'e', 's'] }
pub open spec fn kw_dislikes() -> Seq<char> { seq!['d', 'i', 's', 'l', 'i', 'k', 'e', 's'] }
pub open spec fn kw_wilson() -> Seq<char> { seq!['w', 'i', 'l', 's', 'o', 'n'] }
pub open spec fn kw_rating() -> Seq<char> { seq!['r', 'a', 't', 'i', 'n', 'g', ':'] }
pub open spec fn kw_status() -> Seq<char> { seq!['s', 't', 'a', 't', 'u', 's', ':'] }
pub open spec fn kw_order() -> Seq<char> { seq!['o', 'r', 'd', 'e', 'r', ':'] }
pub open spec fn kw_everyone() -> Seq<char> { seq!['e', 'v', 'e', 'r', 'y', 'o', 'n', 'e'] }
pub open spec fn kw_teen() -> Seq<char> { seq!['t', 'e', 'e', 'n'] }
pub open spec fn kw_mature() -> Seq<char> { seq!['m', 'a', 't', 'u', 'r', 'e'] }
pub open spec fn kw_incomplete() -> Seq<char> { seq!['i', 'n', 'c', 'o', 'm', 'p', 'l', 'e', 't', 'e'] }
pub open spec fn kw_complete() -> Seq<char> { seq!['c', 'o', 'm', 'p', 'l', 'e', 't', 'e'] }
pub open spec fn kw_hiatus() -> Seq<char> { seq!['h', 'i', 'a', 't', 'u', 's'] }
pub open spec fn kw_cancelled() -> Seq<char> { seq!['c', 'a', 'n', 'c', 'e', 'l', 'l', 'e', 'd'] }
pub open spec fn kw_relevancy() -> Seq<char> { seq!['r', 'e', 'l', 'e', 'v', 'a', 'n', 'c', 'y'] }

/// The comparison operator at `p` and its length; `>=` and `<=` before `>` and `<`.
pub open spec fn op_at(s: Seq<char>, p: int) -> Option<(CmpOp, int)> {
    if has_at(s, p, seq!['>', '=']) {
        Some((CmpOp::Ge, 2))
    } else if has_at(s, p, seq!['<', '=']) {
        Some((CmpOp::Le, 2))
    } else if has_at(s, p, seq!['>']) {
        Some((CmpOp::Gt, 1))
    } else if has_at(s, p, seq!['<']) {
        Some((CmpOp::Lt, 1))
    } else {
        None
    }
}

/// `<op><digits>` after a count keyword that ends at `p`.
pub open spec fn count_at(s: Seq<char>, p: int, f: CountField) -> Option<(Tok, int)> {
    match op_at(s, p) {
        Some((op, n)) => {
            let q = p + n;
            let e = digits_end(s, q);
            if e > q {
                Some((Tok::Count(f, op, s.subrange(q, e)), e))
            } else {
                Some((Tok::Malformed(QueryErrorKind::MalformedNumber), q))
            }
        },
        None => None,
    }
}

/// `<op>D.<digits>` after `wilson` ending at `p`, where D is `0` or `1`.
pub open spec fn wilson_at(s: Seq<char>, p: int) -> Option<(Tok, int)> {
    match op_at(s, p) {
        Some((op, n)) => {
            let q = p + n;
            let e = digits_end(s, q + 2);
            if q < s.len() && q + 1 < s.len() && (s[q] == '0' || s[q] == '1') && s[q + 1] == '.' && e > q + 2 {
                Some((Tok::Wilson(op, s[q], s.subrange(q + 2, e)), e))
            } else {
                Some((Tok::Malformed(QueryErrorKind::MalformedDecimal), q))
            }
        },
        None => None,
    }
}

pub open spec fn rating_at(s: Seq<char>, p: int) -> Option<(Tok, int)> {
    if has_at(s, p, kw_everyone()) {
        Some((Tok::Rating(Rating::Everyone), p + 8))
    } else if has_at(s, p, kw_teen()) {
        Some((Tok::Rating(Rating::Teen), p + 4))
    } else if has_at(s, p, kw_mature()) {
        Some((Tok::Rating(Rating::Mature), p + 6))
    } else {
        None
    }
}

pub open spec fn status_at(s: Seq<char>, p: int) -> Option<(Tok, int)> {
    if has_at(s, p, kw_incomplete()) {
        Some((Tok::Status(Status::Incomplete), p + 10))
    } else if has_at(s, p, kw_complete()) {
        Some((Tok::Status(Status::Complete), p + 8))
    } else if has_at(s, p, kw_hiatus()) {
        Some((Tok::Status(Status::Hiatus), p + 6))
    } else if has_at(s, p, kw_cancelled()) {
        Some((Tok::Status(Status::Cancelled), p + 9))
    } else {
        None
    }
}

pub open spec fn order_at(s: Seq<char>, p: int) -> Option<(Tok, int)> {
    if has_at(s, p, kw_relevancy()) {
        Some((Tok::Order(Order::Relevancy), p + 9))
    } else if has_at(s, p, kw_words()) {
        Some((Tok::Order(Order::Words), p + 5))
    } else if has_at(s, p, kw_likes()) {
        Some((Tok::Order(Order::Likes), p + 5))
    } else if has_at(s, p, kw_dislikes()) {
        Some((Tok::Order(Order::Dislikes), p + 8))
    } else if has_at(s, p, kw_wilson()) {
        Some((Tok::Order(Order::Wilson), p + 6))
    } else {
        None
    }
}

pub open spec fn name_tok(s: Seq<char>, p: int, k: Option<TagMode>) -> Option<(Tok, int)> {
    match name_at(s, p) {
        Some((name, e)) => match k {
            Some(mode) => Some((Tok::Tag(mode, name), e)),
            None => Some((Tok::Author(name), e)),
        },
        None => None,
    }
}

/// The directive that starts at position `i` of `s`, with the position after it.
#[verifier::opaque]
pub open spec fn directive_at(s: Seq<char>, i: int) -> Option<(Tok, int)> {
    if has_at(s, i, kw_author()) {
        name_tok(s, i + 7, None)
    } else if has_at(s, i, kw_excluded()) {
        name_tok(s, i + 3, Some(TagMode::Excluded))
    } else if has_at(s, i, kw_any_of()) {
        name_tok(s, i + 3, Some(TagMode::AnyOf))
    } else if has_at(s, i, kw_required()) {
        name_tok(s, i + 2, Some(TagMode::Required))
    } else if has_at(s, i, kw_words()) {
        count_at(s, i + 5, CountField::Words)
    } else if has_at(s, i, kw_likes()) {
        count_at(s, i + 5, CountField::Likes)
    } else if has_at(s, i, kw_dislikes()) {
        count_at(s, i + 8, CountField::Dislikes)
    } else if has_at(s, i, kw_wilson()) {
        wilson_at(s, i + 6)
    } else if has_at(s, i, kw_rating()) {
        rating_at(s, i + 7)
    } else if has_at(s, i, kw_status()) {
        status_at(s, i + 7)
    } else if has_at(s, i, kw_order()) {
        order_at(s, i + 6)
    } else {
        None
    }
}

pub open spec fn pow10(n: nat) -> nat
    decreases n,
{
    if n == 0 {
        1
    } else {
        10 * pow10((n - 1) as nat)
    }
}

/// `n` zeros.
pub open spec fn zeros(n: nat) -> Seq<char> {
    Seq::new(n, |k: int| '0')
}

/// A wilson literal `w.frac` in units of 10^-18.
pub open spec fn wilson_units(w: char, frac: Seq<char>) -> nat {
    digits_value(seq![w] + frac + zeros((WILSON_DIGITS - frac.len()) as nat))
}

/// The error that a token carries, if any.
pub open spec fn tok_error(t: Tok) -> Option<QueryErrorKind> {
    match t {
        Tok::Count(_, _, ds) => if digits_value(ds) > COUNT_MAX {
            Some(QueryErrorKind::CountTooLarge)
        } else {
            None
        },
        Tok::Wilson(_, w, frac) => if frac.len() > WILSON_DIGITS {
            Some(QueryErrorKind::WilsonTooPrecise)
        } else if wilson_units(w, frac) > WILSON_ONE {
            Some(QueryErrorKind::WilsonOutOfRange)
        } else {
            None
        },
        Tok::Malformed(k) => Some(k),
        _ => None,
    }
}

/// `d` is the evaluated form of `t`.
pub open spec fn tok_matches(d: Directive, t: Tok) -> bool {
    match (d, t) {
        (Directive::Author(n), Tok::Author(m)) => n@ == m,
        (Directive::Tag(k, n), Tok::Tag(k2, m)) => k == k2 && n@ == m,
        (Directive::Count(f, o, v), Tok::Count(f2, o2, ds)) => f == f2 && o == o2 && v
            == digits_value(ds),
        (Directive::Wilson(o, u), Tok::Wilson(o2, w, frac)) => o == o2 && u == wilson_units(
            w,
            frac,
        ),
        (Directive::Rating(a), Tok::Rating(b)) => a == b,
        (Directive::Status(a), Tok::Status(b)) => a == b,
        (Directive::Order(a), Tok::Order(b)) => a == b,
        _ => false,
    }
}

/// Splits `s` from position `i` into its directives and the text between them.
pub open spec fn lex_from(s: Seq<char>, i: int) -> (Seq<Tok>, Seq<char>)
    decreases s.len() - i,
{
    if i < 0 || i >= s.len() {
        (seq![], seq![])
    } else {
        match directive_at(s, i) {
            Some((t, j)) => if i < j <= s.len() {
                let r = lex_from(s, j);
                (seq![t] + r.0, r.1)
            } else {
                let r = lex_from(s, i + 1);
                (r.0, seq![s[i]] + r.1)
            },
            None => {
                let r = lex_from(s, i + 1);
                (r.0, seq![s[i]] + r.1)
            },
        }
    }
}

/// The directives of a query string, in order, and what is left around them.
pub open spec fn lex(s: Seq<char>) -> (Seq<Tok>, Seq<char>) {
    lex_from(s, 0)
}

/// The error of the first token that carries one.
pub open spec fn first_error(ts: Seq<Tok>) -> Option<QueryErrorKind>
    decreases ts.len(),
{
    if ts.len() == 0 {
        None
    } else {
        match tok_error(ts[0]) {
            Some(e) => Some(e),
            None => first_error(ts.drop_first()),
        }
    }
}

proof fn lemma_first_error_append(a: Seq<Tok>, b: Seq<Tok>)
    requires
        first_error(a) is None,
    ensures
        first_error(a + b) == first_error(b),
    decreases a.len(),
{
    if a.len() > 0 {
        assert((a + b).drop_first() =~= a.drop_first() + b);
        lemma_first_error_append(a.drop_first(), b);
    } else {
        assert(a + b =~= b);
    }
}

proof fn lemma_digits_value_bound(ds: Seq<char>)
    requires
        forall|k: int| 0 <= k < ds.len() ==> is_digit(#[trigger] ds[k]),
    ensures
        digits_value(ds) < pow10(ds.len()),
    decreases ds.len(),
{
    if ds.len() > 0 {
        let p = ds.drop_last();
        lemma_digits_value_bound(p);
        let x = digits_value(p);
        let y = pow10(p.len());
        assert(x * 10 + digit_value(ds.last()) < 10 * y) by (nonlinear_arith)
            requires
                x < y,
                digit_value(ds.last()) <= 9,
        ;
    }
}

fn digit_exec(c: char) -> (r: u64)
    requires
        is_digit(c),
    ensures
        r == digit_value(c),
        r <= 9,
{
    (c as u32 - '0' as u32) as u64
}

fn digits_end_exec(s: &Vec<char>, p: usize) -> (e: usize)
    requires
        p <= s.len(),
    ensures
        e == digits_end(s@, p as int),
        p <= e <= s.len(),
        forall|k: int| p <= k < e ==> is_digit(#[trigger] s@[k]),
{
    let mut e = p;
    while e < s.len() && '0' <= s[e] && s[e] <= '9'
        invariant
            p <= e <= s.len(),
            digits_end(s@, e as int) == digits_end(s@, p as int),
            forall|k: int| p <= k < e ==> is_digit(#[trigger] s@[k]),
        decreases s.len() - e,
    {
        e += 1;
    }
    e
}

/// The value of the digits `s[q..e]`, or `None` when it exceeds `COUNT_MAX`.
fn count_value(s: &Vec<char>, q: usize, e: usize) -> (r: Option<u64>)
    requires
        q <= e <= s.len(),
        forall|k: int| q <= k < e ==> is_digit(#[trigger] s@[k]),
    ensures
        match r {
            Some(v) => v == digits_value(s@.subrange(q as int, e as int)) && v <= COUNT_MAX,
            None => digits_value(s@.subrange(q as int, e as int)) > COUNT_MAX,
        },
{
    let mut acc: u64 = 0;
    let mut big = false;
    let mut k = q;
    assert(s@.subrange(q as int, q as int) =~= Seq::<char>::empty());
    while k < e
        invariant
            q <= k <= e <= s.len(),
            forall|j: int| q <= j < e ==> is_digit(#[trigger] s@[j]),
            !big ==> acc == digits_value(s@.subrange(q as int, k as int)) && acc <= COUNT_MAX,
            big ==> digits_value(s@.subrange(q as int, k as int)) > COUNT_MAX,
        decreases e - k,
    {
        let d = digit_exec(s[k]);
        proof {
            assert(s@.subrange(q as int, k + 1).drop_last() =~= s@.subrange(q as int, k as int));
        }
        if !big {
            if acc > (COUNT_MAX - d) / 10 {
                big = true;
            } else {
                acc = acc * 10 + d;
            }
        }
        k += 1;
    }
    if big {
        None
    } else {
        Some(acc)
    }
}

/// The value of the wilson literal `s[q] . s[q+2..e]` in units of 10^-18, or `None`
/// when it has more than `WILSON_DIGITS` fractional digits.
fn wilson_value(s: &Vec<char>, q: usize, e: usize) -> (r: Option<u64>)
    requires
        q + 2 <= e <= s.len(),
        s@[q as int] == '0' || s@[q as int] == '1',
        forall|k: int| q + 2 <= k < e ==> is_digit(#[trigger] s@[k]),
    ensures
        match r {
            Some(u) => e - (q + 2) <= WILSON_DIGITS && u == wilson_units(
                s@[q as int],
                s@.subrange(q + 2, e as int),
            ),
            None => e - (q + 2) > WILSON_DIGITS,
        },
{
    if e - (q + 2) > WILSON_DIGITS {
        return None;
    }
    let ghost w = s@[q as int];
    let mut acc: u64 = digit_exec(s[q]);
    let mut k = q + 2;
    proof {
        reveal_with_fuel(pow10, 20);
        assert((seq![w]).drop_last() =~= Seq::<char>::empty());
        assert(seq![w] + s@.subrange(q + 2, q + 2) =~= seq![w]);
        assert(digits_value(seq![w]) == digits_value(seq![w].drop_last()) * 10 + digit_value(w));
    }
    while k < e
        invariant
            q + 2 <= k <= e <= s.len(),
            e - (q + 2) <= WILSON_DIGITS,
            w == s@[q as int],
            forall|j: int| q + 2 <= j < e ==> is_digit(#[trigger] s@[j]),
            is_digit(w),
            acc == digits_value(seq![w] + s@.subrange(q + 2, k as int)),
            pow10(18) == 1000000000000000000,
        decreases e - k,
    {
        let ghost pre = seq![w] + s@.subrange(q + 2, k as int);
        let ghost next = seq![w] + s@.subrange(q + 2, k + 1);
        proof {
            assert(next.drop_last() =~= pre);
            assert forall|j: int| 0 <= j < pre.len() implies is_digit(#[trigger] pre[j]) by {
                if j > 0 {
                    assert(pre[j] == s@[q + 2 + j - 1]);
                }
            }
            lemma_digits_value_bound(pre);
            lemma_pow10_mono(pre.len(), 18);
        }
        acc = acc * 10 + digit_exec(s[k]);
        k += 1;
    }
    let mut t: usize = e - (q + 2);
    let ghost frac = s@.subrange(q + 2, e as int);
    assert(seq![w] + frac + zeros(0) =~= seq![w] + frac);
    while t < WILSON_DIGITS
        invariant
            q + 2 <= e <= s.len(),
            e - (q + 2) <= t <= WILSON_DIGITS,
            frac == s@.subrange(q + 2, e as int),
            forall|j: int| 0 <= j < frac.len() ==> is_digit(#[trigger] frac[j]),
            is_digit(w),
            acc == digits_value(seq![w] + frac + zeros((t - frac.len()) as nat)),
            pow10(18) == 1000000000000000000,
        decreases WILSON_DIGITS - t,
    {
        let ghost pre = seq![w] + frac + zeros((t - frac.len()) as nat);
        let ghost next = seq![w] + frac + zeros((t + 1 - frac.len()) as nat);
        proof {
            let m = (t - frac.len()) as nat;
            assert(zeros(m + 1) =~= zeros(m).push('0'));
            assert(next =~= pre.push('0'));
            assert(next.drop_last() =~= pre);
            assert(next.last() == '0');
            assert(pre.len() == t + 1);
            assert forall|j: int| 0 <= j < pre.len() implies is_digit(#[trigger] pre[j]) by {
                if 0 < j <= frac.len() {
                    assert(pre[j] == frac[j - 1]);
                }
            }
            lemma_digits_value_bound(pre);
            lemma_pow10_mono(pre.len(), 18);
        }
        acc = acc * 10;
        t += 1;
    }
    Some(acc)
}

proof fn lemma_pow10_mono(a: nat, b: nat)
    requires
        a <= b,
    ensures
        pow10(a) <= pow10(b),
    decreases b,
{
    if a < b {
        lemma_pow10_mono(a, (b - 1) as nat);
    }
}

fn op_exec(s: &Vec<char>, p: usize) -> (r: Option<(CmpOp, usize)>)
    ensures
        match op_at(s@, p as int) {
            Some((op, n)) => r == Some((op, n as usize)),
            None => r is None,
        },
{
    proof {
        assert(['>', '=']@ == seq!['>', '=']);
        assert(['<', '=']@ == seq!['<', '=']);
        assert(['>']@ == seq!['>']);
        assert(['<']@ == seq!['<']);
    }
    if has_at_exec(s, p, &['>', '=']) {
        Some((CmpOp::Ge, 2))
    } else if has_at_exec(s, p, &['<', '=']) {
        Some((CmpOp::Le, 2))
    } else if has_at_exec(s, p, &['>']) {
        Some((CmpOp::Gt, 1))
    } else if has_at_exec(s, p, &['<']) {
        Some((CmpOp::Lt, 1))
    } else {
        None
    }
}

fn name_exec(s: &Vec<char>, p: usize) -> (r: Option<(String, usize)>)
    requires
        p <= s.len(),
    ensures
        match name_at(s@, p as int) {
            Some((name, e)) => r is Some && r->Some_0.0@ == name && r->Some_0.1 == e,
            None => r is None,
        },
{
    let mut k = p;
    let mut name = String::new();
    while k < s.len() && s[k] != ')'
        invariant
            p <= k <= s.len(),
            name_scan(s@, p as int) == (name_scan(s@, k as int).0, name@ + name_scan(
                s@,
                k as int,
            ).1),
        decreases s.len() - k,
    {
        let ghost before = name@;
        if s[k] == '\\' && k + 1 < s.len() && s[k + 1] == ')' {
            name.push(')');
            assert(before + (seq![')'] + name_scan(s@, k + 2).1) =~= name@ + name_scan(
                s@,
                k + 2,
            ).1);
            k += 2;
        } else {
            name.push(s[k]);
            assert(before + (seq![s@[k as int]] + name_scan(s@, k + 1).1) =~= name@
                + name_scan(s@, k + 1).1);
            k += 1;
        }
    }
    assert(name@ + Seq::<char>::empty() =~= name@);
    if p < k && k < s.len() {
        Some((name, k + 1))
    } else {
        None
    }
}

fn name_directive(s: &Vec<char>, p: usize, k: Option<TagMode>) -> (r: Option<(Directive, usize)>)
    requires
        p <= s.len(),
    ensures
        match name_tok(s@, p as int, k) {
            Some((t, e)) => r is Some && tok_matches(r->Some_0.0, t) && r->Some_0.1 == e,
            None => r is None,
        },
{
    match name_exec(s, p) {
        Some((name, e)) => match k {
            Some(mode) => Some((Directive::Tag(mode, name), e)),
            None => Some((Directive::Author(name), e)),
        },
        None => None,
    }
}

/// Evaluates a token's number, failing as `tok_error` says.
pub open spec fn lexed(r: Result<Option<(Directive, usize)>, QueryErrorKind>, t: Option<(Tok, int)>) -> bool {
    match t {
        Some((t, e)) => match tok_error(t) {
            Some(err) => r == Err::<Option<(Directive, usize)>, QueryErrorKind>(err),
            None => r is Ok && r->Ok_0 is Some && tok_matches(r->Ok_0->Some_0.0, t)
                && r->Ok_0->Some_0.1 == e,
        },
        None => r == Ok::<Option<(Directive, usize)>, QueryErrorKind>(None),
    }
}

fn count_exec(s: &Vec<char>, p: usize, f: CountField) -> (r: Result<Option<(Directive, usize)>, QueryErrorKind>)
    requires
        p <= s.len(),
    ensures
        lexed(r, count_at(s@, p as int, f)),
{
    match op_exec(s, p) {
        Some((op, n)) => {
            let q = p + n;
            let e = digits_end_exec(s, q);
            if e > q {
                match count_value(s, q, e) {
                    Some(v) => Ok(Some((Directive::Count(f, op, v), e))),
                    None => Err(QueryErrorKind::CountTooLarge),
                }
            } else {
                Err(QueryErrorKind::MalformedNumber)
            }
        },
        None => Ok(None),
    }
}

fn wilson_exec(s: &Vec<char>, p: usize) -> (r: Result<Option<(Directive, usize)>, QueryErrorKind>)
    requires
        p <= s.len(),
    ensures
        lexed(r, wilson_at(s@, p as int)),
{
    match op_exec(s, p) {
        Some((op, n)) => {
            let q = p + n;
            if q < s.len() && q + 1 < s.len() && (s[q] == '0' || s[q] == '1') && s[q + 1] == '.' {
                let e = digits_end_exec(s, q + 2);
                if e > q + 2 {
                    match wilson_value(s, q, e) {
                        Some(u) => if u > WILSON_ONE {
                            Err(QueryErrorKind::WilsonOutOfRange)
                        } else {
                            Ok(Some((Directive::Wilson(op, u), e)))
                        },
                        None => Err(QueryErrorKind::WilsonTooPrecise),
                    }
                } else {
                    Err(QueryErrorKind::MalformedDecimal)
                }
            } else {
                Err(QueryErrorKind::MalformedDecimal)
            }
        },
        None => Ok(None),
    }
}

fn rating_exec(s: &Vec<char>, p: usize) -> (r: Option<(Directive, usize)>)
    requires
        p <= s.len(),
    ensures
        match rating_at(s@, p as int) {
            Some((t, e)) => r is Some && tok_matches(r->Some_0.0, t) && r->Some_0.1 == e,
            None => r is None,
        },
{
    if has_at_exec(s, p, &['e', 'v', 'e', 'r', 'y', 'o', 'n', 'e']) {
        Some((Directive::Rating(Rating::Everyone), p + 8))
    } else if has_at_exec(s, p, &['t', 'e', 'e', 'n']) {
        Some((Directive::Rating(Rating::Teen), p + 4))
    } else if has_at_exec(s, p, &['m', 'a', 't', 'u', 'r', 'e']) {
        Some((Directive::Rating(Rating::Mature), p + 6))
    } else {
        None
    }
}

fn status_exec(s: &Vec<char>, p: usize) -> (r: Option<(Directive, usize)>)
    requires
        p <= s.len(),
    ensures
        match status_at(s@, p as int) {
            Some((t, e)) => r is Some && tok_matches(r->Some_0.0, t) && r->Some_0.1 == e,
            None => r is None,
        },
{
    if has_at_exec(s, p, &['i', 'n', 'c', 'o', 'm', 'p', 'l', 'e', 't', 'e']) {
        Some((Directive::Status(Status::Incomplete), p + 10))
    } else if has_at_exec(s, p, &['c', 'o', 'm', 'p', 'l', 'e', 't', 'e']) {
        Some((Directive::Status(Status::Complete), p + 8))
    } else if has_at_exec(s, p, &['h', 'i', 'a', 't', 'u', 's']) {
        Some((Directive::Status(Status::Hiatus), p + 6))
    } else if has_at_exec(s, p, &['c', 'a', 'n', 'c', 'e', 'l', 'l', 'e', 'd']) {
        Some((Directive::Status(Status::Cancelled), p + 9))
    } else {
        None
    }
}

fn order_exec(s: &Vec<char>, p: usize) -> (r: Option<(Directive, usize)>)
    requires
        p <= s.len(),
    ensures
        match order_at(s@, p as int) {
            Some((t, e)) => r is Some && tok_matches(r->Some_0.0, t) && r->Some_0.1 == e,
            None => r is None,
        },
{
    if has_at_exec(s, p, &['r', 'e', 'l', 'e', 'v', 'a', 'n', 'c', 'y']) {
        Some((Directive::Order(Order::Relevancy), p + 9))
    } else if has_at_exec(s, p, &['w', 'o', 'r', 'd', 's']) {
        Some((Directive::Order(Order::Words), p + 5))
    } else if has_at_exec(s, p, &['l', 'i', 'k', 'e', 's']) {
        Some((Directive::Order(Order::Likes), p + 5))
    } else if has_at_exec(s, p, &['d', 'i', 's', 'l', 'i', 'k', 'e', 's']) {
        Some((Directive::Order(Order::Dislikes), p + 8))
    } else if has_at_exec(s, p, &['w', 'i', 'l', 's', 'o', 'n']) {
        Some((Directive::Order(Order::Wilson), p + 6))
    } else {
        None
    }
}

fn some_ok(r: Option<(Directive, usize)>) -> (o: Result<Option<(Directive, usize)>, QueryErrorKind>)
    ensures
        o == Ok::<Option<(Directive, usize)>, QueryErrorKind>(r),
{
    Ok(r)
}

/// The directive at position `i`, evaluated.
fn directive_exec(s: &Vec<char>, i: usize) -> (r: Result<Option<(Directive, usize)>, QueryErrorKind>)
    requires
        i < s.len(),
    ensures
        lexed(r, directive_at(s@, i as int)),
{
    reveal(directive_at);
    if has_at_exec(s, i, &['a', 'u', 't', 'h', 'o', 'r', '(']) {
        some_ok(name_directive(s, i + 7, None))
    } else if has_at_exec(s, i, &['-', '#', '(']) {
        some_ok(name_directive(s, i + 3, Some(TagMode::Excluded)))
    } else if has_at_exec(s, i, &['~', '#', '(']) {
        some_ok(name_directive(s, i + 3, Some(TagMode::AnyOf)))
    } else if has_at_exec(s, i, &['#', '(']) {
        some_ok(name_directive(s, i + 2, Some(TagMode::Required)))
    } else if has_at_exec(s, i, &['w', 'o', 'r', 'd', 's']) {
        count_exec(s, i + 5, CountField::Words)
    } else if has_at_exec(s, i, &['l', 'i', 'k', 'e', 's']) {
        count_exec(s, i + 5, CountField::Likes)
    } else if has_at_exec(s, i, &['d', 'i', 's', 'l', 'i', 'k', 'e', 's']) {
        count_exec(s, i + 8, CountField::Dislikes)
    } else if has_at_exec(s, i, &['w', 'i', 'l', 's', 'o', 'n']) {
        wilson_exec(s, i + 6)
    } else if has_at_exec(s, i, &['r', 'a', 't', 'i', 'n', 'g', ':']) {
        some_ok(rating_exec(s, i + 7))
    } else if has_at_exec(s, i, &['s', 't', 'a', 't', 'u', 's', ':']) {
        some_ok(status_exec(s, i + 7))
    } else if has_at_exec(s, i, &['o', 'r', 'd', 'e', 'r', ':']) {
        some_ok(order_exec(s, i + 6))
    } else {
        Ok(None)
    }
}

proof fn lemma_digits_end(s: Seq<char>, p: int)
    requires
        0 <= p <= s.len(),
    ensures
        p <= digits_end(s, p) <= s.len(),
    decreases s.len() - p,
{
    if p < s.len() && is_digit(s[p]) {
        lemma_digits_end(s, p + 1);
    }
}

/// A directive is never empty and never runs past the end.
proof fn lemma_directive_at_advances(s: Seq<char>, i: int)
    requires
        0 <= i < s.len(),
    ensures
        directive_at(s, i) matches Some((_, j)) ==> i < j <= s.len(),
{
    reveal(directive_at);
    if has_at(s, i, kw_words()) {
        if let Some((_, n)) = op_at(s, i + 5) {
            lemma_digits_end(s, i + 5 + n);
        }
    } else if has_at(s, i, kw_likes()) {
        if let Some((_, n)) = op_at(s, i + 5) {
            lemma_digits_end(s, i + 5 + n);
        }
    } else if has_at(s, i, kw_dislikes()) {
        if let Some((_, n)) = op_at(s, i + 8) {
            lemma_digits_end(s, i + 8 + n);
        }
    } else if has_at(s, i, kw_wilson()) {
        if let Some((_, n)) = op_at(s, i + 6) {
            if i + 6 + n + 2 <= s.len() {
                lemma_digits_end(s, i + 6 + n + 2);
            }
        }
    }
}

/// The first directive from position `i` on whose value is out of range or
/// malformed, with the position where it starts.
pub open spec fn lex_error_from(s: Seq<char>, i: int) -> Option<QueryError>
    decreases s.len() - i,
{
    if i < 0 || i >= s.len() {
        None
    } else {
        match directive_at(s, i) {
            Some((t, j)) => if i < j <= s.len() {
                match tok_error(t) {
                    Some(k) => Some(QueryError { kind: k, at: i as usize }),
                    None => lex_error_from(s, j),
                }
            } else {
                lex_error_from(s, i + 1)
            },
            None => lex_error_from(s, i + 1),
        }
    }
}

/// The first malformed or out-of-range directive of a query string.
pub open spec fn lex_error(s: Seq<char>) -> Option<QueryError> {
    lex_error_from(s, 0)
}

/// Splits a query string into its directives, in order of appearance, and the
/// text left between them. Fails with the error and position of the first
/// directive whose value is malformed or out of range.
pub fn tokenize(input: &str) -> (r: Result<(Vec<Directive>, String), QueryError>)
    ensures
        match r {
            Ok((ds, rest)) => {
                &&& lex_error(input@) is None
                &&& first_error(lex(input@).0) is None
                &&& ds@.len() == lex(input@).0.len()
                &&& forall|k: int| 0 <= k < ds@.len() ==> tok_matches(ds@[k], lex(input@).0[k])
                &&& rest@ == lex(input@).1
            },
            Err(e) => lex_error(input@) == Some(e),
        },
{
    let s = chars_of(input);
    let mut ds: Vec<Directive> = Vec::new();
    let mut rest = String::new();
    let ghost toks: Seq<Tok> = seq![];
    let mut i: usize = 0;
    while i < s.len()
        invariant
            i <= s.len(),
            s@ == input@,
            lex(s@).0 == toks + lex_from(s@, i as int).0,
            lex(s@).1 == rest@ + lex_from(s@, i as int).1,
            first_error(toks) is None,
            lex_error(s@) == lex_error_from(s@, i as int),
            ds@.len() == toks.len(),
            forall|k: int| 0 <= k < ds@.len() ==> tok_matches(ds@[k], toks[k]),
        decreases s.len() - i,
    {
        let ghost t_i = directive_at(s@, i as int);
        proof {
            lemma_directive_at_advances(s@, i as int);
        }
        let ghost before = rest@;
        match directive_exec(&s, i) {
            Err(e) => {
                proof {
                    let t = t_i->Some_0.0;
                    let tail = lex_from(s@, t_i->Some_0.1);
                    assert(lex_from(s@, i as int).0 == seq![t] + tail.0);
                    assert((seq![t] + tail.0).drop_first() =~= tail.0);
                    lemma_first_error_append(toks, seq![t] + tail.0);
                }
                return Err(QueryError { kind: e, at: i });
            },
            Ok(Some((d, j))) => {
                proof {
                    let t = t_i->Some_0.0;
                    let tail = lex_from(s@, j as int);
                    assert(toks.push(t) + tail.0 =~= toks + (seq![t] + tail.0));
                    assert(toks.push(t).drop_last() =~= toks);
                    lemma_first_error_append(toks, seq![t]);
                    assert(seq![t].drop_first() =~= Seq::<Tok>::empty());
                    assert(tok_error(t) is None);
                    assert(seq![t][0] == t);
                    assert(first_error(Seq::<Tok>::empty()) is None);
                    assert(first_error(seq![t]) is None);
                    assert(toks.push(t) =~= toks + seq![t]);
                    toks = toks.push(t);
                }
                ds.push(d);
                i = j;
            },
            Ok(None) => {
                rest.push(s[i]);
                assert(before + (seq![s@[i as int]] + lex_from(s@, i + 1).1) =~= rest@
                    + lex_from(s@, i + 1).1);
                i += 1;
            },
        }
    }
    assert(toks + Seq::<Tok>::empty() =~= toks);
    assert(rest@ + Seq::<char>::empty() =~= rest@);
    Ok((ds, rest))
}

// ---------------------------------------------------------------- filter set

/// A half-open integer interval `[lower, upper)`.
#[derive(Clone, Copy, Debug, PartialEq, Eq, Structural)]
pub struct CountRange {
    pub lower: u64,
    pub upper: u64,
}

/// An interval of wilson values, in units of 10^-18, each bound inclusive or not.
#[derive(Clone, Copy, Debug, PartialEq, Eq, Structural)]
pub struct WilsonRange {
    pub lower: u64,
    pub lower_inclusive: bool,
    pub upper: u64,
    pub upper_inclusive: bool,
}

/// Everything a query string asks for.
#[derive(Debug)]
pub struct QueryFilterSet {
    pub authors: Vec<String>,
    pub required_tags: Vec<String>,
    pub excluded_tags: Vec<String>,
    pub any_tags: Vec<String>,
    pub words: Option<CountRange>,
    pub likes: Option<CountRange>,
    pub dislikes: Option<CountRange>,
    pub wilson: Option<WilsonRange>,
    pub ratings: Vec<Rating>,
    pub statuses: Vec<Status>,
    pub order: Order,
    /// The free text left once the directives are taken out, trimmed.
    pub text: String,
}

/// The mathematical content of a `QueryFilterSet`.
pub struct FilterView {
    pub authors: Seq<Seq<char>>,
    pub required_tags: Seq<Seq<char>>,
    pub excluded_tags: Seq<Seq<char>>,
    pub any_tags: Seq<Seq<char>>,
    pub words: Option<(int, int)>,
    pub likes: Option<(int, int)>,
    pub dislikes: Option<(int, int)>,
    pub wilson: Option<(int, bool, int, bool)>,
    pub ratings: Seq<Rating>,
    pub statuses: Seq<Status>,
    pub order: Order,
    pub text: Seq<char>,
}

pub open spec fn strings_view(v: Seq<String>) -> Seq<Seq<char>> {
    v.map_values(|s: String| s@)
}

pub open spec fn count_view(r: Option<CountRange>) -> Option<(int, int)> {
    match r {
        Some(c) => Some((c.lower as int, c.upper as int)),
        None => None,
    }
}

pub open spec fn wilson_view(r: Option<WilsonRange>) -> Option<(int, bool, int, bool)> {
    match r {
        Some(w) => Some((w.lower as int, w.lower_inclusive, w.upper as int, w.upper_inclusive)),
        None => None,
    }
}

impl View for QueryFilterSet {
    type V = FilterView;

    open spec fn view(&self) -> FilterView {
        FilterView {
            authors: strings_view(self.authors@),
            required_tags: strings_view(self.required_tags@),
            excluded_tags: strings_view(self.excluded_tags@),
            any_tags: strings_view(self.any_tags@),
            words: count_view(self.words),
            likes: count_view(self.likes),
            dislikes: count_view(self.dislikes),
            wilson: wilson_view(self.wilson),
            ratings: self.ratings@,
            statuses: self.statuses@,
            order: self.order,
            text: self.text@,
        }
    }
}

/// `x` meets the comparison `x op v`.
pub open spec fn satisfies(x: int, op: CmpOp, v: int) -> bool {
    match op {
        CmpOp::Ge => x >= v,
        CmpOp::Le => x <= v,
        CmpOp::Gt => x > v,
        CmpOp::Lt => x < v,
    }
}

/// A count interval narrowed by one more comparison.
pub open spec fn count_step(r: (int, int), op: CmpOp, v: int) -> (int, int) {
    match op {
        CmpOp::Ge => (if v > r.0 { v } else { r.0 }, r.1),
        CmpOp::Gt => (if v + 1 > r.0 { v + 1 } else { r.0 }, r.1),
        CmpOp::Le => (r.0, if v + 1 < r.1 { v + 1 } else { r.1 }),
        CmpOp::Lt => (r.0, if v < r.1 { v } else { r.1 }),
    }
}

/// A wilson interval narrowed by one more comparison: on equal values the
/// exclusive bound wins.
pub open spec fn wilson_step(w: (int, bool, int, bool), op: CmpOp, v: int) -> (int, bool, int, bool) {
    match op {
        CmpOp::Ge => if v > w.0 { (v, true, w.2, w.3) } else { w },
        CmpOp::Le => if v < w.2 { (w.0, w.1, v, true) } else { w },
        CmpOp::Gt => if v > w.0 || (v == w.0 && w.1) { (v, false, w.2, w.3) } else { w },
        CmpOp::Lt => if v < w.2 || (v == w.2 && w.3) { (w.0, w.1, v, false) } else { w },
    }
}

pub open spec fn count_init() -> (int, int) {
    (0, COUNT_MAX as int)
}

pub open spec fn wilson_init() -> (int, bool, int, bool) {
    (0, false, WILSON_ONE as int, false)
}

pub open spec fn narrow_count(r: Option<(int, int)>, op: CmpOp, v: int) -> Option<(int, int)> {
    Some(count_step(
        match r {
            Some(c) => c,
            None => count_init(),
        },
        op,
        v,
    ))
}

/// The filter set before any directive.
pub open spec fn filter_init() -> FilterView {
    FilterView {
        authors: seq![],
        required_tags: seq![],
        excluded_tags: seq![],
        any_tags: seq![],
        words: None,
        likes: None,
        dislikes: None,
        wilson: None,
        ratings: seq![],
        statuses: seq![],
        order: Order::Relevancy,
        text: seq![],
    }
}

/// What one directive adds to the filter set.
pub open spec fn filter_step(v: FilterView, t: Tok) -> FilterView {
    match t {
        Tok::Author(n) => FilterView { authors: v.authors.push(n), ..v },
        Tok::Tag(TagMode::Required, n) => FilterView { required_tags: v.required_tags.push(n), ..v },
        Tok::Tag(TagMode::Excluded, n) => FilterView { excluded_tags: v.excluded_tags.push(n), ..v },
        Tok::Tag(TagMode::AnyOf, n) => FilterView { any_tags: v.any_tags.push(n), ..v },
        Tok::Count(CountField::Words, op, ds) => FilterView {
            words: narrow_count(v.words, op, digits_value(ds) as int),
            ..v
        },
        Tok::Count(CountField::Likes, op, ds) => FilterView {
            likes: narrow_count(v.likes, op, digits_value(ds) as int),
            ..v
        },
        Tok::Count(CountField::Dislikes, op, ds) => FilterView {
            dislikes: narrow_count(v.dislikes, op, digits_value(ds) as int),
            ..v
        },
        Tok::Wilson(op, w, frac) => FilterView {
            wilson: Some(wilson_step(
                match v.wilson {
                    Some(x) => x,
                    None => wilson_init(),
                },
                op,
                wilson_units(w, frac) as int,
            )),
            ..v
        },
        Tok::Rating(r) => FilterView { ratings: v.ratings.push(r), ..v },
        Tok::Status(s) => FilterView { statuses: v.statuses.push(s), ..v },
        Tok::Order(o) => FilterView { order: o, ..v },
        Tok::Malformed(_) => v,
    }
}

/// The filter set that a sequence of directives builds, left to right.
pub open spec fn fold_filters(ts: Seq<Tok>) -> FilterView
    decreases ts.len(),
{
    if ts.len() == 0 {
        filter_init()
    } else {
        filter_step(fold_filters(ts.drop_last()), ts.last())
    }
}

/// The filter set that a query string compiles to.
pub open spec fn compiled(s: Seq<char>) -> FilterView {
    FilterView { text: trim(lex(s).1), ..fold_filters(lex(s).0) }
}

pub open spec fn count_ok(r: Option<CountRange>) -> bool {
    match r {
        Some(c) => c.lower <= COUNT_MAX + 1 && c.upper <= COUNT_MAX,
        None => true,
    }
}

fn narrow_count_exec(r: Option<CountRange>, op: CmpOp, v: u64) -> (n: Option<CountRange>)
    requires
        count_ok(r),
        v <= COUNT_MAX,
    ensures
        count_ok(n),
        count_view(n) == narrow_count(count_view(r), op, v as int),
{
    let c = match r {
        Some(c) => c,
        None => CountRange { lower: 0, upper: COUNT_MAX },
    };
    let n = match op {
        CmpOp::Ge => CountRange { lower: if v > c.lower { v } else { c.lower }, upper: c.upper },
        CmpOp::Gt => CountRange {
            lower: if v + 1 > c.lower { v + 1 } else { c.lower },
            upper: c.upper,
        },
        CmpOp::Le => CountRange {
            lower: c.lower,
            upper: if v + 1 < c.upper { v + 1 } else { c.upper },
        },
        CmpOp::Lt => CountRange { lower: c.lower, upper: if v < c.upper { v } else { c.upper } },
    };
    Some(n)
}

fn narrow_wilson_exec(r: Option<WilsonRange>, op: CmpOp, v: u64) -> (n: Option<WilsonRange>)
    ensures
        wilson_view(n) == Some(wilson_step(
            match wilson_view(r) {
                Some(x) => x,
                None => wilson_init(),
            },
            op,
            v as int,
        )),
{
    let w = match r {
        Some(w) => w,
        None => WilsonRange {
            lower: 0,
            lower_inclusive: false,
            upper: WILSON_ONE,
            upper_inclusive: false,
        },
    };
    let n = match op {
        CmpOp::Ge => if v > w.lower {
            WilsonRange { lower: v, lower_inclusive: true, ..w }
        } else {
            w
        },
        CmpOp::Le => if v < w.upper {
            WilsonRange { upper: v, upper_inclusive: true, ..w }
        } else {
            w
        },
        CmpOp::Gt => if v > w.lower || (v == w.lower && w.lower_inclusive) {
            WilsonRange { lower: v, lower_inclusive: false, ..w }
        } else {
            w
        },
        CmpOp::Lt => if v < w.upper || (v == w.upper && w.upper_inclusive) {
            WilsonRange { upper: v, upper_inclusive: false, ..w }
        } else {
            w
        },
    };
    Some(n)
}

pub(crate) proof fn lemma_strings_push(v: Seq<String>, s: String)
    ensures
        strings_view(v.push(s)) == strings_view(v).push(s@),
{
    assert(strings_view(v.push(s)) =~= strings_view(v).push(s@));
}

impl QueryFilterSet {
    pub open spec fn wf(&self) -> bool {
        count_ok(self.words) && count_ok(self.likes) && count_ok(self.dislikes)
    }

    fn empty() -> (r: QueryFilterSet)
        ensures
            r@ == filter_init(),
            r.wf(),
    {
        let r = QueryFilterSet {
            authors: Vec::new(),
            required_tags: Vec::new(),
            excluded_tags: Vec::new(),
            any_tags: Vec::new(),
            words: None,
            likes: None,
            dislikes: None,
            wilson: None,
            ratings: Vec::new(),
            statuses: Vec::new(),
            order: Order::Relevancy,
            text: String::new(),
        };
        assert(r@.authors =~= seq![]);
        assert(r@.required_tags =~= seq![]);
        assert(r@.excluded_tags =~= seq![]);
        assert(r@.any_tags =~= seq![]);
        assert(r@.ratings =~= seq![]);
        assert(r@.statuses =~= seq![]);
        assert(r@.text =~= seq![]);
        r
    }

    /// Adds one directive, whose grammar form is `t`.
    fn apply(&mut self, d: &Directive, Ghost(t): Ghost<Tok>)
        requires
            old(self).wf(),
            tok_matches(*d, t),
            tok_error(t) is None,
        ensures
            final(self).wf(),
            final(self)@ == filter_step(old(self)@, t),
    {
        match d {
            Directive::Author(n) => {
                proof { lemma_strings_push(self.authors@, *n); }
                self.authors.push(n.clone());
            },
            Directive::Tag(TagMode::Required, n) => {
                proof { lemma_strings_push(self.required_tags@, *n); }
                self.required_tags.push(n.clone());
            },
            Directive::Tag(TagMode::Excluded, n) => {
                proof { lemma_strings_push(self.excluded_tags@, *n); }
                self.excluded_tags.push(n.clone());
            },
            Directive::Tag(TagMode::AnyOf, n) => {
                proof { lemma_strings_push(self.any_tags@, *n); }
                self.any_tags.push(n.clone());
            },
            Directive::Count(CountField::Words, op, v) => {
                self.words = narrow_count_exec(self.words, *op, *v);
            },
            Directive::Count(CountField::Likes, op, v) => {
                self.likes = narrow_count_exec(self.likes, *op, *v);
            },
            Directive::Count(CountField::Dislikes, op, v) => {
                self.dislikes = narrow_count_exec(self.dislikes, *op, *v);
            },
            Directive::Wilson(op, v) => {
                self.wilson = narrow_wilson_exec(self.wilson, *op, *v);
            },
            Directive::Rating(r) => {
                self.ratings.push(*r);
            },
            Directive::Status(s) => {
                self.statuses.push(*s);
            },
            Directive::Order(o) => {
                self.order = *o;
            },
        }
        assert(self@ =~= filter_step(old(self)@, t));
    }
}

/// Compiles a query string: its directives, taken left to right, and the
/// trimmed free text left between them. Fails exactly when a directive's value
/// is malformed or out of range, with the error and position of the first such
/// directive.
pub fn compile_query(input: &str) -> (r: Result<QueryFilterSet, QueryError>)
    ensures
        match r {
            Ok(f) => lex_error(input@) is None && f@ == compiled(input@) && f.wf(),
            Err(e) => lex_error(input@) == Some(e),
        },
{
    let (ds, rest) = match tokenize(input) {
        Ok(x) => x,
        Err(e) => return Err(e),
    };
    let ghost toks = lex(input@).0;
    let mut f = QueryFilterSet::empty();
    let mut k: usize = 0;
    while k < ds.len()
        invariant
            k <= ds.len(),
            ds@.len() == toks.len(),
            forall|j: int| 0 <= j < ds@.len() ==> tok_matches(ds@[j], toks[j]),
            first_error(toks) is None,
            f.wf(),
            f@ == fold_filters(toks.take(k as int)),
        decreases ds.len() - k,
    {
        proof {
            assert(toks.take(k + 1).drop_last() =~= toks.take(k as int));
            assert(toks.take(k + 1).last() == toks[k as int]);
            lemma_first_error_none(toks, k as int);
        }
        f.apply(&ds[k], Ghost(toks[k as int]));
        k += 1;
    }
    assert(toks.take(ds.len() as int) =~= toks);
    f.text = trim_exec(rest.as_str());
    assert(f@ =~= compiled(input@));
    Ok(f)
}

proof fn lemma_first_error_none(ts: Seq<Tok>, k: int)
    requires
        first_error(ts) is None,
        0 <= k < ts.len(),
    ensures
        tok_error(ts[k]) is None,
    decreases k,
{
    if k > 0 {
        assert(ts.drop_first()[k - 1] == ts[k]);
        lemma_first_error_none(ts.drop_first(), k - 1);
    }
}

// ---------------------------------------------------------------- laws

/// The interval that the filter set holds for a count field.
pub open spec fn count_field(v: FilterView, f: CountField) -> Option<(int, int)> {
    match f {
        CountField::Words => v.words,
        CountField::Likes => v.likes,
        CountField::Dislikes => v.dislikes,
    }
}

/// `t` is no count directive on `f`, or `x` meets it.
pub open spec fn count_constraint(t: Tok, f: CountField, x: int) -> bool {
    match t {
        Tok::Count(g, op, ds) => g == f ==> satisfies(x, op, digits_value(ds) as int),
        _ => true,
    }
}

pub open spec fn is_count_on(t: Tok, f: CountField) -> bool {
    t matches Tok::Count(g, _, _) && g == f
}

/// `x` meets the wilson bounds `w`.
pub open spec fn wilson_admits(w: (int, bool, int, bool), x: int) -> bool {
    (x > w.0 || (w.1 && x == w.0)) && (x < w.2 || (w.3 && x == w.2))
}

pub open spec fn wilson_constraint(t: Tok, x: int) -> bool {
    match t {
        Tok::Wilson(op, w, frac) => satisfies(x, op, wilson_units(w, frac) as int),
        _ => true,
    }
}

/// Count directives intersect. The filter set holds an interval for a field
/// exactly when some directive names that field, and a value lies in that
/// interval exactly when it lies in `[0, COUNT_MAX)` and meets every directive
/// on the field.
pub proof fn lemma_count_range_is_intersection(ts: Seq<Tok>, f: CountField, x: int)
    ensures
        count_field(fold_filters(ts), f) is Some <==> exists|k: int|
            0 <= k < ts.len() && is_count_on(#[trigger] ts[k], f),
        count_field(fold_filters(ts), f) matches Some((lo, hi)) ==> (lo <= x < hi <==> (0 <= x
            < COUNT_MAX && forall|k: int|
            0 <= k < ts.len() ==> count_constraint(#[trigger] ts[k], f, x))),
    decreases ts.len(),
{
    if ts.len() > 0 {
        let p = ts.drop_last();
        lemma_count_range_is_intersection(p, f, x);
        assert forall|k: int| 0 <= k < p.len() implies #[trigger] p[k] == ts[k] by {}
        let prev = count_field(fold_filters(p), f);
        let last = ts.last();
        assert(ts[ts.len() - 1] == last);
        if is_count_on(last, f) {
            let r = match prev {
                Some(c) => c,
                None => count_init(),
            };
            if (forall|k: int| 0 <= k < ts.len() ==> count_constraint(#[trigger] ts[k], f, x)) {
                assert(count_constraint(ts[ts.len() - 1], f, x));
            }
            if (0 <= x < COUNT_MAX && forall|k: int|
                0 <= k < p.len() ==> count_constraint(#[trigger] p[k], f, x)) && count_constraint(
                last,
                f,
                x,
            ) {
                assert forall|k: int| 0 <= k < ts.len() implies count_constraint(
                    #[trigger] ts[k],
                    f,
                    x,
                ) by {
                    if k < p.len() {
                        assert(p[k] == ts[k]);
                    }
                }
            }
            if prev is None {
                assert forall|k: int| 0 <= k < p.len() implies count_constraint(
                    #[trigger] p[k],
                    f,
                    x,
                ) by {
                    assert(!is_count_on(p[k], f));
                }
            }
        } else {
            if exists|k: int| 0 <= k < ts.len() && is_count_on(#[trigger] ts[k], f) {
                let k = choose|k: int| 0 <= k < ts.len() && is_count_on(#[trigger] ts[k], f);
                assert(k < p.len());
                assert(p[k] == ts[k]);
            }
            if (forall|k: int| 0 <= k < p.len() ==> count_constraint(#[trigger] p[k], f, x)) {
                assert forall|k: int| 0 <= k < ts.len() implies count_constraint(
                    #[trigger] ts[k],
                    f,
                    x,
                ) by {
                    if k < p.len() {
                        assert(p[k] == ts[k]);
                    }
                }
            }
        }
    }
}

/// Wilson directives intersect. Once any is given, a value (in units of 10^-18)
/// meets the resulting bounds exactly when it lies strictly between 0 and 1 and
/// meets every wilson directive; on equal values the exclusive bound is kept.
pub proof fn lemma_wilson_range_is_intersection(ts: Seq<Tok>, x: int)
    ensures
        fold_filters(ts).wilson is Some <==> exists|k: int|
            0 <= k < ts.len() && #[trigger] ts[k] is Wilson,
        fold_filters(ts).wilson matches Some(w) ==> (wilson_admits(w, x) <==> (0 < x
            < WILSON_ONE && forall|k: int| 0 <= k < ts.len() ==> wilson_constraint(#[trigger] ts[k], x))),
    decreases ts.len(),
{
    if ts.len() > 0 {
        let p = ts.drop_last();
        lemma_wilson_range_is_intersection(p, x);
        assert forall|k: int| 0 <= k < p.len() implies #[trigger] p[k] == ts[k] by {}
        let prev = fold_filters(p).wilson;
        let last = ts.last();
        assert(ts[ts.len() - 1] == last);
        if last is Wilson {
            if (forall|k: int| 0 <= k < ts.len() ==> wilson_constraint(#[trigger] ts[k], x)) {
                assert(wilson_constraint(ts[ts.len() - 1], x));
            }
            if (0 < x < WILSON_ONE && forall|k: int|
                0 <= k < p.len() ==> wilson_constraint(#[trigger] p[k], x)) && wilson_constraint(
                last,
                x,
            ) {
                assert forall|k: int| 0 <= k < ts.len() implies wilson_constraint(
                    #[trigger] ts[k],
                    x,
                ) by {
                    if k < p.len() {
                        assert(p[k] == ts[k]);
                    }
                }
            }
            if prev is None {
                assert forall|k: int| 0 <= k < p.len() implies wilson_constraint(
                    #[trigger] p[k],
                    x,
                ) by {
                    assert(!(p[k] is Wilson));
                }
            }
        } else {
            if exists|k: int| 0 <= k < ts.len() && #[trigger] ts[k] is Wilson {
                let k = choose|k: int| 0 <= k < ts.len() && #[trigger] ts[k] is Wilson;
                assert(k < p.len());
                assert(p[k] == ts[k]);
            }
            if (forall|k: int| 0 <= k < p.len() ==> wilson_constraint(#[trigger] p[k], x)) {
                assert forall|k: int| 0 <= k < ts.len() implies wilson_constraint(
                    #[trigger] ts[k],
                    x,
                ) by {
                    if k < p.len() {
                        assert(p[k] == ts[k]);
                    }
                }
            }
        }
    }
}

// ---------------------------------------------------------------- clauses

/// A facet term of the index.
#[derive(Clone, Debug)]
pub enum Term {
    Author(String),
    Tag(String),
    Rating(Rating),
    Status(Status),
}

/// One conjunct of a compiled query; a document must match every one.
#[derive(Debug)]
pub enum Clause {
    Term(Term),
    /// At least one of the terms.
    AnyOf(Vec<Term>),
    /// The tag group: none of `excluded`, one of `any_of` if it is not empty,
    /// all of `required`.
    Tags { excluded: Vec<String>, any_of: Vec<String>, required: Vec<String> },
    /// The field's value lies in the half-open range.
    Count(CountField, CountRange),
    Wilson(WilsonRange),
    /// Free text in the index's own query grammar, over title and description.
    Text(String),
}

pub enum TermView {
    Author(Seq<char>),
    Tag(Seq<char>),
    Rating(Rating),
    Status(Status),
}

pub enum ClauseView {
    Term(TermView),
    AnyOf(Seq<TermView>),
    Tags(Seq<Seq<char>>, Seq<Seq<char>>, Seq<Seq<char>>),
    Count(CountField, int, int),
    Wilson(int, bool, int, bool),
    Text(Seq<char>),
}

impl View for Term {
    type V = TermView;

    open spec fn view(&self) -> TermView {
        match self {
            Term::Author(a) => TermView::Author(a@),
            Term::Tag(t) => TermView::Tag(t@),
            Term::Rating(r) => TermView::Rating(*r),
            Term::Status(s) => TermView::Status(*s),
        }
    }
}

impl View for Clause {
    type V = ClauseView;

    open spec fn view(&self) -> ClauseView {
        match self {
            Clause::Term(t) => ClauseView::Term(t@),
            Clause::AnyOf(ts) => ClauseView::AnyOf(ts@.map_values(|t: Term| t@)),
            Clause::Tags { excluded, any_of, required } => ClauseView::Tags(
                strings_view(excluded@),
                strings_view(any_of@),
                strings_view(required@),
            ),
            Clause::Count(f, r) => ClauseView::Count(*f, r.lower as int, r.upper as int),
            Clause::Wilson(w) => ClauseView::Wilson(
                w.lower as int,
                w.lower_inclusive,
                w.upper as int,
                w.upper_inclusive,
            ),
            Clause::Text(s) => ClauseView::Text(s@),
        }
    }
}

pub open spec fn author_clauses(f: FilterView) -> Seq<ClauseView> {
    if f.authors.len() == 0 {
        seq![]
    } else if f.authors.len() == 1 {
        seq![ClauseView::Term(TermView::Author(f.authors[0]))]
    } else {
        seq![ClauseView::AnyOf(f.authors.map_values(|a: Seq<char>| TermView::Author(a)))]
    }
}

pub open spec fn tag_clauses(f: FilterView) -> Seq<ClauseView> {
    if f.excluded_tags.len() == 0 && f.any_tags.len() == 0 && f.required_tags.len() == 0 {
        seq![]
    } else {
        seq![ClauseView::Tags(f.excluded_tags, f.any_tags, f.required_tags)]
    }
}

pub open spec fn count_clauses(r: Option<(int, int)>, field: CountField) -> Seq<ClauseView> {
    match r {
        Some((lo, hi)) => seq![ClauseView::Count(field, lo, hi)],
        None => seq![],
    }
}

pub open spec fn wilson_clauses(r: Option<(int, bool, int, bool)>) -> Seq<ClauseView> {
    match r {
        Some(w) => seq![ClauseView::Wilson(w.0, w.1, w.2, w.3)],
        None => seq![],
    }
}

pub open spec fn text_clauses(text: Seq<char>) -> Seq<ClauseView> {
    if text.len() == 0 {
        seq![]
    } else {
        seq![ClauseView::Text(text)]
    }
}

/// The clauses of a filter set: authors, tags, words, likes, dislikes, wilson,
/// ratings, statuses, then the free text.
pub open spec fn clauses_of(f: FilterView) -> Seq<ClauseView> {
    author_clauses(f) + tag_clauses(f) + count_clauses(f.words, CountField::Words)
        + count_clauses(f.likes, CountField::Likes) + count_clauses(
        f.dislikes,
        CountField::Dislikes,
    ) + wilson_clauses(f.wilson) + f.ratings.map_values(
        |r: Rating| ClauseView::Term(TermView::Rating(r)),
    ) + f.statuses.map_values(|s: Status| ClauseView::Term(TermView::Status(s))) + text_clauses(
        f.text,
    )
}

fn clone_strings(v: &Vec<String>) -> (r: Vec<String>)
    ensures
        r@ == v@,
{
    let mut r: Vec<String> = Vec::new();
    for k in 0..v.len()
        invariant
            r@ == v@.take(k as int),
    {
        r.push(v[k].clone());
        assert(r@ =~= v@.take(k + 1));
    }
    assert(v@.take(v.len() as int) =~= v@);
    r
}

fn push_all(out: &mut Vec<Clause>, more: Vec<Clause>)
    ensures
        final(out)@.map_values(|c: Clause| c@) == old(out)@.map_values(|c: Clause| c@)
            + more@.map_values(|c: Clause| c@),
{
    let ghost given = more@;
    let mut more = more;
    let ghost start = out@;
    out.append(&mut more);
    assert(out@.map_values(|c: Clause| c@) =~= start.map_values(|c: Clause| c@)
        + given.map_values(|c: Clause| c@));
}

/// Assembles a filter set into the conjunction of clauses that the index runs.
pub fn build_query(f: &QueryFilterSet) -> (r: Vec<Clause>)
    ensures
        r@.map_values(|c: Clause| c@) == clauses_of(f@),
{
    let mut r: Vec<Clause> = Vec::new();
    // authors
    let mut part: Vec<Clause> = Vec::new();
    if f.authors.len() == 1 {
        part.push(Clause::Term(Term::Author(f.authors[0].clone())));
    } else if f.authors.len() > 1 {
        let mut terms: Vec<Term> = Vec::new();
        for k in 0..f.authors.len()
            invariant
                terms@.len() == k,
                forall|j: int| 0 <= j < k ==> (#[trigger] terms@[j])@ == TermView::Author(f.authors@[j]@),
        {
            terms.push(Term::Author(f.authors[k].clone()));
        }
        assert(terms@.map_values(|t: Term| t@) =~= strings_view(f.authors@).map_values(
            |a: Seq<char>| TermView::Author(a),
        ));
        part.push(Clause::AnyOf(terms));
    }
    assert(part@.map_values(|c: Clause| c@) =~= author_clauses(f@));
    push_all(&mut r, part);
    // tags
    let mut part: Vec<Clause> = Vec::new();
    if f.excluded_tags.len() > 0 || f.any_tags.len() > 0 || f.required_tags.len() > 0 {
        part.push(
            Clause::Tags {
                excluded: clone_strings(&f.excluded_tags),
                any_of: clone_strings(&f.any_tags),
                required: clone_strings(&f.required_tags),
            },
        );
    }
    assert(part@.map_values(|c: Clause| c@) =~= tag_clauses(f@));
    push_all(&mut r, part);
    // ranges
    let mut part: Vec<Clause> = Vec::new();
    if let Some(w) = f.words {
        part.push(Clause::Count(CountField::Words, w));
    }
    assert(part@.map_values(|c: Clause| c@) =~= count_clauses(f@.words, CountField::Words));
    push_all(&mut r, part);
    let mut part: Vec<Clause> = Vec::new();
    if let Some(w) = f.likes {
        part.push(Clause::Count(CountField::Likes, w));
    }
    assert(part@.map_values(|c: Clause| c@) =~= count_clauses(f@.likes, CountField::Likes));
    push_all(&mut r, part);
    let mut part: Vec<Clause> = Vec::new();
    if let Some(w) = f.dislikes {
        part.push(Clause::Count(CountField::Dislikes, w));
    }
    assert(part@.map_values(|c: Clause| c@) =~= count_clauses(f@.dislikes, CountField::Dislikes));
    push_all(&mut r, part);
    let mut part: Vec<Clause> = Vec::new();
    if let Some(w) = f.wilson {
        part.push(Clause::Wilson(w));
    }
    assert(part@.map_values(|c: Clause| c@) =~= wilson_clauses(f@.wilson));
    push_all(&mut r, part);
    // facets
    let mut part: Vec<Clause> = Vec::new();
    for k in 0..f.ratings.len()
        invariant
            part@.len() == k,
            forall|j: int| 0 <= j < k ==> (#[trigger] part@[j])@ == ClauseView::Term(TermView::Rating(f.ratings@[j])),
    {
        part.push(Clause::Term(Term::Rating(f.ratings[k])));
    }
    assert(part@.map_values(|c: Clause| c@) =~= f.ratings@.map_values(
        |x: Rating| ClauseView::Term(TermView::Rating(x)),
    ));
    push_all(&mut r, part);
    let mut part: Vec<Clause> = Vec::new();
    for k in 0..f.statuses.len()
        invariant
            part@.len() == k,
            forall|j: int| 0 <= j < k ==> (#[trigger] part@[j])@ == ClauseView::Term(TermView::Status(f.statuses@[j])),
    {
        part.push(Clause::Term(Term::Status(f.statuses[k])));
    }
    assert(part@.map_values(|c: Clause| c@) =~= f.statuses@.map_values(
        |x: Status| ClauseView::Term(TermView::Status(x)),
    ));
    push_all(&mut r, part);
    // free text
    let mut part: Vec<Clause> = Vec::new();
    if !f.text.as_str().is_empty() {
        part.push(Clause::Text(f.text.clone()));
    }
    assert(part@.map_values(|c: Clause| c@) =~= text_clauses(f@.text));
    push_all(&mut r, part);
    r
}

// ---------------------------------------------------------------- semantics

/// The index's rule for a boolean query: it needs at least one `Must` or
/// `Should` clause; then every `Must` matches, no `MustNot` matches, and, when
/// there is no `Must`, some `Should` matches.
pub open spec fn bool_matches(musts: Seq<bool>, shoulds: Seq<bool>, must_nots: Seq<bool>) -> bool {
    &&& musts.len() > 0 || shoulds.len() > 0
    &&& forall|k: int| 0 <= k < musts.len() ==> musts[k]
    &&& forall|k: int| 0 <= k < must_nots.len() ==> !must_nots[k]
    &&& musts.len() > 0 || exists|k: int| 0 <= k < shoulds.len() && shoulds[k]
}

pub open spec fn rating_name(r: Rating) -> Seq<char> {
    match r {
        Rating::Everyone => kw_everyone(),
        Rating::Teen => kw_teen(),
        Rating::Mature => kw_mature(),
    }
}

pub open spec fn status_name(s: Status) -> Seq<char> {
    match s {
        Status::Incomplete => kw_incomplete(),
        Status::Complete => kw_complete(),
        Status::Hiatus => kw_hiatus(),
        Status::Cancelled => kw_cancelled(),
    }
}

pub open spec fn has_tag(d: SearchDocument, t: Seq<char>) -> bool {
    strings_view(d.tags@).contains(t)
}

pub open spec fn field_value(d: SearchDocument, f: CountField) -> int {
    match f {
        CountField::Words => d.words as int,
        CountField::Likes => d.likes as int,
        CountField::Dislikes => d.dislikes as int,
    }
}

pub open spec fn term_matches(t: TermView, d: SearchDocument) -> bool {
    match t {
        TermView::Author(a) => d.author@ == a,
        TermView::Tag(g) => has_tag(d, g),
        TermView::Rating(r) => d.rating@ == rating_name(r),
        TermView::Status(s) => d.status@ == status_name(s),
    }
}

pub open spec fn tags_present(d: SearchDocument, ts: Seq<Seq<char>>) -> Seq<bool> {
    ts.map_values(|t: Seq<char>| has_tag(d, t))
}

/// The group of `any_of` tags as one `Must` clause, when it is not empty.
pub open spec fn any_group(d: SearchDocument, any_of: Seq<Seq<char>>) -> Seq<bool> {
    if any_of.len() > 0 {
        seq![bool_matches(seq![], tags_present(d, any_of), seq![])]
    } else {
        seq![]
    }
}

/// `hits` holds the free-text queries that match `d` in the index's text grammar.
pub open spec fn clause_matches(c: ClauseView, d: SearchDocument, hits: Set<Seq<char>>) -> bool {
    match c {
        ClauseView::Term(t) => term_matches(t, d),
        ClauseView::AnyOf(ts) => bool_matches(
            seq![],
            ts.map_values(|t: TermView| term_matches(t, d)),
            seq![],
        ),
        ClauseView::Tags(excluded, any_of, required) => bool_matches(
            any_group(d, any_of) + tags_present(d, required),
            seq![],
            tags_present(d, excluded),
        ),
        ClauseView::Count(f, lo, hi) => lo <= field_value(d, f) < hi,
        ClauseView::Wilson(lo, lo_inc, hi, hi_inc) => wilson_admits(
            (lo, lo_inc, hi, hi_inc),
            d.wilson as int,
        ),
        ClauseView::Text(q) => hits.contains(q),
    }
}

/// A compiled query is the conjunction of its clauses, as `Must` clauses of one
/// boolean query: an empty one matches nothing.
pub open spec fn query_matches(cs: Seq<ClauseView>, d: SearchDocument, hits: Set<Seq<char>>) -> bool {
    bool_matches(cs.map_values(|c: ClauseView| clause_matches(c, d, hits)), seq![], seq![])
}

/// Tag directives compose. When some tag is required or offered as an
/// alternative, the tag clause matches a document exactly when the document has
/// every required tag, none of the excluded ones, and at least one of the
/// alternatives if there are any. Excluded tags alone match nothing.
pub proof fn lemma_tag_composition(f: FilterView, d: SearchDocument, hits: Set<Seq<char>>)
    ensures
        tag_clauses(f).len() > 0 <==> (f.required_tags.len() > 0 || f.any_tags.len() > 0
            || f.excluded_tags.len() > 0),
        (f.required_tags.len() > 0 || f.any_tags.len() > 0) ==> (clause_matches(
            tag_clauses(f)[0],
            d,
            hits,
        ) <==> ((forall|k: int|
            0 <= k < f.required_tags.len() ==> has_tag(d, #[trigger] f.required_tags[k]))
            && (forall|k: int|
            0 <= k < f.excluded_tags.len() ==> !has_tag(d, #[trigger] f.excluded_tags[k])) && (
        f.any_tags.len() == 0 || exists|k: int|
            0 <= k < f.any_tags.len() && has_tag(d, #[trigger] f.any_tags[k])))),
        (f.required_tags.len() == 0 && f.any_tags.len() == 0 && f.excluded_tags.len() > 0)
            ==> !clause_matches(tag_clauses(f)[0], d, hits),
{
    let req = f.required_tags;
    let ex = f.excluded_tags;
    let any = f.any_tags;
    let g = any_group(d, any);
    let musts = g + tags_present(d, req);
    if req.len() > 0 || any.len() > 0 || ex.len() > 0 {
        assert(tag_clauses(f)[0] == ClauseView::Tags(ex, any, req));
    }
    if req.len() > 0 || any.len() > 0 {
        assert(musts.len() > 0);
        if forall|k: int| 0 <= k < musts.len() ==> musts[k] {
            assert forall|k: int| 0 <= k < req.len() implies has_tag(d, #[trigger] req[k]) by {
                assert(musts[g.len() + k] == tags_present(d, req)[k]);
            }
            if any.len() > 0 {
                assert(musts[0] == g[0]);
                let j = choose|j: int| 0 <= j < any.len() && tags_present(d, any)[j];
                assert(has_tag(d, any[j]));
            }
        }
        if (forall|k: int| 0 <= k < req.len() ==> has_tag(d, #[trigger] req[k])) && (any.len()
            == 0 || exists|k: int| 0 <= k < any.len() && has_tag(d, #[trigger] any[k])) {
            if any.len() > 0 {
                let j = choose|j: int| 0 <= j < any.len() && has_tag(d, #[trigger] any[j]);
                assert(tags_present(d, any)[j]);
            }
            assert forall|k: int| 0 <= k < musts.len() implies musts[k] by {
                if k >= g.len() {
                    assert(musts[k] == tags_present(d, req)[k - g.len()]);
                }
            }
        }
        if forall|k: int| 0 <= k < ex.len() ==> !tags_present(d, ex)[k] {
            assert forall|k: int| 0 <= k < ex.len() implies !has_tag(d, #[trigger] ex[k]) by {
                assert(!tags_present(d, ex)[k]);
            }
        }
        if forall|k: int| 0 <= k < ex.len() ==> !has_tag(d, #[trigger] ex[k]) {
            assert forall|k: int| 0 <= k < ex.len() implies !tags_present(d, ex)[k] by {
                assert(!has_tag(d, ex[k]));
            }
        }
    }
}

fn equals_word(s: &String, w: &[char]) -> (r: bool)
    ensures
        r == (s@ == w@),
{
    let cs = chars_of(s.as_str());
    let r = cs.len() == w.len() && has_at_exec(&cs, 0, w);
    assert(cs@.subrange(0, cs@.len() as int) =~= cs@);
    assert(s@.len() != w@.len() ==> s@ != w@);
    r
}

fn has_tag_exec(d: &SearchDocument, t: &String) -> (r: bool)
    ensures
        r == has_tag(*d, t@),
{
    let mut k: usize = 0;
    while k < d.tags.len()
        invariant
            k <= d.tags.len(),
            forall|j: int| 0 <= j < k ==> d.tags@[j]@ != t@,
        decreases d.tags.len() - k,
    {
        if d.tags[k] == *t {
            assert(strings_view(d.tags@)[k as int] == t@);
            return true;
        }
        k += 1;
    }
    proof {
        if strings_view(d.tags@).contains(t@) {
            let j = choose|j: int| 0 <= j < d.tags@.len() && strings_view(d.tags@)[j] == t@;
            assert(d.tags@[j]@ == t@);
        }
    }
    false
}

fn term_exec(t: &Term, d: &SearchDocument) -> (r: bool)
    ensures
        r == term_matches(t@, *d),
{
    match t {
        Term::Author(a) => d.author == *a,
        Term::Tag(g) => has_tag_exec(d, g),
        Term::Rating(Rating::Everyone) => equals_word(&d.rating, &['e', 'v', 'e', 'r', 'y', 'o', 'n', 'e']),
        Term::Rating(Rating::Teen) => equals_word(&d.rating, &['t', 'e', 'e', 'n']),
        Term::Rating(Rating::Mature) => equals_word(&d.rating, &['m', 'a', 't', 'u', 'r', 'e']),
        Term::Status(Status::Incomplete) => equals_word(
            &d.status,
            &['i', 'n', 'c', 'o', 'm', 'p', 'l', 'e', 't', 'e'],
        ),
        Term::Status(Status::Complete) => equals_word(&d.status, &['c', 'o', 'm', 'p', 'l', 'e', 't', 'e']),
        Term::Status(Status::Hiatus) => equals_word(&d.status, &['h', 'i', 'a', 't', 'u', 's']),
        Term::Status(Status::Cancelled) => equals_word(
            &d.status,
            &['c', 'a', 'n', 'c', 'e', 'l', 'l', 'e', 'd'],
        ),
    }
}

/// Whether some tag of `ts` is on `d`, and whether all are.
fn tags_exec(d: &SearchDocument, ts: &Vec<String>) -> (r: (bool, bool))
    ensures
        r.0 == exists|k: int| 0 <= k < ts@.len() && tags_present(*d, strings_view(ts@))[k],
        r.1 == forall|k: int| 0 <= k < ts@.len() ==> tags_present(*d, strings_view(ts@))[k],
{
    let ghost p = tags_present(*d, strings_view(ts@));
    let mut some = false;
    let mut all = true;
    for k in 0..ts.len()
        invariant
            p == tags_present(*d, strings_view(ts@)),
            some == exists|j: int| 0 <= j < k && p[j],
            all == forall|j: int| 0 <= j < k ==> p[j],
    {
        let h = has_tag_exec(d, &ts[k]);
        assert(p[k as int] == h);
        some = some || h;
        all = all && h;
    }
    (some, all)
}

fn clause_exec(c: &Clause, d: &SearchDocument, hits: &Vec<String>) -> (r: bool)
    ensures
        r == clause_matches(c@, *d, strings_view(hits@).to_set()),
{
    match c {
        Clause::Term(t) => term_exec(t, d),
        Clause::AnyOf(ts) => {
            let ghost p = ts@.map_values(|t: Term| t@).map_values(|t: TermView| term_matches(t, *d));
            let mut some = false;
            for k in 0..ts.len()
                invariant
                    p == ts@.map_values(|t: Term| t@).map_values(|t: TermView| term_matches(t, *d)),
                    some == exists|j: int| 0 <= j < k && p[j],
            {
                let h = term_exec(&ts[k], d);
                assert(p[k as int] == h);
                some = some || h;
            }
            ts.len() > 0 && some
        },
        Clause::Tags { excluded, any_of, required } => {
            let (ex_some, _) = tags_exec(d, excluded);
            let (any_some, _) = tags_exec(d, any_of);
            let (_, req_all) = tags_exec(d, required);
            let r = (required.len() > 0 || any_of.len() > 0) && req_all && !ex_some && (any_of.len()
                == 0 || any_some);
            proof {
                let g = any_group(*d, strings_view(any_of@));
                let rq = tags_present(*d, strings_view(required@));
                let musts = g + rq;
                if forall|k: int| 0 <= k < musts.len() ==> musts[k] {
                    assert forall|k: int| 0 <= k < rq.len() implies rq[k] by {
                        assert(musts[g.len() + k] == rq[k]);
                    }
                    if any_of.len() > 0 {
                        assert(musts[0] == g[0]);
                    }
                }
                if req_all && (any_of.len() == 0 || any_some) {
                    assert forall|k: int| 0 <= k < musts.len() implies musts[k] by {
                        if k >= g.len() {
                            assert(musts[k] == rq[k - g.len()]);
                        }
                    }
                }
            }
            r
        },
        Clause::Count(f, range) => {
            let v = match f {
                CountField::Words => d.words,
                CountField::Likes => d.likes,
                CountField::Dislikes => d.dislikes,
            };
            v >= 0 && range.lower <= v as u64 && (v as u64) < range.upper
        },
        Clause::Wilson(w) => (d.wilson > w.lower || (w.lower_inclusive && d.wilson == w.lower)) && (
        d.wilson < w.upper || (w.upper_inclusive && d.wilson == w.upper)),
        Clause::Text(q) => {
            let mut found = false;
            for k in 0..hits.len()
                invariant
                    found == exists|j: int| 0 <= j < k && hits@[j]@ == q@,
            {
                found = found || hits[k] == *q;
            }
            proof {
                if strings_view(hits@).to_set().contains(q@) {
                    let j = choose|j: int| 0 <= j < hits@.len() && strings_view(hits@)[j] == q@;
                    assert(hits@[j]@ == q@);
                }
                if found {
                    let j = choose|j: int| 0 <= j < hits@.len() && hits@[j]@ == q@;
                    assert(strings_view(hits@)[j] == q@);
                }
            }
            found
        },
    }
}

/// Whether a document matches a compiled query, where `text_hits` holds the
/// free-text queries that match the document in the index's text grammar.
pub fn document_matches(clauses: &Vec<Clause>, doc: &SearchDocument, text_hits: &Vec<String>) -> (r: bool)
    ensures
        r == query_matches(clauses@.map_values(|c: Clause| c@), *doc, strings_view(text_hits@).to_set()),
{
    let ghost hits = strings_view(text_hits@).to_set();
    let ghost p = clauses@.map_values(|c: Clause| c@).map_values(
        |c: ClauseView| clause_matches(c, *doc, hits),
    );
    let mut all = true;
    for k in 0..clauses.len()
        invariant
            hits == strings_view(text_hits@).to_set(),
            p == clauses@.map_values(|c: Clause| c@).map_values(
                |c: ClauseView| clause_matches(c, *doc, hits),
            ),
            all == forall|j: int| 0 <= j < k ==> p[j],
    {
        let h = clause_exec(&clauses[k], doc, text_hits);
        assert(p[k as int] == h);
        all = all && h;
    }
    clauses.len() > 0 && all
}

} // verus!
