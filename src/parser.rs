//! The inbound quote record: nine `|`-separated fields
//! `lp | pair | p1b | p1a | p3b | p3a | p5b | p5a | ts`, each trimmed of
//! whitespace, prices written as decimals with at most four fractional digits.
use crate::model::QuoteModel;
use vstd::prelude::*;

verus! {

/// Why a record was refused.
#[derive(Clone, Copy, Debug, PartialEq, Eq, Structural)]
#[non_exhaustive]
pub enum AppError {
    /// Fewer fields than the record needs.
    NumParams,
    /// A required text field is empty after trimming.
    IsEmpty,
    /// A price is not a decimal of whole pips.
    ParseFloat,
    /// The timestamp is not a base-10 `u64`.
    ParseInt,
    /// Writing a log failed.
    Io,
}

/// A parsed quote: provider, pair, the six prices in pips and the source
/// timestamp in nanoseconds.
#[derive(Debug)]
pub struct Quote {
    pub lp: String,
    pub pair: String,
    pub one_mill_buy: u64,
    pub one_mill_sell: u64,
    pub three_mill_buy: u64,
    pub three_mill_sell: u64,
    pub five_mill_buy: u64,
    pub five_mill_sell: u64,
    pub timestamp: u64,
}

impl View for Quote {
    type V = QuoteModel;

    open spec fn view(&self) -> QuoteModel {
        QuoteModel {
            lp: self.lp@,
            pair: self.pair@,
            one_mill_buy: self.one_mill_buy,
            one_mill_sell: self.one_mill_sell,
            three_mill_buy: self.three_mill_buy,
            three_mill_sell: self.three_mill_sell,
            five_mill_buy: self.five_mill_buy,
            five_mill_sell: self.five_mill_sell,
            ts: self.timestamp,
        }
    }
}

/// Pips in one unit of price.
pub const PIPS_PER_UNIT: u64 = 10000;

/// The characters with Unicode's White_Space property.
pub open spec fn is_ws(c: char) -> bool {
    let u = c as u32;
    (0x9 <= u <= 0xd) || u == 0x20 || u == 0x85 || u == 0xa0 || u == 0x1680 || (0x2000 <= u
        <= 0x200a) || u == 0x2028 || u == 0x2029 || u == 0x202f || u == 0x205f || u == 0x3000
}

pub open spec fn trim_start(s: Seq<char>) -> Seq<char>
    decreases s.len(),
{
    if s.len() > 0 && is_ws(s[0]) {
        trim_start(s.drop_first())
    } else {
        s
    }
}

pub open spec fn trim_end(s: Seq<char>) -> Seq<char>
    decreases s.len(),
{
    if s.len() > 0 && is_ws(s.last()) {
        trim_end(s.drop_last())
    } else {
        s
    }
}

/// `s` without leading and trailing whitespace.
pub open spec fn trim(s: Seq<char>) -> Seq<char> {
    trim_end(trim_start(s))
}

/// The pieces of `s` between `|` separators; an empty text is one empty
/// field.
pub open spec fn split_fields(s: Seq<char>) -> Seq<Seq<char>>
    decreases s.len(),
{
    if s.len() == 0 {
        seq![Seq::<char>::empty()]
    } else {
        let f = split_fields(s.drop_last());
        if s.last() == '|' {
            f.push(Seq::<char>::empty())
        } else {
            f.update(f.len() - 1, f.last().push(s.last()))
        }
    }
}

pub open spec fn is_digit(c: char) -> bool {
    '0' <= c <= '9'
}

pub open spec fn all_digits(s: Seq<char>) -> bool {
    forall|i: int| 0 <= i < s.len() ==> is_digit(#[trigger] s[i])
}

/// The number that a string of decimal digits writes.
pub open spec fn digits_value(s: Seq<char>) -> nat
    decreases s.len(),
{
    if s.len() == 0 {
        0
    } else {
        digits_value(s.drop_last()) * 10 + ((s.last() as u32) - ('0' as u32)) as nat
    }
}

/// `s` without one leading `+`.
pub open spec fn unsigned_part(s: Seq<char>) -> Seq<char> {
    if s.len() > 0 && s[0] == '+' {
        s.drop_first()
    } else {
        s
    }
}

/// The `u64` that `s` writes in base 10, with an optional leading `+`.
pub open spec fn u64_of(s: Seq<char>) -> Option<u64> {
    let t = unsigned_part(s);
    if t.len() > 0 && all_digits(t) && digits_value(t) <= u64::MAX {
        Some(digits_value(t) as u64)
    } else {
        None
    }
}

/// The index of the first `.` in `s`, or its length.
pub open spec fn dot_index(s: Seq<char>) -> int
    decreases s.len(),
{
    if s.len() == 0 {
        0
    } else {
        let k = dot_index(s.drop_last());
        if k < s.len() - 1 {
            k
        } else if s.last() == '.' {
            s.len() - 1
        } else {
            s.len() as int
        }
    }
}

pub open spec fn pow10(k: nat) -> nat
    decreases k,
{
    if k == 0 {
        1
    } else {
        10 * pow10((k - 1) as nat)
    }
}

/// The price, in pips, that `s` writes: an optional `+`, digits, and
/// optionally `.` followed by at most four digits, with at least one digit in
/// all.
pub open spec fn pips_of(s: Seq<char>) -> Option<u64> {
    let t = unsigned_part(s);
    let d = dot_index(t);
    let whole = t.take(d);
    let frac = if d < t.len() {
        t.skip(d + 1)
    } else {
        Seq::<char>::empty()
    };
    let v = digits_value(whole) * PIPS_PER_UNIT + digits_value(frac) * pow10((4 - frac.len()) as nat);
    if all_digits(whole) && all_digits(frac) && frac.len() <= 4 && whole.len() + frac.len() > 0
        && v <= u64::MAX {
        Some(v as u64)
    } else {
        None
    }
}

/// What the record `s` parses to: the first failing check gives the error.
pub open spec fn record_of(s: Seq<char>) -> Result<QuoteModel, AppError> {
    let f = split_fields(s);
    if f.len() < 9 {
        Err(AppError::NumParams)
    } else if trim(f[0]).len() == 0 || trim(f[1]).len() == 0 {
        Err(AppError::IsEmpty)
    } else if pips_of(trim(f[2])) is None || pips_of(trim(f[3])) is None || pips_of(
        trim(f[4]),
    ) is None || pips_of(trim(f[5])) is None || pips_of(trim(f[6])) is None || pips_of(
        trim(f[7]),
    ) is None {
        Err(AppError::ParseFloat)
    } else if u64_of(trim(f[8])) is None {
        Err(AppError::ParseInt)
    } else {
        Ok(
            QuoteModel {
                lp: trim(f[0]),
                pair: trim(f[1]),
                one_mill_buy: pips_of(trim(f[2]))->Some_0,
                one_mill_sell: pips_of(trim(f[3]))->Some_0,
                three_mill_buy: pips_of(trim(f[4]))->Some_0,
                three_mill_sell: pips_of(trim(f[5]))->Some_0,
                five_mill_buy: pips_of(trim(f[6]))->Some_0,
                five_mill_sell: pips_of(trim(f[7]))->Some_0,
                ts: u64_of(trim(f[8]))->Some_0,
            },
        )
    }
}

/// Relies on `str::chars`: the characters of the string, in order.
#[verifier::external_body]
fn chars_of(s: &str) -> (r: Vec<char>)
    ensures
        r@ == s@,
{
    s.chars().collect()
}

/// Relies on `String`'s `FromIterator<&char>`: the string holds the
/// characters, in order.
#[verifier::external_body]
fn string_of(cs: &[char]) -> (r: String)
    ensures
        r@ == cs@,
{
    cs.iter().collect()
}

pub open spec fn strings_view(v: Seq<String>) -> Seq<Seq<char>> {
    v.map_values(|x: String| x@)
}

fn is_whitespace(c: char) -> (r: bool)
    ensures
        r == is_ws(c),
{
    let u = c as u32;
    (0x9 <= u && u <= 0xd) || u == 0x20 || u == 0x85 || u == 0xa0 || u == 0x1680 || (0x2000 <= u
        && u <= 0x200a) || u == 0x2028 || u == 0x2029 || u == 0x202f || u == 0x205f || u == 0x3000
}

/// The characters of `cs` without leading and trailing whitespace.
fn trim_chars(cs: &Vec<char>) -> (r: Vec<char>)
    ensures
        r@ == trim(cs@),
{
    let ghost s = cs@;
    let n = cs.len();
    let mut a: usize = 0;
    assert(s.skip(0) =~= s);
    while a < n && is_whitespace(cs[a])
        invariant
            0 <= a <= n,
            n == s.len(),
            s == cs@,
            trim_start(s) == trim_start(s.skip(a as int)),
        decreases n - a,
    {
        assert(s.skip(a as int).drop_first() =~= s.skip(a + 1));
        a += 1;
    }
    let ghost t = s.skip(a as int);
    let mut b: usize = n;
    assert(s.subrange(a as int, n as int) =~= t);
    while b > a && is_whitespace(cs[b - 1])
        invariant
            a <= b <= n,
            n == s.len(),
            s == cs@,
            trim_end(t) == trim_end(s.subrange(a as int, b as int)),
        decreases b,
    {
        assert(s.subrange(a as int, b as int).drop_last() =~= s.subrange(a as int, b - 1));
        b -= 1;
    }
    let mut r: Vec<char> = Vec::new();
    let mut k: usize = a;
    while k < b
        invariant
            a <= k <= b <= n,
            n == s.len(),
            s == cs@,
            r@ == s.subrange(a as int, k as int),
        decreases b - k,
    {
        r.push(cs[k]);
        assert(r@ =~= s.subrange(a as int, k + 1));
        k += 1;
    }
    r
}

/// Splits a record into its `|`-separated fields; fails with `NumParams` when
/// there are fewer than `number` of them.
pub fn get_params(data: &str, number: usize) -> (r: Result<Vec<String>, AppError>)
    ensures
        split_fields(data@).len() < number ==> r == Err::<Vec<String>, AppError>(
            AppError::NumParams,
        ),
        split_fields(data@).len() >= number ==> (r matches Ok(v) && strings_view(v@)
            == split_fields(data@)),
{
    let cs = chars_of(data);
    let ghost s = cs@;
    let mut fields: Vec<String> = Vec::new();
    let mut cur: Vec<char> = Vec::new();
    let mut i: usize = 0;
    assert(s.take(0) =~= Seq::<char>::empty());
    assert(strings_view(fields@).push(cur@) =~= split_fields(s.take(0)));
    while i < cs.len()
        invariant
            0 <= i <= cs.len(),
            s == cs@,
            strings_view(fields@).push(cur@) == split_fields(s.take(i as int)),
        decreases cs.len() - i,
    {
        let ghost before = strings_view(fields@);
        assert(s.take(i + 1).drop_last() =~= s.take(i as int));
        assert(s.take(i + 1).last() == s[i as int]);
        if cs[i] == '|' {
            let f = string_of(cur.as_slice());
            fields.push(f);
            cur = Vec::new();
            assert(strings_view(fields@) =~= before.push(f@));
            assert(strings_view(fields@).push(cur@) =~= split_fields(s.take(i + 1)));
        } else {
            let ghost old_cur = cur@;
            cur.push(cs[i]);
            assert(strings_view(fields@).push(cur@) =~= before.push(old_cur).update(
                before.len() as int,
                old_cur.push(s[i as int]),
            ));
            assert(strings_view(fields@).push(cur@) =~= split_fields(s.take(i + 1)));
        }
        i += 1;
    }
    let ghost before = strings_view(fields@);
    let f = string_of(cur.as_slice());
    fields.push(f);
    assert(strings_view(fields@) =~= before.push(f@));
    assert(s.take(i as int) =~= s);
    if fields.len() < number {
        Err(AppError::NumParams)
    } else {
        Ok(fields)
    }
}

/// A required text field, trimmed: `IsEmpty` when it is missing or only
/// whitespace.
pub fn get_str_field(field: Option<&str>) -> (r: Result<String, AppError>)
    ensures
        ({
            let s = match field {
                Some(f) => f@,
                None => Seq::<char>::empty(),
            };
            if trim(s).len() == 0 {
                r == Err::<String, AppError>(AppError::IsEmpty)
            } else {
                (r matches Ok(v) && v@ == trim(s))
            }
        }),
{
    let cs = match field {
        Some(f) => chars_of(f),
        None => Vec::new(),
    };
    let t = trim_chars(&cs);
    if t.len() == 0 {
        Err(AppError::IsEmpty)
    } else {
        Ok(string_of(t.as_slice()))
    }
}

proof fn lemma_digits_prefix_le(s: Seq<char>, k: int)
    requires
        0 <= k <= s.len(),
    ensures
        digits_value(s.take(k)) <= digits_value(s),
    decreases s.len(),
{
    if k < s.len() {
        lemma_digits_prefix_le(s.drop_last(), k);
        assert(s.drop_last().take(k) =~= s.take(k));
    } else {
        assert(s.take(k) =~= s);
    }
}

/// The value of the digits `cs[from..to]`, when they are all digits and it
/// fits in a `u64`.
fn digits_in(cs: &Vec<char>, from: usize, to: usize) -> (r: Option<u64>)
    requires
        from <= to <= cs.len(),
    ensures
        ({
            let sub = cs@.subrange(from as int, to as int);
            if all_digits(sub) && digits_value(sub) <= u64::MAX {
                r == Some(digits_value(sub) as u64)
            } else {
                r is None
            }
        }),
{
    let ghost sub = cs@.subrange(from as int, to as int);
    let mut v: u64 = 0;
    let mut k: usize = from;
    assert(sub.take(0) =~= Seq::<char>::empty());
    while k < to
        invariant
            from <= k <= to <= cs.len(),
            sub == cs@.subrange(from as int, to as int),
            all_digits(sub.take(k - from)),
            v == digits_value(sub.take(k - from)),
        decreases to - k,
    {
        let c = cs[k];
        assert(sub[k - from] == c);
        if !('0' <= c && c <= '9') {
            assert(!is_digit(sub[k - from]));
            return None;
        }
        let d = (c as u32 - '0' as u32) as u64;
        assert(sub.take(k - from + 1).drop_last() =~= sub.take(k - from));
        assert(sub.take(k - from + 1).last() == c);
        match v.checked_mul(10) {
            Some(x) => match x.checked_add(d) {
                Some(y) => {
                    v = y;
                },
                None => {
                    proof {
                        if all_digits(sub) {
                            lemma_digits_prefix_le(sub, k - from + 1);
                        }
                    }
                    return None;
                },
            },
            None => {
                proof {
                    if all_digits(sub) {
                        lemma_digits_prefix_le(sub, k - from + 1);
                    }
                }
                return None;
            },
        }
        k += 1;
        assert forall|i: int| 0 <= i < k - from implies is_digit(#[trigger] sub.take(k - from)[i]) by {
            if i < k - from - 1 {
                assert(sub.take(k - from - 1)[i] == sub.take(k - from)[i]);
            }
        }
    }
    assert(sub.take(to - from) =~= sub);
    Some(v)
}

/// The `u64` written in `cs`, with an optional leading `+`.
fn u64_in(cs: &Vec<char>) -> (r: Option<u64>)
    ensures
        r == u64_of(cs@),
{
    let st: usize = if cs.len() > 0 && cs[0] == '+' {
        1
    } else {
        0
    };
    assert(unsigned_part(cs@) =~= cs@.subrange(st as int, cs.len() as int));
    if st == cs.len() {
        return None;
    }
    digits_in(cs, st, cs.len())
}

proof fn lemma_dot_index(s: Seq<char>)
    ensures
        0 <= dot_index(s) <= s.len(),
        forall|j: int| 0 <= j < dot_index(s) ==> s[j] != '.',
        dot_index(s) < s.len() ==> s[dot_index(s)] == '.',
    decreases s.len(),
{
    if s.len() > 0 {
        lemma_dot_index(s.drop_last());
        assert forall|j: int| 0 <= j < s.len() - 1 implies s.drop_last()[j] == #[trigger] s[j] by {}
    }
}

proof fn lemma_digits_bound(s: Seq<char>)
    requires
        all_digits(s),
    ensures
        digits_value(s) < pow10(s.len()),
    decreases s.len(),
{
    if s.len() > 0 {
        assert(all_digits(s.drop_last())) by {
            assert forall|i: int| 0 <= i < s.len() - 1 implies is_digit(
                #[trigger] s.drop_last()[i],
            ) by {
                assert(s.drop_last()[i] == s[i]);
            }
        }
        lemma_digits_bound(s.drop_last());
        assert(is_digit(s[s.len() - 1]));
        let a = digits_value(s.drop_last());
        let p = pow10((s.len() - 1) as nat);
        let d = ((s.last() as u32) - ('0' as u32)) as nat;
        assert(d <= 9);
        assert(a * 10 + d < p * 10) by (nonlinear_arith)
            requires
                a < p,
                d <= 9,
        ;
    }
}

/// The price in pips written in `cs`.
fn pips_in(cs: &Vec<char>) -> (r: Option<u64>)
    ensures
        r == pips_of(cs@),
{
    let n = cs.len();
    let st: usize = if n > 0 && cs[0] == '+' {
        1
    } else {
        0
    };
    let ghost t = cs@.subrange(st as int, n as int);
    assert(unsigned_part(cs@) =~= t);
    proof {
        lemma_dot_index(t);
    }
    let mut j: usize = st;
    while j < n && cs[j] != '.'
        invariant
            st <= j <= n,
            n == cs.len(),
            t == cs@.subrange(st as int, n as int),
            forall|i: int| 0 <= i < j - st ==> #[trigger] t[i] != '.',
        decreases n - j,
    {
        assert(t[j - st] == cs[j as int]);
        j += 1;
    }
    let ghost d = dot_index(t);
    assert(d == j - st) by {
        if d < j - st {
            assert(t[d] != '.');
        } else if j - st < d {
            assert(t[j - st] == cs[j as int]);
        }
    }
    assert(t.take(d) =~= cs@.subrange(st as int, j as int));
    let frac_from: usize = if j < n {
        j + 1
    } else {
        n
    };
    let ghost frac = if d < t.len() {
        t.skip(d + 1)
    } else {
        Seq::<char>::empty()
    };
    assert(frac =~= cs@.subrange(frac_from as int, n as int));
    let flen = n - frac_from;
    let wlen = j - st;
    if flen > 4 || wlen + flen == 0 {
        return None;
    }
    let w = digits_in(cs, st, j);
    let f = digits_in(cs, frac_from, n);
    let scale: u64 = if flen == 0 {
        10000
    } else if flen == 1 {
        1000
    } else if flen == 2 {
        100
    } else if flen == 3 {
        10
    } else {
        1
    };
    assert(pow10(0) == 1);
    assert(pow10(1) == 10);
    assert(pow10(2) == 100);
    assert(pow10(3) == 1000);
    assert(pow10(4) == 10000);
    assert(scale == pow10((4 - flen) as nat));
    match (w, f) {
        (Some(wv), Some(fv)) => {
            proof {
                lemma_digits_bound(frac);
            }
            let ghost v = digits_value(t.take(d)) * PIPS_PER_UNIT + digits_value(frac) * pow10(
                (4 - frac.len()) as nat,
            );
            match wv.checked_mul(PIPS_PER_UNIT) {
                Some(x) => match fv.checked_mul(scale) {
                    Some(y) => match x.checked_add(y) {
                        Some(z) => Some(z),
                        None => None,
                    },
                    None => {
                        assert(v >= digits_value(frac) * pow10((4 - frac.len()) as nat));
                        None
                    },
                },
                None => {
                    assert(digits_value(frac) * pow10((4 - frac.len()) as nat) >= 0)
                        by (nonlinear_arith);
                    None
                },
            }
        },
        _ => {
            proof {
                if all_digits(t.take(d)) && all_digits(frac) {
                    if digits_value(t.take(d)) > u64::MAX {
                        assert(digits_value(frac) * pow10((4 - frac.len()) as nat) >= 0)
                            by (nonlinear_arith);
                        assert(digits_value(t.take(d)) * 10000 >= digits_value(t.take(d)))
                            by (nonlinear_arith);
                    } else {
                        lemma_digits_bound(frac);
                    }
                }
            }
            None
        },
    }
}

/// A price field: its trimmed text read as pips, or `ParseFloat`.
fn price_field(field: &String) -> (r: Result<u64, AppError>)
    ensures
        r == match pips_of(trim(field@)) {
            Some(v) => Ok::<u64, AppError>(v),
            None => Err(AppError::ParseFloat),
        },
{
    let cs = chars_of(field.as_str());
    let t = trim_chars(&cs);
    match pips_in(&t) {
        Some(v) => Ok(v),
        None => Err(AppError::ParseFloat),
    }
}

/// Parses a record `lp | pair | p1b | p1a | p3b | p3a | p5b | p5a | ts`.
/// Fields past the ninth are ignored.
pub fn parse_quote(record: &str) -> (r: Result<Quote, AppError>)
    ensures
        match record_of(record@) {
            Ok(m) => r matches Ok(q) && q@ == m,
            Err(e) => r matches Err(x) && x == e,
        },
{
    let fields = match get_params(record, 9) {
        Ok(f) => f,
        Err(e) => {
            return Err(e);
        },
    };
    let ghost f = split_fields(record@);
    assert(fields@[0]@ == f[0] && fields@[1]@ == f[1] && fields@[2]@ == f[2]);
    assert(fields@[3]@ == f[3] && fields@[4]@ == f[4] && fields@[5]@ == f[5]);
    assert(fields@[6]@ == f[6] && fields@[7]@ == f[7] && fields@[8]@ == f[8]);
    let lp = match get_str_field(Some(fields[0].as_str())) {
        Ok(v) => v,
        Err(e) => {
            return Err(e);
        },
    };
    let pair = match get_str_field(Some(fields[1].as_str())) {
        Ok(v) => v,
        Err(e) => {
            return Err(e);
        },
    };
    let p1b = match price_field(&fields[2]) {
        Ok(v) => v,
        Err(e) => {
            return Err(e);
        },
    };
    let p1a = match price_field(&fields[3]) {
        Ok(v) => v,
        Err(e) => {
            return Err(e);
        },
    };
    let p3b = match price_field(&fields[4]) {
        Ok(v) => v,
        Err(e) => {
            return Err(e);
        },
    };
    let p3a = match price_field(&fields[5]) {
        Ok(v) => v,
        Err(e) => {
            return Err(e);
        },
    };
    let p5b = match price_field(&fields[6]) {
        Ok(v) => v,
        Err(e) => {
            return Err(e);
        },
    };
    let p5a = match price_field(&fields[7]) {
        Ok(v) => v,
        Err(e) => {
            return Err(e);
        },
    };
    let ts_chars = chars_of(fields[8].as_str());
    let ts_text = trim_chars(&ts_chars);
    let timestamp = match u64_in(&ts_text) {
        Some(v) => v,
        None => {
            return Err(AppError::ParseInt);
        },
    };
    Ok(
        Quote {
            lp,
            pair,
            one_mill_buy: p1b,
            one_mill_sell: p1a,
            three_mill_buy: p3b,
            three_mill_sell: p3a,
            five_mill_buy: p5b,
            five_mill_sell: p5a,
            timestamp,
        },
    )
}

} // verus!
