//! Exact decimal prices and integer quantities: parsing from tokens and
//! rendering as text.
use crate::text::chars_of;
use vstd::prelude::*;

verus! {

/// Most digits a price token may carry, so that it is held exactly.
pub const MAX_DIGITS: usize = 18;

pub open spec fn is_digit(c: char) -> bool {
    '0' <= c && c <= '9'
}

pub open spec fn digit_value(c: char) -> int {
    (c as u32) as int - 48
}

pub open spec fn all_digits(s: Seq<char>) -> bool {
    forall|i: int| 0 <= i < s.len() ==> is_digit(#[trigger] s[i])
}

/// The value of a run of decimal digits, most significant first.
pub open spec fn digits_value(s: Seq<char>) -> int
    decreases s.len(),
{
    if s.len() == 0 {
        0
    } else {
        digits_value(s.drop_last()) * 10 + digit_value(s.last())
    }
}

pub open spec fn pow10(k: nat) -> nat
    decreases k,
{
    if k == 0 {
        1
    } else {
        10 * pow10((k - 1) as nat)
    }
}

pub proof fn lemma_pow10_positive(k: nat)
    ensures
        pow10(k) >= 1,
    decreases k,
{
    if k > 0 {
        lemma_pow10_positive((k - 1) as nat);
    }
}

pub proof fn lemma_pow10_mono(a: nat, b: nat)
    requires
        a <= b,
    ensures
        pow10(a) <= pow10(b),
    decreases b,
{
    if a < b {
        lemma_pow10_mono(a, (b - 1) as nat);
        lemma_pow10_positive((b - 1) as nat);
    }
}

pub proof fn lemma_pow10_values()
    ensures
        pow10(18) == 1000000000000000000,
        pow10(20) == 100000000000000000000,
{
    reveal_with_fuel(pow10, 21);
}

pub proof fn lemma_digits_bound(s: Seq<char>)
    requires
        all_digits(s),
    ensures
        0 <= digits_value(s) < pow10(s.len()),
    decreases s.len(),
{
    if s.len() > 0 {
        let p = s.drop_last();
        assert(all_digits(p)) by {
            assert forall|i: int| 0 <= i < p.len() implies is_digit(#[trigger] p[i]) by {
                assert(p[i] == s[i]);
            }
        }
        lemma_digits_bound(p);
        let a = digits_value(p);
        let b = pow10(p.len());
        let d = digit_value(s.last());
        assert(is_digit(s[s.len() - 1]));
        assert(0 <= d <= 9);
        assert(0 <= a * 10 + d < 10 * b) by (nonlinear_arith)
            requires
                0 <= a < b,
                0 <= d <= 9,
        ;
    }
}

/// A prefix of a digit run is worth no more than the whole run.
pub proof fn lemma_digits_prefix(s: Seq<char>, i: int)
    requires
        all_digits(s),
        0 <= i <= s.len(),
    ensures
        digits_value(s.take(i)) <= digits_value(s),
    decreases s.len(),
{
    if i < s.len() {
        let p = s.drop_last();
        assert(all_digits(p)) by {
            assert forall|j: int| 0 <= j < p.len() implies is_digit(#[trigger] p[j]) by {
                assert(p[j] == s[j]);
            }
        }
        lemma_digits_prefix(p, i);
        assert(p.take(i) =~= s.take(i));
        lemma_digits_bound(p);
        assert(is_digit(s[s.len() - 1]));
    } else {
        assert(s.take(i) =~= s);
    }
}

/// The character of a digit from 0 to 9.
pub open spec fn digit_char(d: int) -> char {
    if d == 0 {
        '0'
    } else if d == 1 {
        '1'
    } else if d == 2 {
        '2'
    } else if d == 3 {
        '3'
    } else if d == 4 {
        '4'
    } else if d == 5 {
        '5'
    } else if d == 6 {
        '6'
    } else if d == 7 {
        '7'
    } else if d == 8 {
        '8'
    } else {
        '9'
    }
}

/// Decimal text of a natural number, without leading zeros.
pub open spec fn nat_text(n: nat) -> Seq<char>
    decreases n,
{
    if n < 10 {
        seq![digit_char(n as int)]
    } else {
        nat_text(n / 10).push(digit_char((n % 10) as int))
    }
}

/// Decimal text of an integer, with a leading `-` when it is negative.
pub open spec fn int_text(v: int) -> Seq<char> {
    if v < 0 {
        seq!['-'] + nat_text((-v) as nat)
    } else {
        nat_text(v as nat)
    }
}

fn digit_to_char(d: u128) -> (c: char)
    requires
        d < 10,
    ensures
        c == digit_char(d as int),
{
    if d == 0 {
        '0'
    } else if d == 1 {
        '1'
    } else if d == 2 {
        '2'
    } else if d == 3 {
        '3'
    } else if d == 4 {
        '4'
    } else if d == 5 {
        '5'
    } else if d == 6 {
        '6'
    } else if d == 7 {
        '7'
    } else if d == 8 {
        '8'
    } else {
        '9'
    }
}

/// Appends the decimal text of `n` to `out`.
pub fn push_nat_text(out: &mut Vec<char>, n: u128)
    ensures
        final(out)@ == old(out)@ + nat_text(n as nat),
    decreases n,
{
    if n < 10 {
        out.push(digit_to_char(n));
    } else {
        push_nat_text(out, n / 10);
        out.push(digit_to_char(n % 10));
        assert(nat_text(n as nat) == nat_text((n / 10) as nat).push(digit_char((n % 10) as int)));
    }
}

/// Appends the decimal text of `v` to `out`.
pub fn push_int_text(out: &mut Vec<char>, v: i128)
    requires
        v > i128::MIN,
    ensures
        final(out)@ == old(out)@ + int_text(v as int),
{
    if v < 0 {
        out.push('-');
        push_nat_text(out, (-v) as u128);
    } else {
        push_nat_text(out, v as u128);
    }
}

/// An exact decimal number: `mantissa` divided by ten to the power `scale`.
#[derive(Clone, Copy, Debug, PartialEq, Eq, Structural)]
pub struct Decimal {
    pub mantissa: i64,
    pub scale: u32,
}

impl Decimal {
    /// Within the bounds that parsing produces and rendering accepts.
    pub open spec fn wf(self) -> bool {
        -1000000000000000000 < self.mantissa < 1000000000000000000 && self.scale <= 18
    }

    /// Whether the decimal's value is the integer `v`, at whatever scale.
    pub fn equals_int(&self, v: i64) -> (r: bool)
        requires
            self.wf(),
            -1000 <= v <= 1000,
        ensures
            r == (self.mantissa == v * pow10(self.scale as nat)),
    {
        let p = pow10_u128(self.scale);
        proof {
            lemma_pow10_mono(self.scale as nat, 18);
            lemma_pow10_values();
            assert(-1000 * 1000000000000000000 <= v * p <= 1000 * 1000000000000000000)
                by (nonlinear_arith)
                requires
                    -1000 <= v <= 1000,
                    0 <= p <= 1000000000000000000,
            ;
        }
        self.mantissa as i128 == (v as i128) * (p as i128)
    }

    /// Whether the decimal is within the bounds of `wf`.
    pub fn is_valid(&self) -> (r: bool)
        ensures
            r == self.wf(),
    {
        -1000000000000000000 < self.mantissa && self.mantissa < 1000000000000000000
            && self.scale <= 18
    }
}

/// A single '.' at `k`, with digits only on either side.
pub open spec fn dotted_at(b: Seq<char>, k: int) -> bool {
    0 <= k < b.len() && b[k] == '.' && all_digits(b.take(k)) && all_digits(b.skip(k + 1))
}

/// Mantissa and scale of an unsigned numeral: digits with at most one '.',
/// between one and `MAX_DIGITS` digits in all.
pub open spec fn numeral_of(b: Seq<char>) -> Option<(int, int)> {
    if all_digits(b) {
        if 1 <= b.len() <= MAX_DIGITS {
            Some((digits_value(b), 0))
        } else {
            None
        }
    } else if exists|k: int| dotted_at(b, k) {
        let k = choose|k: int| dotted_at(b, k);
        if 2 <= b.len() <= MAX_DIGITS + 1 {
            Some((digits_value(b.take(k) + b.skip(k + 1)), b.len() - k - 1))
        } else {
            None
        }
    } else {
        None
    }
}

/// A leading sign: `-` makes the number negative, `+` is allowed.
pub open spec fn is_negative(t: Seq<char>) -> bool {
    t.len() > 0 && t[0] == '-'
}

/// The token without its leading sign, if it has one.
pub open spec fn unsigned_part(t: Seq<char>) -> Seq<char> {
    if t.len() > 0 && (t[0] == '-' || t[0] == '+') {
        t.drop_first()
    } else {
        t
    }
}

/// The decimal that a price token denotes: an optional sign, then a numeral.
pub open spec fn decimal_of(t: Seq<char>) -> Option<Decimal> {
    match numeral_of(unsigned_part(t)) {
        Some((m, s)) => Some(
            Decimal {
                mantissa: (if is_negative(t) { -m } else { m }) as i64,
                scale: s as u32,
            },
        ),
        None => None,
    }
}

/// The `i32` that a quantity token denotes: an optional sign, then at least
/// one digit, within range.
pub open spec fn int_of(t: Seq<char>) -> Option<i32> {
    let body = unsigned_part(t);
    let v = if is_negative(t) {
        -digits_value(body)
    } else {
        digits_value(body)
    };
    if body.len() >= 1 && all_digits(body) && i32::MIN <= v <= i32::MAX {
        Some(v as i32)
    } else {
        None
    }
}

proof fn lemma_dot_unique(b: Seq<char>, k1: int, k2: int)
    requires
        dotted_at(b, k1),
        dotted_at(b, k2),
    ensures
        k1 == k2,
{
    if k1 < k2 {
        assert(b.take(k2)[k1] == b[k1]);
    } else if k2 < k1 {
        assert(b.take(k1)[k2] == b[k2]);
    }
}

fn tail_from(v: &Vec<char>, start: usize) -> (r: Vec<char>)
    requires
        start <= v@.len(),
    ensures
        r@ == v@.skip(start as int),
{
    let mut r: Vec<char> = Vec::new();
    let mut i: usize = start;
    while i < v.len()
        invariant
            start <= i <= v@.len(),
            r@ == v@.subrange(start as int, i as int),
        decreases v@.len() - i,
    {
        r.push(v[i]);
        i += 1;
        assert(r@ =~= v@.subrange(start as int, i as int));
    }
    r
}

fn is_digit_char(c: char) -> (r: bool)
    ensures
        r == is_digit(c),
{
    '0' <= c && c <= '9'
}

fn char_digit(c: char) -> (r: u64)
    requires
        is_digit(c),
    ensures
        r == digit_value(c),
{
    (c as u32 - 48) as u64
}

fn digits_to_u64(d: &Vec<char>) -> (r: u64)
    requires
        all_digits(d@),
        d@.len() <= MAX_DIGITS,
    ensures
        r == digits_value(d@),
{
    let mut acc: u64 = 0;
    let mut i: usize = 0;
    while i < d.len()
        invariant
            i <= d@.len() <= MAX_DIGITS,
            all_digits(d@),
            acc == digits_value(d@.take(i as int)),
        decreases d@.len() - i,
    {
        proof {
            let t = d@.take(i + 1);
            assert(t.drop_last() =~= d@.take(i as int));
            assert(all_digits(t));
            lemma_digits_bound(t);
            lemma_pow10_mono(t.len(), 18);
            lemma_pow10_values();
            assert(is_digit(d@[i as int]));
        }
        acc = acc * 10 + char_digit(d[i]);
        i += 1;
    }
    assert(d@.take(d@.len() as int) =~= d@);
    acc
}

fn parse_numeral(b: &Vec<char>) -> (r: Option<(u64, u32)>)
    ensures
        match r {
            Some((m, s)) => numeral_of(b@) == Some((m as int, s as int)) && m
                < 1000000000000000000 && s <= 18,
            None => numeral_of(b@) is None,
        },
{
    let n = b.len();
    let mut k: usize = 0;
    while k < n && is_digit_char(b[k])
        invariant
            k <= n == b@.len(),
            all_digits(b@.take(k as int)),
        decreases n - k,
    {
        proof {
            assert forall|i: int| 0 <= i < k + 1 implies is_digit(#[trigger] b@.take(k + 1)[i]) by {
                if i < k {
                    assert(b@.take(k + 1)[i] == b@.take(k as int)[i]);
                }
            }
        }
        k += 1;
    }
    if k == n {
        assert(b@.take(n as int) =~= b@);
        if n == 0 || n > MAX_DIGITS {
            return None;
        }
        let m = digits_to_u64(b);
        proof {
            lemma_digits_bound(b@);
            lemma_pow10_mono(n as nat, 18);
            lemma_pow10_values();
        }
        return Some((m, 0));
    }
    assert(!all_digits(b@)) by {
        assert(!is_digit(b@[k as int]));
    }
    if b[k] != '.' {
        proof {
            assert forall|j: int| !dotted_at(b@, j) by {
                if dotted_at(b@, j) {
                    if j < k {
                        assert(b@.take(k as int)[j] == b@[j]);
                    } else if j > k {
                        assert(b@.take(j)[k as int] == b@[k as int]);
                    }
                }
            }
        }
        return None;
    }
    let mut j: usize = k + 1;
    while j < n
        invariant
            k < n == b@.len(),
            k + 1 <= j <= n,
            b@[k as int] == '.',
            all_digits(b@.take(k as int)),
            all_digits(b@.subrange(k + 1, j as int)),
        decreases n - j,
    {
        if !is_digit_char(b[j]) {
            proof {
                assert forall|x: int| !dotted_at(b@, x) by {
                    if dotted_at(b@, x) {
                        if x < k {
                            assert(b@.take(k as int)[x] == b@[x]);
                        } else if x > k {
                            assert(b@.take(x)[k as int] == b@[k as int]);
                        } else {
                            assert(b@.skip(k + 1)[j - k - 1] == b@[j as int]);
                        }
                    }
                }
            }
            return None;
        }
        proof {
            assert forall|i: int| 0 <= i < j + 1 - (k + 1) implies is_digit(
                #[trigger] b@.subrange(k + 1, j + 1)[i],
            ) by {
                if i < j - (k + 1) {
                    assert(b@.subrange(k + 1, j + 1)[i] == b@.subrange(k + 1, j as int)[i]);
                }
            }
        }
        j += 1;
    }
    assert(b@.subrange(k + 1, n as int) =~= b@.skip(k + 1));
    assert(dotted_at(b@, k as int));
    proof {
        let c = choose|x: int| dotted_at(b@, x);
        lemma_dot_unique(b@, c, k as int);
    }
    if n < 2 || n > MAX_DIGITS + 1 {
        return None;
    }
    let mut digits = b.clone();
    digits.remove(k);
    let ghost joined = b@.take(k as int) + b@.skip(k + 1);
    assert(digits@ =~= joined);
    assert(all_digits(joined)) by {
        assert forall|i: int| 0 <= i < joined.len() implies is_digit(#[trigger] joined[i]) by {
            if i < k {
                assert(joined[i] == b@.take(k as int)[i]);
            } else {
                assert(joined[i] == b@.skip(k + 1)[i - k]);
            }
        }
    }
    let m = digits_to_u64(&digits);
    proof {
        lemma_digits_bound(joined);
        lemma_pow10_mono(joined.len(), 18);
        lemma_pow10_values();
    }
    Some((m, (n - k - 1) as u32))
}

/// Parses a price token, as `decimal_of` states.
pub fn parse_decimal_chars(t: &Vec<char>) -> (r: Option<Decimal>)
    ensures
        r == decimal_of(t@),
        r matches Some(d) ==> d.wf(),
{
    let signed = t.len() > 0 && (t[0] == '-' || t[0] == '+');
    let negative = t.len() > 0 && t[0] == '-';
    let body = if signed {
        tail_from(t, 1)
    } else {
        t.clone()
    };
    assert(body@ == unsigned_part(t@));
    match parse_numeral(&body) {
        Some((m, s)) => {
            let v: i64 = if negative {
                -(m as i64)
            } else {
                m as i64
            };
            Some(Decimal { mantissa: v, scale: s })
        },
        None => None,
    }
}

/// Parses a price token such as `12.50`, as `decimal_of` states.
pub fn parse_decimal(s: &str) -> (r: Option<Decimal>)
    ensures
        r == decimal_of(s@),
        r matches Some(d) ==> d.wf(),
{
    parse_decimal_chars(&chars_of(s))
}

/// Parses a quantity token, as `int_of` states.
pub fn parse_int_chars(t: &Vec<char>) -> (r: Option<i32>)
    ensures
        r == int_of(t@),
{
    let signed = t.len() > 0 && (t[0] == '-' || t[0] == '+');
    let negative = t.len() > 0 && t[0] == '-';
    let body = if signed {
        tail_from(t, 1)
    } else {
        t.clone()
    };
    assert(body@ == unsigned_part(t@));
    if body.len() == 0 {
        return None;
    }
    let mut acc: u64 = 0;
    let mut i: usize = 0;
    while i < body.len()
        invariant
            i <= body@.len(),
            body@ == unsigned_part(t@),
            all_digits(body@.take(i as int)),
            acc == digits_value(body@.take(i as int)),
            acc <= 2147483648,
        decreases body@.len() - i,
    {
        if !is_digit_char(body[i]) {
            assert(!all_digits(body@)) by {
                assert(!is_digit(body@[i as int]));
            }
            return None;
        }
        let ghost t1 = body@.take(i + 1);
        proof {
            assert(t1.drop_last() =~= body@.take(i as int));
            assert(all_digits(t1)) by {
                assert forall|x: int| 0 <= x < t1.len() implies is_digit(#[trigger] t1[x]) by {
                    if x < i {
                        assert(t1[x] == body@.take(i as int)[x]);
                    }
                }
            }
        }
        acc = acc * 10 + char_digit(body[i]);
        i += 1;
        if acc > 2147483648 {
            proof {
                if all_digits(body@) {
                    lemma_digits_prefix(body@, i as int);
                }
            }
            return None;
        }
    }
    assert(body@.take(body@.len() as int) =~= body@);
    if negative {
        Some((-(acc as i64)) as i32)
    } else if acc > 2147483647 {
        None
    } else {
        Some(acc as i32)
    }
}

/// Rounds `m / 10^s` to hundredths, ties to even, and counts in hundredths.
pub open spec fn hundredths(m: nat, s: nat) -> nat {
    if s <= 2 {
        m * pow10((2 - s) as nat)
    } else {
        let d = pow10((s - 2) as nat);
        let q = m / d;
        let r = m % d;
        if 2 * r > d || (2 * r == d && q % 2 == 1) {
            q + 1
        } else {
            q
        }
    }
}

/// `m / 10^s` written with exactly two decimals, as `{:.2}` writes an exact value.
pub open spec fn fixed2_text(m: int, s: nat) -> Seq<char> {
    let h = hundredths(if m < 0 { (-m) as nat } else { m as nat }, s);
    (if m < 0 {
        seq!['-']
    } else {
        Seq::empty()
    }) + nat_text(h / 100) + seq!['.', digit_char(((h % 100) / 10) as int), digit_char((h % 10) as int)]
}


pub(crate) fn pow10_u128(k: u32) -> (r: u128)
    requires
        k <= 20,
    ensures
        r == pow10(k as nat),
{
    let mut r: u128 = 1;
    let mut i: u32 = 0;
    while i < k
        invariant
            i <= k <= 20,
            r == pow10(i as nat),
        decreases k - i,
    {
        proof {
            lemma_pow10_mono((i + 1) as nat, 20);
            lemma_pow10_values();
        }
        r = r * 10;
        i += 1;
    }
    r
}

/// Appends `m / 10^s` with exactly two decimals, as `fixed2_text` states.
pub fn push_fixed2(out: &mut Vec<char>, m: i128, s: u32)
    requires
        -1000000000000000000000000000000 < m < 1000000000000000000000000000000,
        s <= 20,
    ensures
        final(out)@ == old(out)@ + fixed2_text(m as int, s as nat),
{
    let a: u128 = if m < 0 {
        (-m) as u128
    } else {
        m as u128
    };
    let ghost an: nat = if m < 0 {
        (-m) as nat
    } else {
        m as nat
    };
    let h: u128 = if s <= 2 {
        let p = pow10_u128(2 - s);
        proof {
            lemma_pow10_mono((2 - s) as nat, 2);
            reveal_with_fuel(pow10, 3);
            assert(a * p <= 1000000000000000000000000000000 * 100) by (nonlinear_arith)
                requires
                    a < 1000000000000000000000000000000,
                    p <= 100,
            ;
        }
        a * p
    } else {
        let d = pow10_u128(s - 2);
        proof {
            lemma_pow10_positive((s - 2) as nat);
            lemma_pow10_mono((s - 2) as nat, 20);
            lemma_pow10_values();
        }
        let q = a / d;
        let r = a % d;
        if 2 * r > d || (2 * r == d && q % 2 == 1) {
            q + 1
        } else {
            q
        }
    };
    assert(h == hundredths(an, s as nat));
    let ghost start = out@;
    if m < 0 {
        out.push('-');
    }
    push_nat_text(out, h / 100);
    out.push('.');
    out.push(digit_to_char((h % 100) / 10));
    out.push(digit_to_char(h % 10));
    assert(out@ =~= start + fixed2_text(m as int, s as nat));
}

} // verus!
