use vstd::prelude::*;
use vstd::string::StrSliceExecFns;

use crate::units::MICROS;

verus! {

/// The code of `c` with ASCII upper-case letters mapped to lower case.
pub open spec fn ascii_lower_code(c: char) -> u32 {
    let v = c as u32;
    if 65 <= v && v <= 90 { (v + 32) as u32 } else { v }
}

/// ASCII case-insensitive equality, as `str::eq_ignore_ascii_case` defines it.
pub open spec fn ascii_eq_ignore_case(a: Seq<char>, b: Seq<char>) -> bool {
    &&& a.len() == b.len()
    &&& forall|i: int| 0 <= i < a.len() ==> #[trigger] ascii_lower_code(a[i]) == ascii_lower_code(b[i])
}

fn lower_code(c: char) -> (r: u32)
    ensures
        r == ascii_lower_code(c),
{
    let v = c as u32;
    if 65 <= v && v <= 90 {
        v + 32
    } else {
        v
    }
}

/// Whether `a` and `b` are equal when ASCII letters are compared without case.
pub fn eq_ignore_ascii_case(a: &str, b: &str) -> (r: bool)
    ensures
        r == ascii_eq_ignore_case(a@, b@),
{
    let n = a.unicode_len();
    if n != b.unicode_len() {
        return false;
    }
    let mut i: usize = 0;
    while i < n
        invariant
            n == a@.len(),
            n == b@.len(),
            i <= n,
            forall|j: int| 0 <= j < i ==> #[trigger] ascii_lower_code(a@[j]) == ascii_lower_code(b@[j]),
        decreases n - i,
    {
        if lower_code(a.get_char(i)) != lower_code(b.get_char(i)) {
            return false;
        }
        i = i + 1;
    }
    true
}


/// Whether two strings hold the same characters.
pub fn str_equal(a: &str, b: &str) -> (r: bool)
    ensures
        r == (a@ == b@),
{
    let n = a.unicode_len();
    if n != b.unicode_len() {
        return false;
    }
    let mut i: usize = 0;
    while i < n
        invariant
            n == a@.len(),
            n == b@.len(),
            i <= n,
            forall|j: int| 0 <= j < i ==> #[trigger] a@[j] == b@[j],
        decreases n - i,
    {
        if a.get_char(i) != b.get_char(i) {
            return false;
        }
        i = i + 1;
    }
    assert(a@ =~= b@);
    true
}

/// Whether `c` is an ASCII decimal digit.
pub open spec fn is_digit(c: char) -> bool {
    '0' <= c && c <= '9'
}

/// The value of a decimal digit.
pub open spec fn digit_value(c: char) -> int {
    c as int - '0' as int
}

/// Every character of `s` is a decimal digit.
pub open spec fn all_digits(s: Seq<char>) -> bool {
    forall|i: int| 0 <= i < s.len() ==> #[trigger] is_digit(s[i])
}

/// The number that a string of decimal digits writes.
pub open spec fn digits_value(s: Seq<char>) -> int
    decreases s.len(),
{
    if s.len() == 0 {
        0
    } else {
        digits_value(s.drop_last()) * 10 + digit_value(s.last())
    }
}

/// `10` to the power `n`.
pub open spec fn pow10(n: nat) -> int
    decreases n,
{
    if n == 0 { 1 } else { 10 * pow10((n - 1) as nat) }
}

/// The fraction digits `f` (those after the point) as micro-units: the first
/// six digits count, later ones are dropped.
pub open spec fn fraction_micros(f: Seq<char>) -> int {
    let k = if f.len() <= 6 { f.len() } else { 6 };
    digits_value(f.take(k as int)) * pow10((6 - k) as nat)
}

/// `s` without one leading `+`.
pub open spec fn unsigned_body(s: Seq<char>) -> Seq<char> {
    if s.len() > 0 && s[0] == '+' { s.drop_first() } else { s }
}

/// Index of the first `.` in `s`.
pub open spec fn first_dot(s: Seq<char>) -> Option<int>
    decreases s.len(),
{
    if s.len() == 0 {
        None
    } else {
        match first_dot(s.drop_last()) {
            Some(i) => Some(i),
            None => if s.last() == '.' { Some(s.len() - 1) } else { None },
        }
    }
}

/// The value, in micro-units, of a decimal number written `[+|-]digits`,
/// `[+|-]digits.digits`, `[+|-]digits.` or `[+|-].digits`, each optionally
/// followed by an exponent `e` or `E`, `[+|-]digits` (as `f64::from_str`
/// reads them); digits below the sixth fraction digit dropped. A number
/// written with `-` is zero when its magnitude is below one micro-unit, and
/// has no value otherwise (amounts are never negative). None for other text.
pub open spec fn decimal_micros(s: Seq<char>) -> Option<int> {
    if s.len() > 0 && s[0] == '-' {
        match number_micros(s.drop_first()) {
            Some(v) => if v == 0 { Some(0) } else { None },
            None => None,
        }
    } else {
        number_micros(unsigned_body(s))
    }
}

/// Whether `c` marks an exponent.
pub open spec fn is_exp_mark(c: char) -> bool {
    c == 'e' || c == 'E'
}

/// Index of the first exponent mark in `s`.
pub open spec fn first_exp_mark(s: Seq<char>) -> Option<int>
    decreases s.len(),
{
    if s.len() == 0 {
        None
    } else {
        match first_exp_mark(s.drop_last()) {
            Some(i) => Some(i),
            None => if is_exp_mark(s.last()) { Some(s.len() - 1) } else { None },
        }
    }
}

/// The value, in micro-units, of an unsigned number: a body, or a mantissa
/// and an exponent on either side of the first exponent mark.
pub open spec fn number_micros(b: Seq<char>) -> Option<int> {
    match first_exp_mark(b) {
        None => body_micros(b),
        Some(k) => scientific_micros(b.take(k), b.skip(k + 1)),
    }
}

/// The digits of a mantissa `digits`, `digits.digits`, `digits.` or `.digits`
/// (at least one digit), and how many of them stand before the point.
pub open spec fn mantissa_digits(m: Seq<char>) -> Option<(Seq<char>, int)> {
    match first_dot(m) {
        None => if m.len() > 0 && all_digits(m) { Some((m, m.len() as int)) } else { None },
        Some(k) => {
            let ip = m.take(k);
            let fp = m.skip(k + 1);
            if all_digits(ip) && all_digits(fp) && ip.len() + fp.len() > 0 {
                Some((ip + fp, k))
            } else {
                None
            }
        },
    }
}

/// The value of an exponent `[+|-]digits`.
pub open spec fn exponent_value(x: Seq<char>) -> Option<int> {
    let signed = x.len() > 0 && (x[0] == '-' || x[0] == '+');
    let d = if signed { x.drop_first() } else { x };
    if d.len() > 0 && all_digits(d) {
        Some(if x[0] == '-' { -digits_value(d) } else { digits_value(d) })
    } else {
        None
    }
}

/// The digits `ds` read with the decimal point after the first `point` of
/// them (zeros filling in where it lies outside them), the digits after the
/// point dropped.
pub open spec fn shifted_value(ds: Seq<char>, point: int) -> int {
    if point <= 0 {
        0
    } else if point <= ds.len() {
        digits_value(ds.take(point))
    } else {
        digits_value(ds) * pow10((point - ds.len()) as nat)
    }
}

/// The value, in micro-units, of a mantissa times ten to an exponent.
pub open spec fn scientific_micros(mantissa: Seq<char>, exponent: Seq<char>) -> Option<int> {
    match (mantissa_digits(mantissa), exponent_value(exponent)) {
        (Some((ds, int_len)), Some(e)) => Some(shifted_value(ds, int_len + e + 6)),
        _ => None,
    }
}

/// The value, in micro-units, of `digits`, `digits.digits`, `digits.` or `.digits`.
pub open spec fn body_micros(b: Seq<char>) -> Option<int> {
    match first_dot(b) {
        None => if b.len() > 0 && all_digits(b) { Some(digits_value(b) * MICROS) } else { None },
        Some(k) => {
            let ip = b.take(k);
            let fp = b.skip(k + 1);
            if all_digits(ip) && all_digits(fp) && ip.len() + fp.len() > 0 {
                Some(digits_value(ip) * MICROS + fraction_micros(fp))
            } else {
                None
            }
        },
    }
}

/// `decimal_micros` when the value fits in a `u64`.
pub open spec fn parsed_micros(s: Seq<char>) -> Option<u64> {
    fitting(decimal_micros(s))
}

/// `v` when it fits in a `u64`.
pub open spec fn fitting(v: Option<int>) -> Option<u64> {
    match v {
        Some(v) => if 0 <= v <= u64::MAX { Some(v as u64) } else { None },
        None => None,
    }
}

/// The value of a natural number written `[+]digits`, as `u64::from_str` reads it.
pub open spec fn parsed_u64(s: Seq<char>) -> Option<u64> {
    let b = unsigned_body(s);
    if b.len() > 0 && all_digits(b) && digits_value(b) <= u64::MAX {
        Some(digits_value(b) as u64)
    } else {
        None
    }
}

/// `first_dot` finds the first `.`, and none when there is no `.`.
pub proof fn lemma_first_dot(s: Seq<char>)
    ensures
        match first_dot(s) {
            Some(i) => 0 <= i < s.len() && s[i] == '.' && forall|j: int| 0 <= j < i ==> #[trigger] s[j] != '.',
            None => forall|j: int| 0 <= j < s.len() ==> #[trigger] s[j] != '.',
        },
    decreases s.len(),
{
    if s.len() > 0 {
        lemma_first_dot(s.drop_last());
        assert forall|j: int| 0 <= j < s.len() - 1 implies #[trigger] s[j] == s.drop_last()[j] by {}
    }
}

/// The digits value never decreases when a digit is appended, and is never negative.
pub proof fn lemma_digits_value_nonneg(s: Seq<char>)
    requires
        all_digits(s),
    ensures
        digits_value(s) >= 0,
    decreases s.len(),
{
    if s.len() > 0 {
        assert(all_digits(s.drop_last())) by {
            assert forall|i: int| 0 <= i < s.drop_last().len() implies #[trigger] is_digit(s.drop_last()[i]) by {
                assert(s.drop_last()[i] == s[i]);
            }
        }
        lemma_digits_value_nonneg(s.drop_last());
        assert(is_digit(s[s.len() - 1]));
    }
}

proof fn lemma_pow10_positive(n: nat)
    ensures
        pow10(n) >= 1,
    decreases n,
{
    if n > 0 {
        lemma_pow10_positive((n - 1) as nat);
    }
}

/// A string of decimal digits is below `10` to the power of its length.
pub proof fn lemma_digits_value_bound(s: Seq<char>)
    requires
        all_digits(s),
    ensures
        digits_value(s) < pow10(s.len()),
    decreases s.len(),
{
    if s.len() > 0 {
        assert(all_digits(s.drop_last())) by {
            assert forall|i: int| 0 <= i < s.drop_last().len() implies #[trigger] is_digit(s.drop_last()[i]) by {
                assert(s.drop_last()[i] == s[i]);
            }
        }
        lemma_digits_value_bound(s.drop_last());
        assert(is_digit(s[s.len() - 1]));
    }
}

/// The value of at most six digits `s[from..to]`.
fn small_digits_value(s: &str, from: usize, to: usize) -> (r: u64)
    requires
        from <= to <= s@.len(),
        to - from <= 6,
        all_digits(s@.subrange(from as int, to as int)),
    ensures
        r == digits_value(s@.subrange(from as int, to as int)),
{
    let mut acc: u64 = 0;
    let mut i = from;
    assert(s@.subrange(from as int, from as int) =~= Seq::<char>::empty());
    while i < to
        invariant
            from <= i <= to <= s@.len(),
            to - from <= 6,
            all_digits(s@.subrange(from as int, to as int)),
            acc == digits_value(s@.subrange(from as int, i as int)),
            acc < pow10((i - from) as nat),
        decreases to - i,
    {
        let ghost prev = s@.subrange(from as int, i as int);
        let ghost next = s@.subrange(from as int, i + 1);
        assert(next.drop_last() =~= prev);
        let c = s.get_char(i);
        assert(next.last() == c);
        assert(is_digit(s@.subrange(from as int, to as int)[i - from]));
        proof {
            reveal_with_fuel(pow10, 7);
            assert(pow10((i - from) as nat) <= 100_000);
            assert(pow10((i + 1 - from) as nat) == 10 * pow10((i - from) as nat));
        }
        acc = acc * 10 + (c as u32 - '0' as u32) as u64;
        i = i + 1;
    }
    acc
}

fn is_digit_char(c: char) -> (r: bool)
    ensures
        r == is_digit(c),
{
    '0' <= c && c <= '9'
}

/// Reads the digits of `s` from `start` up to the first non-digit. Returns the
/// index of that non-digit (or the end), the value of the digits if it fits
/// in a `u64`, and how many digits there were.
fn scan_digits(s: &str, start: usize) -> (r: (usize, Option<u64>))
    requires
        start <= s@.len(),
    ensures
        start <= r.0 <= s@.len(),
        all_digits(s@.subrange(start as int, r.0 as int)),
        r.0 < s@.len() ==> !is_digit(s@[r.0 as int]),
        match r.1 {
            Some(v) => v == digits_value(s@.subrange(start as int, r.0 as int)),
            None => digits_value(s@.subrange(start as int, r.0 as int)) > u64::MAX,
        },
{
    let n = s.unicode_len();
    let mut i = start;
    let mut acc: Option<u64> = Some(0);
    assert(s@.subrange(start as int, start as int) =~= Seq::<char>::empty());
    while i < n && is_digit_char(s.get_char(i))
        invariant
            n == s@.len(),
            start <= i <= n,
            all_digits(s@.subrange(start as int, i as int)),
            match acc {
                Some(v) => v == digits_value(s@.subrange(start as int, i as int)),
                None => digits_value(s@.subrange(start as int, i as int)) > u64::MAX,
            },
        decreases n - i,
    {
        let c = s.get_char(i);
        let ghost prev = s@.subrange(start as int, i as int);
        let ghost next = s@.subrange(start as int, i + 1);
        assert(next.drop_last() =~= prev);
        assert(next.last() == c);
        assert(all_digits(next)) by {
            assert forall|j: int| 0 <= j < next.len() implies #[trigger] is_digit(next[j]) by {
                if j < prev.len() { assert(next[j] == prev[j]); }
            }
        }
        proof {
            lemma_digits_value_nonneg(prev);
        }
        let d = (c as u32 - '0' as u32) as u64;
        acc = match acc {
            Some(v) => {
                if v <= (u64::MAX - d) / 10 {
                    Some(v * 10 + d)
                } else {
                    None
                }
            },
            None => None,
        };
        i = i + 1;
    }
    (i, acc)
}

/// A body with no point is a number exactly when it is a non-empty run of digits.
proof fn lemma_body_without_point(b: Seq<char>)
    requires
        all_digits(b),
    ensures
        body_micros(b) == (if b.len() > 0 { Some(digits_value(b) * MICROS) } else { None::<int> }),
{
    lemma_first_dot(b);
    if let Some(k) = first_dot(b) {
        assert(is_digit(b[k]));
    }
}

/// A body whose first non-digit, at `k`, is the point.
proof fn lemma_body_point_at(b: Seq<char>, k: int)
    requires
        0 <= k < b.len(),
        all_digits(b.take(k)),
        b[k] == '.',
    ensures
        first_dot(b) == Some(k),
{
    lemma_first_dot(b);
    match first_dot(b) {
        Some(d) => {
            if d < k { assert(is_digit(b.take(k)[d])); }
            if d > k { assert(b[k] != '.'); }
        },
        None => { assert(b[k] != '.'); },
    }
}

/// A body whose first non-digit, at `k`, is not the point is no number.
proof fn lemma_body_bad_char(b: Seq<char>, k: int)
    requires
        0 <= k < b.len(),
        all_digits(b.take(k)),
        !is_digit(b[k]),
        b[k] != '.',
    ensures
        body_micros(b) is None,
{
    lemma_first_dot(b);
    match first_dot(b) {
        Some(d) => {
            if d < k { assert(is_digit(b.take(k)[d])); }
            if d > k {
                assert(b.take(d)[k] == b[k]);
            }
        },
        None => {},
    }
}

/// The fraction digits `s[from..to]` as micro-units.
fn fraction_value(s: &str, from: usize, to: usize) -> (r: u64)
    requires
        from <= to <= s@.len(),
        all_digits(s@.subrange(from as int, to as int)),
    ensures
        r == fraction_micros(s@.subrange(from as int, to as int)),
{
    let ghost fp = s@.subrange(from as int, to as int);
    let take: usize = if to - from <= 6 { to - from } else { 6 };
    proof {
        assert(s@.subrange(from as int, from + take) =~= fp.take(take as int));
        assert(all_digits(fp.take(take as int)));
    }
    let mut frac: u64 = small_digits_value(s, from, from + take);
    let mut k2: usize = take;
    let ghost dv = digits_value(fp.take(take as int));
    proof {
        lemma_digits_value_bound(fp.take(take as int));
        lemma_digits_value_nonneg(fp.take(take as int));
        assert(pow10(0) == 1);
    }
    while k2 < 6
        invariant
            take <= k2 <= 6,
            dv >= 0,
            frac == dv * pow10((k2 - take) as nat),
            frac < pow10(k2 as nat),
        decreases 6 - k2,
    {
        proof {
            reveal_with_fuel(pow10, 7);
            assert(pow10(k2 as nat) <= 100_000);
            let m = pow10((k2 - take) as nat);
            assert(pow10((k2 + 1 - take) as nat) == 10 * m);
            assert(pow10((k2 + 1) as nat) == 10 * pow10(k2 as nat));
            assert(frac * 10 == dv * (10 * m)) by (nonlinear_arith)
                requires frac == dv * m;
        }
        frac = frac * 10;
        k2 = k2 + 1;
    }
    frac
}

/// Parse a decimal number without exponent into micro-units.
#[verifier::spinoff_prover]
fn plain_micros(s: &str, start: usize) -> (r: Option<u64>)
    requires
        start <= s@.len(),
    ensures
        r == fitting(body_micros(s@.subrange(start as int, s@.len() as int))),
{
    let n = s.unicode_len();
    let ghost b = s@.subrange(start as int, n as int);
    let (i, int_val) = scan_digits(s, start);
    let ghost ip = s@.subrange(start as int, i as int);
    let ghost k = (i - start) as int;
    assert(ip =~= b.take(k));
    proof {
        lemma_digits_value_nonneg(ip);
    }
    if i == n {
        assert(ip =~= b);
        proof { lemma_body_without_point(b); }
        if i == start {
            return None;
        }
        return match int_val {
            Some(v) => v.checked_mul(MICROS),
            None => {
                assert(digits_value(b) * MICROS >= digits_value(b)) by (nonlinear_arith)
                    requires digits_value(b) >= 0;
                None
            },
        };
    }
    assert(b[k] == s@[i as int]);
    if s.get_char(i) != '.' {
        proof { lemma_body_bad_char(b, k); }
        return None;
    }
    proof { lemma_body_point_at(b, k); }
    let (j, _) = scan_digits(s, i + 1);
    let ghost fp = b.skip(k + 1);
    assert(fp =~= s@.subrange(i + 1, n as int));
    if j != n {
        assert(!is_digit(fp[j - i - 1]));
        return None;
    }
    assert(s@.subrange(i + 1, j as int) =~= fp);
    if i == start && j == i + 1 {
        return None;
    }
    let frac = fraction_value(s, i + 1, n);
    proof {
        let t = if fp.len() <= 6 { fp.len() } else { 6 };
        lemma_digits_value_nonneg(fp.take(t as int));
        lemma_pow10_positive((6 - t) as nat);
        assert(fraction_micros(fp) >= 0) by (nonlinear_arith)
            requires digits_value(fp.take(t as int)) >= 0, pow10((6 - t) as nat) >= 1,
                fraction_micros(fp) == digits_value(fp.take(t as int)) * pow10((6 - t) as nat);
    }
    match int_val {
        Some(v) => {
            match v.checked_mul(MICROS) {
                Some(w) => w.checked_add(frac),
                None => None,
            }
        },
        None => {
            assert(digits_value(ip) * MICROS >= digits_value(ip)) by (nonlinear_arith)
                requires digits_value(ip) >= 0;
            None
        },
    }
}


/// `first_exp_mark` finds the first exponent mark, and none when there is none.
proof fn lemma_first_exp_mark(s: Seq<char>)
    ensures
        match first_exp_mark(s) {
            Some(i) => 0 <= i < s.len() && is_exp_mark(s[i])
                && forall|j: int| 0 <= j < i ==> !is_exp_mark(#[trigger] s[j]),
            None => forall|j: int| 0 <= j < s.len() ==> !is_exp_mark(#[trigger] s[j]),
        },
    decreases s.len(),
{
    if s.len() > 0 {
        lemma_first_exp_mark(s.drop_last());
        assert forall|j: int| 0 <= j < s.len() - 1 implies #[trigger] s[j] == s.drop_last()[j] by {}
    }
}

/// A mantissa is well formed exactly when it is as a body without exponent.
proof fn lemma_mantissa_as_body(m: Seq<char>)
    ensures
        mantissa_digits(m) is Some == body_micros(m) is Some,
{
}

/// `10` to a power grows with the power.
proof fn lemma_pow10_monotone(a: nat, b: nat)
    requires
        a <= b,
    ensures
        pow10(a) <= pow10(b),
    decreases b,
{
    if a < b {
        lemma_pow10_monotone(a, (b - 1) as nat);
        lemma_pow10_positive((b - 1) as nat);
    }
}

/// Index of the first exponent mark of `s` at or after `start`, or the length.
fn find_exp_mark(s: &str, start: usize) -> (k: usize)
    requires
        start <= s@.len(),
    ensures
        start <= k <= s@.len(),
        forall|j: int| start <= j < k ==> !is_exp_mark(#[trigger] s@[j]),
        k < s@.len() ==> is_exp_mark(s@[k as int]),
{
    let n = s.unicode_len();
    let mut k = start;
    while k < n
        invariant
            n == s@.len(),
            start <= k <= n,
            forall|j: int| start <= j < k ==> !is_exp_mark(#[trigger] s@[j]),
        decreases n - k,
    {
        let c = s.get_char(k);
        if c == 'e' || c == 'E' {
            return k;
        }
        k = k + 1;
    }
    k
}

/// Exponent magnitudes are kept up to this bound: beyond it, every number is
/// zero or out of range.
const EXP_CAP: u128 = 1_000_000_000_000_000_000_000;

/// Reads the exponent `s[from..]`, `[+|-]digits`: whether it is negative, and
/// its magnitude up to `EXP_CAP`.
fn exponent_at(s: &str, from: usize) -> (r: Option<(bool, u128)>)
    requires
        from <= s@.len(),
    ensures
        r is Some == exponent_value(s@.subrange(from as int, s@.len() as int)) is Some,
        r matches Some((neg, mag)) ==> ({
            let e = exponent_value(s@.subrange(from as int, s@.len() as int))->0;
            &&& mag <= EXP_CAP
            &&& mag < EXP_CAP ==> e == (if neg { -(mag as int) } else { mag as int })
            &&& mag == EXP_CAP ==> (if neg { e <= -(EXP_CAP as int) } else { e >= EXP_CAP as int })
        }),
{
    let n = s.unicode_len();
    let ghost x = s@.subrange(from as int, n as int);
    if from == n {
        return None;
    }
    let c = s.get_char(from);
    let neg = c == '-';
    let dfrom: usize = if c == '-' || c == '+' { from + 1 } else { from };
    let ghost d = s@.subrange(dfrom as int, n as int);
    assert(x[0] == c);
    assert(d =~= (if x.len() > 0 && (x[0] == '-' || x[0] == '+') { x.drop_first() } else { x }));
    let mut i = dfrom;
    let mut mag: u128 = 0;
    assert(s@.subrange(dfrom as int, dfrom as int) =~= Seq::<char>::empty());
    while i < n
        invariant
            n == s@.len(),
            dfrom <= i <= n,
            d == s@.subrange(dfrom as int, n as int),
            x == s@.subrange(from as int, n as int),
            d == (if x.len() > 0 && (x[0] == '-' || x[0] == '+') { x.drop_first() } else { x }),
            all_digits(s@.subrange(dfrom as int, i as int)),
            mag <= EXP_CAP,
            mag < EXP_CAP ==> mag == digits_value(s@.subrange(dfrom as int, i as int)),
            mag == EXP_CAP ==> digits_value(s@.subrange(dfrom as int, i as int)) >= EXP_CAP,
        decreases n - i,
    {
        let ch = s.get_char(i);
        if !is_digit_char(ch) {
            assert(d[i - dfrom] == ch);
            assert(!is_digit(d[i - dfrom]));
            return None;
        }
        let ghost prev = s@.subrange(dfrom as int, i as int);
        let ghost next = s@.subrange(dfrom as int, i + 1);
        assert(next.drop_last() =~= prev);
        assert(next.last() == ch);
        assert(all_digits(next)) by {
            assert forall|j: int| 0 <= j < next.len() implies #[trigger] is_digit(next[j]) by {
                if j < prev.len() { assert(next[j] == prev[j]); }
            }
        }
        proof { lemma_digits_value_nonneg(prev); }
        let dd = (ch as u32 - '0' as u32) as u128;
        if mag >= EXP_CAP / 10 {
            mag = EXP_CAP;
        } else {
            mag = mag * 10 + dd;
        }
        i = i + 1;
    }
    if i == dfrom {
        return None;
    }
    assert(s@.subrange(dfrom as int, i as int) =~= d);
    proof { lemma_digits_value_nonneg(d); }
    Some((neg, mag))
}

/// Reads the mantissa `s[start..k]`: where its integer digits end and its
/// fraction digits begin (they end at `k`).
fn mantissa_at(s: &str, start: usize, k: usize) -> (r: Option<(usize, usize)>)
    requires
        start <= k < s@.len(),
        !is_digit(s@[k as int]),
        s@[k as int] != '.',
    ensures
        r is Some == mantissa_digits(s@.subrange(start as int, k as int)) is Some,
        r matches Some((ie, fs)) ==> {
            &&& start <= ie <= fs <= k
            &&& all_digits(s@.subrange(start as int, ie as int) + s@.subrange(fs as int, k as int))
            &&& mantissa_digits(s@.subrange(start as int, k as int)) == Some((
                s@.subrange(start as int, ie as int) + s@.subrange(fs as int, k as int),
                ie - start,
            ))
        },
{
    let ghost m = s@.subrange(start as int, k as int);
    let (i, _) = scan_digits(s, start);
    if i > k {
        assert(is_digit(s@.subrange(start as int, i as int)[k - start]));
    }
    assert(m.take(i - start) =~= s@.subrange(start as int, i as int));
    if i == k {
        assert(m =~= s@.subrange(start as int, i as int));
        proof {
            lemma_first_dot(m);
            if let Some(d) = first_dot(m) {
                assert(is_digit(m[d]));
            }
        }
        if i == start {
            return None;
        }
        assert(m + s@.subrange(k as int, k as int) =~= m);
        return Some((k, k));
    }
    assert(m[i - start] == s@[i as int]);
    if s.get_char(i) != '.' {
        proof {
            lemma_body_bad_char(m, i - start);
            lemma_mantissa_as_body(m);
        }
        return None;
    }
    proof { lemma_body_point_at(m, i - start); }
    let (j, _) = scan_digits(s, i + 1);
    if j > k {
        assert(is_digit(s@.subrange(i + 1, j as int)[k - i - 1]));
    }
    let ghost fp = m.skip(i - start + 1);
    assert(fp =~= s@.subrange(i + 1, k as int));
    if j != k {
        assert(fp[j - i - 1] == s@[j as int]);
        return None;
    }
    if i == start && j == i + 1 {
        return None;
    }
    let ghost ds = s@.subrange(start as int, i as int) + s@.subrange(i + 1, k as int);
    assert(all_digits(ds)) by {
        assert forall|q: int| 0 <= q < ds.len() implies #[trigger] is_digit(ds[q]) by {
            if q < i - start {
                assert(ds[q] == s@.subrange(start as int, i as int)[q]);
            } else {
                assert(ds[q] == s@.subrange(i + 1, k as int)[q - (i - start)]);
            }
        }
    }
    Some((i, i + 1))
}

/// The value of the first `take` digits of `s[a..b]` followed by `s[c..d]`,
/// or none when it exceeds a `u64`.
fn joined_prefix(s: &str, a: usize, b: usize, c: usize, d: usize, take: usize) -> (r: Option<u64>)
    requires
        a <= b <= s@.len(),
        c <= d <= s@.len(),
        take <= (b - a) + (d - c),
        all_digits(s@.subrange(a as int, b as int) + s@.subrange(c as int, d as int)),
    ensures
        ({
            let ds = s@.subrange(a as int, b as int) + s@.subrange(c as int, d as int);
            match r {
                Some(v) => v == digits_value(ds.take(take as int)),
                None => digits_value(ds.take(take as int)) > u64::MAX,
            }
        }),
{
    let ghost ds = s@.subrange(a as int, b as int) + s@.subrange(c as int, d as int);
    let mut q: usize = 0;
    let mut acc: Option<u64> = Some(0);
    assert(ds.take(0) =~= Seq::<char>::empty());
    while q < take
        invariant
            a <= b <= s@.len(),
            c <= d <= s@.len(),
            take <= (b - a) + (d - c),
            ds == s@.subrange(a as int, b as int) + s@.subrange(c as int, d as int),
            all_digits(ds),
            q <= take,
            match acc {
                Some(v) => v == digits_value(ds.take(q as int)),
                None => digits_value(ds.take(q as int)) > u64::MAX,
            },
        decreases take - q,
    {
        let idx: usize = if q < b - a { a + q } else { c + (q - (b - a)) };
        let ch = s.get_char(idx);
        assert(ch == ds[q as int]);
        assert(is_digit(ds[q as int]));
        assert(ds.take(q + 1).drop_last() =~= ds.take(q as int));
        assert(all_digits(ds.take(q as int))) by {
            assert forall|j: int| 0 <= j < q implies #[trigger] is_digit(ds.take(q as int)[j]) by {
                assert(ds.take(q as int)[j] == ds[j]);
            }
        }
        proof { lemma_digits_value_nonneg(ds.take(q as int)); }
        let dd = (ch as u32 - '0' as u32) as u64;
        acc = match acc {
            Some(v) => {
                if v <= (u64::MAX - dd) / 10 {
                    Some(v * 10 + dd)
                } else {
                    None
                }
            },
            None => None,
        };
        q = q + 1;
    }
    acc
}

/// `v` times `10` to the power `z`, or none when it exceeds a `u64`.
fn times_pow10(v: u64, z: u32) -> (r: Option<u64>)
    requires
        z <= 19,
    ensures
        r == fitting(Some(v * pow10(z as nat))),
{
    let mut acc: Option<u64> = Some(v);
    let mut t: u32 = 0;
    assert(pow10(0) == 1);
    while t < z
        invariant
            t <= z <= 19,
            match acc {
                Some(w) => w == v * pow10(t as nat),
                None => v * pow10(t as nat) > u64::MAX,
            },
        decreases z - t,
    {
        proof {
            let p = pow10(t as nat);
            assert(pow10((t + 1) as nat) == 10 * p);
            lemma_pow10_positive(t as nat);
            assert(v * (10 * p) == 10 * (v * p)) by (nonlinear_arith);
            assert(v * p >= 0) by (nonlinear_arith) requires p >= 1;
        }
        acc = match acc {
            Some(w) => w.checked_mul(10),
            None => None,
        };
        t = t + 1;
    }
    proof {
        lemma_pow10_positive(z as nat);
        assert(v * pow10(z as nat) >= 0) by (nonlinear_arith) requires pow10(z as nat) >= 1;
    }
    acc
}

/// Reads a number `s[start..k]`, an exponent mark at `k`, and an exponent.
#[verifier::spinoff_prover]
fn scientific_at(s: &str, start: usize, k: usize) -> (r: Option<u64>)
    requires
        start <= k < s@.len(),
        is_exp_mark(s@[k as int]),
    ensures
        r == fitting(scientific_micros(s@.subrange(start as int, k as int), s@.subrange(k + 1, s@.len() as int))),
{
    let n = s.unicode_len();
    let ghost m = s@.subrange(start as int, k as int);
    let ghost x = s@.subrange(k + 1, n as int);
    let (ie, fs) = match mantissa_at(s, start, k) {
        Some(p) => p,
        None => return None,
    };
    let (neg, mag) = match exponent_at(s, k + 1) {
        Some(e) => e,
        None => return None,
    };
    let ghost ds = s@.subrange(start as int, ie as int) + s@.subrange(fs as int, k as int);
    let ghost e = exponent_value(x)->0;
    let ghost exact = (ie - start) + e + 6;
    let ds_len: usize = (ie - start) + (k - fs);
    assert(ds.len() == ds_len);
    let int_len = ie - start;
    let point: i128 = if neg { int_len as i128 + 6 - mag as i128 } else { int_len as i128 + 6 + mag as i128 };
    assert(scientific_micros(m, x) == Some(shifted_value(ds, exact)));
    if point <= 0 {
        assert(exact <= point);
        return Some(0);
    }
    assert(!(neg && mag == EXP_CAP));
    if point <= ds_len as i128 {
        assert(exact == point);
        return joined_prefix(s, start, ie, fs, k, point as usize);
    }
    assert(exact >= point);
    let all = joined_prefix(s, start, ie, fs, k, ds_len);
    assert(ds.take(ds_len as int) =~= ds);
    let ghost z_exact: nat = (exact - ds_len) as nat;
    proof {
        lemma_digits_value_nonneg(ds);
        lemma_pow10_positive(z_exact);
    }
    match all {
        None => {
            assert(digits_value(ds) * pow10(z_exact) >= digits_value(ds)) by (nonlinear_arith)
                requires digits_value(ds) >= 0, pow10(z_exact) >= 1;
            None
        },
        Some(v) => {
            if v == 0 {
                assert(0 * pow10(z_exact) == 0);
                return Some(0);
            }
            let z: i128 = point - ds_len as i128;
            if z > 19 {
                proof {
                    lemma_pow10_monotone(20, z_exact);
                    reveal_with_fuel(pow10, 21);
                    assert(v * pow10(z_exact) >= pow10(z_exact)) by (nonlinear_arith)
                        requires v >= 1, pow10(z_exact) >= 1;
                }
                return None;
            }
            assert(z_exact == z);
            times_pow10(v, z as u32)
        },
    }
}

/// Parse a decimal number (`0.55`, `12`, `+3.`, `.5`, `2.5e-1`, `1E3`,
/// `-0.0`) into micro-units. Digits below the sixth fraction digit are
/// dropped. Returns `None` for any other text, for a negative number of at
/// least one micro-unit, and when the value does not fit in a `u64`.
pub fn parse_decimal_micros(s: &str) -> (r: Option<u64>)
    ensures
        r == parsed_micros(s@),
{
    let n = s.unicode_len();
    let negative = n > 0 && s.get_char(0) == '-';
    let start: usize = if n > 0 && (s.get_char(0) == '+' || negative) { 1 } else { 0 };
    let magnitude = parse_unsigned_micros(s, start);
    if negative {
        assert(s@.drop_first() =~= s@.subrange(1, n as int));
        match magnitude {
            Some(v) => if v == 0 { Some(0) } else { None },
            None => None,
        }
    } else {
        assert(unsigned_body(s@) =~= s@.subrange(start as int, n as int));
        magnitude
    }
}

/// Parse the unsigned number `s[start..]` into micro-units.
fn parse_unsigned_micros(s: &str, start: usize) -> (r: Option<u64>)
    requires
        start <= s@.len(),
    ensures
        r == fitting(number_micros(s@.subrange(start as int, s@.len() as int))),
{
    let n = s.unicode_len();
    let ghost b = s@.subrange(start as int, n as int);
    let k = find_exp_mark(s, start);
    proof { lemma_first_exp_mark(b); }
    if k == n {
        assert(first_exp_mark(b) is None) by {
            if let Some(i) = first_exp_mark(b) {
                assert(b[i] == s@[start + i]);
            }
        }
        plain_micros(s, start)
    } else {
        let ghost kk = k - start;
        assert(b[kk] == s@[k as int]);
        assert(first_exp_mark(b) == Some(kk)) by {
            match first_exp_mark(b) {
                Some(i) => {
                    if i < kk { assert(b[i] == s@[start + i]); }
                    if i > kk { assert(!is_exp_mark(b[kk])); }
                },
                None => { assert(!is_exp_mark(b[kk])); },
            }
        }
        assert(b.take(kk) =~= s@.subrange(start as int, k as int));
        assert(b.skip(kk + 1) =~= s@.subrange(k + 1, n as int));
        scientific_at(s, start, k)
    }
}

/// Parse a natural number written `[+]digits`, as `u64::from_str` does.
pub fn parse_u64(s: &str) -> (r: Option<u64>)
    ensures
        r == parsed_u64(s@),
{
    let n = s.unicode_len();
    let start: usize = if n > 0 && s.get_char(0) == '+' { 1 } else { 0 };
    let ghost b = unsigned_body(s@);
    assert(b =~= s@.subrange(start as int, n as int));
    let (i, val) = scan_digits(s, start);
    if i != n {
        assert(!is_digit(b[i - start]));
        return None;
    }
    assert(s@.subrange(start as int, i as int) =~= b);
    if i == start {
        return None;
    }
    val
}

/// The value `bool::from_str` gives: `true` and `false` exactly.
pub open spec fn parsed_bool(s: Seq<char>) -> Option<bool> {
    if s == "true"@ {
        Some(true)
    } else if s == "false"@ {
        Some(false)
    } else {
        None
    }
}

/// Parse `true` or `false`, as `bool::from_str` does.
pub fn parse_bool(s: &str) -> (r: Option<bool>)
    ensures
        r == parsed_bool(s@),
{
    if str_equal(s, "true") {
        Some(true)
    } else if str_equal(s, "false") {
        Some(false)
    } else {
        None
    }
}

/// The character of a decimal digit `d` (0 to 9).
pub open spec fn digit_char(d: int) -> char {
    (d + 48) as char
}

/// Decimal digits of a natural number, without leading zeros.
pub open spec fn nat_decimal(n: nat) -> Seq<char>
    decreases n,
{
    if n < 10 {
        seq![digit_char(n as int)]
    } else {
        nat_decimal(n / 10).push(digit_char((n % 10) as int))
    }
}

/// Decimal text of an integer, with `-` before a negative one.
pub open spec fn int_decimal(v: int) -> Seq<char> {
    if v < 0 {
        seq!['-'] + nat_decimal((-v) as nat)
    } else {
        nat_decimal(v as nat)
    }
}

fn digit_to_char(d: u64) -> (c: char)
    requires
        d < 10,
    ensures
        c == digit_char(d as int),
{
    ((d as u8) + 48u8) as char
}

fn nat_digits(n: u64) -> (v: Vec<char>)
    ensures
        v@ == nat_decimal(n as nat),
    decreases n,
{
    if n < 10 {
        let mut v = Vec::new();
        v.push(digit_to_char(n));
        assert(v@ =~= nat_decimal(n as nat));
        v
    } else {
        let mut v = nat_digits(n / 10);
        v.push(digit_to_char(n % 10));
        v
    }
}

/// Appends one character (`String::push` of std): the string then holds its
/// old characters followed by `c`.
#[verifier::external_body]
fn push_char(s: &mut String, c: char)
    ensures
        final(s)@ == old(s)@.push(c),
{
    s.push(c);
}

/// Append every character of `chars` to `s`.
fn push_all(s: &mut String, chars: &Vec<char>)
    ensures
        final(s)@ == old(s)@ + chars@,
{
    let ghost start = s@;
    let n = chars.len();
    for i in 0..n
        invariant
            n == chars@.len(),
            s@ == start + chars@.take(i as int),
    {
        push_char(s, chars[i]);
        assert(chars@.take(i + 1) =~= chars@.take(i as int).push(chars@[i as int]));
    }
    assert(chars@.take(n as int) =~= chars@);
}

/// Decimal text of an `i64`, as its `Display` writes it.
pub fn i64_to_decimal(v: i64) -> (s: String)
    ensures
        s@ == int_decimal(v as int),
{
    let mut out = String::new();
    let magnitude: u64 = if v < 0 {
        push_char(&mut out, '-');
        (0i128 - v as i128) as u64
    } else {
        v as u64
    };
    let digits = nat_digits(magnitude);
    push_all(&mut out, &digits);
    assert(out@ =~= int_decimal(v as int));
    out
}

} // verus!
