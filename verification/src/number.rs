//! Exact non-negative decimals: the numeric floors and metrics of
//! queries, expectations and registry rows.
//!
//! A decimal is a mantissa over a power of ten (`mantissa / 10^scale`),
//! so the literal `0.4` is held as exactly 4/10 and comparisons between
//! floors and measured values are exact.

use vstd::prelude::*;
use crate::text::{int_text, nat_text, push_char, push_u128, digit_char};

verus! {

/// The largest number of fraction digits a decimal carries.
pub const MAX_SCALE: u32 = 19;

/// `mantissa / 10^scale`, with `scale <= MAX_SCALE`.
#[derive(Clone, Copy, Debug)]
pub struct Decimal {
    mantissa: u64,
    scale: u32,
}

/// 10 to the power `n`.
pub open spec fn pow10(n: nat) -> nat
    decreases n,
{
    if n == 0 {
        1
    } else {
        10 * pow10((n - 1) as nat)
    }
}

/// Whether `c` is one of `0`..`9`.
pub open spec fn is_digit(c: char) -> bool {
    '0' <= c && c <= '9'
}

/// The value of the decimal digits `s`, most significant first.
pub open spec fn digits_value(s: Seq<char>) -> nat
    decreases s.len(),
{
    if s.len() == 0 {
        0
    } else {
        digits_value(s.drop_last()) * 10 + ((s.last() as int - 48) as nat)
    }
}

/// Whether every character of `s` is a decimal digit.
pub open spec fn all_digits(s: Seq<char>) -> bool {
    forall|i: int| 0 <= i < s.len() ==> is_digit(#[trigger] s[i])
}

/// The index of the first `c` in `s` (its length when there is none).
pub open spec fn first_index(s: Seq<char>, c: char) -> int
    decreases s.len(),
{
    if s.len() == 0 {
        0
    } else if s[0] == c {
        0
    } else {
        1 + first_index(s.drop_first(), c)
    }
}

/// The number of `.` characters in `s`.
pub open spec fn dot_count(s: Seq<char>) -> nat
    decreases s.len(),
{
    if s.len() == 0 {
        0
    } else {
        dot_count(s.drop_last()) + if s.last() == '.' { 1nat } else { 0nat }
    }
}

/// The `width` low decimal digits of `n`, zero-padded.
pub open spec fn padded_digits(n: nat, width: nat) -> Seq<char>
    decreases width,
{
    if width == 0 {
        seq![]
    } else {
        padded_digits(n / 10, (width - 1) as nat).push(digit_char(n % 10))
    }
}

/// `s` without its trailing zeros, keeping its first character.
pub open spec fn trim_zeros_keep_one(s: Seq<char>) -> Seq<char>
    decreases s.len(),
{
    if s.len() > 1 && s.last() == '0' {
        trim_zeros_keep_one(s.drop_last())
    } else {
        s
    }
}

/// `s` without its trailing zeros.
pub open spec fn trim_zeros(s: Seq<char>) -> Seq<char>
    decreases s.len(),
{
    if s.len() > 0 && s.last() == '0' {
        trim_zeros(s.drop_last())
    } else {
        s
    }
}

impl View for Decimal {
    type V = Decimal;

    open spec fn view(&self) -> Decimal {
        *self
    }
}

impl Decimal {
    #[verifier::type_invariant]
    spec fn inv(self) -> bool {
        self.scale <= MAX_SCALE
    }

    /// The mantissa.
    pub closed spec fn mantissa(self) -> nat {
        self.mantissa as nat
    }

    /// The number of fraction digits.
    pub closed spec fn scale(self) -> nat {
        self.scale as nat
    }

    /// The decimal `mantissa / 10^scale`, if `scale` is at most `MAX_SCALE`.
    pub closed spec fn spec_new(mantissa: u64, scale: u32) -> Option<Decimal> {
        if scale <= MAX_SCALE {
            Some(Decimal { mantissa, scale })
        } else {
            None
        }
    }

    /// The decimal `mantissa / 10^scale`; `None` when `scale` exceeds
    /// `MAX_SCALE`.
    pub fn new(mantissa: u64, scale: u32) -> (r: Option<Decimal>)
        ensures
            r == Decimal::spec_new(mantissa, scale),
            r matches Some(d) ==> d.mantissa() == mantissa && d.scale() == scale,
    {
        if scale <= MAX_SCALE {
            Some(Decimal { mantissa, scale })
        } else {
            None
        }
    }

    /// The whole number `v`.
    pub closed spec fn spec_from_int(v: u64) -> Decimal {
        Decimal { mantissa: v, scale: 0 }
    }

    /// The whole number `v`.
    pub fn from_int(v: u64) -> (r: Decimal)
        ensures
            r == Decimal::spec_from_int(v),
            r.mantissa() == v && r.scale() == 0,
    {
        Decimal { mantissa: v, scale: 0 }
    }

    /// Zero.
    pub fn zero() -> (r: Decimal)
        ensures
            r == Decimal::spec_from_int(0),
            r.mantissa() == 0,
    {
        Decimal { mantissa: 0, scale: 0 }
    }

    /// Whether `self >= other` as rational numbers.
    pub open spec fn spec_ge(self, other: Decimal) -> bool {
        self.mantissa() * pow10(other.scale()) >= other.mantissa() * pow10(self.scale())
    }

    /// Whether `self > 0`.
    pub open spec fn is_positive(self) -> bool {
        self.mantissa() > 0
    }

    /// The whole part.
    pub open spec fn whole(self) -> nat {
        self.mantissa() / pow10(self.scale())
    }

    /// The fraction digits, without trailing zeros.
    pub open spec fn fraction_digits(self) -> Seq<char> {
        trim_zeros(padded_digits(self.mantissa() % pow10(self.scale()), self.scale()))
    }

    /// The text `{}` shows for this number: the whole part, then a point
    /// and the fraction digits when there are any.
    pub open spec fn display(self) -> Seq<char> {
        if self.fraction_digits().len() == 0 {
            nat_text(self.whole())
        } else {
            nat_text(self.whole()) + seq!['.'] + self.fraction_digits()
        }
    }

    /// Whether `{:?}` shows this number in exponent form: it is nonzero
    /// and below 1e-4, or at least 1e16.
    pub open spec fn shows_exponent(self) -> bool {
        self.mantissa() > 0 && (self.mantissa() * 10000 < pow10(self.scale())
            || self.whole() >= 10_000_000_000_000_000)
    }

    /// The exponent form of this number: its significant digits, with a
    /// point after the first when there are more, then `e` and the
    /// power of ten.
    pub open spec fn exponent_form(self) -> Seq<char> {
        let digits = nat_text(self.mantissa());
        let sig = trim_zeros_keep_one(digits);
        let lead = if sig.len() > 1 { seq![sig[0], '.'] + sig.skip(1) } else { sig };
        lead + seq!['e'] + int_text(digits.len() - 1 - self.scale())
    }

    /// The text `{:?}` shows for this number: the exponent form below
    /// 1e-4 or from 1e16 on; otherwise as `display`, with `.0` when there
    /// is no fraction.
    pub open spec fn debug(self) -> Seq<char> {
        if self.shows_exponent() {
            self.exponent_form()
        } else {
            self.plain_debug()
        }
    }

    /// The positional text `{:?}` shows: as `display`, with `.0` when
    /// there is no fraction.
    pub open spec fn plain_debug(self) -> Seq<char> {
        if self.fraction_digits().len() == 0 {
            nat_text(self.whole()) + ".0"@
        } else {
            self.display()
        }
    }

    /// The evidence level this number names: a whole number from 0 to 8.
    pub open spec fn evidence_level(self) -> Option<u8> {
        if self.mantissa() % pow10(self.scale()) == 0 && self.whole() <= 8 {
            Some(self.whole() as u8)
        } else {
            None
        }
    }
}

/// The decimal the literal `s` (digits with at most one `.`) denotes:
/// the digits without the point form the mantissa, and the digits after
/// the point count the scale. `None` when it has more than one point,
/// is not made of digits, or does not fit (a mantissa over `u64::MAX` or
/// more than `MAX_SCALE` fraction digits).
pub open spec fn decimal_of_text(s: Seq<char>) -> Option<Decimal> {
    if dot_count(s) == 0 && s.len() > 0 && all_digits(s) && digits_value(s) <= u64::MAX {
        Decimal::spec_new(digits_value(s) as u64, 0)
    } else if dot_count(s) == 1 {
        let p = first_index(s, '.');
        let digits = s.take(p) + s.skip(p + 1);
        if digits.len() > 0 && all_digits(digits) && digits_value(digits) <= u64::MAX
            && s.len() - p - 1 <= MAX_SCALE {
            Decimal::spec_new(digits_value(digits) as u64, (s.len() - p - 1) as u32)
        } else {
            None
        }
    } else {
        None
    }
}

proof fn lemma_pow10_pos(i: nat)
    ensures
        1 <= pow10(i),
    decreases i,
{
    if i > 0 {
        lemma_pow10_pos((i - 1) as nat);
    }
}

proof fn lemma_cross_le_trans(am: int, bm: int, cm: int, pa: int, pb: int, pc: int)
    by (nonlinear_arith)
    requires
        pa > 0,
        pb > 0,
        pc > 0,
        am * pb >= bm * pa,
        bm * pc >= cm * pb,
    ensures
        am * pc >= cm * pa,
{
    assert(am * pb * pc >= bm * pa * pc);
    assert(bm * pc * pa >= cm * pb * pa);
    assert(am * pc * pb >= cm * pa * pb);
}

/// Comparison of decimals is total: of any two, one is at least the
/// other.
pub proof fn lemma_ge_total(a: Decimal, b: Decimal)
    ensures
        a.spec_ge(b) || b.spec_ge(a),
{
}

/// Comparison of decimals is transitive.
pub proof fn lemma_ge_trans(a: Decimal, b: Decimal, c: Decimal)
    requires
        a.spec_ge(b),
        b.spec_ge(c),
    ensures
        a.spec_ge(c),
{
    lemma_pow10_pos(a.scale());
    lemma_pow10_pos(b.scale());
    lemma_pow10_pos(c.scale());
    lemma_cross_le_trans(
        a.mantissa() as int,
        b.mantissa() as int,
        c.mantissa() as int,
        pow10(a.scale()) as int,
        pow10(b.scale()) as int,
        pow10(c.scale()) as int,
    );
}

proof fn lemma_pow10_mono(i: nat, j: nat)
    requires
        i <= j,
    ensures
        1 <= pow10(i) <= pow10(j),
    decreases j,
{
    lemma_pow10_pos(i);
    if j > i {
        lemma_pow10_mono(i, (j - 1) as nat);
    }
}

pub proof fn lemma_first_index(s: Seq<char>, c: char, k: int)
    requires
        0 <= k < s.len(),
        s[k] == c,
        forall|j: int| 0 <= j < k ==> s[j] != c,
    ensures
        first_index(s, c) == k,
    decreases k,
{
    if k > 0 {
        lemma_first_index(s.drop_first(), c, k - 1);
    }
}

pub proof fn lemma_dot_count_zero(t: Seq<char>)
    ensures
        dot_count(t) == 0 <==> forall|j: int| 0 <= j < t.len() ==> t[j] != '.',
    decreases t.len(),
{
    if t.len() > 0 {
        lemma_dot_count_zero(t.drop_last());
        if dot_count(t) == 0 {
            assert forall|j: int| 0 <= j < t.len() implies t[j] != '.' by {
                if j < t.len() - 1 {
                    assert(t[j] == t.drop_last()[j]);
                }
            }
        }
    }
}

proof fn lemma_pow10_max()
    ensures
        pow10(19) == 10_000_000_000_000_000_000,
{
    reveal_with_fuel(pow10, 20);
}

proof fn lemma_pow10_20()
    ensures
        pow10(20) == 100_000_000_000_000_000_000,
{
    reveal_with_fuel(pow10, 21);
}

proof fn lemma_nat_text_len(n: nat, k: nat)
    requires
        k >= 1,
        n < pow10(k),
    ensures
        1 <= nat_text(n).len() <= k,
    decreases k,
{
    if n >= 10 {
        assert(k >= 2) by {
            if k == 1 {
                assert(pow10(1) == 10) by {
                    reveal_with_fuel(pow10, 2);
                }
            }
        }
        let k1 = (k - 1) as nat;
        assert(pow10(k) == 10 * pow10(k1));
        assert(n / 10 < pow10(k1)) by (nonlinear_arith)
            requires
                n < 10 * pow10(k1),
        ;
        lemma_nat_text_len(n / 10, k1);
    }
}

/// The digits `digits` trimmed of trailing zeros but the first, with a
/// point after the first when more remain.
fn significant_text(digits: &Vec<char>) -> (r: String)
    requires
        digits@.len() >= 1,
    ensures
        r@ == ({
            let sig = trim_zeros_keep_one(digits@);
            if sig.len() > 1 { seq![sig[0], '.'] + sig.skip(1) } else { sig }
        }),
{
    let ghost ds = digits@;
    let mut end = digits.len();
    assert(ds.take(end as int) == ds);
    while end > 1 && digits[end - 1] == '0'
        invariant
            1 <= end <= ds.len(),
            ds == digits@,
            trim_zeros_keep_one(ds) == trim_zeros_keep_one(ds.take(end as int)),
        decreases end,
    {
        assert(ds.take(end as int).drop_last() == ds.take(end - 1));
        end = end - 1;
    }
    let ghost sig = ds.take(end as int);
    assert(trim_zeros_keep_one(sig) == sig);
    let mut s = String::new();
    push_char(&mut s, digits[0]);
    if end > 1 {
        push_char(&mut s, '.');
        let rest = crate::text::string_of(digits, 1, end);
        s.append(rest.as_str());
        assert(sig.skip(1) == ds.subrange(1, end as int));
    } else {
        assert(sig == seq![ds[0]]);
    }
    s
}

fn pow10_exec(n: u32) -> (p: u128)
    requires
        n <= MAX_SCALE,
    ensures
        p == pow10(n as nat),
        1 <= p <= 10_000_000_000_000_000_000,
{
    let mut p: u128 = 1;
    let mut i: u32 = 0;
    while i < n
        invariant
            i <= n <= MAX_SCALE,
            p == pow10(i as nat),
        decreases n - i,
    {
        proof {
            lemma_pow10_mono(i as nat, 18);
            reveal_with_fuel(pow10, 20);
        }
        p = p * 10;
        i = i + 1;
    }
    proof {
        lemma_pow10_mono(n as nat, 19);
        lemma_pow10_max();
    }
    p
}

pub proof fn lemma_digits_value_prefix(s: Seq<char>, i: int)
    requires
        0 <= i <= s.len(),
    ensures
        digits_value(s.take(i)) <= digits_value(s),
    decreases s.len(),
{
    if i < s.len() {
        assert(s.drop_last().take(i) == s.take(i));
        lemma_digits_value_prefix(s.drop_last(), i);
    } else {
        assert(s.take(i) == s);
    }
}

proof fn lemma_dot_count_prefix(s: Seq<char>, i: int)
    requires
        0 <= i <= s.len(),
    ensures
        dot_count(s.take(i)) <= dot_count(s),
        dot_count(s.take(i)) == 0 <==> forall|j: int| 0 <= j < i ==> s[j] != '.',
    decreases s.len(),
{
    lemma_dot_count_zero(s.take(i));
    assert((forall|j: int| 0 <= j < i ==> s[j] != '.') <==> (forall|j: int|
        0 <= j < s.take(i).len() ==> #[trigger] s.take(i)[j] != '.')) by {
        assert forall|j: int| 0 <= j < i implies s.take(i)[j] == s[j] by {}
    }
    if i < s.len() {
        assert(s.drop_last().take(i) == s.take(i));
        lemma_dot_count_prefix(s.drop_last(), i);
    } else {
        assert(s.take(i) == s);
        if s.len() > 0 {
            lemma_dot_count_prefix(s.drop_last(), i - 1);
            assert(s.drop_last().take(i - 1) == s.drop_last());
        }
    }
}

impl Decimal {
    /// Reads a numeric literal: digits with at most one `.`. `None` exactly
    /// when `decimal_of_text` has none.
    pub fn parse(text: &str) -> (r: Option<Decimal>)
        ensures
            r == decimal_of_text(text@),
    {
        let chars = crate::text::chars_of(text);
        assert(chars@.subrange(0, chars@.len() as int) == text@);
        Decimal::from_chars(&chars, 0, chars.len())
    }

    /// Reads the numeric literal `v[from..to]`, as `parse` does.
    pub fn from_chars(v: &Vec<char>, from: usize, to: usize) -> (r: Option<Decimal>)
        requires
            from <= to <= v@.len(),
        ensures
            r == decimal_of_text(v@.subrange(from as int, to as int)),
    {
        let ghost s = v@.subrange(from as int, to as int);
        // One pass: accumulate the digits, note the point.
        let mut acc: u64 = 0;
        let mut dots: usize = 0;
        let mut point: usize = 0;
        let mut ok = true;
        let mut i = from;
        let ghost mut digits: Seq<char> = seq![];
        while i < to
            invariant
                from <= i <= to <= v@.len(),
                s == v@.subrange(from as int, to as int),
                dots == dot_count(s.take(i - from)),
                dots <= i - from,
                dots == 0 ==> digits == s.take(i - from),
                dots >= 1 ==> from <= point < i && point - from == first_index(s, '.'),
                dots == 1 ==> digits == s.take(point - from) + s.subrange(point - from + 1, i - from),
                ok ==> all_digits(digits) && acc == digits_value(digits),
                !ok ==> (dots <= 1 ==> !(all_digits(digits) && digits_value(digits) <= u64::MAX)),
            decreases to - i,
        {
            let c = v[i];
            assert(s.take(i - from + 1).drop_last() == s.take(i - from));
            if c == '.' {
                if dots == 0 {
                    point = i;
                    proof {
                        lemma_dot_count_prefix(s, i - from);
                        assert(s[i - from] == '.');
                        lemma_first_index(s, '.', i - from);
                    }
                }
                dots = dots + 1;
            } else {
                let ghost old_digits = digits;
                proof {
                    digits = digits.push(c);
                    assert(digits.drop_last() == old_digits);
                }
                if ok {
                    if '0' <= c && c <= '9' {
                        let d = (c as u32 - 48) as u64;
                        match acc.checked_mul(10) {
                            Some(a) => match a.checked_add(d) {
                                Some(b) => { acc = b; },
                                None => { ok = false; },
                            },
                            None => { ok = false; },
                        }
                        if !ok {
                            assert(digits_value(digits) > u64::MAX);
                        }
                    } else {
                        ok = false;
                        assert(!is_digit(digits[digits.len() - 1]));
                    }
                } else {
                    proof {
                        if all_digits(digits) && digits_value(digits) <= u64::MAX {
                            assert(all_digits(old_digits));
                            assert(digits.take(old_digits.len() as int) == old_digits);
                            lemma_digits_value_prefix(digits, old_digits.len() as int);
                        }
                    }
                }
            }
            i = i + 1;
        }
        assert(s.take(s.len() as int) == s);
        if !ok || dots > 1 {
            return None;
        }
        if dots == 0 {
            if to == from {
                return None;
            }
            return Some(Decimal { mantissa: acc, scale: 0 });
        }
        let frac = to - point - 1;
        if to - from == 1 || frac > 19 {
            return None;
        }
        assert(s.subrange(point - from + 1, s.len() as int) == s.skip(point - from + 1));
        Some(Decimal { mantissa: acc, scale: frac as u32 })
    }
}


fn push_padded(s: &mut String, n: u128, width: u32)
    requires
        width <= MAX_SCALE,
    ensures
        final(s)@ == old(s)@ + padded_digits(n as nat, width as nat),
    decreases width,
{
    if width > 0 {
        push_padded(s, n / 10, width - 1);
        let d = (n % 10) as u8;
        push_char(s, (48u8 + d) as char);
        assert(digit_char((n % 10) as nat) == (48u8 + d) as char);
    }
}

proof fn lemma_trim_zeros_step(s: Seq<char>)
    requires
        s.len() > 0,
        s.last() == '0',
    ensures
        trim_zeros(s) == trim_zeros(s.drop_last()),
{
}

impl Decimal {
    /// Whether `self >= other`, exactly.
    pub fn ge(&self, other: &Decimal) -> (r: bool)
        ensures
            r == self.spec_ge(*other),
    {
        proof {
            use_type_invariant(self);
            use_type_invariant(other);
        }
        let pa = pow10_exec(self.scale);
        let pb = pow10_exec(other.scale);
        let a = self.mantissa as u128;
        let b = other.mantissa as u128;
        assert(a * pb <= 18446744073709551615u128 * 10_000_000_000_000_000_000u128) by (nonlinear_arith)
            requires a <= 18446744073709551615u128, pb <= 10_000_000_000_000_000_000u128;
        assert(b * pa <= 18446744073709551615u128 * 10_000_000_000_000_000_000u128) by (nonlinear_arith)
            requires b <= 18446744073709551615u128, pa <= 10_000_000_000_000_000_000u128;
        a * pb >= b * pa
    }

    /// Whether `self > 0`.
    pub fn positive(&self) -> (r: bool)
        ensures
            r == self.is_positive(),
    {
        self.mantissa > 0
    }

    /// The evidence level this number names, when it is a whole number
    /// from 0 to 8.
    pub fn to_evidence_level(&self) -> (r: Option<u8>)
        ensures
            r == self.evidence_level(),
    {
        proof {
            use_type_invariant(self);
        }
        let p = pow10_exec(self.scale);
        let m = self.mantissa as u128;
        if m % p == 0 && m / p <= 8 {
            Some((m / p) as u8)
        } else {
            None
        }
    }

    /// Appends `self.display()` to `s`; also `.0` when `debug` and the
    /// number has no fraction.
    fn push_text(&self, s: &mut String, debug: bool)
        ensures
            final(s)@ == old(s)@ + (if debug { self.plain_debug() } else { self.display() }),
    {
        proof {
            use_type_invariant(self);
        }
        let p = pow10_exec(self.scale);
        let m = self.mantissa as u128;
        push_u128(s, m / p);
        let mut frac = String::new();
        push_padded(&mut frac, m % p, self.scale);
        let digits = crate::text::chars_of(frac.as_str());
        let mut end = digits.len();
        assert(digits@.take(end as int) == digits@);
        while end > 0 && digits[end - 1] == '0'
            invariant
                end <= digits@.len(),
                trim_zeros(digits@) == trim_zeros(digits@.take(end as int)),
            decreases end,
        {
            proof {
                lemma_trim_zeros_step(digits@.take(end as int));
                assert(digits@.take(end as int).drop_last() == digits@.take(end - 1));
            }
            end = end - 1;
        }
        assert(trim_zeros(digits@.take(end as int)) == digits@.take(end as int));
        assert(digits@.subrange(0, end as int) == digits@.take(end as int));
        if end == 0 {
            if debug {
                s.append(".0");
            }
        } else {
            push_char(s, '.');
            let f = crate::text::string_of(&digits, 0, end);
            s.append(f.as_str());
        }
    }

    /// The text `{}` shows for this number (`display`).
    pub fn to_text(&self) -> (r: String)
        ensures
            r@ == self.display(),
    {
        let mut s = String::new();
        self.push_text(&mut s, false);
        s
    }

    /// The text `{:?}` shows for this number (`debug`).
    pub fn to_debug_text(&self) -> (r: String)
        ensures
            r@ == self.debug(),
    {
        proof {
            use_type_invariant(self);
        }
        let p = pow10_exec(self.scale);
        let m = self.mantissa as u128;
        if m > 0 && (m * 10000 < p || m / p >= 10_000_000_000_000_000) {
            self.exponent_text()
        } else {
            let mut s = String::new();
            self.push_text(&mut s, true);
            s
        }
    }

    /// The exponent form of this number (`exponent_form`).
    fn exponent_text(&self) -> (r: String)
        ensures
            r@ == self.exponent_form(),
    {
        proof {
            use_type_invariant(self);
            lemma_pow10_20();
            assert(self.mantissa() < pow10(20));
            lemma_nat_text_len(self.mantissa(), 20);
        }
        let mut t = String::new();
        push_u128(&mut t, self.mantissa as u128);
        let digits = crate::text::chars_of(t.as_str());
        assert(digits@ == nat_text(self.mantissa()));
        let mut s = significant_text(&digits);
        push_char(&mut s, 'e');
        let e: i64 = (digits.len() as i64) - 1 - (self.scale as i64);
        let et = crate::text::i64_text(e);
        s.append(et.as_str());
        s
    }
}

} // verus!
