//! Reading the time that a script asks to wait.
//!
//! Numbers reach the kernel as text, in Lua's own writing: digits, then
//! perhaps a point and more digits, then perhaps an exponent. The kernel
//! counts time in milliseconds, so the number of seconds that the text
//! writes is turned into milliseconds, rounded up where the text is finer
//! than that: a script never waits less than it asked for.

use vstd::prelude::*;

verus! {

/// Whether `c` is a decimal digit.
pub open spec fn is_digit(c: char) -> bool {
    '0' <= c && c <= '9'
}

/// The value of the decimal digit `c`.
pub open spec fn digit_value(c: char) -> nat {
    (c as nat - '0' as nat) as nat
}

/// The number that the digits of `s` write in base ten.
pub open spec fn digits_value(s: Seq<char>) -> nat
    decreases s.len(),
{
    if s.len() == 0 {
        0
    } else {
        10 * digits_value(s.drop_last()) + digit_value(s.last())
    }
}

/// How many digits `s` begins with.
pub open spec fn leading_digits(s: Seq<char>) -> int
    decreases s.len(),
{
    if s.len() > 0 && is_digit(s[0]) {
        1 + leading_digits(s.drop_first())
    } else {
        0
    }
}

/// `m` made ten times as large, `k` times over.
pub open spec fn times_ten(m: nat, k: nat) -> nat
    decreases k,
{
    if k == 0 {
        m
    } else {
        times_ten(m * 10, (k - 1) as nat)
    }
}

/// `m` cut down to a tenth, rounded up, `k` times over.
pub open spec fn tenth_up(m: nat, k: nat) -> nat
    decreases k,
{
    if k == 0 {
        m
    } else {
        tenth_up((m + 9) / 10, (k - 1) as nat)
    }
}

/// Ten to the power `k`.
pub open spec fn power_of_ten(k: nat) -> nat
    decreases k,
{
    if k == 0 {
        1
    } else {
        10 * power_of_ten((k - 1) as nat)
    }
}

/// The largest exponent that is read.
pub const LARGEST_EXPONENT: u64 = 999;

/// A number as it is written: the digits before and behind the point,
/// and the exponent of ten.
pub struct Written {
    /// The digits before the point followed by those behind it.
    pub mantissa: Seq<char>,
    /// How many of the digits stand behind the point.
    pub decimals: nat,
    /// Whether the exponent has a minus sign.
    pub negative: bool,
    /// The digits of the exponent; empty where there is none.
    pub exponent: Seq<char>,
}

/// Whether `s` has a point behind its leading digits.
pub open spec fn pointed(s: Seq<char>) -> bool {
    let a = leading_digits(s);
    a < s.len() && s[a] == '.'
}

/// How many digits `s` has behind its point; none where it has no
/// point.
pub open spec fn decimals_of(s: Seq<char>) -> int {
    if pointed(s) {
        leading_digits(s.skip(leading_digits(s) + 1))
    } else {
        0
    }
}

/// The place behind the mantissa of `s`: behind its leading digits, its
/// point if it has one, and the digits behind the point.
pub open spec fn mantissa_end(s: Seq<char>) -> int {
    if pointed(s) {
        leading_digits(s) + 1 + decimals_of(s)
    } else {
        leading_digits(s)
    }
}

/// The digits of the mantissa of `s`: those before the point followed by
/// those behind it.
pub open spec fn mantissa_of(s: Seq<char>) -> Seq<char> {
    let a = leading_digits(s);
    s.take(a) + s.subrange(mantissa_end(s) - decimals_of(s), mantissa_end(s))
}

/// The sign and the digits of the exponent that `t` writes, if it is
/// what may follow a mantissa: nothing; or `e` or `E`, perhaps a sign,
/// and at least one digit up to the end.
pub open spec fn exponent_of(t: Seq<char>) -> Option<(bool, Seq<char>)> {
    if t.len() == 0 {
        Some((false, Seq::empty()))
    } else if t[0] == 'e' || t[0] == 'E' {
        let signed = t.len() > 1 && (t[1] == '-' || t[1] == '+');
        let digits = if signed {
            t.skip(2)
        } else {
            t.skip(1)
        };
        if digits.len() > 0 && leading_digits(digits) == digits.len() {
            Some((t.len() > 1 && t[1] == '-', digits))
        } else {
            None
        }
    } else {
        None
    }
}

/// The parts of the number that `s` writes, if it writes one: digits,
/// then perhaps a point and digits, at least one digit in all; then
/// perhaps `e` or `E`, perhaps a sign, and at least one digit. Anything
/// else, a sign in front or a blank among it, writes no number.
pub open spec fn written(s: Seq<char>) -> Option<Written> {
    if mantissa_of(s).len() == 0 {
        None
    } else {
        match exponent_of(s.skip(mantissa_end(s))) {
            Some((negative, exponent)) => Some(
                Written {
                    mantissa: mantissa_of(s),
                    decimals: decimals_of(s) as nat,
                    negative,
                    exponent,
                },
            ),
            None => None,
        }
    }
}

impl Written {
    /// How often the mantissa is to be made ten times as large to give
    /// milliseconds: three times for the milliseconds in a second, and
    /// once more for every power of ten in a positive exponent.
    pub open spec fn up(self) -> nat {
        if self.negative {
            3
        } else {
            3 + digits_value(self.exponent)
        }
    }

    /// How often the mantissa is to be cut down to a tenth: once for
    /// every digit behind the point, and once more for every power of ten
    /// in a negative exponent.
    pub open spec fn down(self) -> nat {
        if self.negative {
            self.decimals + digits_value(self.exponent)
        } else {
            self.decimals
        }
    }

    /// The milliseconds in the seconds that are written, rounded up.
    pub open spec fn millis(self) -> nat {
        let m = digits_value(self.mantissa);
        if self.up() >= self.down() {
            times_ten(m, (self.up() - self.down()) as nat)
        } else {
            tenth_up(m, (self.down() - self.up()) as nat)
        }
    }
}

/// The milliseconds in the seconds that `s` writes, rounded up to a whole
/// millisecond, if `s` writes a number that can be read: its mantissa and
/// the milliseconds fit in sixty-four bits, and its exponent is not
/// beyond `LARGEST_EXPONENT`.
pub open spec fn millis_written(s: Seq<char>) -> Option<nat> {
    match written(s) {
        Some(w) => if digits_value(w.mantissa) <= u64::MAX && digits_value(w.exponent)
            <= LARGEST_EXPONENT && w.millis() <= u64::MAX {
            Some(w.millis())
        } else {
            None
        },
        None => None,
    }
}

/// The place found by scanning digits from the front is
/// `leading_digits`.
proof fn lemma_leading_digits(s: Seq<char>, i: int)
    requires
        0 <= i <= s.len(),
        forall|j: int| 0 <= j < i ==> is_digit(s[j]),
        i == s.len() || !is_digit(s[i]),
    ensures
        leading_digits(s) == i,
    decreases i,
{
    if i > 0 {
        let rest = s.drop_first();
        assert forall|j: int| 0 <= j < i - 1 implies is_digit(rest[j]) by {
            assert(rest[j] == s[j + 1]);
        }
        if i < s.len() {
            assert(rest[i - 1] == s[i]);
        }
        lemma_leading_digits(rest, i - 1);
    }
}

/// `leading_digits` reaches at least as far as the digits go, and no
/// further than the text.
proof fn lemma_leading_digits_reach(s: Seq<char>, i: int)
    requires
        0 <= i <= s.len(),
        forall|j: int| 0 <= j < i ==> is_digit(s[j]),
    ensures
        i <= leading_digits(s) <= s.len(),
    decreases s.len(),
{
    if s.len() > 0 && is_digit(s[0]) {
        let rest = s.drop_first();
        if i > 0 {
            assert forall|j: int| 0 <= j < i - 1 implies is_digit(rest[j]) by {
                assert(rest[j] == s[j + 1]);
            }
            lemma_leading_digits_reach(rest, i - 1);
        } else {
            lemma_leading_digits_reach(rest, 0);
        }
    }
}

/// More digits never write a smaller number.
proof fn lemma_digits_grow(s: Seq<char>, i: int, n: int)
    requires
        0 <= i <= n <= s.len(),
    ensures
        digits_value(s.take(i)) <= digits_value(s.take(n)),
    decreases n - i,
{
    if i < n {
        lemma_digits_grow(s, i + 1, n);
        assert(s.take(i + 1).drop_last() =~= s.take(i));
    }
}

/// Making a number ten times as large, however often, makes it no
/// smaller; doing so at least once makes it at least ten times as large.
proof fn lemma_times_ten_grows(m: nat, k: nat)
    ensures
        times_ten(m, k) >= m,
        k > 0 ==> times_ten(m, k) >= m * 10,
        m == 0 ==> times_ten(m, k) == 0,
    decreases k,
{
    if k > 0 {
        lemma_times_ten_grows(m * 10, (k - 1) as nat);
    }
}

/// Powers of ten are positive.
proof fn lemma_power_of_ten_is_positive(k: nat)
    ensures
        power_of_ten(k) > 0,
    decreases k,
{
    if k > 0 {
        lemma_power_of_ten_is_positive((k - 1) as nat);
    }
}

/// The exponents of powers of ten add up.
proof fn lemma_power_of_ten_adds(a: nat, b: nat)
    ensures
        power_of_ten(a + b) == power_of_ten(a) * power_of_ten(b),
    decreases a,
{
    if a > 0 {
        let less = (a - 1) as nat;
        lemma_power_of_ten_adds(less, b);
        assert(power_of_ten(a + b) == 10 * power_of_ten(less + b));
        assert(10 * (power_of_ten(less) * power_of_ten(b)) == (10 * power_of_ten(less))
            * power_of_ten(b)) by (nonlinear_arith);
    } else {
        assert(1 * power_of_ten(b) == power_of_ten(b));
    }
}

/// `times_ten` multiplies by a power of ten.
proof fn lemma_times_ten_is_a_product(m: nat, k: nat)
    ensures
        times_ten(m, k) == m * power_of_ten(k),
    decreases k,
{
    if k > 0 {
        let less = (k - 1) as nat;
        lemma_times_ten_is_a_product(m * 10, less);
        assert(power_of_ten(k) == 10 * power_of_ten(less));
        assert((m * 10) * power_of_ten(less) == m * (10 * power_of_ten(less)))
            by (nonlinear_arith);
    } else {
        assert(power_of_ten(0) == 1);
        assert(m * 1 == m);
    }
}

/// `tenth_up` divides by a power of ten and rounds up: its result is the
/// least number whose product with that power is not below `m`.
proof fn lemma_tenth_up_is_the_ceiling(m: nat, k: nat)
    ensures
        tenth_up(m, k) * power_of_ten(k) >= m,
        tenth_up(m, k) > 0 ==> (tenth_up(m, k) - 1) * power_of_ten(k) < m,
    decreases k,
{
    if k > 0 {
        let less = (k - 1) as nat;
        let tenth = (m + 9) / 10;
        let c = tenth_up(m, k);
        let p = power_of_ten(less);
        lemma_tenth_up_is_the_ceiling(tenth, less);
        assert(c == tenth_up(tenth, less));
        assert(power_of_ten(k) == 10 * p);
        assert(c * (10 * p) >= m) by (nonlinear_arith)
            requires
                c * p >= tenth,
                tenth * 10 >= m,
        ;
        if c > 0 {
            assert((c - 1) * (10 * p) < m) by (nonlinear_arith)
                requires
                    (c - 1) * p <= tenth - 1,
                    (tenth - 1) * 10 < m,
            ;
        }
    } else {
        assert(power_of_ten(0) == 1);
        assert(m * 1 == m);
        assert((m - 1) * 1 == m - 1);
    }
}

/// Reading rounds up and no further. The seconds that `w` writes are
/// `m * 10^up / 10^down` milliseconds, with `m` the number that its
/// mantissa writes; `w.millis()` is the least whole number that is not
/// below that: a script that waits for what is written never waits less
/// than it asked for, and not a whole millisecond more.
pub proof fn lemma_read_rounds_up(w: Written)
    ensures
        w.millis() * power_of_ten(w.down()) >= digits_value(w.mantissa) * power_of_ten(w.up()),
        w.millis() > 0 ==> (w.millis() - 1) * power_of_ten(w.down()) < digits_value(w.mantissa)
            * power_of_ten(w.up()),
{
    let m = digits_value(w.mantissa);
    let c = w.millis();
    let up = w.up();
    let down = w.down();
    if up >= down {
        let k = (up - down) as nat;
        lemma_times_ten_is_a_product(m, k);
        lemma_power_of_ten_adds(k, down);
        lemma_power_of_ten_is_positive(down);
        let pk = power_of_ten(k);
        let pd = power_of_ten(down);
        assert(c * pd == m * (pk * pd)) by (nonlinear_arith)
            requires
                c == m * pk,
        ;
        if c > 0 {
            assert((c - 1) * pd < c * pd) by (nonlinear_arith)
                requires
                    pd > 0,
            ;
        }
    } else {
        let k = (down - up) as nat;
        lemma_tenth_up_is_the_ceiling(m, k);
        lemma_power_of_ten_adds(k, up);
        lemma_power_of_ten_is_positive(up);
        let pk = power_of_ten(k);
        let pu = power_of_ten(up);
        assert(c * (pk * pu) >= m * pu) by (nonlinear_arith)
            requires
                c * pk >= m,
        ;
        if c > 0 {
            assert((c - 1) * (pk * pu) < m * pu) by (nonlinear_arith)
                requires
                    (c - 1) * pk < m,
                    pu > 0,
            ;
        }
    }
}

/// Whether `c` is a decimal digit.
fn is_decimal(c: char) -> (b: bool)
    ensures
        b == is_digit(c),
{
    c >= '0' && c <= '9'
}

/// Reads the digits of `text` from place `from` on and adds them to the
/// number `start`, which the digits `before` write. Returns the place
/// behind the last digit and the number that all the digits write, or
/// `None` once that number is beyond `limit`.
fn read_digits(text: &str, len: usize, from: usize, start: u64, limit: u64, before: Ghost<Seq<char>>) -> (r:
    (usize, Option<u64>))
    requires
        len == text@.len(),
        from <= len,
        start == digits_value(before@),
        start <= limit,
        limit >= 9,
    ensures
        from <= r.0 <= len,
        forall|j: int| from <= j < r.0 ==> is_digit(text@[j]),
        match r.1 {
            Some(value) => {
                &&& r.0 - from == leading_digits(text@.skip(from as int))
                &&& value == digits_value(before@ + text@.subrange(from as int, r.0 as int))
                &&& value <= limit
            },
            None => {
                &&& r.0 - from <= leading_digits(text@.skip(from as int))
                &&& digits_value(before@ + text@.subrange(from as int, r.0 as int)) > limit
            },
        },
{
    let ghost rest = text@.skip(from as int);
    let mut value: u64 = start;
    let mut i: usize = from;
    assert(before@ + text@.subrange(from as int, from as int) =~= before@);
    while i < len && is_decimal(text.get_char(i))
        invariant
            len == text@.len(),
            from <= i <= len,
            rest == text@.skip(from as int),
            forall|j: int| from <= j < i ==> is_digit(text@[j]),
            value == digits_value(before@ + text@.subrange(from as int, i as int)),
            value <= limit,
            limit >= 9,
        decreases len - i,
    {
        let c = text.get_char(i);
        let d: u64 = (c as u32 - '0' as u32) as u64;
        proof {
            let longer = before@ + text@.subrange(from as int, i + 1);
            assert(longer.drop_last() =~= before@ + text@.subrange(from as int, i as int));
            assert(longer.last() == c);
            assert(d == digit_value(c));
            assert(d <= 9);
        }
        if value > (limit - d) / 10 {
            proof {
                assert forall|j: int| 0 <= j < i + 1 - from implies is_digit(rest[j]) by {
                    assert(rest[j] == text@[from + j]);
                }
                lemma_leading_digits_reach(rest, i + 1 - from);
            }
            return (i + 1, None);
        }
        value = value * 10 + d;
        i += 1;
    }
    proof {
        assert forall|j: int| 0 <= j < i - from implies is_digit(rest[j]) by {
            assert(rest[j] == text@[from + j]);
        }
        if i < len {
            assert(rest[i - from] == text@[i as int]);
        }
        lemma_leading_digits(rest, i - from);
    }
    (i, Some(value))
}

/// Makes `m` ten times as large, `k` times over, or gives `None` when
/// that is beyond sixty-four bits.
fn scale_up(m: u64, k: u128) -> (r: Option<u64>)
    ensures
        match r {
            Some(v) => v == times_ten(m as nat, k as nat),
            None => times_ten(m as nat, k as nat) > u64::MAX,
        },
{
    let mut v: u64 = m;
    let mut left: u128 = k;
    while left > 0
        invariant
            times_ten(v as nat, left as nat) == times_ten(m as nat, k as nat),
        decreases left,
    {
        if v == 0 {
            proof {
                lemma_times_ten_grows(0, left as nat);
            }
            return Some(0);
        }
        if v > u64::MAX / 10 {
            proof {
                lemma_times_ten_grows(v as nat, left as nat);
            }
            return None;
        }
        v = v * 10;
        left = left - 1;
    }
    Some(v)
}

/// Cuts `m` down to a tenth, rounded up, `k` times over.
fn scale_down(m: u64, k: u128) -> (v: u64)
    ensures
        v == tenth_up(m as nat, k as nat),
{
    let mut v: u64 = m;
    let mut left: u128 = k;
    while left > 0
        invariant
            tenth_up(v as nat, left as nat) == tenth_up(m as nat, k as nat),
        decreases left,
    {
        let tenth: u64 = v / 10;
        let up: u64 = if v % 10 == 0 {
            tenth
        } else {
            tenth + 1
        };
        assert(up == (v + 9) / 10);
        v = up;
        left = left - 1;
    }
    v
}

/// Reads the mantissa of `text`: returns the place behind it, the number
/// that its digits write, the number of its digits and the number of
/// those behind the point; or `None` for the number when it is beyond
/// sixty-four bits.
fn read_mantissa(text: &str, len: usize) -> (r: (usize, Option<u64>, usize, usize))
    requires
        len == text@.len(),
    ensures
        r.0 <= len,
        match r.1 {
            Some(value) => {
                &&& r.0 == mantissa_end(text@)
                &&& value == digits_value(mantissa_of(text@))
                &&& r.2 == mantissa_of(text@).len()
                &&& r.3 == decimals_of(text@)
            },
            None => digits_value(mantissa_of(text@)) > u64::MAX,
        },
{
    let ghost s = text@;
    let (a, whole) = read_digits(text, len, 0, 0, u64::MAX, Ghost(Seq::empty()));
    proof {
        assert(s.skip(0) =~= s);
        assert(Seq::<char>::empty() + s.subrange(0, a as int) =~= s.take(a as int));
        lemma_leading_digits_reach(s, 0);
    }
    let whole = match whole {
        Some(whole) => whole,
        None => {
            proof {
                let m = mantissa_of(s);
                assert(m.take(a as int) =~= s.take(a as int));
                assert(m.take(m.len() as int) =~= m);
                lemma_digits_grow(m, a as int, m.len() as int);
            }
            return (a, None, 0, 0);
        },
    };
    if !(a < len && text.get_char(a) == '.') {
        proof {
            assert(mantissa_of(s) =~= s.take(a as int));
        }
        return (a, Some(whole), a, 0);
    }
    let ghost rest = s.skip(a + 1);
    let (j, mantissa) = read_digits(text, len, a + 1, whole, u64::MAX, Ghost(s.take(a as int)));
    proof {
        lemma_leading_digits_reach(rest, 0);
        let b = j - (a + 1);
        let m = mantissa_of(s);
        let n = decimals_of(s);
        assert(m =~= s.take(a as int) + s.subrange(a + 1, a + 1 + n));
        let read = s.take(a as int) + s.subrange(a + 1, j as int);
        assert(m.take(a + b) =~= read);
        assert(m.take(m.len() as int) =~= m);
        lemma_digits_grow(m, a + b, m.len() as int);
        if mantissa is Some {
            assert(m =~= read);
        }
    }
    (j, mantissa, j - 1, j - (a + 1))
}

/// Reads the exponent of `text` from place `from` on: returns its sign
/// and the number that its digits write, zero where there is no
/// exponent; or `None` when what stands there is no exponent or is
/// beyond `LARGEST_EXPONENT`.
fn read_exponent(text: &str, len: usize, from: usize) -> (r: Option<(bool, u64)>)
    requires
        len == text@.len(),
        from <= len,
    ensures
        match r {
            Some((negative, value)) => {
                &&& exponent_of(text@.skip(from as int)) matches Some(e)
                &&& e.0 == negative
                &&& value == digits_value(e.1)
                &&& value <= LARGEST_EXPONENT
            },
            None => exponent_of(text@.skip(from as int)) matches Some(e) ==> digits_value(e.1)
                > LARGEST_EXPONENT,
        },
{
    let ghost s = text@;
    let ghost t = s.skip(from as int);
    if from == len {
        return Some((false, 0));
    }
    proof {
        assert(t[0] == s[from as int]);
    }
    let mark = text.get_char(from);
    if mark != 'e' && mark != 'E' {
        return None;
    }
    let sign: char = if from + 1 < len {
        text.get_char(from + 1)
    } else {
        ' '
    };
    proof {
        if from + 1 < len {
            assert(t[1] == s[from + 1]);
        }
    }
    let signed = from + 1 < len && (sign == '-' || sign == '+');
    let negative = from + 1 < len && sign == '-';
    let at = if signed {
        from + 2
    } else {
        from + 1
    };
    let ghost digits = s.skip(at as int);
    proof {
        if signed {
            assert(t.skip(2) =~= digits);
        } else {
            assert(t.skip(1) =~= digits);
        }
    }
    let (end, exponent) = read_digits(text, len, at, 0, LARGEST_EXPONENT, Ghost(Seq::empty()));
    proof {
        assert(Seq::<char>::empty() + s.subrange(at as int, end as int) =~= digits.take(end - at));
        lemma_leading_digits_reach(digits, 0);
        if leading_digits(digits) == digits.len() {
            assert(digits.take(digits.len() as int) =~= digits);
            lemma_digits_grow(digits, end - at, digits.len() as int);
        }
    }
    match exponent {
        Some(value) => {
            if end == at || end != len {
                None
            } else {
                Some((negative, value))
            }
        },
        None => None,
    }
}

/// Reads the time that `text` writes in seconds and gives it in
/// milliseconds, rounded up; see `millis_written`.
pub fn parse_seconds(text: &str) -> (r: Option<u64>)
    ensures
        match r {
            Some(millis) => millis_written(text@) == Some(millis as nat),
            None => millis_written(text@) is None,
        },
{
    let len = text.unicode_len();
    let (end, mantissa, digits, decimals) = read_mantissa(text, len);
    let mantissa = match mantissa {
        Some(mantissa) => mantissa,
        None => {
            return None;
        },
    };
    if digits == 0 {
        return None;
    }
    match read_exponent(text, len, end) {
        Some((negative, exponent)) => finish(
            mantissa,
            decimals,
            negative,
            exponent,
            Ghost(written(text@).unwrap()),
        ),
        None => None,
    }
}

/// Turns a number that has been read into milliseconds.
fn finish(mantissa: u64, decimals: usize, negative: bool, exponent: u64, w: Ghost<Written>) -> (r:
    Option<u64>)
    requires
        mantissa == digits_value(w@.mantissa),
        decimals == w@.decimals,
        negative == w@.negative,
        exponent == digits_value(w@.exponent),
        exponent <= LARGEST_EXPONENT,
    ensures
        match r {
            Some(millis) => millis == w@.millis(),
            None => w@.millis() > u64::MAX,
        },
{
    let up: u128 = if negative {
        3
    } else {
        3 + exponent as u128
    };
    let down: u128 = if negative {
        decimals as u128 + exponent as u128
    } else {
        decimals as u128
    };
    if up >= down {
        scale_up(mantissa, up - down)
    } else {
        Some(scale_down(mantissa, down - up))
    }
}

} // verus!
