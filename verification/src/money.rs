//! Currency identity and exact decimal amounts.
//!
//! An amount is a scaled integer: `units / 10 ^ scale`, with the scale at
//! most [`MAX_SCALE`].  Arithmetic is exact; an addition that cannot be
//! represented is reported rather than rounded.  Parsing an amount string is
//! delegated to the outside money library, which reads it in the default
//! currency's format.

use vstd::prelude::*;

verus! {

/// The largest scale (number of decimal places) an amount may carry.
pub const MAX_SCALE: u32 = 28;

/// 10 to the power `n`.
pub open spec fn pow10(n: nat) -> int
    decreases n,
{
    if n == 0 {
        1
    } else {
        10 * pow10((n - 1) as nat)
    }
}

pub proof fn lemma_pow10_pos(n: nat)
    ensures
        pow10(n) >= 1,
    decreases n,
{
    if n > 0 {
        lemma_pow10_pos((n - 1) as nat);
    }
}

pub proof fn lemma_pow10_adds(a: nat, b: nat)
    ensures
        pow10((a + b) as nat) == pow10(a) * pow10(b),
    decreases a,
{
    if a == 0 {
        assert(pow10((0 + b) as nat) == 1 * pow10(b));
    } else {
        lemma_pow10_adds((a - 1) as nat, b);
        assert(pow10((a + b) as nat) == 10 * pow10((a - 1 + b) as nat));
        assert(10 * (pow10((a - 1) as nat) * pow10(b)) == (10 * pow10((a - 1) as nat)) * pow10(
            b,
        )) by (nonlinear_arith);
    }
}

/// Rescaling in two steps is the same as rescaling once.
pub proof fn lemma_rescale(u: int, d1: nat, d2: nat)
    ensures
        (u * pow10(d1)) * pow10(d2) == u * pow10((d1 + d2) as nat),
{
    lemma_pow10_adds(d1, d2);
    assert((u * pow10(d1)) * pow10(d2) == u * (pow10(d1) * pow10(d2))) by (nonlinear_arith);
}

/// The identity of a currency, as its ISO 4217 numeric code.
#[derive(PartialEq, Eq, Structural, Clone, Copy, Debug, Hash)]
pub struct Currency {
    code: u32,
}

impl Currency {
    pub closed spec fn spec_code(&self) -> u32 {
        self.code
    }

    pub fn code(&self) -> (r: u32)
        ensures
            r == self.spec_code(),
    {
        self.code
    }
}

/// The process-wide default currency (the Australian dollar).
pub closed spec fn default_currency_spec() -> Currency {
    Currency { code: 36 }
}

/// The process-wide default currency (the Australian dollar).
pub fn default_currency() -> (r: Currency)
    ensures
        r == default_currency_spec(),
        r.spec_code() == 36,
{
    Currency { code: 36 }
}

/// The mathematical content of a [`Money`] value.
pub struct MoneyView {
    pub units: int,
    pub scale: nat,
    pub currency: Currency,
}

/// A money view is well formed when its scale is within range and its units
/// leave the most negative machine value unused.
pub open spec fn money_wf(m: MoneyView) -> bool {
    m.scale <= MAX_SCALE && i128::MIN < m.units <= i128::MAX
}

/// The amount scaled to a fixed `MAX_SCALE` decimal places: an exact integer
/// standing for the value times 10 ^ MAX_SCALE.
pub open spec fn scaled_units(m: MoneyView) -> int {
    m.units * pow10((MAX_SCALE - m.scale) as nat)
}

/// An exact decimal amount bound to a currency.
#[derive(Clone, Copy, Debug)]
pub struct Money {
    units: i128,
    scale: u32,
    currency: Currency,
}

impl View for Money {
    type V = MoneyView;

    closed spec fn view(&self) -> MoneyView {
        MoneyView { units: self.units as int, scale: self.scale as nat, currency: self.currency }
    }
}

/// The error for an amount string the money parser rejects.
#[derive(Debug, Clone, PartialEq, Eq)]
pub struct MoneyError {
    pub text: String,
}

/// What the outside money parser returns for a given amount string: the
/// mantissa and scale of the exact decimal it reads, or nothing when the
/// string is malformed.
pub uninterp spec fn parsed_amount(s: Seq<char>) -> Option<(i128, u32)>;

/// Relies on rusty_money::Money::from_str (with the default AUD currency)
/// to parse the amount string, and on rust_decimal's mantissa() and scale()
/// accessors to read the result.  The mantissa of a 96-bit decimal is below
/// 2^96 in magnitude and its scale is at most 28.
#[verifier::external_body]
fn parse_amount(text: &str) -> (r: Option<(i128, u32)>)
    ensures
        r == parsed_amount(text@),
        r matches Some(p) ==> p.1 <= 28 && (p.0 as int) < 0x1000000000000000000000000 && (p.0
            as int) > -0x1000000000000000000000000,
{
    match rusty_money::Money::from_str(text, rusty_money::iso::AUD) {
        Ok(m) => Some((m.amount().mantissa(), m.amount().scale())),
        Err(_) => None,
    }
}

/// Whether the exact sum of two amounts is representable: both, aligned to
/// the larger scale, and their sum must fit the machine integer.
pub open spec fn add_fits(a: MoneyView, b: MoneyView) -> bool {
    let s = if a.scale >= b.scale {
        a.scale
    } else {
        b.scale
    };
    let ta = a.units * pow10((s - a.scale) as nat);
    let tb = b.units * pow10((s - b.scale) as nat);
    i128::MIN < ta <= i128::MAX && i128::MIN < tb <= i128::MAX && i128::MIN < ta + tb <= i128::MAX
}

/// The exact sum of two amounts, aligned to the larger scale: the
/// mathematical value, free of any machine limit.
pub open spec fn money_add_view(a: MoneyView, b: MoneyView) -> MoneyView {
    let s = if a.scale >= b.scale {
        a.scale
    } else {
        b.scale
    };
    MoneyView {
        units: a.units * pow10((s - a.scale) as nat) + b.units * pow10((s - b.scale) as nat),
        scale: s,
        currency: a.currency,
    }
}

/// The aligned sum carries the exact sum of the two values.
pub proof fn lemma_add_view_scaled(a: MoneyView, b: MoneyView)
    requires
        a.scale <= MAX_SCALE,
        b.scale <= MAX_SCALE,
    ensures
        scaled_units(money_add_view(a, b)) == scaled_units(a) + scaled_units(b),
{
    let s = if a.scale >= b.scale {
        a.scale
    } else {
        b.scale
    };
    let ta = a.units * pow10((s - a.scale) as nat);
    let tb = b.units * pow10((s - b.scale) as nat);
    lemma_rescale(a.units, (s - a.scale) as nat, (MAX_SCALE - s) as nat);
    lemma_rescale(b.units, (s - b.scale) as nat, (MAX_SCALE - s) as nat);
    assert((ta + tb) * pow10((MAX_SCALE - s) as nat) == ta * pow10((MAX_SCALE - s) as nat) + tb
        * pow10((MAX_SCALE - s) as nat)) by (nonlinear_arith);
}

/// An amount is zero exactly when its scaled value is zero.
pub proof fn lemma_zero_scaled(m: MoneyView)
    ensures
        (m.units == 0) <==> (scaled_units(m) == 0),
{
    lemma_pow10_pos((MAX_SCALE - m.scale) as nat);
    let p = pow10((MAX_SCALE - m.scale) as nat);
    assert(m.units != 0 && p >= 1 ==> m.units * p != 0) by (nonlinear_arith);
}

/// 10 to the power `n`, executable.
pub fn pow10_i128(n: u32) -> (r: i128)
    requires
        n <= MAX_SCALE,
    ensures
        r == pow10(n as nat),
{
    let mut i: u32 = 0;
    let mut r: i128 = 1;
    proof {
        lemma_pow10_monotone(0, MAX_SCALE as nat);
    }
    while i < n
        invariant
            i <= n <= MAX_SCALE,
            r == pow10(i as nat),
            r <= pow10(MAX_SCALE as nat),
        decreases n - i,
    {
        proof {
            lemma_pow10_pos(i as nat);
            lemma_pow10_monotone(i as nat + 1, MAX_SCALE as nat);
            reveal_with_fuel(pow10, 32);
            assert(pow10(MAX_SCALE as nat) == 10000000000000000000000000000);
        }
        r = r * 10;
        i += 1;
    }
    r
}

pub proof fn lemma_pow10_monotone(a: nat, b: nat)
    requires
        a <= b,
    ensures
        pow10(a) <= pow10(b),
    decreases b,
{
    if a < b {
        lemma_pow10_monotone(a, (b - 1) as nat);
        lemma_pow10_pos((b - 1) as nat);
    }
}

impl Money {
    /// Builds a money value from an exact decimal given as mantissa and
    /// scale, in the given currency.
    pub fn from_decimal(units: i128, scale: u32, currency: Currency) -> (r: Money)
        requires
            scale <= MAX_SCALE,
            i128::MIN < units as int,
        ensures
            r@ == (MoneyView { units: units as int, scale: scale as nat, currency }),
            money_wf(r@),
    {
        Money { units, scale, currency }
    }

    /// Parses an amount string in the given currency.  Succeeds exactly when
    /// the outside parser reads the string, and then carries the decimal it
    /// read; otherwise reports the offending text.
    pub fn from_str(text: &str, currency: Currency) -> (r: Result<Money, MoneyError>)
        ensures
            match parsed_amount(text@) {
                Some(p) => r matches Ok(m) && m@ == (MoneyView {
                    units: p.0 as int,
                    scale: p.1 as nat,
                    currency,
                }) && money_wf(m@) && (m@.units < 0x1000000000000000000000000) && (m@.units
                    > -0x1000000000000000000000000),
                None => r matches Err(e) && e.text@ == text@,
            },
    {
        match parse_amount(text) {
            Some(p) => Ok(Money { units: p.0, scale: p.1, currency }),
            None => Err(MoneyError { text: String::from_str(text) }),
        }
    }

    pub fn units(&self) -> (r: i128)
        ensures
            r as int == self@.units,
    {
        self.units
    }

    pub fn scale(&self) -> (r: u32)
        ensures
            r as nat == self@.scale,
    {
        self.scale
    }

    pub fn currency(&self) -> (r: Currency)
        ensures
            r == self@.currency,
    {
        self.currency
    }

    /// Whether the amount is exactly zero.
    pub fn is_zero(&self) -> (r: bool)
        ensures
            r == (self@.units == 0),
    {
        self.units == 0
    }

    /// Exact addition of two amounts in one currency.  Returns the sum at
    /// the larger of the two scales, or nothing when the exact sum does not
    /// fit the machine integer.
    pub fn checked_add(&self, other: &Money) -> (r: Option<Money>)
        requires
            money_wf(self@),
            money_wf(other@),
            self@.currency == other@.currency,
        ensures
            match r {
                Some(m) => add_fits(self@, other@) && money_wf(m@) && m@ == money_add_view(
                    self@,
                    other@,
                ) && scaled_units(m@) == scaled_units(self@) + scaled_units(other@),
                None => !add_fits(self@, other@),
            },
    {
        let s = if self.scale >= other.scale {
            self.scale
        } else {
            other.scale
        };
        let pa = pow10_i128(s - self.scale);
        let pb = pow10_i128(s - other.scale);
        let ta_opt = self.units.checked_mul(pa);
        let tb_opt = other.units.checked_mul(pb);
        proof {
            lemma_pow10_pos((s - self.scale) as nat);
            lemma_pow10_pos((s - other.scale) as nat);
        }
        match (ta_opt, tb_opt) {
            (Some(ta), Some(tb)) => {
                if ta == i128::MIN || tb == i128::MIN {
                    return None;
                }
                match ta.checked_add(tb) {
                    Some(sum) => {
                        if sum == i128::MIN {
                            return None;
                        }
                        let m = Money { units: sum, scale: s, currency: self.currency };
                        proof {
                            lemma_rescale(
                                self@.units,
                                (s as nat - self@.scale) as nat,
                                (MAX_SCALE as nat - s as nat) as nat,
                            );
                            lemma_rescale(
                                other@.units,
                                (s as nat - other@.scale) as nat,
                                (MAX_SCALE as nat - s as nat) as nat,
                            );
                            assert((ta as int + tb as int) * pow10((MAX_SCALE - s) as nat) == ta
                                as int * pow10((MAX_SCALE - s) as nat) + tb as int * pow10(
                                (MAX_SCALE - s) as nat,
                            )) by (nonlinear_arith);
                        }
                        Some(m)
                    },
                    None => None,
                }
            },
            _ => None,
        }
    }
}

/// The decimal digit characters.
pub open spec fn digit_char(d: int) -> char {
    if d == 0 {
        '0'
    } else if d == 1 {
        '1'
    } else if d == 2 {
        '2'
    } else if d == 3 {
        '3'
    } else if d == 4 {
        '4'
    } else if d == 5 {
        '5'
    } else if d == 6 {
        '6'
    } else if d == 7 {
        '7'
    } else if d == 8 {
        '8'
    } else {
        '9'
    }
}

/// The decimal digits of `n`, most significant first.
pub open spec fn digits_of(n: nat) -> Seq<char>
    decreases n,
{
    if n < 10 {
        seq![digit_char(n as int)]
    } else {
        digits_of(n / 10).push(digit_char((n % 10) as int))
    }
}

/// `s` left-padded with zeros to at least `k` characters.
pub open spec fn zero_pad(s: Seq<char>, k: nat) -> Seq<char>
    decreases (if s.len() >= k {
        0nat
    } else {
        (k - s.len()) as nat
    }),
{
    if s.len() >= k {
        s
    } else {
        zero_pad(seq!['0'] + s, k)
    }
}

/// The rendering of an exact decimal: optional sign, integer digits, and,
/// for a positive scale, a point followed by exactly `scale` fraction
/// digits.
pub open spec fn amount_chars(units: int, scale: nat) -> Seq<char> {
    let a = (if units >= 0 {
        units
    } else {
        -units
    }) as nat;
    let ds = zero_pad(digits_of(a), (scale + 1) as nat);
    let ip = ds.take(ds.len() - scale);
    let core = if scale == 0 {
        ip
    } else {
        ip + seq!['.'] + ds.skip(ds.len() - scale)
    };
    if units < 0 {
        seq!['-'] + core
    } else {
        core
    }
}

pub(crate) fn digit_char_exec(d: u8) -> (r: char)
    requires
        d < 10,
    ensures
        r == digit_char(d as int),
{
    if d == 0 {
        '0'
    } else if d == 1 {
        '1'
    } else if d == 2 {
        '2'
    } else if d == 3 {
        '3'
    } else if d == 4 {
        '4'
    } else if d == 5 {
        '5'
    } else if d == 6 {
        '6'
    } else if d == 7 {
        '7'
    } else if d == 8 {
        '8'
    } else {
        '9'
    }
}

/// Relies on String::push: appends one character.
#[verifier::external_body]
pub(crate) fn push_char(s: &mut String, c: char)
    ensures
        final(s)@ == old(s)@.push(c),
{
    s.push(c);
}

/// Renders an exact decimal as text, as [`amount_chars`] describes.
pub fn render_amount(units: i128, scale: u32) -> (r: String)
    requires
        scale <= MAX_SCALE,
        i128::MIN < units as int,
    ensures
        r@ == amount_chars(units as int, scale as nat),
{
    let neg = units < 0;
    let a: u128 = if units < 0 {
        (-units) as u128
    } else {
        units as u128
    };
    let ghost a0 = a as nat;
    // Digits of `a`, least significant first.
    let mut digs: Vec<char> = Vec::new();
    let mut m = a;
    proof {
        assert(digs@.reverse() =~= Seq::<char>::empty());
        if a > 0 {
            assert(digits_of(a0) =~= digits_of(a0) + Seq::<char>::empty());
        }
    }
    loop
        invariant
            m > 0 ==> digits_of(a0) =~= digits_of(m as nat) + digs@.reverse(),
            m == 0 && digs@.len() > 0 ==> digits_of(a0) =~= digs@.reverse(),
            m == 0 && digs@.len() == 0 ==> a0 == 0,
            m <= a,
        ensures
            digits_of(a0) == digs@.reverse(),
            digs@.len() > 0,
        decreases m, (if digs@.len() == 0 {
            1nat
        } else {
            0nat
        }),
    {
        if m == 0 && digs.len() > 0 {
            break ;
        }
        let ghost old_digs = digs@;
        let d = (m % 10) as u8;
        digs.push(digit_char_exec(d));
        proof {
            assert(digs@.reverse() =~= seq![digit_char(d as int)] + old_digs.reverse());
        }
        let m2 = m / 10;
        proof {
            if m < 10 {
                assert(digits_of(m as nat) == seq![digit_char(m as int)]);
                if m == 0 {
                    if old_digs.len() == 0 {
                        assert(digits_of(a0) =~= digs@.reverse());
                    } else {
                        assert(digits_of(a0) =~= digs@.reverse());
                    }
                } else {
                    assert(digits_of(a0) =~= digs@.reverse());
                }
            } else {
                assert(digits_of(m as nat) == digits_of((m as nat) / 10).push(
                    digit_char(((m as nat) % 10) as int),
                ));
                assert(digits_of(m as nat).drop_last() == digits_of((m as nat) / 10));
                assert(digits_of(a0) =~= digits_of(m2 as nat) + digs@.reverse());
            }
        }
        m = m2;
    }
    // Pad with zeros on the most significant side to scale + 1 digits.
    proof {
        assert(digits_of(a0) == digs@.reverse());
    }
    while digs.len() < (scale as usize) + 1
        invariant
            scale <= MAX_SCALE,
            zero_pad(digs@.reverse(), (scale + 1) as nat) == zero_pad(
                digits_of(a0),
                (scale + 1) as nat,
            ),
            digs@.len() > 0,
        decreases (scale as int) + 1 - digs@.len(),
    {
        let ghost old_digs = digs@;
        digs.push('0');
        proof {
            assert(digs@.reverse() =~= seq!['0'] + old_digs.reverse());
        }
    }
    proof {
        assert(zero_pad(digs@.reverse(), (scale + 1) as nat) == digs@.reverse());
    }
    let ghost ds = zero_pad(digits_of(a0), (scale + 1) as nat);
    let n = digs.len();
    let mut r = String::new();
    if neg {
        push_char(&mut r, '-');
    }
    // Integer part: the digits beyond the last `scale`, most significant
    // first.
    let ip_len = n - (scale as usize);
    let mut k: usize = 0;
    while k < ip_len
        invariant
            k <= ip_len,
            ip_len + scale as int == n,
            n == digs@.len(),
            ds == digs@.reverse(),
            ds.len() == n,
            r@ =~= (if neg {
                seq!['-']
            } else {
                Seq::<char>::empty()
            }) + ds.take(k as int),
        decreases ip_len - k,
    {
        push_char(&mut r, digs[n - 1 - k]);
        proof {
            assert(digs@[n - 1 - k as int] == ds[k as int]);
        }
        k += 1;
    }
    if scale > 0 {
        push_char(&mut r, '.');
        let mut k2: usize = 0;
        while k2 < scale as usize
            invariant
                k2 <= scale as usize,
                ip_len + scale as int == n,
                ip_len as int == n - scale,
                n == digs@.len(),
                ds == digs@.reverse(),
                ds.len() == n,
                scale > 0,
                r@ =~= (if neg {
                    seq!['-']
                } else {
                    Seq::<char>::empty()
                }) + ds.take(ip_len as int) + seq!['.'] + ds.skip(ip_len as int).take(k2 as int),
            decreases scale - k2,
        {
            push_char(&mut r, digs[(scale as usize) - 1 - k2]);
            proof {
                assert(digs@[scale - 1 - k2 as int] == ds[n - scale + k2 as int]);
                assert(ds.skip(ip_len as int).take(k2 + 1 as int) =~= ds.skip(
                    ip_len as int,
                ).take(k2 as int).push(ds[ip_len + k2 as int]));
            }
            k2 += 1;
        }
        proof {
            assert(ds.skip(ip_len as int).take(scale as int) =~= ds.skip(ip_len as int));
            assert(r@ =~= amount_chars(units as int, scale as nat));
        }
    } else {
        proof {
            assert(ds.take(ip_len as int) =~= ds);
            assert(r@ =~= amount_chars(units as int, scale as nat));
        }
    }
    r
}

} // verus!
