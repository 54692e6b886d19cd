use vstd::prelude::*;

verus! {

/// Largest number of fractional digits a `Number` may carry.
pub const MAX_SCALE: u8 = 18;

/// Ten to the power `n`.
pub open spec fn pow10(n: nat) -> nat
    decreases n,
{
    if n == 0 {
        1
    } else {
        10 * pow10((n - 1) as nat)
    }
}

/// The ASCII character of a decimal digit.
pub open spec fn digit_char(d: nat) -> char {
    ((48 + d) as u8) as char
}

/// Decimal digits of `n`, most significant first, without leading zeros.
pub open spec fn digits(n: nat) -> Seq<char>
    decreases n,
{
    if n < 10 {
        seq![digit_char(n)]
    } else {
        digits(n / 10).push(digit_char(n % 10))
    }
}

/// The last `w` decimal digits of `n`, zero-padded on the left.
pub open spec fn fixed_digits(n: nat, w: nat) -> Seq<char>
    decreases w,
{
    if w == 0 {
        seq![]
    } else {
        fixed_digits(n / 10, (w - 1) as nat).push(digit_char(n % 10))
    }
}

/// `u / 10^s` with trailing fractional zeros removed.
pub open spec fn trimmed(u: nat, s: nat) -> (nat, nat)
    decreases s,
{
    if s > 0 && u % 10 == 0 {
        trimmed(u / 10, (s - 1) as nat)
    } else {
        (u, s)
    }
}

/// An exact decimal number: `mantissa / 10^scale`.
#[derive(Clone, Copy, Debug, PartialEq, Eq)]
pub struct Number {
    pub mantissa: i64,
    pub scale: u8,
}

impl Number {
    pub open spec fn wf(self) -> bool {
        self.scale <= MAX_SCALE
    }

    pub open spec fn magnitude(self) -> nat {
        if self.mantissa < 0 {
            (-self.mantissa) as nat
        } else {
            self.mantissa as nat
        }
    }

    /// Both numbers denote the same rational value.
    pub open spec fn same_value(self, o: Number) -> bool {
        self.mantissa * pow10(o.scale as nat) == o.mantissa * pow10(self.scale as nat)
    }

    /// Shortest plain decimal text: an optional `-`, the integer digits, and a
    /// fractional part only when it is not zero, without trailing zeros.
    pub open spec fn text(self) -> Seq<char> {
        let (u, s) = trimmed(self.magnitude(), self.scale as nat);
        let sign = if self.mantissa < 0 {
            seq!['-']
        } else {
            seq![]
        };
        let frac = if s == 0 {
            seq![]
        } else {
            seq!['.'] + fixed_digits(u % pow10(s), s)
        };
        sign + digits(u / pow10(s)) + frac
    }

    /// The number `mantissa / 10^scale`, if the scale is supported.
    pub fn new(mantissa: i64, scale: u8) -> (r: Option<Number>)
        ensures
            r is Some <==> scale <= MAX_SCALE,
            r is Some ==> r->0.mantissa == mantissa && r->0.scale == scale,
    {
        if scale <= MAX_SCALE {
            Some(Number { mantissa, scale })
        } else {
            None
        }
    }

    /// The whole number `v`.
    pub fn integer(v: i64) -> (r: Number)
        ensures
            r.mantissa == v,
            r.scale == 0,
            r.wf(),
    {
        Number { mantissa: v, scale: 0 }
    }

    /// Exact comparison of the denoted values.
    pub fn equals(&self, o: &Number) -> (r: bool)
        requires
            self.wf(),
            o.wf(),
        ensures
            r == self.same_value(*o),
    {
        let pa = pow10_u64(o.scale);
        let pb = pow10_u64(self.scale);
        proof {
            lemma_pow10_bound(o.scale as nat);
            lemma_pow10_bound(self.scale as nat);
            lemma_mul_fits(self.mantissa as int, pa as int);
            lemma_mul_fits(o.mantissa as int, pb as int);
        }
        let a = (self.mantissa as i128) * (pa as i128);
        let b = (o.mantissa as i128) * (pb as i128);
        a == b
    }

    /// Appends `self.text()` to `out`.
    pub fn write_to(&self, out: &mut String)
        requires
            self.wf(),
        ensures
            final(out)@ == old(out)@ + self.text(),
    {
        let neg = self.mantissa < 0;
        let mut u: u64 = if neg {
            (-(self.mantissa as i128)) as u64
        } else {
            self.mantissa as u64
        };
        let mut s: u8 = self.scale;
        assert(u as nat == self.magnitude());
        while s > 0 && u % 10 == 0
            invariant
                trimmed(self.magnitude(), self.scale as nat) == trimmed(u as nat, s as nat),
                s <= MAX_SCALE,
            decreases s,
        {
            u = u / 10;
            s = s - 1;
        }
        let p = pow10_u64(s);
        proof {
            lemma_pow10_bound(s as nat);
        }
        let ghost start = out@;
        if neg {
            push_char(out, '-');
        }
        push_digits(u / p, out);
        if s > 0 {
            push_char(out, '.');
            push_fixed(u % p, s, out);
        }
        proof {
            let (tu, ts) = trimmed(self.magnitude(), self.scale as nat);
            assert(tu == u && ts == s);
            assert(out@ =~= start + self.text());
        }
    }
}

pub proof fn lemma_pow10_bound(n: nat)
    requires
        n <= 18,
    ensures
        1 <= pow10(n) <= 1_000_000_000_000_000_000,
{
    lemma_pow10_mono(n, 18);
    reveal_with_fuel(pow10, 19);
}

proof fn lemma_pow10_mono(n: nat, m: nat)
    requires
        n <= m,
    ensures
        1 <= pow10(n) <= pow10(m),
    decreases m,
{
    if m > n {
        lemma_pow10_mono(n, (m - 1) as nat);
    } else if n > 0 {
        lemma_pow10_mono((n - 1) as nat, (n - 1) as nat);
    }
}

proof fn lemma_mul_fits(m: int, p: int)
    requires
        -0x8000_0000_0000_0000 <= m <= 0x7fff_ffff_ffff_ffff,
        1 <= p <= 1_000_000_000_000_000_000,
    ensures
        -0x8000_0000_0000_0000_0000_0000_0000_0000 < m * p < 0x7fff_ffff_ffff_ffff_ffff_ffff_ffff_ffff,
{
    assert(-0x8000_0000_0000_0000 * 1_000_000_000_000_000_000 <= m * p) by (nonlinear_arith)
        requires
            -0x8000_0000_0000_0000 <= m <= 0x7fff_ffff_ffff_ffff,
            1 <= p <= 1_000_000_000_000_000_000,
    ;
    assert(m * p <= 0x7fff_ffff_ffff_ffff * 1_000_000_000_000_000_000) by (nonlinear_arith)
        requires
            -0x8000_0000_0000_0000 <= m <= 0x7fff_ffff_ffff_ffff,
            1 <= p <= 1_000_000_000_000_000_000,
    ;
}

fn pow10_u64(n: u8) -> (r: u64)
    requires
        n <= MAX_SCALE,
    ensures
        r as nat == pow10(n as nat),
{
    let mut r: u64 = 1;
    let mut i: u8 = 0;
    while i < n
        invariant
            i <= n <= MAX_SCALE,
            r as nat == pow10(i as nat),
        decreases n - i,
    {
        proof {
            lemma_pow10_bound(i as nat);
        }
        r = r * 10;
        i = i + 1;
    }
    r
}

fn digit(d: u64) -> (c: char)
    requires
        d < 10,
    ensures
        c == digit_char(d as nat),
{
    ((48 + d) as u8) as char
}

fn push_digits(n: u64, out: &mut String)
    ensures
        final(out)@ == old(out)@ + digits(n as nat),
    decreases n,
{
    if n >= 10 {
        push_digits(n / 10, out);
    }
    push_char(out, digit(n % 10));
}

fn push_fixed(n: u64, w: u8, out: &mut String)
    ensures
        final(out)@ == old(out)@ + fixed_digits(n as nat, w as nat),
    decreases w,
{
    if w > 0 {
        push_fixed(n / 10, w - 1, out);
        push_char(out, digit(n % 10));
    }
}

/// Relies on `String::push`: appends one character.
#[verifier::external_body]
pub(crate) fn push_char(s: &mut String, c: char)
    ensures
        final(s)@ == old(s)@.push(c),
{
    s.push(c)
}

/// Relies on `String::push_str`: appends the characters of `t`.
#[verifier::external_body]
pub(crate) fn push_text(s: &mut String, t: &str)
    ensures
        final(s)@ == old(s)@ + t@,
{
    s.push_str(t)
}

} // verus!
