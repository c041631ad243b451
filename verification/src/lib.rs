//! Engraving of musical events as notation text.
//!
//! The core of the library is exact rational duration arithmetic
//! ([`Duration`]), hierarchical rhythmic groupings ([`sequenza`]), a
//! stack-based controller that consumes a time budget and reports every
//! boundary crossed ([`sequenza::GroupingController`]), and a formatter that
//! splits notes across those boundaries into tied fragments
//! ([`scrittore`]).

use vstd::prelude::*;

pub mod arith;
pub mod notes;
pub mod scrittore;
pub mod sequenza;

verus! {

use core::cmp::Ordering;
use crate::arith::{
    spec_gcd, spec_lcm, lemma_gcd_pos, Frac, reduced, reduce, eq_val, le_val, lt_val,
    add_val, sub_val, frac_add, frac_sub, frac_fits, lemma_reduce_props,
    lemma_add_sub_roundtrip,
};
use vstd::string::StringExecFns;

/// How an operation of this library can fail.
#[derive(Clone, Copy, Debug, PartialEq, Eq, Structural)]
pub enum Error {
    /// The controller was constructed from an empty sequence of groupings.
    ConstructionError,
    /// More time was requested than the remaining groupings can supply.
    StructureExhausted,
    /// A duration's ratio has no rendering in the supported notation
    /// vocabulary (single or dotted power-of-two values).
    UnsupportedDurationNotation,
    /// The grouping stack was empty where it was assumed non-empty.
    InvariantViolation,
}

/// Greatest common divisor of two machine integers.
pub fn gcd(a: u32, b: u32) -> (r: u32)
    ensures
        r == spec_gcd(a as nat, b as nat),
{
    let mut m = a;
    let mut n = b;
    while m != 0
        invariant
            spec_gcd(m as nat, n as nat) == spec_gcd(a as nat, b as nat),
        decreases m,
    {
        let temp = m;
        m = n % temp;
        n = temp;
    }
    n
}

/// Least common multiple of two machine integers.
///
/// At least one argument must be nonzero, and the product must fit in the
/// machine word, as it does in the intermediate computation.
pub fn lcm(a: u32, b: u32) -> (r: u32)
    requires
        a > 0 || b > 0,
        a * b <= u32::MAX,
    ensures
        r == spec_lcm(a as nat, b as nat),
{
    proof {
        lemma_gcd_pos(a as nat, b as nat);
    }
    (a * b) / gcd(a, b)
}

/// Greatest common divisor on wide integers, for intermediate arithmetic.
fn gcd_u128(a: u128, b: u128) -> (r: u128)
    ensures
        r == spec_gcd(a as nat, b as nat),
{
    let mut m = a;
    let mut n = b;
    while m != 0
        invariant
            spec_gcd(m as nat, n as nat) == spec_gcd(a as nat, b as nat),
        decreases m,
    {
        let temp = m;
        m = n % temp;
        n = temp;
    }
    n
}

/// An exact rational duration in whole-note units, stored in lowest terms.
///
/// The fields are exposed for specification purposes; construct values with
/// [`Duration::new`] or the arithmetic operations, which keep the invariant
/// [`Duration::wf`].
#[derive(Clone, Copy, Debug, PartialEq, Eq, Structural)]
pub struct Duration {
    pub num: u32,
    pub den: u32,
}

impl View for Duration {
    type V = Frac;

    open spec fn view(&self) -> Frac {
        Frac { n: self.num as nat, d: self.den as nat }
    }
}

/// Reduce a wide fraction and store it as a `Duration`.
fn reduce_parts(n: u128, d: u128) -> (r: Duration)
    requires
        d >= 1,
        frac_fits(reduce(Frac { n: n as nat, d: d as nat })),
    ensures
        r.wf(),
        r@ == reduce(Frac { n: n as nat, d: d as nat }),
{
    proof {
        lemma_gcd_pos(n as nat, d as nat);
        lemma_reduce_props(Frac { n: n as nat, d: d as nat });
    }
    let g = gcd_u128(n, d);
    let rn = n / g;
    let rd = d / g;
    Duration { num: rn as u32, den: rd as u32 }
}

impl Duration {
    /// In lowest terms, with a positive denominator.
    pub open spec fn wf(self) -> bool {
        reduced(self@)
    }

    /// Construct a duration from a ratio, reducing it to lowest terms.
    ///
    /// The ratio of the result is in lowest terms and its denominator is
    /// positive, for every valid pair of arguments.
    pub fn new(numerator: u32, denominator: u32) -> (r: Duration)
        requires
            denominator >= 1,
        ensures
            r.wf(),
            r@ == reduce(Frac { n: numerator as nat, d: denominator as nat }),
    {
        proof {
            lemma_reduce_props(Frac { n: numerator as nat, d: denominator as nat });
        }
        reduce_parts(numerator as u128, denominator as u128)
    }

    /// The stored ratio.
    pub fn as_ratio(&self) -> (r: (u32, u32))
        ensures
            r.0 as nat == self@.n,
            r.1 as nat == self@.d,
    {
        (self.num, self.den)
    }

    /// Whether this duration is zero.
    pub fn is_zero(&self) -> (r: bool)
        ensures
            r == (self@.n == 0),
    {
        self.num == 0
    }

    /// The exact rational sum, in lowest terms.
    ///
    /// The reduced sum must fit the machine word in both components.
    pub fn add(self, other: Duration) -> (r: Duration)
        requires
            self.wf(),
            other.wf(),
            frac_fits(frac_add(self@, other@)),
        ensures
            r.wf(),
            r@ == frac_add(self@, other@),
    {
        proof {
            lemma_u32_products_fit(self.num, other.den, other.num, self.den);
            lemma_u32_products_fit(self.den, other.den, self.den, other.den);
        }
        let n: u128 = (self.num as u128) * (other.den as u128) + (other.num as u128) * (self.den
            as u128);
        let d: u128 = (self.den as u128) * (other.den as u128);
        assert(n as nat == add_val(self@, other@).n && d as nat == add_val(self@, other@).d);
        reduce_parts(n, d)
    }

    /// The exact rational difference, in lowest terms.
    ///
    /// The subtrahend must not exceed this duration, and the reduced
    /// difference must fit the machine word in both components.
    pub fn sub(self, other: Duration) -> (r: Duration)
        requires
            self.wf(),
            other.wf(),
            le_val(other@, self@),
            frac_fits(frac_sub(self@, other@)),
        ensures
            r.wf(),
            r@ == frac_sub(self@, other@),
    {
        proof {
            lemma_u32_products_fit(self.num, other.den, other.num, self.den);
            lemma_u32_products_fit(self.den, other.den, self.den, other.den);
        }
        let a: u128 = (self.num as u128) * (other.den as u128);
        let b: u128 = (other.num as u128) * (self.den as u128);
        let n: u128 = a - b;
        let d: u128 = (self.den as u128) * (other.den as u128);
        assert(n as nat == sub_val(self@, other@).n && d as nat == sub_val(self@, other@).d);
        reduce_parts(n, d)
    }
}

/// Products of machine-word halves fit the wide word.
proof fn lemma_u32_products_fit(a: u32, b: u32, c: u32, d: u32)
    ensures
        a * b <= 0xffff_fffe_0000_0001u128,
        c * d <= 0xffff_fffe_0000_0001u128,
        a * b + c * d <= u128::MAX,
        (a as nat) * (b as nat) == (a * b) as nat,
        a >= 1 && b >= 1 ==> a * b >= 1,
{
    assert(a >= 1 && b >= 1 ==> a * b >= 1) by (nonlinear_arith);
    assert(a * b <= 0xffff_ffffu128 * 0xffff_ffffu128 && c * d <= 0xffff_ffffu128
        * 0xffff_ffffu128) by (nonlinear_arith)
        requires
            a <= 0xffff_ffffu32,
            b <= 0xffff_ffffu32,
            c <= 0xffff_ffffu32,
            d <= 0xffff_ffffu32,
    ;
}

impl PartialOrd for Duration {
    /// Exact comparison of the rational values, by cross multiplication.
    fn partial_cmp(&self, other: &Self) -> (r: Option<Ordering>) {
        proof {
            lemma_u32_products_fit(self.num, other.den, other.num, self.den);
        }
        let a: u64 = (self.num as u64) * (other.den as u64);
        let b: u64 = (other.num as u64) * (self.den as u64);
        if a < b {
            Some(Ordering::Less)
        } else if a == b {
            Some(Ordering::Equal)
        } else {
            Some(Ordering::Greater)
        }
    }
}

impl vstd::std_specs::cmp::PartialOrdSpecImpl for Duration {
    open spec fn obeys_partial_cmp_spec() -> bool {
        true
    }

    open spec fn partial_cmp_spec(&self, other: &Self) -> Option<Ordering> {
        if lt_val(self@, other@) {
            Some(Ordering::Less)
        } else if eq_val(self@, other@) {
            Some(Ordering::Equal)
        } else {
            Some(Ordering::Greater)
        }
    }
}

/// Whether a number is a power of two.
pub open spec fn is_pow2(n: nat) -> bool
    decreases n,
{
    if n == 0 {
        false
    } else if n == 1 {
        true
    } else {
        n % 2 == 0 && is_pow2(n / 2)
    }
}

/// The character of a single decimal digit.
pub open spec fn digit_char(n: nat) -> char {
    if n == 0 {
        '0'
    } else if n == 1 {
        '1'
    } else if n == 2 {
        '2'
    } else if n == 3 {
        '3'
    } else if n == 4 {
        '4'
    } else if n == 5 {
        '5'
    } else if n == 6 {
        '6'
    } else if n == 7 {
        '7'
    } else if n == 8 {
        '8'
    } else {
        '9'
    }
}

/// The decimal digits of a number, most significant first.
pub open spec fn dec_digits(n: nat) -> Seq<char>
    decreases n,
{
    if n < 10 {
        seq![digit_char(n)]
    } else {
        dec_digits(n / 10) + seq![digit_char(n % 10)]
    }
}

/// The notation token of a reduced ratio, where the vocabulary supports it:
/// `1/x` for a power of two `x` renders as the decimal digits of `x`, and
/// `3/x` as those digits followed by a dot; every other ratio has no token.
pub open spec fn notation_spec(f: Frac) -> Option<Seq<char>> {
    if f.n == 1 && is_pow2(f.d) {
        Some(dec_digits(f.d))
    } else if f.n == 3 && is_pow2(f.d) {
        Some(dec_digits(f.d) + seq!['.'])
    } else {
        None
    }
}

/// Whether a machine integer is a power of two.
fn exec_is_pow2(n: u32) -> (r: bool)
    ensures
        r == is_pow2(n as nat),
{
    if n == 0 {
        return false;
    }
    let mut m = n;
    while m > 1
        invariant
            m >= 1,
            is_pow2(m as nat) == is_pow2(n as nat),
        decreases m,
    {
        if m % 2 == 1 {
            return false;
        }
        m = m / 2;
    }
    true
}

/// The string of one decimal digit.
fn digit_string(d: u32) -> (r: String)
    requires
        d < 10,
    ensures
        r@ == seq![digit_char(d as nat)],
{
    proof {
        reveal_strlit("0");
        reveal_strlit("1");
        reveal_strlit("2");
        reveal_strlit("3");
        reveal_strlit("4");
        reveal_strlit("5");
        reveal_strlit("6");
        reveal_strlit("7");
        reveal_strlit("8");
        reveal_strlit("9");
    }
    let s: &str = if d == 0 {
        "0"
    } else if d == 1 {
        "1"
    } else if d == 2 {
        "2"
    } else if d == 3 {
        "3"
    } else if d == 4 {
        "4"
    } else if d == 5 {
        "5"
    } else if d == 6 {
        "6"
    } else if d == 7 {
        "7"
    } else if d == 8 {
        "8"
    } else {
        "9"
    };
    assert(s@ =~= seq![digit_char(d as nat)]);
    s.to_owned()
}

/// The decimal rendering of a machine integer.
fn u32_to_decimal(n: u32) -> (r: String)
    ensures
        r@ == dec_digits(n as nat),
    decreases n,
{
    if n < 10 {
        digit_string(n)
    } else {
        let mut s = u32_to_decimal(n / 10);
        let d = digit_string(n % 10);
        s.append(d.as_str());
        assert(s@ =~= dec_digits(n as nat));
        s
    }
}

impl Duration {
    /// The notation token of this duration.
    ///
    /// A ratio `1/x` with `x` a power of two renders as `x` in decimal
    /// (a plain note value); `3/x` with `x` a power of two renders as `x`
    /// followed by a dot (a dotted note value); any other ratio is not in
    /// the supported vocabulary and is rejected.
    pub fn render_notation(&self) -> (r: Result<String, Error>)
        requires
            self.wf(),
        ensures
            match r {
                Ok(s) => notation_spec(self@) == Some(s@),
                Err(e) => e == Error::UnsupportedDurationNotation && notation_spec(self@)
                    is None,
            },
    {
        if self.num == 1 && exec_is_pow2(self.den) {
            Ok(u32_to_decimal(self.den))
        } else if self.num == 3 && exec_is_pow2(self.den) {
            let mut s = u32_to_decimal(self.den);
            proof {
                reveal_strlit(".");
            }
            s.append(".");
            assert(s@ =~= dec_digits(self@.d) + seq!['.']);
            Ok(s)
        } else {
            Err(Error::UnsupportedDurationNotation)
        }
    }
}

/// A pitch that can name itself for engraving.
pub trait Pitch {
    /// The note name, at the specification level.
    spec fn pitch_spec(&self) -> Seq<char>;

    /// The note name placed at the start of each rendered note.
    fn pitch(&self) -> (r: String)
        ensures
            r@ == self.pitch_spec(),
    ;

    /// The name of the concrete pitch kind.
    fn pitch_type(&self) -> (r: &'static str);
}

/// Adding a duration and then subtracting it returns exactly the original:
/// the round trip of the exact rational arithmetic. `s` and `r` are any
/// values meeting the contracts of [`Duration::add`] and [`Duration::sub`].
pub proof fn lemma_duration_add_sub_roundtrip(a: Duration, b: Duration, s: Duration, r: Duration)
    requires
        a.wf(),
        b.wf(),
        s@ == frac_add(a@, b@),
        r@ == frac_sub(s@, b@),
    ensures
        r == a,
{
    lemma_add_sub_roundtrip(a@, b@);
    assert(r@ == a@);
    assert(r.num == a.num && r.den == a.den);
}

} // verus!
