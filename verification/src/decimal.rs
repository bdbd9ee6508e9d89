//! Decimal numbers held as plain values: a signed mantissa and a scale, the number
//! being `mantissa / 10^scale`, in the range that `rust_decimal::Decimal` can hold.

use vstd::prelude::*;
use vstd::std_specs::cmp::PartialEqSpecImpl;

verus! {

/// The largest scale that a decimal can have.
pub const MAX_SCALE: u32 = 28;

/// The largest magnitude of a mantissa: the mantissa has 96 bits.
pub const MAX_MANTISSA: i128 = 0xFFFF_FFFF_FFFF_FFFF_FFFF_FFFF;

/// `10^n`.
pub open spec fn pow10(n: nat) -> int
    decreases n,
{
    if n == 0 {
        1
    } else {
        10 * pow10((n - 1) as nat)
    }
}

/// The mathematical content of a decimal: `mantissa / 10^scale`.
pub struct DecimalView {
    pub mantissa: int,
    pub scale: int,
}

impl DecimalView {
    /// The pair is one that a decimal can hold.
    pub open spec fn in_range(self) -> bool {
        &&& -MAX_MANTISSA <= self.mantissa <= MAX_MANTISSA
        &&& 0 <= self.scale <= MAX_SCALE
    }

    /// The number times `10^28`: an integer for every decimal in range, so that
    /// decimals are compared by comparing these integers.
    pub open spec fn value(self) -> int {
        self.mantissa * pow10((MAX_SCALE - self.scale) as nat)
    }
}

/// The result of comparing two values.
#[derive(PartialEq, Eq, Structural, Clone, Copy, Debug)]
pub enum Comparison {
    Less,
    Equal,
    Greater,
}

/// A decimal number `mantissa / 10^scale`.
#[derive(Clone, Copy, Debug)]
pub struct Decimal {
    mantissa: i128,
    scale: u32,
}

impl View for Decimal {
    type V = DecimalView;

    closed spec fn view(&self) -> DecimalView {
        DecimalView { mantissa: self.mantissa as int, scale: self.scale as int }
    }
}

/// Compares two decimals with `rust_decimal`'s `Ord`, which compares their numeric
/// values; the arguments are converted with `Decimal::from_i128_with_scale`, which
/// panics only outside the range that the type invariant keeps.
#[verifier::external_body]
fn compare_values(a: &Decimal, b: &Decimal) -> (res: Comparison)
    requires
        a@.in_range(),
        b@.in_range(),
    ensures
        res == Comparison::Less <==> a@.value() < b@.value(),
        res == Comparison::Equal <==> a@.value() == b@.value(),
        res == Comparison::Greater <==> a@.value() > b@.value(),
{
    let x = rust_decimal::Decimal::from_i128_with_scale(a.mantissa, a.scale);
    let y = rust_decimal::Decimal::from_i128_with_scale(b.mantissa, b.scale);
    match x.cmp(&y) {
        core::cmp::Ordering::Less => Comparison::Less,
        core::cmp::Ordering::Equal => Comparison::Equal,
        core::cmp::Ordering::Greater => Comparison::Greater,
    }
}

/// What `<rust_decimal::Decimal as FromStr>::from_str` makes of a string: the mantissa
/// and scale of the decimal it returns, or `None` where it returns an error.
pub uninterp spec fn parsed_decimal(s: Seq<char>) -> Option<DecimalView>;

/// Parses a decimal with `rust_decimal`'s `FromStr`, which returns an error on text
/// that is not a number and never panics; every decimal it returns has a mantissa of
/// at most 96 bits and a scale of at most 28.
#[verifier::external_body]
fn parse_decimal(s: &str) -> (res: Option<Decimal>)
    ensures
        parsed_decimal(s@) == (match res {
            Some(d) => Some(d@),
            None => None::<DecimalView>,
        }),
        res matches Some(d) ==> d@.in_range(),
{
    match <rust_decimal::Decimal as core::str::FromStr>::from_str(s) {
        Ok(d) => Some(Decimal { mantissa: d.mantissa(), scale: d.scale() }),
        Err(_) => None,
    }
}

/// What `rust_decimal::Decimal::checked_sub` makes of two decimals: the mantissa and
/// scale of their difference, or `None` where the difference overflows.
pub uninterp spec fn decimal_difference(a: DecimalView, b: DecimalView) -> Option<DecimalView>;

/// Subtracts with `rust_decimal::Decimal::checked_sub`, which returns `None` where the
/// difference is out of range and never panics; the arguments are converted with
/// `Decimal::from_i128_with_scale`, which panics only outside the range that the type
/// invariant keeps.
#[verifier::external_body]
fn subtract_values(a: &Decimal, b: &Decimal) -> (res: Option<Decimal>)
    requires
        a@.in_range(),
        b@.in_range(),
    ensures
        decimal_difference(a@, b@) == (match res {
            Some(d) => Some(d@),
            None => None::<DecimalView>,
        }),
        res matches Some(d) ==> d@.in_range(),
{
    let x = rust_decimal::Decimal::from_i128_with_scale(a.mantissa, a.scale);
    let y = rust_decimal::Decimal::from_i128_with_scale(b.mantissa, b.scale);
    match x.checked_sub(y) {
        Some(d) => Some(Decimal { mantissa: d.mantissa(), scale: d.scale() }),
        None => None,
    }
}

impl Decimal {
    #[verifier::type_invariant]
    spec fn inv(self) -> bool {
        self@.in_range()
    }

    /// The decimal `num / 10^scale`.
    pub fn new(num: i64, scale: u32) -> (res: Decimal)
        requires
            scale <= MAX_SCALE,
        ensures
            res@ == (DecimalView { mantissa: num as int, scale: scale as int }),
    {
        Decimal { mantissa: num as i128, scale }
    }

    /// The decimal `num / 10^scale`.
    pub fn from_i128_with_scale(num: i128, scale: u32) -> (res: Decimal)
        requires
            (DecimalView { mantissa: num as int, scale: scale as int }).in_range(),
        ensures
            res@ == (DecimalView { mantissa: num as int, scale: scale as int }),
    {
        Decimal { mantissa: num, scale }
    }

    pub fn mantissa(&self) -> (res: i128)
        ensures
            res as int == self@.mantissa,
    {
        self.mantissa
    }

    pub fn scale(&self) -> (res: u32)
        ensures
            res as int == self@.scale,
            res <= MAX_SCALE,
    {
        proof {
            use_type_invariant(self);
        }
        self.scale
    }

    /// Compares the numeric values of two decimals.
    pub fn compare(&self, other: &Decimal) -> (res: Comparison)
        ensures
            res == Comparison::Less <==> self@.value() < other@.value(),
            res == Comparison::Equal <==> self@.value() == other@.value(),
            res == Comparison::Greater <==> self@.value() > other@.value(),
    {
        proof {
            use_type_invariant(self);
            use_type_invariant(other);
        }
        compare_values(self, other)
    }

    /// `self - other`, `None` where the difference overflows.
    pub fn checked_sub(&self, other: &Decimal) -> (res: Option<Decimal>)
        ensures
            decimal_difference(self@, other@) == (match res {
                Some(d) => Some(d@),
                None => None::<DecimalView>,
            }),
    {
        proof {
            use_type_invariant(self);
            use_type_invariant(other);
        }
        subtract_values(self, other)
    }

    /// Parses a decimal from its text, `None` where the text is not a decimal.
    pub fn from_str(s: &str) -> (res: Option<Decimal>)
        ensures
            parsed_decimal(s@) == (match res {
                Some(d) => Some(d@),
                None => None::<DecimalView>,
            }),
    {
        parse_decimal(s)
    }
}

/// Two decimals are equal when their numeric values are: `1.0 == 1`.
impl PartialEq for Decimal {
    fn eq(&self, other: &Decimal) -> (res: bool) {
        match self.compare(other) {
            Comparison::Equal => true,
            _ => false,
        }
    }
}

impl PartialEqSpecImpl for Decimal {
    open spec fn obeys_eq_spec() -> bool {
        true
    }

    open spec fn eq_spec(&self, other: &Decimal) -> bool {
        self@.value() == other@.value()
    }
}

impl Eq for Decimal {
}

} // verus!
