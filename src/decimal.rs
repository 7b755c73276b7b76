use vstd::prelude::*;

verus! {

/// Maximum number of significant decimal digits of a `Decimal`.
pub const MAX_PRECISION: u32 = 38;

/// Largest number of digits right of the decimal point.
pub const MAX_SCALE: i16 = 130;

/// Most negative scale (a value may carry up to this many implied trailing zeros).
pub const MIN_SCALE: i16 = -126;

/// Why a text could not be turned into a `Decimal`.
#[derive(Clone, Copy, Debug, PartialEq, Eq, Structural)]
pub enum DecimalParseError {
    /// The text is empty or holds only whitespace.
    Empty,
    /// The text does not follow the literal grammar.
    Invalid,
    /// Too many significant digits, or a scale or exponent out of range.
    Overflow,
}

/// An exact fixed-point decimal: `(-1)^negative * int_val * 10^(-scale)`.
#[derive(Clone, Copy, Debug, PartialEq, Eq, Structural)]
pub struct Decimal {
    pub int_val: u128,
    pub scale: i16,
    pub negative: bool,
}

/// `10^n`.
pub open spec fn pow10(n: nat) -> nat
    decreases n,
{
    if n == 0 {
        1
    } else {
        10 * pow10((n - 1) as nat)
    }
}

pub open spec fn is_digit(b: u8) -> bool {
    48 <= b <= 57
}

/// The number written by a run of ASCII digits, most significant first.
pub open spec fn digits_value(r: Seq<u8>) -> nat
    decreases r.len(),
{
    if r.len() == 0 {
        0
    } else {
        digits_value(r.drop_last()) * 10 + (r.last() - 48) as nat
    }
}

impl Decimal {
    /// The representation invariant: at most `MAX_PRECISION` digits, scale in
    /// bounds, and zero never negative.
    pub open spec fn wf(&self) -> bool {
        &&& self.int_val < pow10(MAX_PRECISION as nat)
        &&& MIN_SCALE <= self.scale <= MAX_SCALE
        &&& self.int_val == 0 ==> !self.negative
    }

    /// The signed unscaled integer, `(-1)^negative * int_val`.
    pub open spec fn signed_int(&self) -> int {
        if self.negative {
            -(self.int_val as int)
        } else {
            self.int_val as int
        }
    }

    /// Whether `self` and `o` denote the same number, whatever their scales.
    pub open spec fn same_value(&self, o: Decimal) -> bool {
        let top = if self.scale >= o.scale { self.scale as int } else { o.scale as int };
        self.signed_int() * pow10((top - self.scale) as nat) == o.signed_int() * pow10(
            (top - o.scale) as nat,
        )
    }

    /// Builds a value from parts that are already known to be valid.
    pub(crate) fn from_parts_unchecked(int_val: u128, scale: i16, negative: bool) -> (r: Decimal)
        requires
            (Decimal { int_val, scale, negative }).wf(),
        ensures
            r == (Decimal { int_val, scale, negative }),
    {
        Decimal { int_val, scale, negative }
    }

    /// The unscaled magnitude.
    pub fn int_val(&self) -> (r: u128)
        ensures
            r == self.int_val,
    {
        self.int_val
    }

    /// The number of digits right of the decimal point (negative: implied trailing zeros).
    pub fn scale(&self) -> (r: i16)
        ensures
            r == self.scale,
    {
        self.scale
    }

    /// Whether the value is below zero.
    pub fn is_sign_negative(&self) -> (r: bool)
        ensures
            r == self.negative,
    {
        self.negative
    }
}

pub proof fn lemma_pow10_pos(n: nat)
    ensures
        pow10(n) >= 1,
    decreases n,
{
    if n > 0 {
        lemma_pow10_pos((n - 1) as nat);
    }
}

pub proof fn lemma_pow10_mono(a: nat, b: nat)
    requires
        a <= b,
    ensures
        pow10(a) <= pow10(b),
    decreases b,
{
    if a < b {
        lemma_pow10_mono(a, (b - 1) as nat);
        lemma_pow10_pos((b - 1) as nat);
    }
}

pub proof fn lemma_pow10_38()
    ensures
        pow10(38) == 100000000000000000000000000000000000000nat,
        pow10(38) < 0x1_0000_0000_0000_0000_0000_0000_0000_0000nat,
{
    reveal_with_fuel(pow10, 39);
}

/// A run of `n` digits is below `10^n`.
pub proof fn lemma_digits_value_bound(r: Seq<u8>)
    requires
        forall|i: int| 0 <= i < r.len() ==> is_digit(#[trigger] r[i]),
    ensures
        digits_value(r) < pow10(r.len()),
    decreases r.len(),
{
    if r.len() > 0 {
        lemma_digits_value_bound(r.drop_last());
    }
}

/// Extending a digit run by one digit on the right.
pub proof fn lemma_digits_value_push(r: Seq<u8>, b: u8)
    ensures
        digits_value(r.push(b)) == digits_value(r) * 10 + (b - 48) as nat,
{
    assert(r.push(b).drop_last() =~= r);
}

/// Leading zeros do not change the value of a digit run.
pub proof fn lemma_digits_value_leading_zero(r: Seq<u8>)
    ensures
        digits_value(seq![48u8] + r) == digits_value(r),
    decreases r.len(),
{
    if r.len() > 0 {
        assert((seq![48u8] + r).drop_last() =~= seq![48u8] + r.drop_last());
        assert((seq![48u8] + r).last() == r.last());
        lemma_digits_value_leading_zero(r.drop_last());
    } else {
        assert(seq![48u8] + r =~= seq![48u8]);
        assert(seq![48u8].drop_last() =~= Seq::<u8>::empty());
        assert(digits_value(seq![48u8]) == digits_value(Seq::<u8>::empty()) * 10 + 0);
    }
}

} // verus!
