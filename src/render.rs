use vstd::prelude::*;
use vstd::string::StringExecFns;

use crate::decimal::Decimal;

verus! {

/// The decimal digits of `m`, most significant first; `0` is one digit.
pub open spec fn digits_of(m: nat) -> Seq<u8>
    decreases m,
{
    if m < 10 {
        seq![(48 + m) as u8]
    } else {
        digits_of(m / 10).push((48 + m % 10) as u8)
    }
}

/// `n` zero digits.
pub open spec fn zeros(n: nat) -> Seq<u8> {
    Seq::new(n, |i: int| 48u8)
}

/// The canonical text of a value without its sign: plain notation, the scale
/// shown as digits right of the point, a negative scale as trailing zeros, and
/// zero as `0`.
pub open spec fn render_unsigned(d: Decimal) -> Seq<u8> {
    let ds = digits_of(d.int_val as nat);
    let s = d.scale as int;
    if d.int_val == 0 {
        seq![48u8]
    } else if s <= 0 {
        ds + zeros((-s) as nat)
    } else if ds.len() > s {
        ds.take(ds.len() - s) + seq![46u8] + ds.skip(ds.len() - s)
    } else {
        seq![48u8, 46u8] + zeros((s - ds.len()) as nat) + ds
    }
}

/// The canonical text of a value: a `-` when it is negative, then its digits.
pub open spec fn render(d: Decimal) -> Seq<u8> {
    if d.negative {
        seq![45u8] + render_unsigned(d)
    } else {
        render_unsigned(d)
    }
}

/// The characters of an ASCII text.
pub open spec fn ascii_chars(s: Seq<u8>) -> Seq<char> {
    s.map_values(|b: u8| b as char)
}

/// The bytes that the canonical text is made of.
pub open spec fn is_text_byte(b: u8) -> bool {
    48 <= b <= 57 || b == 45 || b == 46
}

proof fn lemma_digits_of_bytes(m: nat)
    ensures
        forall|i: int| 0 <= i < digits_of(m).len() ==> 48 <= #[trigger] digits_of(m)[i] <= 57,
        digits_of(m).len() >= 1,
    decreases m,
{
    if m >= 10 {
        lemma_digits_of_bytes(m / 10);
    }
}

/// The digits of `m`, most significant first.
fn digits_vec(m: u128) -> (r: Vec<u8>)
    ensures
        r@ == digits_of(m as nat),
{
    let mut rev: Vec<u8> = Vec::new();
    let mut k: u128 = m;
    while k >= 10
        invariant
            digits_of(m as nat) =~= digits_of(k as nat) + Seq::new(
                rev@.len(),
                |j: int| rev@[rev@.len() - 1 - j],
            ),
        decreases k,
    {
        let ghost old_rev = rev@;
        rev.push((48 + k % 10) as u8);
        proof {
            assert(digits_of(k as nat) == digits_of((k / 10) as nat).push((48 + k % 10) as u8));
            assert(Seq::new(rev@.len(), |j: int| rev@[rev@.len() - 1 - j]) =~= seq![
                (48 + k % 10) as u8,
            ] + Seq::new(old_rev.len(), |j: int| old_rev[old_rev.len() - 1 - j]));
        }
        k = k / 10;
    }
    rev.push((48 + k) as u8);
    let mut r: Vec<u8> = Vec::new();
    let mut i: usize = rev.len();
    while i > 0
        invariant
            i <= rev@.len(),
            r@ =~= Seq::new((rev@.len() - i) as nat, |j: int| rev@[rev@.len() - 1 - j]),
        decreases i,
    {
        i = i - 1;
        r.push(rev[i]);
    }
    r
}

/// Appends `ds[from..to]`.
fn push_range(out: &mut Vec<u8>, ds: &Vec<u8>, from: usize, to: usize)
    requires
        from <= to <= ds@.len(),
    ensures
        final(out)@ == old(out)@ + ds@.subrange(from as int, to as int),
{
    let mut i: usize = from;
    while i < to
        invariant
            from <= i <= to,
            to <= ds@.len(),
            out@ =~= old(out)@ + ds@.subrange(from as int, i as int),
        decreases to - i,
    {
        out.push(ds[i]);
        i = i + 1;
    }
}

/// Appends `n` zero digits.
fn push_zeros(out: &mut Vec<u8>, n: usize)
    ensures
        final(out)@ == old(out)@ + zeros(n as nat),
{
    let mut i: usize = 0;
    while i < n
        invariant
            i <= n,
            out@ =~= old(out)@ + zeros(i as nat),
        decreases n - i,
    {
        out.push(48u8);
        i = i + 1;
    }
}

/// The one-character text of a byte of the canonical text.
fn text_of_byte(b: u8) -> (r: &'static str)
    requires
        is_text_byte(b),
    ensures
        r@ == seq![b as char],
{
    proof {
        reveal_strlit("0");
        reveal_strlit("1");
        reveal_strlit("2");
        reveal_strlit("3");
        reveal_strlit("4");
        reveal_strlit("5");
        reveal_strlit("6");
        reveal_strlit("7");
        reveal_strlit("8");
        reveal_strlit("9");
        reveal_strlit("-");
        reveal_strlit(".");
    }
    match b {
        48u8 => "0",
        49u8 => "1",
        50u8 => "2",
        51u8 => "3",
        52u8 => "4",
        53u8 => "5",
        54u8 => "6",
        55u8 => "7",
        56u8 => "8",
        57u8 => "9",
        45u8 => "-",
        _ => ".",
    }
}

impl Decimal {
    /// The canonical text of the value, as bytes.
    pub fn to_bytes(&self) -> (r: Vec<u8>)
        ensures
            r@ == render(*self),
    {
        let mut out: Vec<u8> = Vec::new();
        if self.negative {
            out.push(45u8);
        }
        let ghost head = out@;
        let ds = digits_vec(self.int_val);
        let n = ds.len();
        if self.int_val == 0 {
            out.push(48u8);
        } else if self.scale <= 0 {
            push_range(&mut out, &ds, 0, n);
            push_zeros(&mut out, (-(self.scale as i32)) as usize);
            assert(ds@.subrange(0, n as int) =~= ds@);
        } else if n > self.scale as usize {
            let cut = n - self.scale as usize;
            push_range(&mut out, &ds, 0, cut);
            out.push(46u8);
            push_range(&mut out, &ds, cut, n);
            assert(out@ =~= head + (ds@.take(cut as int) + seq![46u8] + ds@.skip(cut as int)));
        } else {
            out.push(48u8);
            out.push(46u8);
            push_zeros(&mut out, self.scale as usize - n);
            push_range(&mut out, &ds, 0, n);
            assert(ds@.subrange(0, n as int) =~= ds@);
            assert(out@ =~= head + (seq![48u8, 46u8] + zeros((self.scale - n) as nat) + ds@));
        }
        assert(out@ =~= render(*self));
        out
    }

    /// The canonical text of the value.
    pub fn to_string(&self) -> (r: String)
        ensures
            r@ == ascii_chars(render(*self)),
    {
        let bytes = self.to_bytes();
        proof {
            lemma_digits_of_bytes(self.int_val as nat);
            assert forall|i: int| 0 <= i < bytes@.len() implies is_text_byte(#[trigger] bytes@[i]) by {
                let ds = digits_of(self.int_val as nat);
                assert(forall|k: int| 0 <= k < ds.len() ==> is_text_byte(#[trigger] ds[k]));
            }
        }
        let mut r = String::new();
        let mut i: usize = 0;
        while i < bytes.len()
            invariant
                i <= bytes@.len(),
                bytes@ == render(*self),
                forall|k: int| 0 <= k < bytes@.len() ==> is_text_byte(#[trigger] bytes@[k]),
                r@ =~= ascii_chars(bytes@.take(i as int)),
            decreases bytes@.len() - i,
        {
            r.append(text_of_byte(bytes[i]));
            assert(bytes@.take(i as int + 1) =~= bytes@.take(i as int).push(bytes@[i as int]));
            i = i + 1;
        }
        assert(bytes@.take(bytes@.len() as int) =~= bytes@);
        r
    }
}

} // verus!
