use vstd::prelude::*;

verus! {

use vstd::arithmetic::power2::pow2;
use vstd::arithmetic::power2::lemma_pow2_unfold;
use vstd::arithmetic::power2::lemma_pow2_adds;
use vstd::arithmetic::power2::lemma_pow2_strictly_increases;
use vstd::arithmetic::power2::lemma_pow2_pos;
use vstd::arithmetic::power2::lemma2_to64;
use vstd::arithmetic::power2::lemma2_to64_rest;
use vstd::arithmetic::div_mod::lemma_fundamental_div_mod;
use vstd::arithmetic::div_mod::lemma_fundamental_div_mod_converse;
use vstd::arithmetic::div_mod::lemma_basic_div;
use vstd::arithmetic::div_mod::lemma_div_denominator;

/// The numeric weight of one bit.
pub open spec fn bit_nat(b: bool) -> nat {
    if b {
        1
    } else {
        0
    }
}

/// The value of a bit string read most-significant bit first.
pub open spec fn value_of(s: Seq<bool>) -> nat
    decreases s.len(),
{
    if s.len() == 0 {
        0
    } else {
        2 * value_of(s.drop_last()) + bit_nat(s.last())
    }
}

/// Appending a low-order bit doubles the value and adds the bit.
pub proof fn lemma_value_snoc(s: Seq<bool>, b: bool)
    ensures
        value_of(s.push(b)) == 2 * value_of(s) + bit_nat(b),
{
    assert(s.push(b).drop_last() =~= s);
    assert(s.push(b).last() == b);
}

/// A bit string of length n holds a value below 2^n.
pub proof fn lemma_value_bound(s: Seq<bool>)
    ensures
        value_of(s) < pow2(s.len()),
    decreases s.len(),
{
    if s.len() == 0 {
        lemma2_to64();
    } else {
        lemma_value_bound(s.drop_last());
        lemma_pow2_unfold(s.len());
    }
}

/// Splitting a bit string at position i splits its value into a high and a
/// low part.
pub proof fn lemma_value_split(s: Seq<bool>, i: int)
    requires
        0 <= i <= s.len(),
    ensures
        value_of(s) == value_of(s.take(i)) * pow2((s.len() - i) as nat) + value_of(s.skip(i)),
    decreases s.len(),
{
    if i == s.len() {
        assert(s.take(i) =~= s);
        assert(s.skip(i) =~= Seq::<bool>::empty());
        lemma2_to64();
    } else {
        let s0 = s.drop_last();
        lemma_value_split(s0, i);
        assert(s0.take(i) =~= s.take(i));
        assert(s.skip(i).drop_last() =~= s0.skip(i));
        assert(s.skip(i).last() == s.last());
        lemma_pow2_unfold((s.len() - i) as nat);
        let t = value_of(s.take(i));
        let ph = pow2((s.len() - 1 - i) as nat);
        assert(2 * (t * ph) == t * (2 * ph)) by (nonlinear_arith);
    }
}

/// A value is zero exactly when every bit is clear.
pub proof fn lemma_value_zero(s: Seq<bool>)
    ensures
        (value_of(s) == 0) <==> (forall|j: int| 0 <= j < s.len() ==> !s[j]),
    decreases s.len(),
{
    if s.len() > 0 {
        lemma_value_zero(s.drop_last());
        assert(forall|j: int| 0 <= j < s.len() - 1 ==> s.drop_last()[j] == s[j]);
        assert(s.last() == s[s.len() - 1]);
    }
}

/// An all-ones bit string of length n has value 2^n - 1.
pub proof fn lemma_value_ones(s: Seq<bool>)
    requires
        forall|j: int| 0 <= j < s.len() ==> s[j],
    ensures
        value_of(s) + 1 == pow2(s.len()),
    decreases s.len(),
{
    if s.len() == 0 {
        lemma2_to64();
    } else {
        lemma_value_ones(s.drop_last());
        lemma_pow2_unfold(s.len());
        assert(s.last() == s[s.len() - 1]);
    }
}

/// Peeling the leading bit off a suffix.
pub proof fn lemma_value_skip_head(s: Seq<bool>, i: int)
    requires
        0 <= i < s.len(),
    ensures
        value_of(s.skip(i)) == bit_nat(s[i]) * pow2((s.len() - i - 1) as nat) + value_of(
            s.skip(i + 1),
        ),
{
    let t = s.skip(i);
    lemma_value_split(t, 1);
    assert(t.skip(1) =~= s.skip(i + 1));
    assert(t.take(1).drop_last() =~= Seq::<bool>::empty());
    assert(t.take(1).last() == s[i]);
    assert(value_of(Seq::<bool>::empty()) == 0);
    assert(value_of(t.take(1)) == bit_nat(s[i]));
}

/// The high bits of a string hold the value divided by the weight of the
/// dropped low bits.
pub proof fn lemma_value_take_div(s: Seq<bool>, i: int)
    requires
        0 <= i <= s.len(),
    ensures
        value_of(s.take(i)) == value_of(s) / pow2((s.len() - i) as nat),
{
    lemma_value_split(s, i);
    lemma_value_bound(s.skip(i));
    assert(s.skip(i).len() == s.len() - i);
    lemma_pow2_pos((s.len() - i) as nat);
    lemma_fundamental_div_mod_converse(
        value_of(s) as int,
        pow2((s.len() - i) as nat) as int,
        value_of(s.take(i)) as int,
        value_of(s.skip(i)) as int,
    );
}

/// Two equal-length strings that agree on a prefix are ordered by the first
/// bit where they differ.
pub proof fn lemma_value_prefix_lt(a: Seq<bool>, b: Seq<bool>, i: int)
    requires
        a.len() == b.len(),
        0 <= i < a.len(),
        a.take(i) == b.take(i),
        !a[i],
        b[i],
    ensures
        value_of(a) < value_of(b),
{
    lemma_value_split(a, i);
    lemma_value_split(b, i);
    lemma_value_skip_head(a, i);
    lemma_value_skip_head(b, i);
    lemma_value_bound(a.skip(i + 1));
    assert(a.skip(i + 1).len() == a.len() - i - 1);
    let p = pow2((a.len() - i) as nat);
    let q = pow2((a.len() - i - 1) as nat);
    assert(bit_nat(a[i]) * q == 0) by (nonlinear_arith)
        requires
            bit_nat(a[i]) == 0,
    ;
    assert(bit_nat(b[i]) * q == q) by (nonlinear_arith)
        requires
            bit_nat(b[i]) == 1,
    ;
    assert(value_of(a.skip(i)) < q);
    assert(value_of(b.skip(i)) >= q);
    assert(value_of(a.take(i)) * p == value_of(b.take(i)) * p);
}

/// 2^e as a machine word.
pub fn pow2_u64(e: u32) -> (r: u64)
    requires
        e <= 63,
    ensures
        r == pow2(e as nat),
{
    let mut r: u64 = 1;
    let mut i: u32 = 0;
    proof {
        lemma2_to64();
    }
    while i < e
        invariant
            i <= e,
            e <= 63,
            r == pow2(i as nat),
        decreases e - i,
    {
        proof {
            lemma_pow2_unfold((i + 1) as nat);
            if (i as nat) + 1 < 64 {
                lemma_pow2_strictly_increases((i + 1) as nat, 64);
            }
            lemma2_to64_rest();
        }
        r = r * 2;
        i = i + 1;
    }
    r
}

/// The value a digit takes when aligned to a width not below its own length,
/// by low-order zero padding.
pub open spec fn align_val(s: Seq<bool>, w: nat) -> nat {
    value_of(s) * pow2((w - s.len()) as nat)
}

/// The width at which two digits are compared: the larger of their lengths.
pub open spec fn align_width(a: Seq<bool>, b: Seq<bool>) -> nat {
    if a.len() < b.len() {
        b.len()
    } else {
        a.len()
    }
}

/// The strict order on digits: fixed-point comparison, high bits first, the
/// shorter digit padded with low-order zeros.
pub open spec fn digit_lt(a: Seq<bool>, b: Seq<bool>) -> bool {
    align_val(a, align_width(a, b)) < align_val(b, align_width(a, b))
}

/// Two digits stand for the same point of the space, though their lengths
/// may differ.
pub open spec fn digit_eq_val(a: Seq<bool>, b: Seq<bool>) -> bool {
    align_val(a, align_width(a, b)) == align_val(b, align_width(a, b))
}

/// The outcome of an alignment comparison does not depend on the common
/// width chosen, as long as neither digit is truncated.
pub proof fn lemma_align_scale(a: Seq<bool>, b: Seq<bool>, w: nat)
    requires
        a.len() <= w,
        b.len() <= w,
    ensures
        (align_val(a, w) < align_val(b, w)) <==> digit_lt(a, b),
        (align_val(a, w) == align_val(b, w)) <==> digit_eq_val(a, b),
{
    let m = align_width(a, b);
    let k = (w - m) as nat;
    lemma_pow2_adds((m - a.len()) as nat, k);
    lemma_pow2_adds((m - b.len()) as nat, k);
    assert(align_val(a, w) == align_val(a, m) * pow2(k)) by (nonlinear_arith)
        requires
            pow2((w - a.len()) as nat) == pow2((m - a.len()) as nat) * pow2(k),
            align_val(a, w) == value_of(a) * pow2((w - a.len()) as nat),
            align_val(a, m) == value_of(a) * pow2((m - a.len()) as nat),
    ;
    assert(align_val(b, w) == align_val(b, m) * pow2(k)) by (nonlinear_arith)
        requires
            pow2((w - b.len()) as nat) == pow2((m - b.len()) as nat) * pow2(k),
            align_val(b, w) == value_of(b) * pow2((w - b.len()) as nat),
            align_val(b, m) == value_of(b) * pow2((m - b.len()) as nat),
    ;
    lemma_pow2_pos(k);
    let x = align_val(a, m);
    let y = align_val(b, m);
    assert(((x * pow2(k) < y * pow2(k)) <==> (x < y)) && ((x * pow2(k) == y * pow2(k)) <==> (x
        == y))) by (nonlinear_arith)
        requires
            pow2(k) >= 1,
    ;
}

/// The digit order is transitive.
pub proof fn lemma_digit_lt_trans(a: Seq<bool>, b: Seq<bool>, c: Seq<bool>)
    requires
        digit_lt(a, b),
        digit_lt(b, c),
    ensures
        digit_lt(a, c),
{
    let w = if a.len() < b.len() {
        if b.len() < c.len() {
            c.len()
        } else {
            b.len()
        }
    } else {
        if a.len() < c.len() {
            c.len()
        } else {
            a.len()
        }
    };
    lemma_align_scale(a, b, w);
    lemma_align_scale(b, c, w);
    lemma_align_scale(a, c, w);
}

/// The digit component of an identifier: a bit string, most-significant bit
/// first, whose length is part of its meaning.  A digit of length n stands
/// for the value of its bits; two digits of different lengths are compared by
/// aligning the shorter one with low-order zero bits.
pub struct Digit {
    bits: Vec<bool>,
}

impl View for Digit {
    type V = Seq<bool>;

    closed spec fn view(&self) -> Seq<bool> {
        self.bits@
    }
}

impl Clone for Digit {
    fn clone(&self) -> (r: Self)
        ensures
            r@ == self@,
    {
        let mut bits: Vec<bool> = Vec::new();
        let mut i: usize = 0;
        while i < self.bits.len()
            invariant
                i <= self@.len(),
                bits@ == self@.take(i as int),
            decreases self@.len() - i,
        {
            proof {
                assert(self@.take(i + 1).drop_last() =~= self@.take(i as int));
            }
            bits.push(self.bits[i]);
            proof {
                assert(bits@ =~= self@.take(i + 1));
            }
            i = i + 1;
        }
        proof {
            assert(self@.take(self@.len() as int) =~= self@);
        }
        Digit { bits }
    }
}

impl Digit {
    /// The logical bit length of the digit.
    pub fn width(&self) -> (r: usize)
        ensures
            r == self@.len(),
    {
        self.bits.len()
    }

    /// The bit at position i, most-significant first.
    pub fn get_bit(&self, i: usize) -> (r: bool)
        requires
            i < self@.len(),
        ensures
            r == self@[i as int],
    {
        self.bits[i]
    }

    /// A digit of the given width holding the given value.
    pub fn from_u64(value: u64, width: usize) -> (r: Digit)
        requires
            (value as nat) < pow2(width as nat),
        ensures
            r@.len() == width,
            value_of(r@) == value,
    {
        let mut bits: Vec<bool> = Vec::new();
        let mut i: usize = 0;
        proof {
            lemma_pow2_pos(width as nat);
            lemma_basic_div(value as int, pow2(width as nat) as int);
        }
        while i < width
            invariant
                i <= width,
                bits@.len() == i,
                (value as nat) < pow2(width as nat),
                value_of(bits@) == (value as nat) / pow2((width - i) as nat),
            decreases width - i,
        {
            let pos = width - 1 - i;
            let b: bool;
            if pos >= 64 {
                b = false;
            } else {
                let p = pow2_u64(pos as u32);
                proof {
                    lemma_pow2_pos(pos as nat);
                }
                b = (value / p) % 2 == 1;
            }
            proof {
                let k = (width - i) as nat;
                let q = (value as nat) / pow2((k - 1) as nat);
                lemma_pow2_pos((k - 1) as nat);
                lemma_pow2_pos(k);
                if pos >= 64 {
                    if 64 < (k - 1) as nat {
                        lemma_pow2_strictly_increases(64, (k - 1) as nat);
                    }
                    lemma2_to64_rest();
                    lemma_basic_div(value as int, pow2((k - 1) as nat) as int);
                    assert(q == 0);
                } else {
                    assert(value as nat / pow2(pos as nat) == q);
                }
                // q / 2 == value / 2^k
                lemma_pow2_unfold(k);
                lemma_div_denominator(value as int, pow2((k - 1) as nat) as int, 2);
                assert(pow2((k - 1) as nat) * 2 == pow2(k)) by (nonlinear_arith)
                    requires
                        pow2(k) == 2 * pow2((k - 1) as nat),
                ;
                lemma_fundamental_div_mod(q as int, 2);
                lemma_value_snoc(bits@, b);
                assert(bit_nat(b) == q % 2);
                assert(value_of(bits@.push(b)) == (value as nat) / pow2((k - 1) as nat));
            }
            bits.push(b);
            i = i + 1;
        }
        proof {
            lemma2_to64();
            vstd::arithmetic::div_mod::lemma_div_basics(value as int);
        }
        Digit { bits }
    }

    /// The digit left-aligned in a field of the given width: the same bits
    /// followed by low-order zero bits.
    pub fn padded_to(&self, w: usize) -> (r: Digit)
        requires
            self@.len() <= w,
        ensures
            r@.len() == w,
            r@ == self@ + Seq::new((w - self@.len()) as nat, |k: int| false),
            value_of(r@) == value_of(self@) * pow2((w - self@.len()) as nat),
    {
        let ghost n = self@.len();
        let mut out = self.clone();
        proof {
            lemma2_to64();
            assert(self@ + Seq::new(0, |k: int| false) =~= self@);
        }
        let mut j: usize = out.bits.len();
        while j < w
            invariant
                n <= j <= w,
                n == self@.len(),
                out@.len() == j,
                out@ == self@ + Seq::new((j - n) as nat, |k: int| false),
                value_of(out@) == value_of(self@) * pow2((j - n) as nat),
            decreases w - j,
        {
            proof {
                lemma_value_snoc(out@, false);
                lemma_pow2_unfold((j + 1 - n) as nat);
                let v = value_of(self@);
                let p = pow2((j - n) as nat);
                assert(2 * (v * p) == v * (2 * p)) by (nonlinear_arith);
                assert(out@.push(false) =~= self@ + Seq::new((j + 1 - n) as nat, |k: int| false));
            }
            out.bits.push(false);
            j = j + 1;
        }
        out
    }

    /// The leading w bits of the digit; dropping the low bits divides the
    /// value by their weight.
    pub fn high_bits(&self, w: usize) -> (r: Digit)
        requires
            w <= self@.len(),
        ensures
            r@ == self@.take(w as int),
            r@.len() == w,
            value_of(r@) == value_of(self@) / pow2((self@.len() - w) as nat),
    {
        let mut bits: Vec<bool> = Vec::new();
        let mut i: usize = 0;
        while i < w
            invariant
                i <= w <= self@.len(),
                bits@ == self@.take(i as int),
            decreases w - i,
        {
            proof {
                assert(self@.take(i + 1) =~= self@.take(i as int).push(self@[i as int]));
            }
            bits.push(self.bits[i]);
            i = i + 1;
        }
        proof {
            lemma_value_take_div(self@, w as int);
        }
        Digit { bits }
    }

    /// The digit with a small delta added; the width is unchanged.
    pub fn plus_small(&self, delta: u64) -> (r: Digit)
        requires
            delta <= 0xFFFF_FFFF,
            value_of(self@) + delta < pow2(self@.len()),
        ensures
            r@.len() == self@.len(),
            value_of(r@) == value_of(self@) + delta,
    {
        let ghost s = self@;
        let mut out = self.clone();
        let n = out.bits.len();
        let mut i: usize = n;
        let mut carry: u64 = delta;
        proof {
            assert(s.skip(n as int) =~= Seq::<bool>::empty());
            assert(out@.skip(n as int) =~= Seq::<bool>::empty());
            assert(value_of(Seq::<bool>::empty()) == 0);
            lemma2_to64();
            assert(delta as nat * pow2(0) == delta) by (nonlinear_arith)
                requires
                    pow2(0) == 1,
            ;
        }
        while carry > 0 && i > 0
            invariant
                i <= n,
                n == s.len(),
                out@.len() == n,
                carry <= delta,
                delta <= 0xFFFF_FFFF,
                value_of(s) + delta < pow2(n as nat),
                forall|k: int| 0 <= k < i ==> out@[k] == s[k],
                value_of(out@.skip(i as int)) + carry * pow2((n - i) as nat) == value_of(
                    s.skip(i as int),
                ) + delta,
            decreases i,
        {
            let i2 = i - 1;
            let b = out.bits[i2];
            let t = carry + if b {
                1
            } else {
                0
            };
            let nb = t % 2 == 1;
            let ghost prev = out@;
            out.bits[i2] = nb;
            proof {
                let p = pow2((n - i) as nat);
                lemma_pow2_unfold((n - i2) as nat);
                assert(b == s[i2 as int]);
                assert(out@ == prev.update(i2 as int, nb));
                lemma_value_skip_head(out@, i2 as int);
                assert(out@.skip(i2 + 1) =~= prev.skip(i as int));
                assert(out@[i2 as int] == nb);
                lemma_value_skip_head(s, i2 as int);
                lemma_fundamental_div_mod(t as int, 2);
                assert(bit_nat(nb) == t as nat % 2);
                let q = (t / 2) as nat;
                assert(bit_nat(nb) * p + (q * 2) * p == ((t as nat) * p)) by (nonlinear_arith)
                    requires
                        t as nat == 2 * q + (t as nat % 2),
                        bit_nat(nb) == t as nat % 2,
                ;
                assert((t as nat) * p == (carry as nat) * p + bit_nat(b) * p) by (nonlinear_arith)
                    requires
                        t == carry + bit_nat(b),
                ;
                assert(value_of(out@.skip(i2 as int)) + q * pow2((n - i2) as nat) == value_of(
                    s.skip(i2 as int),
                ) + delta) by {
                    assert(q * pow2((n - i2) as nat) == (q * 2) * p) by (nonlinear_arith)
                        requires
                            pow2((n - i2) as nat) == 2 * p,
                    ;
                }
            }
            carry = t / 2;
            i = i2;
        }
        proof {
            if carry > 0 {
                let pn = pow2((n - i) as nat);
                assert(carry * pn >= pn) by (nonlinear_arith)
                    requires
                        carry >= 1,
                        pn >= 0,
                ;
                assert(i == 0);
                assert(s.skip(0) =~= s);
                assert(false);
            }
            assert(out@.take(i as int) =~= s.take(i as int));
            lemma_value_split(out@, i as int);
            lemma_value_split(s, i as int);
        }
        out
    }

    /// The digit with a small delta subtracted; the width is unchanged.
    pub fn minus_small(&self, delta: u64) -> (r: Digit)
        requires
            delta <= 0xFFFF_FFFF,
            delta <= value_of(self@),
        ensures
            r@.len() == self@.len(),
            value_of(r@) == value_of(self@) - delta,
    {
        let ghost s = self@;
        let mut out = self.clone();
        let n = out.bits.len();
        let mut i: usize = n;
        let mut borrow: u64 = delta;
        proof {
            assert(s.skip(n as int) =~= Seq::<bool>::empty());
            assert(out@.skip(n as int) =~= Seq::<bool>::empty());
            assert(value_of(Seq::<bool>::empty()) == 0);
            lemma2_to64();
            assert(delta as nat * pow2(0) == delta) by (nonlinear_arith)
                requires
                    pow2(0) == 1,
            ;
        }
        while borrow > 0 && i > 0
            invariant
                i <= n,
                n == s.len(),
                out@.len() == n,
                borrow <= delta,
                delta <= value_of(s),
                forall|k: int| 0 <= k < i ==> out@[k] == s[k],
                value_of(out@.skip(i as int)) as int == value_of(s.skip(i as int)) + borrow
                    * pow2((n - i) as nat) - delta,
            decreases i,
        {
            let i2 = i - 1;
            let b = out.bits[i2];
            let lo = borrow % 2 == 1;
            let nb = b != lo;
            let nborrow = borrow / 2 + if lo && !b {
                1
            } else {
                0
            };
            let ghost prev = out@;
            out.bits[i2] = nb;
            proof {
                let p = pow2((n - i) as nat);
                lemma_pow2_unfold((n - i2) as nat);
                assert(b == s[i2 as int]);
                assert(out@ == prev.update(i2 as int, nb));
                lemma_value_skip_head(out@, i2 as int);
                assert(out@.skip(i2 + 1) =~= prev.skip(i as int));
                assert(out@[i2 as int] == nb);
                lemma_value_skip_head(s, i2 as int);
                lemma_fundamental_div_mod(borrow as int, 2);
                assert(bit_nat(nb) + borrow == bit_nat(b) + 2 * nborrow);
                assert(bit_nat(nb) * p + (borrow as nat) * p == bit_nat(b) * p + (nborrow as nat
                    * 2) * p) by (nonlinear_arith)
                    requires
                        bit_nat(nb) + borrow == bit_nat(b) + 2 * nborrow,
                        p >= 0,
                ;
                assert(nborrow as nat * pow2((n - i2) as nat) == (nborrow as nat * 2) * p)
                    by (nonlinear_arith)
                    requires
                        pow2((n - i2) as nat) == 2 * p,
                ;
            }
            borrow = nborrow;
            i = i2;
        }
        proof {
            if borrow > 0 {
                let pn = pow2((n - i) as nat);
                assert(borrow * pn >= pn) by (nonlinear_arith)
                    requires
                        borrow >= 1,
                        pn >= 0,
                ;
                assert(i == 0);
                assert(s.skip(0) =~= s);
                assert(out@.skip(0) =~= out@);
                lemma_value_bound(out@);
                assert(false);
            }
            assert(out@.take(i as int) =~= s.take(i as int));
            lemma_value_split(out@, i as int);
            lemma_value_split(s, i as int);
        }
        out
    }

    /// The difference of two equal-width digits, as a digit of that width.
    pub fn minus(&self, other: &Digit) -> (r: Digit)
        requires
            self@.len() == other@.len(),
            value_of(other@) <= value_of(self@),
        ensures
            r@.len() == self@.len(),
            value_of(r@) == value_of(self@) - value_of(other@),
    {
        let ghost s = self@;
        let ghost o = other@;
        let mut out = self.clone();
        let n = out.bits.len();
        let mut i: usize = n;
        let mut borrow: bool = false;
        proof {
            assert(s.skip(n as int) =~= Seq::<bool>::empty());
            assert(o.skip(n as int) =~= Seq::<bool>::empty());
            assert(out@.skip(n as int) =~= Seq::<bool>::empty());
            assert(value_of(Seq::<bool>::empty()) == 0);
        }
        while i > 0
            invariant
                i <= n,
                n == s.len(),
                n == o.len(),
                o == other@,
                out@.len() == n,
                forall|k: int| 0 <= k < i ==> out@[k] == s[k],
                value_of(out@.skip(i as int)) as int == value_of(s.skip(i as int)) - value_of(
                    o.skip(i as int),
                ) + bit_nat(borrow) * pow2((n - i) as nat),
            decreases i,
        {
            let i2 = i - 1;
            let a1 = out.bits[i2];
            let b1 = other.bits[i2];
            let nb = (a1 != b1) != borrow;
            let nborrow = (!a1 && b1) || (!a1 && borrow) || (b1 && borrow);
            let ghost prev = out@;
            out.bits[i2] = nb;
            proof {
                let p = pow2((n - i) as nat);
                lemma_pow2_unfold((n - i2) as nat);
                assert(a1 == s[i2 as int]);
                assert(b1 == o[i2 as int]);
                assert(out@ == prev.update(i2 as int, nb));
                lemma_value_skip_head(out@, i2 as int);
                assert(out@.skip(i2 + 1) =~= prev.skip(i as int));
                assert(out@[i2 as int] == nb);
                lemma_value_skip_head(s, i2 as int);
                lemma_value_skip_head(o, i2 as int);
                assert(bit_nat(nb) + bit_nat(borrow) == bit_nat(a1) - bit_nat(b1) + 2 * bit_nat(
                    nborrow,
                ));
                assert(bit_nat(nb) * p + bit_nat(borrow) * p == bit_nat(a1) * p - bit_nat(b1) * p
                    + (bit_nat(nborrow) * 2) * p) by (nonlinear_arith)
                    requires
                        bit_nat(nb) + bit_nat(borrow) == bit_nat(a1) - bit_nat(b1) + 2 * bit_nat(
                            nborrow,
                        ),
                        p >= 0,
                ;
                assert(bit_nat(nborrow) * pow2((n - i2) as nat) == (bit_nat(nborrow) * 2) * p)
                    by (nonlinear_arith)
                    requires
                        pow2((n - i2) as nat) == 2 * p,
                ;
            }
            borrow = nborrow;
            i = i2;
        }
        proof {
            assert(s.skip(0) =~= s);
            assert(o.skip(0) =~= o);
            assert(out@.skip(0) =~= out@);
            if borrow {
                let pn = pow2(n as nat);
                assert(bit_nat(borrow) * pn == pn);
                lemma_value_bound(out@);
                assert(false);
            }
        }
        out
    }

    /// Three-way comparison of two equal-width digits by value.
    pub fn cmp_same_width(&self, other: &Digit) -> (r: core::cmp::Ordering)
        requires
            self@.len() == other@.len(),
        ensures
            (r == core::cmp::Ordering::Less <==> value_of(self@) < value_of(other@)),
            (r == core::cmp::Ordering::Greater <==> value_of(self@) > value_of(other@)),
            (r == core::cmp::Ordering::Equal <==> value_of(self@) == value_of(other@)),
    {
        let n = self.bits.len();
        let mut i: usize = 0;
        while i < n
            invariant
                i <= n,
                n == self@.len(),
                n == other@.len(),
                forall|k: int| 0 <= k < i ==> self@[k] == other@[k],
            decreases n - i,
        {
            let a = self.bits[i];
            let b = other.bits[i];
            if a != b {
                proof {
                    assert(self@.take(i as int) =~= other@.take(i as int));
                }
                if b {
                    proof {
                        lemma_value_prefix_lt(self@, other@, i as int);
                    }
                    return core::cmp::Ordering::Less;
                } else {
                    proof {
                        lemma_value_prefix_lt(other@, self@, i as int);
                    }
                    return core::cmp::Ordering::Greater;
                }
            }
            i = i + 1;
        }
        proof {
            assert(self@ =~= other@);
        }
        core::cmp::Ordering::Equal
    }


    /// An all-zero digit of the given width.
    pub fn zeros(w: usize) -> (r: Digit)
        ensures
            r@.len() == w,
            value_of(r@) == 0,
            forall|j: int| 0 <= j < w ==> !r@[j],
    {
        let mut bits: Vec<bool> = Vec::new();
        let mut i: usize = 0;
        while i < w
            invariant
                i <= w,
                bits@.len() == i,
                forall|j: int| 0 <= j < i ==> !bits@[j],
            decreases w - i,
        {
            bits.push(false);
            i = i + 1;
        }
        proof {
            lemma_value_zero(bits@);
        }
        Digit { bits }
    }

    /// An all-ones digit of the given width; its value is 2^w - 1.
    pub fn ones(w: usize) -> (r: Digit)
        ensures
            r@.len() == w,
            value_of(r@) + 1 == pow2(w as nat),
            forall|j: int| 0 <= j < w ==> r@[j],
    {
        let mut bits: Vec<bool> = Vec::new();
        let mut i: usize = 0;
        while i < w
            invariant
                i <= w,
                bits@.len() == i,
                forall|j: int| 0 <= j < i ==> bits@[j],
            decreases w - i,
        {
            bits.push(true);
            i = i + 1;
        }
        proof {
            lemma_value_ones(bits@);
        }
        Digit { bits }
    }

    /// A copy of the bits in positions [lo, hi).
    pub fn slice_range(&self, lo: usize, hi: usize) -> (r: Digit)
        requires
            lo <= hi <= self@.len(),
        ensures
            r@ == self@.subrange(lo as int, hi as int),
    {
        let mut bits: Vec<bool> = Vec::new();
        let mut i: usize = lo;
        while i < hi
            invariant
                lo <= i <= hi <= self@.len(),
                bits@ == self@.subrange(lo as int, i as int),
            decreases hi - i,
        {
            proof {
                assert(self@.subrange(lo as int, i + 1) =~= self@.subrange(lo as int, i as int).push(
                    self@[i as int],
                ));
            }
            bits.push(self.bits[i]);
            i = i + 1;
        }
        Digit { bits }
    }

    /// Three-way comparison of two digits of any widths: the shorter one is
    /// aligned with low-order zeros, then the values are compared.
    pub fn cmp_digits(&self, other: &Digit) -> (r: core::cmp::Ordering)
        ensures
            (r == core::cmp::Ordering::Less <==> digit_lt(self@, other@)),
            (r == core::cmp::Ordering::Greater <==> digit_lt(other@, self@)),
            (r == core::cmp::Ordering::Equal <==> digit_eq_val(self@, other@)),
    {
        proof {
            lemma2_to64();
        }
        if self.bits.len() < other.bits.len() {
            let sp = self.padded_to(other.bits.len());
            proof {
                assert(value_of(other@) * pow2(0) == value_of(other@)) by (nonlinear_arith)
                    requires
                        pow2(0) == 1,
                ;
            }
            sp.cmp_same_width(other)
        } else {
            let op = other.padded_to(self.bits.len());
            proof {
                assert(value_of(self@) * pow2(0) == value_of(self@)) by (nonlinear_arith)
                    requires
                        pow2(0) == 1,
                ;
            }
            self.cmp_same_width(&op)
        }
    }

    /// Whether the digit's value is zero.
    pub fn is_zero(&self) -> (r: bool)
        ensures
            r <==> value_of(self@) == 0,
    {
        let mut i: usize = 0;
        while i < self.bits.len()
            invariant
                i <= self@.len(),
                forall|j: int| 0 <= j < i ==> !self@[j],
            decreases self@.len() - i,
        {
            if self.bits[i] {
                proof {
                    lemma_value_zero(self@);
                }
                return false;
            }
            i = i + 1;
        }
        proof {
            lemma_value_zero(self@);
        }
        true
    }

    /// The digit's value, saturated at the given cap.
    pub fn min_value_u64(&self, cap: u64) -> (r: u64)
        ensures
            r == if value_of(self@) < cap {
                value_of(self@) as u64
            } else {
                cap
            },
    {
        let n = self.bits.len();
        if n > 64 {
            let split_at = n - 64;
            let mut i: usize = 0;
            while i < split_at
                invariant
                    i <= split_at,
                    split_at == self@.len() - 64,
                    self@.len() > 64,
                    forall|j: int| 0 <= j < i ==> !self@[j],
                decreases split_at - i,
            {
                if self.bits[i] {
                    proof {
                        lemma_value_split(self@, i as int);
                        lemma_value_skip_head(self@, i as int);
                        let q = pow2((self@.len() - i - 1) as nat);
                        assert(bit_nat(self@[i as int]) * q == q) by (nonlinear_arith)
                            requires
                                bit_nat(self@[i as int]) == 1,
                        ;
                        if 64 < (self@.len() - i - 1) as nat {
                            lemma_pow2_strictly_increases(64, (self@.len() - i - 1) as nat);
                        }
                        lemma2_to64_rest();
                        assert(value_of(self@.take(i as int)) * pow2((self@.len() - i) as nat)
                            >= 0);
                    }
                    return cap;
                }
                i = i + 1;
            }
            let low = self.slice_range(split_at, n);
            proof {
                lemma_value_split(self@, split_at as int);
                lemma_value_zero(self@.take(split_at as int));
                assert(self@.take(split_at as int).len() == split_at);
                assert(low@ == self@.skip(split_at as int)) by {
                    assert(self@.subrange(split_at as int, n as int) =~= self@.skip(
                        split_at as int,
                    ));
                }
            }
            let v = low.to_u64();
            if v < cap {
                v
            } else {
                cap
            }
        } else {
            let v = self.to_u64();
            if v < cap {
                v
            } else {
                cap
            }
        }
    }

    /// The digit's value as a machine word; only defined for short digits.
    pub fn to_u64(&self) -> (r: u64)
        requires
            self@.len() <= 64,
        ensures
            r == value_of(self@),
    {
        let mut r: u64 = 0;
        let mut i: usize = 0;
        while i < self.bits.len()
            invariant
                i <= self@.len(),
                self@.len() <= 64,
                r == value_of(self@.take(i as int)),
            decreases self@.len() - i,
        {
            proof {
                lemma_value_bound(self@.take(i as int));
                if (i as nat) < 63 {
                    lemma_pow2_strictly_increases(i as nat, 63);
                }
                lemma2_to64_rest();
                assert(self@.take(i + 1).drop_last() =~= self@.take(i as int));
                lemma_value_snoc(self@.take(i as int), self@[i as int]);
                assert(self@.take(i + 1) =~= self@.take(i as int).push(self@[i as int]));
            }
            let b = self.bits[i];
            r = r * 2 + if b {
                1
            } else {
                0
            };
            i = i + 1;
        }
        proof {
            assert(self@.take(self@.len() as int) =~= self@);
        }
        r
    }
}

} // verus!
