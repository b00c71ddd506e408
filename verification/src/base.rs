use vstd::prelude::*;

verus! {

use vstd::arithmetic::power2::pow2;
use vstd::arithmetic::power2::lemma_pow2_pos;
use vstd::arithmetic::div_mod::lemma_hoist_over_denominator;
use vstd::arithmetic::div_mod::lemma_div_is_ordered;
use crate::digit::Digit;
use crate::digit::value_of;

/// The field width of one hierarchy depth alone: the initial width plus the
/// depth.
pub open spec fn base_at(initial: nat, depth: nat) -> nat {
    initial + depth
}

/// The cumulative bit width through a depth: the sum of the field widths of
/// every depth up to and including it.
pub open spec fn bits_at(initial: nat, depth: nat) -> nat
    decreases depth,
{
    if depth == 0 {
        initial
    } else {
        bits_at(initial, (depth - 1) as nat) + base_at(initial, depth)
    }
}

/// Cumulative widths grow strictly with depth.
pub proof fn lemma_bits_at_increases(initial: nat, d1: nat, d2: nat)
    requires
        d1 < d2,
    ensures
        bits_at(initial, d1) < bits_at(initial, d2),
    decreases d2,
{
    if d1 < d2 - 1 {
        lemma_bits_at_increases(initial, d1, (d2 - 1) as nat);
    }
}

/// A depth's own field width never exceeds the cumulative width through it.
pub proof fn lemma_base_le_bits(initial: nat, depth: nat)
    ensures
        base_at(initial, depth) <= bits_at(initial, depth),
{
}

/// A digit is well formed for a policy when its length is the cumulative
/// width of exactly one depth.
pub open spec fn wf_digit(initial: nat, s: Seq<bool>) -> bool {
    exists|d: nat| s.len() == bits_at(initial, d)
}

/// The value a digit takes once resolved to a width: low-order zero padding
/// when it is shorter, dropping low-order bits when it is longer.
pub open spec fn norm_val(s: Seq<bool>, w: nat) -> nat {
    if s.len() <= w {
        value_of(s) * pow2((w - s.len()) as nat)
    } else {
        value_of(s) / pow2((s.len() - w) as nat)
    }
}

/// The number of free slots strictly between two digits resolved at a depth,
/// or the depth's own field maximum when neither side reaches the depth.
/// The result is negative when the right digit does not resolve strictly
/// above the left one.
pub open spec fn iv_val(initial: nat, l: Seq<bool>, r: Seq<bool>, depth: nat) -> int {
    let w = bits_at(initial, depth);
    if l.len() < w && r.len() < w {
        pow2(base_at(initial, depth)) - 1
    } else {
        norm_val(r, w) - norm_val(l, w) - 1
    }
}

/// Whether a depth has room for at least one fresh value between two digits.
pub open spec fn has_room(initial: nat, l: Seq<bool>, r: Seq<bool>, depth: nat) -> bool {
    iv_val(initial, l, r, depth) >= 1
}

/// The triangular closed form of the cumulative width.
proof fn lemma_bits_closed_form(initial: nat, depth: nat)
    requires
        initial >= 1,
    ensures
        bits_at(initial, depth) == ((initial + depth) * (initial + depth + 1)) / 2 - (((initial
            - 1) * initial) / 2),
    decreases depth,
{
    let n = (initial + depth) as int;
    let m = (initial - 1) as int;
    if depth == 0 {
        assert(n * (n + 1) == m * n + 2 * n) by (nonlinear_arith)
            requires
                m == n - 1,
        ;
        lemma_hoist_over_denominator(m * n, n, 2);
        assert(m * initial == m * n);
    } else {
        lemma_bits_closed_form(initial, (depth - 1) as nat);
        assert(n * (n + 1) == (n - 1) * n + 2 * n) by (nonlinear_arith);
        lemma_hoist_over_denominator((n - 1) * n, n, 2);
    }
}

/// Triangular numbers grow with their argument.
proof fn lemma_triangle_ordered(a: int, b: int)
    requires
        0 <= a <= b,
    ensures
        (a * (a + 1)) / 2 <= (b * (b + 1)) / 2,
{
    assert(a * (a + 1) <= b * (b + 1)) by (nonlinear_arith)
        requires
            0 <= a <= b,
    ;
    lemma_div_is_ordered(a * (a + 1), b * (b + 1), 2);
}

/// The doubling bit-width policy: hierarchy depth d has a field of
/// initial + d bits of its own.
pub struct DoubleBase {
    initial: u32,
}

impl DoubleBase {
    /// The policy's initial field width, as the contracts speak of it.
    pub closed spec fn initial_spec(&self) -> nat {
        self.initial as nat
    }

    /// A policy is well formed when its initial width is positive and small
    /// enough for the width arithmetic to stay within machine words.
    pub open spec fn wf(&self) -> bool {
        1 <= self.initial_spec() <= 0x7FFE
    }

    /// A policy with the given initial field width; five when absent.
    pub fn new(initial: Option<u32>) -> (r: DoubleBase)
        requires
            initial matches Some(i) ==> 1 <= i <= 0x7FFE,
        ensures
            r.wf(),
            r.initial_spec() == (match initial {
                Some(i) => i as nat,
                None => 5,
            }),
    {
        let i = match initial {
            Some(i) => i,
            None => 5,
        };
        DoubleBase { initial: i }
    }

    /// The initial field width.
    pub fn get_initial_base(&self) -> (r: u32)
        ensures
            r == self.initial_spec(),
    {
        self.initial
    }

    /// The field width of one depth alone.
    pub fn get_base(&self, depth: u32) -> (r: u32)
        requires
            self.wf(),
            self.initial_spec() + depth <= 0xFFFF,
        ensures
            r == base_at(self.initial_spec(), depth as nat),
    {
        self.initial + depth
    }

    /// The cumulative bit width through a depth, by the triangular-number
    /// closed form.
    pub fn get_bits(&self, depth: u32) -> (r: u32)
        requires
            self.wf(),
            self.initial_spec() + depth <= 0xFFFF,
        ensures
            r == bits_at(self.initial_spec(), depth as nat),
    {
        let n = self.initial + depth;
        let m = self.initial - 1;
        proof {
            lemma_bits_closed_form(self.initial_spec(), depth as nat);
            lemma_triangle_ordered(m as int, n as int);
            assert((n as int) * ((n as int) + 1) <= 0xFFFF * 0x10000) by (nonlinear_arith)
                requires
                    n <= 0xFFFF,
            ;
        }
        (n * (n + 1)) / 2 - (m * (m + 1)) / 2
    }

    /// The largest raw value one depth's own field can hold, as an all-ones
    /// digit of that field's width.
    pub fn get_max(&self, depth: u32) -> (r: Digit)
        requires
            self.wf(),
            self.initial_spec() + depth <= 0xFFFF,
        ensures
            r@.len() == base_at(self.initial_spec(), depth as nat),
            value_of(r@) + 1 == pow2(base_at(self.initial_spec(), depth as nat)),
            forall|j: int| 0 <= j < r@.len() ==> r@[j],
    {
        let w = self.get_base(depth);
        Digit::ones(w as usize)
    }

    /// A digit realigned so its length equals the cumulative width of the
    /// given depth: low-order zero padding when it is shorter, low-order
    /// truncation when it is longer.
    pub fn normalize(&self, digit: &Digit, depth: u32) -> (r: Digit)
        requires
            self.wf(),
            self.initial_spec() + depth <= 0xFFFF,
        ensures
            r@.len() == bits_at(self.initial_spec(), depth as nat),
            value_of(r@) == norm_val(digit@, bits_at(self.initial_spec(), depth as nat)),
            digit@.len() <= bits_at(self.initial_spec(), depth as nat) ==> r@ == digit@ + Seq::new(
                (bits_at(self.initial_spec(), depth as nat) - digit@.len()) as nat,
                |k: int| false,
            ),
            digit@.len() > bits_at(self.initial_spec(), depth as nat) ==> r@ == digit@.take(
                bits_at(self.initial_spec(), depth as nat) as int,
            ),
    {
        let total = self.get_bits(depth) as usize;
        if digit.width() <= total {
            digit.padded_to(total)
        } else {
            digit.high_bits(total)
        }
    }

    /// The number of free slots strictly between two digits at a depth.
    /// When neither digit reaches the depth's cumulative width the whole
    /// depth-local range is free and the depth's own field maximum is
    /// returned directly.  None stands for a negative count: the right digit
    /// does not resolve strictly above the left one at this depth.
    pub fn interval(&self, left: &Digit, right: &Digit, depth: u32) -> (r: Option<Digit>)
        requires
            self.wf(),
            self.initial_spec() + depth <= 0xFFFF,
        ensures
            (match r {
                Some(d) => iv_val(self.initial_spec(), left@, right@, depth as nat) >= 0
                    && value_of(d@) == iv_val(self.initial_spec(), left@, right@, depth as nat),
                None => iv_val(self.initial_spec(), left@, right@, depth as nat) < 0,
            }),
    {
        let total = self.get_bits(depth) as usize;
        if left.width() < total && right.width() < total {
            proof {
                lemma_pow2_pos(base_at(self.initial_spec(), depth as nat));
            }
            return Some(self.get_max(depth));
        }
        let ln = self.normalize(left, depth);
        let rn = self.normalize(right, depth);
        match rn.cmp_same_width(&ln) {
            core::cmp::Ordering::Greater => {
                let diff = rn.minus(&ln);
                Some(diff.minus_small(1))
            },
            _ => None,
        }
    }

    /// The start of a depth's field inside a digit: the cumulative width of
    /// the previous depth, or zero at the root.
    pub open spec fn field_lo(initial: nat, i: nat) -> nat {
        if i == 0 {
            0
        } else {
            bits_at(initial, (i - 1) as nat)
        }
    }

    /// The digit's per-depth fields, most significant first: field i holds
    /// the bits the digit assigns to hierarchy depth i.
    pub fn split(&self, digit: &Digit) -> (r: Vec<Digit>)
        requires
            self.wf(),
            wf_digit(self.initial_spec(), digit@),
            digit@.len() <= 0xFFFF,
        ensures
            r@.len() >= 1,
            bits_at(self.initial_spec(), (r@.len() - 1) as nat) == digit@.len(),
            forall|i: int|
                0 <= i < r@.len() ==> r@[i]@ == digit@.subrange(
                    Self::field_lo(self.initial_spec(), i as nat) as int,
                    bits_at(self.initial_spec(), i as nat) as int,
                ),
    {
        let ghost init = self.initial_spec();
        let n = digit.width();
        let ghost dd = choose|d: nat| digit@.len() == bits_at(init, d);
        let mut depth: u32 = 0;
        proof {
            lemma_base_le_bits(init, dd);
        }
        while self.get_bits(depth) as usize != n
            invariant
                self.wf(),
                init == self.initial_spec(),
                n == digit@.len(),
                n <= 0xFFFF,
                bits_at(init, dd) == n,
                depth <= dd,
                init + dd <= n,
            decreases dd - depth,
        {
            proof {
                if depth as nat == dd {
                    assert(false);
                }
                lemma_bits_at_increases(init, depth as nat, (depth + 1) as nat);
            }
            depth = depth + 1;
        }
        proof {
            if (depth as nat) < dd {
                lemma_bits_at_increases(init, depth as nat, dd);
                assert(false);
            }
            assert(depth as nat == dd);
        }
        let mut fields: Vec<Digit> = Vec::new();
        let mut lo: u32 = 0;
        let mut i: u32 = 0;
        while i <= depth
            invariant
                self.wf(),
                init == self.initial_spec(),
                n == digit@.len(),
                n <= 0xFFFF,
                bits_at(init, depth as nat) == n,
                init + depth <= n,
                i <= depth + 1,
                fields@.len() == i,
                lo == Self::field_lo(init, i as nat),
                lo <= n,
                forall|j: int|
                    0 <= j < i ==> fields@[j]@ == digit@.subrange(
                        Self::field_lo(init, j as nat) as int,
                        bits_at(init, j as nat) as int,
                    ),
            decreases depth + 1 - i,
        {
            let hi = self.get_bits(i);
            proof {
                if (i as nat) < depth as nat {
                    lemma_bits_at_increases(init, i as nat, depth as nat);
                }
                if i > 0 {
                    lemma_bits_at_increases(init, (i - 1) as nat, i as nat);
                }
            }
            fields.push(digit.slice_range(lo as usize, hi as usize));
            lo = hi;
            i = i + 1;
        }
        fields
    }
}

/// The decode round trip: the per-depth fields of a well-formed digit,
/// concatenated most-significant field first, reproduce the digit's bits
/// exactly.  The fields are as `split` returns them: field i is the digit's
/// bits between the previous depth's cumulative width and depth i's.
pub proof fn lemma_split_reassembles(initial: nat, s: Seq<bool>, fields: Seq<Seq<bool>>)
    requires
        fields.len() >= 1,
        s.len() == bits_at(initial, (fields.len() - 1) as nat),
        forall|i: int|
            0 <= i < fields.len() ==> fields[i] == s.subrange(
                DoubleBase::field_lo(initial, i as nat) as int,
                bits_at(initial, i as nat) as int,
            ),
    ensures
        fields.flatten() == s,
    decreases fields.len(),
{
    fields.lemma_flatten_and_flatten_alt_are_equivalent();
    if fields.len() == 1 {
        assert(fields[0] == s.subrange(0, bits_at(initial, 0) as int));
        assert(s.subrange(0, s.len() as int) =~= s);
        fields.lemma_flatten_one_element();
        assert(fields.first() == fields[0]);
    } else {
        let d = (fields.len() - 1) as nat;
        let front = fields.drop_last();
        let cut = bits_at(initial, (d - 1) as nat) as int;
        lemma_bits_at_increases(initial, (d - 1) as nat, d);
        let s1 = s.take(cut);
        assert forall|i: int| 0 <= i < front.len() implies front[i] == s1.subrange(
            DoubleBase::field_lo(initial, i as nat) as int,
            bits_at(initial, i as nat) as int,
        ) by {
            if i < front.len() - 1 {
                lemma_bits_at_increases(initial, i as nat, (d - 1) as nat);
            }
            assert(fields[i] == s.subrange(
                DoubleBase::field_lo(initial, i as nat) as int,
                bits_at(initial, i as nat) as int,
            ));
            assert(s.subrange(DoubleBase::field_lo(initial, i as nat) as int, bits_at(initial, i as nat) as int)
                =~= s1.subrange(
                DoubleBase::field_lo(initial, i as nat) as int,
                bits_at(initial, i as nat) as int,
            ));
        }
        lemma_split_reassembles(initial, s1, front);
        front.lemma_flatten_and_flatten_alt_are_equivalent();
        assert(fields.flatten_alt() == front.flatten_alt() + fields.last());
        assert(fields.last() == s.subrange(cut, s.len() as int));
        assert(s1 + s.subrange(cut, s.len() as int) =~= s);
    }
}

} // verus!
