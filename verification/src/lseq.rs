use vstd::prelude::*;

verus! {

use vstd::arithmetic::power2::pow2;
use vstd::arithmetic::power2::lemma_pow2_pos;
use vstd::arithmetic::power2::lemma_pow2_adds;
use vstd::arithmetic::power2::lemma_pow2_strictly_increases;
use vstd::arithmetic::power2::lemma2_to64;
use vstd::arithmetic::div_mod::lemma_fundamental_div_mod;
use vstd::arithmetic::div_mod::lemma_mod_division_less_than_divisor;
use vstd::arithmetic::div_mod::lemma_multiply_divide_lt;
use vstd::pervasive::unreached;
use crate::base::DoubleBase;
use crate::base::base_at;
use crate::base::bits_at;
use crate::base::wf_digit;
use crate::base::norm_val;
use crate::base::iv_val;
use crate::base::has_room;
use crate::base::lemma_bits_at_increases;
use crate::base::lemma_base_le_bits;
use crate::digit::Digit;
use crate::digit::value_of;
use crate::digit::align_val;
use crate::digit::align_width;
use crate::digit::digit_lt;
use crate::digit::lemma_align_scale;
use crate::digit::lemma_digit_lt_trans;
use crate::digit::lemma_value_bound;
use crate::digit::lemma_value_zero;
use crate::digit::lemma_value_ones;
use crate::ident::Ident;
use crate::meta::Meta;
use crate::strategy::LSEQStrategy;

/// Relies on rand::Rng::gen_range over an inclusive u64 range, drawn from
/// rand::thread_rng: a uniform sample; every outcome lies in the range, and
/// the call panics only on an empty range, which the precondition excludes.
#[verifier::external_body]
fn rand_in_range(lo: u64, hi: u64) -> (r: u64)
    requires
        lo <= hi,
    ensures
        lo <= r <= hi,
{
    rand::Rng::gen_range(&mut rand::thread_rng(), lo..=hi)
}

/// The least digit of the space: the root field, all zeros.
pub open spec fn min_seq(initial: nat) -> Seq<bool> {
    Seq::new(initial, |k: int| false)
}

/// The greatest digit of the space: the root field, all ones.
pub open spec fn max_seq(initial: nat) -> Seq<bool> {
    Seq::new(initial, |k: int| true)
}

/// A digit that may stand beside fresh allocations: well formed, and
/// strictly inside the root boundaries.
pub open spec fn usable_digit(initial: nat, s: Seq<bool>) -> bool {
    &&& wf_digit(initial, s)
    &&& digit_lt(min_seq(initial), s)
    &&& digit_lt(s, max_seq(initial))
}

/// An identifier a generator accepts as a neighbour.
pub open spec fn ident_ok<M: Meta>(initial: nat, id: &Ident<M>) -> bool {
    usable_digit(initial, id.digit@)
}

/// The digit standing for a left neighbour: the root minimum when absent.
pub open spec fn eff_left<M: Meta>(initial: nat, left: Option<&Ident<M>>) -> Seq<bool> {
    match left {
        Some(id) => id.digit@,
        None => min_seq(initial),
    }
}

/// The digit standing for a right neighbour: the root maximum when absent.
pub open spec fn eff_right<M: Meta>(initial: nat, right: Option<&Ident<M>>) -> Seq<bool> {
    match right {
        Some(id) => id.digit@,
        None => max_seq(initial),
    }
}

/// A digit resolved to a width never reaches that width's weight.
proof fn lemma_norm_val_bound(s: Seq<bool>, w: nat)
    ensures
        norm_val(s, w) < pow2(w),
{
    lemma_value_bound(s);
    lemma_pow2_pos(w);
    if s.len() <= w {
        let k = (w - s.len()) as nat;
        lemma_pow2_adds(s.len(), k);
        lemma_pow2_pos(k);
        assert(value_of(s) * pow2(k) < pow2(s.len()) * pow2(k)) by (nonlinear_arith)
            requires
                value_of(s) < pow2(s.len()),
                pow2(k) >= 1,
        ;
    } else {
        let k = (s.len() - w) as nat;
        let p = pow2(k);
        lemma_pow2_adds(w, k);
        lemma_pow2_pos(k);
        assert(value_of(s) < p * pow2(w)) by (nonlinear_arith)
            requires
                value_of(s) < pow2(s.len()),
                pow2(s.len()) == pow2(w) * p,
        ;
        lemma_multiply_divide_lt(value_of(s) as int, p as int, pow2(w) as int);
    }
}

/// At the shallowest depth with room, the depth-local early return of the
/// interval computation agrees exactly with the normalized difference: both
/// count the free slots strictly between the neighbours.
proof fn lemma_interval_exact(initial: nat, l: Seq<bool>, r: Seq<bool>, d: nat)
    requires
        initial >= 1,
        wf_digit(initial, l),
        wf_digit(initial, r),
        digit_lt(l, r),
        has_room(initial, l, r, d),
        forall|d2: nat| d2 < d ==> !has_room(initial, l, r, d2),
    ensures
        norm_val(l, bits_at(initial, d)) + 2 <= norm_val(r, bits_at(initial, d)),
        iv_val(initial, l, r, d) == norm_val(r, bits_at(initial, d)) - norm_val(
            l,
            bits_at(initial, d),
        ) - 1,
{
    let w = bits_at(initial, d);
    if l.len() < w && r.len() < w {
        let dl = choose|dd: nat| l.len() == bits_at(initial, dd);
        let dr = choose|dd: nat| r.len() == bits_at(initial, dd);
        if dl >= d {
            if dl > d {
                lemma_bits_at_increases(initial, d, dl);
            }
            assert(false);
        }
        let d1 = (d - 1) as nat;
        let w1 = bits_at(initial, d1);
        let b = base_at(initial, d);
        assert(w == w1 + b);
        if dl < d1 {
            lemma_bits_at_increases(initial, dl, d1);
        }
        assert(l.len() <= w1);
        if dr >= d {
            if dr > d {
                lemma_bits_at_increases(initial, d, dr);
            }
            assert(false);
        }
        if dr < d1 {
            lemma_bits_at_increases(initial, dr, d1);
        }
        assert(r.len() <= w1);
        // Depth d - 1 had no room.  Were both digits shorter than its
        // cumulative width, its whole field range would have been free.
        assert(!has_room(initial, l, r, d1));
        if l.len() < w1 && r.len() < w1 {
            lemma2_to64();
            lemma_pow2_strictly_increases(0, base_at(initial, d1));
            assert(false);
        }
        let nl1 = norm_val(l, w1);
        let nr1 = norm_val(r, w1);
        assert(nr1 <= nl1 + 1);
        // The neighbours are strictly ordered, so their resolutions at
        // depth d - 1 differ by exactly one.
        lemma_align_scale(l, r, w1);
        assert(align_val(l, w1) == nl1);
        assert(align_val(r, w1) == nr1);
        assert(nl1 < nr1);
        assert(nr1 == nl1 + 1);
        // Resolving one depth deeper scales both sides by the new field's
        // weight, so the gap is exactly that weight.
        let pb = pow2(b);
        lemma_pow2_adds((w1 - l.len()) as nat, b);
        lemma_pow2_adds((w1 - r.len()) as nat, b);
        assert(norm_val(l, w) == nl1 * pb) by (nonlinear_arith)
            requires
                norm_val(l, w) == value_of(l) * pow2((w - l.len()) as nat),
                nl1 == value_of(l) * pow2((w1 - l.len()) as nat),
                pow2((w - l.len()) as nat) == pow2((w1 - l.len()) as nat) * pb,
        ;
        assert(norm_val(r, w) == nr1 * pb) by (nonlinear_arith)
            requires
                norm_val(r, w) == value_of(r) * pow2((w - r.len()) as nat),
                nr1 == value_of(r) * pow2((w1 - r.len()) as nat),
                pow2((w - r.len()) as nat) == pow2((w1 - r.len()) as nat) * pb,
        ;
        assert(nr1 * pb == nl1 * pb + pb) by (nonlinear_arith)
            requires
                nr1 == nl1 + 1,
        ;
        lemma2_to64();
        lemma_pow2_strictly_increases(0, b);
        assert(pb >= 2);
    }
}

/// A digit of the resolved width whose value lies strictly between the two
/// neighbours' resolutions sorts strictly between the neighbours themselves.
proof fn lemma_result_between(l: Seq<bool>, r: Seq<bool>, res: Seq<bool>, w: nat)
    requires
        res.len() == w,
        norm_val(l, w) + 1 <= value_of(res),
        value_of(res) + 1 <= norm_val(r, w),
    ensures
        digit_lt(l, res),
        digit_lt(res, r),
{
    lemma2_to64();
    assert(value_of(res) * pow2(0) == value_of(res)) by (nonlinear_arith)
        requires
            pow2(0) == 1,
    ;
    if l.len() <= w {
        assert(align_width(l, res) == w);
        assert(align_val(l, w) == norm_val(l, w));
        assert(digit_lt(l, res));
    } else {
        let k = (l.len() - w) as nat;
        let p = pow2(k);
        let q = norm_val(l, w);
        lemma_pow2_pos(k);
        lemma_fundamental_div_mod(value_of(l) as int, p as int);
        lemma_mod_division_less_than_divisor(value_of(l) as int, p as int);
        assert(align_width(l, res) == l.len());
        assert(value_of(l) * pow2(0) == value_of(l)) by (nonlinear_arith)
            requires
                pow2(0) == 1,
        ;
        assert(value_of(res) * p > value_of(l)) by (nonlinear_arith)
            requires
                value_of(res) >= q + 1,
                value_of(l) == p * q + (value_of(l) as int % p as int),
                (value_of(l) as int % p as int) < p,
                p >= 1,
        ;
        assert(digit_lt(l, res));
    }
    if r.len() <= w {
        assert(align_width(res, r) == w);
        assert(align_val(r, w) == norm_val(r, w));
        assert(digit_lt(res, r));
    } else {
        let k = (r.len() - w) as nat;
        let p = pow2(k);
        let q = norm_val(r, w);
        lemma_pow2_pos(k);
        lemma_fundamental_div_mod(value_of(r) as int, p as int);
        lemma_mod_division_less_than_divisor(value_of(r) as int, p as int);
        assert(align_width(res, r) == r.len());
        assert(value_of(r) * pow2(0) == value_of(r)) by (nonlinear_arith)
            requires
                pow2(0) == 1,
        ;
        assert(value_of(res) * p < value_of(r)) by (nonlinear_arith)
            requires
                value_of(res) + 1 <= q,
                value_of(r) == p * q + (value_of(r) as int % p as int),
                (value_of(r) as int % p as int) >= 0,
                p >= 1,
        ;
        assert(digit_lt(res, r));
    }
}

/// The measure of the depth search: once the cumulative width passes every
/// neighbour's length the next probe must find room.
pub open spec fn search_measure(initial: nat, m: nat, d: nat, done: bool) -> int {
    if done {
        0
    } else if bits_at(initial, d) > m {
        1
    } else {
        m + 2 - bits_at(initial, d)
    }
}

/// An identifier generator: a bit-width policy, a cap on the random step,
/// and the allocation strategies fixed so far, one per visited depth.
pub struct LSEQGenerator {
    base: DoubleBase,
    boundary: u32,
    strategies: Vec<Option<LSEQStrategy>>,
}

/// How a generated digit relates to the neighbours it was allocated between
/// at one depth with one delta: the digit lives at that depth, the depth is
/// the shallowest with room, the delta is positive, bounded by the free
/// interval and by the generator's boundary, and the digit steps from the
/// side the generator has fixed for that depth.
pub open spec fn gen_rel_at(
    g: &LSEQGenerator,
    l: Seq<bool>,
    r: Seq<bool>,
    res: Seq<bool>,
    d: nat,
    delta: int,
) -> bool {
    let w = bits_at(g.initial_spec(), d);
    &&& res.len() == w
    &&& has_room(g.initial_spec(), l, r, d)
    &&& (forall|d2: nat| d2 < d ==> !has_room(g.initial_spec(), l, r, d2))
    &&& 1 <= delta <= g.boundary_spec()
    &&& delta <= iv_val(g.initial_spec(), l, r, d)
    &&& g.strategy_at(d) is Some
    &&& (match g.strategy_at(d) {
        Some(LSEQStrategy::AddFromLeft) => value_of(res) == norm_val(l, w) + delta,
        Some(LSEQStrategy::SubtractFromRight) => value_of(res) == norm_val(r, w) - delta,
        None => false,
    })
}

/// How a generated digit relates to the neighbours it was allocated between.
pub open spec fn gen_rel(g: &LSEQGenerator, l: Seq<bool>, r: Seq<bool>, res: Seq<bool>) -> bool {
    exists|d: nat, delta: int| gen_rel_at(g, l, r, res, d, delta)
}

/// Strategy stability: two allocations that resolve at the same depth, made
/// by one generator in some order, step from the same side.  The second
/// generator state descends from the first, so the strategy the first
/// allocation fixed at the depth still stands for the second.
pub proof fn lemma_strategy_stability(
    g1: &LSEQGenerator,
    g2: &LSEQGenerator,
    l1: Seq<bool>,
    r1: Seq<bool>,
    res1: Seq<bool>,
    l2: Seq<bool>,
    r2: Seq<bool>,
    res2: Seq<bool>,
    d: nat,
    delta1: int,
    delta2: int,
)
    requires
        gen_rel_at(g1, l1, r1, res1, d, delta1),
        gen_rel_at(g2, l2, r2, res2, d, delta2),
        forall|k: nat| g1.strategy_at(k) is Some ==> g2.strategy_at(k) == g1.strategy_at(k),
    ensures
        g2.strategy_at(d) == g1.strategy_at(d),
        (g1.strategy_at(d) == Some(LSEQStrategy::AddFromLeft) ==> value_of(res1) == norm_val(
            l1,
            bits_at(g1.initial_spec(), d),
        ) + delta1 && value_of(res2) == norm_val(l2, bits_at(g2.initial_spec(), d)) + delta2),
        (g1.strategy_at(d) == Some(LSEQStrategy::SubtractFromRight) ==> value_of(res1)
            == norm_val(r1, bits_at(g1.initial_spec(), d)) - delta1 && value_of(res2) == norm_val(
            r2,
            bits_at(g2.initial_spec(), d),
        ) - delta2),
{
}

/// With a boundary of one, every allocation steps by exactly one: the digit
/// is the resolved left neighbour plus one, or the resolved right neighbour
/// less one.
pub proof fn lemma_boundary_clamp(g: &LSEQGenerator, l: Seq<bool>, r: Seq<bool>, res: Seq<bool>)
    requires
        g.boundary_spec() == 1,
        gen_rel(g, l, r, res),
    ensures
        exists|d: nat|
            {
                let w = #[trigger] bits_at(g.initial_spec(), d);
                &&& res.len() == w
                &&& (value_of(res) == norm_val(l, w) + 1 || value_of(res) == norm_val(r, w) - 1)
            },
{
    let (d, delta) = choose|d: nat, delta: int| gen_rel_at(g, l, r, res, d, delta);
    assert(delta == 1);
    let w = bits_at(g.initial_spec(), d);
    assert(value_of(res) == norm_val(l, w) + 1 || value_of(res) == norm_val(r, w) - 1);
}

impl LSEQGenerator {
    /// The policy's initial field width.
    pub closed spec fn initial_spec(&self) -> nat {
        self.base.initial_spec()
    }

    /// The configured cap on the random step.
    pub closed spec fn boundary_spec(&self) -> nat {
        self.boundary as nat
    }

    /// The strategy fixed for a depth, if one has been chosen yet.
    pub closed spec fn strategy_at(&self, d: nat) -> Option<LSEQStrategy> {
        if d < self.strategies@.len() {
            self.strategies@[d as int]
        } else {
            None
        }
    }

    /// A generator is well formed: a well-formed policy and a positive
    /// boundary.
    pub closed spec fn wf(&self) -> bool {
        &&& self.base.wf()
        &&& 1 <= self.boundary
    }

    /// A generator over the given policy; the boundary caps the random step
    /// and is ten when absent.
    pub fn new(base: DoubleBase, boundary: Option<u32>) -> (r: LSEQGenerator)
        requires
            base.wf(),
            boundary matches Some(b) ==> b >= 1,
        ensures
            r.wf(),
            r.initial_spec() == base.initial_spec(),
            r.boundary_spec() == (match boundary {
                Some(b) => b as nat,
                None => 10,
            }),
            forall|d: nat| r.strategy_at(d) is None,
    {
        let b = match boundary {
            Some(b) => b,
            None => 10,
        };
        LSEQGenerator { base, boundary: b, strategies: Vec::new() }
    }

    /// The strategy fixed for a depth; the depth must have one.
    fn get_strategy(&self, depth: u32) -> (r: LSEQStrategy)
        requires
            self.strategy_at(depth as nat) is Some,
        ensures
            Some(r) == self.strategy_at(depth as nat),
    {
        let o = self.strategies[depth as usize];
        match o {
            Some(s) => s,
            None => unreached(),
        }
    }

    /// Fix a strategy for a depth on first visit; a strategy already fixed,
    /// at this depth or any other, never changes.
    fn ensure_strategy(&mut self, depth: u32)
        ensures
            final(self).base == old(self).base,
            final(self).boundary == old(self).boundary,
            final(self).strategy_at(depth as nat) is Some,
            old(self).strategy_at(depth as nat) is Some ==> final(self).strategy_at(depth as nat)
                == old(self).strategy_at(depth as nat),
            forall|d: nat|
                d != depth as nat ==> final(self).strategy_at(d) == old(self).strategy_at(d),
    {
        while self.strategies.len() <= depth as usize
            invariant
                self.base == old(self).base,
                self.boundary == old(self).boundary,
                forall|d: nat| self.strategy_at(d) == old(self).strategy_at(d),
            decreases depth as usize + 1 - self.strategies@.len(),
        {
            let ghost prev = *self;
            self.strategies.push(None);
            proof {
                assert(forall|d: nat| #[trigger]
                    self.strategy_at(d) == prev.strategy_at(d)) by {
                    assert(forall|d: nat|
                        d < prev.strategies@.len() ==> self.strategies@[d as int]
                            == prev.strategies@[d as int]);
                }
            }
        }
        if self.strategies[depth as usize].is_none() {
            let s = LSEQStrategy::random();
            let ghost prev = *self;
            self.strategies[depth as usize] = Some(s);
            proof {
                assert(forall|d: nat|
                    d != depth as nat ==> self.strategy_at(d) == prev.strategy_at(d));
            }
        }
    }

    /// The shallowest depth with room between the two digits, and the free
    /// interval found there.
    fn depth_search(&self, left_v: &Digit, right_v: &Digit) -> (r: (u32, Digit))
        requires
            self.wf(),
            wf_digit(self.initial_spec(), left_v@),
            wf_digit(self.initial_spec(), right_v@),
            digit_lt(left_v@, right_v@),
            left_v@.len() <= 0x7FFE,
            right_v@.len() <= 0x7FFE,
        ensures
            self.initial_spec() + r.0 <= 0xFFFF,
            bits_at(self.initial_spec(), r.0 as nat) <= 0xFFFD,
            has_room(self.initial_spec(), left_v@, right_v@, r.0 as nat),
            forall|d2: nat| d2 < r.0 as nat ==> !has_room(self.initial_spec(), left_v@, right_v@, d2),
            value_of(r.1@) == iv_val(self.initial_spec(), left_v@, right_v@, r.0 as nat),
    {
        let ghost init = self.initial_spec();
        let ghost m = align_width(left_v@, right_v@);
        let mut depth: u32 = 0;
        let mut found: Option<Digit> = None;
        proof {
            assert(init + depth <= 0xFFFF);
        }
        while found.is_none()
            invariant
                self.wf(),
                init == self.initial_spec(),
                m == align_width(left_v@, right_v@),
                m <= 0x7FFE,
                init + depth <= 0xFFFF,
                forall|d2: nat| d2 < depth as nat ==> !has_room(init, left_v@, right_v@, d2),
                depth > 0 ==> bits_at(init, (depth - 1) as nat) <= m,
                found matches Some(d) ==> has_room(init, left_v@, right_v@, depth as nat)
                    && value_of(d@) == iv_val(init, left_v@, right_v@, depth as nat),
            decreases search_measure(init, m, depth as nat, found is Some),
        {
            let iv = self.base.interval(left_v, right_v, depth);
            let mut advance: bool = true;
            match iv {
                Some(d) => {
                    if !d.is_zero() {
                        found = Some(d);
                        advance = false;
                    }
                },
                None => {},
            }
            if advance {
                proof {
                    assert(!has_room(init, left_v@, right_v@, depth as nat));
                    // Were the cumulative width past both digits, the whole
                    // depth-local range would have been free.
                    if bits_at(init, depth as nat) > m {
                        lemma2_to64();
                        lemma_pow2_strictly_increases(0, base_at(init, depth as nat));
                        assert(false);
                    }
                    lemma_base_le_bits(init, depth as nat);
                    assert(init + depth <= m);
                    lemma_bits_at_increases(init, depth as nat, (depth + 1) as nat);
                }
                depth = depth + 1;
            }
        }
        proof {
            if depth > 0 {
                lemma_base_le_bits(init, (depth - 1) as nat);
                assert(bits_at(init, depth as nat) == bits_at(init, (depth - 1) as nat) + base_at(
                    init,
                    depth as nat,
                ));
            }
            assert(bits_at(init, depth as nat) <= 0xFFFD);
        }
        match found {
            Some(d) => (depth, d),
            None => unreached(),
        }
    }

    /// The shallowest depth with room between the neighbours, a random
    /// delta bounded by the free interval and by the boundary, and the two
    /// digits the search ran on, the root boundaries standing in for absent
    /// neighbours.
    fn pick_interval<M: Meta>(&self, left: Option<&Ident<M>>, right: Option<&Ident<M>>) -> (r: (
        u64,
        u32,
        Digit,
        Digit,
    ))
        requires
            self.wf(),
            left matches Some(id) ==> ident_ok(self.initial_spec(), id) && id.digit@.len()
                <= 0x7FFE,
            right matches Some(id) ==> ident_ok(self.initial_spec(), id) && id.digit@.len()
                <= 0x7FFE,
            (left matches Some(a) ==> (right matches Some(b) ==> digit_lt(a.digit@, b.digit@))),
        ensures
            r.2@ == eff_left(self.initial_spec(), left),
            r.3@ == eff_right(self.initial_spec(), right),
            digit_lt(r.2@, r.3@),
            wf_digit(self.initial_spec(), r.2@),
            wf_digit(self.initial_spec(), r.3@),
            self.initial_spec() + r.1 <= 0xFFFF,
            bits_at(self.initial_spec(), r.1 as nat) <= 0xFFFD,
            has_room(self.initial_spec(), r.2@, r.3@, r.1 as nat),
            forall|d2: nat| d2 < r.1 as nat ==> !has_room(self.initial_spec(), r.2@, r.3@, d2),
            1 <= r.0,
            r.0 as nat <= self.boundary_spec(),
            r.0 <= iv_val(self.initial_spec(), r.2@, r.3@, r.1 as nat),
    {
        let ghost init = self.initial_spec();
        let left_v: Digit = match left {
            Some(id) => id.digit.clone(),
            None => Digit::zeros(self.base.get_initial_base() as usize),
        };
        let right_v: Digit = match right {
            Some(id) => id.digit.clone(),
            None => self.base.get_max(0),
        };
        proof {
            assert(left_v@ =~= eff_left(init, left));
            assert(right_v@ =~= eff_right(init, right));
            assert(bits_at(init, 0) == init);
            if left is None {
                assert(wf_digit(init, left_v@)) by {
                    assert(left_v@.len() == bits_at(init, 0));
                }
            }
            if right is None {
                assert(wf_digit(init, right_v@)) by {
                    assert(right_v@.len() == bits_at(init, 0));
                }
            }
            if left is None && right is None {
                lemma_value_zero(min_seq(init));
                lemma_value_ones(max_seq(init));
                lemma2_to64();
                lemma_pow2_strictly_increases(0, init);
                assert(align_width(min_seq(init), max_seq(init)) == init);
                assert(value_of(max_seq(init)) * pow2(0) == value_of(max_seq(init)))
                    by (nonlinear_arith)
                    requires
                        pow2(0) == 1,
                ;
                assert(digit_lt(left_v@, right_v@));
            }
        }
        let (depth, iv) = self.depth_search(&left_v, &right_v);
        let capped = iv.min_value_u64(self.boundary as u64);
        let step = if capped < 1 {
            1
        } else {
            capped
        };
        proof {
            assert(capped >= 1);
        }
        let delta = rand_in_range(1, step);
        (delta, depth, left_v, right_v)
    }

    /// A fresh identifier strictly between the given neighbours, the root
    /// boundaries standing in for absent ones, owned by the given tag.
    ///
    /// The digit is allocated at the shallowest depth with room: the side
    /// fixed for that depth is resolved to the depth's cumulative width and
    /// stepped towards the gap by a random delta of at most the configured
    /// boundary.  A strategy fixed for a depth, on this call or an earlier
    /// one, never changes for the generator's lifetime.
    pub fn generate<M: Meta>(
        &mut self,
        replica: M,
        left: Option<&Ident<M>>,
        right: Option<&Ident<M>>,
    ) -> (res: Ident<M>)
        requires
            old(self).wf(),
            left matches Some(id) ==> ident_ok(old(self).initial_spec(), id) && id.digit@.len()
                <= 0x7FFE,
            right matches Some(id) ==> ident_ok(old(self).initial_spec(), id) && id.digit@.len()
                <= 0x7FFE,
            (left matches Some(a) ==> (right matches Some(b) ==> digit_lt(a.digit@, b.digit@))),
        ensures
            final(self).wf(),
            final(self).initial_spec() == old(self).initial_spec(),
            final(self).boundary_spec() == old(self).boundary_spec(),
            forall|d: nat|
                old(self).strategy_at(d) is Some ==> final(self).strategy_at(d) == old(
                    self,
                ).strategy_at(d),
            res.meta == replica,
            ident_ok(old(self).initial_spec(), &res),
            res.digit@.len() <= 0xFFFD,
            digit_lt(eff_left(old(self).initial_spec(), left), res.digit@),
            digit_lt(res.digit@, eff_right(old(self).initial_spec(), right)),
            gen_rel(
                final(self),
                eff_left(old(self).initial_spec(), left),
                eff_right(old(self).initial_spec(), right),
                res.digit@,
            ),
    {
        let ghost init = self.initial_spec();
        let (delta, depth, left_v, right_v) = self.pick_interval(left, right);
        let ghost w = bits_at(init, depth as nat);
        self.ensure_strategy(depth);
        let strategy = self.get_strategy(depth);
        proof {
            lemma_interval_exact(init, left_v@, right_v@, depth as nat);
            lemma_norm_val_bound(right_v@, w);
        }
        let res_digit: Digit = match strategy {
            LSEQStrategy::AddFromLeft => {
                let ln = self.base.normalize(&left_v, depth);
                ln.plus_small(delta)
            },
            LSEQStrategy::SubtractFromRight => {
                let rn = self.base.normalize(&right_v, depth);
                rn.minus_small(delta)
            },
        };
        proof {
            lemma_result_between(left_v@, right_v@, res_digit@, w);
            assert(wf_digit(init, res_digit@)) by {
                assert(res_digit@.len() == bits_at(init, depth as nat));
            }
            if left is Some {
                lemma_digit_lt_trans(min_seq(init), left_v@, res_digit@);
            }
            if right is Some {
                lemma_digit_lt_trans(res_digit@, right_v@, max_seq(init));
            }
            assert(gen_rel_at(
                self,
                left_v@,
                right_v@,
                res_digit@,
                depth as nat,
                delta as int,
            ));
        }
        Ident::new(replica, res_digit)
    }
}

} // verus!
