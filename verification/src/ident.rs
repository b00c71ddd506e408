use vstd::prelude::*;

verus! {

use core::cmp::Ordering;
use vstd::string::StringExecFns;
use crate::base::DoubleBase;
use crate::base::bits_at;
use crate::base::wf_digit;
use crate::base::lemma_bits_at_increases;
use crate::digit::Digit;
use crate::digit::digit_lt;
use crate::digit::digit_eq_val;
use crate::meta::Meta;

/// The characters of one field's bits, most significant first.
pub open spec fn bits_text(s: Seq<bool>) -> Seq<char> {
    Seq::new(s.len(), |i: int| if s[i] { '1' } else { '0' })
}

/// The text of a sequence of fields: each field's bits in binary, fields
/// separated by a bar.
pub open spec fn fields_text(fs: Seq<Seq<bool>>) -> Seq<char>
    decreases fs.len(),
{
    if fs.len() == 0 {
        Seq::empty()
    } else if fs.len() == 1 {
        bits_text(fs[0])
    } else {
        fields_text(fs.drop_last()) + seq!['|'] + bits_text(fs.last())
    }
}

/// The per-depth fields of a digit, as bit strings: field i holds the bits
/// between the previous depth's cumulative width and depth i's.
pub open spec fn split_fields(initial: nat, s: Seq<bool>, nf: nat) -> Seq<Seq<bool>> {
    Seq::new(
        nf,
        |j: int| s.subrange(
            DoubleBase::field_lo(initial, j as nat) as int,
            bits_at(initial, j as nat) as int,
        ),
    )
}

/// An identifier: an owner tag and a length-encoded digit.  Identifiers are
/// ordered by their digits as fixed-point fractions, most-significant bits
/// first; ties are broken by the owner tag, then by the digit's length.
#[derive(Clone)]
pub struct Ident<M: Meta> {
    pub meta: M,
    pub digit: Digit,
}

/// The strict total order on identifiers: digit order first, then the owner
/// tag's order, then the digit length, shorter first.
pub open spec fn ident_lt<M: Meta>(a: &Ident<M>, b: &Ident<M>) -> bool {
    ||| digit_lt(a.digit@, b.digit@)
    ||| (digit_eq_val(a.digit@, b.digit@) && a.meta.lt_spec(&b.meta))
    ||| (digit_eq_val(a.digit@, b.digit@) && !a.meta.lt_spec(&b.meta) && !b.meta.lt_spec(&a.meta)
        && a.digit@.len() < b.digit@.len())
}

impl<M: Meta> Ident<M> {
    /// An identifier from its parts.
    pub fn new(meta: M, digit: Digit) -> (r: Ident<M>)
        ensures
            r.meta == meta,
            r.digit@ == digit@,
    {
        Ident { meta, digit }
    }

    /// Three-way comparison realizing the total order: aligned digit values
    /// first, then the owner tag, then the digit length.
    pub fn cmp(&self, other: &Ident<M>) -> (r: Ordering)
        ensures
            (r == Ordering::Less <==> ident_lt(self, other)),
            (r == Ordering::Greater <==> ident_lt(other, self)),
            (r == Ordering::Equal <==> !ident_lt(self, other) && !ident_lt(other, self)),
    {
        let c = self.digit.cmp_digits(&other.digit);
        match c {
            Ordering::Less => Ordering::Less,
            Ordering::Greater => Ordering::Greater,
            Ordering::Equal => {
                let cm = self.meta.meta_cmp(&other.meta);
                match cm {
                    Ordering::Less => Ordering::Less,
                    Ordering::Greater => Ordering::Greater,
                    Ordering::Equal => {
                        let sl = self.digit.width();
                        let ol = other.digit.width();
                        if sl < ol {
                            Ordering::Less
                        } else if sl > ol {
                            Ordering::Greater
                        } else {
                            Ordering::Equal
                        }
                    },
                }
            },
        }
    }

    /// A diagnostic rendering of the digit under the given policy: each
    /// depth's field in binary, most-significant field first, fields
    /// separated by a bar.  The owner tag is not rendered; its type carries
    /// no verified text of its own.
    pub fn debug(&self, base: &DoubleBase) -> (r: String)
        requires
            base.wf(),
            wf_digit(base.initial_spec(), self.digit@),
            self.digit@.len() <= 0xFFFF,
        ensures
            forall|d: nat|
                self.digit@.len() == bits_at(base.initial_spec(), d) ==> r@ == fields_text(
                    split_fields(base.initial_spec(), self.digit@, d + 1),
                ),
    {
        let ghost init = base.initial_spec();
        let fields = base.split(&self.digit);
        let ghost fv = Seq::new(fields@.len(), |i: int| fields@[i]@);
        let mut out: String = <String as StringExecFns>::from_str("");
        proof {
            reveal_strlit("");
            assert(out@ =~= fields_text(fv.take(0)));
        }
        let mut j: usize = 0;
        while j < fields.len()
            invariant
                j <= fields@.len(),
                fv == Seq::new(fields@.len(), |i: int| fields@[i]@),
                out@ == fields_text(fv.take(j as int)),
            decreases fields@.len() - j,
        {
            if j > 0 {
                out.append("|");
                proof {
                    reveal_strlit("|");
                }
            }
            let f = &fields[j];
            let mut i: usize = 0;
            while i < f.width()
                invariant
                    j < fields@.len(),
                    fv == Seq::new(fields@.len(), |i2: int| fields@[i2]@),
                    i <= f@.len(),
                    f@ == fv[j as int],
                    (j == 0 ==> out@ == fields_text(fv.take(j as int)) + bits_text(
                        f@.take(i as int),
                    )),
                    (j > 0 ==> out@ == fields_text(fv.take(j as int)) + seq!['|'] + bits_text(
                        f@.take(i as int),
                    )),
                decreases f@.len() - i,
            {
                let b = f.get_bit(i);
                if b {
                    out.append("1");
                } else {
                    out.append("0");
                }
                proof {
                    reveal_strlit("1");
                    reveal_strlit("0");
                    let ch = if f@[i as int] { '1' } else { '0' };
                    assert(bits_text(f@.take(i + 1)) =~= bits_text(f@.take(i as int)).push(ch));
                    if j == 0 {
                        assert(out@ =~= fields_text(fv.take(j as int)) + bits_text(
                            f@.take(i + 1),
                        ));
                    } else {
                        assert(out@ =~= fields_text(fv.take(j as int)) + seq!['|'] + bits_text(
                            f@.take(i + 1),
                        ));
                    }
                }
                i = i + 1;
            }
            proof {
                assert(f@.take(f@.len() as int) =~= f@);
                assert(fv.take(j + 1).drop_last() =~= fv.take(j as int));
                assert(fv.take(j + 1).last() == fv[j as int]);
                if j == 0 {
                    assert(out@ =~= fields_text(fv.take(j + 1)));
                } else {
                    assert(out@ =~= fields_text(fv.take(j + 1)));
                }
            }
            j = j + 1;
        }
        proof {
            assert(fv.take(fv.len() as int) =~= fv);
            assert forall|d: nat|
                self.digit@.len() == bits_at(init, d) implies out@ == fields_text(
                split_fields(init, self.digit@, d + 1),
            ) by {
                let last = (fields@.len() - 1) as nat;
                if d < last {
                    lemma_bits_at_increases(init, d, last);
                } else if d > last {
                    lemma_bits_at_increases(init, last, d);
                }
                assert(d == last);
                assert(fv =~= split_fields(init, self.digit@, d + 1));
            }
        }
        out
    }
}

} // verus!
