//! Totally-ordered, densely-insertable identifiers for replicated sequences.
//!
//! An identifier carries an owner tag and a digit: a bit string whose length
//! is part of its meaning.  A generator allocates a fresh identifier strictly
//! between two neighbours by searching an unbounded hierarchy of bit widths
//! for the shallowest depth with room, then stepping a bounded random amount
//! from one side, the side being fixed per depth for the generator's lifetime.

mod base;
mod digit;
mod ident;
mod lseq;
mod meta;
mod strategy;

pub use base::{
    DoubleBase, base_at, bits_at, wf_digit, norm_val, iv_val, has_room, lemma_bits_at_increases,
    lemma_base_le_bits, lemma_split_reassembles,
};
pub use digit::{
    Digit, bit_nat, value_of, pow2_u64, lemma_value_snoc, lemma_value_bound, lemma_value_split,
    lemma_value_zero, lemma_value_ones, lemma_value_skip_head, lemma_value_take_div,
    lemma_value_prefix_lt, align_val, align_width, digit_lt, digit_eq_val, lemma_align_scale,
    lemma_digit_lt_trans,
};
pub use ident::{Ident, ident_lt, bits_text, fields_text, split_fields};
pub use lseq::{
    LSEQGenerator, min_seq, max_seq, usable_digit, ident_ok, eff_left, eff_right, gen_rel,
    gen_rel_at, search_measure, lemma_boundary_clamp, lemma_strategy_stability,
};
pub use meta::Meta;
pub use strategy::LSEQStrategy;
