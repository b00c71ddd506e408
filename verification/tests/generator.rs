use std::cmp::Ordering;

use lseq::{Digit, DoubleBase, Ident, LSEQGenerator};
use rand::{thread_rng, Rng};
use skiplist::OrderedSkipList;
use uuid::Uuid;

/// The ordered container's element: an identifier under its total order.
struct Entry(Ident<u128>);

impl PartialEq for Entry {
    fn eq(&self, other: &Self) -> bool {
        self.0.cmp(&other.0) == Ordering::Equal
    }
}

impl Eq for Entry {}

impl PartialOrd for Entry {
    fn partial_cmp(&self, other: &Self) -> Option<Ordering> {
        Some(self.0.cmp(&other.0))
    }
}

impl Ord for Entry {
    fn cmp(&self, other: &Self) -> Ordering {
        self.0.cmp(&other.0)
    }
}

#[test]
fn lseq_it_works() {
    let base = DoubleBase::new(None);
    let mut gen = LSEQGenerator::new(base, None);
    let replica: u128 = Uuid::new_v4().as_u128();

    let mut list = OrderedSkipList::<Entry>::new();
    let mut rng = thread_rng();

    for _i in 0..1000 {
        let len = list.len();
        let n = if len > 0 { rng.gen_range(0..len) } else { 0 };

        let ident = {
            let left = list.get_by_index(n).map(|e| &e.0);
            let right = list.get_by_index(n + 1).map(|e| &e.0);
            gen.generate(replica, left, right)
        };

        list.insert(Entry(ident));
    }

    let mut max: f64 = f64::NEG_INFINITY;
    let mut min: f64 = f64::INFINITY;
    let mut sum: f64 = 0.0;
    for e in list.iter() {
        let bits = e.0.digit.width() as f64;
        if bits > max {
            max = bits;
        }
        if bits < min {
            min = bits;
        }
        sum += bits;
    }
    let mean = sum / (list.len() as f64);

    println!("Max: {}, Min: {}, Mean: {}", max, min, mean);
}

#[test]
fn order_preservation() {
    let base = DoubleBase::new(Some(5));
    let mut gen = LSEQGenerator::new(base, Some(10));
    let lower = Ident::new(0u64, Digit::from_u64(0, 5));
    let upper = Ident::new(0u64, Digit::from_u64(31, 5));
    for _ in 0..50 {
        let x = gen.generate(1u64, None, None);
        assert_eq!(lower.cmp(&x), Ordering::Less);
        assert_eq!(x.cmp(&upper), Ordering::Less);
    }
}

#[test]
fn chain_insertion_no_collisions() {
    let base = DoubleBase::new(None);
    let mut gen = LSEQGenerator::new(base, None);
    let mut rng = thread_rng();
    let mut v: Vec<Ident<u64>> = Vec::new();
    for _ in 0..10_000 {
        let p = rng.gen_range(0..=v.len());
        let x = {
            let left = if p > 0 { Some(&v[p - 1]) } else { None };
            let right = if p < v.len() { Some(&v[p]) } else { None };
            let x = gen.generate(7u64, left, right);
            if let Some(l) = left {
                assert_eq!(l.cmp(&x), Ordering::Less);
            }
            if let Some(r) = right {
                assert_eq!(x.cmp(r), Ordering::Less);
            }
            x
        };
        v.insert(p, x);
    }
    for w in v.windows(2) {
        assert_eq!(w[0].cmp(&w[1]), Ordering::Less);
    }
}

#[test]
fn head_insertions_stay_sorted() {
    let base = DoubleBase::new(None);
    let mut gen = LSEQGenerator::new(base, None);
    let mut v: Vec<Ident<u64>> = Vec::new();
    for _ in 0..500 {
        let x = {
            let right = v.first();
            gen.generate(3u64, None, right)
        };
        v.insert(0, x);
    }
    for w in v.windows(2) {
        assert_eq!(w[0].cmp(&w[1]), Ordering::Less);
    }
}

#[test]
fn strategy_stability() {
    // Every allocation at depth 0 between the root boundaries uses the
    // depth's fixed side: adding lands in 1..=10, subtracting in 21..=30.
    let base = DoubleBase::new(Some(5));
    let mut gen = LSEQGenerator::new(base, Some(10));
    let first = gen.generate::<u64>(1u64, None, None).digit.to_u64();
    let from_left_side = first <= 10;
    for _ in 0..100 {
        let v = gen.generate::<u64>(1u64, None, None).digit.to_u64();
        if from_left_side {
            assert!((1..=10).contains(&v));
        } else {
            assert!((21..=30).contains(&v));
        }
    }
}

#[test]
fn boundary_clamp() {
    // With boundary 1 the delta is exactly 1 whatever the interval offers:
    // the digit is 0 + 1 or 31 - 1.
    for _ in 0..20 {
        let base = DoubleBase::new(Some(5));
        let mut gen = LSEQGenerator::new(base, Some(1));
        let v = gen.generate::<u64>(1u64, None, None).digit.to_u64();
        assert!(v == 1 || v == 30);
        // The same generator repeats the same side, so the value repeats.
        let again = gen.generate::<u64>(1u64, None, None).digit.to_u64();
        assert_eq!(v, again);
    }
}

#[test]
fn numeric_example() {
    // Initial width 5: the root field holds at most 31, and an insertion
    // into the full range with a generous boundary resolves at depth 0.
    let base = DoubleBase::new(Some(5));
    assert_eq!(base.get_max(0).to_u64(), 31);
    let mut gen = LSEQGenerator::new(base, Some(31));
    let x = gen.generate::<u64>(1u64, None, None);
    assert_eq!(x.digit.width(), 5);
    let v = x.digit.to_u64();
    assert!(0 < v && v < 31);
}

#[test]
fn generated_digits_decode() {
    // Every generated digit decodes: its length matches a depth exactly and
    // the per-depth fields concatenate back to the digit's bits.
    let base = DoubleBase::new(None);
    let mut gen = LSEQGenerator::new(base, None);
    let decoder = DoubleBase::new(None);
    let mut v: Vec<Ident<u64>> = Vec::new();
    for _ in 0..80 {
        let x = {
            let right = v.first();
            gen.generate(9u64, None, right)
        };
        v.insert(0, x);
    }
    for id in &v {
        let fields = decoder.split(&id.digit);
        assert!(!fields.is_empty());
        let mut rebuilt: Vec<bool> = Vec::new();
        for f in &fields {
            for i in 0..f.width() {
                rebuilt.push(f.get_bit(i));
            }
        }
        assert_eq!(rebuilt.len(), id.digit.width());
        for (i, b) in rebuilt.iter().enumerate() {
            assert_eq!(*b, id.digit.get_bit(i));
        }
        // The last field's cumulative width is the digit's whole length.
        let total: u32 = (0..fields.len() as u32)
            .map(|d| decoder.get_base(d))
            .sum();
        assert_eq!(total as usize, id.digit.width());
    }
}
