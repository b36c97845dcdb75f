use wavelet_matrix::bit_sequence::select_checked;
use wavelet_matrix::{BitRankSelect, BitSequence, DynamicBitSequence, DynamicWaveletMatrix, WaveletError, WaveletMatrix};

fn naive_rank(s: &[u64], c: u64, i: usize) -> usize {
    s[..i].iter().filter(|&&v| v == c).count()
}

fn naive_select(s: &[u64], c: u64, k: usize) -> Option<usize> {
    s.iter().enumerate().filter(|(_, &v)| v == c).nth(k).map(|(i, _)| i)
}

fn sample() -> Vec<u64> {
    vec![3, 1, 2, 3, 1]
}

fn pseudo_random(n: usize, modulus: u64, seed: u64) -> Vec<u64> {
    let mut x = seed;
    let mut out = Vec::new();
    for _ in 0..n {
        x = x.wrapping_mul(6364136223846793005).wrapping_add(1442695040888963407);
        out.push((x >> 33) % modulus);
    }
    out
}

#[test]
fn scenario_static() {
    let m = WaveletMatrix::new(sample());
    assert_eq!(m.width(), 2);
    assert_eq!(m.len(), 5);
    assert_eq!(m.access(0), Ok(3));
    assert_eq!(m.rank(3, 5), Ok(2));
    assert_eq!(m.rank(1, 5), Ok(2));
    assert_eq!(m.select(3, 1), Ok(3));
    assert_eq!(m.select(1, 5), Err(WaveletError::OutOfRange));
    assert_eq!(m.select(1, 2), Err(WaveletError::OutOfRange));
    assert_eq!(m.select(1, 0), Ok(1));
    assert_eq!(m.select(1, 1), Ok(4));
}

#[test]
fn scenario_dynamic() {
    let m = DynamicWaveletMatrix::new(2, &sample()).unwrap();
    assert_eq!(m.access(0), Ok(3));
    assert_eq!(m.rank(3, 5), Ok(2));
    assert_eq!(m.rank(1, 5), Ok(2));
    assert_eq!(m.select(3, 1), Ok(3));
    assert_eq!(m.select(1, 5), Err(WaveletError::OutOfRange));
}

#[test]
fn access_matches_input() {
    let s = pseudo_random(300, 37, 7);
    let m = WaveletMatrix::new(s.clone());
    assert_eq!(m.width(), 6);
    for (i, &v) in s.iter().enumerate() {
        assert_eq!(m.access(i), Ok(v));
    }
    assert_eq!(m.access(s.len()), Err(WaveletError::OutOfRange));
}

#[test]
fn rank_matches_counting() {
    let s = pseudo_random(200, 11, 3);
    let m = WaveletMatrix::new(s.clone());
    for c in 0..16u64 {
        for i in 0..=s.len() {
            assert_eq!(m.rank(c, i), Ok(naive_rank(&s, c, i)));
        }
    }
    assert_eq!(m.rank(0, s.len() + 1), Err(WaveletError::OutOfRange));
}

#[test]
fn select_then_access_and_rank() {
    let s = pseudo_random(150, 9, 11);
    let m = WaveletMatrix::new(s.clone());
    for c in 0..9u64 {
        let total = naive_rank(&s, c, s.len());
        for k in 0..total {
            let p = m.select(c, k).unwrap();
            assert_eq!(Some(p), naive_select(&s, c, k));
            assert_eq!(m.access(p), Ok(c));
            assert_eq!(m.rank(c, p), Ok(k));
        }
        assert_eq!(m.select(c, total), Err(WaveletError::OutOfRange));
    }
}

#[test]
fn select_of_rank_round_trip() {
    let s = pseudo_random(120, 5, 5);
    let m = WaveletMatrix::new(s.clone());
    for (i, &v) in s.iter().enumerate() {
        let r = m.rank(v, i).unwrap();
        assert_eq!(m.select(v, r), Ok(i));
    }
}

#[test]
fn rank_boundaries() {
    let s = sample();
    let m = WaveletMatrix::new(s.clone());
    for c in 0..6u64 {
        assert_eq!(m.rank(c, 0), Ok(0));
        assert_eq!(m.rank(c, s.len()), Ok(naive_rank(&s, c, s.len())));
    }
    assert_eq!(m.select(2, 1), Err(WaveletError::OutOfRange));
}

#[test]
fn wide_symbols_are_absent() {
    let m = WaveletMatrix::new(sample());
    assert_eq!(m.rank(4, 5), Ok(0));
    assert_eq!(m.rank(u64::MAX, 5), Ok(0));
    assert_eq!(m.select(7, 0), Err(WaveletError::OutOfRange));
}

#[test]
fn empty_static_matrix() {
    let m = WaveletMatrix::new(Vec::new());
    assert_eq!(m.len(), 0);
    assert_eq!(m.width(), 1);
    assert_eq!(m.rank(0, 0), Ok(0));
    assert_eq!(m.access(0), Err(WaveletError::OutOfRange));
    assert_eq!(m.select(0, 0), Err(WaveletError::OutOfRange));
}

#[test]
fn widest_symbols() {
    let s = vec![u64::MAX, 0, u64::MAX - 1, 1 << 63, u64::MAX];
    let m = WaveletMatrix::new(s.clone());
    assert_eq!(m.width(), 64);
    for (i, &v) in s.iter().enumerate() {
        assert_eq!(m.access(i), Ok(v));
    }
    assert_eq!(m.rank(u64::MAX, 5), Ok(2));
    assert_eq!(m.select(u64::MAX, 1), Ok(4));
}

#[test]
fn width_inference() {
    assert_eq!(WaveletMatrix::new(vec![0, 0]).width(), 1);
    assert_eq!(WaveletMatrix::new(vec![1]).width(), 1);
    assert_eq!(WaveletMatrix::new(vec![2]).width(), 2);
    assert_eq!(WaveletMatrix::new(vec![255, 3]).width(), 8);
    assert_eq!(WaveletMatrix::new(vec![256]).width(), 9);
}

#[test]
fn dynamic_matches_static() {
    let ops = pseudo_random(400, 1 << 20, 17);
    let mut d = DynamicWaveletMatrix::empty(4).unwrap();
    let mut shadow: Vec<u64> = Vec::new();
    for (j, &x) in ops.iter().enumerate() {
        let pos = (x as usize) % (shadow.len() + 1);
        let v = (x >> 8) % 16;
        assert_eq!(d.insert(pos, v), Ok(()));
        shadow.insert(pos, v);
        if j % 7 == 3 {
            let del = (x as usize >> 4) % shadow.len();
            assert_eq!(d.delete(del), Ok(()));
            shadow.remove(del);
        }
    }
    let m = WaveletMatrix::new(shadow.clone());
    assert_eq!(d.len(), shadow.len());
    for i in 0..shadow.len() {
        assert_eq!(d.access(i), m.access(i));
        assert_eq!(d.access(i), Ok(shadow[i]));
    }
    for c in 0..16u64 {
        for i in (0..=shadow.len()).step_by(13) {
            assert_eq!(d.rank(c, i), m.rank(c, i));
        }
        let total = naive_rank(&shadow, c, shadow.len());
        for k in 0..=total {
            assert_eq!(d.select(c, k), m.select(c, k));
        }
    }
}

#[test]
fn insert_then_delete_restores() {
    let s = pseudo_random(60, 8, 23);
    let mut d = DynamicWaveletMatrix::new(3, &s).unwrap();
    for pos in [0usize, 17, 60] {
        assert_eq!(d.insert(pos, 5), Ok(()));
        assert_eq!(d.access(pos), Ok(5));
        assert_eq!(d.delete(pos), Ok(()));
        assert_eq!(d.len(), s.len());
        for i in 0..s.len() {
            assert_eq!(d.access(i), Ok(s[i]));
        }
        for c in 0..8u64 {
            assert_eq!(d.rank(c, s.len()), Ok(naive_rank(&s, c, s.len())));
            assert_eq!(d.select(c, 0), naive_select(&s, c, 0).ok_or(WaveletError::OutOfRange));
        }
    }
}

#[test]
fn dynamic_errors_leave_state() {
    let mut d = DynamicWaveletMatrix::new(2, &sample()).unwrap();
    assert_eq!(d.insert(6, 1), Err(WaveletError::OutOfRange));
    assert_eq!(d.insert(0, 4), Err(WaveletError::ValueTooWide));
    assert_eq!(d.delete(5), Err(WaveletError::OutOfRange));
    assert_eq!(d.len(), 5);
    for (i, &v) in sample().iter().enumerate() {
        assert_eq!(d.access(i), Ok(v));
    }
}

#[test]
fn dynamic_construction_errors() {
    assert!(matches!(DynamicWaveletMatrix::new(0, &sample()), Err(WaveletError::OutOfRange)));
    assert!(matches!(DynamicWaveletMatrix::new(65, &sample()), Err(WaveletError::OutOfRange)));
    assert!(matches!(DynamicWaveletMatrix::new(1, &sample()), Err(WaveletError::ValueTooWide)));
    assert!(matches!(DynamicWaveletMatrix::empty(0), Err(WaveletError::OutOfRange)));
    let d = DynamicWaveletMatrix::empty(64).unwrap();
    assert_eq!(d.len(), 0);
    assert_eq!(d.width(), 64);
}

#[test]
fn dynamic_full_width_symbols() {
    let mut d = DynamicWaveletMatrix::empty(64).unwrap();
    assert_eq!(d.insert(0, u64::MAX), Ok(()));
    assert_eq!(d.insert(0, 0), Ok(()));
    assert_eq!(d.insert(1, 1 << 63), Ok(()));
    assert_eq!(d.access(0), Ok(0));
    assert_eq!(d.access(1), Ok(1 << 63));
    assert_eq!(d.access(2), Ok(u64::MAX));
    assert_eq!(d.select(u64::MAX, 0), Ok(2));
}

#[test]
fn bit_rank_select_queries() {
    let bits: Vec<bool> = (0..300).map(|i| i % 3 == 0 || i % 7 == 0).collect();
    let b = BitRankSelect::new(bits.clone());
    assert_eq!(b.len(), 300);
    let mut ones = 0;
    for i in 0..=300 {
        assert_eq!(b.rank(true, i), ones);
        assert_eq!(b.rank(false, i), i - ones);
        if i < 300 {
            assert_eq!(b.get(i), bits[i]);
            if bits[i] {
                assert_eq!(b.select(true, ones), i);
                ones += 1;
            } else {
                assert_eq!(b.select(false, i - ones), i);
            }
        }
    }
}

#[test]
fn dynamic_bit_sequence_edits() {
    let mut d = DynamicBitSequence::new();
    d.insert(0, true);
    d.insert(0, false);
    d.insert(2, true);
    d.insert(1, false);
    assert_eq!(d.len(), 4);
    assert_eq!(d.rank(true, 4), 2);
    assert_eq!(d.select(true, 1), 3);
    assert_eq!(d.select(false, 1), 1);
    assert_eq!(d.delete(0), Ok(()));
    assert_eq!(d.delete(3), Err(WaveletError::OutOfRange));
    assert_eq!(d.len(), 3);
    assert_eq!(d.get(0), false);
    assert_eq!(d.rank(false, 3), 1);
    assert_eq!(d.select(true, 0), 1);
}

fn naive_quantile(s: &[u64], lo: usize, hi: usize, k: usize) -> u64 {
    let mut v = s[lo..hi].to_vec();
    v.sort();
    v[k]
}

#[test]
fn scenario_range_quantile() {
    let m = WaveletMatrix::new(sample());
    assert_eq!(m.range_quantile(0, 5, 2), Ok(2));
    assert_eq!(m.range_quantile(0, 5, 0), Ok(1));
    assert_eq!(m.range_quantile(0, 5, 4), Ok(3));
    assert_eq!(m.range_quantile(1, 3, 1), Ok(2));
    assert_eq!(m.range_quantile(0, 5, 5), Err(WaveletError::OutOfRange));
    assert_eq!(m.range_quantile(3, 2, 0), Err(WaveletError::OutOfRange));
    assert_eq!(m.range_quantile(0, 6, 0), Err(WaveletError::OutOfRange));
    assert_eq!(m.range_quantile(2, 2, 0), Err(WaveletError::OutOfRange));
}

#[test]
fn range_quantile_matches_sorting() {
    let s = pseudo_random(80, 50, 29);
    let m = WaveletMatrix::new(s.clone());
    let d = DynamicWaveletMatrix::new(6, &s).unwrap();
    for lo in (0..80).step_by(7) {
        for hi in (lo + 1..=80).step_by(5) {
            for k in 0..hi - lo {
                let want = naive_quantile(&s, lo, hi, k);
                assert_eq!(m.range_quantile(lo, hi, k), Ok(want));
                assert_eq!(d.range_quantile(lo, hi, k), Ok(want));
            }
        }
    }
}

#[test]
fn range_quantile_extremes() {
    let s = pseudo_random(64, 1000, 31);
    let m = WaveletMatrix::new(s.clone());
    for lo in 0..60 {
        let hi = lo + 4;
        let min = *s[lo..hi].iter().min().unwrap();
        let max = *s[lo..hi].iter().max().unwrap();
        assert_eq!(m.range_quantile(lo, hi, 0), Ok(min));
        assert_eq!(m.range_quantile(lo, hi, hi - lo - 1), Ok(max));
    }
}

#[test]
fn range_count_less_than_matches_counting() {
    let s = pseudo_random(90, 20, 37);
    let m = WaveletMatrix::new(s.clone());
    let d = DynamicWaveletMatrix::new(5, &s).unwrap();
    for lo in (0..=90).step_by(9) {
        for hi in (lo..=90).step_by(4) {
            for bound in [0u64, 1, 7, 13, 19, 20, 31, 32, 1000, u64::MAX] {
                let want = s[lo..hi].iter().filter(|&&v| v < bound).count();
                assert_eq!(m.range_count_less_than(lo, hi, bound), Ok(want));
                assert_eq!(d.range_count_less_than(lo, hi, bound), Ok(want));
            }
        }
    }
}

#[test]
fn range_count_less_than_scenario() {
    let m = WaveletMatrix::new(sample());
    assert_eq!(m.range_count_less_than(0, 5, 3), Ok(3));
    assert_eq!(m.range_count_less_than(0, 5, 2), Ok(2));
    assert_eq!(m.range_count_less_than(1, 4, 3), Ok(2));
    assert_eq!(m.range_count_less_than(2, 2, 3), Ok(0));
    assert_eq!(m.range_count_less_than(0, 5, 4), Ok(5));
    assert_eq!(m.range_count_less_than(0, 6, 4), Err(WaveletError::OutOfRange));
    assert_eq!(m.range_count_less_than(3, 1, 4), Err(WaveletError::OutOfRange));
}

#[test]
fn dynamic_bit_sequence_many_blocks() {
    let mut d = DynamicBitSequence::new();
    let mut shadow: Vec<bool> = Vec::new();
    let ops = pseudo_random(1500, 1 << 30, 41);
    for (j, &x) in ops.iter().enumerate() {
        if j % 5 == 4 && !shadow.is_empty() {
            let pos = (x as usize) % shadow.len();
            assert_eq!(d.delete(pos), Ok(()));
            shadow.remove(pos);
        } else {
            let pos = (x as usize >> 3) % (shadow.len() + 1);
            let bit = x % 3 == 0;
            d.insert(pos, bit);
            shadow.insert(pos, bit);
        }
    }
    assert_eq!(d.len(), shadow.len());
    let mut ones = 0;
    for i in 0..=shadow.len() {
        assert_eq!(d.rank(true, i), ones);
        assert_eq!(d.rank(false, i), i - ones);
        if i < shadow.len() {
            assert_eq!(d.get(i), shadow[i]);
            if shadow[i] {
                assert_eq!(d.select(true, ones), i);
                ones += 1;
            } else {
                assert_eq!(d.select(false, i - ones), i);
            }
        }
    }
    while !shadow.is_empty() {
        assert_eq!(d.delete(0), Ok(()));
        shadow.remove(0);
    }
    assert_eq!(d.len(), 0);
    d.insert(0, true);
    assert_eq!(d.get(0), true);
}

#[test]
fn checked_bit_select() {
    let b = BitRankSelect::new(vec![true, false, true, true]);
    assert_eq!(select_checked(&b, true, 2), Ok(3));
    assert_eq!(select_checked(&b, true, 3), Err(WaveletError::OutOfRange));
    assert_eq!(select_checked(&b, false, 0), Ok(1));
    assert_eq!(select_checked(&b, false, 1), Err(WaveletError::OutOfRange));
    let mut d = DynamicBitSequence::new();
    assert_eq!(select_checked(&d, true, 0), Err(WaveletError::OutOfRange));
    d.insert(0, true);
    assert_eq!(select_checked(&d, true, 0), Ok(0));
}

#[test]
fn static_with_explicit_width() {
    let m = WaveletMatrix::with_width(3, sample()).unwrap();
    assert_eq!(m.width(), 3);
    assert_eq!(m.access(3), Ok(3));
    assert_eq!(m.rank(1, 5), Ok(2));
    assert_eq!(m.range_quantile(0, 5, 4), Ok(3));
    assert!(matches!(WaveletMatrix::with_width(1, sample()), Err(WaveletError::ValueTooWide)));
    assert!(matches!(WaveletMatrix::with_width(0, sample()), Err(WaveletError::OutOfRange)));
    assert!(matches!(WaveletMatrix::with_width(65, sample()), Err(WaveletError::OutOfRange)));
}
