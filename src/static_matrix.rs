//! The static wavelet matrix, built once from a sequence of symbols.
use vstd::prelude::*;
use vstd::arithmetic::power2::{pow2, lemma_pow2_pos};
use crate::model::{
    count, kth_smallest, less_than,
    bit, bits, fits, keep, occurrences, order, partition, zeros_of, lemma_fits_exec,
    lemma_order_len,
};
use crate::bit_rank_select::BitRankSelect;
use crate::bit_sequence::BitSequence;
use crate::error::WaveletError;
use crate::query::{self, levels_ok, bit_at, fits_width};

verus! {

/// The smallest width, at least one bit, in which every symbol of `s` fits.
pub open spec fn min_width(s: Seq<u64>, w: nat) -> bool {
    &&& 1 <= w <= 64
    &&& fits(s, w)
    &&& (w == 1 || !fits(s, (w - 1) as nat))
}

/// An immutable wavelet matrix over a sequence of symbols.
pub struct WaveletMatrix {
    levels: Vec<BitRankSelect>,
    zeros: Vec<usize>,
    width: usize,
    seq: Ghost<Seq<u64>>,
}

/// The level bits of `cur`, its number of zero bits, and its stable partition.
fn split_level(cur: &Vec<u64>, w: usize, l: usize) -> (r: (Vec<bool>, usize, Vec<u64>))
    requires
        l < w <= 64,
    ensures
        r.0@ == bits(cur@, w as nat, l as nat),
        r.1 == zeros_of(cur@, w as nat, l as nat),
        r.2@ == partition(cur@, w as nat, l as nat),
{
    let n = cur.len();
    let mut level_bits: Vec<bool> = Vec::new();
    let mut low: Vec<u64> = Vec::new();
    let mut high: Vec<u64> = Vec::new();
    let mut i: usize = 0;
    while i < n
        invariant
            n == cur@.len(),
            l < w <= 64,
            i <= n,
            level_bits@ == bits(cur@.subrange(0, i as int), w as nat, l as nat),
            low@ == keep(cur@.subrange(0, i as int), w as nat, l as nat, false),
            high@ == keep(cur@.subrange(0, i as int), w as nat, l as nat, true),
        decreases n - i,
    {
        let v = cur[i];
        let b = bit_at(v, w, l);
        level_bits.push(b);
        if b {
            high.push(v);
        } else {
            low.push(v);
        }
        proof {
            let next = cur@.subrange(0, i + 1);
            assert(next.drop_last() =~= cur@.subrange(0, i as int));
            assert(next.last() == v);
            assert(level_bits@ =~= bits(next, w as nat, l as nat));
        }
        i = i + 1;
    }
    proof {
        assert(cur@.subrange(0, n as int) =~= cur@);
    }
    let z = low.len();
    let mut next = low;
    let mut rest = high;
    next.append(&mut rest);
    (level_bits, z, next)
}

impl View for WaveletMatrix {
    type V = Seq<u64>;

    closed spec fn view(&self) -> Seq<u64> {
        self.seq@
    }
}

impl WaveletMatrix {
    /// The levels lay out the sequence.
    pub closed spec fn wf(&self) -> bool {
        levels_ok(self.seq@, self.width as nat, self.levels@, self.zeros@)
    }

    /// The bit width of the symbols.
    pub closed spec fn spec_width(&self) -> nat {
        self.width as nat
    }

    /// Builds the matrix of `sequence`, in the smallest width (at least one
    /// bit) that holds every symbol.
    pub fn new(sequence: Vec<u64>) -> (r: Self)
        requires
            sequence@.len() < usize::MAX,
        ensures
            r.wf(),
            r@ == sequence@,
            min_width(sequence@, r.spec_width()),
    {
        let ghost s = sequence@;
        let n = sequence.len();
        let mut max: u64 = 0;
        let mut i: usize = 0;
        while i < n
            invariant
                n == s.len(),
                s == sequence@,
                i <= n,
                forall|k: int| 0 <= k < i ==> s[k] <= max,
                max == 0 || exists|k: int| 0 <= k < i && s[k] == max,
            decreases n - i,
        {
            if sequence[i] > max {
                max = sequence[i];
            }
            i = i + 1;
        }
        let mut w: usize = 1;
        while w < 64 && (max >> (w as u64)) != 0u64
            invariant
                1 <= w <= 64,
                w == 1 || !((max as nat) < pow2((w - 1) as nat)),
            decreases 64 - w,
        {
            proof { lemma_fits_exec(max, w as nat); }
            w = w + 1;
        }
        proof {
            lemma_fits_exec(max, w as nat);
            assert(fits(s, w as nat));
            if w > 1 {
                lemma_pow2_pos((w - 1) as nat);
                assert(max != 0);
                let k = choose|k: int| 0 <= k < n && s[k] == max;
                assert(!((s[k] as nat) < pow2((w - 1) as nat)));
                assert(!fits(s, (w - 1) as nat));
            }
        }
        Self::build(sequence, w)
    }

    /// Lays out `sequence` in `w`-bit levels.
    fn build(sequence: Vec<u64>, w: usize) -> (r: Self)
        requires
            1 <= w <= 64,
            sequence@.len() < usize::MAX,
            fits(sequence@, w as nat),
        ensures
            r.wf(),
            r@ == sequence@,
            r.spec_width() == w,
    {
        let ghost s = sequence@;
        let mut levels: Vec<BitRankSelect> = Vec::new();
        let mut zeros: Vec<usize> = Vec::new();
        let mut cur = sequence;
        let mut l: usize = 0;
        while l < w
            invariant
                1 <= w <= 64,
                l <= w,
                s.len() < usize::MAX,
                fits(s, w as nat),
                cur@ == order(s, w as nat, l as nat),
                levels@.len() == l,
                zeros@.len() == l,
                forall|k: int|
                    0 <= k < l ==> (#[trigger] levels@[k]).wf() && levels@[k].bit_seq() == bits(
                        order(s, w as nat, k as nat),
                        w as nat,
                        k as nat,
                    ),
                forall|k: int|
                    0 <= k < l ==> #[trigger] zeros@[k] == zeros_of(
                        order(s, w as nat, k as nat),
                        w as nat,
                        k as nat,
                    ),
            decreases w - l,
        {
            let (level_bits, z, next) = split_level(&cur, w, l);
            levels.push(BitRankSelect::new(level_bits));
            zeros.push(z);
            proof {
                assert(order(s, w as nat, (l + 1) as nat) == partition(cur@, w as nat, l as nat));
            }
            cur = next;
            l = l + 1;
        }
        WaveletMatrix { levels, zeros, width: w, seq: Ghost(s) }
    }

    /// Builds the matrix of `sequence` in `bit_width`-bit levels.
    /// `OutOfRange` unless `1 <= bit_width <= 64`; `ValueTooWide` where a
    /// symbol does not fit in `bit_width` bits.
    pub fn with_width(bit_width: usize, sequence: Vec<u64>) -> (r: Result<Self, WaveletError>)
        requires
            sequence@.len() < usize::MAX,
        ensures
            !(1 <= bit_width <= 64) ==> r == Err::<Self, WaveletError>(WaveletError::OutOfRange),
            (1 <= bit_width <= 64 && !fits(sequence@, bit_width as nat)) ==> r == Err::<
                Self,
                WaveletError,
            >(WaveletError::ValueTooWide),
            (1 <= bit_width <= 64 && fits(sequence@, bit_width as nat)) ==> r is Ok,
            r matches Ok(m) ==> m.wf() && m@ == sequence@ && m.spec_width() == bit_width,
    {
        if bit_width == 0 || bit_width > 64 {
            return Err(WaveletError::OutOfRange);
        }
        let n = sequence.len();
        let mut i: usize = 0;
        while i < n
            invariant
                n == sequence@.len(),
                1 <= bit_width <= 64,
                i <= n,
                forall|k: int| 0 <= k < i ==> (#[trigger] sequence@[k] as nat) < pow2(bit_width as nat),
            decreases n - i,
        {
            if !fits_width(sequence[i], bit_width) {
                return Err(WaveletError::ValueTooWide);
            }
            i = i + 1;
        }
        Ok(Self::build(sequence, bit_width))
    }

    /// Number of symbols.
    pub fn len(&self) -> (r: usize)
        requires
            self.wf(),
        ensures
            r == self@.len(),
    {
        proof { lemma_order_len(self.seq@, self.width as nat, 0); }
        self.levels[0].len()
    }

    /// The bit width of the symbols.
    pub fn width(&self) -> (r: usize)
        ensures
            r == self.spec_width(),
    {
        self.width
    }

    /// The symbol at position `i`; `OutOfRange` unless `i < len`.
    pub fn access(&self, i: usize) -> (r: Result<u64, WaveletError>)
        requires
            self.wf(),
        ensures
            i < self@.len() ==> r == Ok::<u64, WaveletError>(self@[i as int]),
            i >= self@.len() ==> r == Err::<u64, WaveletError>(WaveletError::OutOfRange),
    {
        if i >= self.len() {
            return Err(WaveletError::OutOfRange);
        }
        Ok(query::access(&self.levels, &self.zeros, self.width, i, Ghost(self.seq@)))
    }

    /// Number of occurrences of `symbol` in positions `[0, i)`;
    /// `OutOfRange` unless `i <= len`.
    pub fn rank(&self, symbol: u64, i: usize) -> (r: Result<usize, WaveletError>)
        requires
            self.wf(),
        ensures
            i <= self@.len() ==> r == Ok::<usize, WaveletError>(
                occurrences(self@.subrange(0, i as int), symbol) as usize,
            ),
            i > self@.len() ==> r == Err::<usize, WaveletError>(WaveletError::OutOfRange),
    {
        if i > self.len() {
            return Err(WaveletError::OutOfRange);
        }
        Ok(query::rank(&self.levels, &self.zeros, self.width, symbol, i, Ghost(self.seq@)))
    }

    /// Position of the occurrence of `symbol` preceded by exactly `k`
    /// occurrences of it; `OutOfRange` unless `k` is below its count.
    pub fn select(&self, symbol: u64, k: usize) -> (r: Result<usize, WaveletError>)
        requires
            self.wf(),
        ensures
            r is Ok <==> k < occurrences(self@, symbol),
            r is Err ==> r == Err::<usize, WaveletError>(WaveletError::OutOfRange),
            r matches Ok(p) ==> p < self@.len() && self@[p as int] == symbol
                && occurrences(self@.subrange(0, p as int), symbol) == k,
    {
        match query::select(&self.levels, &self.zeros, self.width, symbol, k, Ghost(self.seq@)) {
            Some(p) => Ok(p),
            None => Err(WaveletError::OutOfRange),
        }
    }

    /// The `k`-th smallest symbol, from zero, among positions `[lo, hi)`;
    /// `OutOfRange` unless `lo <= hi <= len` and `k < hi - lo`.
    pub fn range_quantile(&self, lo: usize, hi: usize, k: usize) -> (r: Result<u64, WaveletError>)
        requires
            self.wf(),
        ensures
            r is Ok <==> (lo <= hi <= self@.len() && k < hi - lo),
            r is Err ==> r == Err::<u64, WaveletError>(WaveletError::OutOfRange),
            r matches Ok(v) ==> kth_smallest(self@.subrange(lo as int, hi as int), k as nat, v),
    {
        let n = self.len();
        if lo > hi || hi > n || k >= hi - lo {
            return Err(WaveletError::OutOfRange);
        }
        Ok(query::range_quantile(&self.levels, &self.zeros, self.width, lo, hi, k, Ghost(self.seq@)))
    }

    /// Number of symbols below `bound` among positions `[lo, hi)`;
    /// `OutOfRange` unless `lo <= hi <= len`.
    pub fn range_count_less_than(&self, lo: usize, hi: usize, bound: u64) -> (r: Result<usize, WaveletError>)
        requires
            self.wf(),
        ensures
            (lo <= hi <= self@.len()) ==> r == Ok::<usize, WaveletError>(
                count(self@.subrange(lo as int, hi as int), less_than(bound)) as usize,
            ),
            !(lo <= hi <= self@.len()) ==> r == Err::<usize, WaveletError>(WaveletError::OutOfRange),
    {
        let n = self.len();
        if lo > hi || hi > n {
            return Err(WaveletError::OutOfRange);
        }
        Ok(query::range_count_less_than(&self.levels, &self.zeros, self.width, lo, hi, bound, Ghost(self.seq@)))
    }
}

} // verus!
