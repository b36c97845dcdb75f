//! The dynamic wavelet matrix, which supports insertion and deletion of
//! symbols between queries.
use vstd::prelude::*;
use vstd::arithmetic::power2::pow2;
use crate::model::{
    count, kth_smallest, less_than,
    bit, bits, fits, occurrences, order, partition, zeros_of, lemma_order_empty,
    lemma_order_len, lemma_keep_len, lemma_step_access, lemma_step_insert, lemma_step_remove,
};
use crate::bit_sequence::BitSequence;
use crate::dynamic_bits::DynamicBitSequence;
use crate::error::WaveletError;
use crate::query::{self, levels_ok, bit_at, fits_width};

verus! {

/// A wavelet matrix over a sequence of symbols that can grow and shrink.
pub struct DynamicWaveletMatrix {
    levels: Vec<DynamicBitSequence>,
    zeros: Vec<usize>,
    width: usize,
    seq: Ghost<Seq<u64>>,
}

impl View for DynamicWaveletMatrix {
    type V = Seq<u64>;

    closed spec fn view(&self) -> Seq<u64> {
        self.seq@
    }
}

impl DynamicWaveletMatrix {
    /// The levels lay out the sequence.
    pub closed spec fn wf(&self) -> bool {
        levels_ok(self.seq@, self.width as nat, self.levels@, self.zeros@)
    }

    /// The bit width of the symbols.
    pub closed spec fn spec_width(&self) -> nat {
        self.width as nat
    }

    /// An empty matrix of `bit_width`-bit symbols.
    pub fn empty(bit_width: usize) -> (r: Result<Self, WaveletError>)
        ensures
            (1 <= bit_width <= 64) <==> r is Ok,
            r is Err ==> r == Err::<Self, WaveletError>(WaveletError::OutOfRange),
            r matches Ok(m) ==> m.wf() && m@ == Seq::<u64>::empty() && m.spec_width() == bit_width,
    {
        if bit_width == 0 || bit_width > 64 {
            return Err(WaveletError::OutOfRange);
        }
        let ghost w = bit_width as nat;
        let mut levels: Vec<DynamicBitSequence> = Vec::new();
        let mut zeros: Vec<usize> = Vec::new();
        let mut l: usize = 0;
        while l < bit_width
            invariant
                l <= bit_width <= 64,
                w == bit_width,
                levels@.len() == l,
                zeros@.len() == l,
                forall|k: int|
                    0 <= k < l ==> (#[trigger] levels@[k]).wf() && levels@[k].bit_seq() == bits(
                        order(Seq::<u64>::empty(), w, k as nat),
                        w,
                        k as nat,
                    ),
                forall|k: int|
                    0 <= k < l ==> #[trigger] zeros@[k] == zeros_of(
                        order(Seq::<u64>::empty(), w, k as nat),
                        w,
                        k as nat,
                    ),
            decreases bit_width - l,
        {
            proof {
                lemma_order_empty(w, l as nat);
                assert(bits(Seq::<u64>::empty(), w, l as nat) =~= Seq::<bool>::empty());
            }
            levels.push(DynamicBitSequence::new());
            zeros.push(0);
            l = l + 1;
        }
        Ok(DynamicWaveletMatrix { levels, zeros, width: bit_width, seq: Ghost(Seq::empty()) })
    }

    /// A matrix of `bit_width`-bit symbols holding `sequence`. `OutOfRange`
    /// unless `1 <= bit_width <= 64`; `ValueTooWide` where a symbol does not
    /// fit in `bit_width` bits.
    pub fn new(bit_width: usize, sequence: &Vec<u64>) -> (r: Result<Self, WaveletError>)
        requires
            sequence@.len() + 1 < usize::MAX,
        ensures
            !(1 <= bit_width <= 64) ==> r == Err::<Self, WaveletError>(WaveletError::OutOfRange),
            (1 <= bit_width <= 64 && !fits(sequence@, bit_width as nat)) ==> r == Err::<
                Self,
                WaveletError,
            >(WaveletError::ValueTooWide),
            (1 <= bit_width <= 64 && fits(sequence@, bit_width as nat)) ==> r is Ok,
            r matches Ok(m) ==> m.wf() && m@ == sequence@ && m.spec_width() == bit_width,
    {
        let mut m = match Self::empty(bit_width) {
            Ok(m) => m,
            Err(e) => return Err(e),
        };
        let n = sequence.len();
        let mut i: usize = 0;
        while i < n
            invariant
                n == sequence@.len(),
                n + 1 < usize::MAX,
                i <= n,
                m.wf(),
                m.spec_width() == bit_width,
                1 <= bit_width <= 64,
                m@ == sequence@.subrange(0, i as int),
            decreases n - i,
        {
            match m.insert(i, sequence[i]) {
                Ok(()) => {},
                Err(e) => {
                    proof {
                        assert(!((sequence@[i as int] as nat) < pow2(bit_width as nat)));
                        assert(!fits(sequence@, bit_width as nat));
                    }
                    return Err(e);
                },
            }
            proof {
                assert(sequence@.subrange(0, i as int).insert(i as int, sequence@[i as int])
                    =~= sequence@.subrange(0, i + 1));
            }
            i = i + 1;
        }
        proof {
            assert(sequence@.subrange(0, n as int) =~= sequence@);
        }
        Ok(m)
    }

    /// Number of symbols.
    pub fn len(&self) -> (r: usize)
        requires
            self.wf(),
        ensures
            r == self@.len(),
    {
        proof { lemma_order_len(self.seq@, self.width as nat, 0); }
        self.levels[0].len()
    }

    /// The bit width of the symbols.
    pub fn width(&self) -> (r: usize)
        ensures
            r == self.spec_width(),
    {
        self.width
    }

    /// Inserts `symbol` at position `pos`, shifting later symbols right.
    /// `OutOfRange` unless `pos <= len`; `ValueTooWide` unless the symbol fits
    /// in the width. A rejected call changes nothing.
    pub fn insert(&mut self, pos: usize, symbol: u64) -> (r: Result<(), WaveletError>)
        requires
            old(self).wf(),
            old(self)@.len() + 1 < usize::MAX,
        ensures
            final(self).wf(),
            final(self).spec_width() == old(self).spec_width(),
            pos > old(self)@.len() ==> r == Err::<(), WaveletError>(WaveletError::OutOfRange),
            (pos <= old(self)@.len() && !((symbol as nat) < pow2(old(self).spec_width())))
                ==> r == Err::<(), WaveletError>(WaveletError::ValueTooWide),
            (pos <= old(self)@.len() && (symbol as nat) < pow2(old(self).spec_width())) ==> r is Ok,
            r is Ok ==> final(self)@ == old(self)@.insert(pos as int, symbol),
            r is Err ==> final(self)@ == old(self)@,
    {
        if pos > self.len() {
            return Err(WaveletError::OutOfRange);
        }
        if !fits_width(symbol, self.width) {
            return Err(WaveletError::ValueTooWide);
        }
        let ghost s = self.seq@;
        let ghost s2 = s.insert(pos as int, symbol);
        let ghost old_levels = self.levels@;
        let ghost old_zeros = self.zeros@;
        let ghost w = self.width as nat;
        let width = self.width;
        let mut p: usize = pos;
        let mut l: usize = 0;
        proof {
            lemma_order_len(s, w, 0);
        }
        while l < width
            invariant
                levels_ok(s, w, old_levels, old_zeros),
                width == w,
                self.width == width,
                self.seq@ == s,
                s.len() + 1 < usize::MAX,
                s2 == s.insert(pos as int, symbol),
                (symbol as nat) < pow2(w),
                l <= w,
                self.levels@.len() == w,
                self.zeros@.len() == w,
                p <= s.len(),
                order(s2, w, l as nat) == order(s, w, l as nat).insert(p as int, symbol),
                forall|k: int|
                    0 <= k < l ==> (#[trigger] self.levels@[k]).wf() && self.levels@[k].bit_seq()
                        == bits(order(s2, w, k as nat), w, k as nat),
                forall|k: int|
                    0 <= k < l ==> #[trigger] self.zeros@[k] == zeros_of(
                        order(s2, w, k as nat),
                        w,
                        k as nat,
                    ),
                forall|k: int| l <= k < w ==> #[trigger] self.levels@[k] == old_levels[k],
                forall|k: int| l <= k < w ==> #[trigger] self.zeros@[k] == old_zeros[k],
            decreases w - l,
        {
            let ghost t = order(s, w, l as nat);
            let b = bit_at(symbol, width, l);
            proof {
                lemma_order_len(s, w, l as nat);
                lemma_step_insert(t, w, l as nat, p as nat, symbol);
                lemma_keep_len(t, w, l as nat);
                assert(order(s, w, (l + 1) as nat) == partition(t, w, l as nat));
                assert(order(s2, w, (l + 1) as nat) == partition(order(s2, w, l as nat), w, l as nat));
                assert(self.levels@[l as int] == old_levels[l as int]);
            }
            let next = query::step(&self.levels[l], self.zeros[l], b, p, Ghost(t), Ghost(w), Ghost(l as nat));
            self.levels[l].insert(p, b);
            if !b {
                let z = self.zeros[l] + 1;
                self.zeros.set(l, z);
            }
            p = next;
            l = l + 1;
        }
        proof {
            assert(fits(s2, w)) by {
                assert forall|i: int| 0 <= i < s2.len() implies (#[trigger] s2[i] as nat) < pow2(w) by {
                    if i < pos {
                        assert(s2[i] == s[i]);
                    } else if i > pos {
                        assert(s2[i] == s[i - 1]);
                    }
                }
            }
        }
        self.seq = Ghost(s2);
        Ok(())
    }

    /// Removes the symbol at position `pos`, shifting later symbols left.
    /// `OutOfRange` unless `pos < len`; a rejected call changes nothing.
    pub fn delete(&mut self, pos: usize) -> (r: Result<(), WaveletError>)
        requires
            old(self).wf(),
        ensures
            final(self).wf(),
            final(self).spec_width() == old(self).spec_width(),
            pos < old(self)@.len() ==> r is Ok && final(self)@ == old(self)@.remove(pos as int),
            pos >= old(self)@.len() ==> r == Err::<(), WaveletError>(WaveletError::OutOfRange)
                && final(self)@ == old(self)@,
    {
        if pos >= self.len() {
            return Err(WaveletError::OutOfRange);
        }
        let ghost s = self.seq@;
        let ghost s2 = s.remove(pos as int);
        let ghost v = s[pos as int];
        let ghost old_levels = self.levels@;
        let ghost old_zeros = self.zeros@;
        let ghost w = self.width as nat;
        let width = self.width;
        let mut p: usize = pos;
        let mut l: usize = 0;
        while l < width
            invariant
                levels_ok(s, w, old_levels, old_zeros),
                width == w,
                self.width == width,
                self.seq@ == s,
                s2 == s.remove(pos as int),
                pos < s.len(),
                l <= w,
                self.levels@.len() == w,
                self.zeros@.len() == w,
                p < s.len(),
                order(s, w, l as nat)[p as int] == v,
                order(s2, w, l as nat) == order(s, w, l as nat).remove(p as int),
                forall|k: int|
                    0 <= k < l ==> (#[trigger] self.levels@[k]).wf() && self.levels@[k].bit_seq()
                        == bits(order(s2, w, k as nat), w, k as nat),
                forall|k: int|
                    0 <= k < l ==> #[trigger] self.zeros@[k] == zeros_of(
                        order(s2, w, k as nat),
                        w,
                        k as nat,
                    ),
                forall|k: int| l <= k < w ==> #[trigger] self.levels@[k] == old_levels[k],
                forall|k: int| l <= k < w ==> #[trigger] self.zeros@[k] == old_zeros[k],
            decreases w - l,
        {
            let ghost t = order(s, w, l as nat);
            proof {
                lemma_order_len(s, w, l as nat);
                lemma_order_len(s, w, (l + 1) as nat);
                lemma_step_remove(t, w, l as nat, p as nat);
                lemma_step_access(t, w, l as nat, p as nat);
                assert(order(s, w, (l + 1) as nat) == partition(t, w, l as nat));
                assert(order(s2, w, (l + 1) as nat) == partition(order(s2, w, l as nat), w, l as nat));
                assert(self.levels@[l as int] == old_levels[l as int]);
            }
            let b = self.levels[l].get(p);
            let next = query::step(&self.levels[l], self.zeros[l], b, p, Ghost(t), Ghost(w), Ghost(l as nat));
            let _ = self.levels[l].delete(p);
            if !b {
                let z = self.zeros[l] - 1;
                self.zeros.set(l, z);
            }
            p = next;
            l = l + 1;
        }
        proof {
            assert(fits(s2, w)) by {
                assert forall|i: int| 0 <= i < s2.len() implies (#[trigger] s2[i] as nat) < pow2(w) by {
                    if i < pos {
                        assert(s2[i] == s[i]);
                    } else {
                        assert(s2[i] == s[i + 1]);
                    }
                }
            }
        }
        self.seq = Ghost(s2);
        Ok(())
    }

    /// The symbol at position `i`; `OutOfRange` unless `i < len`.
    pub fn access(&self, i: usize) -> (r: Result<u64, WaveletError>)
        requires
            self.wf(),
        ensures
            i < self@.len() ==> r == Ok::<u64, WaveletError>(self@[i as int]),
            i >= self@.len() ==> r == Err::<u64, WaveletError>(WaveletError::OutOfRange),
    {
        if i >= self.len() {
            return Err(WaveletError::OutOfRange);
        }
        Ok(query::access(&self.levels, &self.zeros, self.width, i, Ghost(self.seq@)))
    }

    /// Number of occurrences of `symbol` in positions `[0, i)`;
    /// `OutOfRange` unless `i <= len`.
    pub fn rank(&self, symbol: u64, i: usize) -> (r: Result<usize, WaveletError>)
        requires
            self.wf(),
        ensures
            i <= self@.len() ==> r == Ok::<usize, WaveletError>(
                occurrences(self@.subrange(0, i as int), symbol) as usize,
            ),
            i > self@.len() ==> r == Err::<usize, WaveletError>(WaveletError::OutOfRange),
    {
        if i > self.len() {
            return Err(WaveletError::OutOfRange);
        }
        Ok(query::rank(&self.levels, &self.zeros, self.width, symbol, i, Ghost(self.seq@)))
    }

    /// Position of the occurrence of `symbol` preceded by exactly `k`
    /// occurrences of it; `OutOfRange` unless `k` is below its count.
    pub fn select(&self, symbol: u64, k: usize) -> (r: Result<usize, WaveletError>)
        requires
            self.wf(),
        ensures
            r is Ok <==> k < occurrences(self@, symbol),
            r is Err ==> r == Err::<usize, WaveletError>(WaveletError::OutOfRange),
            r matches Ok(p) ==> p < self@.len() && self@[p as int] == symbol
                && occurrences(self@.subrange(0, p as int), symbol) == k,
    {
        match query::select(&self.levels, &self.zeros, self.width, symbol, k, Ghost(self.seq@)) {
            Some(p) => Ok(p),
            None => Err(WaveletError::OutOfRange),
        }
    }

    /// The `k`-th smallest symbol, from zero, among positions `[lo, hi)`;
    /// `OutOfRange` unless `lo <= hi <= len` and `k < hi - lo`.
    pub fn range_quantile(&self, lo: usize, hi: usize, k: usize) -> (r: Result<u64, WaveletError>)
        requires
            self.wf(),
        ensures
            r is Ok <==> (lo <= hi <= self@.len() && k < hi - lo),
            r is Err ==> r == Err::<u64, WaveletError>(WaveletError::OutOfRange),
            r matches Ok(v) ==> kth_smallest(self@.subrange(lo as int, hi as int), k as nat, v),
    {
        let n = self.len();
        if lo > hi || hi > n || k >= hi - lo {
            return Err(WaveletError::OutOfRange);
        }
        Ok(query::range_quantile(&self.levels, &self.zeros, self.width, lo, hi, k, Ghost(self.seq@)))
    }

    /// Number of symbols below `bound` among positions `[lo, hi)`;
    /// `OutOfRange` unless `lo <= hi <= len`.
    pub fn range_count_less_than(&self, lo: usize, hi: usize, bound: u64) -> (r: Result<usize, WaveletError>)
        requires
            self.wf(),
        ensures
            (lo <= hi <= self@.len()) ==> r == Ok::<usize, WaveletError>(
                count(self@.subrange(lo as int, hi as int), less_than(bound)) as usize,
            ),
            !(lo <= hi <= self@.len()) ==> r == Err::<usize, WaveletError>(WaveletError::OutOfRange),
    {
        let n = self.len();
        if lo > hi || hi > n {
            return Err(WaveletError::OutOfRange);
        }
        Ok(query::range_count_less_than(&self.levels, &self.zeros, self.width, lo, hi, bound, Ghost(self.seq@)))
    }
}

} // verus!
