//! An immutable bit sequence with block summaries for rank and select.
use vstd::prelude::*;
use crate::model::{rank_of, lemma_rank_le, lemma_rank_sum};
use crate::bit_sequence::BitSequence;

verus! {

/// Number of bits covered by one rank summary.
pub const BLOCK: usize = 64;

/// An immutable bit sequence. `summary[j]` holds the number of ones before
/// position `j * BLOCK`, for every block start up to the length.
pub struct BitRankSelect {
    bits: Vec<bool>,
    summary: Vec<usize>,
}

impl BitRankSelect {
    /// Builds the index over `bits`.
    pub fn new(bits: Vec<bool>) -> (r: Self)
        ensures
            r.wf(),
            r.bit_seq() == bits@,
    {
        let n = bits.len();
        let nb = n / BLOCK + 1;
        let mut summary: Vec<usize> = Vec::new();
        let mut ones: usize = 0;
        let mut i: usize = 0;
        let mut j: usize = 0;
        while j < nb
            invariant
                n == bits@.len(),
                nb == n / BLOCK + 1,
                j <= nb,
                summary@.len() == j,
                i as int == if j < nb { j * BLOCK } else { n as int },
                i <= n,
                ones == rank_of(bits@, true, i as nat),
                ones <= i,
                forall|k: int|
                    0 <= k < j ==> #[trigger] summary@[k] == rank_of(bits@, true, (k * BLOCK) as nat),
            decreases nb - j,
        {
            summary.push(ones);
            let end = if n - i < BLOCK { n } else { i + BLOCK };
            while i < end
                invariant
                    i <= end <= n,
                    n == bits@.len(),
                    ones == rank_of(bits@, true, i as nat),
                    ones <= i,
                decreases end - i,
            {
                proof { lemma_rank_le(bits@, true, i as nat, (i + 1) as nat); }
                if bits[i] {
                    ones = ones + 1;
                }
                i = i + 1;
            }
            j = j + 1;
            assert(j < nb ==> end == j * BLOCK);
            assert(j == nb ==> end == n);
        }
        BitRankSelect { bits, summary }
    }

    fn ones_before(&self, i: usize) -> (r: usize)
        requires
            self.wf(),
            i <= self.bits@.len(),
        ensures
            r == rank_of(self.bits@, true, i as nat),
    {
        let j = i / BLOCK;
        let mut p = j * BLOCK;
        let mut ones = self.summary[j];
        proof { lemma_rank_le(self.bits@, true, 0, p as nat); }
        while p < i
            invariant
                p <= i <= self.bits@.len(),
                ones == rank_of(self.bits@, true, p as nat),
                ones <= p,
            decreases i - p,
        {
            proof { lemma_rank_le(self.bits@, true, p as nat, (p + 1) as nat); }
            if self.bits[p] {
                ones = ones + 1;
            }
            p = p + 1;
        }
        ones
    }
}

impl BitSequence for BitRankSelect {
    closed spec fn bit_seq(&self) -> Seq<bool> {
        self.bits@
    }

    closed spec fn wf(&self) -> bool {
        &&& self.summary@.len() == self.bits@.len() / (BLOCK as nat) + 1
        &&& forall|j: int|
            0 <= j < self.summary@.len() ==> #[trigger] self.summary@[j] == rank_of(
                self.bits@,
                true,
                (j * BLOCK) as nat,
            )
    }

    fn len(&self) -> (r: usize) {
        self.bits.len()
    }

    fn get(&self, i: usize) -> (r: bool) {
        self.bits[i]
    }

    fn rank(&self, b: bool, i: usize) -> (r: usize) {
        let ones = self.ones_before(i);
        proof { lemma_rank_sum(self.bits@, i as nat); }
        if b {
            ones
        } else {
            i - ones
        }
    }

    fn select(&self, b: bool, k: usize) -> (r: usize) {
        let n = self.bits.len();
        let mut lo: usize = 0;
        let mut hi: usize = n;
        while hi - lo > 1
            invariant
                self.wf(),
                n == self.bits@.len(),
                lo < hi <= n,
                rank_of(self.bits@, b, lo as nat) <= k < rank_of(self.bits@, b, hi as nat),
            decreases hi - lo,
        {
            let mid = lo + (hi - lo) / 2;
            if self.rank(b, mid) <= k {
                lo = mid;
            } else {
                hi = mid;
            }
        }
        proof { lemma_rank_le(self.bits@, b, lo as nat, hi as nat); }
        lo
    }
}

} // verus!
