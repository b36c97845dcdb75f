//! The capability that each level of a matrix needs from its bit sequence.
use vstd::prelude::*;
use crate::model::rank_of;
use crate::error::WaveletError;

verus! {

/// A sequence of bits answering positional reads, rank and select.
pub trait BitSequence: Sized {
    /// The bits held, in order.
    spec fn bit_seq(&self) -> Seq<bool>;

    /// The internal summaries agree with the bits.
    spec fn wf(&self) -> bool;

    /// Number of bits held.
    fn len(&self) -> (r: usize)
        requires
            self.wf(),
        ensures
            r == self.bit_seq().len(),
    ;

    /// The bit at position `i`.
    fn get(&self, i: usize) -> (r: bool)
        requires
            self.wf(),
            i < self.bit_seq().len(),
        ensures
            r == self.bit_seq()[i as int],
    ;

    /// Number of occurrences of `b` in positions `[0, i)`.
    fn rank(&self, b: bool, i: usize) -> (r: usize)
        requires
            self.wf(),
            i <= self.bit_seq().len(),
        ensures
            r == rank_of(self.bit_seq(), b, i as nat),
    ;

    /// Position of the occurrence of `b` that has `k` occurrences before it.
    fn select(&self, b: bool, k: usize) -> (r: usize)
        requires
            self.wf(),
            k < rank_of(self.bit_seq(), b, self.bit_seq().len()),
        ensures
            r < self.bit_seq().len(),
            self.bit_seq()[r as int] == b,
            rank_of(self.bit_seq(), b, r as nat) == k,
    ;
}

/// Select that reports a missing occurrence: `OutOfRange` unless `b`
/// occurs more than `k` times.
pub fn select_checked<L: BitSequence>(bits: &L, b: bool, k: usize) -> (r: Result<usize, WaveletError>)
    requires
        bits.wf(),
    ensures
        r is Ok <==> k < rank_of(bits.bit_seq(), b, bits.bit_seq().len()),
        r is Err ==> r == Err::<usize, WaveletError>(WaveletError::OutOfRange),
        r matches Ok(p) ==> p < bits.bit_seq().len() && bits.bit_seq()[p as int] == b
            && rank_of(bits.bit_seq(), b, p as nat) == k,
{
    let n = bits.len();
    if k >= bits.rank(b, n) {
        return Err(WaveletError::OutOfRange);
    }
    Ok(bits.select(b, k))
}

} // verus!
