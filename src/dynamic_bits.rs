//! A mutable bit sequence supporting positional insertion and deletion,
//! kept as a run of small blocks, each with its own count of ones.
use vstd::prelude::*;
use crate::model::{rank_of, lemma_rank_le, lemma_rank_prefix, lemma_rank_sum};
use crate::bit_sequence::BitSequence;
use crate::error::WaveletError;

verus! {

/// Largest number of bits that a block holds; a block that grows past it is
/// split in two.
pub const BLOCK_CAPACITY: usize = 64;

/// The blocks' bits, one after the other.
pub open spec fn flat(bs: Seq<Seq<bool>>) -> Seq<bool>
    decreases bs.len(),
{
    if bs.len() == 0 {
        Seq::<bool>::empty()
    } else {
        flat(bs.drop_last()) + bs.last()
    }
}

pub proof fn lemma_flat_add(a: Seq<Seq<bool>>, c: Seq<Seq<bool>>)
    ensures
        flat(a + c) == flat(a) + flat(c),
    decreases c.len(),
{
    if c.len() == 0 {
        assert(a + c =~= a);
        assert(flat(a) + flat(c) =~= flat(a));
    } else {
        assert((a + c).drop_last() =~= a + c.drop_last());
        lemma_flat_add(a, c.drop_last());
        assert(flat(a + c) =~= flat(a) + flat(c));
    }
}

/// Block `j` sits between the blocks before it and those after it.
pub proof fn lemma_flat_at(bs: Seq<Seq<bool>>, j: int)
    requires
        0 <= j < bs.len(),
    ensures
        flat(bs.subrange(0, j + 1)) == flat(bs.subrange(0, j)) + bs[j],
        flat(bs) == flat(bs.subrange(0, j)) + bs[j] + flat(bs.subrange(j + 1, bs.len() as int)),
{
    assert(bs.subrange(0, j + 1).drop_last() =~= bs.subrange(0, j));
    assert(bs =~= bs.subrange(0, j + 1) + bs.subrange(j + 1, bs.len() as int));
    lemma_flat_add(bs.subrange(0, j + 1), bs.subrange(j + 1, bs.len() as int));
}

pub proof fn lemma_flat_all(bs: Seq<Seq<bool>>)
    ensures
        flat(bs.subrange(0, bs.len() as int)) == flat(bs),
{
    assert(bs.subrange(0, bs.len() as int) =~= bs);
}

/// Rank over a concatenation.
pub proof fn lemma_rank_add(x: Seq<bool>, y: Seq<bool>, b: bool, o: nat)
    requires
        o <= y.len(),
    ensures
        rank_of(x + y, b, x.len() + o) == rank_of(x, b, x.len()) + rank_of(y, b, o),
    decreases o,
{
    if o == 0 {
        assert((x + y).subrange(0, x.len() as int) =~= x.subrange(0, x.len() as int));
        lemma_rank_prefix(x + y, x, b, x.len());
    } else {
        lemma_rank_add(x, y, b, (o - 1) as nat);
        assert((x + y)[x.len() + o - 1] == y[o - 1]);
    }
}

/// Position `acc + o` of the whole sequence is position `o` of block `j`,
/// where `acc` is the length of the blocks before `j`.
pub proof fn lemma_in_block(bs: Seq<Seq<bool>>, j: int, b: bool, o: nat)
    requires
        0 <= j < bs.len(),
        o <= bs[j].len(),
    ensures
        ({
            let x = flat(bs.subrange(0, j));
            &&& x.len() + bs[j].len() <= flat(bs).len()
            &&& rank_of(flat(bs), b, x.len() + o) == rank_of(x, b, x.len()) + rank_of(bs[j], b, o)
            &&& o < bs[j].len() ==> flat(bs)[x.len() + o as int] == bs[j][o as int]
        }),
{
    let x = flat(bs.subrange(0, j));
    let y = x + bs[j];
    lemma_flat_at(bs, j);
    let rest = flat(bs.subrange(j + 1, bs.len() as int));
    assert(flat(bs).subrange(0, x.len() + o as int) =~= y.subrange(0, x.len() + o as int));
    lemma_rank_prefix(flat(bs), y, b, x.len() + o);
    lemma_rank_add(x, bs[j], b, o);
    if o < bs[j].len() {
        assert(flat(bs)[x.len() + o as int] == y[x.len() + o as int]);
    }
}

pub proof fn lemma_flat_single(a: Seq<bool>)
    ensures
        flat(seq![a]) == a,
{
    assert(seq![a].drop_last() =~= Seq::<Seq<bool>>::empty());
    assert(seq![a].last() == a);
    assert(flat(Seq::<Seq<bool>>::empty()) == Seq::<bool>::empty());
    assert(Seq::<bool>::empty() + a =~= a);
}

/// Replacing block `j` by the blocks `mid` replaces its bits by theirs.
pub proof fn lemma_flat_replace(vs: Seq<Seq<bool>>, j: int, mid: Seq<Seq<bool>>)
    requires
        0 <= j < vs.len(),
    ensures
        flat(vs.subrange(0, j) + mid + vs.subrange(j + 1, vs.len() as int))
            == flat(vs.subrange(0, j)) + flat(mid) + flat(vs.subrange(j + 1, vs.len() as int)),
        flat(vs) == flat(vs.subrange(0, j)) + vs[j] + flat(vs.subrange(j + 1, vs.len() as int)),
{
    let pre = vs.subrange(0, j);
    let post = vs.subrange(j + 1, vs.len() as int);
    lemma_flat_add(pre + mid, post);
    lemma_flat_add(pre, mid);
    lemma_flat_at(vs, j);
}

/// Rank of the ones after inserting a bit.
pub proof fn lemma_ones_insert(blk: Seq<bool>, o: int, b: bool)
    requires
        0 <= o <= blk.len(),
    ensures
        rank_of(blk.insert(o, b), true, blk.len() + 1)
            == rank_of(blk, true, blk.len()) + if b { 1nat } else { 0nat },
{
    let a = blk.subrange(0, o);
    let c = blk.subrange(o, blk.len() as int);
    assert(blk =~= a + c);
    assert(blk.insert(o, b) =~= (a + seq![b]) + c);
    lemma_rank_add(a, c, true, c.len());
    lemma_rank_add(a + seq![b], c, true, c.len());
    lemma_rank_add(a, seq![b], true, 1);
    assert(rank_of(seq![b], true, 0) == 0);
}

/// A mutable bit sequence held in blocks of at most `BLOCK_CAPACITY` bits.
pub struct DynamicBitSequence {
    blocks: Vec<Vec<bool>>,
    ones: Vec<usize>,
    total: usize,
}

/// Number of ones in `v`.
fn count_ones(v: &Vec<bool>) -> (r: usize)
    ensures
        r == rank_of(v@, true, v@.len()),
{
    let mut i: usize = 0;
    let mut c: usize = 0;
    while i < v.len()
        invariant
            i <= v@.len(),
            c == rank_of(v@, true, i as nat),
            c <= i,
        decreases v@.len() - i,
    {
        proof { lemma_rank_le(v@, true, i as nat, (i + 1) as nat); }
        if v[i] {
            c = c + 1;
        }
        i = i + 1;
    }
    c
}

impl DynamicBitSequence {
    /// The bits of each block.
    pub closed spec fn views(&self) -> Seq<Seq<bool>> {
        Seq::new(self.blocks@.len(), |j: int| self.blocks@[j]@)
    }

    /// An empty sequence.
    pub fn new() -> (r: Self)
        ensures
            r.wf(),
            r.bit_seq() == Seq::<bool>::empty(),
    {
        let r = DynamicBitSequence { blocks: Vec::new(), ones: Vec::new(), total: 0 };
        proof {
            assert(r.views() =~= Seq::<Seq<bool>>::empty());
        }
        r
    }

    /// Number of occurrences of `b` in block `j`.
    fn block_count(&self, j: usize, b: bool) -> (r: usize)
        requires
            self.wf(),
            j < self.views().len(),
        ensures
            r == rank_of(self.views()[j as int], b, self.views()[j as int].len()),
    {
        let n = self.blocks[j].len();
        proof {
            assert(self.views()[j as int] == self.blocks@[j as int]@);
            lemma_rank_sum(self.views()[j as int], n as nat);
        }
        if b {
            self.ones[j]
        } else {
            n - self.ones[j]
        }
    }

    /// The block holding position `i`, and the number of bits before it.
    fn locate(&self, i: usize) -> (r: (usize, usize))
        requires
            self.wf(),
            i < self.bit_seq().len(),
        ensures
            r.0 < self.views().len(),
            r.1 == flat(self.views().subrange(0, r.0 as int)).len(),
            r.1 <= i < r.1 + self.views()[r.0 as int].len(),
    {
        let ghost vs = self.views();
        let nb = self.blocks.len();
        let mut j: usize = 0;
        let mut acc: usize = 0;
        proof {
            assert(vs.subrange(0, 0) =~= Seq::<Seq<bool>>::empty());
        }
        while self.blocks[j].len() <= i - acc
            invariant
                self.wf(),
                vs == self.views(),
                nb == vs.len(),
                i < flat(vs).len(),
                j < nb,
                acc <= i,
                acc == flat(vs.subrange(0, j as int)).len(),
            decreases nb - j,
        {
            proof {
                assert(vs[j as int] == self.blocks@[j as int]@);
                lemma_flat_at(vs, j as int);
                lemma_flat_all(vs);
            }
            acc = acc + self.blocks[j].len();
            j = j + 1;
            proof {
                if j == nb {
                    assert(flat(vs.subrange(0, j as int)) == flat(vs));
                }
            }
        }
        proof {
            assert(vs[j as int] == self.blocks@[j as int]@);
        }
        (j, acc)
    }

    /// Inserts `b` at position `i`, shifting later bits right by one.
    #[verifier::rlimit(80)]
    pub fn insert(&mut self, i: usize, b: bool)
        requires
            old(self).wf(),
            i <= old(self).bit_seq().len(),
            old(self).bit_seq().len() < usize::MAX,
        ensures
            final(self).wf(),
            final(self).bit_seq() == old(self).bit_seq().insert(i as int, b),
    {
        let ghost vs = self.views();
        let ghost before = self.bit_seq();
        let nb = self.blocks.len();
        if nb == 0 {
            let mut v: Vec<bool> = Vec::new();
            v.push(b);
            self.blocks.push(v);
            self.ones.push(if b { 1 } else { 0 });
            self.total = 1;
            proof {
                let nv = self.views();
                assert(self.blocks@[0]@ == seq![b]);
                assert(nv =~= seq![seq![b]]);
                lemma_flat_single(seq![b]);
                assert(vs =~= Seq::<Seq<bool>>::empty());
                assert(before == flat(Seq::<Seq<bool>>::empty()));
                assert(flat(nv) =~= before.insert(i as int, b));
                assert(rank_of(seq![b], true, 0) == 0);
            }
            return;
        }
        let (j, acc) = if i < self.total {
            self.locate(i)
        } else {
            proof {
                assert(vs[nb - 1] == self.blocks@[nb - 1]@);
                lemma_flat_at(vs, nb - 1);
                lemma_flat_all(vs);
            }
            (nb - 1, self.total - self.blocks[nb - 1].len())
        };
        let o = i - acc;
        proof {
            assert(vs[j as int] == self.blocks@[j as int]@);
            lemma_flat_at(vs, j as int);
        }
        let ghost blk = vs[j as int];
        let ghost nblk = blk.insert(o as int, b);
        proof {
            lemma_rank_le(blk, true, 0, blk.len());
        }
        self.blocks[j].insert(o, b);
        if b {
            let c = self.ones[j] + 1;
            self.ones.set(j, c);
        }
        self.total = self.total + 1;
        proof {
            let nv = self.views();
            assert(nv =~= vs.subrange(0, j as int) + seq![nblk] + vs.subrange(j + 1, nb as int));
            lemma_flat_replace(vs, j as int, seq![nblk]);
            lemma_flat_single(nblk);
            assert(flat(nv) =~= before.insert(i as int, b));
            lemma_ones_insert(blk, o as int, b);
            assert(self.blocks@[j as int]@ == nblk);
            assert forall|k: int| 0 <= k < self.blocks@.len() && k != j implies (#[trigger] self.blocks@[k]) == old(self).blocks@[k] by {}
        }
        if self.blocks[j].len() > BLOCK_CAPACITY {
            self.split_block(j);
        }
    }

    /// Splits block `j`, which holds more than `BLOCK_CAPACITY` bits, in two.
    fn split_block(&mut self, j: usize)
        requires
            old(self).blocks@.len() == old(self).ones@.len(),
            j < old(self).blocks@.len(),
            old(self).blocks@[j as int]@.len() == BLOCK_CAPACITY + 1,
            forall|k: int|
                0 <= k < old(self).blocks@.len() ==> 0 < (#[trigger] old(self).blocks@[k])@.len()
                    && old(self).ones@[k] == rank_of(old(self).blocks@[k]@, true, old(self).blocks@[k]@.len()),
            forall|k: int|
                0 <= k < old(self).blocks@.len() && k != j ==> (#[trigger] old(self).blocks@[k])@.len()
                    <= BLOCK_CAPACITY,
            old(self).total == flat(old(self).views()).len(),
        ensures
            final(self).wf(),
            final(self).bit_seq() == old(self).bit_seq(),
    {
        let ghost vs = self.views();
        let ghost blk = vs[j as int];
        let nb = self.blocks.len();
        let h = BLOCK_CAPACITY / 2;
        let second = self.blocks[j].split_off(h);
        let c2 = count_ones(&second);
        proof {
            assert(vs[j as int] == old(self).blocks@[j as int]@);
            let a = blk.subrange(0, h as int);
            let c = blk.subrange(h as int, blk.len() as int);
            assert(blk =~= a + c);
            lemma_rank_add(a, c, true, c.len());
            lemma_rank_le(c, true, 0, c.len());
        }
        let c1 = self.ones[j] - c2;
        self.ones.set(j, c1);
        self.blocks.insert(j + 1, second);
        self.ones.insert(j + 1, c2);
        proof {
            let nv = self.views();
            let a = blk.subrange(0, h as int);
            let c = blk.subrange(h as int, blk.len() as int);
            assert(nv =~= vs.subrange(0, j as int) + seq![a, c] + vs.subrange(j + 1, nb as int));
            lemma_flat_replace(vs, j as int, seq![a, c]);
            assert(seq![a, c].drop_last() =~= seq![a]);
            lemma_flat_single(a);
            assert(flat(seq![a, c]) =~= a + c);
            assert(flat(nv) =~= flat(vs));
            assert forall|k: int| 0 <= k < self.blocks@.len() && k < j implies (#[trigger] self.blocks@[k]) == old(self).blocks@[k] by {}
            assert forall|k: int| 0 <= k < self.blocks@.len() && k > j + 1 implies (#[trigger] self.blocks@[k]) == old(self).blocks@[k - 1] by {}
        }
    }

    /// Removes the bit at position `i`, shifting later bits left by one;
    /// `OutOfRange`, changing nothing, unless `i < len`.
    pub fn delete(&mut self, i: usize) -> (r: Result<(), WaveletError>)
        requires
            old(self).wf(),
        ensures
            final(self).wf(),
            i < old(self).bit_seq().len() ==> r is Ok && final(self).bit_seq() == old(self).bit_seq().remove(i as int),
            i >= old(self).bit_seq().len() ==> r == Err::<(), WaveletError>(WaveletError::OutOfRange)
                && final(self).bit_seq() == old(self).bit_seq(),
    {
        if i >= self.total {
            return Err(WaveletError::OutOfRange);
        }
        if let Some(j) = self.remove_at(i) {
            if j < self.blocks.len() - 1 && self.blocks[j].len() < BLOCK_CAPACITY / 4
                && self.blocks[j].len() + self.blocks[j + 1].len() <= BLOCK_CAPACITY {
                self.merge_with_next(j);
            }
        }
        Ok(())
    }

    /// Merges block `j` and the block after it into one.
    fn merge_with_next(&mut self, j: usize)
        requires
            old(self).wf(),
            j + 1 < old(self).blocks@.len(),
            old(self).blocks@[j as int]@.len() + old(self).blocks@[j + 1]@.len() <= BLOCK_CAPACITY,
        ensures
            final(self).wf(),
            final(self).bit_seq() == old(self).bit_seq(),
    {
        let ghost vs = self.views();
        let ghost a = vs[j as int];
        let ghost c = vs[j + 1];
        let nb = self.blocks.len();
        proof {
            assert(a == self.blocks@[j as int]@);
            assert(c == self.blocks@[j + 1]@);
            lemma_rank_add(a, c, true, c.len());
            lemma_rank_le(a + c, true, 0, (a + c).len());
        }
        let mut next = self.blocks.remove(j + 1);
        let c_ones = self.ones.remove(j + 1);
        self.blocks[j].append(&mut next);
        let merged = self.ones[j] + c_ones;
        self.ones.set(j, merged);
        proof {
            let nv = self.views();
            let pre = vs.subrange(0, j as int);
            let post = vs.subrange(j + 2, nb as int);
            assert(self.blocks@[j as int]@ =~= a + c);
            assert(nv =~= pre + seq![a + c] + post);
            assert(vs =~= pre + seq![a, c] + post);
            lemma_flat_add(pre + seq![a + c], post);
            lemma_flat_add(pre, seq![a + c]);
            lemma_flat_add(pre + seq![a, c], post);
            lemma_flat_add(pre, seq![a, c]);
            lemma_flat_single(a + c);
            assert(seq![a, c].drop_last() =~= seq![a]);
            lemma_flat_single(a);
            assert(flat(seq![a, c]) =~= a + c);
            assert(flat(nv) =~= flat(vs));
            assert forall|k: int| 0 <= k < self.blocks@.len() && k < j implies (#[trigger] self.blocks@[k]) == old(self).blocks@[k] by {}
            assert forall|k: int| 0 <= k < self.blocks@.len() && k > j implies (#[trigger] self.blocks@[k]) == old(self).blocks@[k + 1] by {}
        }
    }

    /// Removes the bit at position `i`; answers the index of the block it
    /// was taken from, unless that block became empty and was dropped.
    #[verifier::rlimit(80)]
    fn remove_at(&mut self, i: usize) -> (r: Option<usize>)
        requires
            old(self).wf(),
            i < old(self).bit_seq().len(),
        ensures
            final(self).wf(),
            final(self).bit_seq() == old(self).bit_seq().remove(i as int),
            r matches Some(j) ==> j < final(self).blocks@.len(),
    {
        let ghost vs = self.views();
        let ghost before = self.bit_seq();
        let nb = self.blocks.len();
        let (j, acc) = self.locate(i);
        let o = i - acc;
        proof {
            assert(vs[j as int] == self.blocks@[j as int]@);
            lemma_flat_at(vs, j as int);
        }
        let ghost blk = vs[j as int];
        let ghost nblk = blk.remove(o as int);
        let b = self.blocks[j].remove(o);
        proof {
            assert(nblk.insert(o as int, b) =~= blk);
            lemma_ones_insert(nblk, o as int, b);
        }
        if b {
            let c = self.ones[j] - 1;
            self.ones.set(j, c);
        }
        self.total = self.total - 1;
        proof {
            let nv = self.views();
            assert(nv =~= vs.subrange(0, j as int) + seq![nblk] + vs.subrange(j + 1, nb as int));
            lemma_flat_replace(vs, j as int, seq![nblk]);
            lemma_flat_single(nblk);
            assert(flat(nv) =~= before.remove(i as int));
            assert(self.blocks@[j as int]@ == nblk);
        }
        if self.blocks[j].len() == 0 {
            self.blocks.remove(j);
            self.ones.remove(j);
            proof {
                let nv = self.views();
                assert(nv =~= vs.subrange(0, j as int) + Seq::<Seq<bool>>::empty() + vs.subrange(j + 1, nb as int));
                lemma_flat_replace(vs, j as int, Seq::<Seq<bool>>::empty());
                assert(nblk =~= Seq::<bool>::empty());
                assert(flat(nv) =~= before.remove(i as int));
                assert forall|k: int| 0 <= k < self.blocks@.len() && k < j implies (#[trigger] self.blocks@[k]) == old(self).blocks@[k] by {}
                assert forall|k: int| 0 <= k < self.blocks@.len() && k >= j implies (#[trigger] self.blocks@[k]) == old(self).blocks@[k + 1] by {}
            }
            None
        } else {
            proof {
                assert forall|k: int| 0 <= k < self.blocks@.len() && k != j implies (#[trigger] self.blocks@[k]) == old(self).blocks@[k] by {}
            }
            Some(j)
        }
    }
}

impl BitSequence for DynamicBitSequence {
    closed spec fn bit_seq(&self) -> Seq<bool> {
        flat(self.views())
    }

    closed spec fn wf(&self) -> bool {
        &&& self.ones@.len() == self.blocks@.len()
        &&& forall|j: int|
            0 <= j < self.blocks@.len() ==> 0 < (#[trigger] self.blocks@[j])@.len() <= BLOCK_CAPACITY
                && self.ones@[j] == rank_of(self.blocks@[j]@, true, self.blocks@[j]@.len())
        &&& self.total == flat(self.views()).len()
    }

    fn len(&self) -> (r: usize) {
        self.total
    }

    fn get(&self, i: usize) -> (r: bool) {
        let (j, acc) = self.locate(i);
        proof {
            lemma_in_block(self.views(), j as int, true, (i - acc) as nat);
            assert(self.views()[j as int] == self.blocks@[j as int]@);
        }
        self.blocks[j][i - acc]
    }

    fn rank(&self, b: bool, i: usize) -> (r: usize) {
        let ghost vs = self.views();
        let nb = self.blocks.len();
        let mut j: usize = 0;
        let mut acc: usize = 0;
        let mut r: usize = 0;
        proof {
            assert(vs.subrange(0, 0) =~= Seq::<Seq<bool>>::empty());
        }
        while j < nb && self.blocks[j].len() <= i - acc
            invariant
                self.wf(),
                vs == self.views(),
                nb == vs.len(),
                i <= flat(vs).len(),
                j <= nb,
                acc <= i,
                acc == flat(vs.subrange(0, j as int)).len(),
                r == rank_of(flat(vs.subrange(0, j as int)), b, acc as nat),
                r <= acc,
            decreases nb - j,
        {
            let c = self.block_count(j, b);
            proof {
                assert(vs[j as int] == self.blocks@[j as int]@);
                lemma_flat_at(vs, j as int);
                lemma_rank_add(flat(vs.subrange(0, j as int)), vs[j as int], b, vs[j as int].len());
                lemma_rank_le(vs[j as int], b, 0, vs[j as int].len());
            }
            r = r + c;
            acc = acc + self.blocks[j].len();
            j = j + 1;
        }
        if j < nb {
            let o_end = i - acc;
            let mut o: usize = 0;
            while o < o_end
                invariant
                    self.wf(),
                    vs == self.views(),
                    j < nb == vs.len(),
                    o <= o_end < vs[j as int].len(),
                    o_end + acc == i,
                    acc == flat(vs.subrange(0, j as int)).len(),
                    r == rank_of(flat(vs.subrange(0, j as int)), b, acc as nat) + rank_of(vs[j as int], b, o as nat),
                    r <= acc + o,
                decreases o_end - o,
            {
                proof {
                    assert(vs[j as int] == self.blocks@[j as int]@);
                    lemma_rank_le(vs[j as int], b, o as nat, (o + 1) as nat);
                }
                if self.blocks[j][o] == b {
                    r = r + 1;
                }
                o = o + 1;
            }
            proof {
                lemma_in_block(vs, j as int, b, o as nat);
            }
        } else {
            proof {
                lemma_flat_all(vs);
            }
        }
        r
    }

    fn select(&self, b: bool, k: usize) -> (r: usize) {
        let ghost vs = self.views();
        let nb = self.blocks.len();
        let mut j: usize = 0;
        let mut acc: usize = 0;
        let mut seen: usize = 0;
        proof {
            assert(vs.subrange(0, 0) =~= Seq::<Seq<bool>>::empty());
        }
        while j < nb && self.block_count(j, b) <= k - seen
            invariant
                self.wf(),
                vs == self.views(),
                nb == vs.len(),
                j <= nb,
                seen <= k,
                k < rank_of(flat(vs), b, flat(vs).len()),
                acc == flat(vs.subrange(0, j as int)).len(),
                seen == rank_of(flat(vs.subrange(0, j as int)), b, acc as nat),
            decreases nb - j,
        {
            let c = self.block_count(j, b);
            proof {
                assert(vs[j as int] == self.blocks@[j as int]@);
                lemma_flat_at(vs, j as int);
                lemma_in_block(vs, j as int, b, vs[j as int].len());
                lemma_rank_add(flat(vs.subrange(0, j as int)), vs[j as int], b, vs[j as int].len());
            }
            seen = seen + c;
            acc = acc + self.blocks[j].len();
            j = j + 1;
        }
        proof {
            if j == nb {
                lemma_flat_all(vs);
            }
        }
        let want = k - seen;
        let n = self.blocks[j].len();
        let ghost blk = vs[j as int];
        proof {
            assert(blk == self.blocks@[j as int]@);
            lemma_in_block(vs, j as int, b, 0);
        }
        let mut o: usize = 0;
        let mut c: usize = 0;
        while o < n
            invariant
                self.wf(),
                vs == self.views(),
                j < nb == vs.len(),
                blk == vs[j as int],
                blk == self.blocks@[j as int]@,
                n == blk.len(),
                o <= n,
                c == rank_of(blk, b, o as nat),
                c <= want,
                want < rank_of(blk, b, n as nat),
                want == k - seen,
                acc == flat(vs.subrange(0, j as int)).len(),
                seen == rank_of(flat(vs.subrange(0, j as int)), b, acc as nat),
            decreases n - o,
        {
            if self.blocks[j][o] == b {
                if c == want {
                    proof {
                        lemma_in_block(vs, j as int, b, o as nat);
                    }
                    return acc + o;
                }
                c = c + 1;
            }
            o = o + 1;
        }
        0
    }
}

} // verus!
