//! The level-descent queries, written once for any bit-sequence backend.
use vstd::prelude::*;
use vstd::arithmetic::power2::pow2;
use vstd::arithmetic::power2::{lemma_pow2_unfold, lemma_pow2_strictly_increases, lemma2_to64_rest};
use crate::model::{
    less_than, at_most, prefix_below, stretch_of, lemma_stretch_top,
    lemma_stretch_step, lemma_stretch_len, lemma_below_step, lemma_prefix_full_preds,
    lemma_rank_sum, lemma_rank_le,
    agrees, agrees_with, is_sym, bit, bits, count, descend, fits, occurrences, order, partition, prefix, zeros_of,
    lemma_agrees_full, lemma_agrees_step, lemma_agrees_top, lemma_bit_exec,
    lemma_count_all, lemma_count_congruent, lemma_count_le, lemma_count_none, lemma_count_full,
    lemma_count_split, lemma_fits_exec, lemma_order_len, lemma_prefix_ends, lemma_prefix_le,
    lemma_prefix_step, lemma_step_access, lemma_step_count, lemma_step_range, lemma_step_select,
};
use crate::bit_sequence::BitSequence;

verus! {

/// `levels` and `zeros` lay out the sequence `s` of `w`-bit symbols: level
/// `l` holds the level-`l` bits of the working order at `l`, and `zeros[l]`
/// the number of zero bits among them.
pub open spec fn levels_ok<L: BitSequence>(
    s: Seq<u64>,
    w: nat,
    levels: Seq<L>,
    zeros: Seq<usize>,
) -> bool {
    &&& 1 <= w <= 64
    &&& levels.len() == w
    &&& zeros.len() == w
    &&& s.len() < usize::MAX
    &&& fits(s, w)
    &&& forall|l: int|
        0 <= l < w ==> (#[trigger] levels[l]).wf() && levels[l].bit_seq() == bits(
            order(s, w, l as nat),
            w,
            l as nat,
        )
    &&& forall|l: int| 0 <= l < w ==> #[trigger] zeros[l] == zeros_of(order(s, w, l as nat), w, l as nat)
}

/// The level-`l` bit of `c`.
pub fn bit_at(c: u64, w: usize, l: usize) -> (r: bool)
    requires
        l < w <= 64,
    ensures
        r == bit(c, w as nat, l as nat),
{
    proof { lemma_bit_exec(c, w as nat, l as nat); }
    (c >> ((w - 1 - l) as u64)) & 1u64 == 1u64
}

/// Whether `c` fits in `w` bits.
pub fn fits_width(c: u64, w: usize) -> (r: bool)
    requires
        1 <= w <= 64,
    ensures
        r == ((c as nat) < pow2(w as nat)),
{
    proof { lemma_fits_exec(c, w as nat); }
    w == 64 || (c >> (w as u64)) == 0u64
}

/// One level down from position `p`, following bit `b`.
pub fn step<L: BitSequence>(level: &L, zero_count: usize, b: bool, p: usize, Ghost(t): Ghost<Seq<u64>>, Ghost(w): Ghost<nat>, Ghost(l): Ghost<nat>) -> (r: usize)
    requires
        level.wf(),
        level.bit_seq() == bits(t, w, l),
        zero_count == zeros_of(t, w, l),
        p <= t.len(),
        t.len() < usize::MAX,
    ensures
        r == descend(t, w, l, b, p as nat),
        r <= t.len(),
{
    proof { lemma_step_count(t, w, l, p as nat, b, |v: u64| false); }
    let r = level.rank(b, p);
    if b {
        zero_count + r
    } else {
        r
    }
}

/// The symbol at position `i`.
pub fn access<L: BitSequence>(
    levels: &Vec<L>,
    zeros: &Vec<usize>,
    w: usize,
    i: usize,
    Ghost(s): Ghost<Seq<u64>>,
) -> (r: u64)
    requires
        levels_ok(s, w as nat, levels@, zeros@),
        i < s.len(),
    ensures
        r == s[i as int],
{
    let ghost v = s[i as int];
    proof {
        lemma_prefix_ends(v, w as nat);
    }
    let mut acc: u64 = 0;
    let mut p: usize = i;
    let mut l: usize = 0;
    while l < w
        invariant
            levels_ok(s, w as nat, levels@, zeros@),
            v == s[i as int],
            l <= w,
            p < s.len(),
            order(s, w as nat, l as nat)[p as int] == v,
            acc == prefix(v, w as nat, l as nat),
        decreases w - l,
    {
        let ghost t = order(s, w as nat, l as nat);
        proof {
            lemma_order_len(s, w as nat, l as nat);
            lemma_step_access(t, w as nat, l as nat, p as nat);
            lemma_prefix_step(v, w as nat, l as nat);
            lemma_prefix_le(v, w as nat, (l + 1) as nat);
            assert(order(s, w as nat, (l + 1) as nat) == partition(t, w as nat, l as nat));
        }
        let b = levels[l].get(p);
        p = step(&levels[l], zeros[l], b, p, Ghost(t), Ghost(w as nat), Ghost(l as nat));
        acc = if b { acc * 2 + 1 } else { acc * 2 };
        l = l + 1;
    }
    acc
}

/// Narrows, level by level, the positions of `c` that come from positions
/// before `i`: at the last level they are `[st, e)`, preceded by no `c`.
fn narrow<L: BitSequence>(
    levels: &Vec<L>,
    zeros: &Vec<usize>,
    w: usize,
    c: u64,
    i: usize,
    Ghost(s): Ghost<Seq<u64>>,
) -> (r: (usize, usize))
    requires
        levels_ok(s, w as nat, levels@, zeros@),
        i <= s.len(),
        (c as nat) < pow2(w as nat),
    ensures
        r.0 <= r.1 <= s.len(),
        r.1 - r.0 == occurrences(s.subrange(0, i as int), c),
        occurrences(order(s, w as nat, w as nat).subrange(0, r.0 as int), c) == 0,
        count(order(s, w as nat, w as nat).subrange(r.0 as int, r.1 as int), is_sym(c))
            == r.1 - r.0,
{
    let mut st: usize = 0;
    let mut e: usize = i;
    proof {
        assert(s.subrange(0, 0) =~= Seq::<u64>::empty());
        assert(s.subrange(0, i as int) =~= order(s, w as nat, 0).subrange(0, i as int));
        assert forall|k: int| 0 <= k < i implies #[trigger] agrees(
            s.subrange(0, i as int)[k],
            c,
            w as nat,
            0,
        ) by {
            assert((s[k] as nat) < pow2(w as nat));
            lemma_agrees_top(s[k], c, w as nat);
        }
        lemma_count_all(s.subrange(0, i as int), agrees_with(c, w as nat, 0));
    }
    let mut l: usize = 0;
    while l < w
        invariant
            levels_ok(s, w as nat, levels@, zeros@),
            (c as nat) < pow2(w as nat),
            i <= s.len(),
            l <= w,
            st <= e <= s.len(),
            count(order(s, w as nat, l as nat).subrange(0, st as int), is_sym(c)) == 0,
            count(order(s, w as nat, l as nat).subrange(0, e as int), is_sym(c)) == count(
                s.subrange(0, i as int),
                is_sym(c),
            ),
            count(
                order(s, w as nat, l as nat).subrange(st as int, e as int),
                agrees_with(c, w as nat, l as nat),
            ) == e - st,
        decreases w - l,
    {
        let ghost t = order(s, w as nat, l as nat);
        let b = bit_at(c, w, l);
        proof {
            lemma_order_len(s, w as nat, l as nat);
            assert(order(s, w as nat, (l + 1) as nat) == partition(t, w as nat, l as nat));
            lemma_step_count(t, w as nat, l as nat, st as nat, b, is_sym(c));
            lemma_step_count(t, w as nat, l as nat, e as nat, b, is_sym(c));
            let q = agrees_with(c, w as nat, l as nat);
            let q2 = agrees_with(c, w as nat, (l + 1) as nat);
            assert forall|v: u64| #[trigger] q2(v) == (q(v) && bit(v, w as nat, l as nat) == b) by {
                lemma_agrees_step(v, c, w as nat, l as nat);
            }
            lemma_step_range(t, w as nat, l as nat, st as nat, e as nat, b, q, q2);
        }
        st = step(&levels[l], zeros[l], b, st, Ghost(t), Ghost(w as nat), Ghost(l as nat));
        e = step(&levels[l], zeros[l], b, e, Ghost(t), Ghost(w as nat), Ghost(l as nat));
        l = l + 1;
    }
    proof {
        let t = order(s, w as nat, w as nat);
        lemma_order_len(s, w as nat, w as nat);
        assert forall|v: u64| #[trigger] is_sym(c)(v) == agrees(v, c, w as nat, w as nat) by {
            lemma_agrees_full(v, c, w as nat);
        }
        lemma_count_split(t, st as int, e as int, is_sym(c));
        lemma_count_congruent(
            t.subrange(st as int, e as int),
            is_sym(c),
            agrees_with(c, w as nat, w as nat),
        );
    }
    (st, e)
}

/// Number of occurrences of `c` in positions `[0, i)`.
pub fn rank<L: BitSequence>(
    levels: &Vec<L>,
    zeros: &Vec<usize>,
    w: usize,
    c: u64,
    i: usize,
    Ghost(s): Ghost<Seq<u64>>,
) -> (r: usize)
    requires
        levels_ok(s, w as nat, levels@, zeros@),
        i <= s.len(),
    ensures
        r == occurrences(s.subrange(0, i as int), c),
{
    if !fits_width(c, w) {
        proof {
            let x = s.subrange(0, i as int);
            assert forall|k: int| 0 <= k < x.len() implies !#[trigger] is_sym(c)(x[k]) by {
                assert((s[k] as nat) < pow2(w as nat));
            }
            lemma_count_none(x, is_sym(c));
        }
        return 0;
    }
    let (st, e) = narrow(levels, zeros, w, c, i, Ghost(s));
    e - st
}

/// The position of the occurrence of `c` that has `k` occurrences of `c`
/// before it, or `None` where `c` occurs at most `k` times.
pub fn select<L: BitSequence>(
    levels: &Vec<L>,
    zeros: &Vec<usize>,
    w: usize,
    c: u64,
    k: usize,
    Ghost(s): Ghost<Seq<u64>>,
) -> (r: Option<usize>)
    requires
        levels_ok(s, w as nat, levels@, zeros@),
    ensures
        r is Some <==> k < occurrences(s, c),
        r matches Some(p) ==> p < s.len() && s[p as int] == c && occurrences(
            s.subrange(0, p as int),
            c,
        ) == k,
{
    let n = levels[0].len();
    proof {
        lemma_order_len(s, w as nat, 0);
        assert(s.subrange(0, n as int) =~= s);
    }
    let total = rank(levels, zeros, w, c, n, Ghost(s));
    if k >= total || !fits_width(c, w) {
        proof {
            if !((c as nat) < pow2(w as nat)) {
                assert forall|k: int| 0 <= k < s.len() implies !#[trigger] is_sym(c)(s[k]) by {
                    assert((s[k] as nat) < pow2(w as nat));
                }
                lemma_count_none(s, is_sym(c));
            }
        }
        return None;
    }
    let (st, e) = narrow(levels, zeros, w, c, n, Ghost(s));
    let mut p: usize = st + k;
    proof {
        let t = order(s, w as nat, w as nat);
        lemma_order_len(s, w as nat, w as nat);
        let y = t.subrange(st as int, e as int);
        lemma_count_full(y, is_sym(c));
        assert(t[p as int] == y[p - st]);
        assert(is_sym(c)(y[p - st]));
        assert forall|j: int| 0 <= j < p - st implies #[trigger] is_sym(c)(t.subrange(st as int, p as int)[j]) by {
            assert(t.subrange(st as int, p as int)[j] == y[j]);
        }
        lemma_count_all(t.subrange(st as int, p as int), is_sym(c));
        lemma_count_split(t, st as int, p as int, is_sym(c));
    }
    let mut l: usize = w;
    while l > 0
        invariant
            levels_ok(s, w as nat, levels@, zeros@),
            l <= w,
            p < s.len(),
            order(s, w as nat, l as nat)[p as int] == c,
            count(order(s, w as nat, l as nat).subrange(0, p as int), is_sym(c)) == k,
        decreases l,
    {
        l = l - 1;
        let ghost t = order(s, w as nat, l as nat);
        let b = bit_at(c, w, l);
        proof {
            lemma_order_len(s, w as nat, l as nat);
            assert(order(s, w as nat, (l + 1) as nat) == partition(t, w as nat, l as nat));
            lemma_step_select(t, w as nat, l as nat, p as nat);
        }
        let j = if b { p - zeros[l] } else { p };
        let q = levels[l].select(b, j);
        proof {
            lemma_step_access(t, w as nat, l as nat, q as nat);
            lemma_step_count(t, w as nat, l as nat, q as nat, b, is_sym(c));
        }
        p = q;
    }
    Some(p)
}

/// The symbol with exactly `k` smaller-or-equal predecessors in sorted
/// order among positions `[lo, hi)`: the `k`-th smallest, from zero.
pub fn range_quantile<L: BitSequence>(
    levels: &Vec<L>,
    zeros: &Vec<usize>,
    w: usize,
    lo: usize,
    hi: usize,
    k: usize,
    Ghost(s): Ghost<Seq<u64>>,
) -> (r: u64)
    requires
        levels_ok(s, w as nat, levels@, zeros@),
        lo <= hi <= s.len(),
        k < hi - lo,
    ensures
        count(s.subrange(lo as int, hi as int), less_than(r)) <= k,
        k < count(s.subrange(lo as int, hi as int), at_most(r)),
{
    let ghost x = s.subrange(lo as int, hi as int);
    proof {
        assert(fits(x, w as nat)) by {
            assert forall|j: int| 0 <= j < x.len() implies (#[trigger] x[j] as nat) < pow2(w as nat) by {
                assert(x[j] == s[lo + j]);
            }
        }
        lemma_stretch_top(x, w as nat);
        assert(order(s, w as nat, 0).subrange(lo as int, hi as int) == x);
        vstd::arithmetic::power2::lemma2_to64();
    }
    let mut a: usize = lo;
    let mut e: usize = hi;
    let mut kk: usize = k;
    let mut acc: u64 = 0;
    let mut l: usize = 0;
    while l < w
        invariant
            levels_ok(s, w as nat, levels@, zeros@),
            x == s.subrange(lo as int, hi as int),
            lo <= hi <= s.len(),
            l <= w,
            a <= e <= s.len(),
            stretch_of(order(s, w as nat, l as nat).subrange(a as int, e as int), x, w as nat, l as nat, acc as nat),
            kk < e - a,
            kk <= k,
            k - kk == count(x, prefix_below(w as nat, l as nat, acc as nat)),
            (acc as nat) < pow2(l as nat),
        decreases w - l,
    {
        let ghost t = order(s, w as nat, l as nat);
        proof {
            lemma_order_len(s, w as nat, l as nat);
            assert(order(s, w as nat, (l + 1) as nat) == partition(t, w as nat, l as nat));
            lemma_stretch_step(t, x, w as nat, l as nat, acc as nat, a as nat, e as nat, false);
            lemma_stretch_step(t, x, w as nat, l as nat, acc as nat, a as nat, e as nat, true);
            lemma_below_step(x, w as nat, l as nat, acc as nat, false);
            lemma_below_step(x, w as nat, l as nat, acc as nat, true);
            lemma_rank_le(bits(t, w as nat, l as nat), false, a as nat, e as nat);
            lemma_rank_le(bits(t, w as nat, l as nat), true, a as nat, e as nat);
            lemma_rank_sum(bits(t, w as nat, l as nat), a as nat);
            lemma_rank_sum(bits(t, w as nat, l as nat), e as nat);
            lemma_pow2_unfold((l + 1) as nat);
            if l + 1 < 64 {
                lemma_pow2_strictly_increases((l + 1) as nat, 64);
            }
            lemma2_to64_rest();
        }
        let c0 = levels[l].rank(false, e) - levels[l].rank(false, a);
        let b = kk >= c0;
        if b {
            kk = kk - c0;
        }
        a = step(&levels[l], zeros[l], b, a, Ghost(t), Ghost(w as nat), Ghost(l as nat));
        e = step(&levels[l], zeros[l], b, e, Ghost(t), Ghost(w as nat), Ghost(l as nat));
        acc = if b { acc * 2 + 1 } else { acc * 2 };
        l = l + 1;
    }
    proof {
        lemma_order_len(s, w as nat, w as nat);
        lemma_stretch_len(order(s, w as nat, w as nat).subrange(a as int, e as int), x, w as nat, w as nat, acc as nat);
        lemma_prefix_full_preds(x, w as nat, acc);
    }
    acc
}

/// Number of symbols below `bound` among positions `[lo, hi)`.
pub fn range_count_less_than<L: BitSequence>(
    levels: &Vec<L>,
    zeros: &Vec<usize>,
    w: usize,
    lo: usize,
    hi: usize,
    bound: u64,
    Ghost(s): Ghost<Seq<u64>>,
) -> (r: usize)
    requires
        levels_ok(s, w as nat, levels@, zeros@),
        lo <= hi <= s.len(),
    ensures
        r == count(s.subrange(lo as int, hi as int), less_than(bound)),
{
    let ghost x = s.subrange(lo as int, hi as int);
    proof {
        assert(fits(x, w as nat)) by {
            assert forall|j: int| 0 <= j < x.len() implies (#[trigger] x[j] as nat) < pow2(w as nat) by {
                assert(x[j] == s[lo + j]);
            }
        }
    }
    if !fits_width(bound, w) {
        proof {
            assert forall|j: int| 0 <= j < x.len() implies #[trigger] less_than(bound)(x[j]) by {
                assert((x[j] as nat) < pow2(w as nat));
            }
            lemma_count_all(x, less_than(bound));
        }
        return hi - lo;
    }
    proof {
        lemma_stretch_top(x, w as nat);
        assert(order(s, w as nat, 0).subrange(lo as int, hi as int) == x);
        lemma_prefix_ends(bound, w as nat);
    }
    let mut a: usize = lo;
    let mut e: usize = hi;
    let mut res: usize = 0;
    let mut l: usize = 0;
    while l < w
        invariant
            levels_ok(s, w as nat, levels@, zeros@),
            x == s.subrange(lo as int, hi as int),
            lo <= hi <= s.len(),
            l <= w,
            a <= e <= s.len(),
            stretch_of(
                order(s, w as nat, l as nat).subrange(a as int, e as int),
                x,
                w as nat,
                l as nat,
                prefix(bound, w as nat, l as nat),
            ),
            res == count(x, prefix_below(w as nat, l as nat, prefix(bound, w as nat, l as nat))),
        decreases w - l,
    {
        let ghost t = order(s, w as nat, l as nat);
        let ghost pb = prefix(bound, w as nat, l as nat);
        let b = bit_at(bound, w, l);
        proof {
            lemma_order_len(s, w as nat, l as nat);
            assert(order(s, w as nat, (l + 1) as nat) == partition(t, w as nat, l as nat));
            lemma_prefix_step(bound, w as nat, l as nat);
            lemma_stretch_step(t, x, w as nat, l as nat, pb, a as nat, e as nat, b);
            lemma_below_step(x, w as nat, l as nat, pb, b);
            lemma_rank_le(bits(t, w as nat, l as nat), false, a as nat, e as nat);
            lemma_count_le(x, prefix_below(w as nat, (l + 1) as nat, prefix(bound, w as nat, (l + 1) as nat)));
        }
        if b {
            let c0 = levels[l].rank(false, e) - levels[l].rank(false, a);
            res = res + c0;
        }
        a = step(&levels[l], zeros[l], b, a, Ghost(t), Ghost(w as nat), Ghost(l as nat));
        e = step(&levels[l], zeros[l], b, e, Ghost(t), Ghost(w as nat), Ghost(l as nat));
        l = l + 1;
    }
    proof {
        lemma_prefix_full_preds(x, w as nat, bound);
    }
    res
}

} // verus!
