//! Mathematical model of the level layout shared by both matrices.
//!
//! A symbol of width `w` is read from its most significant bit (level 0) to
//! its least significant bit (level `w - 1`). The working order at level
//! `l + 1` is the stable partition of the order at level `l` by the level-`l`
//! bit: zeros first, then ones, each group in its previous relative order.
use vstd::prelude::*;
use vstd::arithmetic::power2::{pow2, lemma_pow2_unfold, lemma_pow2_pos, lemma2_to64, lemma2_to64_rest};
use vstd::arithmetic::div_mod::{
    lemma_div_denominator,
    lemma_fundamental_div_mod,
    lemma_basic_div,
    lemma_div_is_ordered_by_denominator,
};
use vstd::bits::lemma_u64_shr_is_div;

verus! {

/// The `l` most significant bits of the `w`-bit symbol `v`.
pub open spec fn prefix(v: u64, w: nat, l: nat) -> nat {
    (v as nat) / pow2((w - l) as nat)
}

/// The bit of `v` stored at level `l` (counted from the most significant bit).
pub open spec fn bit(v: u64, w: nat, l: nat) -> bool {
    prefix(v, w, l + 1) % 2 == 1
}

/// `v` and `c` share their `l` most significant bits.
pub open spec fn agrees(v: u64, c: u64, w: nat, l: nat) -> bool {
    prefix(v, w, l) == prefix(c, w, l)
}

/// Every symbol of `s` fits in `w` bits.
pub open spec fn fits(s: Seq<u64>, w: nat) -> bool {
    forall|i: int| 0 <= i < s.len() ==> (#[trigger] s[i] as nat) < pow2(w)
}

/// Number of elements of `t` that satisfy `q`.
pub open spec fn count(t: Seq<u64>, q: spec_fn(u64) -> bool) -> nat
    decreases t.len(),
{
    if t.len() == 0 {
        0
    } else {
        count(t.drop_last(), q) + if q(t.last()) { 1nat } else { 0nat }
    }
}

/// The predicate "equals `c`".
pub open spec fn is_sym(c: u64) -> spec_fn(u64) -> bool {
    |v: u64| v == c
}

/// The predicate "shares its `l` most significant bits with `c`".
pub open spec fn agrees_with(c: u64, w: nat, l: nat) -> spec_fn(u64) -> bool {
    |v: u64| agrees(v, c, w, l)
}

/// Number of occurrences of `c` in `t`.
pub open spec fn occurrences(t: Seq<u64>, c: u64) -> nat {
    count(t, is_sym(c))
}

/// Number of occurrences of bit `b` among the first `i` bits of `bs`.
pub open spec fn rank_of(bs: Seq<bool>, b: bool, i: nat) -> nat
    decreases i,
{
    if i == 0 {
        0
    } else {
        rank_of(bs, b, (i - 1) as nat) + if bs[i - 1] == b { 1nat } else { 0nat }
    }
}

/// The elements of `t` whose level-`l` bit is `b`, in their order in `t`.
pub open spec fn keep(t: Seq<u64>, w: nat, l: nat, b: bool) -> Seq<u64>
    decreases t.len(),
{
    if t.len() == 0 {
        Seq::<u64>::empty()
    } else {
        let r = keep(t.drop_last(), w, l, b);
        if bit(t.last(), w, l) == b {
            r.push(t.last())
        } else {
            r
        }
    }
}

/// The stable partition of `t` by the level-`l` bit.
pub open spec fn partition(t: Seq<u64>, w: nat, l: nat) -> Seq<u64> {
    keep(t, w, l, false) + keep(t, w, l, true)
}

/// The level-`l` bits of the elements of `t`.
pub open spec fn bits(t: Seq<u64>, w: nat, l: nat) -> Seq<bool> {
    Seq::new(t.len(), |i: int| bit(t[i], w, l))
}

/// The working order of `s` at level `l`.
pub open spec fn order(s: Seq<u64>, w: nat, l: nat) -> Seq<u64>
    decreases l,
{
    if l == 0 {
        s
    } else {
        partition(order(s, w, (l - 1) as nat), w, (l - 1) as nat)
    }
}

/// Number of level-`l` zero bits in `t`.
pub open spec fn zeros_of(t: Seq<u64>, w: nat, l: nat) -> nat {
    keep(t, w, l, false).len()
}

/// Where a position of level `l` goes at level `l + 1` when its bit is `b`,
/// given the bits of the level.
pub open spec fn descend(t: Seq<u64>, w: nat, l: nat, b: bool, p: nat) -> nat {
    rank_of(bits(t, w, l), b, p) + if b { zeros_of(t, w, l) } else { 0nat }
}

// ---------------------------------------------------------------------------
// Arithmetic on prefixes and bits.

pub proof fn lemma_prefix_step(v: u64, w: nat, l: nat)
    requires
        l < w,
    ensures
        prefix(v, w, l + 1) == 2 * prefix(v, w, l) + if bit(v, w, l) { 1nat } else { 0nat },
{
    let k = (w - l - 1) as nat;
    assert((w - (l + 1)) as nat == k);
    assert((w - l) as nat == k + 1);
    lemma_pow2_unfold(k + 1);
    lemma_pow2_pos(k);
    assert((k + 1 - 1) as nat == k);
    let x = (v as nat) / pow2(k);
    lemma_div_denominator(v as int, pow2(k) as int, 2);
    assert(pow2(k) * 2 == pow2(k + 1)) by (nonlinear_arith)
        requires pow2(k + 1) == 2 * pow2(k);
    lemma_fundamental_div_mod(x as int, 2);
}

pub proof fn lemma_agrees_step(v: u64, c: u64, w: nat, l: nat)
    requires
        l < w,
    ensures
        agrees(v, c, w, l + 1) == (agrees(v, c, w, l) && bit(v, w, l) == bit(c, w, l)),
{
    lemma_prefix_step(v, w, l);
    lemma_prefix_step(c, w, l);
}

pub proof fn lemma_agrees_full(v: u64, c: u64, w: nat)
    ensures
        agrees(v, c, w, w) == (v == c),
{
    assert((w - w) as nat == 0);
    lemma2_to64();
}

pub proof fn lemma_agrees_top(v: u64, c: u64, w: nat)
    requires
        (v as nat) < pow2(w),
        (c as nat) < pow2(w),
    ensures
        agrees(v, c, w, 0),
{
    assert((w - 0) as nat == w);
    lemma_basic_div(v as int, pow2(w) as int);
    lemma_basic_div(c as int, pow2(w) as int);
}

pub proof fn lemma_prefix_le(v: u64, w: nat, l: nat)
    ensures
        prefix(v, w, l) <= v,
{
    lemma_pow2_pos((w - l) as nat);
    lemma_div_is_ordered_by_denominator(v as int, 1, pow2((w - l) as nat) as int);
}

/// Reading level `l` of a symbol with a shift and a mask.
pub proof fn lemma_bit_exec(v: u64, w: nat, l: nat)
    requires
        l < w <= 64,
    ensures
        (((v >> ((w - 1 - l) as u64)) & 1u64) == 1u64) == bit(v, w, l),
{
    let k: u64 = (w - 1 - l) as u64;
    lemma_u64_shr_is_div(v, k);
    assert((w - (l + 1)) as nat == k as nat);
    let x: u64 = v >> k;
    assert((x & 1u64 == 1u64) == (x % 2 == 1)) by (bit_vector);
}

pub proof fn lemma_prefix_ends(v: u64, w: nat)
    ensures
        prefix(v, w, w) == v,
        (v as nat) < pow2(w) ==> prefix(v, w, 0) == 0,
{
    assert((w - w) as nat == 0);
    assert((w - 0) as nat == w);
    lemma2_to64();
    lemma_pow2_pos(w);
    if (v as nat) < pow2(w) {
        lemma_basic_div(v as int, pow2(w) as int);
    }
}

/// Testing whether a symbol fits in `w` bits with a shift.
pub proof fn lemma_fits_exec(c: u64, w: nat)
    requires
        1 <= w <= 64,
    ensures
        w < 64 ==> (((c >> (w as u64)) == 0u64) == ((c as nat) < pow2(w))),
        w == 64 ==> (c as nat) < pow2(w),
{
    lemma_pow2_pos(w);
    if w < 64 {
        lemma_u64_shr_is_div(c, w as u64);
        let d = pow2(w) as int;
        if (c as nat) < pow2(w) {
            lemma_basic_div(c as int, d);
        } else {
            assert((c as int) / d >= 1) by (nonlinear_arith)
                requires c as int >= d, d > 0;
        }
    } else {
        lemma2_to64_rest();
        assert(w == 64);
    }
}

// ---------------------------------------------------------------------------
// Counting and keeping.

pub proof fn lemma_count_add(a: Seq<u64>, b: Seq<u64>, q: spec_fn(u64) -> bool)
    ensures
        count(a + b, q) == count(a, q) + count(b, q),
    decreases b.len(),
{
    if b.len() == 0 {
        assert(a + b =~= a);
    } else {
        assert((a + b).drop_last() =~= a + b.drop_last());
        lemma_count_add(a, b.drop_last(), q);
    }
}

pub proof fn lemma_count_split(t: Seq<u64>, i: int, j: int, q: spec_fn(u64) -> bool)
    requires
        0 <= i <= j <= t.len(),
    ensures
        count(t.subrange(0, j), q) == count(t.subrange(0, i), q) + count(t.subrange(i, j), q),
{
    assert(t.subrange(0, j) =~= t.subrange(0, i) + t.subrange(i, j));
    lemma_count_add(t.subrange(0, i), t.subrange(i, j), q);
}

pub proof fn lemma_count_all(t: Seq<u64>, q: spec_fn(u64) -> bool)
    requires
        forall|k: int| 0 <= k < t.len() ==> #[trigger] q(t[k]),
    ensures
        count(t, q) == t.len(),
    decreases t.len(),
{
    if t.len() > 0 {
        lemma_count_all(t.drop_last(), q);
    }
}

pub proof fn lemma_count_none(t: Seq<u64>, q: spec_fn(u64) -> bool)
    requires
        forall|k: int| 0 <= k < t.len() ==> !#[trigger] q(t[k]),
    ensures
        count(t, q) == 0,
    decreases t.len(),
{
    if t.len() > 0 {
        lemma_count_none(t.drop_last(), q);
    }
}

pub proof fn lemma_count_le(t: Seq<u64>, q: spec_fn(u64) -> bool)
    ensures
        count(t, q) <= t.len(),
    decreases t.len(),
{
    if t.len() > 0 {
        lemma_count_le(t.drop_last(), q);
    }
}

/// Counting under two predicates that agree everywhere.
pub proof fn lemma_count_congruent(t: Seq<u64>, q1: spec_fn(u64) -> bool, q2: spec_fn(u64) -> bool)
    requires
        forall|v: u64| #[trigger] q1(v) == q2(v),
    ensures
        count(t, q1) == count(t, q2),
    decreases t.len(),
{
    if t.len() > 0 {
        lemma_count_congruent(t.drop_last(), q1, q2);
    }
}

/// Where every element satisfies `q`, conjoining `q` to `r` changes no count.
pub proof fn lemma_count_all_and(t: Seq<u64>, q: spec_fn(u64) -> bool, r: spec_fn(u64) -> bool)
    requires
        count(t, q) == t.len(),
    ensures
        count(t, |v: u64| q(v) && r(v)) == count(t, r),
    decreases t.len(),
{
    if t.len() > 0 {
        lemma_count_le(t.drop_last(), q);
        lemma_count_all_and(t.drop_last(), q, r);
    }
}

pub proof fn lemma_keep_add(a: Seq<u64>, c: Seq<u64>, w: nat, l: nat, b: bool)
    ensures
        keep(a + c, w, l, b) == keep(a, w, l, b) + keep(c, w, l, b),
    decreases c.len(),
{
    if c.len() == 0 {
        assert(a + c =~= a);
        assert(keep(a, w, l, b) + keep(c, w, l, b) =~= keep(a, w, l, b));
    } else {
        assert((a + c).drop_last() =~= a + c.drop_last());
        lemma_keep_add(a, c.drop_last(), w, l, b);
        assert(keep(a + c, w, l, b) =~= keep(a, w, l, b) + keep(c, w, l, b));
    }
}

pub proof fn lemma_keep_single(v: u64, w: nat, l: nat, b: bool)
    ensures
        keep(seq![v], w, l, b) == if bit(v, w, l) == b { seq![v] } else { Seq::<u64>::empty() },
{
    assert(seq![v].drop_last() =~= Seq::<u64>::empty());
    assert(seq![v].last() == v);
    assert(keep(Seq::<u64>::empty(), w, l, b) == Seq::<u64>::empty());
    assert(Seq::<u64>::empty().push(v) =~= seq![v]);
}

pub proof fn lemma_keep_bits(t: Seq<u64>, w: nat, l: nat, b: bool)
    ensures
        keep(t, w, l, b).len() <= t.len(),
        forall|k: int| 0 <= k < keep(t, w, l, b).len() ==> bit(#[trigger] keep(t, w, l, b)[k], w, l) == b,
    decreases t.len(),
{
    if t.len() > 0 {
        lemma_keep_bits(t.drop_last(), w, l, b);
    }
}

pub proof fn lemma_keep_len(t: Seq<u64>, w: nat, l: nat)
    ensures
        keep(t, w, l, false).len() + keep(t, w, l, true).len() == t.len(),
        partition(t, w, l).len() == t.len(),
    decreases t.len(),
{
    if t.len() > 0 {
        lemma_keep_len(t.drop_last(), w, l);
    }
}

/// `count` over a kept sequence, for a predicate that fixes the bit.
pub proof fn lemma_count_keep(t: Seq<u64>, w: nat, l: nat, b: bool, q: spec_fn(u64) -> bool)
    requires
        forall|v: u64| #[trigger] q(v) ==> bit(v, w, l) == b,
    ensures
        count(keep(t, w, l, b), q) == count(t, q),
        count(keep(t, w, l, !b), q) == 0,
    decreases t.len(),
{
    if t.len() > 0 {
        lemma_count_keep(t.drop_last(), w, l, b, q);
        let r = keep(t.drop_last(), w, l, b);
        let r2 = keep(t.drop_last(), w, l, !b);
        assert(r.push(t.last()).drop_last() =~= r);
        assert(r2.push(t.last()).drop_last() =~= r2);
    }
}

/// The number of kept elements equals the count of the bit.
pub proof fn lemma_keep_count(t: Seq<u64>, w: nat, l: nat, b: bool)
    ensures
        keep(t, w, l, b).len() == count(t, |v: u64| bit(v, w, l) == b),
    decreases t.len(),
{
    if t.len() > 0 {
        lemma_keep_count(t.drop_last(), w, l, b);
    }
}

/// The rank of a bit over a level equals the length of what is kept before.
pub proof fn lemma_rank_keep(t: Seq<u64>, w: nat, l: nat, b: bool, i: nat)
    requires
        i <= t.len(),
    ensures
        rank_of(bits(t, w, l), b, i) == keep(t.subrange(0, i as int), w, l, b).len(),
    decreases i,
{
    if i > 0 {
        lemma_rank_keep(t, w, l, b, (i - 1) as nat);
        assert(t.subrange(0, i as int).drop_last() =~= t.subrange(0, i - 1));
    } else {
        assert(t.subrange(0, 0) =~= Seq::<u64>::empty());
    }
}

pub proof fn lemma_rank_le(bs: Seq<bool>, b: bool, i: nat, j: nat)
    requires
        i <= j,
    ensures
        rank_of(bs, b, i) <= rank_of(bs, b, j),
        rank_of(bs, b, j) <= rank_of(bs, b, i) + (j - i),
    decreases j,
{
    if i < j {
        lemma_rank_le(bs, b, i, (j - 1) as nat);
    }
}

/// The ranks of the two bits add up to the position.
pub proof fn lemma_rank_sum(bs: Seq<bool>, i: nat)
    ensures
        rank_of(bs, false, i) + rank_of(bs, true, i) == i,
    decreases i,
{
    if i > 0 {
        lemma_rank_sum(bs, (i - 1) as nat);
    }
}

/// Ranks depend only on the bits before the position.
pub proof fn lemma_rank_prefix(bs: Seq<bool>, cs: Seq<bool>, b: bool, i: nat)
    requires
        i <= bs.len(),
        i <= cs.len(),
        bs.subrange(0, i as int) == cs.subrange(0, i as int),
    ensures
        rank_of(bs, b, i) == rank_of(cs, b, i),
    decreases i,
{
    if i > 0 {
        assert(bs.subrange(0, i - 1) =~= bs.subrange(0, i as int).subrange(0, i - 1));
        assert(cs.subrange(0, i - 1) =~= cs.subrange(0, i as int).subrange(0, i - 1));
        assert(bs[i - 1] == bs.subrange(0, i as int)[i - 1]);
        assert(cs[i - 1] == cs.subrange(0, i as int)[i - 1]);
        lemma_rank_prefix(bs, cs, b, (i - 1) as nat);
    }
}

pub proof fn lemma_order_len(s: Seq<u64>, w: nat, l: nat)
    ensures
        order(s, w, l).len() == s.len(),
    decreases l,
{
    if l > 0 {
        lemma_order_len(s, w, (l - 1) as nat);
        lemma_keep_len(order(s, w, (l - 1) as nat), w, (l - 1) as nat);
    }
}

// ---------------------------------------------------------------------------
// One level of the partition.

/// Following a position down one level keeps the symbol it holds.
pub proof fn lemma_step_access(t: Seq<u64>, w: nat, l: nat, p: nat)
    requires
        p < t.len(),
    ensures
        descend(t, w, l, bit(t[p as int], w, l), p) < t.len(),
        partition(t, w, l)[descend(t, w, l, bit(t[p as int], w, l), p) as int] == t[p as int],
{
    let b = bit(t[p as int], w, l);
    let a = t.subrange(0, p as int);
    let c = t.subrange(p as int + 1, t.len() as int);
    lemma_rank_keep(t, w, l, b, p);
    assert(t =~= a + seq![t[p as int]] + c);
    lemma_keep_add(a + seq![t[p as int]], c, w, l, b);
    lemma_keep_add(a, seq![t[p as int]], w, l, b);
    lemma_keep_single(t[p as int], w, l, b);
    lemma_keep_len(t, w, l);
    let r = keep(a, w, l, b).len();
    assert(keep(t, w, l, b)[r as int] == t[p as int]);
}

/// Counting, below a position, the elements that satisfy a predicate fixing
/// the level bit gives the same number before and after one level.
pub proof fn lemma_step_count(t: Seq<u64>, w: nat, l: nat, p: nat, b: bool, q: spec_fn(u64) -> bool)
    requires
        p <= t.len(),
        forall|v: u64| #[trigger] q(v) ==> bit(v, w, l) == b,
    ensures
        descend(t, w, l, b, p) <= t.len(),
        count(partition(t, w, l).subrange(0, descend(t, w, l, b, p) as int), q)
            == count(t.subrange(0, p as int), q),
{
    let a = t.subrange(0, p as int);
    let c = t.subrange(p as int, t.len() as int);
    assert(t =~= a + c);
    lemma_rank_keep(t, w, l, b, p);
    lemma_keep_add(a, c, w, l, false);
    lemma_keep_add(a, c, w, l, true);
    lemma_keep_len(t, w, l);
    lemma_count_keep(a, w, l, b, q);
    let pt = partition(t, w, l);
    if b {
        lemma_count_keep(t, w, l, b, q);
        let z = zeros_of(t, w, l);
        let r = keep(a, w, l, true).len();
        assert(pt.subrange(0, (z + r) as int) =~= keep(t, w, l, false) + keep(a, w, l, true));
        lemma_count_add(keep(t, w, l, false), keep(a, w, l, true), q);
    } else {
        let r = keep(a, w, l, false).len();
        assert(pt.subrange(0, r as int) =~= keep(a, w, l, false));
    }
}

/// A stretch of a level whose elements all satisfy `q` goes down to a stretch
/// whose elements all satisfy `q` and carry bit `b`.
pub proof fn lemma_step_range(
    t: Seq<u64>,
    w: nat,
    l: nat,
    st: nat,
    e: nat,
    b: bool,
    q: spec_fn(u64) -> bool,
    q2: spec_fn(u64) -> bool,
)
    requires
        st <= e <= t.len(),
        count(t.subrange(st as int, e as int), q) == e - st,
        forall|v: u64| #[trigger] q2(v) == (q(v) && bit(v, w, l) == b),
    ensures
        descend(t, w, l, b, st) <= descend(t, w, l, b, e) <= t.len(),
        count(
            partition(t, w, l).subrange(descend(t, w, l, b, st) as int, descend(t, w, l, b, e) as int),
            q2,
        ) == descend(t, w, l, b, e) - descend(t, w, l, b, st),
{
    let pt = partition(t, w, l);
    let st2 = descend(t, w, l, b, st);
    let e2 = descend(t, w, l, b, e);
    lemma_keep_len(t, w, l);
    lemma_rank_le(bits(t, w, l), b, st, e);
    lemma_step_count(t, w, l, st, b, q2);
    lemma_step_count(t, w, l, e, b, q2);
    lemma_count_split(t, st as int, e as int, q2);
    lemma_count_split(pt, st2 as int, e2 as int, q2);
    let mid = t.subrange(st as int, e as int);
    let bq = |v: u64| bit(v, w, l) == b;
    lemma_count_all_and(mid, q, bq);
    lemma_count_congruent(mid, q2, |v: u64| q(v) && bq(v));
    lemma_keep_count(mid, w, l, b);
    lemma_count_congruent(mid, bq, |v: u64| bit(v, w, l) == b);
    lemma_rank_keep(t, w, l, b, st);
    lemma_rank_keep(t, w, l, b, e);
    assert(t.subrange(0, e as int) =~= t.subrange(0, st as int) + mid);
    lemma_keep_add(t.subrange(0, st as int), mid, w, l, b);
}

/// A position of the next level whose symbol carries bit `b` comes from the
/// bit-`b` occurrence of the same rank, which exists.
pub proof fn lemma_step_select(t: Seq<u64>, w: nat, l: nat, p2: nat)
    requires
        p2 < t.len(),
    ensures
        ({
            let b = bit(partition(t, w, l)[p2 as int], w, l);
            let off = if b { zeros_of(t, w, l) } else { 0nat };
            off <= p2 && p2 - off < rank_of(bits(t, w, l), b, t.len())
        }),
{
    lemma_keep_len(t, w, l);
    lemma_keep_bits(t, w, l, false);
    lemma_keep_bits(t, w, l, true);
    lemma_rank_keep(t, w, l, false, t.len());
    lemma_rank_keep(t, w, l, true, t.len());
    assert(t.subrange(0, t.len() as int) =~= t);
    let z = zeros_of(t, w, l);
    if p2 < z {
        assert(partition(t, w, l)[p2 as int] == keep(t, w, l, false)[p2 as int]);
    } else {
        assert(partition(t, w, l)[p2 as int] == keep(t, w, l, true)[p2 - z]);
    }
}

/// Inserting a symbol into a level inserts it into the next level at the
/// position reached by descending.
pub proof fn lemma_step_insert(t: Seq<u64>, w: nat, l: nat, p: nat, v: u64)
    requires
        p <= t.len(),
    ensures
        descend(t, w, l, bit(v, w, l), p) <= t.len(),
        partition(t.insert(p as int, v), w, l)
            == partition(t, w, l).insert(descend(t, w, l, bit(v, w, l), p) as int, v),
        bits(t.insert(p as int, v), w, l) == bits(t, w, l).insert(p as int, bit(v, w, l)),
        zeros_of(t.insert(p as int, v), w, l) == zeros_of(t, w, l) + if bit(v, w, l) { 0nat } else { 1nat },
{
    let b = bit(v, w, l);
    let a = t.subrange(0, p as int);
    let c = t.subrange(p as int, t.len() as int);
    let u = t.insert(p as int, v);
    assert(t =~= a + c);
    assert(u =~= a + seq![v] + c);
    lemma_rank_keep(t, w, l, b, p);
    lemma_keep_len(t, w, l);
    lemma_keep_single(v, w, l, false);
    lemma_keep_single(v, w, l, true);
    lemma_keep_add(a, c, w, l, false);
    lemma_keep_add(a, c, w, l, true);
    lemma_keep_add(a + seq![v], c, w, l, false);
    lemma_keep_add(a + seq![v], c, w, l, true);
    lemma_keep_add(a, seq![v], w, l, false);
    lemma_keep_add(a, seq![v], w, l, true);
    let k0 = keep(t, w, l, false);
    let k1 = keep(t, w, l, true);
    if b {
        assert(keep(a, w, l, false) + keep(seq![v], w, l, false) =~= keep(a, w, l, false));
        assert(keep(u, w, l, false) =~= k0);
        assert(keep(u, w, l, true) =~= k1.insert(keep(a, w, l, true).len() as int, v));
        assert(partition(u, w, l) =~= partition(t, w, l).insert(descend(t, w, l, b, p) as int, v));
    } else {
        assert(keep(a, w, l, true) + keep(seq![v], w, l, true) =~= keep(a, w, l, true));
        assert(keep(u, w, l, true) =~= k1);
        assert(keep(u, w, l, false) =~= k0.insert(keep(a, w, l, false).len() as int, v));
        assert(partition(u, w, l) =~= partition(t, w, l).insert(descend(t, w, l, b, p) as int, v));
    }
    assert(bits(u, w, l) =~= bits(t, w, l).insert(p as int, b));
}

/// Removing a symbol from a level removes it from the next level at the
/// position reached by descending.
pub proof fn lemma_step_remove(t: Seq<u64>, w: nat, l: nat, p: nat)
    requires
        p < t.len(),
    ensures
        descend(t, w, l, bit(t[p as int], w, l), p) < t.len(),
        partition(t.remove(p as int), w, l)
            == partition(t, w, l).remove(descend(t, w, l, bit(t[p as int], w, l), p) as int),
        bits(t.remove(p as int), w, l) == bits(t, w, l).remove(p as int),
        zeros_of(t.remove(p as int), w, l) + (if bit(t[p as int], w, l) { 0nat } else { 1nat })
            == zeros_of(t, w, l),
{
    let v = t[p as int];
    let b = bit(v, w, l);
    let u = t.remove(p as int);
    assert(u.insert(p as int, v) =~= t);
    lemma_step_insert(u, w, l, p, v);
    lemma_step_access(t, w, l, p);
    assert(bits(u, w, l).subrange(0, p as int) =~= bits(t, w, l).subrange(0, p as int));
    lemma_rank_prefix(bits(u, w, l), bits(t, w, l), b, p);
    let d = descend(t, w, l, b, p);
    lemma_keep_len(u, w, l);
    assert(partition(u, w, l).insert(d as int, v).remove(d as int) =~= partition(u, w, l));
    assert(bits(u, w, l) =~= bits(t, w, l).remove(p as int));
}

pub proof fn lemma_order_empty(w: nat, l: nat)
    ensures
        order(Seq::<u64>::empty(), w, l) == Seq::<u64>::empty(),
    decreases l,
{
    if l > 0 {
        lemma_order_empty(w, (l - 1) as nat);
        let e = Seq::<u64>::empty();
        assert(keep(e, w, (l - 1) as nat, false) == e);
        assert(keep(e, w, (l - 1) as nat, true) == e);
        assert(e + e =~= e);
    }
}

// ---------------------------------------------------------------------------
// Ranges of positions and order statistics.

/// The predicate "is less than `c`".
pub open spec fn less_than(c: u64) -> spec_fn(u64) -> bool {
    |v: u64| v < c
}

/// The predicate "is at most `c`".
pub open spec fn at_most(c: u64) -> spec_fn(u64) -> bool {
    |v: u64| v <= c
}

/// The predicate that holds everywhere.
pub open spec fn always() -> spec_fn(u64) -> bool {
    |v: u64| true
}

/// The predicate "the `l` most significant bits equal `p`".
pub open spec fn prefix_is(w: nat, l: nat, p: nat) -> spec_fn(u64) -> bool {
    |v: u64| prefix(v, w, l) == p
}

/// The predicate "the `l` most significant bits are below `p`".
pub open spec fn prefix_below(w: nat, l: nat, p: nat) -> spec_fn(u64) -> bool {
    |v: u64| prefix(v, w, l) < p
}

/// `q` restricted to the symbols whose `l` most significant bits equal `p`.
pub open spec fn with_prefix(q: spec_fn(u64) -> bool, w: nat, l: nat, p: nat) -> spec_fn(u64) -> bool {
    |v: u64| q(v) && prefix(v, w, l) == p
}

/// `q` restricted to the symbols whose level-`l` bit is `b`.
pub open spec fn with_bit(q: spec_fn(u64) -> bool, w: nat, l: nat, b: bool) -> spec_fn(u64) -> bool {
    |v: u64| q(v) && bit(v, w, l) == b
}

/// The stretch `y` of a level holds, counted by any predicate, the symbols
/// of `x` whose `l` most significant bits equal `p`.
pub open spec fn stretch_of(y: Seq<u64>, x: Seq<u64>, w: nat, l: nat, p: nat) -> bool {
    forall|q: spec_fn(u64) -> bool| #[trigger] count(y, q) == count(x, with_prefix(q, w, l, p))
}

/// Counting under two predicates that agree on the elements.
pub proof fn lemma_count_congruent_on(t: Seq<u64>, q1: spec_fn(u64) -> bool, q2: spec_fn(u64) -> bool)
    requires
        forall|k: int| 0 <= k < t.len() ==> #[trigger] q1(t[k]) == q2(t[k]),
    ensures
        count(t, q1) == count(t, q2),
    decreases t.len(),
{
    if t.len() > 0 {
        lemma_count_congruent_on(t.drop_last(), q1, q2);
    }
}

/// Counting a disjoint union.
pub proof fn lemma_count_or(t: Seq<u64>, q1: spec_fn(u64) -> bool, q2: spec_fn(u64) -> bool, q3: spec_fn(u64) -> bool)
    requires
        forall|v: u64| #[trigger] q3(v) == (q1(v) || q2(v)),
        forall|v: u64| !(#[trigger] q1(v) && q2(v)),
    ensures
        count(t, q3) == count(t, q1) + count(t, q2),
    decreases t.len(),
{
    if t.len() > 0 {
        lemma_count_or(t.drop_last(), q1, q2, q3);
    }
}

/// Counting over what a level keeps.
pub proof fn lemma_count_keep_and(y: Seq<u64>, w: nat, l: nat, b: bool, q: spec_fn(u64) -> bool)
    ensures
        count(keep(y, w, l, b), q) == count(y, with_bit(q, w, l, b)),
    decreases y.len(),
{
    if y.len() > 0 {
        lemma_count_keep_and(y.drop_last(), w, l, b, q);
        let r = keep(y.drop_last(), w, l, b);
        assert(r.push(y.last()).drop_last() =~= r);
    }
}

/// A stretch of a level goes down to what it keeps of bit `b`.
pub proof fn lemma_range_keep(t: Seq<u64>, w: nat, l: nat, a: nat, e: nat, b: bool)
    requires
        a <= e <= t.len(),
    ensures
        descend(t, w, l, b, a) <= descend(t, w, l, b, e) <= t.len(),
        partition(t, w, l).subrange(descend(t, w, l, b, a) as int, descend(t, w, l, b, e) as int)
            == keep(t.subrange(a as int, e as int), w, l, b),
        rank_of(bits(t, w, l), b, e) - rank_of(bits(t, w, l), b, a)
            == keep(t.subrange(a as int, e as int), w, l, b).len(),
{
    let t0 = t.subrange(0, a as int);
    let t1 = t.subrange(a as int, e as int);
    let t2 = t.subrange(e as int, t.len() as int);
    assert(t =~= t0 + t1 + t2);
    assert(t.subrange(0, e as int) =~= t0 + t1);
    lemma_keep_add(t0, t1, w, l, b);
    lemma_keep_add(t0 + t1, t2, w, l, b);
    lemma_rank_keep(t, w, l, b, a);
    lemma_rank_keep(t, w, l, b, e);
    lemma_keep_len(t, w, l);
    let k0 = keep(t0, w, l, b);
    let k1 = keep(t1, w, l, b);
    let pt = partition(t, w, l);
    if b {
        let z = zeros_of(t, w, l);
        assert(pt.subrange((z + k0.len()) as int, (z + k0.len() + k1.len()) as int) =~= k1);
    } else {
        assert(pt.subrange(k0.len() as int, (k0.len() + k1.len()) as int) =~= k1);
    }
}

/// A stretch of `x`'s symbols with prefix `p` goes down, following bit `b`,
/// to the stretch of those with prefix `2p + b`; the zero bits of the
/// stretch are the symbols of `x` with prefix `2p`.
pub proof fn lemma_stretch_step(t: Seq<u64>, x: Seq<u64>, w: nat, l: nat, p: nat, a: nat, e: nat, b: bool)
    requires
        l < w,
        a <= e <= t.len(),
        stretch_of(t.subrange(a as int, e as int), x, w, l, p),
    ensures
        descend(t, w, l, b, a) <= descend(t, w, l, b, e) <= t.len(),
        stretch_of(
            partition(t, w, l).subrange(descend(t, w, l, b, a) as int, descend(t, w, l, b, e) as int),
            x,
            w,
            l + 1,
            2 * p + if b { 1nat } else { 0nat },
        ),
        rank_of(bits(t, w, l), false, e) - rank_of(bits(t, w, l), false, a)
            == count(x, prefix_is(w, l + 1, 2 * p)),
        e - a == count(x, prefix_is(w, l, p)),
{
    let y = t.subrange(a as int, e as int);
    let p2 = 2 * p + if b { 1nat } else { 0nat };
    lemma_range_keep(t, w, l, a, e, b);
    lemma_range_keep(t, w, l, a, e, false);
    let z = partition(t, w, l).subrange(descend(t, w, l, b, a) as int, descend(t, w, l, b, e) as int);
    assert forall|q: spec_fn(u64) -> bool| #[trigger] count(z, q) == count(x, with_prefix(q, w, l + 1, p2)) by {
        lemma_count_keep_and(y, w, l, b, q);
        assert(count(y, with_bit(q, w, l, b)) == count(x, with_prefix(with_bit(q, w, l, b), w, l, p)));
        assert forall|v: u64| #[trigger] with_prefix(with_bit(q, w, l, b), w, l, p)(v)
            == with_prefix(q, w, l + 1, p2)(v) by {
            lemma_prefix_step(v, w, l);
        }
        lemma_count_congruent(x, with_prefix(with_bit(q, w, l, b), w, l, p), with_prefix(q, w, l + 1, p2));
    }
    let bz = |v: u64| bit(v, w, l) == false;
    lemma_keep_count(y, w, l, false);
    lemma_count_congruent(y, |v: u64| bit(v, w, l) == false, bz);
    assert(count(y, bz) == count(x, with_prefix(bz, w, l, p)));
    assert forall|v: u64| #[trigger] with_prefix(bz, w, l, p)(v) == prefix_is(w, l + 1, 2 * p)(v) by {
        lemma_prefix_step(v, w, l);
    }
    lemma_count_congruent(x, with_prefix(bz, w, l, p), prefix_is(w, l + 1, 2 * p));
    lemma_count_all(y, always());
    assert(count(y, always()) == count(x, with_prefix(always(), w, l, p)));
    lemma_count_congruent(x, with_prefix(always(), w, l, p), prefix_is(w, l, p));
}

/// How the count of symbols with a smaller prefix changes one level down.
pub proof fn lemma_below_step(x: Seq<u64>, w: nat, l: nat, p: nat, b: bool)
    requires
        l < w,
    ensures
        count(x, prefix_below(w, l + 1, 2 * p + if b { 1nat } else { 0nat }))
            == count(x, prefix_below(w, l, p)) + if b { count(x, prefix_is(w, l + 1, 2 * p)) } else { 0 },
{
    if b {
        assert forall|v: u64| #[trigger] prefix_below(w, l + 1, 2 * p + 1)(v)
            == (prefix_below(w, l, p)(v) || prefix_is(w, l + 1, 2 * p)(v)) by {
            lemma_prefix_step(v, w, l);
        }
        assert forall|v: u64| !(#[trigger] prefix_below(w, l, p)(v) && prefix_is(w, l + 1, 2 * p)(v)) by {
            lemma_prefix_step(v, w, l);
        }
        lemma_count_or(x, prefix_below(w, l, p), prefix_is(w, l + 1, 2 * p), prefix_below(w, l + 1, 2 * p + 1));
    } else {
        assert forall|v: u64| #[trigger] prefix_below(w, l + 1, 2 * p)(v) == prefix_below(w, l, p)(v) by {
            lemma_prefix_step(v, w, l);
        }
        lemma_count_congruent(x, prefix_below(w, l + 1, 2 * p), prefix_below(w, l, p));
    }
}

/// At level zero a range of a sequence of fitting symbols is its own stretch.
pub proof fn lemma_stretch_top(x: Seq<u64>, w: nat)
    requires
        fits(x, w),
    ensures
        stretch_of(x, x, w, 0, 0),
        count(x, prefix_below(w, 0, 0)) == 0,
{
    assert forall|q: spec_fn(u64) -> bool| #[trigger] count(x, q) == count(x, with_prefix(q, w, 0, 0)) by {
        assert forall|k: int| 0 <= k < x.len() implies #[trigger] q(x[k]) == with_prefix(q, w, 0, 0)(x[k]) by {
            lemma_prefix_ends(x[k], w);
        }
        lemma_count_congruent_on(x, q, with_prefix(q, w, 0, 0));
    }
    lemma_count_none(x, prefix_below(w, 0, 0));
}

/// At the last level prefixes are the symbols themselves.
pub proof fn lemma_prefix_full_preds(x: Seq<u64>, w: nat, c: u64)
    ensures
        count(x, prefix_below(w, w, c as nat)) == count(x, less_than(c)),
        count(x, prefix_is(w, w, c as nat)) == occurrences(x, c),
        count(x, at_most(c)) == count(x, less_than(c)) + occurrences(x, c),
{
    assert forall|v: u64| #[trigger] prefix_below(w, w, c as nat)(v) == less_than(c)(v) by {
        lemma_prefix_ends(v, w);
    }
    assert forall|v: u64| #[trigger] prefix_is(w, w, c as nat)(v) == is_sym(c)(v) by {
        lemma_prefix_ends(v, w);
    }
    lemma_count_congruent(x, prefix_below(w, w, c as nat), less_than(c));
    lemma_count_congruent(x, prefix_is(w, w, c as nat), is_sym(c));
    lemma_count_or(x, less_than(c), is_sym(c), at_most(c));
}

/// The length of a stretch is the number of symbols it stands for.
pub proof fn lemma_stretch_len(y: Seq<u64>, x: Seq<u64>, w: nat, l: nat, p: nat)
    requires
        stretch_of(y, x, w, l, p),
    ensures
        y.len() == count(x, prefix_is(w, l, p)),
{
    lemma_count_all(y, always());
    assert(count(y, always()) == count(x, with_prefix(always(), w, l, p)));
    lemma_count_congruent(x, with_prefix(always(), w, l, p), prefix_is(w, l, p));
}

/// `v` is the `k`-th smallest symbol of `x`, counted from zero.
pub open spec fn kth_smallest(x: Seq<u64>, k: nat, v: u64) -> bool {
    count(x, less_than(v)) <= k < count(x, at_most(v))
}

/// Where no element is counted, none satisfies the predicate.
pub proof fn lemma_count_zero(t: Seq<u64>, q: spec_fn(u64) -> bool)
    requires
        count(t, q) == 0,
    ensures
        forall|k: int| 0 <= k < t.len() ==> !#[trigger] q(t[k]),
    decreases t.len(),
{
    if t.len() > 0 {
        lemma_count_zero(t.drop_last(), q);
        assert forall|k: int| 0 <= k < t.len() implies !#[trigger] q(t[k]) by {
            if k < t.len() - 1 {
                assert(t[k] == t.drop_last()[k]);
            }
        }
    }
}

/// Where every element is counted, all satisfy the predicate.
pub proof fn lemma_count_full(t: Seq<u64>, q: spec_fn(u64) -> bool)
    requires
        count(t, q) == t.len(),
    ensures
        forall|k: int| 0 <= k < t.len() ==> #[trigger] q(t[k]),
    decreases t.len(),
{
    if t.len() > 0 {
        lemma_count_le(t.drop_last(), q);
        lemma_count_full(t.drop_last(), q);
        assert forall|k: int| 0 <= k < t.len() implies #[trigger] q(t[k]) by {
            if k < t.len() - 1 {
                assert(t[k] == t.drop_last()[k]);
            }
        }
    }
}

/// A predicate implied by another counts at least as many elements.
pub proof fn lemma_count_mono(t: Seq<u64>, q1: spec_fn(u64) -> bool, q2: spec_fn(u64) -> bool)
    requires
        forall|v: u64| #[trigger] q1(v) ==> q2(v),
    ensures
        count(t, q1) <= count(t, q2),
    decreases t.len(),
{
    if t.len() > 0 {
        lemma_count_mono(t.drop_last(), q1, q2);
    }
}

} // verus!
