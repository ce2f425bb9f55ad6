use vstd::multiset::{group_multiset_axioms, lemma_multiset_empty_len, Multiset};
use vstd::prelude::*;
use vstd::seq_lib::{lemma_multiset_commutative, to_multiset_build, to_multiset_len};

use crate::index::{
    bit_is_set, decodable, is_stable_order, line_end, line_range, line_start, state_before,
    stably_before, ts_range_lt, Chronology, SourceBlock, WINDOW_BITS,
};
use crate::input::{sorted_with, stably_sorted};

verus! {

/// Start of line `k` when `buf` is split at each newline, in byte order.
pub open spec fn naive_start(buf: Seq<u8>, k: nat) -> int
    decreases k,
{
    if k == 0 {
        0
    } else {
        line_end(buf, naive_start(buf, (k - 1) as nat))
    }
}

/// The bytes of the first `k` decoded lines, one after another.
pub open spec fn decoded_prefix(buf: Seq<u8>, c: Chronology, k: nat) -> Seq<u8>
    decreases k,
{
    if k == 0 {
        Seq::empty()
    } else {
        let prev = decoded_prefix(buf, c, (k - 1) as nat);
        match line_range(buf, c, (k - 1) as nat) {
            Some((s, e)) => prev + buf.subrange(s, e),
            None => prev,
        }
    }
}

/// A line ends after it starts and within the buffer.
pub proof fn lemma_line_end_bounds(buf: Seq<u8>, s: int)
    requires
        0 <= s <= buf.len(),
    ensures
        s <= line_end(buf, s) <= buf.len(),
    decreases buf.len() - s,
{
    if s < buf.len() && buf[s] != 10u8 {
        lemma_line_end_bounds(buf, s + 1);
    }
}

/// Newline-split line starts never pass the end of the buffer.
pub proof fn lemma_naive_start_bounds(buf: Seq<u8>, k: nat)
    ensures
        0 <= naive_start(buf, k) <= buf.len(),
    decreases k,
{
    if k > 0 {
        lemma_naive_start_bounds(buf, (k - 1) as nat);
        lemma_line_end_bounds(buf, naive_start(buf, (k - 1) as nat));
    }
}

/// Whether a table with no bit set agrees with the newline split: every window that
/// covers one of the first `total` lines has an entry that starts at its first line.
pub open spec fn zero_table_in_order(buf: Seq<u8>, c: Chronology, total: nat) -> bool {
    c.bitmap@.len() == 0 || {
        &&& total <= c.bitmap@.len() * WINDOW_BITS
        &&& forall|n: int| 0 <= n < c.bitmap@.len() ==> c.bitmap@[n] == 0u64
        &&& forall|n: int|
            0 <= n < c.bitmap@.len() ==> n < c.offsets@.len() && c.offsets@[n].bytes as int
                == #[trigger] naive_start(buf, (n * WINDOW_BITS) as nat)
    }
}

proof fn lemma_zero_word(m: u64)
    requires
        m < 64,
    ensures
        !bit_is_set(0u64, m as int),
{
    assert(0u64 & (1u64 << m) == 0u64) by (bit_vector);
}

/// Before line `i`, a table with no bit set leaves the scan at the newline split.
proof fn lemma_zero_table_state(buf: Seq<u8>, c: Chronology, total: nat, i: nat)
    requires
        zero_table_in_order(buf, c, total),
        i <= total,
    ensures
        state_before(buf, c, i) matches Some((b, _j)) && b == naive_start(buf, i),
    decreases i,
{
    lemma_naive_start_bounds(buf, i);
    if i > 0 {
        let k = (i - 1) as nat;
        lemma_zero_table_state(buf, c, total, k);
        lemma_zero_table_line(buf, c, total, k);
    }
}

/// Line `i` of a table with no bit set starts where the newline split puts it.
proof fn lemma_zero_table_line(buf: Seq<u8>, c: Chronology, total: nat, i: nat)
    requires
        zero_table_in_order(buf, c, total),
        i < total,
        state_before(buf, c, i) matches Some((b, _j)) && b == naive_start(buf, i),
    ensures
        state_before(buf, c, i) matches Some((b, j)) && line_start(c, buf.len() as int, b, j, i as int)
            matches Some((s, _j2)) && s == naive_start(buf, i),
{
    lemma_naive_start_bounds(buf, i);
    if c.bitmap@.len() != 0 {
        let w = WINDOW_BITS as int;
        let n = i as int / w;
        let m = i as int % w;
        assert(n < c.bitmap@.len()) by (nonlinear_arith)
            requires
                i < total,
                total <= c.bitmap@.len() * w,
                w == 64,
                n == i as int / w,
        ;
        lemma_zero_word(m as u64);
        assert(c.bitmap@[n] == 0u64);
        if m == 0 {
            assert(i as int == n * w);
            assert(c.offsets@[n].bytes as int == naive_start(buf, (n * WINDOW_BITS) as nat));
        }
    }
}

/// A block whose table has no bit set, and whose window entries agree with the
/// newline split, decodes to the lines of a newline split of its bytes, in byte order.
pub proof fn lemma_zero_bitmap_is_newline_split(buf: Seq<u8>, c: Chronology, total: nat, i: nat)
    requires
        zero_table_in_order(buf, c, total),
        i < total,
    ensures
        line_range(buf, c, i) == Some((naive_start(buf, i), naive_start(buf, i + 1))),
{
    lemma_zero_table_state(buf, c, total, i);
    lemma_zero_table_line(buf, c, total, i);
}

/// Where the table covers the first `total` lines, it covers each line before them.
proof fn lemma_state_prefix(buf: Seq<u8>, c: Chronology, total: nat, i: nat)
    requires
        decodable(buf, c, total),
        i <= total,
    ensures
        state_before(buf, c, i) is Some,
    decreases total - i,
{
    if i < total {
        lemma_state_prefix(buf, c, total, i + 1);
    }
}

/// A block whose table covers its `total` lines yields a line for each of them.
pub proof fn lemma_decodable_yields_every_line(buf: Seq<u8>, c: Chronology, total: nat, i: nat)
    requires
        decodable(buf, c, total),
        i < total,
    ensures
        line_range(buf, c, i) is Some,
{
    lemma_state_prefix(buf, c, total, i + 1);
}

/// A line whose bit is set starts at the next unread entry of `jumps` and moves the
/// jump cursor on by exactly one; a line whose bit is clear leaves the cursor where it
/// was, or where its window's entry puts it.
pub proof fn lemma_jump_consumption(c: Chronology, len: int, byte: int, jump: int, i: int)
    requires
        c.bitmap@.len() > 0,
        0 <= i,
        line_start(c, len, byte, jump, i) is Some,
    ensures
        ({
            let n = i / (WINDOW_BITS as int);
            let m = i % (WINDOW_BITS as int);
            let j = if m == 0 { c.offsets@[n].jumps as int } else { jump };
            let (s, j2) = line_start(c, len, byte, jump, i)->0;
            &&& bit_is_set(c.bitmap@[n], m) ==> 0 <= j < c.jumps@.len() && s == c.jumps@[j] as int && j2
                == j + 1
            &&& !bit_is_set(c.bitmap@[n], m) ==> j2 == j
        }),
{
}

/// After a stable sort by `ts_min_max`, a block whose `ts_min_max` is smaller comes
/// before one whose `ts_min_max` is larger, whatever order they were in before.
pub proof fn lemma_sorted_blocks_follow_ts(
    blocks: Seq<SourceBlock>,
    before: Seq<usize>,
    after: Seq<usize>,
    a: int,
    b: int,
)
    requires
        stably_sorted(blocks, before, after),
        0 <= a < after.len(),
        0 <= b < after.len(),
        ts_range_lt(blocks[after[a] as int].stat.ts_min_max, blocks[after[b] as int].stat.ts_min_max),
    ensures
        a < b,
{
    let perm = choose|perm: Seq<usize>| #[trigger] sorted_with(blocks, before, after, perm);
    let keys = before.map_values(|k: usize| blocks[k as int].stat.ts_min_max);
    assert(is_stable_order(keys, perm));
    assert(after[a] == before[perm[a] as int]);
    assert(after[b] == before[perm[b] as int]);
    if b < a {
        assert(stably_before(keys, perm[b] as int, perm[a] as int));
    }
}

/// Lines of a block whose table has no bit set and agrees with the newline split,
/// put one after another, give back the block's bytes up to the end of the last one.
pub proof fn lemma_zero_bitmap_round_trip(buf: Seq<u8>, c: Chronology, total: nat, k: nat)
    requires
        zero_table_in_order(buf, c, total),
        k <= total,
    ensures
        decoded_prefix(buf, c, k) == buf.subrange(0, naive_start(buf, k)),
    decreases k,
{
    if k == 0 {
        assert(buf.subrange(0, 0) =~= Seq::<u8>::empty());
    } else {
        let p = (k - 1) as nat;
        lemma_zero_bitmap_round_trip(buf, c, total, p);
        lemma_zero_bitmap_is_newline_split(buf, c, total, p);
        lemma_naive_start_bounds(buf, p);
        lemma_naive_start_bounds(buf, k);
        lemma_line_end_bounds(buf, naive_start(buf, p));
        assert(buf.subrange(0, naive_start(buf, p)) + buf.subrange(naive_start(buf, p), naive_start(buf, k))
            =~= buf.subrange(0, naive_start(buf, k)));
    }
}

/// Whether byte `p` lies in decoded line `i`.
pub open spec fn in_line(buf: Seq<u8>, c: Chronology, i: nat, p: int) -> bool {
    match line_range(buf, c, i) {
        Some((s, e)) => s <= p < e,
        None => false,
    }
}

/// Whether byte `p` lies in one of the first `k` decoded lines.
pub open spec fn covered(buf: Seq<u8>, c: Chronology, k: nat, p: int) -> bool
    decreases k,
{
    k > 0 && (covered(buf, c, (k - 1) as nat, p) || in_line(buf, c, (k - 1) as nat, p))
}

/// The bytes of `buf` before position `h` that none of the first `k` lines holds.
pub open spec fn left_over(buf: Seq<u8>, c: Chronology, k: nat, h: int) -> Multiset<u8>
    decreases h,
{
    if h <= 0 {
        Multiset::empty()
    } else {
        let m = left_over(buf, c, k, h - 1);
        if covered(buf, c, k, h - 1) {
            m
        } else {
            m.insert(buf[h - 1])
        }
    }
}

/// Whether the first `total` decoded lines exist and no two of them share a byte.
pub open spec fn lines_disjoint(buf: Seq<u8>, c: Chronology, total: nat) -> bool {
    &&& forall|i: nat| i < total ==> (#[trigger] line_range(buf, c, i)) is Some
    &&& forall|i: nat, j: nat, p: int|
        i < j < total ==> !(#[trigger] in_line(buf, c, i, p) && #[trigger] in_line(buf, c, j, p))
}

proof fn lemma_empty_to_multiset(s: Seq<u8>)
    requires
        s.len() == 0,
    ensures
        s.to_multiset() =~= Multiset::empty(),
{
    to_multiset_len(s);
    lemma_multiset_empty_len(s.to_multiset());
}

proof fn lemma_left_over_none(buf: Seq<u8>, c: Chronology, h: int)
    requires
        0 <= h <= buf.len(),
    ensures
        left_over(buf, c, 0, h) == buf.subrange(0, h).to_multiset(),
    decreases h,
{
    broadcast use group_multiset_axioms;

    if h == 0 {
        lemma_empty_to_multiset(buf.subrange(0, 0));
    } else {
        lemma_left_over_none(buf, c, h - 1);
        assert(buf.subrange(0, h) =~= buf.subrange(0, h - 1).push(buf[h - 1]));
        to_multiset_build(buf.subrange(0, h - 1), buf[h - 1]);
    }
}

proof fn lemma_not_covered_earlier(buf: Seq<u8>, c: Chronology, total: nat, k: nat, j: nat, p: int)
    requires
        lines_disjoint(buf, c, total),
        k <= j < total,
        in_line(buf, c, j, p),
    ensures
        !covered(buf, c, k, p),
    decreases k,
{
    if k > 0 {
        lemma_not_covered_earlier(buf, c, total, (k - 1) as nat, j, p);
        assert(!(in_line(buf, c, (k - 1) as nat, p) && in_line(buf, c, j, p)));
    }
}

proof fn lemma_left_over_step(buf: Seq<u8>, c: Chronology, total: nat, k: nat, h: int)
    requires
        lines_disjoint(buf, c, total),
        k < total,
        0 <= h <= buf.len(),
    ensures
        ({
            let (s, e) = line_range(buf, c, k)->0;
            let lo = if s < h { s } else { h };
            let hi = if e < h { e } else { h };
            left_over(buf, c, k, h) == left_over(buf, c, k + 1, h).add(buf.subrange(lo, hi).to_multiset())
        }),
    decreases h,
{
    broadcast use group_multiset_axioms;

    assert(line_range(buf, c, k) is Some);
    let (s, e) = line_range(buf, c, k)->0;
    lemma_line_range_bounds(buf, c, k);
    if h == 0 {
        lemma_empty_to_multiset(buf.subrange(0, 0));
    } else {
        lemma_left_over_step(buf, c, total, k, h - 1);
        let p = h - 1;
        let lo1 = if s < p { s } else { p };
        let hi1 = if e < p { e } else { p };
        if s <= p && p < e {
            assert(in_line(buf, c, k, p));
            lemma_not_covered_earlier(buf, c, total, k, k, p);
            assert(buf.subrange(s, h) =~= buf.subrange(s, p).push(buf[p]));
            to_multiset_build(buf.subrange(s, p), buf[p]);
            assert(left_over(buf, c, k, h) =~= left_over(buf, c, k + 1, h).add(
                buf.subrange(s, h).to_multiset(),
            ));
        } else {
            assert(!in_line(buf, c, k, p));
            assert(covered(buf, c, k + 1, p) == covered(buf, c, k, p));
            if p < s {
                assert(buf.subrange(h, h) =~= buf.subrange(p, p));
            }
            assert(left_over(buf, c, k, h) =~= left_over(buf, c, k + 1, h).add(
                buf.subrange(lo1, hi1).to_multiset(),
            ));
        }
    }
}

/// A decoded line lies within the buffer.
proof fn lemma_line_range_bounds(buf: Seq<u8>, c: Chronology, i: nat)
    requires
        line_range(buf, c, i) is Some,
    ensures
        ({
            let (s, e) = line_range(buf, c, i)->0;
            0 <= s <= e <= buf.len()
        }),
{
    let (b, j) = state_before(buf, c, i)->0;
    let (s, _j2) = line_start(c, buf.len() as int, b, j, i as int)->0;
    lemma_line_end_bounds(buf, s);
}

proof fn lemma_prefix_and_left_over(buf: Seq<u8>, c: Chronology, total: nat, k: nat)
    requires
        lines_disjoint(buf, c, total),
        k <= total,
    ensures
        decoded_prefix(buf, c, k).to_multiset().add(left_over(buf, c, k, buf.len() as int))
            == buf.to_multiset(),
    decreases k,
{
    broadcast use group_multiset_axioms;

    if k == 0 {
        lemma_left_over_none(buf, c, buf.len() as int);
        assert(buf.subrange(0, buf.len() as int) =~= buf);
        lemma_empty_to_multiset(decoded_prefix(buf, c, 0));
        assert(Multiset::<u8>::empty().add(buf.to_multiset()) =~= buf.to_multiset());
    } else {
        let i = (k - 1) as nat;
        lemma_prefix_and_left_over(buf, c, total, i);
        lemma_left_over_step(buf, c, total, i, buf.len() as int);
        assert(line_range(buf, c, i) is Some);
        lemma_line_range_bounds(buf, c, i);
        let (s, e) = line_range(buf, c, i)->0;
        lemma_multiset_commutative(decoded_prefix(buf, c, i), buf.subrange(s, e));
        assert(decoded_prefix(buf, c, k).to_multiset().add(left_over(buf, c, k, buf.len() as int))
            =~= buf.to_multiset());
    }
}

/// Where the decoded lines of a block share no byte and together are as long as the
/// block, putting them one after another gives back the block's bytes, reordered:
/// no byte is duplicated and none is lost.
pub proof fn lemma_round_trip_is_permutation(buf: Seq<u8>, c: Chronology, total: nat)
    requires
        lines_disjoint(buf, c, total),
        decoded_prefix(buf, c, total).len() == buf.len(),
    ensures
        decoded_prefix(buf, c, total).to_multiset() == buf.to_multiset(),
{
    broadcast use group_multiset_axioms;

    lemma_prefix_and_left_over(buf, c, total, total);
    to_multiset_len(decoded_prefix(buf, c, total));
    to_multiset_len(buf);
    let rest = left_over(buf, c, total, buf.len() as int);
    lemma_multiset_empty_len(rest);
    assert(decoded_prefix(buf, c, total).to_multiset() =~= buf.to_multiset());
}

} // verus!
