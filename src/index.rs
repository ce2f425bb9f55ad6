use vstd::prelude::*;

verus! {

/// A point in time: seconds and nanoseconds.
pub type Timestamp = (i64, u32);

/// Number of lines covered by one word of a chronology bitmap.
pub const WINDOW_BITS: usize = 64;

/// Where the scan of one window starts: its first byte and its first entry of `jumps`.
#[derive(Clone, Copy, Debug, PartialEq, Eq)]
pub struct OffsetPair {
    pub bytes: u64,
    pub jumps: u32,
}

/// Sparse table that turns a sequential scan of a block into its chronological order.
///
/// Bit `m` of `bitmap[n]` is set when line `n * WINDOW_BITS + m` does not start where
/// the previous line ended: its start is then the next unread entry of `jumps`.
#[derive(Clone, Debug)]
pub struct Chronology {
    pub bitmap: Vec<u64>,
    pub offsets: Vec<OffsetPair>,
    pub jumps: Vec<u64>,
}

/// Line statistics of one block.
#[derive(Clone, Copy, Debug, PartialEq, Eq)]
pub struct SourceBlockStat {
    pub lines_valid: u64,
    pub lines_invalid: u64,
    pub ts_min_max: (Timestamp, Timestamp),
}

/// One indexed byte range of a source.
#[derive(Clone, Debug)]
pub struct SourceBlock {
    pub offset: u64,
    pub size: u32,
    pub stat: SourceBlockStat,
    pub chronology: Chronology,
}

/// The blocks of one source, in the order of their byte ranges.
#[derive(Clone, Debug)]
pub struct Index {
    pub blocks: Vec<SourceBlock>,
}

impl SourceBlock {
    /// Number of lines of the block, valid or not.
    pub open spec fn total_lines(&self) -> int {
        self.stat.lines_valid + self.stat.lines_invalid
    }
}

/// Whether bit `m` of `word` is set.
pub open spec fn bit_is_set(word: u64, m: int) -> bool {
    word & (1u64 << (m as u64)) != 0
}

/// The position just past the first newline at or after `s`, or the end of `buf`.
pub open spec fn line_end(buf: Seq<u8>, s: int) -> int
    decreases buf.len() - s,
{
    if s >= buf.len() || s < 0 {
        buf.len() as int
    } else if buf[s] == 10u8 {
        s + 1
    } else {
        line_end(buf, s + 1)
    }
}

/// Where line `i` starts, and the jump cursor after it, when the scan left off at
/// `byte` with jump cursor `jump`. `None` where the table does not cover line `i`
/// or points outside a buffer of `len` bytes.
pub open spec fn line_start(c: Chronology, len: int, byte: int, jump: int, i: int) -> Option<(int, int)> {
    let r = if c.bitmap@.len() == 0 {
        Some((byte, jump))
    } else {
        let n = i / (WINDOW_BITS as int);
        let m = i % (WINDOW_BITS as int);
        if n >= c.bitmap@.len() || (m == 0 && n >= c.offsets@.len()) {
            None
        } else {
            let b = if m == 0 { c.offsets@[n].bytes as int } else { byte };
            let j = if m == 0 { c.offsets@[n].jumps as int } else { jump };
            if bit_is_set(c.bitmap@[n], m) {
                if 0 <= j < c.jumps@.len() {
                    Some((c.jumps@[j] as int, j + 1))
                } else {
                    None
                }
            } else {
                Some((b, j))
            }
        }
    };
    match r {
        Some((s, j)) => if 0 <= s <= len { Some((s, j)) } else { None },
        None => None,
    }
}

/// Scan position and jump cursor before line `i` of a block with contents `buf`.
pub open spec fn state_before(buf: Seq<u8>, c: Chronology, i: nat) -> Option<(int, int)>
    decreases i,
{
    if i == 0 {
        Some((0, 0))
    } else {
        match state_before(buf, c, (i - 1) as nat) {
            Some((b, j)) => match line_start(c, buf.len() as int, b, j, i - 1) {
                Some((s, j2)) => Some((line_end(buf, s), j2)),
                None => None,
            },
            None => None,
        }
    }
}

/// The byte range of line `i` in chronological order, if the table covers it.
pub open spec fn line_range(buf: Seq<u8>, c: Chronology, i: nat) -> Option<(int, int)> {
    match state_before(buf, c, i) {
        Some((b, j)) => match line_start(c, buf.len() as int, b, j, i as int) {
            Some((s, _j2)) => Some((s, line_end(buf, s))),
            None => None,
        },
        None => None,
    }
}

/// Whether the table covers each of the first `total` lines of `buf`.
pub open spec fn decodable(buf: Seq<u8>, c: Chronology, total: nat) -> bool {
    state_before(buf, c, total) is Some
}

} // verus!

verus! {

/// Strict lexicographic order on timestamps.
pub open spec fn ts_lt(a: Timestamp, b: Timestamp) -> bool {
    a.0 < b.0 || (a.0 == b.0 && a.1 < b.1)
}

/// Strict order on `(min, max)` timestamp pairs: by minimum, then by maximum.
pub open spec fn ts_range_lt(a: (Timestamp, Timestamp), b: (Timestamp, Timestamp)) -> bool {
    ts_lt(a.0, b.0) || (a.0 == b.0 && ts_lt(a.1, b.1))
}

/// Whether position `p` of `keys` comes before position `q` in a stable sort.
pub open spec fn stably_before(keys: Seq<(Timestamp, Timestamp)>, p: int, q: int) -> bool {
    ts_range_lt(keys[p], keys[q]) || (keys[p] == keys[q] && p < q)
}

/// `perm` lists each position of `keys` once, in stable ascending order of the keys.
pub open spec fn is_stable_order(keys: Seq<(Timestamp, Timestamp)>, perm: Seq<usize>) -> bool {
    &&& perm.len() == keys.len()
    &&& forall|a: int| 0 <= a < perm.len() ==> perm[a] < keys.len()
    &&& forall|a: int, b: int| 0 <= a < b < perm.len() ==> perm[a] != perm[b]
    &&& forall|a: int, b: int|
        0 <= a < b < perm.len() ==> #[trigger] stably_before(keys, perm[a] as int, perm[b] as int)
}

/// Compares two `(min, max)` timestamp pairs.
pub fn ts_range_less(a: (Timestamp, Timestamp), b: (Timestamp, Timestamp)) -> (r: bool)
    ensures
        r == ts_range_lt(a, b),
{
    if (a.0).0 != (b.0).0 {
        (a.0).0 < (b.0).0
    } else if (a.0).1 != (b.0).1 {
        (a.0).1 < (b.0).1
    } else if (a.1).0 != (b.1).0 {
        (a.1).0 < (b.1).0
    } else {
        (a.1).1 < (b.1).1
    }
}

/// The positions of `keys` in ascending order of the keys; equal keys keep their order.
pub fn stable_order(keys: &Vec<(Timestamp, Timestamp)>) -> (perm: Vec<usize>)
    ensures
        is_stable_order(keys@, perm@),
{
    let mut perm: Vec<usize> = Vec::new();
    let mut i: usize = 0;
    while i < keys.len()
        invariant
            i <= keys@.len(),
            perm@.len() == i,
            forall|a: int| 0 <= a < perm@.len() ==> perm@[a] < i,
            forall|a: int, b: int| 0 <= a < b < perm@.len() ==> perm@[a] != perm@[b],
            forall|a: int, b: int|
                0 <= a < b < perm@.len() ==> #[trigger] stably_before(keys@, perm@[a] as int, perm@[b] as int),
        decreases keys@.len() - i,
    {
        let mut j: usize = 0;
        while j < perm.len() && !ts_range_less(keys[i], keys[perm[j]])
            invariant
                i < keys@.len(),
                j <= perm@.len(),
                forall|a: int| 0 <= a < perm@.len() ==> perm@[a] < i,
                forall|a: int| 0 <= a < j ==> !ts_range_lt(keys@[i as int], keys@[perm@[a] as int]),
            decreases perm@.len() - j,
        {
            j = j + 1;
        }
        let ghost old_perm = perm@;
        proof {
            if j < old_perm.len() {
                assert forall|a: int| j <= a < old_perm.len() implies ts_range_lt(
                    keys@[i as int],
                    keys@[old_perm[a] as int],
                ) by {
                    if a > j {
                        assert(stably_before(keys@, old_perm[j as int] as int, old_perm[a] as int));
                    }
                }
            }
        }
        perm.insert(j, i);
        proof {
            let np = perm@;
            assert(np == old_perm.insert(j as int, i));
            assert forall|a: int, b: int| 0 <= a < b < np.len() implies #[trigger] stably_before(
                keys@,
                np[a] as int,
                np[b] as int,
            ) by {
                if b < j {
                    assert(stably_before(keys@, old_perm[a] as int, old_perm[b] as int));
                } else if b == j {
                } else if a < j {
                    assert(stably_before(keys@, old_perm[a] as int, old_perm[b - 1] as int));
                } else if a == j {
                } else {
                    assert(stably_before(keys@, old_perm[a - 1] as int, old_perm[b - 1] as int));
                }
            }
        }
        i = i + 1;
    }
    perm
}

} // verus!
