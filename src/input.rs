use std::ops::Range;
use std::sync::Arc;
use vstd::prelude::*;

use crate::error::Error;
use crate::lemmas::lemma_line_end_bounds;
use crate::index::{
    is_stable_order, line_end, line_range, line_start, stable_order, state_before, Chronology,
    Index, OffsetPair, SourceBlock, Timestamp, WINDOW_BITS,
};

verus! {

/// Where the bytes of an indexed source's blocks are read from.
pub enum BlockData<F> {
    /// A seekable stream, read at each block's offset.
    Direct(F),
    /// Bytes recorded while the source was indexed in one pass.
    Replay(Vec<u8>),
}

/// A source together with its index.
pub struct IndexedInput<F> {
    pub reference: InputReference,
    pub stream: BlockData<F>,
    pub index: Index,
}

/// Identity of an input.
#[derive(Clone, Debug)]
pub enum InputReference {
    Stdin,
    File(String),
}

/// The text `s` as a terminal shows it in yellow.
pub open spec fn yellow(s: Seq<char>) -> Seq<char> {
    seq!['\x1b', '[', '3', '3', 'm'] + s + seq!['\x1b', '[', '0', 'm']
}

/// Relies on nu_ansi_term's `Color::Yellow.paint`: displayed, it is the text between
/// the code that turns the foreground yellow and the code that resets the style.
#[verifier::external_body]
fn paint_yellow(s: &str) -> (r: String)
    ensures
        r@ == yellow(s@),
{
    nu_ansi_term::Color::Yellow.paint(s).to_string()
}

/// Extension of the file name of a path.
pub uninterp spec fn extension_of(path: Seq<char>) -> Option<Seq<char>>;

/// Relies on std's `Path::extension`: the extension of the path's file name, which
/// depends on the path alone.
#[verifier::external_body]
fn path_extension(path: &str) -> (r: Option<String>)
    ensures
        match r {
            Some(e) => extension_of(path@) == Some(e@),
            None => extension_of(path@) is None,
        },
{
    std::path::Path::new(path).extension().map(|e| e.to_string_lossy().into_owned())
}

/// Whether the path names a gzip-compressed file.
pub open spec fn is_gzip_path(path: Seq<char>) -> bool {
    extension_of(path) == Some(seq!['g', 'z'])
}

/// Whether the path's extension marks it as gzip-compressed.
pub fn is_gzip(path: &str) -> (r: bool)
    ensures
        r == is_gzip_path(path@),
{
    match path_extension(path) {
        Some(e) => {
            let gz = String::from_str("gz");
            proof {
                reveal_strlit("gz");
                assert("gz"@ =~= seq!['g', 'z']);
            }
            e == gz
        },
        None => false,
    }
}

impl InputReference {
    pub open spec fn description_spec(&self) -> Seq<char> {
        match self {
            InputReference::Stdin => seq!['<', 's', 't', 'd', 'i', 'n', '>'],
            InputReference::File(path) => seq!['f', 'i', 'l', 'e', ' ', '\''] + yellow(path@) + seq!['\''],
        }
    }

    /// The name of the input as diagnostics show it.
    pub fn description(&self) -> (r: String)
        ensures
            r@ == self.description_spec(),
    {
        match self {
            InputReference::Stdin => {
                proof {
                    reveal_strlit("<stdin>");
                }
                String::from_str("<stdin>")
            },
            InputReference::File(path) => {
                let mut r = String::from_str("file '");
                r.append(paint_yellow(path.as_str()).as_str());
                r.append("'");
                proof {
                    reveal_strlit("file '");
                    reveal_strlit("'");
                }
                r
            },
        }
    }

    /// The diagnostic for a failure to `action` this input, caused by `cause`:
    /// `failed to <action> <description>: <cause>`.
    pub fn failure_message(&self, action: &str, cause: &str) -> (r: String)
        ensures
            r@ == seq!['f', 'a', 'i', 'l', 'e', 'd', ' ', 't', 'o', ' '] + action@ + seq![' ']
                + self.description_spec() + seq![':', ' '] + cause@,
    {
        let mut r = String::from_str("failed to ");
        r.append(action);
        r.append(" ");
        r.append(self.description().as_str());
        r.append(": ");
        r.append(cause);
        proof {
            reveal_strlit("failed to ");
            reveal_strlit(" ");
            reveal_strlit(": ");
        }
        r
    }
}

/// How an input is indexed.
#[derive(Clone, Copy, Debug, PartialEq, Eq)]
pub enum Strategy {
    /// The source is seekable: blocks are read in place.
    Direct,
    /// The source is read once and recorded: blocks are read from the record.
    Sequential,
}

/// An input not yet read, with the stream opened for it if any.
pub struct InputHolder<S> {
    pub reference: InputReference,
    pub stream: Option<S>,
}

impl<S> InputHolder<S> {
    pub fn new(reference: InputReference, stream: Option<S>) -> (r: Self)
        ensures
            r.reference == reference,
            r.stream == stream,
    {
        InputHolder { reference, stream }
    }
}

/// An input opened for reading from start to end.
pub struct Input<R> {
    pub reference: InputReference,
    pub stream: R,
}

impl<R> Input<R> {
    pub fn new(reference: InputReference, stream: R) -> (r: Self)
        ensures
            r.reference == reference,
            r.stream == stream,
    {
        Input { reference, stream }
    }
}

/// Several inputs read one after another as one stream.
pub struct ConcatReader<I, R> {
    pub iter: I,
    pub item: Option<Input<R>>,
}

impl<I, R> ConcatReader<I, R> {
    pub fn new(iter: I) -> (r: Self)
        ensures
            r.iter == iter,
            r.item is None,
    {
        ConcatReader { iter, item: None }
    }

    /// Whether the next read must first move on to the next source.
    pub fn needs_source(&self) -> (r: bool)
        ensures
            r == self.item is None,
    {
        self.item.is_none()
    }

    /// Makes `input` the source that reads come from.
    pub fn set_source(&mut self, input: Input<R>)
        ensures
            final(self).item == Some(input),
            final(self).iter == old(self).iter,
    {
        self.item = Some(input);
    }

    /// Takes the outcome of a read of `n` bytes from the current source: a count to
    /// hand to the caller, or `None` where the source is exhausted and is let go.
    pub fn on_read(&mut self, n: usize) -> (r: Option<usize>)
        ensures
            final(self).iter == old(self).iter,
            n != 0 ==> r == Some(n) && final(self).item == old(self).item,
            n == 0 ==> r is None && final(self).item is None,
    {
        if n != 0 {
            Some(n)
        } else {
            self.item = None;
            None
        }
    }
}

impl<F> IndexedInput<F> {
    pub fn new(reference: InputReference, stream: BlockData<F>, index: Index) -> (r: Self)
        ensures
            r.reference == reference,
            r.stream == stream,
            r.index == index,
    {
        IndexedInput { reference, stream, index }
    }

    /// How a file at `path` is indexed, given whether its stream can seek.
    pub fn strategy(path: &str, seekable: bool) -> (r: Result<Strategy, Error>)
        ensures
            is_gzip_path(path@) ==> (r matches Err(Error::UnsupportedFormatForIndexing { path: p, format: f })
                && p@ == path@ && f@ == seq!['g', 'z', 'i', 'p']),
            !is_gzip_path(path@) && seekable ==> r == Ok::<Strategy, Error>(Strategy::Direct),
            !is_gzip_path(path@) && !seekable ==> r == Ok::<Strategy, Error>(Strategy::Sequential),
    {
        if is_gzip(path) {
            proof {
                reveal_strlit("gzip");
            }
            return Err(Error::UnsupportedFormatForIndexing {
                path: String::from_str(path),
                format: String::from_str("gzip"),
            });
        }
        if seekable {
            Ok(Strategy::Direct)
        } else {
            Ok(Strategy::Sequential)
        }
    }

    /// An input indexed in one pass, whose blocks are read from `recorded`, the bytes
    /// that the pass consumed.
    pub fn open_sequential(reference: InputReference, recorded: Vec<u8>, index: Index) -> (r: Self)
        ensures
            r.reference == reference,
            r.stream == BlockData::<F>::Replay(recorded),
            r.index == index,
    {
        IndexedInput { reference, stream: BlockData::Replay(recorded), index }
    }

    /// The blocks of this input in index order.
    pub fn into_blocks(self) -> (r: Blocks<F>)
        ensures
            r.wf(),
            *r.input == self,
            r.remaining() == Seq::new(self.index.blocks@.len(), |k: int| k as usize),
    {
        let n = self.index.blocks.len();
        let mut indexes: Vec<usize> = Vec::new();
        let mut k: usize = 0;
        while k < n
            invariant
                k <= n,
                n == self.index.blocks@.len(),
                indexes@ == Seq::new(k as nat, |t: int| t as usize),
            decreases n - k,
        {
            indexes.push(k);
            k = k + 1;
            assert(indexes@ =~= Seq::new(k as nat, |t: int| t as usize));
        }
        Blocks::new(Arc::new(self), indexes)
    }
}

/// The block order of a sort by `ts_min_max`: `after` is `before` reordered by `perm`.
pub open spec fn sorted_with(blocks: Seq<SourceBlock>, before: Seq<usize>, after: Seq<usize>, perm: Seq<usize>) -> bool {
    &&& is_stable_order(before.map_values(|k: usize| blocks[k as int].stat.ts_min_max), perm)
    &&& after == perm.map_values(|p: usize| before[p as int])
}

/// `after` holds the blocks of `before` in stable ascending order of `ts_min_max`.
pub open spec fn stably_sorted(blocks: Seq<SourceBlock>, before: Seq<usize>, after: Seq<usize>) -> bool {
    exists|perm: Seq<usize>| #[trigger] sorted_with(blocks, before, after, perm)
}

/// A sequence of blocks of one indexed input.
pub struct Blocks<F> {
    pub input: Arc<IndexedInput<F>>,
    pub indexes: Vec<usize>,
    pub pos: usize,
}

impl<F> Blocks<F> {
    pub open spec fn wf(&self) -> bool {
        &&& self.pos <= self.indexes@.len()
        &&& forall|k: int| 0 <= k < self.indexes@.len() ==> self.indexes@[k] < self.input.index.blocks@.len()
    }

    /// Indexes of the blocks still to come.
    pub open spec fn remaining(&self) -> Seq<usize> {
        self.indexes@.subrange(self.pos as int, self.indexes@.len() as int)
    }

    pub fn new(input: Arc<IndexedInput<F>>, indexes: Vec<usize>) -> (r: Self)
        requires
            forall|k: int| 0 <= k < indexes@.len() ==> indexes@[k] < input.index.blocks@.len(),
        ensures
            r.wf(),
            r.input == input,
            r.remaining() == indexes@,
    {
        let r = Blocks { input, indexes, pos: 0 };
        assert(r.remaining() =~= r.indexes@);
        r
    }

    /// The remaining blocks, stably ordered by `ts_min_max`.
    pub fn sorted(self) -> (r: Self)
        requires
            self.wf(),
        ensures
            r.wf(),
            r.input == self.input,
            stably_sorted(self.input.index.blocks@, self.remaining(), r.remaining()),
    {
        let ghost blocks = self.input.index.blocks@;
        let ghost before = self.remaining();
        let mut keys: Vec<(Timestamp, Timestamp)> = Vec::new();
        let mut k: usize = self.pos;
        while k < self.indexes.len()
            invariant
                self.wf(),
                blocks == self.input.index.blocks@,
                before == self.remaining(),
                self.pos <= k <= self.indexes@.len(),
                keys@ == before.subrange(0, k - self.pos).map_values(|t: usize| blocks[t as int].stat.ts_min_max),
            decreases self.indexes@.len() - k,
        {
            let t = self.indexes[k];
            keys.push(self.input.index.blocks[t].stat.ts_min_max);
            k = k + 1;
            assert(keys@ =~= before.subrange(0, k - self.pos).map_values(|t: usize| blocks[t as int].stat.ts_min_max));
        }
        assert(before.subrange(0, before.len() as int) =~= before);
        let perm = stable_order(&keys);
        let mut out: Vec<usize> = Vec::new();
        let mut a: usize = 0;
        while a < perm.len()
            invariant
                self.wf(),
                blocks == self.input.index.blocks@,
                before == self.remaining(),
                is_stable_order(keys@, perm@),
                keys@.len() == before.len(),
                a <= perm@.len(),
                out@ == perm@.subrange(0, a as int).map_values(|p: usize| before[p as int]),
                forall|q: int| 0 <= q < out@.len() ==> out@[q] < blocks.len(),
            decreases perm@.len() - a,
        {
            let p = perm[a];
            assert(p < keys@.len());
            assert(before.len() == self.indexes@.len() - self.pos);
            let n = self.indexes.len();
            assert(self.pos + p < n);
            let t = self.indexes[self.pos + p];
            out.push(t);
            a = a + 1;
            assert(out@ =~= perm@.subrange(0, a as int).map_values(|p: usize| before[p as int]));
        }
        assert(perm@.subrange(0, perm@.len() as int) =~= perm@);
        assert(sorted_with(blocks, before, out@, perm@));
        Blocks::new(self.input, out)
    }

    /// Number of blocks still to come.
    pub fn count(&self) -> (r: usize)
        requires
            self.wf(),
        ensures
            r == self.remaining().len(),
    {
        self.indexes.len() - self.pos
    }

    /// The next block, if any.
    pub fn next<P>(&mut self) -> (r: Option<Block<F, P>>)
        requires
            old(self).wf(),
        ensures
            final(self).wf(),
            final(self).input == old(self).input,
            old(self).remaining().len() == 0 ==> r is None && final(self).remaining() == old(self).remaining(),
            old(self).remaining().len() > 0 ==> (r matches Some(b) && b.wf() && b.input == old(self).input
                && b.index == old(self).remaining()[0] && b.buf_pool is None
                && final(self).remaining() == old(self).remaining().drop_first()),
    {
        if self.pos >= self.indexes.len() {
            return None;
        }
        let i = self.indexes[self.pos];
        self.pos = self.pos + 1;
        assert(self.remaining() =~= old(self).remaining().drop_first());
        Some(Block::new(self.input.clone(), i))
    }

    /// Skips `n` blocks and returns the one after them, if any.
    pub fn nth<P>(&mut self, n: usize) -> (r: Option<Block<F, P>>)
        requires
            old(self).wf(),
        ensures
            final(self).wf(),
            final(self).input == old(self).input,
            n >= old(self).remaining().len() ==> r is None && final(self).remaining().len() == 0,
            n < old(self).remaining().len() ==> (r matches Some(b) && b.wf() && b.input == old(self).input
                && b.index == old(self).remaining()[n as int] && b.buf_pool is None
                && final(self).remaining() == old(self).remaining().subrange(n + 1, old(self).remaining().len() as int)),
    {
        let left = self.indexes.len() - self.pos;
        if n >= left {
            self.pos = self.indexes.len();
            return None;
        }
        self.pos = self.pos + n;
        let i = self.indexes[self.pos];
        self.pos = self.pos + 1;
        assert(self.remaining() =~= old(self).remaining().subrange(n + 1, old(self).remaining().len() as int));
        Some(Block::new(self.input.clone(), i))
    }
}

/// One block of an indexed source.
pub struct Block<F, P> {
    pub input: Arc<IndexedInput<F>>,
    pub index: usize,
    pub buf_pool: Option<Arc<P>>,
}

impl<F, P> Block<F, P> {
    pub open spec fn wf(&self) -> bool {
        self.index < self.input.index.blocks@.len()
    }

    pub open spec fn source_block_spec(&self) -> SourceBlock {
        self.input.index.blocks@[self.index as int]
    }

    pub fn new(input: Arc<IndexedInput<F>>, index: usize) -> (r: Self)
        requires
            index < input.index.blocks@.len(),
        ensures
            r.input == input,
            r.index == index,
            r.buf_pool is None,
            r.wf(),
    {
        Block { input, index, buf_pool: None }
    }

    /// The same block, with buffers for its bytes to be taken from `buf_pool`.
    pub fn with_buf_pool(self, buf_pool: Arc<P>) -> (r: Self)
        ensures
            r.input == self.input,
            r.index == self.index,
            r.buf_pool == Some(buf_pool),
    {
        Block { input: self.input, index: self.index, buf_pool: Some(buf_pool) }
    }

    pub fn source_block(&self) -> (r: &SourceBlock)
        requires
            self.wf(),
        ensures
            *r == self.source_block_spec(),
    {
        &self.input.index.blocks[self.index]
    }

    pub fn offset(&self) -> (r: u64)
        requires
            self.wf(),
        ensures
            r == self.source_block_spec().offset,
    {
        self.source_block().offset
    }

    pub fn size(&self) -> (r: u32)
        requires
            self.wf(),
        ensures
            r == self.source_block_spec().size,
    {
        self.source_block().size
    }

    pub fn lines_valid(&self) -> (r: u64)
        requires
            self.wf(),
        ensures
            r == self.source_block_spec().stat.lines_valid,
    {
        self.source_block().stat.lines_valid
    }

    /// The bytes of this block as recorded from a source read in one pass.
    pub fn read_replay(&self, recorded: &Vec<u8>) -> (r: Result<Vec<u8>, Error>)
        requires
            self.wf(),
        ensures
            self.source_block_spec().offset + self.source_block_spec().size <= recorded@.len() ==>
                (r matches Ok(v) && v@ == recorded@.subrange(
                    self.source_block_spec().offset as int,
                    self.source_block_spec().offset + self.source_block_spec().size,
                )),
            self.source_block_spec().offset + self.source_block_spec().size > recorded@.len() ==>
                r matches Err(Error::UnexpectedEof),
    {
        let sb = self.source_block();
        let len = recorded.len();
        if sb.offset > len as u64 || sb.size as u64 > len as u64 - sb.offset {
            return Err(Error::UnexpectedEof);
        }
        let start = sb.offset as usize;
        let end = start + sb.size as usize;
        let mut v: Vec<u8> = Vec::new();
        let mut k: usize = start;
        while k < end
            invariant
                start <= k <= end <= recorded@.len(),
                v@ == recorded@.subrange(start as int, k as int),
            decreases end - k,
        {
            v.push(recorded[k]);
            k = k + 1;
            assert(v@ =~= recorded@.subrange(start as int, k as int));
        }
        Ok(v)
    }

    /// Decodes the lines of this block from `buf`, its bytes as read from the source.
    pub fn into_lines(self, buf: Vec<u8>) -> (r: Result<BlockLines<F, P>, Error>)
        requires
            self.wf(),
        ensures
            BlockLines::<F, P>::new_result(self, buf@, r),
    {
        BlockLines::new(self, buf)
    }
}

/// A line of a block: a range of the block's shared buffer.
pub struct BlockLine {
    pub buf: Arc<Vec<u8>>,
    pub range: Range<usize>,
}

impl BlockLine {
    pub open spec fn wf(&self) -> bool {
        self.range.start <= self.range.end <= self.buf@.len()
    }

    pub open spec fn bytes_spec(&self) -> Seq<u8> {
        self.buf@.subrange(self.range.start as int, self.range.end as int)
    }

    pub fn new(buf: Arc<Vec<u8>>, range: Range<usize>) -> (r: Self)
        ensures
            r.buf == buf,
            r.range == range,
    {
        BlockLine { buf, range }
    }

    pub fn bytes(&self) -> (r: &[u8])
        requires
            self.wf(),
        ensures
            r@ == self.bytes_spec(),
    {
        vstd::slice::slice_subrange(self.buf.as_slice(), self.range.start, self.range.end)
    }

    pub fn offset(&self) -> (r: usize)
        ensures
            r == self.range.start,
    {
        self.range.start
    }

    pub fn len(&self) -> (r: usize)
        requires
            self.wf(),
        ensures
            r == self.range.end - self.range.start,
    {
        self.range.end - self.range.start
    }
}

/// The lines of one block, in chronological order.
pub struct BlockLines<F, P> {
    pub block: Block<F, P>,
    pub buf: Arc<Vec<u8>>,
    pub total: usize,
    pub current: usize,
    pub byte: usize,
    pub jump: usize,
}

/// Position just past the first newline of `buf` at or after `start`, or its length.
fn find_line_end(buf: &Vec<u8>, start: usize) -> (r: usize)
    requires
        start <= buf@.len(),
    ensures
        r == line_end(buf@, start as int),
{
    let mut k: usize = start;
    while k < buf.len()
        invariant
            start <= k <= buf@.len(),
            line_end(buf@, start as int) == line_end(buf@, k as int),
        decreases buf@.len() - k,
    {
        if buf[k] == 10u8 {
            return k + 1;
        }
        k = k + 1;
    }
    k
}

impl<F, P> BlockLines<F, P> {
    pub open spec fn chronology(&self) -> Chronology {
        self.block.source_block_spec().chronology
    }

    pub open spec fn wf(&self) -> bool {
        &&& self.block.wf()
        &&& self.buf@.len() == self.block.source_block_spec().size
        &&& self.total == self.block.source_block_spec().total_lines()
        &&& self.current <= self.total
        &&& self.byte <= self.buf@.len()
        &&& self.current < self.total ==> state_before(self.buf@, self.chronology(), self.current as nat)
            == Some((self.byte as int, self.jump as int))
    }

    /// What [`BlockLines::new`] returns for `block` and the bytes `buf`.
    pub open spec fn new_result(block: Block<F, P>, buf: Seq<u8>, r: Result<BlockLines<F, P>, Error>) -> bool {
        let sb = block.source_block_spec();
        if buf.len() != sb.size {
            r matches Err(Error::UnexpectedEof)
        } else if sb.total_lines() > usize::MAX {
            r matches Err(Error::TryFromIntError)
        } else {
            r matches Ok(l) && l.wf() && l.block == block && l.buf@ == buf && l.current == 0
                && l.total == sb.total_lines()
        }
    }

    /// Starts decoding `block`, whose bytes as read from the source are `buf`.
    pub fn new(block: Block<F, P>, buf: Vec<u8>) -> (r: Result<Self, Error>)
        requires
            block.wf(),
        ensures
            Self::new_result(block, buf@, r),
    {
        let sb = block.source_block();
        if buf.len() != sb.size as usize {
            return Err(Error::UnexpectedEof);
        }
        let total = match sb.stat.lines_valid.checked_add(sb.stat.lines_invalid) {
            Some(t) => t,
            None => {
                return Err(Error::TryFromIntError);
            },
        };
        if total > usize::MAX as u64 {
            return Err(Error::TryFromIntError);
        }
        let r = BlockLines {
            block,
            buf: Arc::new(buf),
            total: total as usize,
            current: 0,
            byte: 0,
            jump: 0,
        };
        Ok(r)
    }

    /// Number of lines not yet produced.
    pub fn count(&self) -> (r: usize)
        requires
            self.wf(),
        ensures
            r == self.total - self.current,
    {
        self.total - self.current
    }

    /// Produces the next line in chronological order.
    ///
    /// Stops early, leaving no line to come, where the table does not cover the line.
    pub fn next(&mut self) -> (r: Option<BlockLine>)
        requires
            old(self).wf(),
        ensures
            final(self).wf(),
            final(self).block == old(self).block,
            final(self).buf == old(self).buf,
            final(self).total == old(self).total,
            old(self).current >= old(self).total ==> r is None && final(self).current == old(self).current,
            old(self).current < old(self).total ==> match line_range(
                old(self).buf@,
                old(self).chronology(),
                old(self).current as nat,
            ) {
                None => r is None && final(self).current == final(self).total,
                Some((s, e)) => r matches Some(line) && line.buf == old(self).buf && line.wf()
                    && line.range.start == s && line.range.end == e
                    && final(self).current == old(self).current + 1,
            },
    {
        if self.current >= self.total {
            return None;
        }
        let ghost c = self.chronology();
        let ghost buf_view = self.buf@;
        let len = self.buf.len();
        let sb = self.block.source_block();
        let bitmap = &sb.chronology.bitmap;
        let mut b: u64 = self.byte as u64;
        let mut j: usize = self.jump;
        if bitmap.len() != 0 {
            let n = self.current / WINDOW_BITS;
            let m = self.current % WINDOW_BITS;
            if n >= bitmap.len() {
                self.current = self.total;
                return None;
            }
            if m == 0 {
                if n >= sb.chronology.offsets.len() {
                    self.current = self.total;
                    return None;
                }
                let o: OffsetPair = sb.chronology.offsets[n];
                b = o.bytes;
                j = o.jumps as usize;
            }
            if bitmap[n] & (1u64 << (m as u64)) != 0 {
                if j >= sb.chronology.jumps.len() {
                    self.current = self.total;
                    return None;
                }
                b = sb.chronology.jumps[j];
                j = j + 1;
            }
        }
        if b > len as u64 {
            self.current = self.total;
            return None;
        }
        let s = b as usize;
        assert(line_start(c, len as int, self.byte as int, self.jump as int, self.current as int)
            == Some((s as int, j as int)));
        let e = find_line_end(&self.buf, s);
        proof {
            lemma_line_end_bounds(buf_view, s as int);
        }
        self.byte = e;
        self.jump = j;
        self.current = self.current + 1;
        assert(state_before(buf_view, c, self.current as nat) == Some((e as int, j as int)));
        Some(BlockLine::new(self.buf.clone(), s..e))
    }
}

} // verus!
