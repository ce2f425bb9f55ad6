use std::io::{Cursor, Read, Seek, SeekFrom};
use std::sync::Arc;

use hl::error::Error;
use hl::index::{stable_order, ts_range_less, Chronology, Index, OffsetPair, SourceBlock, SourceBlockStat};
use hl::input::{
    is_gzip, Block, BlockData, BlockLine, BlockLines, Blocks, IndexedInput, Input, InputHolder, InputReference,
    Strategy,
};

fn block(offset: u64, size: u32, lines: u64, ts: ((i64, u32), (i64, u32)), chronology: Chronology) -> SourceBlock {
    SourceBlock {
        offset,
        size,
        stat: SourceBlockStat {
            lines_valid: lines,
            lines_invalid: 0,
            ts_min_max: ts,
        },
        chronology,
    }
}

fn no_chronology() -> Chronology {
    Chronology {
        bitmap: vec![],
        offsets: vec![],
        jumps: vec![],
    }
}

fn ts(a: i64, b: i64) -> ((i64, u32), (i64, u32)) {
    ((a, 0), (b, 0))
}

fn collect<F, P>(mut lines: BlockLines<F, P>) -> Vec<Vec<u8>> {
    let mut out = Vec::new();
    while let Some(line) = lines.next() {
        out.push(line.bytes().to_vec());
    }
    out
}

fn two_block_input() -> (Vec<u8>, Index) {
    let mut data = b"line1\nline2\n".to_vec();
    data.resize(20, b' ');
    data.extend_from_slice(b"line3\n");
    let index = Index {
        blocks: vec![
            block(0, 20, 2, ts(1, 2), no_chronology()),
            block(20, 6, 1, ts(3, 4), no_chronology()),
        ],
    };
    (data, index)
}

#[test]
fn two_block_file_decodes_first_block_in_order() {
    let (data, index) = two_block_input();
    let input = IndexedInput::<()>::open_sequential(InputReference::Stdin, data.clone(), index);
    let mut blocks = input.into_blocks();
    assert_eq!(blocks.count(), 2);
    let b: Block<(), ()> = blocks.next().unwrap();
    assert_eq!(b.offset(), 0);
    assert_eq!(b.size(), 20);
    assert_eq!(b.lines_valid(), 2);
    let bytes = b.read_replay(&data).unwrap();
    let lines = collect(b.into_lines(bytes).unwrap());
    assert_eq!(lines, vec![b"line1\n".to_vec(), b"line2\n".to_vec()]);
}

#[test]
fn iteration_past_total_yields_nothing() {
    let (data, index) = two_block_input();
    let input = Arc::new(IndexedInput::<()>::open_sequential(InputReference::Stdin, data.clone(), index));
    let b: Block<(), ()> = Block::new(input, 0);
    let bytes = b.read_replay(&data).unwrap();
    let mut lines = b.into_lines(bytes).unwrap();
    assert_eq!(lines.count(), 2);
    assert!(lines.next().is_some());
    assert_eq!(lines.count(), 1);
    assert!(lines.next().is_some());
    assert_eq!(lines.count(), 0);
    assert!(lines.next().is_none());
    assert!(lines.next().is_none());
}

fn reordered_block() -> (Vec<u8>, SourceBlock) {
    // Stored: "second\n" at 0, "first\n" at 7, "third\n" at 13; true order: first, second, third.
    let data = b"second\nfirst\nthird\n".to_vec();
    let chronology = Chronology {
        bitmap: vec![0b111],
        offsets: vec![OffsetPair { bytes: 0, jumps: 0 }],
        jumps: vec![7, 0, 13],
    };
    let size = data.len() as u32;
    (data, block(0, size, 3, ts(0, 0), chronology))
}

#[test]
fn set_bits_read_jumps_in_order() {
    let (data, sb) = reordered_block();
    let input = Arc::new(IndexedInput::<()>::open_sequential(
        InputReference::Stdin,
        data.clone(),
        Index { blocks: vec![sb] },
    ));
    let b: Block<(), ()> = Block::new(input, 0);
    let lines = collect(b.into_lines(data).unwrap());
    assert_eq!(lines, vec![b"first\n".to_vec(), b"second\n".to_vec(), b"third\n".to_vec()]);
}

#[test]
fn decoded_lines_are_a_permutation_of_the_block() {
    let (data, sb) = reordered_block();
    let input = Arc::new(IndexedInput::<()>::open_sequential(
        InputReference::Stdin,
        data.clone(),
        Index { blocks: vec![sb] },
    ));
    let b: Block<(), ()> = Block::new(input, 0);
    let lines = collect(b.into_lines(data.clone()).unwrap());
    let mut joined: Vec<u8> = lines.concat();
    assert_eq!(joined.len(), data.len());
    let mut original = data.clone();
    joined.sort();
    original.sort();
    assert_eq!(joined, original);
}

#[test]
fn zero_bitmap_matches_newline_split() {
    let data = b"a\nbb\nccc\n".to_vec();
    let chronology = Chronology {
        bitmap: vec![0],
        offsets: vec![OffsetPair { bytes: 0, jumps: 0 }],
        jumps: vec![],
    };
    let input = Arc::new(IndexedInput::<()>::open_sequential(
        InputReference::Stdin,
        data.clone(),
        Index {
            blocks: vec![block(0, 9, 3, ts(0, 0), chronology)],
        },
    ));
    let b: Block<(), ()> = Block::new(input, 0);
    let lines = collect(b.into_lines(data.clone()).unwrap());
    let naive: Vec<Vec<u8>> = data.split_inclusive(|&x| x == b'\n').map(|s| s.to_vec()).collect();
    assert_eq!(lines, naive);
    assert_eq!(lines.concat(), data);
}

#[test]
fn last_line_without_newline_runs_to_block_end() {
    let data = b"x\nyz".to_vec();
    let input = Arc::new(IndexedInput::<()>::open_sequential(
        InputReference::Stdin,
        data.clone(),
        Index {
            blocks: vec![block(0, 4, 2, ts(0, 0), no_chronology())],
        },
    ));
    let b: Block<(), ()> = Block::new(input, 0);
    let mut lines = b.into_lines(data).unwrap();
    let first = lines.next().unwrap();
    assert_eq!(first.offset(), 0);
    assert_eq!(first.len(), 2);
    let second = lines.next().unwrap();
    assert_eq!(second.offset(), 2);
    assert_eq!(second.bytes(), b"yz");
}

#[test]
fn table_that_misses_a_window_stops_early() {
    let data = b"a\nb\n".to_vec();
    let chronology = Chronology {
        bitmap: vec![0],
        offsets: vec![],
        jumps: vec![],
    };
    let input = Arc::new(IndexedInput::<()>::open_sequential(
        InputReference::Stdin,
        data.clone(),
        Index {
            blocks: vec![block(0, 4, 2, ts(0, 0), chronology)],
        },
    ));
    let b: Block<(), ()> = Block::new(input, 0);
    let mut lines = b.into_lines(data).unwrap();
    assert!(lines.next().is_none());
    assert_eq!(lines.count(), 0);
}

#[test]
fn short_buffer_is_unexpected_eof() {
    let (data, index) = two_block_input();
    let input = Arc::new(IndexedInput::<()>::open_sequential(InputReference::Stdin, data, index));
    let b: Block<(), ()> = Block::new(input, 0);
    assert!(matches!(b.into_lines(vec![0u8; 5]), Err(Error::UnexpectedEof)));
}

#[test]
fn line_count_overflow_is_try_from_int_error() {
    let mut sb = block(0, 2, u64::MAX, ts(0, 0), no_chronology());
    sb.stat.lines_invalid = 1;
    let input = Arc::new(IndexedInput::<()>::open_sequential(
        InputReference::Stdin,
        b"a\n".to_vec(),
        Index { blocks: vec![sb] },
    ));
    let b: Block<(), ()> = Block::new(input, 0);
    assert!(matches!(b.into_lines(b"a\n".to_vec()), Err(Error::TryFromIntError)));
}

#[test]
fn replay_holds_exactly_the_recorded_bytes() {
    let (data, index) = two_block_input();
    let input = Arc::new(IndexedInput::<()>::open_sequential(InputReference::Stdin, data.clone(), index));
    match &input.stream {
        BlockData::Replay(r) => assert_eq!(r, &data),
        BlockData::Direct(_) => panic!("expected a replay buffer"),
    }
    let b: Block<(), ()> = Block::new(input.clone(), 1);
    assert_eq!(b.read_replay(&data).unwrap(), b"line3\n".to_vec());
    assert!(matches!(b.read_replay(&data[..22].to_vec()), Err(Error::UnexpectedEof)));
}

#[test]
fn gzip_path_is_refused_for_indexing() {
    match IndexedInput::<()>::strategy("logs/app.log.gz", true) {
        Err(Error::UnsupportedFormatForIndexing { path, format }) => {
            assert_eq!(path, "logs/app.log.gz");
            assert_eq!(format, "gzip");
        }
        _ => panic!("expected an unsupported format error"),
    }
}

#[test]
fn strategy_follows_seekability() {
    assert!(matches!(IndexedInput::<()>::strategy("app.log", true), Ok(Strategy::Direct)));
    assert!(matches!(IndexedInput::<()>::strategy("app.log", false), Ok(Strategy::Sequential)));
}

#[test]
fn gzip_detection_uses_the_extension() {
    assert!(is_gzip("a.gz"));
    assert!(is_gzip("dir/a.log.gz"));
    assert!(!is_gzip("a.log"));
    assert!(!is_gzip(".gz"));
    assert!(!is_gzip("a.gzip"));
}

#[test]
fn stdin_and_seekable_file_give_the_same_lines() {
    let (data, index) = two_block_input();
    let sequential = Arc::new(IndexedInput::<()>::open_sequential(InputReference::Stdin, data.clone(), index.clone()));
    let direct = Arc::new(IndexedInput::new(
        InputReference::File("app.log".to_string()),
        BlockData::Direct(std::sync::Mutex::new(Cursor::new(data.clone()))),
        index,
    ));
    for i in 0..2 {
        let a: Block<(), ()> = Block::new(sequential.clone(), i);
        let bytes_a = a.read_replay(&data).unwrap();
        let b: Block<_, ()> = Block::new(direct.clone(), i);
        let mut bytes_b = vec![0u8; b.size() as usize];
        if let BlockData::Direct(m) = &direct.stream {
            let mut s = m.lock().unwrap();
            s.seek(SeekFrom::Start(b.offset())).unwrap();
            s.read_exact(&mut bytes_b).unwrap();
        }
        assert_eq!(collect(a.into_lines(bytes_a).unwrap()), collect(b.into_lines(bytes_b).unwrap()));
    }
}

#[test]
fn sorting_orders_blocks_by_timestamps_stably() {
    let index = Index {
        blocks: vec![
            block(0, 0, 0, ts(5, 6), no_chronology()),
            block(0, 0, 0, ts(1, 9), no_chronology()),
            block(0, 0, 0, ts(5, 6), no_chronology()),
            block(0, 0, 0, ts(1, 3), no_chronology()),
        ],
    };
    let input = IndexedInput::<()>::open_sequential(InputReference::Stdin, vec![], index);
    let mut sorted = input.into_blocks().sorted();
    let mut order = Vec::new();
    while let Some(b) = sorted.next::<()>() {
        order.push(b.index);
    }
    assert_eq!(order, vec![3, 1, 0, 2]);
}

#[test]
fn stable_order_keeps_equal_keys_in_place() {
    let keys = vec![ts(2, 0), ts(1, 0), ts(2, 0), ((1, 5), (0, 0)), ts(0, 0)];
    assert_eq!(stable_order(&keys), vec![4, 1, 3, 0, 2]);
    assert!(ts_range_less(ts(1, 2), ts(1, 3)));
    assert!(!ts_range_less(ts(1, 3), ts(1, 3)));
    assert!(ts_range_less(((1, 0), (9, 0)), ((1, 1), (0, 0))));
}

#[test]
fn nth_skips_blocks() {
    let (data, index) = two_block_input();
    let input = Arc::new(IndexedInput::<()>::open_sequential(InputReference::Stdin, data, index));
    let mut blocks = Blocks::new(input.clone(), vec![1, 0, 1]);
    let b = blocks.nth::<()>(1).unwrap();
    assert_eq!(b.index, 0);
    assert_eq!(blocks.count(), 1);
    assert!(blocks.nth::<()>(1).is_none());
    assert_eq!(blocks.count(), 0);
}

#[test]
fn block_with_pool_keeps_its_place() {
    let (data, index) = two_block_input();
    let input = Arc::new(IndexedInput::<()>::open_sequential(InputReference::Stdin, data, index));
    let b: Block<(), Vec<u8>> = Block::new(input, 1).with_buf_pool(Arc::new(Vec::new()));
    assert_eq!(b.offset(), 20);
    assert!(b.buf_pool.is_some());
    assert_eq!(b.source_block().size, 6);
}

#[test]
fn descriptions_name_the_input() {
    assert_eq!(InputReference::Stdin.description(), "<stdin>");
    assert_eq!(
        InputReference::File("a.log".to_string()).description(),
        "file '\u{1b}[33ma.log\u{1b}[0m'"
    );
}

#[test]
fn holders_keep_what_they_are_given() {
    let h = InputHolder::new(InputReference::Stdin, Some(5u8));
    assert_eq!(h.stream, Some(5));
    let i = Input::new(InputReference::File("f".to_string()), 7u8);
    assert_eq!(i.stream, 7);
    let line = BlockLine::new(Arc::new(b"abc".to_vec()), 1..3);
    assert_eq!(line.bytes(), b"bc");
    assert_eq!(line.len(), 2);
}

#[test]
fn failure_messages_name_the_input() {
    assert_eq!(
        InputReference::Stdin.failure_message("read", "broken pipe"),
        "failed to read <stdin>: broken pipe"
    );
    assert_eq!(
        InputReference::File("x".to_string()).failure_message("open", "not found"),
        "failed to open file '\u{1b}[33mx\u{1b}[0m': not found"
    );
}

#[test]
fn concat_reader_moves_on_when_a_source_is_exhausted() {
    let mut r: hl::input::ConcatReader<std::vec::IntoIter<u8>, u8> = hl::input::ConcatReader::new(vec![1u8].into_iter());
    assert!(r.needs_source());
    r.set_source(Input::new(InputReference::Stdin, 3u8));
    assert!(!r.needs_source());
    assert_eq!(r.on_read(4), Some(4));
    assert!(!r.needs_source());
    assert_eq!(r.on_read(0), None);
    assert!(r.needs_source());
}
