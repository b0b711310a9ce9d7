use shingleprint::ingress::map::MapStrategy;
use shingleprint::ingress::read::plan_frame;
use shingleprint::ingress::read::FramePlan;
use shingleprint::ingress::read::HeaderStep;
use shingleprint::ingress::read::StreamSplitter;
use shingleprint::ingress::MalformedKind;
use shingleprint::tunables::BUFFER_CAP;
use shingleprint::tunables::MAX_HEAD_AND_TAIL_LEN;
use shingleprint::Bounds;

fn header(first_name_byte: u8, type_flag: u8, content_len: u64) -> Vec<u8> {
    let mut rec = vec![0u8; 512];
    rec[0] = first_name_byte;
    let field = format!("{:011o}\x00", content_len);
    rec[124..136].copy_from_slice(field.as_bytes());
    rec[156] = type_flag;
    rec
}

fn padded(len: u64) -> usize {
    (len as usize + 511) / 512 * 512
}

/// A synthetic archive: one small entry, one entry preceded by a GNU
/// long-name record, and trailing all-zero padding sectors.
fn synthetic_archive() -> Vec<u8> {
    let mut archive = Vec::new();
    // small entry: 5 bytes of content, padded to one record
    archive.extend_from_slice(&header(b'a', b'0', 5));
    let mut content = b"hello".to_vec();
    content.resize(padded(5), 0);
    archive.extend_from_slice(&content);
    // long-name continuation record carrying a 20-byte name
    archive.extend_from_slice(&header(b'.', b'L', 20));
    archive.extend_from_slice(&vec![b'n'; padded(20)]);
    // the entry it names: 600 bytes of content, padded to two records
    archive.extend_from_slice(&header(b'b', b'0', 600));
    archive.extend_from_slice(&vec![b'x'; padded(600)]);
    // trailing zero sectors
    archive.extend_from_slice(&vec![0u8; 1024]);
    archive
}

#[test]
fn split_merges_continuations_and_skips_padding() {
    let archive = synthetic_archive();
    let strategy = MapStrategy::new(&archive);
    let frames = strategy.split_frames().unwrap();
    assert_eq!(
        frames,
        vec![Bounds { start: 0, end: 1024 }, Bounds { start: 1024, end: 3584 }],
    );
}

#[test]
fn split_empty_archive() {
    let strategy = MapStrategy::new(b"");
    assert_eq!(strategy.split_frames().unwrap(), Vec::<Bounds>::new());
    let all_zero = vec![0u8; 2048];
    let strategy = MapStrategy::new(&all_zero);
    assert_eq!(strategy.split_frames().unwrap(), Vec::<Bounds>::new());
}

#[test]
fn split_zero_name_and_flag_with_nonzero_length_is_an_entry() {
    // name byte and type flag are zero but the record is not all zero: it
    // is a real entry with zero-length content, never padding
    let mut archive = vec![0u8; 512];
    archive[124..136].copy_from_slice(b"00000000000\x00");
    let frames = MapStrategy::new(&archive).split_frames().unwrap();
    assert_eq!(frames, vec![Bounds { start: 0, end: 512 }]);
}

#[test]
fn split_reports_truncated_header() {
    let archive = vec![b'a'; 100];
    let err = MapStrategy::new(&archive).split_frames().unwrap_err();
    assert_eq!(err.kind, MalformedKind::TruncatedHeader);
    assert_eq!(err.offset, 0);
}

#[test]
fn split_reports_bad_length_field() {
    let mut rec = header(b'a', b'0', 5);
    rec[130] = b'z';
    let err = MapStrategy::new(&rec).split_frames().unwrap_err();
    assert_eq!(err.kind, MalformedKind::BadLengthField);
    assert_eq!(err.offset, 124);
}

#[test]
fn split_reports_truncated_content() {
    // the header promises 1024 bytes of content that never arrive
    let mut archive = header(b'a', b'0', 1024);
    archive.extend_from_slice(&[b'x'; 512]);
    let err = MapStrategy::new(&archive).split_frames().unwrap_err();
    assert_eq!(err.kind, MalformedKind::TruncatedContent);
    assert_eq!(err.offset, archive.len());
}

#[test]
fn split_reports_dangling_continuation() {
    // a long-name record whose owner entry never follows
    let mut archive = header(b'.', b'L', 20);
    archive.extend_from_slice(&vec![b'n'; 512]);
    let err = MapStrategy::new(&archive).split_frames().unwrap_err();
    assert_eq!(err.kind, MalformedKind::TruncatedHeader);
    assert_eq!(err.offset, archive.len());
}

#[test]
fn scan_sketches_every_frame() {
    let archive = synthetic_archive();
    let frames = MapStrategy::new(&archive).scan().unwrap();
    assert_eq!(frames.len(), 2);
    assert_eq!(frames[0].bounds, Bounds { start: 0, end: 1024 });
    assert_eq!(frames[1].bounds, Bounds { start: 1024, end: 3584 });
    // both frames are below the head/tail cutoff: one shared sketch
    assert!(1024 <= MAX_HEAD_AND_TAIL_LEN);
    assert_eq!(frames[0].head_sp, frames[0].tail_sp);
    assert_eq!(frames[1].head_sp, frames[1].tail_sp);
    assert_ne!(frames[0].head_sp, frames[1].head_sp);
}

#[test]
fn scan_large_frame_gets_separate_head_and_tail() {
    // content well past the cutoff: the head and tail sketches are
    // independent, over the first and last MAX_HEAD_AND_TAIL_LEN bytes
    let content_len = (3 * MAX_HEAD_AND_TAIL_LEN) as u64;
    let mut archive = header(b'a', b'0', content_len);
    let mut content = vec![b'h'; content_len as usize];
    let half = content.len() / 2;
    for b in &mut content[half..] {
        *b = b't';
    }
    archive.extend_from_slice(&content);
    let frames = MapStrategy::new(&archive).scan().unwrap();
    assert_eq!(frames.len(), 1);
    assert_eq!(frames[0].bounds, Bounds { start: 0, end: archive.len() });
    assert_ne!(frames[0].head_sp, frames[0].tail_sp);
}

#[test]
fn stream_splitter_agrees_with_mapped_split() {
    let archive = synthetic_archive();
    let expected = MapStrategy::new(&archive).split_frames().unwrap();
    let mut splitter = StreamSplitter::new();
    let mut bounds = Vec::new();
    let mut off: usize = 0;
    while off < archive.len() {
        match splitter.on_header(&archive[off..off + 512]).unwrap() {
            HeaderStep::Padding => {
                off += 512;
            }
            HeaderStep::Continue { next_header } => {
                off = next_header;
            }
            HeaderStep::Complete { bounds: b } => {
                off = b.end;
                bounds.push(b);
            }
        }
    }
    splitter.on_end_of_input().unwrap();
    assert_eq!(bounds, expected);
}

#[test]
fn stream_splitter_rejects_dangling_continuation() {
    let rec = header(b'.', b'L', 20);
    let mut splitter = StreamSplitter::new();
    match splitter.on_header(&rec).unwrap() {
        HeaderStep::Continue { next_header } => assert_eq!(next_header, 1024),
        other => panic!("expected a continuation, got {:?}", other),
    }
    let err = splitter.on_end_of_input().unwrap_err();
    assert_eq!(err.kind, MalformedKind::TruncatedHeader);
    assert_eq!(err.offset, 1024);
}

#[test]
fn plan_frame_cuts() {
    assert_eq!(plan_frame(100), FramePlan::Small { total: 100 });
    assert_eq!(plan_frame(BUFFER_CAP), FramePlan::Small { total: BUFFER_CAP });
    assert_eq!(
        plan_frame(BUFFER_CAP + 1),
        FramePlan::Large { head: MAX_HEAD_AND_TAIL_LEN, middle: 1, tail: MAX_HEAD_AND_TAIL_LEN },
    );
}
