//! Scanning an archive that is fully addressable as one byte slice.
//!
//! Header lengths are self-describing, so splitting must consume records
//! strictly in order; sketching each discovered frame is independent work a
//! driver may hand to worker threads, re-sorting emitted frames by
//! `bounds.start` if archive order matters.

use vstd::prelude::*;

use crate::ingress::shingleprint_frame;
use crate::ingress::spec_frame_sketched;
use crate::ingress::Frame;
use crate::ingress::MalformedInput;
use crate::ingress::MalformedKind;
use crate::shingleprint::hash::HashTables;
use crate::tar;
use crate::Bounds;

verus! {

/// `n` rounded up to the next multiple of a 512-byte record.
pub open spec fn spec_round_up_512(n: int) -> int {
    n + ((512 - n % 512) % 512)
}

/// The frame ranges of `archive` from offset `off` on, with the frame under
/// construction reaching back to `frame_start`.
///
/// One step per physical record: a record of 512 zero bytes exactly at a
/// frame start is end-of-archive padding and is skipped; a metadata
/// continuation record extends the current frame over its content; any other
/// record closes the frame at the end of its padded content. A record or
/// content reaching past the end of the input, or an unreadable length
/// field, stops the walk with the offending offset.
pub open spec fn spec_split(archive: Seq<u8>, frame_start: int, off: int) -> Result<
    Seq<Bounds>,
    MalformedInput,
>
    recommends
        0 <= frame_start <= off <= archive.len() <= usize::MAX,
    decreases archive.len() - off,
{
    let len = archive.len() as int;
    if off >= len {
        if frame_start == off {
            Ok(Seq::<Bounds>::empty())
        } else {
            Err(MalformedInput { offset: off as usize, kind: MalformedKind::TruncatedHeader })
        }
    } else if off + 512 > len {
        Err(MalformedInput { offset: off as usize, kind: MalformedKind::TruncatedHeader })
    } else {
        let rec = archive.subrange(off, off + 512);
        if tar::spec_is_null_record(rec) && frame_start == off {
            spec_split(archive, off + 512, off + 512)
        } else {
            match tar::spec_parse_numeric(rec.subrange(124, 136)) {
                Err(_) => Err(
                    MalformedInput {
                        offset: (off + 124) as usize,
                        kind: MalformedKind::BadLengthField,
                    },
                ),
                Ok(content_len) => {
                    let frame_end = off + 512 + spec_round_up_512(content_len as int);
                    if frame_end > len {
                        Err(
                            MalformedInput {
                                offset: len as usize,
                                kind: MalformedKind::TruncatedContent,
                            },
                        )
                    } else if tar::spec_is_prefix_record(rec) {
                        spec_split(archive, frame_start, frame_end)
                    } else {
                        match spec_split(archive, frame_end, frame_end) {
                            Ok(rest) => Ok(
                                Seq::<Bounds>::empty().push(
                                    Bounds { start: frame_start as usize, end: frame_end as usize },
                                ) + rest,
                            ),
                            Err(e) => Err(e),
                        }
                    }
                },
            }
        }
    }
}

/// Every range the walk emits is well formed, begins no earlier than the
/// current frame start, and stays inside the archive.
pub proof fn lemma_spec_split_ranges(archive: Seq<u8>, frame_start: int, off: int)
    requires
        0 <= frame_start <= off <= archive.len(),
        archive.len() <= usize::MAX,
    ensures
        spec_split(archive, frame_start, off) matches Ok(bs) ==> forall|i: int|
            0 <= i < bs.len() ==> frame_start <= (#[trigger] bs[i]).start <= bs[i].end
                <= archive.len(),
    decreases archive.len() - off,
{
    let len = archive.len() as int;
    if off >= len {
    } else if off + 512 > len {
    } else {
        let rec = archive.subrange(off, off + 512);
        if tar::spec_is_null_record(rec) && frame_start == off {
            lemma_spec_split_ranges(archive, off + 512, off + 512);
        } else {
            match tar::spec_parse_numeric(rec.subrange(124, 136)) {
                Err(_) => {},
                Ok(content_len) => {
                    let frame_end = off + 512 + spec_round_up_512(content_len as int);
                    assert(content_len as int % 512 >= 0);
                    if frame_end > len {
                    } else if tar::spec_is_prefix_record(rec) {
                        lemma_spec_split_ranges(archive, frame_start, frame_end);
                    } else {
                        lemma_spec_split_ranges(archive, frame_end, frame_end);
                        let tail_result = spec_split(archive, frame_end, frame_end);
                        if tail_result is Ok {
                            let rest = tail_result->Ok_0;
                            let head = Bounds {
                                start: frame_start as usize,
                                end: frame_end as usize,
                            };
                            let bs = Seq::<Bounds>::empty().push(head) + rest;
                            assert(bs[0] == head);
                            assert(forall|i: int| 1 <= i < bs.len() ==> bs[i] == rest[i - 1]);
                        }
                    }
                },
            }
        }
    }
}

/// The ranges the walk emits come back in archive order, without overlap:
/// each frame ends no later than the next one begins. A consumer receiving
/// frames out of order from concurrent sketching can therefore restore
/// archive order by sorting on `start` alone.
pub proof fn lemma_spec_split_ordered(archive: Seq<u8>, frame_start: int, off: int)
    requires
        0 <= frame_start <= off <= archive.len(),
        archive.len() <= usize::MAX,
    ensures
        spec_split(archive, frame_start, off) matches Ok(bs) ==> forall|i: int, j: int|
            0 <= i < j < bs.len() ==> (#[trigger] bs[i]).end <= (#[trigger] bs[j]).start,
    decreases archive.len() - off,
{
    let len = archive.len() as int;
    if off >= len {
    } else if off + 512 > len {
    } else {
        let rec = archive.subrange(off, off + 512);
        if tar::spec_is_null_record(rec) && frame_start == off {
            lemma_spec_split_ordered(archive, off + 512, off + 512);
        } else {
            match tar::spec_parse_numeric(rec.subrange(124, 136)) {
                Err(_) => {},
                Ok(content_len) => {
                    let frame_end = off + 512 + spec_round_up_512(content_len as int);
                    assert(content_len as int % 512 >= 0);
                    if frame_end > len {
                    } else if tar::spec_is_prefix_record(rec) {
                        lemma_spec_split_ordered(archive, frame_start, frame_end);
                    } else {
                        lemma_spec_split_ordered(archive, frame_end, frame_end);
                        lemma_spec_split_ranges(archive, frame_end, frame_end);
                        let tail_result = spec_split(archive, frame_end, frame_end);
                        if tail_result is Ok {
                            let rest = tail_result->Ok_0;
                            let head = Bounds {
                                start: frame_start as usize,
                                end: frame_end as usize,
                            };
                            let bs = Seq::<Bounds>::empty().push(head) + rest;
                            assert(bs[0] == head);
                            assert(forall|i: int| 1 <= i < bs.len() ==> bs[i] == rest[i - 1]);
                            assert forall|i: int, j: int| 0 <= i < j < bs.len() implies (
                            #[trigger] bs[i]).end <= (#[trigger] bs[j]).start by {
                                if i == 0 {
                                    assert(rest[j - 1].start >= frame_end);
                                } else {
                                    assert(rest[i - 1].end <= rest[j - 1].start);
                                }
                            }
                        }
                    }
                },
            }
        }
    }
}

/// Scanning strategy for random-access input: the whole archive content is
/// at hand as one slice.
pub struct MapStrategy<'m> {
    archive_content: &'m [u8],
}

impl<'m> View for MapStrategy<'m> {
    type V = Seq<u8>;

    closed spec fn view(&self) -> Seq<u8> {
        self.archive_content@
    }
}

impl<'m> MapStrategy<'m> {
    pub fn new(archive_content: &'m [u8]) -> (r: Self)
        ensures
            r@ == archive_content@,
    {
        Self { archive_content }
    }

    /// Walks the archive's records in order and returns every logical frame
    /// range, exactly as [`spec_split`] describes from offset zero.
    pub fn split_frames(&self) -> (r: Result<Vec<Bounds>, MalformedInput>)
        ensures
            match r {
                Ok(v) => spec_split(self@, 0, 0) == Ok::<Seq<Bounds>, MalformedInput>(v@),
                Err(e) => spec_split(self@, 0, 0) == Err::<Seq<Bounds>, MalformedInput>(e),
            },
    {
        let archive = self.archive_content;
        let len = archive.len();
        let mut out: Vec<Bounds> = Vec::new();
        let mut frame_start: usize = 0;
        let mut off: usize = 0;
        while off < len
            invariant
                0 <= frame_start <= off <= len,
                len == archive@.len(),
                archive@ == self@,
                spec_split(self@, 0, 0) == match spec_split(
                    self@,
                    frame_start as int,
                    off as int,
                ) {
                    Ok(rest) => Ok::<Seq<Bounds>, MalformedInput>(out@ + rest),
                    Err(e) => Err::<Seq<Bounds>, MalformedInput>(e),
                },
            decreases len - off,
        {
            if len - off < 512 {
                return Err(
                    MalformedInput { offset: off, kind: MalformedKind::TruncatedHeader },
                );
            }
            let rec = vstd::slice::slice_subrange(archive, off, off + 512);
            let header = tar::Header(rec);
            if header.is_null() && frame_start == off {
                // end-of-archive padding: skip one record, start no frame
                off = off + 512;
                frame_start = off;
                continue;
            }
            let content_len = match header.content_len() {
                Ok(x) => x,
                Err(_) => {
                    return Err(
                        MalformedInput { offset: off + 124, kind: MalformedKind::BadLengthField },
                    );
                },
            };
            let remaining: u64 = ((len - off) - 512) as u64;
            let ghost spec_end = off + 512 + spec_round_up_512(content_len as int);
            if content_len > remaining {
                return Err(MalformedInput { offset: len, kind: MalformedKind::TruncatedContent });
            }
            let pad: u64 = (512 - (content_len % 512)) % 512;
            if pad > remaining - content_len {
                return Err(MalformedInput { offset: len, kind: MalformedKind::TruncatedContent });
            }
            let frame_end: usize = off + 512 + ((content_len + pad) as usize);
            proof {
                assert(spec_end == frame_end as int);
                assert(frame_end <= len);
            }
            if !header.is_prefix() {
                let ghost out_before = out@;
                out.push(Bounds { start: frame_start, end: frame_end });
                proof {
                    assert(out@ =~= out_before + Seq::<Bounds>::empty().push(
                        Bounds { start: frame_start, end: frame_end },
                    ));
                    let tail_result = spec_split(self@, frame_end as int, frame_end as int);
                    if tail_result is Ok {
                        let rest = tail_result->Ok_0;
                        assert(out_before + (Seq::<Bounds>::empty().push(
                            Bounds { start: frame_start, end: frame_end },
                        ) + rest) =~= out@ + rest);
                    }
                }
                frame_start = frame_end;
            }
            off = frame_end;
        }
        if frame_start == off {
            Ok(out)
        } else {
            Err(MalformedInput { offset: off, kind: MalformedKind::TruncatedHeader })
        }
    }

    /// Splits the archive and sketches every frame, in archive order.
    ///
    /// Exactly the frames of [`spec_split`] come back, each sketched by the
    /// head/tail rule; the first malformation stops the scan with its
    /// offset.
    pub fn scan(&self) -> (r: Result<Vec<Frame>, MalformedInput>)
        ensures
            match r {
                Ok(frames) => spec_split(self@, 0, 0) matches Ok(bs) && frames@.len() == bs.len()
                    && (forall|i: int|
                    0 <= i < bs.len() ==> (#[trigger] frames@[i]).bounds == bs[i]
                        && spec_frame_sketched(self@, frames@[i])),
                Err(e) => spec_split(self@, 0, 0) == Err::<Seq<Bounds>, MalformedInput>(e),
            },
    {
        let archive_len = self.archive_content.len();
        assert(self@.len() == archive_len);
        let bounds = match self.split_frames() {
            Ok(b) => b,
            Err(e) => {
                return Err(e);
            },
        };
        proof {
            lemma_spec_split_ranges(self@, 0, 0);
        }
        let tables = HashTables::new();
        let mut frames: Vec<Frame> = Vec::new();
        let mut i: usize = 0;
        while i < bounds.len()
            invariant
                0 <= i <= bounds@.len(),
                tables.wf(),
                spec_split(self@, 0, 0) == Ok::<Seq<Bounds>, MalformedInput>(bounds@),
                forall|j: int|
                    0 <= j < bounds@.len() ==> 0 <= (#[trigger] bounds@[j]).start <= bounds@[j].end
                        <= self@.len(),
                frames@.len() == i,
                forall|j: int|
                    0 <= j < i ==> (#[trigger] frames@[j]).bounds == bounds@[j]
                        && spec_frame_sketched(self@, frames@[j]),
            decreases bounds@.len() - i,
        {
            let b = bounds[i];
            let f = shingleprint_frame(&tables, self.archive_content, b);
            frames.push(f);
            i += 1;
        }
        Ok(frames)
    }
}

} // verus!
