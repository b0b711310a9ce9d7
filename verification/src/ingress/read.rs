//! Incremental frame splitting for input without random access.
//!
//! A driver that can only read forward (a pipe) feeds each 512-byte header
//! record to a [`StreamSplitter`] as it arrives and acts on the returned
//! step: skip padding, read on to the next header of a multi-record entry,
//! or hand a completed frame's extent to the sketching and spooling stages.
//! [`plan_frame`] then says how a completed frame is cut into buffers. The
//! decisions here are proved to walk frames exactly as the random-access
//! splitter does; reading, spooling and timing stay with the driver.

use vstd::prelude::*;

use crate::ingress::map::spec_round_up_512;
use crate::ingress::map::spec_split;
use crate::ingress::MalformedInput;
use crate::ingress::MalformedKind;
use crate::tar;
use crate::tunables::BUFFER_CAP;
use crate::tunables::MAX_HEAD_AND_TAIL_LEN;
use crate::Bounds;

verus! {

/// What one header record means for the frame being assembled.
#[derive(Clone, Copy, Debug, PartialEq, Eq, Structural)]
pub enum HeaderStep {
    /// End-of-archive padding: no frame starts here.
    Padding,
    /// A metadata continuation record: the frame goes on, and the next
    /// header record begins at this absolute offset.
    Continue { next_header: usize },
    /// The final record of the frame: these are its bounds.
    Complete { bounds: Bounds },
}

/// The decision for the record `rec` read at offset `off`, with the current
/// frame reaching back to `frame_start`.
pub open spec fn spec_header_step(frame_start: int, off: int, rec: Seq<u8>) -> Result<
    HeaderStep,
    MalformedInput,
> {
    if tar::spec_is_null_record(rec) && frame_start == off {
        Ok(HeaderStep::Padding)
    } else {
        match tar::spec_parse_numeric(rec.subrange(124, 136)) {
            Err(_) => Err(
                MalformedInput { offset: (off + 124) as usize, kind: MalformedKind::BadLengthField },
            ),
            Ok(content_len) => {
                let frame_end = off + 512 + spec_round_up_512(content_len as int);
                if frame_end > usize::MAX {
                    Err(
                        MalformedInput {
                            offset: (off + 124) as usize,
                            kind: MalformedKind::TruncatedContent,
                        },
                    )
                } else if tar::spec_is_prefix_record(rec) {
                    Ok(HeaderStep::Continue { next_header: frame_end as usize })
                } else {
                    Ok(
                        HeaderStep::Complete {
                            bounds: Bounds { start: frame_start as usize, end: frame_end as usize },
                        },
                    )
                }
            },
        }
    }
}

/// Frame splitter for a forward-only stream, fed one header record at a
/// time.
pub struct StreamSplitter {
    frame_start: usize,
    offset: usize,
}

impl StreamSplitter {
    /// Offset where the frame currently being assembled began.
    pub closed spec fn spec_frame_start(self) -> usize {
        self.frame_start
    }

    /// Offset of the next header record the splitter expects.
    pub closed spec fn spec_offset(self) -> usize {
        self.offset
    }

    pub open spec fn wf(self) -> bool {
        self.spec_frame_start() <= self.spec_offset()
    }

    /// A splitter expecting the first record of the stream.
    pub fn new() -> (r: StreamSplitter)
        ensures
            r.wf(),
            r.spec_frame_start() == 0,
            r.spec_offset() == 0,
    {
        StreamSplitter { frame_start: 0, offset: 0 }
    }

    /// The absolute offset of the next expected header record, for a driver
    /// pacing its reads.
    pub fn offset(&self) -> (r: usize)
        ensures
            r == self.spec_offset(),
    {
        self.offset
    }

    /// Consumes the header record found at the expected offset and decides
    /// what it means, advancing past the record and its content.
    pub fn on_header(&mut self, header: &[u8]) -> (r: Result<HeaderStep, MalformedInput>)
        requires
            old(self).wf(),
            header@.len() == 512,
            old(self).spec_offset() + 512 <= usize::MAX,
        ensures
            final(self).wf(),
            r == spec_header_step(
                old(self).spec_frame_start() as int,
                old(self).spec_offset() as int,
                header@,
            ),
            r matches Ok(step) ==> match step {
                HeaderStep::Padding => final(self).spec_frame_start() == old(self).spec_offset()
                    + 512 && final(self).spec_offset() == old(self).spec_offset() + 512,
                HeaderStep::Continue { next_header } => final(self).spec_frame_start() == old(
                    self,
                ).spec_frame_start() && final(self).spec_offset() == next_header,
                HeaderStep::Complete { bounds } => bounds.start == old(self).spec_frame_start()
                    && bounds.end >= old(self).spec_offset() + 512 && final(self).spec_frame_start()
                    == bounds.end && final(self).spec_offset() == bounds.end,
            },
            r is Err ==> *final(self) == *old(self),
    {
        let rec = tar::Header(header);
        let off = self.offset;
        if rec.is_null() && self.frame_start == off {
            self.offset = off + 512;
            self.frame_start = self.offset;
            return Ok(HeaderStep::Padding);
        }
        let content_len = match rec.content_len() {
            Ok(x) => x,
            Err(_) => {
                return Err(
                    MalformedInput { offset: off + 124, kind: MalformedKind::BadLengthField },
                );
            },
        };
        let pad: u64 = (512 - (content_len % 512)) % 512;
        let ghost spec_end = off + 512 + spec_round_up_512(content_len as int);
        if content_len > u64::MAX - pad {
            proof {
                assert(spec_end > usize::MAX);
            }
            return Err(MalformedInput { offset: off + 124, kind: MalformedKind::TruncatedContent });
        }
        let rounded: u64 = content_len + pad;
        if rounded > ((usize::MAX - off - 512) as u64) {
            proof {
                assert(spec_end > usize::MAX);
            }
            return Err(MalformedInput { offset: off + 124, kind: MalformedKind::TruncatedContent });
        }
        let frame_end: usize = off + 512 + (rounded as usize);
        proof {
            assert(spec_end == frame_end as int);
        }
        self.offset = frame_end;
        if rec.is_prefix() {
            Ok(HeaderStep::Continue { next_header: frame_end })
        } else {
            let bounds = Bounds { start: self.frame_start, end: frame_end };
            self.frame_start = frame_end;
            Ok(HeaderStep::Complete { bounds })
        }
    }

    /// A read of zero bytes at the expected offset: clean end of input only
    /// when no frame is pending; otherwise the stream broke inside a
    /// multi-record entry.
    pub fn on_end_of_input(&self) -> (r: Result<(), MalformedInput>)
        requires
            self.wf(),
        ensures
            self.spec_frame_start() == self.spec_offset() ==> r is Ok,
            self.spec_frame_start() != self.spec_offset() ==> r == Err::<(), MalformedInput>(
                MalformedInput {
                    offset: self.spec_offset(),
                    kind: MalformedKind::TruncatedHeader,
                },
            ),
    {
        if self.frame_start == self.offset {
            Ok(())
        } else {
            Err(MalformedInput { offset: self.offset, kind: MalformedKind::TruncatedHeader })
        }
    }
}

/// How a completed frame of `frame_len` bytes is cut into pooled buffers.
#[derive(Clone, Copy, Debug, PartialEq, Eq, Structural)]
pub enum FramePlan {
    /// The whole frame fits in one buffer: read it all into the head buffer,
    /// spool a copy, and sketch it as head only.
    Small { total: usize },
    /// Head and tail do not overlap: fill a head buffer, stream the
    /// untouched middle to the spool in buffer-sized chunks, then read the
    /// tail into a fresh buffer.
    Large { head: usize, middle: usize, tail: usize },
}

/// Cuts a frame into reads: small frames are taken whole, large ones as a
/// head, an unsketched middle, and a tail of exactly the sketch cutoff.
pub fn plan_frame(frame_len: usize) -> (r: FramePlan)
    ensures
        frame_len <= BUFFER_CAP ==> r == (FramePlan::Small { total: frame_len }),
        frame_len > BUFFER_CAP ==> r == (FramePlan::Large {
            head: MAX_HEAD_AND_TAIL_LEN,
            middle: (frame_len - 2 * MAX_HEAD_AND_TAIL_LEN) as usize,
            tail: MAX_HEAD_AND_TAIL_LEN,
        }),
        (r matches FramePlan::Large { head, middle, tail } ==> head + middle + tail == frame_len
            && middle > 0),
{
    if frame_len <= BUFFER_CAP {
        FramePlan::Small { total: frame_len }
    } else {
        FramePlan::Large {
            head: MAX_HEAD_AND_TAIL_LEN,
            middle: frame_len - 2 * MAX_HEAD_AND_TAIL_LEN,
            tail: MAX_HEAD_AND_TAIL_LEN,
        }
    }
}

/// The streaming decisions walk an archive exactly as the random-access
/// splitter does: at any reachable state, the step taken on the record at
/// the current offset matches one unfolding of [`spec_split`], provided the
/// record's extent stays inside the input.
pub proof fn lemma_stream_step_matches_split(archive: Seq<u8>, frame_start: int, off: int)
    requires
        0 <= frame_start <= off,
        off + 512 <= archive.len() <= usize::MAX,
    ensures
        ({
            let rec = archive.subrange(off, off + 512);
            match spec_header_step(frame_start, off, rec) {
                Ok(step) => match step {
                    HeaderStep::Padding => spec_split(archive, frame_start, off) == spec_split(
                        archive,
                        off + 512,
                        off + 512,
                    ),
                    HeaderStep::Continue { next_header } => if next_header <= archive.len() {
                        spec_split(archive, frame_start, off) == spec_split(
                            archive,
                            frame_start,
                            next_header as int,
                        )
                    } else {
                        spec_split(archive, frame_start, off) == Err::<Seq<Bounds>, MalformedInput>(
                            MalformedInput {
                                offset: archive.len() as usize,
                                kind: MalformedKind::TruncatedContent,
                            },
                        )
                    },
                    HeaderStep::Complete { bounds } => if bounds.end <= archive.len() {
                        spec_split(archive, frame_start, off) == match spec_split(
                            archive,
                            bounds.end as int,
                            bounds.end as int,
                        ) {
                            Ok(rest) => Ok::<Seq<Bounds>, MalformedInput>(
                                Seq::<Bounds>::empty().push(bounds) + rest,
                            ),
                            Err(e) => Err::<Seq<Bounds>, MalformedInput>(e),
                        }
                    } else {
                        spec_split(archive, frame_start, off) == Err::<Seq<Bounds>, MalformedInput>(
                            MalformedInput {
                                offset: archive.len() as usize,
                                kind: MalformedKind::TruncatedContent,
                            },
                        )
                    },
                },
                Err(e) => if e.kind == MalformedKind::BadLengthField {
                    spec_split(archive, frame_start, off) == Err::<Seq<Bounds>, MalformedInput>(e)
                } else {
                    // extent overflow: the random-access walk sees the same
                    // truncation, at the end of its input
                    spec_split(archive, frame_start, off) == Err::<Seq<Bounds>, MalformedInput>(
                        MalformedInput {
                            offset: archive.len() as usize,
                            kind: MalformedKind::TruncatedContent,
                        },
                    )
                },
            }
        }),
{
    let rec = archive.subrange(off, off + 512);
    match tar::spec_parse_numeric(rec.subrange(124, 136)) {
        Err(_) => {},
        Ok(content_len) => {
            assert(content_len as int % 512 >= 0);
            assert(spec_round_up_512(content_len as int) >= 0);
        },
    }
}

} // verus!
