//! The Magson magnetometer's stream of fixed-size frames.
use crate::double::{Double, Single};
use crate::packet;
use vstd::prelude::*;

verus! {

pub const MAGSON_FRAME_SIZE: usize = 72;

const MAGSON_DATA_TYPE: i64 = 1;

/// Frames that fail to parse in a row before the stream is treated as
/// misaligned rather than as carrying frame types that are not read here.
///
/// The link has no delimiter, so one lost byte shifts every boundary after it.
/// Frames of other types are legitimate and arrive aligned, so a single failure
/// is evidence of nothing; four in a row are. Hunting one byte at a time can
/// lock onto a `01 00 00 00` inside a payload, but that alignment then fails
/// four more times and the hunt resumes.
pub const RESYNC_AFTER_FAILURES: u32 = 4;

#[derive(Debug, Clone, Copy, PartialEq, Eq, Structural)]
pub struct MagsonSample {
    pub bx: Double,
    pub by: Double,
    pub bz: Double,
}

/// The single-precision number at `at`, in double precision.
pub open spec fn frame_number(frame: Seq<u8>, at: int) -> Double {
    Single { bits: packet::little_endian(frame.subrange(at, at + 4)) as u32 }.widened()
}

/// The sample in a frame: exactly 72 bytes, data type 1 in the first four, and
/// the field in the three words from byte 48 on, all low byte first.
pub open spec fn frame_sample(frame: Seq<u8>) -> Option<MagsonSample> {
    if frame.len() == MAGSON_FRAME_SIZE && packet::little_endian(frame.subrange(0, 4)) == 1 {
        Some(
            MagsonSample {
                bx: frame_number(frame, 48),
                by: frame_number(frame, 52),
                bz: frame_number(frame, 56),
            },
        )
    } else {
        None
    }
}

/// What a parser remembers between reads.
pub struct Stream {
    pub buffer: Seq<u8>,
    pub failures: nat,
    pub dropped: nat,
}

/// `count` one higher, up to `most`.
pub open spec fn counted(count: nat, most: nat) -> nat {
    if count < most {
        count + 1
    } else {
        most
    }
}

/// What is read from `stream`, and what is left of it: a good frame is a sample
/// and ends a run of failures; a bad one is dropped whole, and from the fourth
/// in a row on only one byte of it goes.
pub open spec fn read_frames(stream: Stream) -> (Seq<MagsonSample>, Stream)
    decreases stream.buffer.len(),
{
    if stream.buffer.len() < MAGSON_FRAME_SIZE {
        (Seq::empty(), stream)
    } else {
        match frame_sample(stream.buffer.take(MAGSON_FRAME_SIZE as int)) {
            Some(sample) => {
                let (samples, rest) = read_frames(
                    Stream {
                        buffer: stream.buffer.skip(MAGSON_FRAME_SIZE as int),
                        failures: 0,
                        dropped: stream.dropped,
                    },
                );
                (seq![sample] + samples, rest)
            },
            None => {
                let failures = counted(stream.failures, u32::MAX as nat);
                let step = if failures < RESYNC_AFTER_FAILURES {
                    MAGSON_FRAME_SIZE as int
                } else {
                    1
                };
                read_frames(
                    Stream {
                        buffer: stream.buffer.skip(step),
                        failures,
                        dropped: counted(stream.dropped, u64::MAX as nat),
                    },
                )
            },
        }
    }
}

/// The word at `at`, low byte first.
fn word_at(bytes: &[u8], at: usize) -> (result: u32)
    requires
        at + 4 <= bytes.len(),
    ensures
        result == packet::little_endian(bytes@.subrange(at as int, at + 4)),
{
    (bytes[at] as u32) + 0x100 * (bytes[at + 1] as u32) + 0x1_0000 * (bytes[at + 2] as u32)
        + 0x100_0000 * (bytes[at + 3] as u32)
}

/// The sample in one frame, if it holds one.
pub fn parse_magson_frame(frame: &[u8]) -> (result: Option<MagsonSample>)
    ensures
        result == frame_sample(frame@),
{
    if frame.len() != MAGSON_FRAME_SIZE || word_at(frame, 0) as i64 != MAGSON_DATA_TYPE {
        return None;
    }
    Some(
        MagsonSample {
            bx: Single::from_bits(word_at(frame, 48)).widen(),
            by: Single::from_bits(word_at(frame, 52)).widen(),
            bz: Single::from_bits(word_at(frame, 56)).widen(),
        },
    )
}

/// Finds frames in a byte stream that may be cut anywhere and may lose bytes.
#[derive(Debug, Clone)]
pub struct MagsonFrameParser {
    buffer: Vec<u8>,
    consecutive_failures: u32,
    dropped: u64,
}

impl View for MagsonFrameParser {
    type V = Stream;

    closed spec fn view(&self) -> Stream {
        Stream {
            buffer: self.buffer@,
            failures: self.consecutive_failures as nat,
            dropped: self.dropped as nat,
        }
    }
}

/// A stream on which nothing has arrived.
pub open spec fn fresh() -> Stream {
    Stream { buffer: Seq::empty(), failures: 0, dropped: 0 }
}

impl Default for MagsonFrameParser {
    fn default() -> (result: Self)
        ensures
            result@ == fresh(),
    {
        MagsonFrameParser { buffer: Vec::new(), consecutive_failures: 0, dropped: 0 }
    }
}

impl MagsonFrameParser {
    /// The samples that `bytes` completes, in the order in which they came.
    pub fn feed(&mut self, bytes: &[u8]) -> (result: Vec<MagsonSample>)
        ensures
            (result@, final(self)@) == read_frames(
                Stream { buffer: old(self)@.buffer + bytes@, ..old(self)@ },
            ),
    {
        let ghost start = Stream { buffer: self@.buffer + bytes@, ..self@ };
        self.buffer.extend_from_slice(bytes);
        let mut samples: Vec<MagsonSample> = Vec::new();
        let mut at: usize = 0;
        assert(self.buffer@.skip(0) =~= start.buffer);
        assert(samples@ + read_frames(start).0 =~= read_frames(start).0);
        while self.buffer.len() - at >= MAGSON_FRAME_SIZE
            invariant
                at <= self.buffer.len(),
                ({
                    let here = Stream {
                        buffer: self.buffer@.skip(at as int),
                        failures: self.consecutive_failures as nat,
                        dropped: self.dropped as nat,
                    };
                    read_frames(start) == (samples@ + read_frames(here).0, read_frames(here).1)
                }),
            decreases self.buffer.len() - at,
        {
            let ghost here = Stream {
                buffer: self.buffer@.skip(at as int),
                failures: self.consecutive_failures as nat,
                dropped: self.dropped as nat,
            };
            let ghost before = samples@;
            let frame: &[u8] = vstd::slice::slice_subrange(
                self.buffer.as_slice(),
                at,
                at + MAGSON_FRAME_SIZE,
            );
            assert(frame@ =~= here.buffer.take(MAGSON_FRAME_SIZE as int));
            match parse_magson_frame(frame) {
                Some(sample) => {
                    samples.push(sample);
                    at = at + MAGSON_FRAME_SIZE;
                    self.consecutive_failures = 0;
                    let ghost next = Stream {
                        buffer: self.buffer@.skip(at as int),
                        failures: 0,
                        dropped: self.dropped as nat,
                    };
                    assert(here.buffer.skip(MAGSON_FRAME_SIZE as int) =~= next.buffer);
                    assert(before + (seq![sample] + read_frames(next).0) =~= samples@
                        + read_frames(next).0);
                },
                None => {
                    self.dropped = self.dropped.saturating_add(1);
                    self.consecutive_failures = self.consecutive_failures.saturating_add(1);
                    let step: usize = if self.consecutive_failures < RESYNC_AFTER_FAILURES {
                        MAGSON_FRAME_SIZE
                    } else {
                        1
                    };
                    at = at + step;
                    assert(here.buffer.skip(step as int) =~= self.buffer@.skip(at as int));
                },
            }
        }
        let rest: Vec<u8> = self.buffer.split_off(at);
        self.buffer = rest;
        assert(samples@ + Seq::<MagsonSample>::empty() =~= samples@);
        samples
    }

    /// Frames read but not decoded since the last [`Self::reset`]: types that are
    /// not read here, and every window discarded while resynchronising.
    pub fn dropped(&self) -> (result: u64)
        ensures
            result == self@.dropped,
    {
        self.dropped
    }

    pub fn buffered_len(&self) -> (result: usize)
        ensures
            result == self@.buffer.len(),
    {
        self.buffer.len()
    }

    pub fn reset(&mut self)
        ensures
            final(self)@ == fresh(),
    {
        self.buffer = Vec::new();
        self.consecutive_failures = 0;
        self.dropped = 0;
    }
}

/// Where a read cuts the stream makes no difference: reading two pieces one
/// after the other gives what reading them at once gives.
pub proof fn law_cuts_do_not_matter(stream: Stream, more: Seq<u8>)
    ensures
        ({
            let (first, rest) = read_frames(stream);
            let (second, end) = read_frames(Stream { buffer: rest.buffer + more, ..rest });
            read_frames(Stream { buffer: stream.buffer + more, ..stream }) == (
                first + second,
                end,
            )
        }),
    decreases stream.buffer.len(),
{
    let whole = Stream { buffer: stream.buffer + more, ..stream };
    let (first, rest) = read_frames(stream);
    let (second, end) = read_frames(Stream { buffer: rest.buffer + more, ..rest });
    if stream.buffer.len() < MAGSON_FRAME_SIZE {
        assert(first + second =~= second);
    } else {
        let frame = stream.buffer.take(MAGSON_FRAME_SIZE as int);
        assert(whole.buffer.take(MAGSON_FRAME_SIZE as int) =~= frame);
        match frame_sample(frame) {
            Some(sample) => {
                let next = Stream {
                    buffer: stream.buffer.skip(MAGSON_FRAME_SIZE as int),
                    failures: 0,
                    dropped: stream.dropped,
                };
                law_cuts_do_not_matter(next, more);
                assert(whole.buffer.skip(MAGSON_FRAME_SIZE as int) =~= next.buffer + more);
                assert(first + second =~= seq![sample] + (read_frames(next).0 + second));
            },
            None => {
                let failures = counted(stream.failures, u32::MAX as nat);
                let step = if failures < RESYNC_AFTER_FAILURES {
                    MAGSON_FRAME_SIZE as int
                } else {
                    1
                };
                let next = Stream {
                    buffer: stream.buffer.skip(step),
                    failures,
                    dropped: counted(stream.dropped, u64::MAX as nat),
                };
                law_cuts_do_not_matter(next, more);
                assert(whole.buffer.skip(step) =~= next.buffer + more);
            },
        }
    }
}

/// The bytes of `frames` one after the other.
pub open spec fn concatenated(frames: Seq<Seq<u8>>) -> Seq<u8>
    decreases frames.len(),
{
    if frames.len() == 0 {
        Seq::empty()
    } else {
        frames[0] + concatenated(frames.skip(1))
    }
}

/// Whole frames among which, after `failures` bad ones, bad ones never come
/// four in a row.
pub open spec fn well_framed(frames: Seq<Seq<u8>>, failures: nat) -> bool
    decreases frames.len(),
{
    if frames.len() == 0 {
        true
    } else if frames[0].len() != MAGSON_FRAME_SIZE {
        false
    } else if frame_sample(frames[0]) is Some {
        well_framed(frames.skip(1), 0)
    } else {
        failures + 1 < RESYNC_AFTER_FAILURES && well_framed(frames.skip(1), failures + 1)
    }
}

/// The samples that `frames` hold, in order.
pub open spec fn samples_of(frames: Seq<Seq<u8>>) -> Seq<MagsonSample>
    decreases frames.len(),
{
    if frames.len() == 0 {
        Seq::empty()
    } else {
        match frame_sample(frames[0]) {
            Some(sample) => seq![sample] + samples_of(frames.skip(1)),
            None => samples_of(frames.skip(1)),
        }
    }
}

/// A few frames of another type do not shake the alignment: as long as bad
/// frames never come four in a row, every good one is read, and nothing is left
/// over.
pub proof fn law_well_framed_streams_are_read_whole(
    frames: Seq<Seq<u8>>,
    failures: nat,
    dropped: nat,
)
    requires
        well_framed(frames, failures),
        failures < RESYNC_AFTER_FAILURES,
    ensures
        read_frames(Stream { buffer: concatenated(frames), failures, dropped }).0 == samples_of(
            frames,
        ),
        read_frames(Stream { buffer: concatenated(frames), failures, dropped }).1.buffer.len() == 0,
    decreases frames.len(),
{
    let buffer = concatenated(frames);
    if frames.len() > 0 {
        let rest = concatenated(frames.skip(1));
        assert(buffer.take(MAGSON_FRAME_SIZE as int) =~= frames[0]);
        assert(buffer.skip(MAGSON_FRAME_SIZE as int) =~= rest);
        match frame_sample(frames[0]) {
            Some(_) => law_well_framed_streams_are_read_whole(frames.skip(1), 0, dropped),
            None => law_well_framed_streams_are_read_whole(
                frames.skip(1),
                failures + 1,
                counted(dropped, u64::MAX as nat),
            ),
        }
    }
}

} // verus!
