//! The capture file format: a header of three little-endian `u32` values
//! (width, height, bytes per pixel) followed by frame records, each the raw
//! framebuffer bytes of one frame and the four little-endian bytes of the
//! `f32` time it took to grab it.
//!
//! The time is kept here as the bit pattern of the `f32`, exactly as it is
//! stored in the file.
use vstd::prelude::*;

verus! {

/// Length of the capture header in bytes.
pub const HEADER_LEN: usize = 12;

/// Errors met while reading a capture file.
#[derive(Debug, Clone, Copy, PartialEq, Eq, Structural)]
pub enum CaptureError {
    /// The data is shorter than the twelve header bytes.
    MissingHeader,
    /// `height * width * depth` does not fit in a `u32`.
    FrameSizeOverflow,
    /// A frame's pixel bytes are present but its four time bytes are not.
    TruncatedTimestamp,
    /// A frame holds fewer than two bytes, too few to hold a pixel.
    FrameTooSmall,
}

/// What a frame holds: its pixels (alpha removed, red and blue swapped) and
/// the bit pattern of its capture time.
pub ghost struct FrameView {
    pub pixels: Seq<u8>,
    pub time_bits: u32,
}

/// What a capture file holds.
pub ghost struct CaptureView {
    pub width: u32,
    pub height: u32,
    pub depth: u32,
    pub frames: Seq<FrameView>,
}

/// A frame's pixel data and the bit pattern of the `f32` time taken to get it.
#[derive(Debug)]
pub struct Frame {
    data: Vec<u8>,
    pub time_bits: u32,
}

impl View for Frame {
    type V = FrameView;

    closed spec fn view(&self) -> FrameView {
        FrameView { pixels: self.data@, time_bits: self.time_bits }
    }
}

impl Frame {
    /// A frame with the given pixels and time bits.
    pub fn new(data: Vec<u8>, time_bits: u32) -> (f: Frame)
        ensures
            f@ == (FrameView { pixels: data@, time_bits }),
    {
        Frame { data, time_bits }
    }

    /// The frame's pixel bytes, three per pixel, in red, green, blue order.
    pub fn data(&self) -> (d: &[u8])
        ensures
            d@ == self@.pixels,
    {
        self.data.as_slice()
    }
}

/// Data parsed from a capture file.
#[derive(Debug)]
pub struct CaptureFile {
    pub height: u32,
    pub width: u32,
    pub depth: u32,
    pub frames: Vec<Frame>,
}

impl View for CaptureFile {
    type V = CaptureView;

    open spec fn view(&self) -> CaptureView {
        CaptureView {
            width: self.width,
            height: self.height,
            depth: self.depth,
            frames: self.frames@.map_values(|f: Frame| f@),
        }
    }
}

/// The little-endian value of the four bytes of `s` that start at `i`.
pub open spec fn le_u32_at(s: Seq<u8>, i: int) -> int {
    s[i] + 256 * s[i + 1] + 65536 * s[i + 2] + 16777216 * s[i + 3]
}

/// The bytes whose index is not 3 modulo 4, in order: every fourth byte,
/// the alpha channel of a 4-byte pixel, is dropped.
pub open spec fn alpha_removed(s: Seq<u8>) -> Seq<u8>
    decreases s.len(),
{
    if s.len() == 0 {
        Seq::empty()
    } else if (s.len() - 1) % 4 == 3 {
        alpha_removed(s.drop_last())
    } else {
        alpha_removed(s.drop_last()).push(s.last())
    }
}

/// `s` with the first and third byte of each complete 3-byte group exchanged.
pub open spec fn red_blue_swapped(s: Seq<u8>) -> Seq<u8> {
    Seq::new(
        s.len(),
        |j: int|
            if j % 3 == 0 && j + 2 < s.len() {
                s[j + 2]
            } else if j % 3 == 2 {
                s[j - 2]
            } else {
                s[j]
            },
    )
}

/// The pixels that a frame's raw framebuffer bytes become.
pub open spec fn frame_pixels(raw: Seq<u8>) -> Seq<u8> {
    red_blue_swapped(alpha_removed(raw))
}

/// Prepends `prefix` to a successful result; an error stays as it is.
pub open spec fn prepend_frames(
    prefix: Seq<FrameView>,
    r: Result<Seq<FrameView>, CaptureError>,
) -> Result<Seq<FrameView>, CaptureError> {
    match r {
        Ok(rest) => Ok(prefix + rest),
        Err(e) => Err(e),
    }
}

/// The frames read from `data` starting at offset `start`, each `fs` bytes
/// of pixels followed by four time bytes. Reading stops at the first frame
/// whose pixel bytes do not all fit.
pub open spec fn frames_from(data: Seq<u8>, start: nat, fs: nat) -> Result<
    Seq<FrameView>,
    CaptureError,
>
    decreases data.len() - start,
{
    if start + fs > data.len() {
        Ok(Seq::empty())
    } else if start + fs + 4 > data.len() {
        Err(CaptureError::TruncatedTimestamp)
    } else if fs < 2 {
        Err(CaptureError::FrameTooSmall)
    } else {
        let frame = FrameView {
            pixels: frame_pixels(data.subrange(start as int, (start + fs) as int)),
            time_bits: le_u32_at(data, (start + fs) as int) as u32,
        };
        prepend_frames(seq![frame], frames_from(data, start + fs + 4, fs))
    }
}

/// What a capture file with contents `data` reads as.
pub open spec fn parse_capture(data: Seq<u8>) -> Result<CaptureView, CaptureError> {
    if data.len() < 12 {
        Err(CaptureError::MissingHeader)
    } else {
        let w = le_u32_at(data, 0);
        let h = le_u32_at(data, 4);
        let d = le_u32_at(data, 8);
        if h * w > u32::MAX || h * w * d > u32::MAX {
            Err(CaptureError::FrameSizeOverflow)
        } else {
            match frames_from(data, 12, (h * w * d) as nat) {
                Ok(frames) => Ok(
                    CaptureView { width: w as u32, height: h as u32, depth: d as u32, frames },
                ),
                Err(e) => Err(e),
            }
        }
    }
}

/// The four little-endian bytes of `v`.
pub open spec fn le_bytes(v: u32) -> Seq<u8> {
    seq![
        (v % 256) as u8,
        ((v / 256) % 256) as u8,
        ((v / 65536) % 256) as u8,
        (v / 16777216) as u8,
    ]
}

/// The header of a capture file.
pub open spec fn header_bytes(width: u32, height: u32, depth: u32) -> Seq<u8> {
    le_bytes(width) + le_bytes(height) + le_bytes(depth)
}

/// One frame record: the frame's raw bytes, then its time bits.
pub open spec fn record_bytes(frame: Seq<u8>, time_bits: u32) -> Seq<u8> {
    frame + le_bytes(time_bits)
}

/// The frame records, one after another.
pub open spec fn records_bytes(records: Seq<(Seq<u8>, u32)>) -> Seq<u8>
    decreases records.len(),
{
    if records.len() == 0 {
        Seq::empty()
    } else {
        record_bytes(records[0].0, records[0].1) + records_bytes(records.drop_first())
    }
}

/// A whole capture file: header, then frame records.
pub open spec fn capture_bytes(
    width: u32,
    height: u32,
    depth: u32,
    records: Seq<(Seq<u8>, u32)>,
) -> Seq<u8> {
    header_bytes(width, height, depth) + records_bytes(records)
}

/// The frame that a record becomes once read back.
pub open spec fn record_frame(record: (Seq<u8>, u32)) -> FrameView {
    FrameView { pixels: frame_pixels(record.0), time_bits: record.1 }
}

proof fn lemma_le_bytes_value(v: u32)
    ensures
        le_u32_at(le_bytes(v), 0) == v,
        le_bytes(v).len() == 4,
{
    let b = le_bytes(v);
    assert(b[0] == v % 256);
    assert(b[1] == (v / 256) % 256);
    assert(b[2] == (v / 65536) % 256);
    assert(b[3] == v / 16777216);
}

proof fn lemma_le_read_in(s: Seq<u8>, i: int, v: u32)
    requires
        0 <= i,
        i + 4 <= s.len(),
        s.subrange(i, i + 4) == le_bytes(v),
    ensures
        le_u32_at(s, i) == v,
{
    lemma_le_bytes_value(v);
    let b = le_bytes(v);
    assert(s[i] == s.subrange(i, i + 4)[0]);
    assert(s[i + 1] == s.subrange(i, i + 4)[1]);
    assert(s[i + 2] == s.subrange(i, i + 4)[2]);
    assert(s[i + 3] == s.subrange(i, i + 4)[3]);
}

proof fn lemma_frames_from_records(
    data: Seq<u8>,
    start: nat,
    fs: nat,
    records: Seq<(Seq<u8>, u32)>,
)
    requires
        start <= data.len(),
        data.subrange(start as int, data.len() as int) == records_bytes(records),
        fs >= 2,
        forall|i: int| 0 <= i < records.len() ==> #[trigger] records[i].0.len() == fs,
    ensures
        frames_from(data, start, fs) == Ok::<Seq<FrameView>, CaptureError>(
            records.map_values(|r: (Seq<u8>, u32)| record_frame(r)),
        ),
    decreases records.len(),
{
    let rest = data.subrange(start as int, data.len() as int);
    let st: int = start as int;
    let f: int = fs as int;
    if records.len() == 0 {
        assert(rest.len() == 0);
        assert(records.map_values(|r: (Seq<u8>, u32)| record_frame(r)) =~= Seq::empty());
    } else {
        let r0 = records[0];
        let tail = records.drop_first();
        lemma_le_bytes_value(r0.1);
        assert(r0.0.len() == fs);
        let rec = record_bytes(r0.0, r0.1);
        assert(rest == rec + records_bytes(tail));
        assert(data.len() >= st + f + 4);
        assert(data.subrange(st, st + f) =~= r0.0) by {
            assert forall|k: int| 0 <= k < f implies data.subrange(st, st + f)[k]
                == r0.0[k] by {
                assert(data[st + k] == rest[k]);
                assert(rest[k] == rec[k]);
            }
        }
        assert(data.subrange(st + f, st + f + 4) =~= le_bytes(r0.1)) by {
            assert forall|k: int| 0 <= k < 4 implies data.subrange(st + f, st + f + 4)[k]
                == le_bytes(r0.1)[k] by {
                assert(data[st + f + k] == rest[f + k]);
                assert(rest[f + k] == rec[f + k]);
            }
        }
        lemma_le_read_in(data, st + f, r0.1);
        let next = (start + fs + 4) as nat;
        assert(data.subrange(next as int, data.len() as int) =~= records_bytes(tail)) by {
            assert forall|k: int| 0 <= k < records_bytes(tail).len() implies data.subrange(
                next as int,
                data.len() as int,
            )[k] == records_bytes(tail)[k] by {
                assert(data[next + k] == rest[rec.len() + k]);
            }
        }
        assert forall|i: int| 0 <= i < tail.len() implies #[trigger] tail[i].0.len() == fs by {
            assert(tail[i] == records[i + 1]);
        }
        lemma_frames_from_records(data, next, fs, tail);
        let mapped = records.map_values(|r: (Seq<u8>, u32)| record_frame(r));
        let mapped_tail = tail.map_values(|r: (Seq<u8>, u32)| record_frame(r));
        assert(seq![record_frame(r0)] + mapped_tail =~= mapped);
    }
}

/// What the recorder writes is what the compiler reads back: a capture file
/// made of a header for `width`, `height`, `depth` and of records whose frames
/// each hold `width * height * depth` bytes reads as exactly those
/// dimensions and, in order, one frame per record, holding the record's
/// pixels with alpha removed and red and blue swapped, and its time bits.
pub proof fn lemma_capture_round_trip(
    width: u32,
    height: u32,
    depth: u32,
    records: Seq<(Seq<u8>, u32)>,
)
    requires
        height * width <= u32::MAX,
        height * width * depth <= u32::MAX,
        height * width * depth >= 2,
        forall|i: int|
            0 <= i < records.len() ==> #[trigger] records[i].0.len() == height * width * depth,
    ensures
        parse_capture(capture_bytes(width, height, depth, records)) == Ok::<
            CaptureView,
            CaptureError,
        >(
            CaptureView {
                width,
                height,
                depth,
                frames: records.map_values(|r: (Seq<u8>, u32)| record_frame(r)),
            },
        ),
{
    let data = capture_bytes(width, height, depth, records);
    let hb = header_bytes(width, height, depth);
    lemma_le_bytes_value(width);
    lemma_le_bytes_value(height);
    lemma_le_bytes_value(depth);
    assert(hb.len() == 12);
    assert(data.subrange(0, 4) =~= le_bytes(width));
    assert(data.subrange(4, 8) =~= le_bytes(height));
    assert(data.subrange(8, 12) =~= le_bytes(depth));
    lemma_le_read_in(data, 0, width);
    lemma_le_read_in(data, 4, height);
    lemma_le_read_in(data, 8, depth);
    let fs = (height * width * depth) as nat;
    assert(data.subrange(12, data.len() as int) =~= records_bytes(records));
    lemma_frames_from_records(data, 12, fs, records);
}

/// Whether `len` bytes are exactly `width * height` pixels of `per_pixel` bytes.
pub fn holds_pixels(len: usize, width: u32, height: u32, per_pixel: u32) -> (ok: bool)
    requires
        per_pixel <= 4,
    ensures
        ok == (len == width * height * per_pixel),
{
    let w = width as u128;
    let h = height as u128;
    let p = per_pixel as u128;
    assert(w * h <= 0xffff_fffe_0000_0001u128) by (nonlinear_arith)
        requires
            w <= 0xffff_ffffu128,
            h <= 0xffff_ffffu128,
    ;
    assert(w * h * p <= 0x4_0000_0000_0000_0000u128) by (nonlinear_arith)
        requires
            w <= 0xffff_ffffu128,
            h <= 0xffff_ffffu128,
            p <= 4,
    ;
    w * h * p == len as u128
}

proof fn lemma_alpha_chunks(s: Seq<u8>, m: nat)
    requires
        s.len() == 4 * m,
    ensures
        alpha_removed(s).len() == 3 * m,
        forall|k: int, c: int|
            0 <= k < m && 0 <= c < 3 ==> #[trigger] alpha_removed(s)[3 * k + c] == s[4 * k + c],
    decreases m,
{
    if m == 0 {
        assert(alpha_removed(s) =~= Seq::<u8>::empty());
    } else {
        let n = 4 * m;
        let t = s.take(n - 4);
        let s3 = s.take(n - 1);
        let s2 = s.take(n - 2);
        let s1 = s.take(n - 3);
        assert(s.drop_last() =~= s3);
        assert(s3.drop_last() =~= s2);
        assert(s2.drop_last() =~= s1);
        assert(s1.drop_last() =~= t);
        assert((n - 1) % 4 == 3);
        assert((s3.len() - 1) % 4 == 2);
        assert((s2.len() - 1) % 4 == 1);
        assert((s1.len() - 1) % 4 == 0);
        lemma_alpha_chunks(t, (m - 1) as nat);
        let head = alpha_removed(t);
        assert(alpha_removed(s) == alpha_removed(s3));
        assert(s3.last() == s[n - 2]);
        assert(s2.last() == s[n - 3]);
        assert(s1.last() == s[n - 4]);
        assert(alpha_removed(s3) == alpha_removed(s2).push(s[n - 2]));
        assert(alpha_removed(s2) == alpha_removed(s1).push(s[n - 3]));
        assert(alpha_removed(s1) == head.push(s[n - 4]));
        assert(alpha_removed(s) == head.push(s[n - 4]).push(s[n - 3]).push(s[n - 2]));
        assert forall|k: int, c: int| 0 <= k < m && 0 <= c < 3 implies #[trigger] alpha_removed(
            s,
        )[3 * k + c] == s[4 * k + c] by {
            if k < m - 1 {
                assert(head[3 * k + c] == t[4 * k + c]);
            }
        }
    }
}

/// A frame of 4-byte blue, green, red, alpha pixels, as a 32-bit framebuffer
/// holds them, becomes a frame of as many 3-byte red, green, blue pixels:
/// pixel `k` keeps its colors and loses its alpha byte.
pub proof fn lemma_bgra_frame_to_rgb(raw: Seq<u8>)
    requires
        raw.len() % 4 == 0,
    ensures
        frame_pixels(raw).len() == raw.len() / 4 * 3,
        forall|k: int|
            0 <= k < raw.len() / 4 ==> {
                &&& #[trigger] frame_pixels(raw)[3 * k] == raw[4 * k + 2]
                &&& frame_pixels(raw)[3 * k + 1] == raw[4 * k + 1]
                &&& frame_pixels(raw)[3 * k + 2] == raw[4 * k]
            },
{
    let m = (raw.len() / 4) as nat;
    lemma_alpha_chunks(raw, m);
    let p = alpha_removed(raw);
    assert forall|k: int| 0 <= k < raw.len() / 4 implies {
        &&& #[trigger] frame_pixels(raw)[3 * k] == raw[4 * k + 2]
        &&& frame_pixels(raw)[3 * k + 1] == raw[4 * k + 1]
        &&& frame_pixels(raw)[3 * k + 2] == raw[4 * k]
    } by {
        assert(p[3 * k + 0] == raw[4 * k + 0]);
        assert(p[3 * k + 1] == raw[4 * k + 1]);
        assert(p[3 * k + 2] == raw[4 * k + 2]);
        assert((3 * k) % 3 == 0);
        assert((3 * k + 1) % 3 == 1);
        assert((3 * k + 2) % 3 == 2);
    }
}

/// Swapping red and blue twice gives back the bytes swapped.
pub proof fn lemma_swap_red_blue_twice(s: Seq<u8>)
    ensures
        red_blue_swapped(red_blue_swapped(s)) == s,
{
    assert(red_blue_swapped(red_blue_swapped(s)) =~= s);
}

/// The four bytes written for `v` are its little-endian bytes: byte `k` is
/// `v / 256^k` modulo 256.
pub proof fn lemma_le_bytes_are_little_endian(v: u32)
    ensures
        le_bytes(v).len() == 4,
        le_bytes(v)[0] == v % 256,
        le_bytes(v)[1] == (v / 256) % 256,
        le_bytes(v)[2] == (v / 65536) % 256,
        le_bytes(v)[3] == (v / 16777216) % 256,
{
}

/// Four bytes read as a number are read little-endian: the first byte is the
/// least significant.
pub proof fn lemma_le_u32_at_is_little_endian(s: Seq<u8>, i: int)
    requires
        0 <= i,
        i + 4 <= s.len(),
    ensures
        le_u32_at(s, i) == s[i] as int + 256 * (s[i + 1] as int) + 65536 * (s[i + 2] as int)
            + 16777216 * (s[i + 3] as int),
        0 <= le_u32_at(s, i) <= u32::MAX,
{
}

/// Reading back the four bytes written for `v` gives `v`.
pub proof fn lemma_le_round_trip(v: u32)
    ensures
        le_u32_at(le_bytes(v), 0) == v,
{
    lemma_le_bytes_value(v);
}

/// The dimensions a capture file reads as are its first three little-endian
/// `u32` values, in the order width, height, depth.
pub proof fn lemma_parsed_header(data: Seq<u8>, c: CaptureView)
    requires
        parse_capture(data) == Ok::<CaptureView, CaptureError>(c),
    ensures
        data.len() >= 12,
        c.width == data[0] as int + 256 * (data[1] as int) + 65536 * (data[2] as int) + 16777216 * (
        data[3] as int),
        c.height == data[4] as int + 256 * (data[5] as int) + 65536 * (data[6] as int) + 16777216 * (
        data[7] as int),
        c.depth == data[8] as int + 256 * (data[9] as int) + 65536 * (data[10] as int) + 16777216 * (
        data[11] as int),
{
}

/// Removing alpha keeps all but one byte in four.
pub proof fn lemma_alpha_removed_len(s: Seq<u8>)
    ensures
        alpha_removed(s).len() == s.len() - s.len() / 4,
    decreases s.len(),
{
    if s.len() > 0 {
        lemma_alpha_removed_len(s.drop_last());
    }
}

proof fn lemma_frames_from_lengths(data: Seq<u8>, start: nat, fs: nat)
    ensures
        frames_from(data, start, fs) matches Ok(fr) ==> forall|i: int|
            0 <= i < fr.len() ==> (#[trigger] fr[i]).pixels.len() == fs - fs / 4,
    decreases data.len() - start,
{
    if start + fs <= data.len() && start + fs + 4 <= data.len() && fs >= 2 {
        lemma_frames_from_lengths(data, (start + fs + 4) as nat, fs);
        let raw = data.subrange(start as int, (start + fs) as int);
        lemma_alpha_removed_len(raw);
        match frames_from(data, (start + fs + 4) as nat, fs) {
            Ok(rest) => {
                let frame = FrameView {
                    pixels: frame_pixels(raw),
                    time_bits: le_u32_at(data, (start + fs) as int) as u32,
                };
                let fr = seq![frame] + rest;
                assert forall|i: int| 0 <= i < fr.len() implies (#[trigger] fr[i]).pixels.len() == fs
                    - fs / 4 by {
                    if i > 0 {
                        assert(fr[i] == rest[i - 1]);
                    }
                }
            },
            Err(_) => {},
        }
    }
}

/// Every frame of a capture holds the pixels of `height * width * depth`
/// framebuffer bytes less their alpha bytes: `n - n / 4` bytes for
/// `n = height * width * depth`.
pub proof fn lemma_parsed_frame_lengths(data: Seq<u8>, c: CaptureView)
    requires
        parse_capture(data) == Ok::<CaptureView, CaptureError>(c),
    ensures
        forall|i: int|
            0 <= i < c.frames.len() ==> (#[trigger] c.frames[i]).pixels.len() == c.height * c.width
                * c.depth - (c.height * c.width * c.depth) / 4,
{
    let w = le_u32_at(data, 0);
    let h = le_u32_at(data, 4);
    let d = le_u32_at(data, 8);
    lemma_frames_from_lengths(data, 12, (h * w * d) as nat);
}

spec fn record_at(start: nat, i: int, fs: nat) -> int {
    start + i * (fs + 4)
}

#[verifier::spinoff_prover]
#[verifier::rlimit(50)]
proof fn lemma_frames_from_layout(data: Seq<u8>, start: nat, fs: nat)
    ensures
        frames_from(data, start, fs) matches Ok(fr) ==> {
            &&& forall|i: int|
                #![trigger fr[i]]
                #![trigger record_at(start, i, fs)]
                0 <= i < fr.len() ==> {
                    &&& record_at(start, i, fs) == start + i * (fs + 4)
                    &&& start + i * (fs + 4) + fs + 4 <= data.len()
                    &&& fr[i].pixels == frame_pixels(
                        data.subrange(start + i * (fs + 4), start + i * (fs + 4) + fs),
                    )
                    &&& fr[i].time_bits == le_u32_at(data, start + i * (fs + 4) + fs) as u32
                }
            &&& start + fr.len() * (fs + 4) + fs > data.len()
        },
    decreases data.len() - start,
{
    if start + fs > data.len() {
        match frames_from(data, start, fs) {
            Ok(fr) => {
                assert(fr.len() == 0);
                assert(fr.len() * (fs + 4) == 0) by (nonlinear_arith)
                    requires
                        fr.len() == 0,
                ;
            },
            Err(_) => {},
        }
    } else if start + fs + 4 <= data.len() && fs >= 2 {
        let next = (start + fs + 4) as nat;
        lemma_frames_from_layout(data, next, fs);
        match frames_from(data, next, fs) {
            Ok(rest) => {
                let frame = FrameView {
                    pixels: frame_pixels(data.subrange(start as int, (start + fs) as int)),
                    time_bits: le_u32_at(data, (start + fs) as int) as u32,
                };
                let fr = seq![frame] + rest;
                assert(frames_from(data, start, fs) == Ok::<Seq<FrameView>, CaptureError>(fr));
                assert forall|i: int|
                    #![trigger fr[i]]
                    #![trigger record_at(start, i, fs)]
                    0 <= i < fr.len() implies {
                    &&& record_at(start, i, fs) == start + i * (fs + 4)
                    &&& start + i * (fs + 4) + fs + 4 <= data.len()
                    &&& fr[i].pixels == frame_pixels(
                        data.subrange(start + i * (fs + 4), start + i * (fs + 4) + fs),
                    )
                    &&& fr[i].time_bits == le_u32_at(data, start + i * (fs + 4) + fs) as u32
                } by {
                    assert(fr[i] == fr[i]);
                    if i == 0 {
                        assert(i * (fs + 4) == 0) by (nonlinear_arith)
                            requires
                                i == 0,
                        ;
                    } else {
                        assert(fr[i] == rest[i - 1]);
                        assert(record_at(next, i - 1, fs) == next + (i - 1) * (fs + 4));
                        assert(next + (i - 1) * (fs + 4) + fs + 4 <= data.len());
                        assert(next + (i - 1) * (fs + 4) == start + i * (fs + 4))
                            by (nonlinear_arith)
                            requires
                                next == start + fs + 4,
                        ;
                    }
                }
                assert(next + rest.len() * (fs + 4) + fs > data.len());
                assert(start + fr.len() * (fs + 4) == next + rest.len() * (fs + 4))
                    by (nonlinear_arith)
                    requires
                        fr.len() == rest.len() + 1,
                        next == start + fs + 4,
                ;
            },
            Err(_) => {},
        }
    }
}

/// Frame `f` is stored at offset `at` of `data` as `n` framebuffer bytes
/// (which become its pixels once alpha is removed and red and blue are
/// swapped) followed by the four little-endian bytes of its time bits.
pub open spec fn frame_stored_at(data: Seq<u8>, f: FrameView, at: int, n: int) -> bool {
    &&& 0 <= at
    &&& at + n + 4 <= data.len()
    &&& f.pixels == frame_pixels(data.subrange(at, at + n))
    &&& f.time_bits == data[at + n] as int + 256 * (data[at + n + 1] as int) + 65536 * (data[at + n
        + 2] as int) + 16777216 * (data[at + n + 3] as int)
}

/// A capture that reads successfully holds, after the twelve header bytes,
/// one record per frame of `n = height * width * depth` framebuffer bytes and
/// four time bytes: frame `i` is stored at `12 + i * (n + 4)`. After the last
/// frame there is no room for the pixels of another one.
pub proof fn lemma_parsed_frames(data: Seq<u8>, c: CaptureView)
    requires
        parse_capture(data) == Ok::<CaptureView, CaptureError>(c),
    ensures
        forall|i: int|
            #![trigger c.frames[i]]
            0 <= i < c.frames.len() ==> frame_stored_at(
                data,
                c.frames[i],
                12 + i * (c.height * c.width * c.depth + 4),
                c.height * c.width * c.depth,
            ),
        12 + c.frames.len() * (c.height * c.width * c.depth + 4) + c.height * c.width * c.depth
            > data.len(),
{
    let w = le_u32_at(data, 0);
    let h = le_u32_at(data, 4);
    let d = le_u32_at(data, 8);
    let fs = (h * w * d) as nat;
    lemma_frames_from_layout(data, 12, fs);
    let n = c.height * c.width * c.depth;
    assert(n == fs);
    assert(frames_from(data, 12, fs) == Ok::<Seq<FrameView>, CaptureError>(c.frames));
    assert forall|i: int| #![trigger c.frames[i]] 0 <= i < c.frames.len() implies frame_stored_at(
        data,
        c.frames[i],
        12 + i * (c.height * c.width * c.depth + 4),
        c.height * c.width * c.depth,
    ) by {
        let at = 12 + i * (n + 4);
        assert(record_at(12, i, fs) == 12 + i * (fs + 4));
        assert(i * (n + 4) == i * (fs + 4)) by (nonlinear_arith)
            requires
                n == fs,
        ;
        assert(12 + i * (fs + 4) + fs + 4 <= data.len());
        assert(c.frames[i].pixels == frame_pixels(
            data.subrange(12 + i * (fs + 4), 12 + i * (fs + 4) + fs),
        ));
        lemma_le_u32_at_is_little_endian(data, at + n);
    }
    let k = c.frames.len() as int;
    assert(k * (n + 4) == k * (fs + 4)) by (nonlinear_arith)
        requires
            n == fs,
    ;
}

/// A capture fails to read for want of a header exactly when it is shorter
/// than twelve bytes, and for an oversized frame exactly when
/// `height * width` or `height * width * depth` does not fit in a `u32`.
pub proof fn lemma_parse_header_errors(data: Seq<u8>)
    ensures
        (parse_capture(data) == Err::<CaptureView, CaptureError>(CaptureError::MissingHeader))
            <==> data.len() < 12,
        data.len() >= 12 ==> ((parse_capture(data) == Err::<CaptureView, CaptureError>(
            CaptureError::FrameSizeOverflow,
        )) <==> ({
            let w = data[0] as int + 256 * (data[1] as int) + 65536 * (data[2] as int) + 16777216 * (
            data[3] as int);
            let h = data[4] as int + 256 * (data[5] as int) + 65536 * (data[6] as int) + 16777216 * (
            data[7] as int);
            let d = data[8] as int + 256 * (data[9] as int) + 65536 * (data[10] as int) + 16777216 * (
            data[11] as int);
            h * w > u32::MAX || h * w * d > u32::MAX
        })),
{
    if data.len() >= 12 {
        let w = le_u32_at(data, 0);
        let h = le_u32_at(data, 4);
        let d = le_u32_at(data, 8);
        if !(h * w > u32::MAX || h * w * d > u32::MAX) {
            lemma_frames_from_errors(data, 12, (h * w * d) as nat);
        }
    }
}

proof fn lemma_frames_from_errors(data: Seq<u8>, start: nat, fs: nat)
    ensures
        frames_from(data, start, fs) matches Err(e) ==> e == CaptureError::TruncatedTimestamp || e
            == CaptureError::FrameTooSmall,
    decreases data.len() - start,
{
    if start + fs + 4 <= data.len() && fs >= 2 {
        lemma_frames_from_errors(data, (start + fs + 4) as nat, fs);
    }
}

/// Byte `j` left after removing alpha is byte `j % 3` of pixel `j / 3`,
/// that is the byte at `4 * (j / 3) + j % 3`.
pub proof fn lemma_alpha_removed_index(s: Seq<u8>)
    ensures
        alpha_removed(s).len() == s.len() - s.len() / 4,
        forall|j: int|
            0 <= j < alpha_removed(s).len() ==> #[trigger] alpha_removed(s)[j] == s[4 * (j / 3) + j
                % 3],
    decreases s.len(),
{
    lemma_alpha_removed_len(s);
    if s.len() > 0 {
        let t = s.drop_last();
        lemma_alpha_removed_index(t);
        let m = s.len() - 1;
        if m % 4 != 3 {
            let j = alpha_removed(t).len() as int;
            assert(j == m - m / 4);
            assert(4 * (j / 3) + j % 3 == m);
            assert forall|k: int| 0 <= k < alpha_removed(s).len() implies #[trigger] alpha_removed(
                s,
            )[k] == s[4 * (k / 3) + k % 3] by {
                if k < j {
                    assert(alpha_removed(s)[k] == alpha_removed(t)[k]);
                    assert(4 * (k / 3) + k % 3 < m + 1);
                    assert(4 * (k / 3) + k % 3 <= 4 * ((j - 1) / 3) + (j - 1) % 3);
                }
            }
        } else {
            assert forall|k: int| 0 <= k < alpha_removed(s).len() implies #[trigger] alpha_removed(
                s,
            )[k] == s[4 * (k / 3) + k % 3] by {
                assert(alpha_removed(s)[k] == alpha_removed(t)[k]);
            }
        }
    }
}

/// Reads the little-endian `u32` at offset `i`.
pub fn read_u32_le(data: &[u8], i: usize) -> (v: u32)
    requires
        i + 4 <= data@.len(),
    ensures
        v == le_u32_at(data@, i as int),
{
    let b0 = data[i] as u32;
    let b1 = data[i + 1] as u32;
    let b2 = data[i + 2] as u32;
    let b3 = data[i + 3] as u32;
    b0 + 256 * b1 + 65536 * b2 + 16777216 * b3
}

/// Appends the four little-endian bytes of `v`.
pub fn push_u32_le(out: &mut Vec<u8>, v: u32)
    ensures
        final(out)@ == old(out)@ + le_bytes(v),
{
    out.push((v % 256) as u8);
    out.push(((v / 256) % 256) as u8);
    out.push(((v / 65536) % 256) as u8);
    out.push((v / 16777216) as u8);
}

/// The bytes of `data` at offsets `start .. start + len` whose index in that
/// range is not 3 modulo 4.
fn remove_alpha_range(data: &[u8], start: usize, len: usize) -> (out: Vec<u8>)
    requires
        start + len <= data@.len(),
    ensures
        out@ == alpha_removed(data@.subrange(start as int, start + len)),
{
    let mut out: Vec<u8> = Vec::new();
    let mut i: usize = 0;
    while i < len
        invariant
            i <= len,
            start + len <= data@.len(),
            start + len <= data.len(),
            out@ == alpha_removed(data@.subrange(start as int, start + i)),
        decreases len - i,
    {
        let ghost before = data@.subrange(start as int, start + i);
        let ghost after = data@.subrange(start as int, start + i + 1);
        assert(after.drop_last() =~= before);
        assert(after.last() == data@[start + i]);
        if i % 4 != 3 {
            out.push(data[start + i]);
        }
        i += 1;
    }
    out
}

/// Drops every fourth byte, the alpha channel of each 4-byte pixel.
pub fn remove_alpha(raw: &[u8]) -> (out: Vec<u8>)
    ensures
        out@ == alpha_removed(raw@),
{
    assert(raw@.subrange(0, raw@.len() as int) =~= raw@);
    remove_alpha_range(raw, 0, raw.len())
}

/// Exchanges the first and third byte of each complete 3-byte group,
/// turning blue-green-red pixels into red-green-blue ones.
pub fn swap_red_blue(v: &mut Vec<u8>)
    ensures
        final(v)@ == red_blue_swapped(old(v)@),
{
    let ghost orig = v@;
    let n = v.len();
    let mut i: usize = 0;
    while i < n && n - i > 2
        invariant
            n == v@.len(),
            orig.len() == n,
            i % 3 == 0,
            i <= n,
            forall|j: int|
                0 <= j < n ==> #[trigger] v@[j] == (if j < i {
                    red_blue_swapped(orig)[j]
                } else {
                    orig[j]
                }),
        decreases n - i,
    {
        let a = v[i];
        let b = v[i + 2];
        v.set(i, b);
        v.set(i + 2, a);
        i += 3;
    }
    assert(v@ =~= red_blue_swapped(orig));
}

/// The pixels of the frame whose raw bytes are `data[start .. start + len]`.
fn frame_pixels_at(data: &[u8], start: usize, len: usize) -> (out: Vec<u8>)
    requires
        start + len <= data@.len(),
    ensures
        out@ == frame_pixels(data@.subrange(start as int, start + len)),
{
    let mut out = remove_alpha_range(data, start, len);
    swap_red_blue(&mut out);
    out
}

impl CaptureFile {
    /// Reads a capture file from its contents: the header's width, height
    /// and depth, then every frame whose `width * height * depth` pixel bytes
    /// fit in `data`, with its time bits.
    pub fn from_bytes(data: &[u8]) -> (res: Result<CaptureFile, CaptureError>)
        ensures
            match res {
                Ok(c) => parse_capture(data@) == Ok::<CaptureView, CaptureError>(c@),
                Err(e) => parse_capture(data@) == Err::<CaptureView, CaptureError>(e),
            },
    {
        if data.len() < HEADER_LEN {
            return Err(CaptureError::MissingHeader);
        }
        let w = read_u32_le(data, 0);
        let h = read_u32_le(data, 4);
        let d = read_u32_le(data, 8);
        let hw = match h.checked_mul(w) {
            Some(x) => x,
            None => return Err(CaptureError::FrameSizeOverflow),
        };
        let framesize = match hw.checked_mul(d) {
            Some(x) => x,
            None => return Err(CaptureError::FrameSizeOverflow),
        };
        let fs = framesize as usize;
        let ghost fsn = fs as nat;
        assert(fsn == h * w * d);
        assert(!(h * w > u32::MAX) && !(h * w * d > u32::MAX));
        assert(parse_capture(data@) == match frames_from(data@, 12, fsn) {
            Ok(frames) => Ok(CaptureView { width: w, height: h, depth: d, frames }),
            Err(e) => Err(e),
        });
        let mut start: usize = HEADER_LEN;
        let mut frames: Vec<Frame> = Vec::new();
        loop
            invariant
                HEADER_LEN <= start <= data@.len(),
                fs == fsn,
                frames_from(data@, 12, fsn) == prepend_frames(
                    frames@.map_values(|f: Frame| f@),
                    frames_from(data@, start as nat, fsn),
                ),
                parse_capture(data@) == match frames_from(data@, 12, fsn) {
                    Ok(frames) => Ok(CaptureView { width: w, height: h, depth: d, frames }),
                    Err(e) => Err(e),
                },
            ensures
                data@.len() - start < fs,
            decreases data@.len() - start,
        {
            if data.len() - start < fs {
                break ;
            }
            if data.len() - start - fs < 4 {
                assert(frames_from(data@, start as nat, fsn) == Err::<Seq<FrameView>, CaptureError>(
                    CaptureError::TruncatedTimestamp));
                return Err(CaptureError::TruncatedTimestamp);
            }
            if fs < 2 {
                assert(frames_from(data@, start as nat, fsn) == Err::<Seq<FrameView>, CaptureError>(
                    CaptureError::FrameTooSmall));
                return Err(CaptureError::FrameTooSmall);
            }
            let end = start + fs;
            let time_bits = read_u32_le(data, end);
            let pixels = frame_pixels_at(data, start, fs);
            let frame = Frame { data: pixels, time_bits };
            let ghost old_views = frames@.map_values(|f: Frame| f@);
            frames.push(frame);
            proof {
                let new_views = frames@.map_values(|f: Frame| f@);
                assert(new_views =~= old_views + seq![frame@]);
                assert(old_views + (seq![frame@] + Seq::<FrameView>::empty()) =~= new_views
                    + Seq::<FrameView>::empty());
                match frames_from(data@, (end + 4) as nat, fsn) {
                    Ok(rest) => {
                        assert(old_views + (seq![frame@] + rest) =~= new_views + rest);
                    },
                    Err(e) => {},
                }
            }
            start = end + 4;
        }
        let ghost views = frames@.map_values(|f: Frame| f@);
        assert(frames_from(data@, start as nat, fsn) == Ok::<Seq<FrameView>, CaptureError>(
            Seq::empty()));
        assert(views + Seq::<FrameView>::empty() =~= views);
        let c = CaptureFile { height: h, width: w, depth: d, frames };
        assert(c@.frames == views);
        Ok(c)
    }
}

} // verus!
