//! H.264 encoding of frames, done by the `openh264` crate.
//!
//! The encoder is stateful: what it emits for a frame depends on every frame
//! fed to it before. `H264Encoder` therefore carries, as ghost state, the
//! sequence of frames fed so far, and the packet for a frame is named as a
//! function of the dimensions, that sequence and the frame. The encoder runs
//! with openh264's default of a single thread and stamps every frame with
//! time zero, so what it emits depends on nothing else.
use vstd::prelude::*;
use crate::capture::{holds_pixels, Frame};
use crate::compile::CompileError;

verus! {

#[verifier::external_type_specification]
#[verifier::external_body]
pub struct ExOpenH264Encoder(openh264::encoder::Encoder);

#[verifier::external_type_specification]
#[verifier::external_body]
pub struct ExOpenH264Error(openh264::Error);

/// Whether `openh264::encoder::Encoder::with_config` succeeds for a
/// `width` by `height` configuration made by `EncoderConfig::new`.
pub uninterp spec fn h264_encoder_opens(width: u32, height: u32) -> bool;

/// The H.264 bytes (all NAL units of all layers, in order) that an encoder
/// configured for `width` by `height`, fed the RGB frames `earlier` before,
/// emits for the RGB frame `frame`; `None` where encoding reports an error.
pub uninterp spec fn h264_packet(
    width: u32,
    height: u32,
    earlier: Seq<Seq<u8>>,
    frame: Seq<u8>,
) -> Option<Seq<u8>>;

/// An openh264 encoder with its dimensions and the frames fed to it so far.
struct H264Encoder {
    inner: openh264::encoder::Encoder,
    width: u32,
    height: u32,
    fed: Ghost<Seq<Seq<u8>>>,
}

impl H264Encoder {
    closed spec fn width(&self) -> u32 {
        self.width
    }

    closed spec fn height(&self) -> u32 {
        self.height
    }

    /// The RGB frames fed to the encoder so far, in order.
    closed spec fn fed(&self) -> Seq<Seq<u8>> {
        self.fed@
    }
}

/// Creates an encoder with `openh264::encoder::Encoder::with_config(EncoderConfig::new(width, height))`.
/// Claimed, not proved: it succeeds exactly where `h264_encoder_opens(width, height)`,
/// and a new encoder has been fed nothing.
#[verifier::external_body]
fn open_h264_encoder(width: u32, height: u32) -> (res: Result<H264Encoder, openh264::Error>)
    ensures
        res is Ok <==> h264_encoder_opens(width, height),
        res matches Ok(enc) ==> enc.width() == width && enc.height() == height && enc.fed()
            == Seq::<Seq<u8>>::empty(),
{
    let config = openh264::encoder::EncoderConfig::new(width, height);
    match openh264::encoder::Encoder::with_config(config) {
        Ok(inner) => Ok(H264Encoder { inner, width, height, fed: Ghost(Seq::empty()) }),
        Err(e) => Err(e),
    }
}

/// Converts the RGB frame `rgb` to YUV (`YUVBuffer::new` and `read_rgb`), encodes it
/// with `Encoder::encode`, and collects the bitstream with `EncodedBitStream::write_vec`.
/// Claimed, not proved: the result is `h264_packet` of the encoder's dimensions,
/// the frames fed before and `rgb`, and `rgb` counts as fed afterwards.
/// `read_rgb` asserts that `rgb` holds `width * height` pixels of three bytes
/// and that both dimensions are even, so `requires` asks for that.
#[verifier::external_body]
fn h264_encode_rgb(enc: &mut H264Encoder, rgb: &[u8]) -> (res: Result<Vec<u8>, openh264::Error>)
    requires
        rgb@.len() == old(enc).width() * old(enc).height() * 3,
        old(enc).width() % 2 == 0,
        old(enc).height() % 2 == 0,
    ensures
        final(enc).width() == old(enc).width(),
        final(enc).height() == old(enc).height(),
        final(enc).fed() == old(enc).fed().push(rgb@),
        res is Ok <==> h264_packet(old(enc).width(), old(enc).height(), old(enc).fed(), rgb@) is Some,
        res matches Ok(p) ==> h264_packet(old(enc).width(), old(enc).height(), old(enc).fed(), rgb@)
            == Some(p@),
{
    let mut yuv = openh264::formats::YUVBuffer::new(enc.width as usize, enc.height as usize);
    yuv.read_rgb(rgb);
    match enc.inner.encode(&yuv) {
        Ok(bits) => {
            let mut out: Vec<u8> = Vec::new();
            bits.write_vec(&mut out);
            Ok(out)
        },
        Err(e) => Err(e),
    }
}

/// How many times a frame is fed to the encoder for repeat count `r`:
/// `r` times, and never for a negative `r`.
pub open spec fn repeat_count(r: i32) -> nat {
    if r < 0 {
        0
    } else {
        r as nat
    }
}

/// The frames fed to the encoder: each frame of `pixels`, in order, as many
/// times as its repeat count in `repeats`.
pub open spec fn encoder_inputs(pixels: Seq<Seq<u8>>, repeats: Seq<i32>) -> Seq<Seq<u8>>
    decreases pixels.len(),
{
    if pixels.len() == 0 {
        Seq::empty()
    } else {
        encoder_inputs(pixels.drop_last(), repeats.drop_last()) + Seq::new(
            repeat_count(repeats.last()),
            |k: int| pixels.last(),
        )
    }
}

/// Whether `rgb` is a frame that the encoder takes: `width * height` pixels
/// of three bytes, both dimensions even.
pub open spec fn rgb_shape_ok(width: u32, height: u32, rgb: Seq<u8>) -> bool {
    rgb.len() == width * height * 3 && width % 2 == 0 && height % 2 == 0
}

/// The H.264 stream for feeding `inputs`, in order, to a fresh encoder: the
/// packets concatenated, or the error of the first input that fails.
pub open spec fn h264_stream(width: u32, height: u32, inputs: Seq<Seq<u8>>) -> Result<
    Seq<u8>,
    CompileError,
>
    decreases inputs.len(),
{
    if inputs.len() == 0 {
        Ok(Seq::empty())
    } else {
        match h264_stream(width, height, inputs.drop_last()) {
            Err(e) => Err(e),
            Ok(s) => if !rgb_shape_ok(width, height, inputs.last()) {
                Err(CompileError::FrameShape)
            } else {
                match h264_packet(width, height, inputs.drop_last(), inputs.last()) {
                    Some(p) => Ok(s + p),
                    None => Err(CompileError::Encode),
                }
            },
        }
    }
}

/// The H.264 stream for the frames `pixels` with their repeat counts: the
/// encoder must open, then every input is fed in order.
pub open spec fn h264_video(width: u32, height: u32, pixels: Seq<Seq<u8>>, repeats: Seq<i32>) -> Result<
    Seq<u8>,
    CompileError,
> {
    if !h264_encoder_opens(width, height) {
        Err(CompileError::EncoderInit)
    } else {
        h264_stream(width, height, encoder_inputs(pixels, repeats))
    }
}

/// The pixels of each frame.
pub open spec fn frames_pixels(frames: Seq<Frame>) -> Seq<Seq<u8>> {
    frames.map_values(|f: Frame| f@.pixels)
}

proof fn lemma_stream_error_stays(width: u32, height: u32, a: Seq<Seq<u8>>, b: Seq<Seq<u8>>)
    requires
        h264_stream(width, height, a) is Err,
    ensures
        h264_stream(width, height, a + b) == h264_stream(width, height, a),
    decreases b.len(),
{
    if b.len() == 0 {
        assert(a + b =~= a);
    } else {
        lemma_stream_error_stays(width, height, a, b.drop_last());
        assert((a + b).drop_last() =~= a + b.drop_last());
    }
}

proof fn lemma_inputs_step(pixels: Seq<Seq<u8>>, repeats: Seq<i32>, i: int)
    requires
        0 <= i < pixels.len(),
        pixels.len() == repeats.len(),
    ensures
        encoder_inputs(pixels.take(i + 1), repeats.take(i + 1)) == encoder_inputs(
            pixels.take(i),
            repeats.take(i),
        ) + Seq::new(repeat_count(repeats[i]), |k: int| pixels[i]),
{
    assert(pixels.take(i + 1).drop_last() =~= pixels.take(i));
    assert(repeats.take(i + 1).drop_last() =~= repeats.take(i));
    assert(Seq::new(repeat_count(repeats[i]), |k: int| pixels[i]) =~= Seq::new(
        repeat_count(repeats.take(i + 1).last()),
        |k: int| pixels.take(i + 1).last(),
    ));
}

proof fn lemma_inputs_prefix(pixels: Seq<Seq<u8>>, repeats: Seq<i32>, i: int) -> (rest: Seq<
    Seq<u8>,
>)
    requires
        0 <= i <= pixels.len(),
        pixels.len() == repeats.len(),
    ensures
        encoder_inputs(pixels, repeats) == encoder_inputs(pixels.take(i), repeats.take(i)) + rest,
    decreases pixels.len() - i,
{
    if i == pixels.len() {
        assert(pixels.take(i) =~= pixels);
        assert(repeats.take(i) =~= repeats);
        let e = Seq::<Seq<u8>>::empty();
        assert(encoder_inputs(pixels, repeats) =~= encoder_inputs(pixels.take(i), repeats.take(i))
            + e);
        e
    } else {
        let rest = lemma_inputs_prefix(pixels, repeats, i + 1);
        lemma_inputs_step(pixels, repeats, i);
        let copies = Seq::new(repeat_count(repeats[i]), |k: int| pixels[i]);
        assert(encoder_inputs(pixels, repeats) =~= encoder_inputs(pixels.take(i), repeats.take(i))
            + (copies + rest));
        copies + rest
    }
}

/// Feeding one more frame to the encoder appends exactly its packet to the
/// stream of the frames before it: the frame must hold `width * height`
/// three-byte pixels with both dimensions even, and the encoder must take it.
pub proof fn lemma_h264_stream_append(
    width: u32,
    height: u32,
    inputs: Seq<Seq<u8>>,
    frame: Seq<u8>,
)
    ensures
        h264_stream(width, height, inputs) matches Ok(s) ==> h264_stream(
            width,
            height,
            inputs.push(frame),
        ) == if !(frame.len() == width * height * 3 && width % 2 == 0 && height % 2 == 0) {
            Err::<Seq<u8>, CompileError>(CompileError::FrameShape)
        } else {
            match h264_packet(width, height, inputs, frame) {
                Some(p) => Ok::<Seq<u8>, CompileError>(s + p),
                None => Err::<Seq<u8>, CompileError>(CompileError::Encode),
            }
        },
        h264_stream(width, height, inputs) is Err ==> h264_stream(width, height, inputs.push(frame))
            == h264_stream(width, height, inputs),
        h264_stream(width, height, Seq::empty()) == Ok::<Seq<u8>, CompileError>(Seq::empty()),
{
    assert(inputs.push(frame).drop_last() =~= inputs);
}

/// A video of no frames feeds the encoder nothing.
pub proof fn lemma_encoder_inputs_empty()
    ensures
        encoder_inputs(Seq::empty(), Seq::empty()) == Seq::<Seq<u8>>::empty(),
{
}

/// A frame with repeat count `r` is fed to the encoder exactly `r` times
/// (never, for `r <= 0`), after everything the frames before it feed.
pub proof fn lemma_encoder_inputs_append(
    pixels: Seq<Seq<u8>>,
    repeats: Seq<i32>,
    frame: Seq<u8>,
    r: i32,
)
    ensures
        encoder_inputs(pixels.push(frame), repeats.push(r)) == encoder_inputs(pixels, repeats)
            + Seq::new(if r > 0 { r as nat } else { 0 }, |k: int| frame),
{
    assert(pixels.push(frame).drop_last() =~= pixels);
    assert(repeats.push(r).drop_last() =~= repeats);
    assert(Seq::new(repeat_count(r), |k: int| frame) =~= Seq::new(
        if r > 0 {
            r as nat
        } else {
            0
        },
        |k: int| frame,
    ));
}

/// A one-frame video with repeat count `r` feeds that frame to the encoder
/// exactly `r` times, and nothing else.
pub proof fn lemma_single_frame_fed_repeat_times(frame: Seq<u8>, r: i32)
    ensures
        encoder_inputs(seq![frame], seq![r]).len() == (if r > 0 {
            r as int
        } else {
            0
        }),
        forall|k: int|
            0 <= k < encoder_inputs(seq![frame], seq![r]).len() ==> #[trigger] encoder_inputs(
                seq![frame],
                seq![r],
            )[k] == frame,
{
    lemma_encoder_inputs_append(Seq::empty(), Seq::empty(), frame, r);
    assert(Seq::<Seq<u8>>::empty().push(frame) =~= seq![frame]);
    assert(Seq::<i32>::empty().push(r) =~= seq![r]);
    assert(encoder_inputs(Seq::<Seq<u8>>::empty(), Seq::<i32>::empty()) =~= Seq::<Seq<u8>>::empty());
}

/// A frame with a repeat count of zero or less feeds nothing to the encoder:
/// without it (and its count) the encoder is fed the same frames.
pub proof fn lemma_inputs_without_zero_repeat(pixels: Seq<Seq<u8>>, repeats: Seq<i32>, k: int)
    requires
        0 <= k < pixels.len(),
        pixels.len() == repeats.len(),
        repeats[k] <= 0,
    ensures
        encoder_inputs(pixels, repeats) == encoder_inputs(pixels.remove(k), repeats.remove(k)),
    decreases pixels.len(),
{
    let n = pixels.len();
    if k == n - 1 {
        assert(pixels.remove(k) =~= pixels.drop_last());
        assert(repeats.remove(k) =~= repeats.drop_last());
        assert(Seq::new(repeat_count(repeats.last()), |j: int| pixels.last()) =~= Seq::<
            Seq<u8>,
        >::empty());
        assert(encoder_inputs(pixels, repeats) =~= encoder_inputs(
            pixels.drop_last(),
            repeats.drop_last(),
        ));
    } else {
        lemma_inputs_without_zero_repeat(pixels.drop_last(), repeats.drop_last(), k);
        let p2 = pixels.remove(k);
        let r2 = repeats.remove(k);
        assert(p2.drop_last() =~= pixels.drop_last().remove(k));
        assert(r2.drop_last() =~= repeats.drop_last().remove(k));
        assert(p2.last() == pixels.last());
        assert(r2.last() == repeats.last());
        assert(p2.len() > 0);
    }
}

/// Whether `rgb` is a frame that the encoder takes (see `rgb_shape_ok`).
fn rgb_fits(width: u32, height: u32, rgb: &[u8]) -> (ok: bool)
    ensures
        ok == rgb_shape_ok(width, height, rgb@),
{
    holds_pixels(rgb.len(), width, height, 3) && width % 2 == 0 && height % 2 == 0
}

/// Feeds each frame to a fresh `width` by `height` encoder as many times as
/// its repeat count says, in order, and concatenates the packets: the H.264
/// stream of the video, or the error of the first step that fails.
pub fn encode_h264(width: u32, height: u32, frames: &Vec<Frame>, repeats: &[i32]) -> (res: Result<
    Vec<u8>,
    CompileError,
>)
    requires
        frames@.len() == repeats@.len(),
    ensures
        match res {
            Ok(s) => h264_video(width, height, frames_pixels(frames@), repeats@) == Ok::<
                Seq<u8>,
                CompileError,
            >(s@),
            Err(e) => h264_video(width, height, frames_pixels(frames@), repeats@) == Err::<
                Seq<u8>,
                CompileError,
            >(e),
        },
{
    let mut enc = match open_h264_encoder(width, height) {
        Ok(e) => e,
        Err(_) => return Err(CompileError::EncoderInit),
    };
    let ghost pixels = frames_pixels(frames@);
    let ghost reps = repeats@;
    let mut stream: Vec<u8> = Vec::new();
    let n = frames.len();
    let mut i: usize = 0;
    assert(pixels.take(0) =~= Seq::<Seq<u8>>::empty());
    assert(reps.take(0) =~= Seq::<i32>::empty());
    while i < n
        invariant
            n == frames@.len(),
            n == repeats@.len(),
            pixels == frames_pixels(frames@),
            reps == repeats@,
            i <= n,
            enc.width() == width,
            enc.height() == height,
            h264_encoder_opens(width, height),
            enc.fed() == encoder_inputs(pixels.take(i as int), reps.take(i as int)),
            h264_stream(width, height, enc.fed()) == Ok::<Seq<u8>, CompileError>(stream@),
        decreases n - i,
    {
        let r = repeats[i];
        let data = frames[i].data();
        assert(data@ == pixels[i as int]);
        let ghost base = enc.fed();
        let mut k: i32 = 0;
        while k < r
            invariant
                0 <= k,
                r >= 0 ==> k <= r,
                r < 0 ==> k == 0,
                r == reps[i as int],
                i < n,
                n == frames@.len(),
                n == repeats@.len(),
                pixels == frames_pixels(frames@),
                reps == repeats@,
                data@ == pixels[i as int],
                base == encoder_inputs(pixels.take(i as int), reps.take(i as int)),
                enc.width() == width,
                enc.height() == height,
                h264_encoder_opens(width, height),
                enc.fed() == base + Seq::new(k as nat, |j: int| pixels[i as int]),
                h264_stream(width, height, enc.fed()) == Ok::<Seq<u8>, CompileError>(stream@),
            decreases r - k,
        {
            let ghost before = enc.fed();
            let ghost after = before.push(data@);
            assert(after.drop_last() =~= before);
            assert(after =~= base + Seq::new((k + 1) as nat, |j: int| pixels[i as int]));
            if !rgb_fits(width, height, data) {
                proof {
                    assert(h264_stream(width, height, after) == Err::<Seq<u8>, CompileError>(
                        CompileError::FrameShape,
                    ));
                    lemma_tail_error(width, height, pixels, reps, i as int, k as nat, after);
                }
                return Err(CompileError::FrameShape);
            }
            match h264_encode_rgb(&mut enc, data) {
                Ok(p) => {
                    let mut p = p;
                    let ghost old_stream = stream@;
                    stream.append(&mut p);
                    proof {
                        assert(enc.fed() == after);
                        assert(enc.fed() =~= base + Seq::new((k + 1) as nat, |j: int| pixels[i as int]));
                    }
                },
                Err(_) => {
                    proof {
                        assert(h264_stream(width, height, after) == Err::<Seq<u8>, CompileError>(
                            CompileError::Encode,
                        ));
                        lemma_tail_error(width, height, pixels, reps, i as int, k as nat, after);
                    }
                    return Err(CompileError::Encode);
                },
            }
            k += 1;
        }
        proof {
            lemma_inputs_step(pixels, reps, i as int);
            assert(Seq::new(k as nat, |j: int| pixels[i as int]) =~= Seq::new(
                repeat_count(reps[i as int]),
                |j: int| pixels[i as int],
            ));
        }
        i += 1;
    }
    proof {
        assert(pixels.take(n as int) =~= pixels);
        assert(reps.take(n as int) =~= reps);
    }
    Ok(stream)
}

/// Once feeding the `k + 1`-th copy of frame `i` fails, the whole video fails
/// with the same error.
proof fn lemma_tail_error(
    width: u32,
    height: u32,
    pixels: Seq<Seq<u8>>,
    repeats: Seq<i32>,
    i: int,
    k: nat,
    fed: Seq<Seq<u8>>,
)
    requires
        0 <= i < pixels.len(),
        pixels.len() == repeats.len(),
        k < repeat_count(repeats[i]),
        fed == encoder_inputs(pixels.take(i), repeats.take(i)) + Seq::new(
            k + 1,
            |j: int| pixels[i],
        ),
        h264_stream(width, height, fed) is Err,
    ensures
        h264_stream(width, height, encoder_inputs(pixels, repeats)) == h264_stream(
            width,
            height,
            fed,
        ),
{
    let rest = lemma_inputs_prefix(pixels, repeats, i + 1);
    lemma_inputs_step(pixels, repeats, i);
    let all = Seq::new(repeat_count(repeats[i]), |j: int| pixels[i]);
    let more = Seq::new((repeat_count(repeats[i]) - (k + 1)) as nat, |j: int| pixels[i]);
    assert(all =~= Seq::new(k + 1, |j: int| pixels[i]) + more);
    assert(encoder_inputs(pixels, repeats) =~= fed + (more + rest));
    lemma_stream_error_stays(width, height, fed, more + rest);
}

} // verus!
