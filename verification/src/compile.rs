//! Compiling a capture to a human visible format: the files to write for
//! raw and PNG output, and the H.264 stream of an MP4 video.
use vstd::prelude::*;
use vstd::string::StringExecFns;
use crate::capture::{
    holds_pixels, lemma_parsed_frame_lengths, parse_capture, CaptureError, CaptureFile, CaptureView,
    FrameView,
};
use crate::h264::{encode_h264, frames_pixels, h264_video, lemma_inputs_without_zero_repeat};
use crate::png::{channels, encode_png, png_image};
use crate::text::{decimal, lemma_decimal_injective, numbered_name};

verus! {

/// Available compilation outputs.
#[derive(Debug, Clone, Copy, PartialEq, Eq, Structural)]
pub enum OutputFormat {
    Raw,
    Png,
    Mp4,
}

/// The outputs of the older per-frame compiler.
#[derive(Debug, Clone, Copy, PartialEq, Eq, Structural)]
pub enum FrameFormats {
    Raw,
    Png,
}

/// Why a capture could not be compiled.
#[derive(Debug, Clone, Copy, PartialEq, Eq, Structural)]
pub enum CompileError {
    /// A frame does not hold `width * height` pixels of the PNG color type.
    PixelCount,
    /// The PNG encoder reported an error.
    PngEncoding,
    /// The H.264 encoder could not be created for these dimensions.
    EncoderInit,
    /// A frame fed to the H.264 encoder does not hold `width * height` RGB
    /// pixels, or a dimension is odd.
    FrameShape,
    /// The H.264 encoder reported an error.
    Encode,
    /// A dimension does not fit in an `i32`, as the MP4 muxer wants it.
    DimensionTooLarge,
}

/// A file to write: its path and its contents.
pub struct OutputFile {
    pub path: String,
    pub bytes: Vec<u8>,
}

/// An H.264 video to put in an MP4 container and write to `path`.
pub struct VideoPlan {
    pub path: String,
    pub title: String,
    pub width: i32,
    pub height: i32,
    pub stream: Vec<u8>,
}

/// What compiling produces: files to write, or a video to mux and write.
pub enum Compiled {
    Frames(Vec<OutputFile>),
    Video(VideoPlan),
}

/// The path and contents of each file.
pub open spec fn files_view(files: Seq<OutputFile>) -> Seq<(Seq<char>, Seq<u8>)> {
    files.map_values(|f: OutputFile| (f.path@, f.bytes@))
}

/// Raw output: for the `n`-th frame (counting from 1), a file named `base`
/// followed by `n` in decimal, holding the frame's pixels.
pub open spec fn raw_files(frames: Seq<FrameView>, base: Seq<char>) -> Seq<(Seq<char>, Seq<u8>)> {
    Seq::new(frames.len(), |i: int| (base + decimal((i + 1) as nat), frames[i].pixels))
}

/// Raw output writes each frame to a file of its own: no two frames get the
/// same name.
pub proof fn lemma_raw_names_distinct(frames: Seq<FrameView>, base: Seq<char>, i: int, j: int)
    requires
        0 <= i < frames.len(),
        0 <= j < frames.len(),
        i != j,
    ensures
        raw_files(frames, base)[i].0 != raw_files(frames, base)[j].0,
{
    let a = base + decimal((i + 1) as nat);
    let b = base + decimal((j + 1) as nat);
    if a == b {
        assert(decimal((i + 1) as nat) =~= a.skip(base.len() as int));
        assert(decimal((j + 1) as nat) =~= b.skip(base.len() as int));
        lemma_decimal_injective((i + 1) as nat, (j + 1) as nat);
    }
}

/// Each raw file holds the whole of its frame: as many files as frames, the
/// `n`-th named `base` followed by `n` and holding exactly the `n`-th frame's
/// pixel bytes, all of them.
pub proof fn lemma_raw_files_hold_whole_frames(frames: Seq<FrameView>, base: Seq<char>)
    ensures
        raw_files(frames, base).len() == frames.len(),
        forall|i: int|
            0 <= i < frames.len() ==> {
                &&& (#[trigger] raw_files(frames, base)[i]).1 == frames[i].pixels
                &&& raw_files(frames, base)[i].1.len() == frames[i].pixels.len()
                &&& raw_files(frames, base)[i].0 == base + decimal((i + 1) as nat)
            },
{
}

/// Raw output of a capture of 32-bit pixels: every file holds exactly
/// `width * height` RGB pixels, three bytes each.
pub proof fn lemma_raw_files_of_32_bit_capture(data: Seq<u8>, c: CaptureView, base: Seq<char>)
    requires
        parse_capture(data) == Ok::<CaptureView, CaptureError>(c),
        c.depth == 4,
    ensures
        forall|i: int|
            0 <= i < c.frames.len() ==> (#[trigger] raw_files(c.frames, base)[i]).1.len() == c.width
                * c.height * 3,
{
    lemma_parsed_frame_lengths(data, c);
    assert forall|i: int| 0 <= i < c.frames.len() implies (#[trigger] raw_files(
        c.frames,
        base,
    )[i]).1.len() == c.width * c.height * 3 by {
        let n = c.height * c.width * 4;
        assert(c.frames[i].pixels.len() == n - n / 4);
        assert(n - n / 4 == c.width * c.height * 3) by (nonlinear_arith)
            requires
                n == c.height * c.width * 4,
        ;
    }
}

/// The PNG files are the PNG encodings of the frames, in order, each as an
/// image of the capture's width (the row length) by its height: compiling
/// succeeds exactly where every frame holds `width * height` pixels and
/// encodes, and then the `n`-th file is named `base`, `n`, `suffix`.
pub proof fn lemma_png_files_encode_each_frame(
    frames: Seq<FrameView>,
    width: u32,
    height: u32,
    base: Seq<char>,
    suffix: Seq<char>,
    has_alpha: bool,
)
    ensures
        png_files(frames, width, height, base, suffix, has_alpha) is Ok <==> forall|i: int|
            0 <= i < frames.len() ==> {
                &&& (#[trigger] frames[i]).pixels.len() == width * height * (if has_alpha {
                    4int
                } else {
                    3int
                })
                &&& png_image(frames[i].pixels, width, height, has_alpha) is Some
            },
        png_files(frames, width, height, base, suffix, has_alpha) matches Ok(files) ==> {
            &&& files.len() == frames.len()
            &&& forall|i: int|
                0 <= i < frames.len() ==> {
                    &&& (#[trigger] files[i]).0 == base + decimal((i + 1) as nat) + suffix
                    &&& png_image(frames[i].pixels, width, height, has_alpha) == Some(files[i].1)
                }
        },
    decreases frames.len(),
{
    if frames.len() > 0 {
        let init = frames.drop_last();
        let n = frames.len() - 1;
        lemma_png_files_encode_each_frame(init, width, height, base, suffix, has_alpha);
        assert forall|i: int| 0 <= i < init.len() implies #[trigger] init[i] == frames[i] by {}
        let ch: int = if has_alpha {
            4int
        } else {
            3int
        };
        assert(channels(has_alpha) == ch);
        let all_ok = forall|i: int|
            0 <= i < frames.len() ==> {
                &&& (#[trigger] frames[i]).pixels.len() == width * height * ch
                &&& png_image(frames[i].pixels, width, height, has_alpha) is Some
            };
        let init_ok = forall|i: int|
            0 <= i < init.len() ==> {
                &&& (#[trigger] init[i]).pixels.len() == width * height * ch
                &&& png_image(init[i].pixels, width, height, has_alpha) is Some
            };
        let last_ok = frames[n].pixels.len() == width * height * ch && png_image(
            frames[n].pixels,
            width,
            height,
            has_alpha,
        ) is Some;
        assert(all_ok == (init_ok && last_ok)) by {
            if all_ok {
                assert forall|i: int| 0 <= i < init.len() implies {
                    &&& (#[trigger] init[i]).pixels.len() == width * height * ch
                    &&& png_image(init[i].pixels, width, height, has_alpha) is Some
                } by {
                    assert(init[i] == frames[i]);
                }
                assert(frames[n] == frames[n]);
            }
            if init_ok && last_ok {
                assert forall|i: int| 0 <= i < frames.len() implies {
                    &&& (#[trigger] frames[i]).pixels.len() == width * height * ch
                    &&& png_image(frames[i].pixels, width, height, has_alpha) is Some
                } by {
                    if i < n {
                        assert(init[i] == frames[i]);
                    }
                }
            }
        }
        assert(frames.last() == frames[n]);
        match png_files(init, width, height, base, suffix, has_alpha) {
            Err(_) => {},
            Ok(files) => {
                if last_ok {
                    let bytes = png_image(frames[n].pixels, width, height, has_alpha).unwrap();
                    let all = files.push((base + decimal(frames.len()) + suffix, bytes));
                    assert forall|i: int| 0 <= i < frames.len() implies {
                        &&& (#[trigger] all[i]).0 == base + decimal((i + 1) as nat) + suffix
                        &&& png_image(frames[i].pixels, width, height, has_alpha) == Some(all[i].1)
                    } by {
                        if i < n {
                            assert(init[i] == frames[i]);
                            assert(all[i] == files[i]);
                        }
                    }
                }
            },
        }
    }
}

/// The video is encoded at the capture's dimensions, width first: whenever it
/// compiles, its stream is what an encoder configured `width` by `height` and
/// fed the frames for their repeat counts emits.
pub proof fn lemma_video_uses_capture_dimensions(c: CaptureView, repeats: Seq<i32>)
    ensures
        video_stream(c, repeats) matches Ok(s) ==> h264_video(
            c.width,
            c.height,
            c.frames.map_values(|f: FrameView| f.pixels),
            repeats,
        ) == Ok::<Seq<u8>, CompileError>(s),
{
    assert(c.frames.map_values(|f: FrameView| f.pixels) =~= views_pixels(c.frames));
}

/// PNG output: for the `n`-th frame (counting from 1), a file named `base`,
/// `n` in decimal and `suffix`, holding the PNG encoding of the frame; or
/// the error of the first frame that cannot be encoded.
pub open spec fn png_files(
    frames: Seq<FrameView>,
    width: u32,
    height: u32,
    base: Seq<char>,
    suffix: Seq<char>,
    has_alpha: bool,
) -> Result<Seq<(Seq<char>, Seq<u8>)>, CompileError>
    decreases frames.len(),
{
    if frames.len() == 0 {
        Ok(Seq::empty())
    } else {
        match png_files(frames.drop_last(), width, height, base, suffix, has_alpha) {
            Err(e) => Err(e),
            Ok(files) => {
                let f = frames.last();
                if f.pixels.len() != width * height * channels(has_alpha) {
                    Err(CompileError::PixelCount)
                } else {
                    match png_image(f.pixels, width, height, has_alpha) {
                        None => Err(CompileError::PngEncoding),
                        Some(bytes) => Ok(
                            files.push((base + decimal(frames.len()) + suffix, bytes)),
                        ),
                    }
                }
            },
        }
    }
}

/// The pixels of each frame.
pub open spec fn views_pixels(frames: Seq<FrameView>) -> Seq<Seq<u8>> {
    frames.map_values(|f: FrameView| f.pixels)
}

/// The H.264 stream of a capture's video, with each frame shown for its
/// repeat count of sixtieths of a second; the muxer then wants both
/// dimensions to fit in an `i32`.
pub open spec fn video_stream(c: CaptureView, repeats: Seq<i32>) -> Result<Seq<u8>, CompileError> {
    match h264_video(c.width, c.height, views_pixels(c.frames), repeats) {
        Err(e) => Err(e),
        Ok(s) => if c.width > i32::MAX || c.height > i32::MAX {
            Err(CompileError::DimensionTooLarge)
        } else {
            Ok(s)
        },
    }
}

/// A video plan for the capture `c`: the stream of `video_stream`, the
/// capture's dimensions, and the given path and title.
pub open spec fn video_plan_matches(
    p: VideoPlan,
    c: CaptureView,
    stream: Seq<u8>,
    path: Seq<char>,
    title: Seq<char>,
) -> bool {
    &&& p.stream@ == stream
    &&& p.width == c.width
    &&& p.height == c.height
    &&& p.path@ == path
    &&& p.title@ == title
}

/// A frame whose repeat count is zero or negative adds nothing to the
/// video: dropping it, with its repeat count, leaves the stream (or the
/// error) as it is.
pub proof fn lemma_zero_repeat_frame_adds_nothing(c: CaptureView, repeats: Seq<i32>, k: int)
    requires
        0 <= k < c.frames.len(),
        repeats.len() == c.frames.len(),
        repeats[k] <= 0,
    ensures
        video_stream(c, repeats) == video_stream(
            CaptureView { frames: c.frames.remove(k), ..c },
            repeats.remove(k),
        ),
{
    let pixels = views_pixels(c.frames);
    assert(views_pixels(c.frames.remove(k)) =~= pixels.remove(k));
    lemma_inputs_without_zero_repeat(pixels, repeats, k);
}

proof fn lemma_png_error_stays(
    frames: Seq<FrameView>,
    i: int,
    width: u32,
    height: u32,
    base: Seq<char>,
    suffix: Seq<char>,
    has_alpha: bool,
)
    requires
        0 <= i <= frames.len(),
        png_files(frames.take(i), width, height, base, suffix, has_alpha) is Err,
    ensures
        png_files(frames, width, height, base, suffix, has_alpha) == png_files(
            frames.take(i),
            width,
            height,
            base,
            suffix,
            has_alpha,
        ),
    decreases frames.len() - i,
{
    if i == frames.len() {
        assert(frames.take(i) =~= frames);
    } else {
        assert(frames.take(i + 1).drop_last() =~= frames.take(i));
        lemma_png_error_stays(frames, i + 1, width, height, base, suffix, has_alpha);
    }
}

fn copy_str(s: &str) -> (out: String)
    ensures
        out@ == s@,
{
    let mut out = String::new();
    out.append(s);
    assert(out@ =~= s@);
    out
}

impl CaptureFile {
    /// For each frame `n`, counting from 1, a file named `filename` followed
    /// by `n`, holding the frame's pixel data.
    pub fn output_raw(&self, filename: &str) -> (files: Vec<OutputFile>)
        requires
            self.frames@.len() < i32::MAX,
        ensures
            files_view(files@) == raw_files(self@.frames, filename@),
    {
        let mut files: Vec<OutputFile> = Vec::new();
        let n = self.frames.len();
        let mut i: usize = 0;
        while i < n
            invariant
                n == self.frames@.len(),
                n < i32::MAX,
                i <= n,
                files@.len() == i,
                files_view(files@) == raw_files(self@.frames.take(i as int), filename@),
            decreases n - i,
        {
            let path = numbered_name(filename, (i + 1) as u64, "");
            let data = self.frames[i].data();
            let mut bytes: Vec<u8> = Vec::new();
            let mut j: usize = 0;
            while j < data.len()
                invariant
                    j <= data@.len(),
                    bytes@ == data@.subrange(0, j as int),
                decreases data@.len() - j,
            {
                bytes.push(data[j]);
                j += 1;
                assert(bytes@ =~= data@.subrange(0, j as int));
            }
            assert(data@.subrange(0, data@.len() as int) =~= data@);
            proof {
                reveal_strlit("");
                assert(path@ =~= filename@ + decimal((i + 1) as nat));
            }
            let ghost before = files@;
            let ghost entry = (path@, bytes@);
            files.push(OutputFile { path, bytes });
            proof {
                let frames = self@.frames;
                assert(frames[i as int] == self.frames@[i as int]@);
                assert(files@ =~= before.push(files@[i as int]));
                assert(files_view(files@) =~= files_view(before).push(entry));
                assert(raw_files(frames.take(i + 1), filename@) =~= raw_files(
                    frames.take(i as int),
                    filename@,
                ).push(entry));
            }
            i += 1;
        }
        assert(self@.frames.take(n as int) =~= self@.frames);
        files
    }

    /// For each frame `n`, counting from 1, a file named `base`, `n` and
    /// `suffix`, holding the PNG encoding of the frame.
    fn png_batch(&self, base: &str, suffix: &str, has_alpha: bool) -> (res: Result<
        Vec<OutputFile>,
        CompileError,
    >)
        requires
            self.frames@.len() < i32::MAX,
        ensures
            match res {
                Ok(files) => png_files(
                    self@.frames,
                    self.width,
                    self.height,
                    base@,
                    suffix@,
                    has_alpha,
                ) == Ok::<Seq<(Seq<char>, Seq<u8>)>, CompileError>(files_view(files@)),
                Err(e) => png_files(self@.frames, self.width, self.height, base@, suffix@, has_alpha)
                    == Err::<Seq<(Seq<char>, Seq<u8>)>, CompileError>(e),
            },
    {
        let ghost frames = self@.frames;
        let mut files: Vec<OutputFile> = Vec::new();
        let n = self.frames.len();
        let per_pixel: u32 = if has_alpha {
            4
        } else {
            3
        };
        let mut i: usize = 0;
        assert(frames.take(0) =~= Seq::<FrameView>::empty());
        assert(files_view(files@) =~= Seq::<(Seq<char>, Seq<u8>)>::empty());
        while i < n
            invariant
                frames == self@.frames,
                n == self.frames@.len(),
                n < i32::MAX,
                i <= n,
                per_pixel == channels(has_alpha),
                files@.len() == i,
                png_files(frames.take(i as int), self.width, self.height, base@, suffix@, has_alpha)
                    == Ok::<Seq<(Seq<char>, Seq<u8>)>, CompileError>(files_view(files@)),
            decreases n - i,
        {
            let data = self.frames[i].data();
            assert(data@ == frames[i as int].pixels);
            assert(frames.take(i + 1).drop_last() =~= frames.take(i as int));
            assert(frames.take(i + 1).last() == frames[i as int]);
            if !holds_pixels(data.len(), self.width, self.height, per_pixel) {
                proof {
                    lemma_png_error_stays(
                        frames,
                        i + 1,
                        self.width,
                        self.height,
                        base@,
                        suffix@,
                        has_alpha,
                    );
                }
                return Err(CompileError::PixelCount);
            }
            let bytes = match encode_png(data, self.width, self.height, has_alpha) {
                Ok(b) => b,
                Err(_) => {
                    proof {
                        lemma_png_error_stays(
                            frames,
                            i + 1,
                            self.width,
                            self.height,
                            base@,
                            suffix@,
                            has_alpha,
                        );
                    }
                    return Err(CompileError::PngEncoding);
                },
            };
            let path = numbered_name(base, (i + 1) as u64, suffix);
            let ghost before = files@;
            let ghost entry = (path@, bytes@);
            files.push(OutputFile { path, bytes });
            proof {
                assert(files@ =~= before.push(files@[i as int]));
                assert(files_view(files@) =~= files_view(before).push(entry));
            }
            i += 1;
        }
        assert(frames.take(n as int) =~= frames);
        Ok(files)
    }

    /// For each frame `n`, counting from 1, a file named `filename`, `n` and
    /// `.png`, holding the frame as an RGB PNG image.
    pub fn output_png(&self, filename: &str) -> (res: Result<Vec<OutputFile>, CompileError>)
        requires
            self.frames@.len() < i32::MAX,
        ensures
            match res {
                Ok(files) => png_files(
                    self@.frames,
                    self.width,
                    self.height,
                    filename@,
                    ".png"@,
                    false,
                ) == Ok::<Seq<(Seq<char>, Seq<u8>)>, CompileError>(files_view(files@)),
                Err(e) => png_files(
                    self@.frames,
                    self.width,
                    self.height,
                    filename@,
                    ".png"@,
                    false,
                ) == Err::<Seq<(Seq<char>, Seq<u8>)>, CompileError>(e),
            },
    {
        self.png_batch(filename, ".png", false)
    }

    fn video(&self, path: &str, title: &str, repeats: &[i32]) -> (res: Result<
        VideoPlan,
        CompileError,
    >)
        requires
            repeats@.len() == self.frames@.len(),
        ensures
            match res {
                Ok(p) => video_stream(self@, repeats@) == Ok::<Seq<u8>, CompileError>(p.stream@)
                    && video_plan_matches(p, self@, p.stream@, path@, title@)
                    && h264_video(
                    p.width as u32,
                    p.height as u32,
                    self@.frames.map_values(|f: FrameView| f.pixels),
                    repeats@,
                ) == Ok::<Seq<u8>, CompileError>(p.stream@),
                Err(e) => video_stream(self@, repeats@) == Err::<Seq<u8>, CompileError>(e),
            },
    {
        assert(frames_pixels(self.frames@) =~= views_pixels(self@.frames));
        let stream = match encode_h264(self.width, self.height, &self.frames, repeats) {
            Ok(s) => s,
            Err(e) => return Err(e),
        };
        if self.width > 2147483647u32 || self.height > 2147483647u32 {
            return Err(CompileError::DimensionTooLarge);
        }
        assert(self@.frames.map_values(|f: FrameView| f.pixels) =~= views_pixels(self@.frames));
        Ok(
            VideoPlan {
                path: copy_str(path),
                title: copy_str(title),
                width: self.width as i32,
                height: self.height as i32,
                stream,
            },
        )
    }

    /// The H.264 stream of the video to write to `filename`, titled
    /// `cfb screen recording`: each frame is encoded as many times as its
    /// repeat count (its time in sixtieths of a second, rounded), in order.
    pub fn output_video(&self, filename: &str, repeats: &[i32]) -> (res: Result<
        VideoPlan,
        CompileError,
    >)
        requires
            self.frames@.len() < i32::MAX,
            repeats@.len() == self.frames@.len(),
        ensures
            match res {
                Ok(p) => video_stream(self@, repeats@) == Ok::<Seq<u8>, CompileError>(p.stream@)
                    && video_plan_matches(p, self@, p.stream@, filename@, "cfb screen recording"@)
                    && h264_video(
                    p.width as u32,
                    p.height as u32,
                    self@.frames.map_values(|f: FrameView| f.pixels),
                    repeats@,
                ) == Ok::<Seq<u8>, CompileError>(p.stream@),
                Err(e) => video_stream(self@, repeats@) == Err::<Seq<u8>, CompileError>(e),
            },
    {
        self.video(filename, "cfb screen recording", repeats)
    }

    /// The older compiler's video: the same stream as `output_video`, to be
    /// written to `recording.mp4` with the title `Screen Recording`.
    pub fn output_recording(&self, repeats: &[i32]) -> (res: Result<VideoPlan, CompileError>)
        requires
            repeats@.len() == self.frames@.len(),
        ensures
            match res {
                Ok(p) => video_stream(self@, repeats@) == Ok::<Seq<u8>, CompileError>(p.stream@)
                    && video_plan_matches(p, self@, p.stream@, "recording.mp4"@, "Screen Recording"@)
                    && h264_video(
                    p.width as u32,
                    p.height as u32,
                    self@.frames.map_values(|f: FrameView| f.pixels),
                    repeats@,
                ) == Ok::<Seq<u8>, CompileError>(p.stream@),
                Err(e) => video_stream(self@, repeats@) == Err::<Seq<u8>, CompileError>(e),
            },
    {
        self.video("recording.mp4", "Screen Recording", repeats)
    }

    /// The older compiler's per-frame output: raw files `frame1`, `frame2`, …,
    /// or PNG files `output/frame1.png`, … encoded as RGBA images.
    pub fn output_frame(&self, format: FrameFormats) -> (res: Result<
        Vec<OutputFile>,
        CompileError,
    >)
        requires
            self.frames@.len() < i32::MAX,
        ensures
            format == FrameFormats::Raw ==> (res matches Ok(files) && files_view(files@)
                == raw_files(self@.frames, "frame"@)),
            format == FrameFormats::Png ==> match res {
                Ok(files) => png_files(
                    self@.frames,
                    self.width,
                    self.height,
                    "output/frame"@,
                    ".png"@,
                    true,
                ) == Ok::<Seq<(Seq<char>, Seq<u8>)>, CompileError>(files_view(files@)),
                Err(e) => png_files(
                    self@.frames,
                    self.width,
                    self.height,
                    "output/frame"@,
                    ".png"@,
                    true,
                ) == Err::<Seq<(Seq<char>, Seq<u8>)>, CompileError>(e),
            },
    {
        match format {
            FrameFormats::Raw => Ok(self.output_raw("frame")),
            FrameFormats::Png => self.png_batch("output/frame", ".png", true),
        }
    }
}

/// What compiling `capture` to `format` gives: raw files, PNG files (or the
/// first error) named after `output`, or the video for `output`, with
/// `repeats` the number of sixtieths of a second that each frame is shown.
pub fn compile(capture: &CaptureFile, format: &OutputFormat, output: &str, repeats: &[i32]) -> (res:
    Result<Compiled, CompileError>)
    requires
        capture.frames@.len() < i32::MAX,
        *format == OutputFormat::Mp4 ==> repeats@.len() == capture.frames@.len(),
    ensures
        *format == OutputFormat::Raw ==> (res matches Ok(Compiled::Frames(files)) && files_view(
            files@,
        ) == raw_files(capture@.frames, output@)),
        *format == OutputFormat::Png ==> match png_files(
            capture@.frames,
            capture.width,
            capture.height,
            output@,
            ".png"@,
            false,
        ) {
            Ok(v) => res matches Ok(Compiled::Frames(files)) && files_view(files@) == v,
            Err(e) => res == Err::<Compiled, CompileError>(e),
        },
        *format == OutputFormat::Mp4 ==> (res matches Ok(Compiled::Video(p)) ==> h264_video(
            p.width as u32,
            p.height as u32,
            capture@.frames.map_values(|f: FrameView| f.pixels),
            repeats@,
        ) == Ok::<Seq<u8>, CompileError>(p.stream@)),
        *format == OutputFormat::Mp4 ==> match video_stream(capture@, repeats@) {
            Ok(s) => res matches Ok(Compiled::Video(p)) && video_plan_matches(
                p,
                capture@,
                s,
                output@,
                "cfb screen recording"@,
            ),
            Err(e) => res == Err::<Compiled, CompileError>(e),
        },
{
    match format {
        OutputFormat::Raw => Ok(Compiled::Frames(capture.output_raw(output))),
        OutputFormat::Png => match capture.output_png(output) {
            Ok(files) => Ok(Compiled::Frames(files)),
            Err(e) => Err(e),
        },
        OutputFormat::Mp4 => match capture.output_video(output, repeats) {
            Ok(p) => Ok(Compiled::Video(p)),
            Err(e) => Err(e),
        },
    }
}

} // verus!
