use cfb::capture::{CaptureFile, Frame};
use cfb::compile::{compile, Compiled, CompileError, FrameFormats, OutputFormat};
use cfb::record::{append_frame_record, capture_header};
use cfb::text::numbered_name;

fn capture(width: u32, height: u32, frames: Vec<Vec<u8>>) -> CaptureFile {
    CaptureFile {
        height,
        width,
        depth: 4,
        frames: frames.into_iter().map(|d| Frame::new(d, 0.5f32.to_bits())).collect(),
    }
}

#[test]
fn numbered_names_are_decimal() {
    assert_eq!(numbered_name("frame", 12, ".png"), "frame12.png");
    assert_eq!(numbered_name("out", 0, ""), "out0");
    assert_eq!(numbered_name("", 1234567890, "x"), "1234567890x");
}

#[test]
fn raw_output_writes_one_numbered_file_per_frame() {
    let c = capture(1, 1, vec![vec![1, 2, 3], vec![4, 5, 6]]);
    let files = c.output_raw("shot");
    assert_eq!(files.len(), 2);
    assert_eq!(files[0].path, "shot1");
    assert_eq!(files[0].bytes, vec![1, 2, 3]);
    assert_eq!(files[1].path, "shot2");
    assert_eq!(files[1].bytes, vec![4, 5, 6]);
}

#[test]
fn raw_names_differ_for_many_frames() {
    let c = capture(1, 1, (0..12).map(|i| vec![i as u8, 0, 0]).collect());
    let files = c.output_raw("f");
    let mut names: Vec<&String> = files.iter().map(|f| &f.path).collect();
    names.sort();
    names.dedup();
    assert_eq!(names.len(), 12);
    assert_eq!(files[9].path, "f10");
}

#[test]
fn png_output_encodes_each_frame() {
    let c = capture(2, 1, vec![vec![255, 0, 0, 0, 255, 0]]);
    let files = c.output_png("img").unwrap();
    assert_eq!(files.len(), 1);
    assert_eq!(files[0].path, "img1.png");
    assert_eq!(&files[0].bytes[..8], &[0x89, b'P', b'N', b'G', 0x0d, 0x0a, 0x1a, 0x0a]);
}

#[test]
fn png_output_rejects_frames_of_the_wrong_size() {
    let c = capture(2, 2, vec![vec![0; 12], vec![0; 5]]);
    assert!(matches!(c.output_png("img"), Err(CompileError::PixelCount)));
}

#[test]
fn png_output_of_empty_image_fails_to_encode() {
    let c = capture(0, 5, vec![vec![]]);
    assert!(matches!(c.output_png("img"), Err(CompileError::PngEncoding)));
}

#[test]
fn older_frame_output_names_files_per_frame() {
    let c = capture(1, 1, vec![vec![1, 2, 3]]);
    let files = c.output_frame(FrameFormats::Raw).unwrap();
    assert_eq!(files[0].path, "frame1");
    // RGB frames do not hold the four bytes per pixel that RGBA PNG output wants
    assert!(matches!(c.output_frame(FrameFormats::Png), Err(CompileError::PixelCount)));
    let c = capture(1, 1, vec![vec![1, 2, 3, 4]]);
    let files = c.output_frame(FrameFormats::Png).unwrap();
    assert_eq!(files[0].path, "output/frame1.png");
}

#[test]
fn video_encodes_each_frame_its_repeat_count() {
    let w = 16;
    let h = 16;
    let c = capture(w, h, vec![vec![200; (w * h * 3) as usize], vec![10; (w * h * 3) as usize]]);
    let plan = c.output_video("movie.mp4", &[2, 1]).unwrap();
    assert_eq!(plan.path, "movie.mp4");
    assert_eq!(plan.title, "cfb screen recording");
    assert_eq!((plan.width, plan.height), (16, 16));
    assert!(!plan.stream.is_empty());
    // H.264 Annex B start code
    assert_eq!(&plan.stream[..3], &[0, 0, 0]);
    let none = c.output_video("movie.mp4", &[0, -3]).unwrap();
    assert!(none.stream.is_empty());
    let rec = c.output_recording(&[1, 1]).unwrap();
    assert_eq!(rec.path, "recording.mp4");
    assert_eq!(rec.title, "Screen Recording");
}

#[test]
fn video_rejects_frames_of_the_wrong_shape() {
    let c = capture(16, 16, vec![vec![0; 10]]);
    assert!(matches!(c.output_video("v.mp4", &[1]), Err(CompileError::FrameShape)));
    // a frame shown zero times is never looked at
    assert!(c.output_video("v.mp4", &[0]).is_ok());
}

#[test]
fn compile_dispatches_on_format() {
    let mut file = capture_header(2, 2, 32);
    append_frame_record(&mut file, &[0u8; 16], 0.0f32.to_bits());
    let c = CaptureFile::from_bytes(&file).unwrap();
    match compile(&c, &OutputFormat::Raw, "r", &[0]).unwrap() {
        Compiled::Frames(files) => {
            assert_eq!(files.len(), 1);
            assert_eq!(files[0].path, "r1");
            assert_eq!(files[0].bytes, vec![0u8; 12]);
        }
        Compiled::Video(_) => panic!("raw output is files"),
    }
    match compile(&c, &OutputFormat::Png, "p", &[0]).unwrap() {
        Compiled::Frames(files) => assert_eq!(files[0].path, "p1.png"),
        Compiled::Video(_) => panic!("png output is files"),
    }
    match compile(&c, &OutputFormat::Mp4, "v.mp4", &[0]) {
        Err(e) => assert_eq!(e, CompileError::EncoderInit),
        Ok(Compiled::Video(p)) => assert_eq!(p.path, "v.mp4"),
        Ok(Compiled::Frames(_)) => panic!("mp4 output is a video"),
    }
}

#[test]
fn zero_repeat_frame_adds_nothing_to_the_video() {
    let n = (16 * 16 * 3) as usize;
    let with = capture(16, 16, vec![vec![200; n], vec![10; n], vec![90; n]]);
    let without = capture(16, 16, vec![vec![200; n], vec![90; n]]);
    let a = with.output_video("v.mp4", &[1, 0, 2]).unwrap();
    let b = without.output_video("v.mp4", &[1, 2]).unwrap();
    assert_eq!(a.stream, b.stream);
    let c = with.output_video("v.mp4", &[1, -4, 2]).unwrap();
    assert_eq!(c.stream, b.stream);
}

#[test]
fn raw_and_png_compile_need_no_repeat_counts() {
    let c = capture(1, 1, vec![vec![1, 2, 3], vec![4, 5, 6]]);
    match compile(&c, &OutputFormat::Raw, "r", &[]).unwrap() {
        Compiled::Frames(files) => assert_eq!(files.len(), 2),
        Compiled::Video(_) => panic!("raw output is files"),
    }
    match compile(&c, &OutputFormat::Png, "p", &[]).unwrap() {
        Compiled::Frames(files) => assert_eq!(files[1].path, "p2.png"),
        Compiled::Video(_) => panic!("png output is files"),
    }
}
