use cfb::capture::{remove_alpha, swap_red_blue, CaptureError, CaptureFile};
use cfb::record::{append_frame_record, capture_header, frame_record, CAPTURE_FRAMES};

#[test]
fn alpha_removal_works() {
    let pixels = [255, 255, 255, 0, 100, 100, 100, 0, 175, 0, 0, 0];
    let framedata = remove_alpha(&pixels[..]);
    assert_eq!(framedata, [255, 255, 255, 100, 100, 100, 175, 0, 0]);
}

#[test]
fn alpha_removal_of_partial_pixel_keeps_all_bytes() {
    assert_eq!(remove_alpha(&[1, 2, 3]), vec![1, 2, 3]);
    assert_eq!(remove_alpha(&[1, 2, 3, 4, 5]), vec![1, 2, 3, 5]);
    assert_eq!(remove_alpha(&[]), Vec::<u8>::new());
}

#[test]
fn red_and_blue_are_swapped_in_whole_pixels() {
    let mut v = vec![1, 2, 3, 4, 5, 6, 7, 8];
    swap_red_blue(&mut v);
    assert_eq!(v, vec![3, 2, 1, 6, 5, 4, 7, 8]);
    swap_red_blue(&mut v);
    assert_eq!(v, vec![1, 2, 3, 4, 5, 6, 7, 8]);
}

#[test]
fn header_is_little_endian_width_height_bytes_per_pixel() {
    let h = capture_header(1920, 1080, 32);
    assert_eq!(h, vec![0x80, 0x07, 0, 0, 0x38, 0x04, 0, 0, 4, 0, 0, 0]);
    assert_eq!(CAPTURE_FRAMES, 30);
}

#[test]
fn frame_record_appends_time_bits() {
    let bits = 0.5f32.to_bits();
    let r = frame_record(&[9, 8, 7], bits);
    let mut expected = vec![9, 8, 7];
    expected.extend_from_slice(&0.5f32.to_le_bytes());
    assert_eq!(r, expected);
}

#[test]
fn recorded_capture_reads_back() {
    // A 2x1 screen of 32-bit BGRA pixels, two frames.
    let mut file = capture_header(2, 1, 32);
    let f1 = [10u8, 20, 30, 255, 40, 50, 60, 255];
    let f2 = [1u8, 2, 3, 0, 4, 5, 6, 0];
    append_frame_record(&mut file, &f1, 0.25f32.to_bits());
    append_frame_record(&mut file, &f2, 1.5f32.to_bits());
    let c = CaptureFile::from_bytes(&file).unwrap();
    assert_eq!((c.width, c.height, c.depth), (2, 1, 4));
    assert_eq!(c.frames.len(), 2);
    assert_eq!(c.frames[0].data(), &[30, 20, 10, 60, 50, 40]);
    assert_eq!(f32::from_bits(c.frames[0].time_bits), 0.25);
    assert_eq!(c.frames[1].data(), &[3, 2, 1, 6, 5, 4]);
    assert_eq!(f32::from_bits(c.frames[1].time_bits), 1.5);
}

#[test]
fn incomplete_last_frame_is_ignored() {
    let mut file = capture_header(2, 1, 32);
    append_frame_record(&mut file, &[1, 2, 3, 4, 5, 6, 7, 8], 7);
    file.extend_from_slice(&[1, 2, 3]);
    let c = CaptureFile::from_bytes(&file).unwrap();
    assert_eq!(c.frames.len(), 1);
    assert_eq!(c.frames[0].time_bits, 7);
}

#[test]
fn short_file_has_no_header() {
    assert!(matches!(CaptureFile::from_bytes(&[0u8; 11]), Err(CaptureError::MissingHeader)));
}

#[test]
fn header_only_file_has_no_frames() {
    let c = CaptureFile::from_bytes(&capture_header(640, 480, 32)).unwrap();
    assert_eq!((c.width, c.height, c.depth), (640, 480, 4));
    assert!(c.frames.is_empty());
}

#[test]
fn oversized_frame_is_rejected() {
    let file = capture_header(65536, 65536, 8);
    assert!(matches!(CaptureFile::from_bytes(&file), Err(CaptureError::FrameSizeOverflow)));
    // height * width overflows even though the depth is zero
    let file = capture_header(65536, 65536, 0);
    assert!(matches!(CaptureFile::from_bytes(&file), Err(CaptureError::FrameSizeOverflow)));
}

#[test]
fn missing_time_bytes_are_rejected() {
    let mut file = capture_header(2, 1, 32);
    file.extend_from_slice(&[1, 2, 3, 4, 5, 6, 7, 8, 0, 0]);
    assert!(matches!(CaptureFile::from_bytes(&file), Err(CaptureError::TruncatedTimestamp)));
}

#[test]
fn frames_of_under_two_bytes_are_rejected() {
    let mut file = capture_header(1, 1, 8);
    append_frame_record(&mut file, &[5], 0);
    assert!(matches!(CaptureFile::from_bytes(&file), Err(CaptureError::FrameTooSmall)));
    let mut file = capture_header(0, 0, 0);
    file.extend_from_slice(&[0, 0, 0, 0]);
    assert!(matches!(CaptureFile::from_bytes(&file), Err(CaptureError::FrameTooSmall)));
}
