use cfb::framebuffer::{parse_decimal, trim_text, Framebuffer, SysfsError};

#[test]
fn framebuffer_reads_sysfs_files() {
    let fb = Framebuffer::from_sysfs("fb0", "32\n", "1920,1080\n").unwrap();
    assert_eq!(fb.get_width(), 1920);
    assert_eq!(fb.get_height(), 1080);
    assert_eq!(fb.get_depth(), 32);
    assert_eq!(fb.get_path(), "/dev/fb0");
}

#[test]
fn mem_size_is_width_height_bytes_per_pixel() {
    let fb = Framebuffer::from_sysfs("fb1", "16", "100, 200").unwrap();
    assert_eq!(fb.get_mem_size(), 100 * 200 * 2);
}

#[test]
fn sizes_may_have_spaces_and_plus_signs() {
    let fb = Framebuffer::from_sysfs("fb0", " +8 ", "\u{3000}640 ,\t+480\u{a0}").unwrap();
    assert_eq!((fb.get_width(), fb.get_height(), fb.get_depth()), (640, 480, 8));
}

#[test]
fn bad_sysfs_contents_are_errors() {
    assert!(matches!(Framebuffer::from_sysfs("fb0", "256", "1,1"), Err(SysfsError::BitsPerPixel)));
    assert!(matches!(Framebuffer::from_sysfs("fb0", "", "1,1"), Err(SysfsError::BitsPerPixel)));
    assert!(matches!(Framebuffer::from_sysfs("fb0", "32", "1920x1080"), Err(SysfsError::MissingComma)));
    assert!(matches!(Framebuffer::from_sysfs("fb0", "32", "-1,1"), Err(SysfsError::Width)));
    assert!(matches!(Framebuffer::from_sysfs("fb0", "32", "1,65536"), Err(SysfsError::Height)));
    assert!(matches!(Framebuffer::from_sysfs("fb0", "32", "1,2,3"), Err(SysfsError::Height)));
}

#[test]
fn decimal_parsing_follows_str_parse() {
    for s in ["0", "255", "+7", "007", "+", "", "-0", "1 2", "12a", "65535", "65536", "++1", "٣"] {
        assert_eq!(parse_decimal(s, 65535), s.parse::<u16>().ok().map(u32::from), "{s}");
        assert_eq!(parse_decimal(s, 255), s.parse::<u8>().ok().map(u32::from), "{s}");
    }
}

#[test]
fn trimming_follows_str_trim() {
    for s in ["  a b  ", "\u{2003}x\u{85}", "", "   ", "\u{feff}y", "z\n"] {
        assert_eq!(trim_text(s), s.trim());
    }
}
