use edt_core::frame::{Color, Frame, FrameError, PixelFormat, Pos, Timestamp};

fn rgb_frame() -> Frame {
    // 2 x 2 pixels, row by row
    let data = vec![1, 2, 3, 4, 5, 6, 7, 8, 9, 10, 11, 12];
    Frame::new(2, 2, PixelFormat::RGB24, data).unwrap()
}

fn rgba_frame() -> Frame {
    let data = vec![10, 20, 30, 200, 40, 50, 60, 100];
    Frame::new(2, 1, PixelFormat::RGBA32, data).unwrap()
}

#[test]
fn new_checks_buffer_size() {
    let f = rgb_frame();
    assert_eq!(f.width(), 2);
    assert_eq!(f.height(), 2);
    assert_eq!(f.format(), PixelFormat::RGB24);
    assert_eq!(f.data().len(), 12);
    let err = Frame::new(2, 2, PixelFormat::RGB24, vec![0; 11]).unwrap_err();
    assert_eq!(err, FrameError::InvalidFrameSize);
    let err = Frame::new(3, 1, PixelFormat::Gray8, vec![0; 4]).unwrap_err();
    assert_eq!(err, FrameError::InvalidFrameSize);
    assert!(Frame::new(0, 5, PixelFormat::RGBA32, Vec::new()).is_ok());
}

#[test]
fn new_rejects_dimensions_too_large_for_memory() {
    let err = Frame::new(u32::MAX, u32::MAX, PixelFormat::RGBA32, vec![0; 4]).unwrap_err();
    assert_eq!(err, FrameError::InvalidFrameSize);
}

#[test]
fn pixel_index_is_row_major() {
    let f = rgb_frame();
    assert_eq!(f.pixel_index(&Pos(0, 0)), Ok(0));
    assert_eq!(f.pixel_index(&Pos(1, 0)), Ok(3));
    assert_eq!(f.pixel_index(&Pos(0, 1)), Ok(6));
    assert_eq!(f.pixel_index(&Pos(1, 1)), Ok(9));
    assert_eq!(f.pixel_index(&Pos(2, 0)), Err(FrameError::InvalidPixel));
    assert_eq!(f.pixel_index(&Pos(0, 2)), Err(FrameError::InvalidPixel));
}

#[test]
fn get_pixel_reads_the_format() {
    let f = rgb_frame();
    assert_eq!(f.get_pixel(&Pos(1, 1)), Ok(Color::RGB(10, 11, 12)));
    assert_eq!(f.get_pixel(&Pos(5, 5)), Err(FrameError::InvalidPixel));
    let g = rgba_frame();
    assert_eq!(g.get_pixel(&Pos(1, 0)), Ok(Color::RGBA(40, 50, 60, 100)));
    let h = Frame::new(3, 1, PixelFormat::Gray8, vec![7, 8, 9]).unwrap();
    assert_eq!(h.get_pixel(&Pos(2, 0)), Ok(Color::Gray(9)));
}

#[test]
fn set_pixel_writes_bytes() {
    let mut f = rgb_frame();
    assert_eq!(f.set_pixel(&Pos(1, 0), &Color::RGB(0, 0, 255)), Ok(()));
    assert_eq!(f.data(), &[1, 2, 3, 0, 0, 255, 7, 8, 9, 10, 11, 12][..]);
}

#[test]
fn set_pixel_rejects_wrong_layout_and_position() {
    let mut f = rgb_frame();
    assert_eq!(
        f.set_pixel(&Pos(0, 0), &Color::Gray(1)),
        Err(FrameError::InvalidPixelFormat)
    );
    assert_eq!(
        f.set_pixel(&Pos(9, 0), &Color::RGB(1, 1, 1)),
        Err(FrameError::InvalidPixel)
    );
    assert_eq!(f.data(), &[1, 2, 3, 4, 5, 6, 7, 8, 9, 10, 11, 12][..]);
}

#[test]
fn replace_pixel_returns_previous_colour() {
    let mut f = rgb_frame();
    assert_eq!(f.replace_pixel(&Pos(0, 1), &Color::RGB(9, 9, 9)), Ok(Color::RGB(7, 8, 9)));
    assert_eq!(f.get_pixel(&Pos(0, 1)), Ok(Color::RGB(9, 9, 9)));
    assert_eq!(
        f.replace_pixel(&Pos(0, 1), &Color::RGBA(1, 1, 1, 1)),
        Err(FrameError::InvalidPixelFormat)
    );
    assert_eq!(f.get_pixel(&Pos(0, 1)), Ok(Color::RGB(9, 9, 9)));
}

#[test]
fn brightness_clamps() {
    let mut f = Frame::new(4, 1, PixelFormat::Gray8, vec![0, 5, 250, 128]).unwrap();
    f.brightness(10);
    assert_eq!(f.data(), &[10, 15, 255, 138][..]);
    f.brightness(-20);
    assert_eq!(f.data(), &[0, 0, 235, 118][..]);
    f.brightness(i16::MAX);
    assert_eq!(f.data(), &[255, 255, 255, 255][..]);
    f.brightness(i16::MIN);
    assert_eq!(f.data(), &[0, 0, 0, 0][..]);
}

#[test]
fn set_alpha_changes_only_alpha() {
    let mut f = rgba_frame();
    assert_eq!(f.set_alpha(7), Ok(()));
    assert_eq!(f.data(), &[10, 20, 30, 7, 40, 50, 60, 7][..]);
    let mut g = rgb_frame();
    assert_eq!(g.set_alpha(7), Err(FrameError::InvalidPixelFormat));
}

#[test]
fn opacity_scales_alpha() {
    let mut f = rgba_frame();
    assert_eq!(f.opacity(50), Ok(()));
    assert_eq!(f.data(), &[10, 20, 30, 100, 40, 50, 60, 50][..]);
    assert_eq!(f.opacity(101), Err(FrameError::InvalidOpacityValue));
    assert_eq!(f.data(), &[10, 20, 30, 100, 40, 50, 60, 50][..]);
    assert_eq!(f.opacity(33), Ok(()));
    assert_eq!(f.data(), &[10, 20, 30, 33, 40, 50, 60, 16][..]);
    let mut g = rgb_frame();
    assert_eq!(g.opacity(50), Err(FrameError::InvalidPixelFormat));
}

#[test]
fn formats_and_colours() {
    assert_eq!(PixelFormat::RGB24.bytes_per_pixel(), 3);
    assert_eq!(PixelFormat::Gray8.bytes_per_pixel(), 1);
    assert_eq!(PixelFormat::RGBA32.bytes_per_pixel(), 4);
    assert_eq!(PixelFormat::RGB24.ffmpeg_fmt(), "rgb24");
    assert_eq!(PixelFormat::RGBA32.ffmpeg_fmt(), "rgba");
    assert_eq!(PixelFormat::Gray8.ffmpeg_fmt(), "gray");
    assert_eq!(Color::RGB(1, 2, 3).size(), 3);
    assert_eq!(Color::RGBA(1, 2, 3, 4).size(), 4);
    assert_eq!(Color::Gray(1).size(), 1);
}

#[test]
fn timestamps_and_messages() {
    assert_eq!(Timestamp::from_micros(1500).micros, 1500);
    assert!(Timestamp::from_micros(1) < Timestamp::from_micros(2));
    assert_eq!(FrameError::InvalidFrameSize.message(), "Invalid frame buffer size");
    assert_eq!(FrameError::InvalidPixel.message(), "Unable to find the pixel!");
    assert_eq!(
        FrameError::InvalidOpacityValue.message(),
        "Opacity Value must be between 0 and 100"
    );
}
