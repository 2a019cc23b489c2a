use skidbladnir::boot_info::FrameBufferInfo;
use skidbladnir::console::Console;
use skidbladnir::video::{clear_pixel, set_pixel, COLOR_BLACK};

fn fb() -> FrameBufferInfo {
    FrameBufferInfo { base_address: 0x8000_0000, width: 800, height: 600 }
}

#[test]
fn pixel_address_is_row_major_in_words() {
    let w = set_pixel(200, 200, 0x00FF_0000, &fb()).unwrap();
    assert_eq!(w.address, 0x8000_0000 + 4 * (200 * 800 + 200));
    assert_eq!(w.color, 0x00FF_0000);
}

#[test]
fn origin_pixel_is_the_base_address() {
    let w = set_pixel(0, 0, 7, &fb()).unwrap();
    assert_eq!(w.address, 0x8000_0000);
}

#[test]
fn pixels_past_the_screen_are_not_written() {
    assert!(set_pixel(801, 0, 1, &fb()).is_none());
    assert!(set_pixel(0, 601, 1, &fb()).is_none());
    assert!(clear_pixel(1000, 1000, &fb()).is_none());
}

#[test]
fn last_pixel_is_the_last_word() {
    let w = set_pixel(799, 599, 1, &fb()).unwrap();
    assert_eq!(w.address, 0x8000_0000 + 4 * (600 * 800 - 1));
}

#[test]
fn width_and_height_are_off_screen() {
    assert!(set_pixel(800, 0, 1, &fb()).is_none());
    assert!(set_pixel(0, 600, 1, &fb()).is_none());
    assert!(clear_pixel(800, 599, &fb()).is_none());
    assert!(clear_pixel(799, 600, &fb()).is_none());
}

#[test]
fn clear_pixel_is_set_pixel_with_black() {
    for (x, y) in [(0u32, 0u32), (10, 20), (799, 599), (800, 0), (0, 600)] {
        let c = clear_pixel(x, y, &fb()).map(|w| (w.address, w.color));
        let s = set_pixel(x, y, COLOR_BLACK, &fb()).map(|w| (w.address, w.color));
        assert_eq!(c, s);
    }
}

#[test]
fn clear_pixel_writes_black() {
    let w = clear_pixel(10, 20, &fb()).unwrap();
    assert_eq!(w.color, COLOR_BLACK);
    assert_eq!(w.address, 0x8000_0000 + 4 * (20 * 800 + 10));
}

#[test]
fn console_tracks_position() {
    let c = Console { line_number: 3, pos_x: 8, pos_y: 48 };
    assert_eq!(c.line_number, 3);
    assert_eq!((c.pos_x, c.pos_y), (8, 48));
}
