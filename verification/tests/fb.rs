use topple::fb::{Color, Frame, HEIGHT, WIDTH};

fn px(f: &Frame, x: usize, y: usize) -> [u8; 4] {
    let i = (y * WIDTH + x) * 4;
    [f.px[i], f.px[i + 1], f.px[i + 2], f.px[i + 3]]
}

#[test]
fn a_new_frame_is_transparent_black() {
    let f = Frame::new();
    assert_eq!(f.px.len(), WIDTH * HEIGHT * 4);
    assert!(f.px.iter().all(|&b| b == 0));
    let g = Frame::default();
    assert_eq!(g.px, f.px);
}

#[test]
fn clear_paints_every_pixel_opaque() {
    let mut f = Frame::new();
    f.clear(Color::rgba(1, 2, 3, 9));
    assert_eq!(px(&f, 0, 0), [1, 2, 3, 255]);
    assert_eq!(px(&f, WIDTH - 1, HEIGHT - 1), [1, 2, 3, 255]);
}

#[test]
fn put_blends_by_alpha_and_ignores_off_screen_and_transparent() {
    let mut f = Frame::new();
    f.clear(Color::rgb(100, 100, 100));
    f.put(5, 6, Color::rgba(200, 0, 255, 128));
    // (200·128 + 100·127) / 255 = 150, (0·128 + 100·127) / 255 = 49,
    // (255·128 + 100·127) / 255 = 177.
    assert_eq!(px(&f, 5, 6), [150, 49, 177, 255]);
    let before = f.px.clone();
    f.put(-1, 0, Color::rgb(9, 9, 9));
    f.put(0, HEIGHT as i32, Color::rgb(9, 9, 9));
    f.put(WIDTH as i32, 3, Color::rgb(9, 9, 9));
    f.put(7, 7, Color::rgba(9, 9, 9, 0));
    assert_eq!(f.px, before);
    f.put(7, 7, Color::rgb(9, 8, 7));
    assert_eq!(px(&f, 7, 7), [9, 8, 7, 255]);
}

#[test]
fn fill_rect_is_clipped_to_the_screen() {
    let mut f = Frame::new();
    f.fill_rect(-5, -5, 10, 10, Color::rgb(1, 1, 1));
    assert_eq!(px(&f, 0, 0), [1, 1, 1, 255]);
    assert_eq!(px(&f, 4, 4), [1, 1, 1, 255]);
    assert_eq!(px(&f, 5, 4), [0, 0, 0, 0]);
    assert_eq!(px(&f, 4, 5), [0, 0, 0, 0]);
    f.fill_rect(WIDTH as i32 - 2, HEIGHT as i32 - 1, 50, 50, Color::rgb(2, 2, 2));
    assert_eq!(px(&f, WIDTH - 1, HEIGHT - 1), [2, 2, 2, 255]);
    assert_eq!(px(&f, WIDTH - 3, HEIGHT - 1), [0, 0, 0, 0]);
    let before = f.px.clone();
    f.fill_rect(10, 10, -3, 4, Color::rgb(3, 3, 3));
    assert_eq!(f.px, before);
}

#[test]
fn hline_and_outline_paint_the_edges_only() {
    let mut f = Frame::new();
    f.hline(10, 20, 3, Color::rgb(5, 5, 5));
    assert_eq!(px(&f, 12, 20), [5, 5, 5, 255]);
    assert_eq!(px(&f, 13, 20), [0, 0, 0, 0]);
    f.rect_outline(100, 100, 10, 8, 2, Color::rgb(7, 7, 7));
    assert_eq!(px(&f, 100, 100), [7, 7, 7, 255]);
    assert_eq!(px(&f, 109, 107), [7, 7, 7, 255]);
    assert_eq!(px(&f, 101, 104), [7, 7, 7, 255]);
    assert_eq!(px(&f, 102, 102), [0, 0, 0, 0]);
    assert_eq!(px(&f, 107, 105), [0, 0, 0, 0]);
}

#[test]
fn rounded_rect_clips_its_corners() {
    let mut f = Frame::new();
    f.fill_rrect(20, 30, 40, 20, 4, Color::rgb(9, 9, 9));
    // The corner pixel lies outside the corner disc.
    assert_eq!(px(&f, 20, 30), [0, 0, 0, 0]);
    assert_eq!(px(&f, 59, 49), [0, 0, 0, 0]);
    // The middle and the edges' midpoints are painted.
    assert_eq!(px(&f, 40, 40), [9, 9, 9, 255]);
    assert_eq!(px(&f, 20, 40), [9, 9, 9, 255]);
    assert_eq!(px(&f, 40, 30), [9, 9, 9, 255]);
    // Just inside the rounding.
    assert_eq!(px(&f, 21, 32), [9, 9, 9, 255]);
    assert_eq!(px(&f, 60, 40), [0, 0, 0, 0]);
}

#[test]
fn blit_mask_scales_the_colour_by_coverage() {
    let mut f = Frame::new();
    f.clear(Color::rgb(0, 0, 0));
    let mask = [0u8, 255, 128, 0, 255, 0];
    f.blit_mask(10, 10, 3, 2, &mask, Color::rgba(200, 100, 50, 255));
    assert_eq!(px(&f, 10, 10), [0, 0, 0, 255]);
    assert_eq!(px(&f, 11, 10), [200, 100, 50, 255]);
    // Coverage 128 of opacity 255 is opacity 128: 200·128/255 = 100.
    assert_eq!(px(&f, 12, 10), [100, 50, 25, 255]);
    assert_eq!(px(&f, 11, 11), [200, 100, 50, 255]);
    assert_eq!(px(&f, 12, 11), [0, 0, 0, 255]);
    // Off-screen parts of the mask are dropped.
    let before = f.px.clone();
    f.blit_mask(-3, -2, 3, 2, &mask, Color::rgb(1, 1, 1));
    assert_eq!(f.px, before);
}

#[test]
fn colour_mixing_truncates_toward_the_start() {
    let black = Color::rgb(0, 0, 0);
    let white = Color::rgb(255, 255, 255);
    assert_eq!(black.mix(white, 128), Color::rgb(128, 128, 128));
    assert_eq!(white.mix(black, 128), Color::rgb(127, 127, 127));
    let c = Color::rgba(10, 200, 100, 7).mix(Color::rgb(20, 100, 200), 255);
    assert_eq!(c, Color::rgb(20, 100, 200));
    assert_eq!(Color::rgb(200, 0, 0).mix(black, 1), Color::rgb(200, 0, 0));
    assert_eq!(Color::rgb(100, 0, 0).mix(Color::rgb(200, 0, 0), 254), Color::rgb(199, 0, 0));
    assert_eq!(Color::rgb(1, 2, 3).with_alpha(4), Color::rgba(1, 2, 3, 4));
}

#[test]
fn the_window_shows_the_frame_scaled_and_centred() {
    let mut f = Frame::new();
    f.put(0, 0, Color::rgb(1, 2, 3));
    f.put(639, 479, Color::rgb(4, 5, 6));
    // 1300×960: scale 2, 10 columns of border on the left.
    let top = f.window_row(1300, 960, 0);
    assert_eq!(top.len(), 1300);
    assert_eq!(top[9], 0);
    assert_eq!(top[10], 0x010203);
    assert_eq!(top[11], 0x010203);
    assert_eq!(top[12], 0);
    let bottom = f.window_row(1300, 960, 959);
    assert_eq!(bottom[10 + 1279], 0x040506);
    assert_eq!(bottom[1290], 0);
    // A window too small for the frame shows its top-left corner unscaled.
    let small = f.window_row(100, 50, 0);
    assert_eq!(small.len(), 100);
    assert_eq!(small[0], 0x010203);
    // Extra height is split above and below.
    let tall = f.window_row(640, 600, 59);
    assert!(tall.iter().all(|&p| p == 0));
    assert_eq!(f.window_row(640, 600, 60)[0], 0x010203);
}

#[test]
fn the_device_rows_are_bgrx_and_can_turn_over() {
    let mut f = Frame::new();
    f.put(0, 0, Color::rgb(1, 2, 3));
    f.put(639, 0, Color::rgb(7, 8, 9));
    let row = f.device_row(0, false);
    assert_eq!(row.len(), 640 * 4);
    assert_eq!(&row[..4], &[3, 2, 1, 255]);
    assert_eq!(&row[639 * 4..], &[9, 8, 7, 255]);
    // Turned over, the frame's first row is the device's last, mirrored.
    let turned = f.device_row(479, true);
    assert_eq!(&turned[..4], &[9, 8, 7, 255]);
    assert_eq!(&turned[639 * 4..], &[3, 2, 1, 255]);
}

#[test]
fn a_mix_lies_between_its_ends() {
    let a = Color::rgb(0, 100, 200);
    let b = Color::rgb(255, 0, 100);
    assert_eq!(a.mix(b, 128), Color::rgb(128, 50, 150));
    for t in [0u8, 1, 64, 128, 200, 255] {
        let m = a.mix(b, t);
        assert!(m.r >= a.r && m.r <= b.r);
        assert!(m.g <= a.g && m.g >= b.g);
        assert!(m.b <= a.b && m.b >= b.b);
        assert_eq!(m.a, 255);
    }
    assert_eq!(a.mix(b, 0), a);
    assert_eq!(a.mix(b, 255), b);
}

#[test]
fn a_put_changes_only_its_pixel() {
    let mut f = Frame::new();
    let before = f.px.clone();
    f.put(3, 2, Color::rgb(9, 8, 7));
    let i = (2 * WIDTH + 3) * 4;
    for (k, (x, y)) in before.iter().zip(&f.px).enumerate() {
        if k < i || k >= i + 4 {
            assert_eq!(x, y);
        }
    }
    assert_eq!(&f.px[i..i + 4], &[9, 8, 7, 255]);
    f.put(-1, 0, Color::rgb(1, 1, 1));
    f.put(0, HEIGHT as i32, Color::rgb(1, 1, 1));
    f.put(0, 0, Color::rgba(1, 1, 1, 0));
    assert_eq!(&f.px[0..4], &before[0..4]);
}
