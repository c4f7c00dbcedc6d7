use sound_dir::tray::{generate_rgba, make_tray_rgba};

/// An icon, drawn with native numbers.
fn native_icon(size: u32, outer: f32, ring: f32) -> Vec<u8> {
    let mut img = vec![0u8; (size * size * 4) as usize];
    let colors =
        [[80u8, 170, 255, 255], [255, 110, 50, 255], [80, 240, 130, 255], [255, 230, 90, 255]];
    let center = size as f32 / 2.0;
    let inner = outer - ring;
    for y in 0..size {
        for x in 0..size {
            let dx = x as f32 + 0.5 - center;
            let dy = y as f32 + 0.5 - center;
            let dist = (dx * dx + dy * dy).sqrt();
            let i = ((y * size + x) * 4) as usize;
            let color = if dist > outer {
                [0, 0, 0, 0]
            } else if dist >= inner {
                let row = if dy < 0.0 { 0 } else { 2 };
                let column = if dx < 0.0 { 0 } else { 1 };
                colors[row + column]
            } else if dist <= inner * 0.55 {
                [255, 255, 255, 255]
            } else {
                [18, 18, 22, 255]
            };
            img[i..i + 4].copy_from_slice(&color);
        }
    }
    img
}

fn pixel(img: &[u8], size: usize, x: usize, y: usize) -> [u8; 4] {
    let i = 4 * (y * size + x);
    [img[i], img[i + 1], img[i + 2], img[i + 3]]
}

#[test]
fn icon_agrees_with_native_numbers() {
    for size in [0u32, 1, 2, 3, 7, 16, 31, 32, 33, 48, 64, 100] {
        let (img, w, h) = make_tray_rgba(size);
        assert_eq!((w, h), (size, size));
        let side = size as f32;
        assert_eq!(img, native_icon(size, side * 0.46, side * 0.18), "size {}", size);
    }
}

#[test]
fn file_icon_agrees_with_native_numbers() {
    for size in [0u32, 1, 5, 16, 20, 32, 48, 64, 128] {
        let side = size as f32;
        let native = native_icon(size, (side * 0.46).max(8.0), (side * 0.18).max(4.0));
        assert_eq!(generate_rgba(size), native, "size {}", size);
    }
}

#[test]
fn small_file_icons_are_coarser() {
    assert_ne!(generate_rgba(16), make_tray_rgba(16).0);
    assert_eq!(generate_rgba(32), make_tray_rgba(32).0);
}

#[test]
fn icon_of_no_size_is_empty() {
    let (img, w, h) = make_tray_rgba(0);
    assert!(img.is_empty());
    assert_eq!((w, h), (0, 0));
}

#[test]
fn quarters_of_the_ring() {
    let (img, _, _) = make_tray_rgba(32);
    assert_eq!(img.len(), 32 * 32 * 4);
    assert_eq!(pixel(&img, 32, 0, 0), [0, 0, 0, 0]);
    assert_eq!(pixel(&img, 32, 7, 7), [80, 170, 255, 255]);
    assert_eq!(pixel(&img, 32, 24, 7), [255, 110, 50, 255]);
    assert_eq!(pixel(&img, 32, 7, 24), [80, 240, 130, 255]);
    assert_eq!(pixel(&img, 32, 24, 24), [255, 230, 90, 255]);
    assert_eq!(pixel(&img, 32, 16, 16), [255, 255, 255, 255]);
    assert_eq!(pixel(&img, 32, 16, 9), [18, 18, 22, 255]);
}

#[test]
fn icon_is_opaque_or_clear_and_symmetric() {
    for size in [31usize, 32] {
        let (img, _, _) = make_tray_rgba(size as u32);
        for y in 0..size {
            for x in 0..size {
                let p = pixel(&img, size, x, y);
                assert!(p[3] == 255 || p == [0, 0, 0, 0]);
                assert_eq!(p[3], pixel(&img, size, size - 1 - x, y)[3]);
                assert_eq!(p[3], pixel(&img, size, x, size - 1 - y)[3]);
            }
        }
    }
}
