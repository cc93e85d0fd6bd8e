use pixelcreep::pixel::{brightness, color_sort_key, processing_color_int, read_pixels, write_pixels, Rgba};
use pixelcreep::stable_sort::{sort_key, stable_sort_by_key, SortKey};

fn c(r: u8, g: u8, b: u8, a: u8) -> Rgba {
    Rgba { r, g, b, a }
}

#[test]
fn processing_color_int_is_the_signed_opaque_argb_word() {
    assert_eq!(processing_color_int(c(0, 0, 0, 7)), 0xff00_0000u32 as i32);
    assert_eq!(processing_color_int(c(255, 255, 255, 0)), -1);
    assert_eq!(processing_color_int(c(80, 0, 0, 255)), -11_534_336);
    assert_eq!(processing_color_int(c(1, 2, 3, 4)), (0xff01_0203u32) as i32);
}

#[test]
fn brightness_and_luma() {
    assert_eq!(brightness(c(10, 200, 30, 0)), 200);
    assert_eq!(brightness(c(10, 20, 30, 0)), 30);
    assert_eq!(color_sort_key(c(255, 255, 255, 0)), 255);
    assert_eq!(color_sort_key(c(100, 0, 0, 0)), 29);
    assert_eq!(color_sort_key(c(0, 100, 0, 0)), 58);
    assert_eq!(sort_key(SortKey::Luma, c(0, 0, 100, 0)), 11);
    assert_eq!(sort_key(SortKey::ColorInt, c(0, 0, 0, 0)), -16_777_216);
}

#[test]
fn stable_sort_orders_by_key_and_keeps_ties() {
    let v = vec![c(9, 0, 0, 1), c(3, 0, 0, 2), c(9, 0, 0, 3), c(1, 0, 0, 4), c(3, 0, 0, 5)];
    let sorted = stable_sort_by_key(SortKey::ColorInt, &v);
    assert_eq!(sorted, vec![c(1, 0, 0, 4), c(3, 0, 0, 2), c(3, 0, 0, 5), c(9, 0, 0, 1), c(9, 0, 0, 3)]);
    assert!(stable_sort_by_key(SortKey::Luma, &Vec::new()).is_empty());
}

#[test]
fn stable_sort_matches_std_stable_sort() {
    let mut v = Vec::new();
    let mut x: u32 = 12345;
    for i in 0..200u32 {
        x = x.wrapping_mul(1_103_515_245).wrapping_add(12345);
        let g = ((x >> 16) % 7) as u8;
        v.push(c(g, g, g, (i % 256) as u8));
    }
    let mut expected = v.clone();
    expected.sort_by_key(|p| color_sort_key(*p));
    assert_eq!(stable_sort_by_key(SortKey::Luma, &v), expected);
}

#[test]
fn pixels_read_and_write() {
    let buf = vec![1u8, 2, 3, 4, 5, 6, 7, 8, 9];
    let px = read_pixels(&buf, 2);
    assert_eq!(px, vec![c(1, 2, 3, 4), c(5, 6, 7, 8)]);
    let mut out = vec![0u8; 9];
    write_pixels(&mut out, &vec![c(8, 7, 6, 5)]);
    assert_eq!(out, vec![8, 7, 6, 5, 0, 0, 0, 0, 0]);
}
