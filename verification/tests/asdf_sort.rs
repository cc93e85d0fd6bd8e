use pixelcreep::asdf_sort::{asdf_sort, AsdfSortMode, AsdfSortParams};

fn rgb(values: &[(u8, u8, u8, u8)]) -> Vec<u8> {
    values.iter().flat_map(|&(r, g, b, a)| [r, g, b, a]).collect()
}

fn params(mode: AsdfSortMode) -> AsdfSortParams {
    AsdfSortParams {
        mode,
        loops: 1,
        white_value: -12_345_678,
        black_value: -3_456_789,
        bright_value: 127,
        dark_value: 223,
    }
}

#[test]
fn white_mode_sorts_detected_row_interval_with_processing_endpoint() {
    let mut rgba = rgb(&[(80, 0, 0, 255), (250, 0, 0, 10), (210, 0, 0, 20), (230, 0, 0, 30)]);

    asdf_sort(&mut rgba, 4, 2, params(AsdfSortMode::White));

    assert_eq!(
        rgba,
        rgb(&[(80, 0, 0, 255), (210, 0, 0, 20), (250, 0, 0, 10), (230, 0, 0, 30)])
    );
}

#[test]
fn column_pass_runs_before_row_pass() {
    let mut rgba = rgb(&[
        (250, 0, 0, 255),
        (20, 0, 0, 255),
        (210, 0, 0, 255),
        (20, 0, 0, 255),
        (230, 0, 0, 255),
        (20, 0, 0, 255),
        (240, 0, 0, 255),
        (20, 0, 0, 255),
    ]);

    asdf_sort(&mut rgba, 2, 4, params(AsdfSortMode::White));

    assert_eq!(
        rgba,
        rgb(&[
            (210, 0, 0, 255),
            (20, 0, 0, 255),
            (230, 0, 0, 255),
            (20, 0, 0, 255),
            (250, 0, 0, 255),
            (20, 0, 0, 255),
            (240, 0, 0, 255),
            (20, 0, 0, 255),
        ])
    );
}

#[test]
fn black_mode_uses_signed_rgb_threshold() {
    let mut rgba = rgb(&[(220, 0, 0, 255), (10, 0, 0, 255), (40, 0, 0, 255), (20, 0, 0, 255)]);
    let mut p = params(AsdfSortMode::Black);
    p.black_value = -14_000_000;

    asdf_sort(&mut rgba, 4, 2, p);

    assert_eq!(
        rgba,
        rgb(&[(220, 0, 0, 255), (10, 0, 0, 255), (40, 0, 0, 255), (20, 0, 0, 255)])
    );
}

#[test]
fn bright_and_dark_modes_use_max_channel_brightness() {
    let mut bright = rgb(&[(10, 10, 10, 255), (140, 10, 10, 255), (130, 10, 10, 255), (150, 10, 10, 255)]);
    asdf_sort(&mut bright, 4, 2, params(AsdfSortMode::Bright));
    assert_eq!(
        bright,
        rgb(&[(10, 10, 10, 255), (130, 10, 10, 255), (140, 10, 10, 255), (150, 10, 10, 255)])
    );

    let mut dark = rgb(&[(250, 250, 250, 255), (10, 10, 10, 255), (40, 40, 40, 255), (20, 20, 20, 255)]);
    asdf_sort(&mut dark, 4, 2, params(AsdfSortMode::Dark));
    assert_eq!(
        dark,
        rgb(&[(250, 250, 250, 255), (10, 10, 10, 255), (40, 40, 40, 255), (20, 20, 20, 255)])
    );
}

#[test]
fn multiple_loops_run_without_changing_buffer_shape() {
    let mut rgba = rgb(&[(250, 0, 0, 1), (210, 0, 0, 2), (230, 0, 0, 3), (220, 0, 0, 4)]);
    let mut p = params(AsdfSortMode::White);
    p.loops = 3;

    asdf_sort(&mut rgba, 4, 2, p);

    assert_eq!(rgba.len(), 16);
}

#[test]
fn default_params_are_the_white_mode_thresholds() {
    let p = AsdfSortParams::default();
    assert_eq!(p, params(AsdfSortMode::White));
    assert_eq!(AsdfSortMode::default(), AsdfSortMode::White);
}

#[test]
fn empty_image_is_left_alone() {
    let mut rgba = rgb(&[(250, 0, 0, 1), (10, 0, 0, 2)]);
    let before = rgba.clone();
    asdf_sort(&mut rgba, 0, 2, params(AsdfSortMode::White));
    assert_eq!(rgba, before);
    asdf_sort(&mut rgba, 2, 0, params(AsdfSortMode::White));
    assert_eq!(rgba, before);
}

#[test]
fn full_image_sorts_columns_then_rows() {
    // 3 x 3 image, white mode; only the first two columns and rows are passes.
    let mut rgba = rgb(&[
        (250, 0, 0, 1),
        (200, 0, 0, 2),
        (10, 0, 0, 3),
        (220, 0, 0, 4),
        (240, 0, 0, 5),
        (10, 0, 0, 6),
        (230, 0, 0, 7),
        (210, 0, 0, 8),
        (10, 0, 0, 9),
    ]);
    asdf_sort(&mut rgba, 3, 3, params(AsdfSortMode::White));
    // Column 0 [250,220,230]: run 0..2 sorted excl. last -> [220,250,230].
    // Column 1 [200,240,210]: run 0..2 -> [200,240,210] already ordered.
    // Row 0 [220,200,10]: run starts 0, ends at 1 (10 stops it), span 0..1 -> unchanged.
    // Row 1 [250,240,10]: span 0..1 -> unchanged.
    assert_eq!(
        rgba,
        rgb(&[
            (220, 0, 0, 4),
            (200, 0, 0, 2),
            (10, 0, 0, 3),
            (250, 0, 0, 1),
            (240, 0, 0, 5),
            (10, 0, 0, 6),
            (230, 0, 0, 7),
            (210, 0, 0, 8),
            (10, 0, 0, 9),
        ])
    );
}

#[test]
fn equal_colours_keep_their_order() {
    // Same colour, different alpha: a stable sort keeps the alphas in order.
    let mut rgba = rgb(&[(250, 0, 0, 1), (240, 0, 0, 2), (240, 0, 0, 3), (240, 0, 0, 4), (200, 0, 0, 5)]);
    asdf_sort(&mut rgba, 5, 2, params(AsdfSortMode::White));
    assert_eq!(
        rgba,
        rgb(&[(240, 0, 0, 2), (240, 0, 0, 3), (240, 0, 0, 4), (250, 0, 0, 1), (200, 0, 0, 5)])
    );
}

#[test]
fn trailing_bytes_are_kept() {
    let mut rgba = rgb(&[(80, 0, 0, 255), (250, 0, 0, 10), (210, 0, 0, 20), (230, 0, 0, 30)]);
    rgba.extend_from_slice(&[1, 2, 3]);
    asdf_sort(&mut rgba, 4, 1, params(AsdfSortMode::White));
    // One row: the row pass excludes the last declared row, so nothing moves.
    assert_eq!(&rgba[16..], &[1, 2, 3]);
    assert_eq!(&rgba[..16], &rgb(&[(80, 0, 0, 255), (250, 0, 0, 10), (210, 0, 0, 20), (230, 0, 0, 30)])[..]);
}

#[test]
fn three_loops_equal_three_single_loop_sorts() {
    let start = rgb(&[
        (250, 0, 0, 1),
        (20, 0, 0, 2),
        (210, 0, 0, 3),
        (240, 0, 0, 4),
        (230, 0, 0, 5),
        (215, 0, 0, 6),
        (225, 0, 0, 7),
        (20, 0, 0, 8),
        (245, 0, 0, 9),
        (205, 0, 0, 10),
        (235, 0, 0, 11),
        (212, 0, 0, 12),
    ]);
    let mut a = start.clone();
    let mut p = params(AsdfSortMode::White);
    p.loops = 3;
    asdf_sort(&mut a, 3, 4, p);
    let mut b = start.clone();
    for _ in 0..3 {
        asdf_sort(&mut b, 3, 4, params(AsdfSortMode::White));
    }
    assert_eq!(a, b);
    assert_ne!(a, start);
    let mut c = start.clone();
    let mut z = params(AsdfSortMode::White);
    z.loops = 0;
    asdf_sort(&mut c, 3, 4, z);
    let mut d = start;
    asdf_sort(&mut d, 3, 4, params(AsdfSortMode::White));
    assert_eq!(c, d);
}
