use papercast::overlay::{draw_digit, draw_ms_counter, fill_rect};

#[test]
fn fill_is_clipped_to_rows_and_width() {
    let mut px = vec![0u8; 4 * 3];
    fill_rect(&mut px, 4, 2, 1, 10, 10, 7);
    assert_eq!(px, vec![0, 0, 0, 0, 0, 0, 7, 7, 0, 0, 7, 7]);
}

#[test]
fn fill_ignores_a_ragged_last_row() {
    let mut px = vec![0u8; 5]; // two whole 2-wide rows and one stray byte
    fill_rect(&mut px, 2, 0, 0, 2, 3, 1);
    assert_eq!(px, vec![1, 1, 1, 1, 0]);
}

#[test]
fn digit_eight_lights_all_segments() {
    let mut px = vec![255u8; 8 * 14];
    draw_digit(&mut px, 8, 1, 1, 1, 8);
    // Segment length 4, thickness 1 at (1,1): top bar row 1, cols 2..4.
    assert_eq!(&px[8 + 1..8 + 6], &[0, 0, 0, 0, 255]);
    // Middle bar row 5, bottom bar row 9.
    assert_eq!(px[5 * 8 + 2], 0);
    assert_eq!(px[9 * 8 + 2], 0);
    // Right verticals at col 4.
    assert_eq!(px[2 * 8 + 4], 0);
    assert_eq!(px[7 * 8 + 4], 0);
}

#[test]
fn digit_one_has_only_right_segments() {
    let mut px = vec![255u8; 8 * 14];
    draw_digit(&mut px, 8, 1, 1, 1, 1);
    assert_eq!(px[8 + 2], 255, "no top bar");
    assert_eq!(px[2 * 8 + 1], 255, "no upper left vertical");
    assert_eq!(px[6 * 8 + 1], 255, "no lower left vertical");
    assert_eq!(px[2 * 8 + 4], 0, "upper right vertical");
    assert_eq!(px[6 * 8 + 4], 0, "lower right vertical");
}

#[test]
fn counter_draws_a_white_plate_with_eight_digits() {
    let scale = 2;
    let stride = 120;
    let mut px = vec![100u8; stride * 30];
    draw_ms_counter(&mut px, stride, 0, scale);
    // Plate: 8 digits * 12 + 4 = 100 px wide, 24 px tall, at the origin.
    assert_eq!(px[0], 255);
    assert_eq!(px[99], 255);
    assert_eq!(px[100], 100);
    assert_eq!(px[23 * stride], 255);
    assert_eq!(px[24 * stride], 100);
    // Digit 0 at x = 2: its top bar is black.
    assert_eq!(px[2 * stride + 4], 0);
}

#[test]
fn counter_grows_past_eight_digits() {
    let stride = 140;
    let mut px = vec![100u8; stride * 12];
    draw_ms_counter(&mut px, stride, 123_456_789, 1);
    // Nine digits: plate 9 * 6 + 2 = 56 wide.
    assert_eq!(px[55], 255);
    assert_eq!(px[56], 100);
}
