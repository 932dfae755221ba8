use papercast::sharpen::unsharp;

/// The strength as the pipeline hands it over: times 256.
fn fixed_point(amount: f32) -> i32 {
    (amount * 256.0) as i32
}

fn sharpen(buf: &mut [u8], width: usize, amount: f32, radius: usize) {
    let (mut a, mut b) = (Vec::new(), Vec::new());
    unsharp(buf, width, fixed_point(amount), radius, &mut a, &mut b);
}

#[test]
fn flat_region_unchanged() {
    let mut buf = vec![100u8; 16 * 16];
    sharpen(&mut buf, 16, 1.0, 1);
    assert!(buf.iter().all(|&v| v == 100));
}

#[test]
fn step_edge_gains_overshoot() {
    // Vertical step edge: left dark, right bright.
    let width = 16;
    let mut buf: Vec<u8> = (0..16 * width).map(|i| if i % width < 8 { 50 } else { 200 }).collect();
    sharpen(&mut buf, width, 1.0, 1);
    let row = &buf[4 * width..5 * width];
    // Dark side of the edge dips darker, bright side pushes brighter.
    assert!(row[7] < 50, "dark side {}", row[7]);
    assert!(row[8] > 200, "bright side {}", row[8]);
    // Far from the edge: untouched.
    assert_eq!(row[0], 50);
    assert_eq!(row[15], 200);
}

#[test]
fn zero_amount_is_noop() {
    let mut buf: Vec<u8> = (0..64u8).collect();
    let orig = buf.clone();
    sharpen(&mut buf, 8, 0.0, 1);
    assert_eq!(buf, orig);
}

#[test]
fn step_edge_exact_values() {
    // Row [50 x8, 200 x8], radius 1: the blur at the edge is
    // (50+50+200)/3 = 100 and (50+200+200)/3 = 150, so with amount 1.0 the
    // two edge pixels become 50 - 50 = 0 and 200 + 50 = 250.
    let width = 16;
    let mut buf: Vec<u8> = (0..4 * width).map(|i| if i % width < 8 { 50 } else { 200 }).collect();
    sharpen(&mut buf, width, 1.0, 1);
    assert_eq!(buf[7], 0);
    assert_eq!(buf[8], 250);
    assert_eq!(buf[6], 50);
}

#[test]
fn scratch_buffers_hold_the_blurs() {
    let mut buf = vec![0u8, 0, 90, 0, 0, 0];
    let (mut h, mut v) = (Vec::new(), Vec::new());
    unsharp(&mut buf, 3, 256, 1, &mut h, &mut v);
    // Horizontal blur of rows [0,0,90] and [0,0,0] with edge replication.
    assert_eq!(h, vec![0, 30, 60, 0, 0, 0]);
    // Vertical blur (2 rows, edge-replicated): (2*row0 + row1)/3 and (row0 + 2*row1)/3.
    assert_eq!(v, vec![0, 20, 40, 0, 10, 20]);
}
