use papercast::frame::Rect;
use papercast::tiles::TileDiff;

fn frame(w: u32, h: u32, f: impl Fn(u32, u32) -> u8) -> Vec<u8> {
    (0..w * h).map(|i| f(i % w, i / w)).collect()
}

#[test]
fn first_frame_is_fully_dirty() {
    let mut d = TileDiff::new(16, 8);
    let rects = d.diff(&frame(64, 64, |_, _| 0), (64, 64));
    assert_eq!(rects, vec![Rect::new(0, 0, 64, 64)]);
}

#[test]
fn identical_frame_is_clean() {
    let mut d = TileDiff::new(16, 8);
    let data = frame(64, 64, |x, y| (x + y) as u8);
    d.diff(&data, (64, 64));
    assert!(d.diff(&data, (64, 64)).is_empty());
}

#[test]
fn single_pixel_dirties_single_tile() {
    let mut d = TileDiff::new(16, 8);
    let mut data = frame(64, 64, |_, _| 0);
    d.diff(&data, (64, 64));
    data[20 * 64 + 40] = 255; // tile (2,1): x 32..48, y 16..32
    assert_eq!(d.diff(&data, (64, 64)), vec![Rect::new(32, 16, 16, 16)]);
}

#[test]
fn distant_changes_stay_separate_rects() {
    let mut d = TileDiff::new(16, 8);
    let mut data = frame(64, 64, |_, _| 0);
    d.diff(&data, (64, 64));
    data[0] = 255; // tile (0,0)
    data[63 * 64 + 63] = 255; // tile (3,3)
    let rects = d.diff(&data, (64, 64));
    assert_eq!(rects, vec![Rect::new(0, 0, 16, 16), Rect::new(48, 48, 16, 16)]);
}

#[test]
fn horizontal_run_coalesces() {
    let mut d = TileDiff::new(16, 8);
    let mut data = frame(64, 64, |_, _| 0);
    d.diff(&data, (64, 64));
    for x in 0..64 {
        data[8 * 64 + x] = 255; // full row through all 4 tiles of row 0
    }
    assert_eq!(d.diff(&data, (64, 64)), vec![Rect::new(0, 0, 64, 16)]);
}

#[test]
fn vertical_runs_merge() {
    let mut d = TileDiff::new(16, 8);
    let mut data = frame(64, 64, |_, _| 0);
    d.diff(&data, (64, 64));
    for y in 0..64 {
        data[y * 64 + 8] = 255; // full column through all 4 tile rows
    }
    assert_eq!(d.diff(&data, (64, 64)), vec![Rect::new(0, 0, 16, 64)]);
}

#[test]
fn rect_explosion_collapses_to_bounding_box() {
    let mut d = TileDiff::new(16, 2);
    let mut data = frame(64, 64, |_, _| 0);
    d.diff(&data, (64, 64));
    // Dirty a diagonal: 4 separate tiles > max_rects=2.
    for t in 0..4 {
        data[(t * 16) * 64 + t * 16] = 255;
    }
    assert_eq!(d.diff(&data, (64, 64)), vec![Rect::new(0, 0, 64, 64)]);
}

#[test]
fn ragged_edge_tiles_are_covered() {
    let mut d = TileDiff::new(16, 8);
    let mut data = frame(70, 40, |_, _| 0); // not multiples of 16
    d.diff(&data, (70, 40));
    data[39 * 70 + 69] = 1; // bottom-right corner
    assert_eq!(d.diff(&data, (70, 40)), vec![Rect::new(64, 32, 6, 8)]);
}

#[test]
fn size_change_is_fully_dirty_again() {
    let mut d = TileDiff::new(16, 8);
    d.diff(&frame(32, 32, |_, _| 0), (32, 32));
    assert_eq!(d.diff(&frame(16, 16, |_, _| 0), (16, 16)), vec![Rect::new(0, 0, 16, 16)]);
}

#[test]
fn tiny_tile_size_is_raised_to_eight() {
    let mut d = TileDiff::new(1, 8);
    let mut data = frame(32, 32, |_, _| 0);
    d.diff(&data, (32, 32));
    data[0] = 9;
    assert_eq!(d.diff(&data, (32, 32)), vec![Rect::new(0, 0, 8, 8)]);
}

#[test]
fn coalesced_rects_never_overlap() {
    let (w, h) = (100u32, 90u32);
    let mut d = TileDiff::new(8, 64);
    d.diff(&frame(w, h, |_, _| 0), (w, h));
    // An L shape, a diagonal and a block: runs, vertical merges, ragged edges.
    let next = frame(w, h, |x, y| {
        let l = (x < 20 && y < 60) || (y >= 40 && y < 60 && x < 70);
        let diag = x == y;
        let block = x >= 80 && y >= 70;
        u8::from(l || diag || block)
    });
    let rects = d.diff(&next, (w, h));
    assert!(!rects.is_empty());
    for (i, a) in rects.iter().enumerate() {
        assert!(a.width > 0 && a.height > 0);
        for b in &rects[i + 1..] {
            let apart = a.x + a.width <= b.x
                || b.x + b.width <= a.x
                || a.y + a.height <= b.y
                || b.y + b.height <= a.y;
            assert!(apart, "{a:?} overlaps {b:?}");
        }
    }
}
