//! Dirty-tile detection: which parts of the processed frame actually changed?
//!
//! Both output transports send the rects produced here, so granularity is
//! bandwidth: a blinking cursor should cost one tile, not a bounding box from
//! the cursor to the clock. Tiles are compared against the previous processed
//! frame (post-dither — safe because Bayer is position-anchored, so unchanged
//! input produces byte-identical output), then coalesced into row runs.

use vstd::prelude::*;

use crate::frame::Rect;

verus! {

// ---------------------------------------------------------------------------
// Geometry
// ---------------------------------------------------------------------------

/// `(x, y)` lies inside `r`.
pub open spec fn rect_contains(r: Rect, x: int, y: int) -> bool {
    r.x <= x < r.x + r.width && r.y <= y < r.y + r.height
}

/// Some rect of `rects` contains `(x, y)`.
pub open spec fn covered(rects: Seq<Rect>, x: int, y: int) -> bool {
    exists|i: int| 0 <= i < rects.len() && rect_contains(#[trigger] rects[i], x, y)
}

/// `r` lies inside a `w`×`h` frame.
pub open spec fn rect_in_bounds(r: Rect, w: int, h: int) -> bool {
    r.x + r.width <= w && r.y + r.height <= h
}

/// Every rect of `rects` lies inside a `w`×`h` frame.
pub open spec fn all_in_bounds(rects: Seq<Rect>, w: int, h: int) -> bool {
    forall|i: int| 0 <= i < rects.len() ==> rect_in_bounds(#[trigger] rects[i], w, h)
}

/// The pixel at `(x, y)` of a `w`-wide frame differs between the two buffers.
pub open spec fn pixel_changed(prev: Seq<u8>, data: Seq<u8>, w: int, x: int, y: int) -> bool {
    data[y * w + x] != prev[y * w + x]
}

/// Some pixel of the `tw`×`th` region at `(x0, y0)` differs.
pub open spec fn region_changed(
    prev: Seq<u8>,
    data: Seq<u8>,
    w: int,
    x0: int,
    y0: int,
    tw: int,
    th: int,
) -> bool {
    exists|x: int, y: int|
        x0 <= x < x0 + tw && y0 <= y < y0 + th && #[trigger] pixel_changed(prev, data, w, x, y)
}

/// Number of `tile`-sized cells needed to cover `len` pixels (the last one
/// may be ragged).
pub open spec fn tile_count(len: int, tile: int) -> int {
    if len <= 0 {
        0
    } else {
        (len - 1) / tile + 1
    }
}

/// Extent of cell `t` along an axis of `len` pixels: a full tile, or the
/// ragged remainder at the far edge.
pub open spec fn tile_extent(len: int, tile: int, t: int) -> int {
    if len - t * tile < tile {
        len - t * tile
    } else {
        tile
    }
}

/// Tile `(tx, ty)` holds at least one changed pixel.
pub open spec fn tile_dirty(
    prev: Seq<u8>,
    data: Seq<u8>,
    w: int,
    h: int,
    tile: int,
    tx: int,
    ty: int,
) -> bool {
    region_changed(
        prev,
        data,
        w,
        tx * tile,
        ty * tile,
        tile_extent(w, tile, tx),
        tile_extent(h, tile, ty),
    )
}

// ---------------------------------------------------------------------------
// The coalescing rules
// ---------------------------------------------------------------------------

/// `r` sits directly below `e` with the same horizontal span.
pub open spec fn stacks_on(e: Rect, r: Rect) -> bool {
    e.x == r.x && e.width == r.width && e.y + e.height == r.y
}

/// Index of the last of the first `n` rects that `r` stacks on, or -1.
pub open spec fn last_stack(rects: Seq<Rect>, r: Rect, n: nat) -> int
    decreases n,
{
    if n == 0 {
        -1
    } else if stacks_on(rects[n - 1], r) {
        n - 1
    } else {
        last_stack(rects, r, (n - 1) as nat)
    }
}

/// Add `r`, growing the last rect it stacks on downward instead when there
/// is one (vertical coalescing).
pub open spec fn merge_down(rects: Seq<Rect>, r: Rect) -> Seq<Rect> {
    let j = last_stack(rects, r, rects.len());
    if j >= 0 {
        rects.update(
            j,
            Rect {
                x: rects[j].x,
                y: rects[j].y,
                width: rects[j].width,
                height: (rects[j].height + r.height) as u32,
            },
        )
    } else {
        rects.push(r)
    }
}

/// State after scanning the first `k` tiles of tile row `ty`, starting from
/// `rects0`: the rects so far and the open horizontal run of dirty tiles.
pub open spec fn scan_row(
    prev: Seq<u8>,
    data: Seq<u8>,
    w: int,
    h: int,
    tile: int,
    ty: int,
    k: nat,
    rects0: Seq<Rect>,
) -> (Seq<Rect>, Option<Rect>)
    decreases k,
{
    if k == 0 {
        (rects0, None)
    } else {
        let prior = scan_row(prev, data, w, h, tile, ty, (k - 1) as nat, rects0);
        let tx = k - 1;
        let tw = tile_extent(w, tile, tx);
        let th = tile_extent(h, tile, ty);
        if tile_dirty(prev, data, w, h, tile, tx, ty) {
            (
                prior.0,
                Some(
                    match prior.1 {
                        Some(r) => Rect {
                            x: r.x,
                            y: r.y,
                            width: (r.width + tw) as u32,
                            height: r.height,
                        },
                        None => Rect {
                            x: (tx * tile) as u32,
                            y: (ty * tile) as u32,
                            width: tw as u32,
                            height: th as u32,
                        },
                    },
                ),
            )
        } else {
            match prior.1 {
                Some(r) => (merge_down(prior.0, r), None),
                None => (prior.0, None),
            }
        }
    }
}

/// `rects0` after tile row `ty` has been scanned and its last run closed.
pub open spec fn row_rects(
    prev: Seq<u8>,
    data: Seq<u8>,
    w: int,
    h: int,
    tile: int,
    ty: int,
    rects0: Seq<Rect>,
) -> Seq<Rect> {
    let s = scan_row(prev, data, w, h, tile, ty, tile_count(w, tile) as nat, rects0);
    match s.1 {
        Some(r) => merge_down(s.0, r),
        None => s.0,
    }
}

/// Rects after scanning the first `n` tile rows.
pub open spec fn rows_rects(
    prev: Seq<u8>,
    data: Seq<u8>,
    w: int,
    h: int,
    tile: int,
    n: nat,
) -> Seq<Rect>
    decreases n,
{
    if n == 0 {
        Seq::empty()
    } else {
        row_rects(prev, data, w, h, tile, n - 1, rows_rects(prev, data, w, h, tile, (n - 1) as nat))
    }
}

/// Smallest rect containing both `a` and `b`.
pub open spec fn union_rect(a: Rect, b: Rect) -> Rect {
    let x = if a.x <= b.x {
        a.x
    } else {
        b.x
    };
    let y = if a.y <= b.y {
        a.y
    } else {
        b.y
    };
    let right = if a.x + a.width >= b.x + b.width {
        a.x + a.width
    } else {
        b.x + b.width
    };
    let bottom = if a.y + a.height >= b.y + b.height {
        a.y + a.height
    } else {
        b.y + b.height
    };
    Rect { x, y, width: (right - x) as u32, height: (bottom - y) as u32 }
}

/// Left fold of [`union_rect`] over a non-empty sequence.
pub open spec fn bounding_box(rects: Seq<Rect>) -> Rect
    decreases rects.len(),
{
    if rects.len() <= 1 {
        rects[0]
    } else {
        union_rect(bounding_box(rects.drop_last()), rects.last())
    }
}

/// The rects `diff` reports for a same-size frame: every tile row scanned,
/// dirty tiles coalesced into row runs, runs merged downward; more than
/// `max_rects` of them collapse into their bounding box.
pub open spec fn changed_rects(
    prev: Seq<u8>,
    data: Seq<u8>,
    w: int,
    h: int,
    tile: int,
    max_rects: int,
) -> Seq<Rect> {
    let r = rows_rects(prev, data, w, h, tile, tile_count(h, tile) as nat);
    if r.len() > max_rects {
        seq![bounding_box(r)]
    } else {
        r
    }
}

// ---------------------------------------------------------------------------
// Executable
// ---------------------------------------------------------------------------

pub struct TileDiff {
    tile: u32,
    /// More rects than this per frame collapse into one bounding box — the
    /// VNC merges beyond roughly 10 regions anyway, and both transports'
    /// per-rect overhead starts beating the pixel savings.
    max_rects: usize,
    prev: Vec<u8>,
    dims: (u32, u32),
}

impl TileDiff {
    /// Tile edge in pixels.
    pub closed spec fn tile_size(&self) -> int {
        self.tile as int
    }

    /// Rect budget before collapsing to a bounding box.
    pub closed spec fn rect_budget(&self) -> int {
        self.max_rects as int
    }

    /// The frame remembered from the previous call.
    pub closed spec fn previous(&self) -> Seq<u8> {
        self.prev@
    }

    /// Dimensions of the remembered frame.
    pub closed spec fn dims(&self) -> (u32, u32) {
        self.dims
    }

    pub closed spec fn wf(&self) -> bool {
        self.tile >= 8 && self.max_rects >= 1
    }

    pub fn new(tile_size: u32, max_rects: usize) -> (d: Self)
        ensures
            d.wf(),
            d.tile_size() == (if tile_size < 8 {
                8
            } else {
                tile_size
            }),
            d.rect_budget() == (if max_rects < 1 {
                1
            } else {
                max_rects
            }),
            d.previous() == Seq::<u8>::empty(),
            d.dims() == (0u32, 0u32),
    {
        TileDiff {
            tile: if tile_size < 8 {
                8
            } else {
                tile_size
            },
            max_rects: if max_rects < 1 {
                1
            } else {
                max_rects
            },
            prev: Vec::new(),
            dims: (0, 0),
        }
    }

    /// Compare `data` (gray, w×h) against the previous frame; remember it;
    /// return the changed regions. First frame (or a size change) returns
    /// one full-frame rect.
    pub fn diff(&mut self, data: &[u8], dims: (u32, u32)) -> (rects: Vec<Rect>)
        requires
            old(self).wf(),
            data@.len() == dims.0 * dims.1,
        ensures
            final(self).wf(),
            final(self).tile_size() == old(self).tile_size(),
            final(self).rect_budget() == old(self).rect_budget(),
            final(self).previous() == data@,
            final(self).dims() == dims,
            old(self).dims() != dims || old(self).previous().len() != data@.len() ==> rects@
                == seq![Rect { x: 0, y: 0, width: dims.0, height: dims.1 }],
            old(self).dims() == dims && old(self).previous().len() == data@.len() ==> rects@
                == changed_rects(
                old(self).previous(),
                data@,
                dims.0 as int,
                dims.1 as int,
                old(self).tile_size(),
                old(self).rect_budget(),
            ),
    {
        let (w, h) = dims;
        if self.dims.0 != w || self.dims.1 != h || self.prev.len() != data.len() {
            self.dims = (w, h);
            self.prev = copy_to_vec(data);
            return vec![Rect::new(0, 0, w, h)];
        }
        let ghost prev = self.prev@;
        let tile = self.tile;
        let tiles_x: u32 = if w == 0 {
            0
        } else {
            (w - 1) / tile + 1
        };
        let tiles_y: u32 = if h == 0 {
            0
        } else {
            (h - 1) / tile + 1
        };
        let mut rects: Vec<Rect> = Vec::new();
        let mut ty: u32 = 0;
        while ty < tiles_y
            invariant
                self.wf(),
                self.tile == tile,
                self.prev@ == prev,
                prev.len() == data@.len(),
                data@.len() == w * h,
                tiles_x == tile_count(w as int, tile as int),
                tiles_y == tile_count(h as int, tile as int),
                ty <= tiles_y,
                rects@ == rows_rects(prev, data@, w as int, h as int, tile as int, ty as nat),
                all_in_bounds(rects@, w as int, h as int),
            decreases tiles_y - ty,
        {
            proof {
                lemma_tile_origin(h as int, tile as int, ty as int);
            }
            let y0: u32 = ty * tile;
            let th: u32 = if h - y0 < tile {
                h - y0
            } else {
                tile
            };
            let ghost rects0 = rects@;
            let mut run: Option<Rect> = None;
            let mut tx: u32 = 0;
            while tx < tiles_x
                invariant
                    self.wf(),
                    self.tile == tile,
                    self.prev@ == prev,
                    prev.len() == data@.len(),
                    data@.len() == w * h,
                    tiles_x == tile_count(w as int, tile as int),
                    ty < tiles_y,
                    tiles_y == tile_count(h as int, tile as int),
                    y0 == ty * tile,
                    th == tile_extent(h as int, tile as int, ty as int),
                    y0 + th <= h,
                    th > 0,
                    tx <= tiles_x,
                    (rects@, run) == scan_row(
                        prev,
                        data@,
                        w as int,
                        h as int,
                        tile as int,
                        ty as int,
                        tx as nat,
                        rects0,
                    ),
                    all_in_bounds(rects@, w as int, h as int),
                    run matches Some(r) ==> (tx < tiles_x ==> r.x + r.width == tx * tile)
                        && r.x + r.width <= w && r.y == y0 && r.height == th,
                decreases tiles_x - tx,
            {
                proof {
                    lemma_tile_origin(w as int, tile as int, tx as int);
                }
                let x0: u32 = tx * tile;
                let tw: u32 = if w - x0 < tile {
                    w - x0
                } else {
                    tile
                };
                proof {
                    lemma_region_fits(w as int, h as int, x0 as int, y0 as int, tw as int, th as int);
                }
                let dirty = self.tile_changed(data, w, x0, y0, tw, th);
                if dirty {
                    run =
                    Some(
                        match run {
                            Some(r) => Rect::new(r.x, r.y, r.width + tw, r.height),
                            None => Rect::new(x0, y0, tw, th),
                        },
                    );
                } else {
                    match run {
                        Some(r) => {
                            proof {
                                lemma_merge_down_in_bounds(rects@, r, w as int, h as int);
                            }
                            push_or_merge_vertically(&mut rects, r);
                            run = None;
                        },
                        None => {},
                    }
                }
                proof {
                    if tx + 1 < tiles_x {
                        lemma_tile_origin(w as int, tile as int, tx + 1);
                        assert((tx + 1) * tile == tx * tile + tile) by (nonlinear_arith);
                    }
                }
                tx = tx + 1;
            }
            match run {
                Some(r) => {
                    proof {
                        lemma_merge_down_in_bounds(rects@, r, w as int, h as int);
                    }
                    push_or_merge_vertically(&mut rects, r);
                },
                None => {},
            }
            ty = ty + 1;
        }
        if rects.len() > self.max_rects {
            let bounds = bounding_box_exec(&rects, w, h);
            rects = vec![bounds];
        }
        self.prev = copy_to_vec(data);
        rects
    }

    fn tile_changed(&self, data: &[u8], stride: u32, x0: u32, y0: u32, tw: u32, th: u32) -> (res:
        bool)
        requires
            self.prev@.len() == data@.len(),
            x0 + tw <= stride,
            y0 + th <= u32::MAX,
            (y0 + th) * stride <= data@.len(),
        ensures
            res == region_changed(
                self.prev@,
                data@,
                stride as int,
                x0 as int,
                y0 as int,
                tw as int,
                th as int,
            ),
    {
        let n = data.len();
        let mut y: u32 = y0;
        while y < y0 + th
            invariant
                n == data@.len(),
                y0 + th <= u32::MAX,
                y0 <= y <= y0 + th,
                self.prev@.len() == data@.len(),
                x0 + tw <= stride,
                (y0 + th) * stride <= data@.len(),
                forall|xx: int, yy: int|
                    x0 <= xx < x0 + tw && y0 <= yy < y ==> !#[trigger] pixel_changed(
                        self.prev@,
                        data@,
                        stride as int,
                        xx,
                        yy,
                    ),
            decreases y0 + th - y,
        {
            proof {
                lemma_row_fits(y as int, (y0 + th) as int, stride as int, data@.len() as int);
            }
            let row: usize = y as usize * stride as usize;
            let mut x: u32 = x0;
            while x < x0 + tw
                invariant
                    n == data@.len(),
                    y0 <= y < y0 + th,
                    x0 <= x <= x0 + tw,
                    self.prev@.len() == data@.len(),
                    x0 + tw <= stride,
                    row == y * stride,
                    row + stride <= data@.len(),
                    forall|xx: int, yy: int|
                        x0 <= xx < x0 + tw && y0 <= yy < y ==> !#[trigger] pixel_changed(
                            self.prev@,
                            data@,
                            stride as int,
                            xx,
                            yy,
                        ),
                    forall|xx: int|
                        x0 <= xx < x ==> !#[trigger] pixel_changed(
                            self.prev@,
                            data@,
                            stride as int,
                            xx,
                            y as int,
                        ),
                decreases x0 + tw - x,
            {
                let off = row + x as usize;
                if data[off] != self.prev[off] {
                    assert(pixel_changed(self.prev@, data@, stride as int, x as int, y as int));
                    return true;
                }
                x = x + 1;
            }
            y = y + 1;
        }
        false
    }
}

/// `tx * tile` is the start of a cell that exists when `tx` is below the
/// cell count, and it fits the axis.
proof fn lemma_tile_origin(len: int, tile: int, t: int)
    requires
        tile >= 8,
        0 <= t < tile_count(len, tile),
    ensures
        0 <= t * tile < len,
        0 < tile_extent(len, tile, t) <= tile,
        t * tile + tile_extent(len, tile, t) <= len,
{
    assert(t <= (len - 1) / tile);
    assert(t * tile <= ((len - 1) / tile) * tile) by (nonlinear_arith)
        requires
            t <= (len - 1) / tile,
            tile >= 8,
    ;
    assert(((len - 1) / tile) * tile <= len - 1) by (nonlinear_arith)
        requires
            tile >= 8,
            len >= 1,
    ;
    assert(0 <= t * tile) by (nonlinear_arith)
        requires
            t >= 0,
            tile >= 8,
    ;
}

/// A region inside a `w`×`h` frame reaches no further than its buffer.
proof fn lemma_region_fits(w: int, h: int, x0: int, y0: int, tw: int, th: int)
    requires
        0 <= x0,
        0 <= tw,
        x0 + tw <= w,
        0 <= y0,
        0 <= th,
        y0 + th <= h,
    ensures
        (y0 + th) * w <= w * h,
{
    assert((y0 + th) * w <= h * w) by (nonlinear_arith)
        requires
            y0 + th <= h,
            0 <= w,
    ;
    assert(h * w == w * h) by (nonlinear_arith);
}

/// Row `y` of a frame whose first `rows` rows fit the buffer also fits.
proof fn lemma_row_fits(y: int, rows: int, stride: int, len: int)
    requires
        0 <= y < rows,
        0 <= stride,
        rows * stride <= len,
    ensures
        y * stride + stride <= len,
        0 <= y * stride,
{
    assert((y + 1) * stride <= rows * stride) by (nonlinear_arith)
        requires
            y + 1 <= rows,
            0 <= stride,
    ;
    assert((y + 1) * stride == y * stride + stride) by (nonlinear_arith);
    assert(0 <= y * stride) by (nonlinear_arith)
        requires
            0 <= y,
            0 <= stride,
    ;
}

/// [`last_stack`] finds a rect that `r` stacks on, or reports none.
proof fn lemma_last_stack(rects: Seq<Rect>, r: Rect, n: nat)
    requires
        n <= rects.len(),
    ensures
        -1 <= last_stack(rects, r, n) < n,
        last_stack(rects, r, n) >= 0 ==> stacks_on(rects[last_stack(rects, r, n)], r),
        last_stack(rects, r, n) < 0 ==> forall|i: int| 0 <= i < n ==> !stacks_on(rects[i], r),
    decreases n,
{
    if n > 0 {
        lemma_last_stack(rects, r, (n - 1) as nat);
    }
}

/// Merging an in-bounds rect keeps every rect in bounds.
proof fn lemma_merge_down_in_bounds(rects: Seq<Rect>, r: Rect, w: int, h: int)
    requires
        all_in_bounds(rects, w, h),
        rect_in_bounds(r, w, h),
        h <= u32::MAX,
    ensures
        all_in_bounds(merge_down(rects, r), w, h),
{
    lemma_last_stack(rects, r, rects.len());
}


// ---------------------------------------------------------------------------
// Properties of the coalescing rules
// ---------------------------------------------------------------------------

/// Merging keeps every point that was covered, and covers all of `r`.
proof fn lemma_merge_down_covers(rects: Seq<Rect>, r: Rect, w: int, h: int, x: int, y: int)
    requires
        all_in_bounds(rects, w, h),
        rect_in_bounds(r, w, h),
        h <= u32::MAX,
        covered(rects, x, y) || rect_contains(r, x, y),
    ensures
        covered(merge_down(rects, r), x, y),
{
    lemma_last_stack(rects, r, rects.len());
    let j = last_stack(rects, r, rects.len());
    let m = merge_down(rects, r);
    if j >= 0 {
        if covered(rects, x, y) {
            let i = choose|i: int| 0 <= i < rects.len() && rect_contains(#[trigger] rects[i], x, y);
            assert(rect_contains(m[i], x, y));
        } else {
            assert(rect_contains(m[j], x, y));
        }
    } else {
        if covered(rects, x, y) {
            let i = choose|i: int| 0 <= i < rects.len() && rect_contains(#[trigger] rects[i], x, y);
            assert(rect_contains(m[i], x, y));
        } else {
            assert(rect_contains(m[rects.len() as int], x, y));
        }
    }
}

/// A cell that is not the last along its axis is a full tile.
proof fn lemma_full_tile(len: int, tile: int, t: int)
    requires
        tile >= 8,
        0 <= t,
        t + 1 < tile_count(len, tile),
    ensures
        tile_extent(len, tile, t) == tile,
{
    lemma_tile_origin(len, tile, t + 1);
    assert((t + 1) * tile == t * tile + tile) by (nonlinear_arith);
}

/// Shape facts of a row scan: rects stay in bounds, and an open run ends at
/// the last scanned tile, spanning the row's full tile height.
proof fn lemma_scan_shape(
    prev: Seq<u8>,
    data: Seq<u8>,
    w: int,
    h: int,
    tile: int,
    ty: int,
    k: nat,
    rects0: Seq<Rect>,
)
    requires
        tile >= 8,
        0 <= ty < tile_count(h, tile),
        k <= tile_count(w, tile),
        w <= u32::MAX,
        h <= u32::MAX,
        all_in_bounds(rects0, w, h),
    ensures
        all_in_bounds(scan_row(prev, data, w, h, tile, ty, k, rects0).0, w, h),
        scan_row(prev, data, w, h, tile, ty, k, rects0).1 matches Some(r) ==> {
            &&& k > 0
            &&& r.x + r.width == (k - 1) * tile + tile_extent(w, tile, k - 1)
            &&& r.y == ty * tile
            &&& r.height == tile_extent(h, tile, ty)
            &&& rect_in_bounds(r, w, h)
        },
    decreases k,
{
    lemma_tile_origin(h, tile, ty);
    if k > 0 {
        lemma_scan_shape(prev, data, w, h, tile, ty, (k - 1) as nat, rects0);
        let prior = scan_row(prev, data, w, h, tile, ty, (k - 1) as nat, rects0);
        let tx = k - 1;
        lemma_tile_origin(w, tile, tx);
        if prior.1 is Some {
            lemma_full_tile(w, tile, tx - 1);
            assert((tx - 1) * tile + tile == tx * tile) by (nonlinear_arith);
            lemma_merge_down_in_bounds(prior.0, prior.1->0, w, h);
        }
    }
}

/// Scanning never uncovers a point.
proof fn lemma_scan_keeps(
    prev: Seq<u8>,
    data: Seq<u8>,
    w: int,
    h: int,
    tile: int,
    ty: int,
    k: nat,
    rects0: Seq<Rect>,
    x: int,
    y: int,
)
    requires
        tile >= 8,
        0 <= ty < tile_count(h, tile),
        k <= tile_count(w, tile),
        w <= u32::MAX,
        h <= u32::MAX,
        all_in_bounds(rects0, w, h),
        covered(rects0, x, y),
    ensures
        covered(scan_row(prev, data, w, h, tile, ty, k, rects0).0, x, y),
    decreases k,
{
    if k > 0 {
        lemma_scan_keeps(prev, data, w, h, tile, ty, (k - 1) as nat, rects0, x, y);
        lemma_scan_shape(prev, data, w, h, tile, ty, (k - 1) as nat, rects0);
        let prior = scan_row(prev, data, w, h, tile, ty, (k - 1) as nat, rects0);
        if prior.1 is Some {
            lemma_merge_down_covers(prior.0, prior.1->0, w, h, x, y);
        }
    }
}

/// Every point of a dirty tile already scanned is covered, either by the
/// rects or by the open run.
proof fn lemma_scan_tile(
    prev: Seq<u8>,
    data: Seq<u8>,
    w: int,
    h: int,
    tile: int,
    ty: int,
    k: nat,
    rects0: Seq<Rect>,
    tx: int,
    x: int,
    y: int,
)
    requires
        tile >= 8,
        0 <= ty < tile_count(h, tile),
        k <= tile_count(w, tile),
        w <= u32::MAX,
        h <= u32::MAX,
        all_in_bounds(rects0, w, h),
        0 <= tx < k,
        tile_dirty(prev, data, w, h, tile, tx, ty),
        tx * tile <= x < tx * tile + tile_extent(w, tile, tx),
        ty * tile <= y < ty * tile + tile_extent(h, tile, ty),
    ensures
        ({
            let s = scan_row(prev, data, w, h, tile, ty, k, rects0);
            covered(s.0, x, y) || (s.1 matches Some(r) && rect_contains(r, x, y))
        }),
    decreases k,
{
    let prior = scan_row(prev, data, w, h, tile, ty, (k - 1) as nat, rects0);
    lemma_scan_shape(prev, data, w, h, tile, ty, (k - 1) as nat, rects0);
    lemma_tile_origin(w, tile, k - 1);
    lemma_tile_origin(h, tile, ty);
    if tx < k - 1 {
        lemma_scan_tile(prev, data, w, h, tile, ty, (k - 1) as nat, rects0, tx, x, y);
        if tile_dirty(prev, data, w, h, tile, k - 1, ty) {
            if prior.1 is Some {
                lemma_full_tile(w, tile, k - 2);
                assert((k - 2) * tile + tile == (k - 1) * tile) by (nonlinear_arith);
            }
        } else if prior.1 is Some {
            lemma_merge_down_covers(prior.0, prior.1->0, w, h, x, y);
        }
    } else {
        if prior.1 is Some {
            lemma_full_tile(w, tile, k - 2);
            assert((k - 2) * tile + tile == (k - 1) * tile) by (nonlinear_arith);
        }
    }
}

/// Closing a row keeps covered points covered.
proof fn lemma_row_keeps(
    prev: Seq<u8>,
    data: Seq<u8>,
    w: int,
    h: int,
    tile: int,
    ty: int,
    rects0: Seq<Rect>,
    x: int,
    y: int,
)
    requires
        tile >= 8,
        0 <= ty < tile_count(h, tile),
        w <= u32::MAX,
        h <= u32::MAX,
        all_in_bounds(rects0, w, h),
        covered(rects0, x, y),
    ensures
        covered(row_rects(prev, data, w, h, tile, ty, rects0), x, y),
        all_in_bounds(row_rects(prev, data, w, h, tile, ty, rects0), w, h),
{
    let k = tile_count(w, tile) as nat;
    lemma_scan_keeps(prev, data, w, h, tile, ty, k, rects0, x, y);
    lemma_scan_shape(prev, data, w, h, tile, ty, k, rects0);
    let s = scan_row(prev, data, w, h, tile, ty, k, rects0);
    if s.1 is Some {
        lemma_merge_down_covers(s.0, s.1->0, w, h, x, y);
        lemma_merge_down_in_bounds(s.0, s.1->0, w, h);
    }
}

/// Rows scanned so far keep their rects in bounds.
proof fn lemma_rows_in_bounds(
    prev: Seq<u8>,
    data: Seq<u8>,
    w: int,
    h: int,
    tile: int,
    n: nat,
)
    requires
        tile >= 8,
        n <= tile_count(h, tile),
        w <= u32::MAX,
        h <= u32::MAX,
    ensures
        all_in_bounds(rows_rects(prev, data, w, h, tile, n), w, h),
    decreases n,
{
    if n > 0 {
        lemma_rows_in_bounds(prev, data, w, h, tile, (n - 1) as nat);
        let r0 = rows_rects(prev, data, w, h, tile, (n - 1) as nat);
        let k = tile_count(w, tile) as nat;
        lemma_scan_shape(prev, data, w, h, tile, n - 1, k, r0);
        let s = scan_row(prev, data, w, h, tile, n - 1, k, r0);
        if s.1 is Some {
            lemma_merge_down_in_bounds(s.0, s.1->0, w, h);
        }
    }
}

/// Every point of a dirty tile in the first `n` rows is covered.
proof fn lemma_rows_cover(
    prev: Seq<u8>,
    data: Seq<u8>,
    w: int,
    h: int,
    tile: int,
    n: nat,
    tx: int,
    ty: int,
    x: int,
    y: int,
)
    requires
        tile >= 8,
        n <= tile_count(h, tile),
        w <= u32::MAX,
        h <= u32::MAX,
        0 <= tx < tile_count(w, tile),
        0 <= ty < n,
        tile_dirty(prev, data, w, h, tile, tx, ty),
        tx * tile <= x < tx * tile + tile_extent(w, tile, tx),
        ty * tile <= y < ty * tile + tile_extent(h, tile, ty),
    ensures
        covered(rows_rects(prev, data, w, h, tile, n), x, y),
    decreases n,
{
    let r0 = rows_rects(prev, data, w, h, tile, (n - 1) as nat);
    lemma_rows_in_bounds(prev, data, w, h, tile, (n - 1) as nat);
    if ty < n - 1 {
        lemma_rows_cover(prev, data, w, h, tile, (n - 1) as nat, tx, ty, x, y);
        lemma_row_keeps(prev, data, w, h, tile, n - 1, r0, x, y);
    } else {
        let k = tile_count(w, tile) as nat;
        lemma_scan_tile(prev, data, w, h, tile, ty, k, r0, tx, x, y);
        lemma_scan_shape(prev, data, w, h, tile, ty, k, r0);
        let s = scan_row(prev, data, w, h, tile, ty, k, r0);
        if s.1 is Some {
            lemma_merge_down_covers(s.0, s.1->0, w, h, x, y);
        }
    }
}

/// The union of two in-bounds rects holds both and stays in bounds.
proof fn lemma_union_rect(a: Rect, b: Rect, w: int, h: int)
    requires
        rect_in_bounds(a, w, h),
        rect_in_bounds(b, w, h),
        w <= u32::MAX,
        h <= u32::MAX,
    ensures
        rect_in_bounds(union_rect(a, b), w, h),
        forall|x: int, y: int|
            rect_contains(a, x, y) || rect_contains(b, x, y) ==> #[trigger] rect_contains(
                union_rect(a, b),
                x,
                y,
            ),
{
}

/// The bounding box holds every rect and stays in bounds.
proof fn lemma_bounding_box(rects: Seq<Rect>, w: int, h: int, x: int, y: int)
    requires
        rects.len() >= 1,
        all_in_bounds(rects, w, h),
        w <= u32::MAX,
        h <= u32::MAX,
    ensures
        rect_in_bounds(bounding_box(rects), w, h),
        covered(rects, x, y) ==> rect_contains(bounding_box(rects), x, y),
    decreases rects.len(),
{
    if rects.len() > 1 {
        let init = rects.drop_last();
        lemma_bounding_box(init, w, h, x, y);
        lemma_union_rect(bounding_box(init), rects.last(), w, h);
        if covered(rects, x, y) {
            let i = choose|i: int| 0 <= i < rects.len() && rect_contains(#[trigger] rects[i], x, y);
            if i < rects.len() - 1 {
                assert(rect_contains(init[i], x, y));
            }
        }
    } else {
        if covered(rects, x, y) {
            let i = choose|i: int| 0 <= i < rects.len() && rect_contains(#[trigger] rects[i], x, y);
            assert(i == 0);
        }
    }
}

/// A scan over a row without dirty tiles leaves the rects as they were.
proof fn lemma_clean_scan(
    prev: Seq<u8>,
    data: Seq<u8>,
    w: int,
    h: int,
    tile: int,
    ty: int,
    k: nat,
    rects0: Seq<Rect>,
)
    requires
        prev == data,
    ensures
        scan_row(prev, data, w, h, tile, ty, k, rects0) == (rects0, None::<Rect>),
    decreases k,
{
    if k > 0 {
        lemma_clean_scan(prev, data, w, h, tile, ty, (k - 1) as nat, rects0);
    }
}

/// An unchanged frame produces no rects at all.
pub proof fn lemma_unchanged_frame_is_clean(
    prev: Seq<u8>,
    data: Seq<u8>,
    w: int,
    h: int,
    tile: int,
    max_rects: int,
)
    requires
        prev == data,
        max_rects >= 1,
    ensures
        changed_rects(prev, data, w, h, tile, max_rects) == Seq::<Rect>::empty(),
{
    lemma_clean_rows(prev, data, w, h, tile, tile_count(h, tile) as nat);
}

proof fn lemma_clean_rows(prev: Seq<u8>, data: Seq<u8>, w: int, h: int, tile: int, n: nat)
    requires
        prev == data,
    ensures
        rows_rects(prev, data, w, h, tile, n) == Seq::<Rect>::empty(),
    decreases n,
{
    if n > 0 {
        lemma_clean_rows(prev, data, w, h, tile, (n - 1) as nat);
        lemma_clean_scan(
            prev,
            data,
            w,
            h,
            tile,
            n - 1,
            tile_count(w, tile) as nat,
            Seq::<Rect>::empty(),
        );
    }
}

/// The reported rects lie inside the frame and never exceed the budget.
pub proof fn lemma_rects_fit_frame(
    prev: Seq<u8>,
    data: Seq<u8>,
    w: int,
    h: int,
    tile: int,
    max_rects: int,
)
    requires
        tile >= 8,
        max_rects >= 1,
        0 <= w <= u32::MAX,
        0 <= h <= u32::MAX,
    ensures
        all_in_bounds(changed_rects(prev, data, w, h, tile, max_rects), w, h),
        changed_rects(prev, data, w, h, tile, max_rects).len() <= max_rects,
{
    let r = rows_rects(prev, data, w, h, tile, tile_count(h, tile) as nat);
    lemma_rows_in_bounds(prev, data, w, h, tile, tile_count(h, tile) as nat);
    if r.len() > max_rects {
        lemma_bounding_box(r, w, h, 0, 0);
    }
}

/// Every pixel that changed lies inside one of the reported rects, so
/// a transport that repaints the rects repaints every change.
pub proof fn lemma_changed_pixels_covered(
    prev: Seq<u8>,
    data: Seq<u8>,
    w: int,
    h: int,
    tile: int,
    max_rects: int,
    x: int,
    y: int,
)
    requires
        tile >= 8,
        max_rects >= 1,
        0 <= w <= u32::MAX,
        0 <= h <= u32::MAX,
        0 <= x < w,
        0 <= y < h,
        pixel_changed(prev, data, w, x, y),
    ensures
        covered(changed_rects(prev, data, w, h, tile, max_rects), x, y),
{
    let tx = x / tile;
    let ty = y / tile;
    lemma_cell_of(w, tile, x);
    lemma_cell_of(h, tile, y);
    assert(tile_dirty(prev, data, w, h, tile, tx, ty));
    let n = tile_count(h, tile) as nat;
    lemma_rows_cover(prev, data, w, h, tile, n, tx, ty, x, y);
    let r = rows_rects(prev, data, w, h, tile, n);
    if r.len() > max_rects {
        lemma_rows_in_bounds(prev, data, w, h, tile, n);
        lemma_bounding_box(r, w, h, x, y);
        assert(rect_contains(changed_rects(prev, data, w, h, tile, max_rects)[0], x, y));
    }
}

/// Two rects share no pixel.
pub open spec fn disjoint(a: Rect, b: Rect) -> bool {
    a.x + a.width <= b.x || b.x + b.width <= a.x || a.y + a.height <= b.y || b.y + b.height <= a.y
}

/// No two of `rects` share a pixel.
pub open spec fn pairwise_disjoint(rects: Seq<Rect>) -> bool {
    forall|i: int, j: int|
        0 <= i < rects.len() && 0 <= j < rects.len() && i != j ==> disjoint(
            #[trigger] rects[i],
            #[trigger] rects[j],
        )
}

/// Every rect has at least one pixel.
pub open spec fn all_nonempty(rects: Seq<Rect>) -> bool {
    forall|i: int| 0 <= i < rects.len() ==> (#[trigger] rects[i]).width > 0 && rects[i].height > 0
}

/// Every rect ends at or above row `bottom`.
pub open spec fn all_above(rects: Seq<Rect>, bottom: int) -> bool {
    forall|i: int| 0 <= i < rects.len() ==> (#[trigger] rects[i]).y + rects[i].height <= bottom
}

/// Every rect reaching below row `y0` ends at or left of column `x`.
pub open spec fn reaching_left_of(rects: Seq<Rect>, y0: int, x: int) -> bool {
    forall|i: int|
        0 <= i < rects.len() && (#[trigger] rects[i]).y + rects[i].height > y0 ==> rects[i].x
            + rects[i].width <= x
}

/// Closing a run `r` of the row starting at `y0` keeps the rects disjoint
/// and non-empty, when every rect already reaching into the row lies left
/// of the run.
proof fn lemma_merge_down_disjoint(rects: Seq<Rect>, r: Rect, y0: int, bottom: int)
    requires
        pairwise_disjoint(rects),
        all_nonempty(rects),
        all_above(rects, bottom),
        reaching_left_of(rects, y0, r.x as int),
        r.width > 0,
        r.height > 0,
        r.y == y0,
        y0 + r.height == bottom,
        bottom <= u32::MAX,
    ensures
        pairwise_disjoint(merge_down(rects, r)),
        all_nonempty(merge_down(rects, r)),
        all_above(merge_down(rects, r), bottom),
        reaching_left_of(merge_down(rects, r), y0, r.x + r.width),
{
    lemma_last_stack(rects, r, rects.len());
    let j = last_stack(rects, r, rects.len());
    let m = merge_down(rects, r);
    if j >= 0 {
        let e = rects[j];
        assert(e.y + e.height == y0);
        assert(m[j].height == e.height + r.height);
        assert forall|a: int, b: int|
            0 <= a < m.len() && 0 <= b < m.len() && a != b implies disjoint(
            #[trigger] m[a],
            #[trigger] m[b],
        ) by {
            if a == j || b == j {
                let f = if a == j {
                    rects[b]
                } else {
                    rects[a]
                };
                let fi = if a == j {
                    b
                } else {
                    a
                };
                assert(f == m[fi]);
                assert(disjoint(rects[j], rects[fi]));
                assert(f.width > 0 && f.height > 0);
            } else {
                assert(disjoint(rects[a], rects[b]));
            }
        }
    } else {
        assert forall|a: int, b: int|
            0 <= a < m.len() && 0 <= b < m.len() && a != b implies disjoint(
            #[trigger] m[a],
            #[trigger] m[b],
        ) by {
            if a < rects.len() && b < rects.len() {
                assert(disjoint(rects[a], rects[b]));
            } else if a < rects.len() {
                assert(rects[a].width > 0 && rects[a].height > 0);
            } else {
                assert(rects[b].width > 0 && rects[b].height > 0);
            }
        }
    }
}

/// The scan of tile row `ty` keeps the rects disjoint and non-empty; the
/// open run lies right of every rect reaching into the row.
proof fn lemma_scan_disjoint(
    prev: Seq<u8>,
    data: Seq<u8>,
    w: int,
    h: int,
    tile: int,
    ty: int,
    k: nat,
    rects0: Seq<Rect>,
)
    requires
        tile >= 8,
        0 <= ty < tile_count(h, tile),
        k <= tile_count(w, tile),
        w <= u32::MAX,
        h <= u32::MAX,
        all_in_bounds(rects0, w, h),
        pairwise_disjoint(rects0),
        all_nonempty(rects0),
        all_above(rects0, ty * tile),
    ensures
        ({
            let s = scan_row(prev, data, w, h, tile, ty, k, rects0);
            let bottom = ty * tile + tile_extent(h, tile, ty);
            &&& pairwise_disjoint(s.0)
            &&& all_nonempty(s.0)
            &&& all_above(s.0, bottom)
            &&& match s.1 {
                Some(r) => r.width > 0 && reaching_left_of(s.0, ty * tile, r.x as int),
                None => reaching_left_of(s.0, ty * tile, k * tile),
            }
        }),
    decreases k,
{
    lemma_tile_origin(h, tile, ty);
    let bottom = ty * tile + tile_extent(h, tile, ty);
    if k == 0 {
        assert(reaching_left_of(rects0, ty * tile, 0));
    } else {
        lemma_scan_disjoint(prev, data, w, h, tile, ty, (k - 1) as nat, rects0);
        lemma_scan_shape(prev, data, w, h, tile, ty, (k - 1) as nat, rects0);
        let prior = scan_row(prev, data, w, h, tile, ty, (k - 1) as nat, rects0);
        let tx = k - 1;
        lemma_tile_origin(w, tile, tx);
        assert((k - 1) * tile + tile == k * tile) by (nonlinear_arith);
        let s = scan_row(prev, data, w, h, tile, ty, k, rects0);
        if tile_dirty(prev, data, w, h, tile, tx, ty) {
            match prior.1 {
                Some(r) => {
                    lemma_full_tile(w, tile, tx - 1);
                    assert((tx - 1) * tile + tile == tx * tile) by (nonlinear_arith);
                },
                None => {},
            }
        } else {
            match prior.1 {
                Some(r) => {
                    lemma_full_tile(w, tile, tx - 1);
                    assert((tx - 1) * tile + tile == tx * tile) by (nonlinear_arith);
                    lemma_merge_down_disjoint(prior.0, r, ty * tile, bottom);
                    let m = merge_down(prior.0, r);
                    assert forall|i: int|
                        0 <= i < m.len() && (#[trigger] m[i]).y + m[i].height > ty * tile implies m[i].x
                        + m[i].width <= k * tile by {}
                },
                None => {
                    assert forall|i: int|
                        0 <= i < s.0.len() && (#[trigger] s.0[i]).y + s.0[i].height > ty * tile implies s.0[i].x
                        + s.0[i].width <= k * tile by {}
                },
            }
        }
    }
}

/// The rows scanned so far yield disjoint non-empty rects above the next
/// tile row.
proof fn lemma_rows_disjoint(prev: Seq<u8>, data: Seq<u8>, w: int, h: int, tile: int, n: nat)
    requires
        tile >= 8,
        n <= tile_count(h, tile),
        w <= u32::MAX,
        h <= u32::MAX,
    ensures
        pairwise_disjoint(rows_rects(prev, data, w, h, tile, n)),
        all_nonempty(rows_rects(prev, data, w, h, tile, n)),
        all_above(rows_rects(prev, data, w, h, tile, n), n * tile),
    decreases n,
{
    if n > 0 {
        let ty = n - 1;
        lemma_rows_disjoint(prev, data, w, h, tile, ty as nat);
        lemma_rows_in_bounds(prev, data, w, h, tile, ty as nat);
        let r0 = rows_rects(prev, data, w, h, tile, ty as nat);
        let k = tile_count(w, tile) as nat;
        lemma_tile_origin(h, tile, ty);
        assert(ty * tile + tile == n * tile) by (nonlinear_arith)
            requires
                ty == n - 1,
        ;
        let bottom = ty * tile + tile_extent(h, tile, ty);
        lemma_scan_disjoint(prev, data, w, h, tile, ty, k, r0);
        lemma_scan_shape(prev, data, w, h, tile, ty, k, r0);
        let s = scan_row(prev, data, w, h, tile, ty, k, r0);
        match s.1 {
            Some(r) => {
                lemma_merge_down_disjoint(s.0, r, ty * tile, bottom);
            },
            None => {},
        }
        let out = rows_rects(prev, data, w, h, tile, n);
        assert(out == row_rects(prev, data, w, h, tile, ty, r0));
        assert forall|i: int| 0 <= i < out.len() implies (#[trigger] out[i]).y + out[i].height
            <= n * tile by {}
    }
}

/// The reported rects never overlap, and each holds at least one pixel.
pub proof fn lemma_rects_disjoint(
    prev: Seq<u8>,
    data: Seq<u8>,
    w: int,
    h: int,
    tile: int,
    max_rects: int,
)
    requires
        tile >= 8,
        max_rects >= 1,
        0 <= w <= u32::MAX,
        0 <= h <= u32::MAX,
    ensures
        pairwise_disjoint(changed_rects(prev, data, w, h, tile, max_rects)),
        all_nonempty(changed_rects(prev, data, w, h, tile, max_rects)),
{
    let n = tile_count(h, tile) as nat;
    lemma_rows_disjoint(prev, data, w, h, tile, n);
    let r = rows_rects(prev, data, w, h, tile, n);
    if r.len() > max_rects {
        lemma_rows_in_bounds(prev, data, w, h, tile, n);
        let r0 = r[0];
        assert(rect_contains(r0, r0.x as int, r0.y as int));
        assert(covered(r, r0.x as int, r0.y as int));
        lemma_bounding_box(r, w, h, r0.x as int, r0.y as int);
        let c = changed_rects(prev, data, w, h, tile, max_rects);
        assert(c.len() == 1);
        assert(c[0] == bounding_box(r));
    }
}

/// The cell holding coordinate `v` exists and its extent holds `v`.
proof fn lemma_cell_of(len: int, tile: int, v: int)
    requires
        tile >= 8,
        0 <= v < len,
    ensures
        0 <= v / tile < tile_count(len, tile),
        (v / tile) * tile <= v < (v / tile) * tile + tile_extent(len, tile, v / tile),
{
    vstd::arithmetic::div_mod::lemma_fundamental_div_mod(v, tile);
    vstd::arithmetic::div_mod::lemma_div_is_ordered(v, len - 1, tile);
    vstd::arithmetic::div_mod::lemma_div_pos_is_pos(v, tile);
    assert(tile * (v / tile) == (v / tile) * tile) by (nonlinear_arith);
}

/// A fresh vector holding the bytes of `data`.
fn copy_to_vec(data: &[u8]) -> (v: Vec<u8>)
    ensures
        v@ == data@,
{
    let mut v: Vec<u8> = Vec::with_capacity(data.len());
    let mut i: usize = 0;
    while i < data.len()
        invariant
            i <= data@.len(),
            v@ == data@.take(i as int),
        decreases data@.len() - i,
    {
        v.push(data[i]);
        i = i + 1;
        assert(v@ =~= data@.take(i as int));
    }
    assert(data@.take(data@.len() as int) =~= data@);
    v
}

/// If `r` sits directly below an existing rect with the same x/width, grow
/// that rect downward instead of adding a new one (vertical coalescing —
/// catches window edges, scrolling regions, etc.).
fn push_or_merge_vertically(rects: &mut Vec<Rect>, r: Rect)
    requires
        r.y + r.height <= u32::MAX,
    ensures
        final(rects)@ == merge_down(old(rects)@, r),
{
    let mut j: usize = rects.len();
    while j > 0
        invariant
            j <= rects@.len(),
            rects@ == old(rects)@,
            r.y + r.height <= u32::MAX,
            last_stack(rects@, r, rects@.len()) == last_stack(rects@, r, j as nat),
        decreases j,
    {
        let e = rects[j - 1];
        if e.x == r.x && e.width == r.width && e.y as u64 + e.height as u64 == r.y as u64 {
            let grown = Rect::new(e.x, e.y, e.width, e.height + r.height);
            rects.set(j - 1, grown);
            return;
        }
        j = j - 1;
    }
    rects.push(r);
}

/// The smallest rect holding both, computed in place.
fn union_rect_exec(a: Rect, b: Rect, w: u32, h: u32) -> (u: Rect)
    requires
        rect_in_bounds(a, w as int, h as int),
        rect_in_bounds(b, w as int, h as int),
    ensures
        u == union_rect(a, b),
        rect_in_bounds(u, w as int, h as int),
{
    let x = if a.x <= b.x {
        a.x
    } else {
        b.x
    };
    let y = if a.y <= b.y {
        a.y
    } else {
        b.y
    };
    let right = if a.x + a.width >= b.x + b.width {
        a.x + a.width
    } else {
        b.x + b.width
    };
    let bottom = if a.y + a.height >= b.y + b.height {
        a.y + a.height
    } else {
        b.y + b.height
    };
    Rect::new(x, y, right - x, bottom - y)
}

fn bounding_box_exec(rects: &Vec<Rect>, w: u32, h: u32) -> (b: Rect)
    requires
        rects@.len() >= 1,
        all_in_bounds(rects@, w as int, h as int),
    ensures
        b == bounding_box(rects@),
{
    let mut acc = rects[0];
    let mut i: usize = 1;
    assert(rects@.take(1).drop_last() =~= Seq::<Rect>::empty());
    while i < rects.len()
        invariant
            1 <= i <= rects@.len(),
            all_in_bounds(rects@, w as int, h as int),
            acc == bounding_box(rects@.take(i as int)),
            rect_in_bounds(acc, w as int, h as int),
        decreases rects@.len() - i,
    {
        acc = union_rect_exec(acc, rects[i], w, h);
        assert(rects@.take(i + 1).drop_last() =~= rects@.take(i as int));
        i = i + 1;
    }
    assert(rects@.take(rects@.len() as int) =~= rects@);
    acc
}

} // verus!
