//! Tiny drawing helpers for diagnostic overlays on grayscale buffers:
//! seven-segment digits for the test pattern and the latency probe.

use vstd::prelude::*;

verus! {

/// Whether byte `i` of a `stride`-wide buffer of `len` bytes lies in the
/// clipped rectangle `x, y, w, h` (only whole rows are drawn on).
pub open spec fn in_fill(len: int, stride: int, x: int, y: int, w: int, h: int, i: int) -> bool {
    let row = i / stride;
    let col = i % stride;
    &&& y <= row < y + h
    &&& row < len / stride
    &&& x <= col < x + w
}

/// `px` with the clipped rectangle set to `value`.
pub open spec fn fill_spec(px: Seq<u8>, stride: int, x: int, y: int, w: int, h: int, value: u8) -> Seq<
    u8,
> {
    Seq::new(
        px.len(),
        |i: int|
            if in_fill(px.len() as int, stride, x, y, w, h, i) {
                value
            } else {
                px[i]
            },
    )
}

/// Fill rectangle `x, y, w, h` of a `stride`-wide buffer with `value`,
/// clipped to the buffer's whole rows and to the row width.
pub fn fill_rect(px: &mut [u8], stride: usize, x: usize, y: usize, w: usize, h: usize, value: u8)
    requires
        stride > 0,
        x + w <= usize::MAX,
        y + h <= usize::MAX,
    ensures
        final(px)@ == fill_spec(old(px)@, stride as int, x as int, y as int, w as int, h as int, value),
{
    let ghost p0 = px@;
    let len = px.len();
    let rows = len / stride;
    let y_end = if y + h < rows {
        y + h
    } else {
        rows
    };
    let x0 = if x < stride {
        x
    } else {
        stride
    };
    let x1 = if x + w < stride {
        x + w
    } else {
        stride
    };
    proof {
        vstd::arithmetic::div_mod::lemma_fundamental_div_mod(len as int, stride as int);
    }
    let mut yy = y;
    while yy < y_end
        invariant
            px@.len() == len,
            p0.len() == len,
            stride > 0,
            rows == len / stride,
            len == stride * rows + len % stride,
            y_end <= rows,
            y_end <= y + h,
            x0 == if x < stride { x } else { stride },
            x1 == if x + w < stride { x + w } else { stride as int },
            y <= yy,
            forall|i: int|
                0 <= i < len ==> #[trigger] px@[i] == if in_fill(
                    len as int,
                    stride as int,
                    x as int,
                    y as int,
                    w as int,
                    h as int,
                    i,
                ) && i / (stride as int) < yy {
                    value
                } else {
                    p0[i]
                },
        decreases y_end - yy,
    {
        proof {
            assert(yy * stride + stride <= rows * stride) by (nonlinear_arith)
                requires
                    yy < rows,
                    stride > 0,
            ;
            assert(rows * stride == stride * rows) by (nonlinear_arith);
            assert(0 <= yy * stride) by (nonlinear_arith)
                requires
                    stride > 0,
            ;
        }
        let base = yy * stride;
        proof {
            assert forall|i: int| base <= i < base + x0 implies #[trigger] (i % (stride as int)) == i - base by {
                vstd::arithmetic::div_mod::lemma_fundamental_div_mod_converse(
                    i,
                    stride as int,
                    yy as int,
                    i - base,
                );
            }
        }
        let mut c = x0;
        while c < x1
            invariant
                px@.len() == len,
                p0.len() == len,
                stride > 0,
                rows == len / stride,
                yy < y_end,
                y_end <= rows,
                y_end <= y + h,
                y <= yy,
                base == yy * stride,
                base + stride <= len,
                x0 == if x < stride { x } else { stride },
                x1 == if x + w < stride { x + w } else { stride as int },
                x0 <= c <= x1 || x1 < x0,
                x1 <= stride,
                forall|i: int|
                    0 <= i < len ==> #[trigger] px@[i] == if (in_fill(
                        len as int,
                        stride as int,
                        x as int,
                        y as int,
                        w as int,
                        h as int,
                        i,
                    ) && i / (stride as int) < yy) || (base <= i < base + c && i % (stride as int)
                        >= x0) {
                        value
                    } else {
                        p0[i]
                    },
            decreases x1 - c,
        {
            px[base + c] = value;
            proof {
                assert forall|i: int| 0 <= i < len implies #[trigger] px@[i] == if (in_fill(
                    len as int,
                    stride as int,
                    x as int,
                    y as int,
                    w as int,
                    h as int,
                    i,
                ) && i / (stride as int) < yy) || (base <= i < base + c + 1 && i % (stride as int)
                    >= x0) {
                    value
                } else {
                    p0[i]
                } by {
                    if i == base + c {
                        vstd::arithmetic::div_mod::lemma_fundamental_div_mod_converse(
                            i,
                            stride as int,
                            yy as int,
                            c as int,
                        );
                    }
                }
            }
            c = c + 1;
        }
        proof {
            assert forall|i: int| 0 <= i < len implies #[trigger] px@[i] == if in_fill(
                len as int,
                stride as int,
                x as int,
                y as int,
                w as int,
                h as int,
                i,
            ) && i / (stride as int) < yy + 1 {
                value
            } else {
                p0[i]
            } by {
                let q = i / (stride as int);
                let m = i % (stride as int);
                vstd::arithmetic::div_mod::lemma_fundamental_div_mod(i, stride as int);
                if base <= i < base + stride {
                    vstd::arithmetic::div_mod::lemma_fundamental_div_mod_converse(
                        i,
                        stride as int,
                        yy as int,
                        i - base,
                    );
                } else {
                    if q == yy {
                        assert(stride * q == base) by (nonlinear_arith)
                            requires
                                q == yy,
                                base == yy * stride,
                        ;
                    }
                }
            }
        }
        yy = yy + 1;
    }
    proof {
        assert forall|i: int| 0 <= i < len implies #[trigger] px@[i] == fill_spec(
            p0,
            stride as int,
            x as int,
            y as int,
            w as int,
            h as int,
            value,
        )[i] by {
            if in_fill(len as int, stride as int, x as int, y as int, w as int, h as int, i) {
                assert(i / (stride as int) < yy);
            }
        }
        assert(px@ =~= fill_spec(p0, stride as int, x as int, y as int, w as int, h as int, value));
    }
}

/// Seven-segment layout of `d`: bit 6..0 = a,b,c,d,e,f,g (a=top,
/// g=middle, clockwise).
pub open spec fn segments(d: u8) -> u8 {
    if d == 0 {
        0b1111110u8
    } else if d == 1 {
        0b0110000u8
    } else if d == 2 {
        0b1101101u8
    } else if d == 3 {
        0b1111001u8
    } else if d == 4 {
        0b0110011u8
    } else if d == 5 {
        0b1011011u8
    } else if d == 6 {
        0b1011111u8
    } else if d == 7 {
        0b1110000u8
    } else if d == 8 {
        0b1111111u8
    } else {
        0b1111011u8
    }
}

fn segments_exec(d: u8) -> (seg: u8)
    requires
        d < 10,
    ensures
        seg == segments(d),
{
    match d {
        0 => 0b1111110,
        1 => 0b0110000,
        2 => 0b1101101,
        3 => 0b1111001,
        4 => 0b0110011,
        5 => 0b1011011,
        6 => 0b1011111,
        7 => 0b1110000,
        8 => 0b1111111,
        _ => 0b1111011,
    }
}

/// `px` with the rectangle blacked out when `on`.
pub open spec fn ink_if(px: Seq<u8>, on: bool, stride: int, x: int, y: int, w: int, h: int) -> Seq<
    u8,
> {
    if on {
        fill_spec(px, stride, x, y, w, h, 0)
    } else {
        px
    }
}

/// Digit `digit` drawn in black at `x, y` with segment thickness `s`
/// (segments `4 s` long): a, g, d across (top, middle, bottom), then b, c
/// down the right and f, e down the left (upper, lower).
pub open spec fn digit_spec(px: Seq<u8>, stride: int, x: int, y: int, s: int, digit: u8) -> Seq<u8> {
    let seg = segments(digit);
    let len = 4 * s;
    let p1 = ink_if(px, seg & 0b1000000u8 != 0, stride, x + s, y, len - 2 * s, s);
    let p2 = ink_if(p1, seg & 0b0000001u8 != 0, stride, x + s, y + len, len - 2 * s, s);
    let p3 = ink_if(p2, seg & 0b0001000u8 != 0, stride, x + s, y + 2 * len, len - 2 * s, s);
    let p4 = ink_if(p3, seg & 0b0100000u8 != 0, stride, x + len - s, y, s, len);
    let p5 = ink_if(p4, seg & 0b0010000u8 != 0, stride, x + len - s, y + len, s, len);
    let p6 = ink_if(p5, seg & 0b0000010u8 != 0, stride, x, y, s, len);
    ink_if(p6, seg & 0b0000100u8 != 0, stride, x, y + len, s, len)
}

fn ink_if_exec(px: &mut [u8], on: bool, stride: usize, x: usize, y: usize, w: usize, h: usize)
    requires
        stride > 0,
        x + w <= usize::MAX,
        y + h <= usize::MAX,
    ensures
        final(px)@ == ink_if(old(px)@, on, stride as int, x as int, y as int, w as int, h as int),
{
    if on {
        fill_rect(px, stride, x, y, w, h, 0);
    }
}

/// Draw one seven-segment digit at `x, y` with segment thickness `s`.
pub fn draw_digit(px: &mut [u8], stride: usize, x: usize, y: usize, s: usize, digit: u8)
    requires
        stride > 0,
        digit < 10,
        x + 4 * s <= usize::MAX,
        y + 12 * s <= usize::MAX,
    ensures
        final(px)@ == digit_spec(old(px)@, stride as int, x as int, y as int, s as int, digit),
{
    let seg = segments_exec(digit);
    let len = 4 * s;
    let th = s;
    ink_if_exec(px, seg & 0b1000000 != 0, stride, x + th, y, len - 2 * th, th);
    ink_if_exec(px, seg & 0b0000001 != 0, stride, x + th, y + len, len - 2 * th, th);
    ink_if_exec(px, seg & 0b0001000 != 0, stride, x + th, y + 2 * len, len - 2 * th, th);
    ink_if_exec(px, seg & 0b0100000 != 0, stride, x + len - th, y, th, len);
    ink_if_exec(px, seg & 0b0010000 != 0, stride, x + len - th, y + len, th, len);
    ink_if_exec(px, seg & 0b0000010 != 0, stride, x, y, th, len);
    ink_if_exec(px, seg & 0b0000100 != 0, stride, x, y + len, th, len);
}

/// The decimal digits of `v`, most significant first.
pub open spec fn decimal(v: nat) -> Seq<u8>
    decreases v,
{
    if v < 10 {
        seq![v as u8]
    } else {
        decimal(v / 10).push((v % 10) as u8)
    }
}

/// The digits a counter shows for `ms`: zero-padded to at least eight.
pub open spec fn counter_digits(ms: u64) -> Seq<u8> {
    let d = decimal(ms as nat);
    if d.len() < 8 {
        Seq::new((8 - d.len()) as nat, |i: int| 0u8) + d
    } else {
        d
    }
}

/// `px` with the white plate for `n` digits of scale `s` and the first `k`
/// of `digits` drawn on it.
pub open spec fn counter_spec(px: Seq<u8>, stride: int, digits: Seq<u8>, s: int, k: nat) -> Seq<u8>
    decreases k,
{
    if k == 0 {
        fill_spec(px, stride, 0, 0, digits.len() * (6 * s) + 2 * s, 12 * s, 255)
    } else {
        digit_spec(
            counter_spec(px, stride, digits, s, (k - 1) as nat),
            stride,
            s + (k - 1) * (6 * s),
            s,
            s,
            digits[k - 1],
        )
    }
}

pub open spec fn pow10(k: nat) -> nat
    decreases k,
{
    if k == 0 {
        1
    } else {
        10 * pow10((k - 1) as nat)
    }
}

proof fn lemma_decimal(v: nat)
    ensures
        1 <= decimal(v).len(),
        forall|i: int| 0 <= i < decimal(v).len() ==> #[trigger] decimal(v)[i] < 10,
    decreases v,
{
    if v >= 10 {
        lemma_decimal(v / 10);
    }
}

proof fn lemma_decimal_len(v: nat, k: nat)
    requires
        k >= 1,
        v < pow10(k),
    ensures
        decimal(v).len() <= k,
    decreases v,
{
    if v >= 10 {
        if k == 1 {
            assert(pow10(1) == 10 * pow10(0));
        } else {
            assert(v / 10 < pow10((k - 1) as nat)) by (nonlinear_arith)
                requires
                    v < 10 * pow10((k - 1) as nat),
            ;
            lemma_decimal_len(v / 10, (k - 1) as nat);
        }
    }
}

/// The decimal digits of `v`.
fn decimal_digits(v: u64) -> (d: Vec<u8>)
    ensures
        d@ == decimal(v as nat),
    decreases v,
{
    if v < 10 {
        vec![v as u8]
    } else {
        let mut d = decimal_digits(v / 10);
        d.push((v % 10) as u8);
        d
    }
}

/// Draw `ms` as zero-padded digits on a white plate at the top-left.
/// Black-on-white regardless of theme/invert so a camera can always read it.
pub fn draw_ms_counter(px: &mut [u8], stride: usize, ms: u64, scale: usize)
    requires
        stride > 0,
        128 * scale <= usize::MAX,
    ensures
        final(px)@ == counter_spec(
            old(px)@,
            stride as int,
            counter_digits(ms),
            scale as int,
            counter_digits(ms).len(),
        ),
{
    let raw = decimal_digits(ms);
    proof {
        lemma_decimal(ms as nat);
        reveal_with_fuel(pow10, 21);
        assert(pow10(20) == 100_000_000_000_000_000_000);
        lemma_decimal_len(ms as nat, 20);
    }
    let mut digits: Vec<u8> = Vec::new();
    if raw.len() < 8 {
        let mut k: usize = raw.len();
        while k < 8
            invariant
                raw.len() <= k <= 8,
                digits@ == Seq::new((k - raw.len()) as nat, |i: int| 0u8),
            decreases 8 - k,
        {
            digits.push(0);
            k = k + 1;
        }
    }
    let mut j: usize = 0;
    let pad = digits.len();
    while j < raw.len()
        invariant
            j <= raw.len(),
            pad == digits.len() - j,
            digits@ == (if raw@.len() < 8 {
                Seq::new((8 - raw@.len()) as nat, |i: int| 0u8)
            } else {
                Seq::<u8>::empty()
            }) + raw@.subrange(0, j as int),
        decreases raw.len() - j,
    {
        digits.push(raw[j]);
        proof {
            assert(raw@.subrange(0, j + 1) =~= raw@.subrange(0, j as int).push(raw@[j as int]));
        }
        j = j + 1;
    }
    proof {
        assert(raw@.subrange(0, j as int) =~= raw@);
        assert(digits@ =~= counter_digits(ms));
        assert(digits@.len() <= 20);
    }
    let ghost ds = digits@;
    let ghost p0 = px@;
    let cell_w = 6 * scale;
    assert(digits.len() * cell_w <= 20 * (6 * scale)) by (nonlinear_arith)
        requires
            digits.len() <= 20,
            cell_w == 6 * scale,
    ;
    let plate_w = digits.len() * cell_w + 2 * scale;
    fill_rect(px, stride, 0, 0, plate_w, 12 * scale, 255);
    let mut i: usize = 0;
    while i < digits.len()
        invariant
            ds == digits@,
            ds == counter_digits(ms),
            ds.len() <= 20,
            forall|k: int| 0 <= k < ds.len() ==> #[trigger] ds[k] < 10,
            stride > 0,
            128 * scale <= usize::MAX,
            cell_w == 6 * scale,
            i <= ds.len(),
            px@ == counter_spec(p0, stride as int, ds, scale as int, i as nat),
        decreases ds.len() - i,
    {
        assert(i * cell_w <= 20 * (6 * scale)) by (nonlinear_arith)
            requires
                i < 20,
                cell_w == 6 * scale,
        ;
        draw_digit(px, stride, scale + i * cell_w, scale, scale, digits[i]);
        i = i + 1;
    }
}

} // verus!
