//! The game's window: which one it is, where the minimap is in it, and its
//! pixels.

use vstd::arithmetic::power2::*;
use vstd::prelude::*;
use vstd::string::*;

use crate::binary32::convert;
use crate::binary32::exact;
use crate::binary32::order;
use crate::binary32::Binary32;
use crate::pixels;
use crate::pixels::Rgb8;
use crate::text;

verus! {

/// The minimap in the window's client area.
#[derive(Clone, Copy, Debug, PartialEq, Eq, Structural)]
pub struct MinimapCircle {
    pub cx: i32,
    pub cy: i32,
    pub r: i32,
}

/// The square of the screen that was captured, and the size of the client area
/// that it came from.
#[derive(Clone, Copy, Debug, PartialEq, Eq, Structural)]
pub struct MinimapRegion {
    pub client_w: i32,
    pub client_h: i32,
    /// The corner of the square on the screen.
    pub x: i32,
    pub y: i32,
    pub size: i32,
}

/// The game's window, by its handle.
#[derive(Clone, Copy, Debug, PartialEq, Eq, Structural)]
pub struct WindowCapture {
    pub hwnd: isize,
}

/// A window whose title is `shown` is meant by `title`: ignoring case and white
/// space around it, it stands in the title.
pub open spec fn meant(shown: Seq<char>, title: Seq<char>) -> bool {
    text::holds(text::lowered(shown), text::lowered(text::trimmed(title)))
}

/// The titles of windows.
pub open spec fn titles(windows: Seq<(isize, String)>) -> Seq<Seq<char>> {
    Seq::new(windows.len(), |i: int| windows[i].1@)
}

/// The first text that holds `needle`.
pub fn first_holding(texts: &Vec<String>, needle: &str) -> (r: Option<usize>)
    ensures
        match r {
            Some(i) => {
                &&& i < texts@.len()
                &&& text::holds(texts@[i as int]@, needle@)
                &&& forall|j: int|
                    0 <= j < i ==> !text::holds((#[trigger] texts@[j])@, needle@)
            },
            None => forall|j: int|
                0 <= j < texts@.len() ==> !text::holds((#[trigger] texts@[j])@, needle@),
        },
{
    let mut i: usize = 0;
    while i < texts.len()
        invariant
            0 <= i <= texts@.len(),
            forall|j: int| 0 <= j < i ==> !text::holds((#[trigger] texts@[j])@, needle@),
        decreases texts@.len() - i,
    {
        if text::contains(texts[i].as_str(), needle) {
            return Some(i);
        }
        i = i + 1;
    }
    None
}

/// What is said when no window is meant.
pub fn not_found(title: &str, windows: &Vec<(isize, String)>) -> (r: String)
    ensures
        r@ == "未找到包含\""@ + title@ + "\"的窗口。当前可见窗口: "@ + text::joined(
            titles(windows@),
            " | "@,
            windows@.len() as int,
        ),
{
    let mut candidates: String = String::new();
    let mut i: usize = 0;
    while i < windows.len()
        invariant
            0 <= i <= windows@.len(),
            candidates@ == text::joined(titles(windows@), " | "@, i as int),
        decreases windows@.len() - i,
    {
        if i > 0 {
            candidates.append(" | ");
        }
        candidates.append(windows[i].1.as_str());
        i = i + 1;
        assert(candidates@ =~= text::joined(titles(windows@), " | "@, i as int));
    }
    let mut r: String = "未找到包含\"".to_owned();
    r.append(title);
    r.append("\"的窗口。当前可见窗口: ");
    r.append(candidates.as_str());
    r
}

impl WindowCapture {
    /// The first of the visible windows that `title` means.
    pub fn find(title: &str, windows: &Vec<(isize, String)>) -> (r: Result<WindowCapture, String>)
        ensures
            match r {
                Ok(c) => exists|i: int|
                    {
                        &&& 0 <= i < windows@.len()
                        &&& c.hwnd == (#[trigger] windows@[i]).0
                        &&& meant(windows@[i].1@, title@)
                        &&& forall|j: int|
                            0 <= j < i ==> !meant((#[trigger] windows@[j]).1@, title@)
                    },
                Err(e) => {
                    &&& forall|j: int|
                        0 <= j < windows@.len() ==> !meant((#[trigger] windows@[j]).1@, title@)
                    &&& e@ == "未找到包含\""@ + title@ + "\"的窗口。当前可见窗口: "@
                        + text::joined(titles(windows@), " | "@, windows@.len() as int)
                },
            },
    {
        let needle: String = text::to_lowercase(text::trim(title));
        let mut shown: Vec<String> = Vec::new();
        let mut i: usize = 0;
        while i < windows.len()
            invariant
                0 <= i <= windows@.len(),
                shown@.len() == i,
                forall|j: int|
                    0 <= j < i ==> (#[trigger] shown@[j])@ == text::lowered(windows@[j].1@),
            decreases windows@.len() - i,
        {
            shown.push(text::to_lowercase(windows[i].1.as_str()));
            i = i + 1;
        }
        match first_holding(&shown, needle.as_str()) {
            Some(k) => {
                proof {
                    assert forall|j: int| 0 <= j < k implies !meant(
                        (#[trigger] windows@[j]).1@,
                        title@,
                    ) by {
                        assert(shown@[j]@ == text::lowered(windows@[j].1@));
                    }
                }
                Ok(WindowCapture { hwnd: windows[k].0 })
            },
            None => {
                proof {
                    assert forall|j: int| 0 <= j < windows@.len() implies !meant(
                        (#[trigger] windows@[j]).1@,
                        title@,
                    ) by {
                        assert(shown@[j]@ == text::lowered(windows@[j].1@));
                    }
                }
                Err(not_found(title, windows))
            },
        }
    }

    /// The width and the height of the client area whose edges are given.
    pub fn client_size(left: i32, top: i32, right: i32, bottom: i32) -> (r: (i32, i32))
        requires
            i32::MIN <= right - left <= i32::MAX,
            i32::MIN <= bottom - top <= i32::MAX,
        ensures
            r.0 == right - left,
            r.1 == bottom - top,
    {
        (right - left, bottom - top)
    }

    /// The square of the screen that holds a circle of the client area whose
    /// corner is at `origin`: its corner and its side.
    pub fn square_of(circle: &MinimapCircle, origin: (i32, i32)) -> (r: Result<
        (i32, i32, i32),
        &'static str,
    >)
        requires
            i32::MIN <= 2 * circle.r <= i32::MAX,
            circle.r > 0 ==> {
                &&& i32::MIN <= origin.0 + circle.cx <= i32::MAX
                &&& i32::MIN <= origin.1 + circle.cy <= i32::MAX
                &&& i32::MIN <= origin.0 + circle.cx - circle.r
                &&& i32::MIN <= origin.1 + circle.cy - circle.r
            },
        ensures
            match r {
                Ok(s) => {
                    &&& circle.r > 0
                    &&& s.0 == origin.0 + circle.cx - circle.r
                    &&& s.1 == origin.1 + circle.cy - circle.r
                    &&& s.2 == 2 * circle.r
                },
                Err(e) => circle.r <= 0 && e@ == "圆半径无效"@,
            },
    {
        let size: i32 = circle.r * 2;
        if size <= 0 {
            return Err("圆半径无效");
        }
        Ok((origin.0 + circle.cx - circle.r, origin.1 + circle.cy - circle.r, size))
    }

    /// The captured square cut to the circle, and where on the screen it was:
    /// `origin` is the corner of the client area there.
    pub fn capture_circle(
        circle: &MinimapCircle,
        client: (i32, i32),
        origin: (i32, i32),
        square: Rgb8,
    ) -> (r: (Rgb8, MinimapRegion))
        requires
            square.wf(),
            0 < 2 * circle.r <= i32::MAX,
            i32::MIN <= origin.0 + circle.cx <= i32::MAX,
            i32::MIN <= origin.1 + circle.cy <= i32::MAX,
            i32::MIN <= origin.0 + circle.cx - circle.r,
            i32::MIN <= origin.1 + circle.cy - circle.r,
        ensures
            r.0.wf(),
            r.0.width == square.width,
            r.0.height == square.height,
            r.0.data@ == masked(square.data@, square.width as int, square.height as int),
            r.1.client_w == client.0,
            r.1.client_h == client.1,
            r.1.x == origin.0 + circle.cx - circle.r,
            r.1.y == origin.1 + circle.cy - circle.r,
            r.1.size == 2 * circle.r,
    {
        let mut img: Rgb8 = square;
        apply_circular_mask(&mut img);
        (
            img,
            MinimapRegion {
                client_w: client.0,
                client_h: client.1,
                x: origin.0 + circle.cx - circle.r,
                y: origin.1 + circle.cy - circle.r,
                size: circle.r * 2,
            },
        )
    }
}

/// A pixel lies outside the circle that fits in a picture of `w` by `h` pixels.
pub open spec fn outside(x: int, y: int, w: int, h: int) -> bool {
    let dx = pixels::off_middle(x, w);
    let dy = pixels::off_middle(y, h);
    let radius = convert::of_int(w).min(convert::of_int(h)).times(Binary32::half());
    dx.times(dx).plus(dy.times(dy)).gt(radius.times(radius))
}

/// A colour picture with every pixel outside the circle black.
pub open spec fn masked(data: Seq<u8>, w: int, h: int) -> Seq<u8> {
    Seq::new(
        data.len(),
        |i: int|
            if outside((i / 3) % w, (i / 3) / w, w, h) {
                0u8
            } else {
                data[i]
            },
    )
}

/// Blackens every pixel outside the circle that fits in the picture.
pub fn apply_circular_mask(img: &mut Rgb8)
    requires
        old(img).wf(),
    ensures
        final(img).wf(),
        final(img).width == old(img).width,
        final(img).height == old(img).height,
        final(img).data@ == masked(
            old(img).data@,
            old(img).width as int,
            old(img).height as int,
        ),
{
    let w: Binary32 = Binary32::of_u32(img.width);
    let h: Binary32 = Binary32::of_u32(img.height);
    let cx: Binary32 = pixels::middle(img.width);
    let cy: Binary32 = pixels::middle(img.height);
    let radius: Binary32 = w.min(h).times(Binary32::half());
    let r2: Binary32 = radius.times(radius);
    let ghost before = img.data@;
    let ghost after = masked(before, img.width as int, img.height as int);
    assert(img.data@.len() == img.data.len());
    let n: usize = img.data.len() / 3;
    let mut i: usize = 0;
    while i < n
        invariant
            img.width == old(img).width,
            img.height == old(img).height,
            img.data@.len() == before.len(),
            before.len() == 3 * n,
            n == img.width * img.height,
            before.len() <= usize::MAX,
            0 <= i <= n,
            cx == pixels::middle_of(img.width as int),
            cy == pixels::middle_of(img.height as int),
            radius == convert::of_int(img.width as int).min(
                convert::of_int(img.height as int),
            ).times(Binary32::half()),
            r2 == radius.times(radius),
            after == masked(before, img.width as int, img.height as int),
            forall|j: int| 0 <= j < 3 * i ==> img.data@[j] == after[j],
            forall|j: int| 3 * i <= j < before.len() ==> img.data@[j] == before[j],
        decreases n - i,
    {
        let (x, y) = pixels::place(i, img.width, img.height);
        let dx: Binary32 = Binary32::of_u32(x).minus(cx);
        let dy: Binary32 = Binary32::of_u32(y).minus(cy);
        if dx.times(dx).plus(dy.times(dy)).gt(r2) {
            img.data.set(3 * i, 0);
            img.data.set(3 * i + 1, 0);
            img.data.set(3 * i + 2, 0);
        }
        assert forall|j: int| 3 * i <= j < 3 * i + 3 implies img.data@[j] == after[j] by {
            assert(j / 3 == i);
        }
        i = i + 1;
    }
    assert(img.data@ =~= after);
}

/// The picture of the pixels in `buf`, which has blue, green, red and one more
/// byte for each, row by row. There is none when there are too few.
pub fn from_bgra(buf: &Vec<u8>, w: u32, h: u32) -> (r: Option<Rgb8>)
    ensures
        match r {
            None => buf@.len() / 4 < w * h,
            Some(img) => {
                &&& buf@.len() / 4 >= w * h
                &&& img.wf()
                &&& img.width == w
                &&& img.height == h
                &&& forall|i: int|
                    0 <= i < img.data@.len() ==> #[trigger] img.data@[i] == buf@[4 * (i / 3) + 2
                        - i % 3]
            },
        },
{
    proof {
        assert(buf@.len() == buf.len());
        assert(0 <= w * h <= 0xffff_ffff * 0xffff_ffff) by (nonlinear_arith)
            requires
                0 <= w <= 0xffff_ffff,
                0 <= h <= 0xffff_ffff,
        ;
    }
    let pixels: u64 = (w as u64) * (h as u64);
    let there: usize = buf.len() / 4;
    if (there as u64) < pixels {
        return None;
    }
    let mut rgb: Vec<u8> = Vec::new();
    let mut i: usize = 0;
    while (i as u64) < pixels
        invariant
            0 <= i <= pixels <= there,
            there == buf@.len() / 4,
            buf@.len() <= usize::MAX,
            rgb@.len() == 3 * i,
            forall|j: int|
                0 <= j < rgb@.len() ==> #[trigger] rgb@[j] == buf@[4 * (j / 3) + 2 - j % 3],
        decreases pixels - i,
    {
        rgb.push(buf[4 * i + 2]);
        rgb.push(buf[4 * i + 1]);
        rgb.push(buf[4 * i]);
        i = i + 1;
    }
    Some(Rgb8 { width: w, height: h, data: rgb })
}

/// The offset from the middle, in half pixels.
proof fn lemma_off_middle(k: int, n: int)
    requires
        0 <= k < n <= 2896,
    ensures
        pixels::off_middle(k, n).is_finite_spec(),
        pixels::off_middle(k, n).value() == (2 * k - n + 1) * pow2(148),
{
    let one = Binary32::one();
    let half = Binary32::half();
    exact::lemma_one_and_half();
    exact::lemma_of_int_exact(n);
    exact::lemma_of_int_exact(k);
    exact::lemma_negated(one);
    lemma_pow2_unfold(149);
    let p = pow2(148) as int;
    let last = convert::of_int(n).minus(one);
    assert(n * (2 * p) + -(2 * p) == (n - 1) * (2 * p)) by (nonlinear_arith);
    exact::lemma_plus_exact(convert::of_int(n), one.negated(), n - 1, 149);
    assert((n - 1) * (2 * p) * p == ((n - 1) * p) * (2 * p)) by (nonlinear_arith);
    exact::lemma_times_exact(last, half, n - 1, 148);
    let middle = last.times(half);
    exact::lemma_negated(middle);
    assert(k * (2 * p) + -((n - 1) * p) == (2 * k - n + 1) * p) by (nonlinear_arith);
    exact::lemma_plus_exact(convert::of_int(k), middle.negated(), 2 * k - n + 1, 148);
}

/// The square of a number of half pixels.
proof fn lemma_square(a: Binary32, q: int)
    requires
        -2896 <= q <= 2896,
        a.is_finite_spec(),
        a.value() == q * pow2(148),
    ensures
        a.times(a).is_finite_spec(),
        a.times(a).value() == (q * q) * pow2(147),
        0 <= q * q <= 0x80_0000,
{
    lemma_pow2_unfold(149);
    lemma_pow2_unfold(148);
    let p = pow2(147) as int;
    assert((q * (2 * p)) * (q * (2 * p)) == ((q * q) * p) * (2 * (2 * p))) by (nonlinear_arith);
    assert(0 <= q * q <= 0x80_0000) by (nonlinear_arith)
        requires
            -2896 <= q <= 2896,
    ;
    exact::lemma_times_exact(a, a, q * q, 147);
}

/// In a picture of no more than 2896 pixels a side, a pixel is blackened exactly
/// when its middle is farther from the picture's middle than half the shorter
/// side.
pub proof fn the_mask_is_a_disc(x: int, y: int, w: int, h: int)
    requires
        0 <= x < w <= 2896,
        0 <= y < h <= 2896,
    ensures
        outside(x, y, w, h) <==> {
            let dx = 2 * x - w + 1;
            let dy = 2 * y - h + 1;
            let side = if w < h {
                w
            } else {
                h
            };
            dx * dx + dy * dy > side * side
        },
{
    let dx = pixels::off_middle(x, w);
    let dy = pixels::off_middle(y, h);
    let qx = 2 * x - w + 1;
    let qy = 2 * y - h + 1;
    let p = pow2(147) as int;
    lemma_pow2_pos(147);
    lemma_off_middle(x, w);
    lemma_off_middle(y, h);
    lemma_square(dx, qx);
    lemma_square(dy, qy);
    let sx = dx.times(dx);
    let sy = dy.times(dy);
    assert((qx * qx) * p + (qy * qy) * p == (qx * qx + qy * qy) * p) by (nonlinear_arith);
    exact::lemma_plus_exact(sx, sy, qx * qx + qy * qy, 147);
    let sum = sx.plus(sy);
    let fw = convert::of_int(w);
    let fh = convert::of_int(h);
    exact::lemma_of_int_exact(w);
    exact::lemma_of_int_exact(h);
    order::lemma_order_of_values(fh, fw);
    let side = if w < h {
        w
    } else {
        h
    };
    let least = fw.min(fh);
    lemma_pow2_pos(149);
    assert(h * pow2(149) < w * pow2(149) <==> h < w) by (nonlinear_arith)
        requires
            pow2(149) > 0,
    ;
    assert(least.is_finite_spec() && least.value() == side * pow2(149));
    exact::lemma_one_and_half();
    let half = Binary32::half();
    let g = pow2(148) as int;
    assert((side * pow2(149)) * g == (side * g) * pow2(149)) by (nonlinear_arith);
    exact::lemma_times_exact(least, half, side, 148);
    let radius = least.times(half);
    lemma_square(radius, side);
    let r2 = radius.times(radius);
    order::lemma_order_of_values(r2, sum);
    assert((side * side) * p < (qx * qx + qy * qy) * p <==> side * side < qx * qx + qy * qy)
        by (nonlinear_arith)
        requires
            p > 0,
    ;
}

/// Blackening a second time changes nothing.
pub proof fn masking_twice_is_masking_once(data: Seq<u8>, w: int, h: int)
    ensures
        masked(masked(data, w, h), w, h) == masked(data, w, h),
{
    assert(masked(masked(data, w, h), w, h) =~= masked(data, w, h));
}

} // verus!
