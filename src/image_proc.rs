//! The pixel grid: colours, neighbourhood and colour distance.

use vstd::prelude::*;
use vstd::arithmetic::div_mod::lemma_fundamental_div_mod_converse;

verus! {

/// Largest pixel count an image may have: a per-segment channel sum
/// (at most 255 per pixel) then fits in a `u32`.
pub const MAX_PIXELS: usize = 0xFF_FFFF;

/// One RGB pixel.
#[derive(Clone, Copy, Debug, PartialEq, Eq, Structural)]
pub struct Pix {
    pub r: u8,
    pub g: u8,
    pub b: u8,
}

/// Squared Euclidean distance between two colours.
pub open spec fn sq_dist(a: Pix, b: Pix) -> nat {
    let dr = a.r as int - b.r as int;
    let dg = a.g as int - b.g as int;
    let db = a.b as int - b.b as int;
    (dr * dr + dg * dg + db * db) as nat
}

/// `r` is the integer square root of `n`.
pub open spec fn is_isqrt(n: nat, r: nat) -> bool {
    r * r <= n && n < (r + 1) * (r + 1)
}

/// The integer square root: the largest `r` with `r * r <= n`.
pub open spec fn isqrt(n: nat) -> nat {
    choose|r: nat| #[trigger] is_isqrt(n, r)
}

/// Colour distance: the Euclidean distance between two colours, rounded down.
pub open spec fn color_dist(a: Pix, b: Pix) -> nat {
    isqrt(sq_dist(a, b))
}

pub proof fn lemma_isqrt_unique(n: nat, r: nat)
    requires
        r * r <= n < (r + 1) * (r + 1),
    ensures
        isqrt(n) == r,
{
    assert(is_isqrt(n, r));
    let c = isqrt(n);
    assert(c * c <= n < (c + 1) * (c + 1));
    if c < r {
        assert((c + 1) * (c + 1) <= r * r) by (nonlinear_arith)
            requires c + 1 <= r;
    } else if r < c {
        assert((r + 1) * (r + 1) <= c * c) by (nonlinear_arith)
            requires r + 1 <= c;
    }
}

/// Integer square root of a squared colour distance.
fn isqrt_u32(n: u32) -> (r: u32)
    requires
        n <= 195075,
    ensures
        r == isqrt(n as nat),
        r <= 441,
{
    let mut lo: u32 = 0;
    let mut hi: u32 = 442;
    while lo + 1 < hi
        invariant
            lo < hi <= 442,
            lo * lo <= n,
            n < hi * hi,
        decreases hi - lo,
    {
        let mid: u32 = lo + (hi - lo) / 2;
        assert(mid * mid <= 442 * 442) by (nonlinear_arith)
            requires mid <= 442;
        if mid * mid <= n {
            lo = mid;
        } else {
            hi = mid;
        }
    }
    proof {
        lemma_isqrt_unique(n as nat, lo as nat);
    }
    lo
}

impl Pix {
    pub fn new(r: u8, g: u8, b: u8) -> (p: Pix)
        ensures
            p == (Pix { r, g, b }),
    {
        Pix { r, g, b }
    }

    fn abs_diff(c1: u8, c2: u8) -> (d: u32)
        ensures
            d as int == if c1 > c2 { c1 - c2 } else { c2 - c1 },
    {
        if c1 > c2 {
            (c1 - c2) as u32
        } else {
            (c2 - c1) as u32
        }
    }

    /// Colour distance to `other`.
    pub fn dist(&self, other: &Pix) -> (d: u32)
        ensures
            d == color_dist(*self, *other),
            d <= 441,
    {
        let dr = Self::abs_diff(self.r, other.r);
        let dg = Self::abs_diff(self.g, other.g);
        let db = Self::abs_diff(self.b, other.b);
        assert(dr * dr <= 65025 && dg * dg <= 65025 && db * db <= 65025) by (nonlinear_arith)
            requires dr <= 255, dg <= 255, db <= 255;
        let s = dr * dr + dg * dg + db * db;
        assert(s == sq_dist(*self, *other)) by (nonlinear_arith)
            requires
                s == dr * dr + dg * dg + db * db,
                dr as int == if self.r > other.r { self.r - other.r } else { other.r - self.r },
                dg as int == if self.g > other.g { self.g - other.g } else { other.g - self.g },
                db as int == if self.b > other.b { self.b - other.b } else { other.b - self.b },
        ;
        isqrt_u32(s)
    }

    /// Adds this pixel's channels to a running per-channel sum.
    pub fn add_to_centroid_sum(&self, acc: (u32, u32, u32)) -> (r: (u32, u32, u32))
        requires
            acc.0 + self.r <= u32::MAX,
            acc.1 + self.g <= u32::MAX,
            acc.2 + self.b <= u32::MAX,
        ensures
            r == (((acc.0 + self.r) as u32, (acc.1 + self.g) as u32, (acc.2 + self.b) as u32)),
    {
        (acc.0 + self.r as u32, acc.1 + self.g as u32, acc.2 + self.b as u32)
    }
}

/// Column and row offsets of a compass direction: 1 = north, 2 = east,
/// 3 = south, 4 = west, 5 = north-east, 6 = south-east, 7 = south-west,
/// 8 = north-west; any other value stays in place.
pub open spec fn dir_offset(d: int) -> (int, int) {
    if d == 1 {
        (0, -1)
    } else if d == 2 {
        (1, 0)
    } else if d == 3 {
        (0, 1)
    } else if d == 4 {
        (-1, 0)
    } else if d == 5 {
        (1, -1)
    } else if d == 6 {
        (1, 1)
    } else if d == 7 {
        (-1, 1)
    } else if d == 8 {
        (-1, -1)
    } else {
        (0, 0)
    }
}

/// The pixel next to `p` in direction `d` on a `w` by `h` grid stored row
/// by row, if that pixel lies on the grid.
pub open spec fn nbr(w: int, h: int, p: int, d: int) -> Option<int> {
    let x = p % w + dir_offset(d).0;
    let y = p / w + dir_offset(d).1;
    if 1 <= d <= 8 && 0 <= x < w && 0 <= y < h {
        Some(y * w + x)
    } else {
        None
    }
}

/// The direction pointing back: north and south, east and west swap.
pub open spec fn opp_dir(d: int) -> int {
    if d == 1 {
        3
    } else if d == 2 {
        4
    } else if d == 3 {
        1
    } else if d == 4 {
        2
    } else {
        0
    }
}

pub open spec fn opt_int(o: Option<usize>) -> Option<int> {
    match o {
        Some(v) => Some(v as int),
        None => None,
    }
}

/// An RGB raster stored row by row.
pub struct Img {
    pub height: usize,
    pub width: usize,
    pub length: usize,
    pub pixels: Vec<Pix>,
}

impl Img {
    pub open spec fn wf(&self) -> bool {
        &&& self.width > 0
        &&& self.height > 0
        &&& self.length > 0
        &&& self.length == self.width * self.height
        &&& self.pixels.len() == self.length
        &&& self.length <= MAX_PIXELS
    }

    /// The neighbour of `p` in direction `d`, as a spec value.
    pub open spec fn nbr(&self, p: int, d: int) -> Option<int> {
        nbr(self.width as int, self.height as int, p, d)
    }

    /// Builds an image from interleaved RGB bytes. Fails unless both sides
    /// are positive, the pixel count is at most `MAX_PIXELS` and `raw` holds
    /// exactly three bytes per pixel.
    pub fn new(width: usize, height: usize, raw: Vec<u8>) -> (r: Option<Img>)
        ensures
            r is Some <==> (width > 0 && height > 0 && width * height <= MAX_PIXELS
                && raw.len() == 3 * width * height),
            r matches Some(img) ==> {
                &&& img.wf()
                &&& img.width == width
                &&& img.height == height
                &&& forall|i: int|
                    0 <= i < img.length ==> #[trigger] img.pixels[i] == (Pix {
                        r: raw[3 * i],
                        g: raw[3 * i + 1],
                        b: raw[3 * i + 2],
                    })
            },
    {
        if width == 0 || height == 0 || width > MAX_PIXELS / height {
            proof {
                if width > 0 && height > 0 {
                    assert(width * height > MAX_PIXELS) by (nonlinear_arith)
                        requires
                            width > MAX_PIXELS as int / height as int,
                            height > 0;
                }
            }
            return None;
        }
        assert(width * height <= MAX_PIXELS) by (nonlinear_arith)
            requires
                width <= MAX_PIXELS as int / height as int,
                height > 0;
        let length = width * height;
        assert(length > 0) by (nonlinear_arith)
            requires length == width * height, width > 0, height > 0;
        assert(3 * width * height == 3 * length) by (nonlinear_arith)
            requires length == width * height;
        if raw.len() != 3 * length {
            return None;
        }
        let mut pixels: Vec<Pix> = Vec::new();
        let mut i: usize = 0;
        while i < length
            invariant
                i <= length,
                length == width * height,
                length <= MAX_PIXELS,
                raw.len() == 3 * length,
                pixels.len() == i,
                forall|j: int|
                    0 <= j < i ==> #[trigger] pixels[j] == (Pix {
                        r: raw[3 * j],
                        g: raw[3 * j + 1],
                        b: raw[3 * j + 2],
                    }),
            decreases length - i,
        {
            pixels.push(Pix::new(raw[3 * i], raw[3 * i + 1], raw[3 * i + 2]));
            i = i + 1;
        }
        Some(Img { height, width, length, pixels })
    }

    /// Number of pixels.
    pub fn length(&self) -> (r: usize)
        ensures
            r == self.length,
    {
        self.length
    }

    pub fn width(&self) -> (r: usize)
        ensures
            r == self.width,
    {
        self.width
    }

    pub fn height(&self) -> (r: usize)
        ensures
            r == self.height,
    {
        self.height
    }

    /// The colour of pixel `idx`.
    pub fn get(&self, idx: usize) -> (r: &Pix)
        requires
            idx < self.pixels.len(),
        ensures
            *r == self.pixels[idx as int],
    {
        &self.pixels[idx]
    }

    /// The direction opposite to `dir` among the four cardinal ones; 0 for
    /// any other value.
    pub fn get_opp_dir(dir: i32) -> (r: i32)
        ensures
            r == opp_dir(dir as int),
    {
        if dir == 1 {
            3
        } else if dir == 2 {
            4
        } else if dir == 3 {
            1
        } else if dir == 4 {
            2
        } else {
            0
        }
    }

    /// The pixel next to `p` in direction `dir` (1 to 8, see `dir_offset`),
    /// or `None` at the image's border or for another direction.
    pub fn neighbor(&self, p: usize, dir: i32) -> (r: Option<usize>)
        requires
            self.wf(),
            p < self.length,
        ensures
            opt_int(r) == self.nbr(p as int, dir as int),
            r matches Some(q) ==> q < self.length,
    {
        if dir < 1 || dir > 8 {
            return None;
        }
        let (x, y) = self.idx_to_xy(p);
        let east = dir == 2 || dir == 5 || dir == 6;
        let west = dir == 4 || dir == 7 || dir == 8;
        let south = dir == 3 || dir == 6 || dir == 7;
        let north = dir == 1 || dir == 5 || dir == 8;
        if (west && x == 0) || (north && y == 0) {
            return None;
        }
        let nx: usize = if east {
            x + 1
        } else if west {
            x - 1
        } else {
            x
        };
        let ny: usize = if south {
            y + 1
        } else if north {
            y - 1
        } else {
            y
        };
        if !self.is_in_bounds(nx, ny) {
            return None;
        }
        Some(self.xy_to_idx(nx, ny))
    }

    /// Column and row of pixel `idx`.
    pub fn idx_to_xy(&self, idx: usize) -> (r: (usize, usize))
        requires
            self.wf(),
            idx < self.length,
        ensures
            r.0 == idx as int % self.width as int,
            r.1 == idx as int / self.width as int,
            r.0 < self.width,
            r.1 < self.height,
    {
        let w = self.width;
        let y = idx / w;
        assert(y < self.height) by (nonlinear_arith)
            requires
                idx < w * self.height,
                y == idx / w,
                w > 0;
        (idx % w, y)
    }

    /// The index of the pixel at column `x`, row `y`.
    pub fn xy_to_idx(&self, x: usize, y: usize) -> (r: usize)
        requires
            self.wf(),
            x < self.width,
            y < self.height,
        ensures
            r == y * self.width + x,
            r < self.length,
    {
        assert(y * self.width + x < self.width * self.height) by (nonlinear_arith)
            requires
                y < self.height,
                x < self.width;
        y * self.width + x
    }

    /// Whether column `x`, row `y` lies on the image.
    pub fn is_in_bounds(&self, x: usize, y: usize) -> (r: bool)
        ensures
            r == (x < self.width && y < self.height),
    {
        x < self.width && y < self.height
    }

    fn euclid_dist(&self, p1: usize, p2: usize) -> (d: u32)
        requires
            p1 < self.pixels.len(),
            p2 < self.pixels.len(),
        ensures
            d == color_dist(self.pixels[p1 as int], self.pixels[p2 as int]),
            d <= 441,
    {
        self.pixels[p1].dist(&self.pixels[p2])
    }

    /// The neighbour of `curr_v` in direction `dir`, with its colour distance
    /// to `curr_v`.
    pub fn dist_to_adj(&self, curr_v: usize, dir: i32) -> (r: Option<(usize, u32)>)
        requires
            self.wf(),
            curr_v < self.length,
        ensures
            match self.nbr(curr_v as int, dir as int) {
                None => r is None,
                Some(q) => r == Some(
                    (q as usize, color_dist(self.pixels[curr_v as int], self.pixels[q]) as u32),
                ),
            },
            r matches Some((q, _)) ==> q < self.length && self.nbr(curr_v as int, dir as int) == Some(
                q as int,
            ),
            r matches Some((_, w)) ==> w <= 441,
    {
        match self.neighbor(curr_v, dir) {
            None => None,
            Some(p2) => Some((p2, self.euclid_dist(curr_v, p2))),
        }
    }

    /// Whether pixel `p` touches the image's edge or a pixel of another
    /// segment among its four cardinal neighbours.
    pub fn is_on_border(&self, p: usize, segs: &Vec<usize>) -> (r: bool)
        requires
            self.wf(),
            p < self.length,
            segs.len() == self.length,
        ensures
            r == on_border(*self, segs@, p as int),
    {
        let mut d: i32 = 1;
        while d <= 4
            invariant
                1 <= d <= 5,
                self.wf(),
                p < self.length,
                segs.len() == self.length,
                forall|e: int| 1 <= e < d ==> !#[trigger] border_at(*self, segs@, p as int, e),
            decreases 5 - d,
        {
            match self.neighbor(p, d) {
                None => {
                    assert(border_at(*self, segs@, p as int, d as int));
                    return true;
                },
                Some(p2) => {
                    if segs[p] != segs[p2] {
                        assert(border_at(*self, segs@, p as int, d as int));
                        return true;
                    }
                },
            }
            d = d + 1;
        }
        false
    }
}

/// Pixel `p` has no neighbour in direction `d`, or one with another label.
pub open spec fn border_at(img: Img, segs: Seq<usize>, p: int, d: int) -> bool {
    match img.nbr(p, d) {
        None => true,
        Some(q) => segs[p] != segs[q],
    }
}

pub open spec fn on_border(img: Img, segs: Seq<usize>, p: int) -> bool {
    exists|d: int| 1 <= d <= 4 && #[trigger] border_at(img, segs, p, d)
}

/// The colour that `border_overlay` shows at pixel `p`: green on segment
/// borders, the image's own colour elsewhere.
pub open spec fn overlay_color(img: Img, segs: Seq<usize>, p: int) -> Pix {
    if on_border(img, segs, p) {
        Pix { r: 0, g: 255, b: 0 }
    } else {
        img.pixels[p]
    }
}

/// `out` holds the colours `f(p)` of the pixels as interleaved RGB bytes.
pub open spec fn rgb_bytes(out: Seq<u8>, n: int, f: spec_fn(int) -> Pix) -> bool {
    &&& out.len() == 3 * n
    &&& forall|p: int|
        0 <= p < n ==> out[3 * p] == #[trigger] f(p).r && out[3 * p + 1] == f(p).g && out[3 * p + 2]
            == f(p).b
}

/// The image with segment borders drawn in green, as interleaved RGB bytes.
pub fn border_overlay(img: &Img, segs: &Vec<usize>) -> (out: Vec<u8>)
    requires
        img.wf(),
        segs.len() == img.length,
    ensures
        rgb_bytes(out@, img.length as int, |p: int| overlay_color(*img, segs@, p)),
{
    let n = img.length();
    let mut out: Vec<u8> = Vec::new();
    let mut p: usize = 0;
    while p < n
        invariant
            img.wf(),
            n == img.length,
            segs.len() == n,
            p <= n,
            rgb_bytes(out@, p as int, |q: int| overlay_color(*img, segs@, q)),
        decreases n - p,
    {
        let c = if img.is_on_border(p, segs) {
            Pix::new(0, 255, 0)
        } else {
            *img.get(p)
        };
        let ghost out0 = out@;
        out.push(c.r);
        out.push(c.g);
        out.push(c.b);
        let ghost f = |q: int| overlay_color(*img, segs@, q);
        assert forall|q: int| 0 <= q < p + 1 implies out[3 * q] == #[trigger] f(q).r && out[3 * q + 1]
            == f(q).g && out[3 * q + 2] == f(q).b by {
            if q < p {
                assert(out0[3 * q] == f(q).r);
                assert(out[3 * q] == out0[3 * q] && out[3 * q + 1] == out0[3 * q + 1] && out[3 * q + 2] == out0[3 * q + 2]);
            }
        }
        p = p + 1;
    }
    out
}

/// The colour that `border_mask` shows at pixel `p`: black on segment
/// borders, white elsewhere.
pub open spec fn mask_color(img: Img, segs: Seq<usize>, p: int) -> Pix {
    if on_border(img, segs, p) {
        Pix { r: 0, g: 0, b: 0 }
    } else {
        Pix { r: 255, g: 255, b: 255 }
    }
}

/// Segment borders in black on white, as interleaved RGB bytes.
pub fn border_mask(img: &Img, segs: &Vec<usize>) -> (out: Vec<u8>)
    requires
        img.wf(),
        segs.len() == img.length,
    ensures
        rgb_bytes(out@, img.length as int, |p: int| mask_color(*img, segs@, p)),
{
    let n = img.length();
    let mut out: Vec<u8> = Vec::new();
    let mut p: usize = 0;
    while p < n
        invariant
            img.wf(),
            n == img.length,
            segs.len() == n,
            p <= n,
            rgb_bytes(out@, p as int, |q: int| mask_color(*img, segs@, q)),
        decreases n - p,
    {
        let v: u8 = if img.is_on_border(p, segs) {
            0
        } else {
            255
        };
        let ghost out0 = out@;
        out.push(v);
        out.push(v);
        out.push(v);
        let ghost f = |q: int| mask_color(*img, segs@, q);
        assert forall|q: int| 0 <= q < p + 1 implies out[3 * q] == #[trigger] f(q).r && out[3 * q + 1]
            == f(q).g && out[3 * q + 2] == f(q).b by {
            if q < p {
                assert(out0[3 * q] == f(q).r);
                assert(out[3 * q] == out0[3 * q] && out[3 * q + 1] == out0[3 * q + 1] && out[3 * q + 2] == out0[3 * q + 2]);
            }
        }
        p = p + 1;
    }
    out
}

} // verus!
