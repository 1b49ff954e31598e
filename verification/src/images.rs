//! The pixel and canvas types: a single RGB color value, and a fixed-size
//! two-dimensional grid of such values with bounds-safe mutation and
//! drawing primitives.

use vstd::pervasive::VecAdditionalExecFns;
use vstd::prelude::*;

verus! {

/// A single RGB color value: three 8-bit channels.
#[derive(Clone, Copy, PartialEq, Eq, Structural, Debug)]
pub struct Pixl {
    pub r: u8,
    pub g: u8,
    pub b: u8,
}

/// The pixel with every channel inverted: each channel becomes `255 - c`.
pub open spec fn spec_invert(p: Pixl) -> Pixl {
    Pixl { r: (255 - p.r) as u8, g: (255 - p.g) as u8, b: (255 - p.b) as u8 }
}

impl Pixl {
    pub fn new(r: u8, g: u8, b: u8) -> (p: Pixl)
        ensures
            p == (Pixl { r, g, b }),
    {
        Pixl { r, g, b }
    }

    pub fn black() -> (p: Pixl)
        ensures
            p == (Pixl { r: 0, g: 0, b: 0 }),
    {
        Pixl::new(0, 0, 0)
    }

    pub fn red() -> (p: Pixl)
        ensures
            p == (Pixl { r: 255, g: 0, b: 0 }),
    {
        Pixl::new(255, 0, 0)
    }

    /// Invert the pixel in place: each channel becomes `255 - c`.
    pub fn invert(&mut self)
        ensures
            *final(self) == spec_invert(*old(self)),
    {
        self.r = 255 - self.r;
        self.g = 255 - self.g;
        self.b = 255 - self.b;
    }
}

/// Inverting a pixel twice gives back the original pixel.
pub proof fn lemma_invert_involution(p: Pixl)
    ensures
        spec_invert(spec_invert(p)) == p,
{
}

/// The white pixel: every channel at full intensity.
pub open spec fn white() -> Pixl {
    Pixl { r: 255, g: 255, b: 255 }
}

/// The grid of a blank `w` by `h` canvas: `w * h` white pixels.
pub open spec fn blank_view(w: u32, h: u32) -> Seq<Pixl> {
    Seq::new((w * h) as nat, |i: int| white())
}

/// The grid after a clear: all white, whatever the grid held before.
pub open spec fn cleared_view(s: Seq<Pixl>, w: u32, h: u32) -> Seq<Pixl> {
    blank_view(w, h)
}

/// The grid after a bounds-safe write of `p` at `(x, y)`: updated at the
/// row-major index when `(x, y)` is in bounds, unchanged otherwise.
pub open spec fn put_view(s: Seq<Pixl>, w: u32, h: u32, x: u32, y: u32, p: Pixl) -> Seq<Pixl> {
    if x < w && y < h {
        s.update(y * w + x, p)
    } else {
        s
    }
}

/// A fixed-size two-dimensional grid of `Pixl` values, stored row-major:
/// the pixel at `(x, y)` sits at index `y * width + x`.
#[derive(Clone)]
pub struct Image {
    width: u32,
    height: u32,
    data: Vec<Pixl>,
}

impl View for Image {
    type V = Seq<Pixl>;

    closed spec fn view(&self) -> Seq<Pixl> {
        self.data@
    }
}

proof fn lemma_index_bound(w: int, h: int, x: int, y: int)
    requires
        0 <= x < w,
        0 <= y < h,
    ensures
        0 <= y * w + x < w * h,
{
    assert(y * w + x < w * h) by (nonlinear_arith)
        requires
            0 <= x < w,
            0 <= y < h,
    ;
    assert(0 <= y * w) by (nonlinear_arith)
        requires
            0 <= w,
            0 <= y,
    ;
}

impl Image {
    /// The width fixed at construction.
    pub closed spec fn spec_width(&self) -> u32 {
        self.width
    }

    /// The height fixed at construction.
    pub closed spec fn spec_height(&self) -> u32 {
        self.height
    }

    /// Well-formedness: the grid holds exactly `width * height` pixels.
    pub open spec fn wf(&self) -> bool {
        self@.len() == self.spec_width() * self.spec_height()
    }

    fn pixel_white() -> (p: Pixl)
        ensures
            p == white(),
    {
        Pixl::new(255, 255, 255)
    }

    /// A blank canvas: `w` by `h`, every pixel white. The product of the
    /// dimensions must fit the machine's address space.
    pub fn new(w: u32, h: u32) -> (img: Image)
        requires
            w * h <= usize::MAX,
        ensures
            img.wf(),
            img.spec_width() == w,
            img.spec_height() == h,
            img@ == blank_view(w, h),
    {
        let len: usize = (w as usize) * (h as usize);
        let mut data: Vec<Pixl> = Vec::with_capacity(len);
        let mut i: usize = 0;
        while i < len
            invariant
                i <= len,
                len == w * h,
                data@.len() == i,
                forall|j: int| 0 <= j < i ==> data@[j] == white(),
            decreases len - i,
        {
            data.push(Self::pixel_white());
            i = i + 1;
        }
        let img = Image { width: w, height: h, data };
        proof {
            assert(img@ =~= blank_view(w, h));
        }
        img
    }

    pub fn width(&self) -> (w: u32)
        ensures
            w == self.spec_width(),
    {
        self.width
    }

    pub fn height(&self) -> (h: u32)
        ensures
            h == self.spec_height(),
    {
        self.height
    }

    /// The pixel at `(x, y)`, which must be in bounds: out-of-bounds
    /// reads are excluded rather than given a default.
    pub fn get_pixel(&self, x: u32, y: u32) -> (p: Pixl)
        requires
            self.wf(),
            x < self.spec_width(),
            y < self.spec_height(),
        ensures
            p == self@[y * self.spec_width() + x],
    {
        // the grid length is a usize, so the flat index fits the address space
        let n: usize = self.data.len();
        proof {
            lemma_index_bound(self.width as int, self.height as int, x as int, y as int);
        }
        let idx: usize = (y as usize) * (self.width as usize) + (x as usize);
        self.data[idx]
    }

    /// Bounds-safe write: sets the pixel at `(x, y)`, or does nothing at
    /// all when `(x, y)` lies outside the grid.
    pub fn put_pixel(&mut self, x: u32, y: u32, p: Pixl)
        requires
            old(self).wf(),
        ensures
            final(self).wf(),
            final(self).spec_width() == old(self).spec_width(),
            final(self).spec_height() == old(self).spec_height(),
            final(self)@ == put_view(old(self)@, old(self).spec_width(), old(self).spec_height(), x, y, p),
    {
        if x < self.width && y < self.height {
            // the grid length is a usize, so the flat index fits the address space
            let n: usize = self.data.len();
            proof {
                lemma_index_bound(self.width as int, self.height as int, x as int, y as int);
            }
            let idx: usize = (y as usize) * (self.width as usize) + (x as usize);
            self.data.set(idx, p);
        }
    }

    /// The pixels in row-major scan order: left to right, then top to
    /// bottom. Consumes the canvas.
    pub fn pixels(self) -> (v: Vec<Pixl>)
        ensures
            v@ == self@,
    {
        self.data
    }

    /// Reset every pixel to white, keeping the dimensions.
    pub fn clear(&mut self)
        requires
            old(self).wf(),
        ensures
            final(self).wf(),
            final(self).spec_width() == old(self).spec_width(),
            final(self).spec_height() == old(self).spec_height(),
            final(self)@ == cleared_view(old(self)@, old(self).spec_width(), old(self).spec_height()),
            final(self)@ == blank_view(old(self).spec_width(), old(self).spec_height()),
    {
        let w: u32 = self.width;
        let h: u32 = self.height;
        // the grid length is a usize, so w * h fits the address space
        let n: usize = self.data.len();
        let fresh = Image::new(w, h);
        self.data = fresh.data;
    }
}

/// Every pixel of a freshly created blank canvas is white.
pub proof fn lemma_blank_white(w: u32, h: u32, x: u32, y: u32)
    requires
        x < w,
        y < h,
    ensures
        blank_view(w, h)[y * w + x] == white(),
{
    lemma_index_bound(w as int, h as int, x as int, y as int);
}

/// A bounds-safe write at an out-of-bounds coordinate leaves the grid
/// unchanged.
pub proof fn lemma_put_out_of_bounds(s: Seq<Pixl>, w: u32, h: u32, x: u32, y: u32, p: Pixl)
    requires
        x >= w || y >= h,
    ensures
        put_view(s, w, h, x, y, p) == s,
{
}

/// The flat row-major index `y * w + x` decomposes uniquely into its row
/// and column on a grid of width `w`.
proof fn lemma_flat_coords(w: int, x: int, y: int)
    requires
        0 < w,
        0 <= x < w,
        0 <= y,
    ensures
        (y * w + x) / w == y,
        (y * w + x) % w == x,
{
    vstd::arithmetic::div_mod::lemma_fundamental_div_mod_converse(y * w + x, w, y, x);
}

/// Distinct in-bounds coordinates have distinct flat row-major indices.
proof fn lemma_flat_index_injective(w: int, x1: int, y1: int, x2: int, y2: int)
    requires
        0 <= x1 < w,
        0 <= x2 < w,
        0 <= y1,
        0 <= y2,
        x1 != x2 || y1 != y2,
    ensures
        y1 * w + x1 != y2 * w + x2,
{
    if y1 * w + x1 == y2 * w + x2 {
        lemma_flat_coords(w, x1, y1);
        lemma_flat_coords(w, x2, y2);
    }
}

/// Whether drawing the filled circle centered at `(cx, cy)` with radius
/// `r` on a `w` by `h` grid writes the pixel at `(px, py)`: the
/// coordinate lies in the clipped bounding box
/// `[max(cx - r, 0), min(cx + r, w))` by `[max(cy - r, 0), min(cy + r, h))`
/// and its Euclidean distance from the center, truncated to an integer,
/// is at most `r` — which holds exactly when the squared distance is
/// below `(r + 1)²`.
pub open spec fn circle_covers(w: u32, h: u32, cx: u32, cy: u32, r: u32, px: int, py: int) -> bool {
    &&& 0 <= px && cx - r <= px && px < cx + r && px < w
    &&& 0 <= py && cy - r <= py && py < cy + r && py < h
    &&& (cy - py) * (cy - py) + (cx - px) * (cx - px) < (r + 1) * (r + 1)
}

/// The grid after drawing a filled circle: each covered pixel becomes
/// `p`; every other pixel is kept.
pub open spec fn filled_circle_view(
    s: Seq<Pixl>,
    w: u32,
    h: u32,
    cx: u32,
    cy: u32,
    r: u32,
    p: Pixl,
) -> Seq<Pixl> {
    Seq::new(
        s.len(),
        |i: int|
            if circle_covers(w, h, cx, cy, r, i % (w as int), i / (w as int)) {
                p
            } else {
                s[i]
            },
    )
}

/// Whether `s1` holds the right value at `(qx, qy)` partway through
/// drawing a filled circle over `s0`: covered pixels strictly before the
/// row-major scan position `(limx, limy)` already hold `p`, all others
/// still hold their `s0` value.
pub open spec fn filled_cell(
    s0: Seq<Pixl>,
    s1: Seq<Pixl>,
    w: u32,
    h: u32,
    cx: u32,
    cy: u32,
    r: u32,
    p: Pixl,
    limx: int,
    limy: int,
    qx: int,
    qy: int,
) -> bool {
    s1[qy * w + qx] == (if circle_covers(w, h, cx, cy, r, qx, qy) && (qy < limy || (qy == limy
        && qx < limx)) {
        p
    } else {
        s0[qy * w + qx]
    })
}

/// The drawing state partway through a filled circle: every in-bounds
/// coordinate holds its `filled_cell` value for the scan position
/// `(limx, limy)`.
pub open spec fn filled_upto(
    s0: Seq<Pixl>,
    s1: Seq<Pixl>,
    w: u32,
    h: u32,
    cx: u32,
    cy: u32,
    r: u32,
    p: Pixl,
    limx: int,
    limy: int,
) -> bool {
    forall|qx: int, qy: int|
        #![trigger filled_cell(s0, s1, w, h, cx, cy, r, p, limx, limy, qx, qy)]
        0 <= qx < w && 0 <= qy < h ==> filled_cell(s0, s1, w, h, cx, cy, r, p, limx, limy, qx, qy)
}

/// Before the first row of the clipped box, nothing is drawn yet.
proof fn lemma_filled_upto_start(
    s0: Seq<Pixl>,
    w: u32,
    h: u32,
    cx: u32,
    cy: u32,
    r: u32,
    p: Pixl,
    y_lo: int,
)
    requires
        y_lo == (if cy >= r {
            cy - r
        } else {
            0int
        }),
    ensures
        filled_upto(s0, s0, w, h, cx, cy, r, p, 0, y_lo),
{
    assert forall|qx: int, qy: int|
        0 <= qx < w && 0 <= qy < h implies filled_cell(s0, s0, w, h, cx, cy, r, p, 0, y_lo, qx, qy) by {
        // mention the covering term so the quantified hypotheses instantiate here
        let cov = circle_covers(w, h, cx, cy, r, qx, qy);
    }
}

/// At the start of a row, the scan position moves to the left edge of
/// the clipped box: no covered pixel of that row lies before it.
proof fn lemma_filled_upto_row_start(
    s0: Seq<Pixl>,
    s1: Seq<Pixl>,
    w: u32,
    h: u32,
    cx: u32,
    cy: u32,
    r: u32,
    p: Pixl,
    py: int,
    x_lo: int,
)
    requires
        x_lo == (if cx >= r {
            cx - r
        } else {
            0int
        }),
        filled_upto(s0, s1, w, h, cx, cy, r, p, 0, py),
    ensures
        filled_upto(s0, s1, w, h, cx, cy, r, p, x_lo, py),
{
    assert forall|qx: int, qy: int|
        0 <= qx < w && 0 <= qy < h implies filled_cell(s0, s1, w, h, cx, cy, r, p, x_lo, py, qx, qy) by {
        // mention the covering term so the quantified hypotheses instantiate here
        let cov = circle_covers(w, h, cx, cy, r, qx, qy);
        assert(filled_cell(s0, s1, w, h, cx, cy, r, p, 0, py, qx, qy));
    }
}

/// Writing `p` at a covered scan position advances the position by one.
proof fn lemma_filled_upto_step_write(
    s0: Seq<Pixl>,
    s1: Seq<Pixl>,
    s2: Seq<Pixl>,
    w: u32,
    h: u32,
    cx: u32,
    cy: u32,
    r: u32,
    p: Pixl,
    px: int,
    py: int,
    nx: int,
)
    requires
        0 <= px < w,
        0 <= py < h,
        nx == px + 1,
        s1.len() == w * h,
        filled_upto(s0, s1, w, h, cx, cy, r, p, px, py),
        circle_covers(w, h, cx, cy, r, px, py),
        s2 == s1.update(py * w + px, p),
    ensures
        filled_upto(s0, s2, w, h, cx, cy, r, p, nx, py),
{
    lemma_index_bound(w as int, h as int, px, py);
    assert forall|qx: int, qy: int|
        0 <= qx < w && 0 <= qy < h implies filled_cell(s0, s2, w, h, cx, cy, r, p, nx, py, qx, qy) by {
        // mention the covering term so the quantified hypotheses instantiate here
        let cov = circle_covers(w, h, cx, cy, r, qx, qy);
        lemma_index_bound(w as int, h as int, qx, qy);
        assert(filled_cell(s0, s1, w, h, cx, cy, r, p, px, py, qx, qy));
        if qx != px || qy != py {
            lemma_flat_index_injective(w as int, qx, qy, px, py);
            assert(s2[qy * w + qx] == s1[qy * w + qx]);
        } else {
            assert(s2[qy * w + qx] == p);
        }
    }
}

/// Passing over an uncovered scan position advances it by one with no
/// change to the grid.
proof fn lemma_filled_upto_step_skip(
    s0: Seq<Pixl>,
    s1: Seq<Pixl>,
    w: u32,
    h: u32,
    cx: u32,
    cy: u32,
    r: u32,
    p: Pixl,
    px: int,
    py: int,
    nx: int,
)
    requires
        0 <= px < w,
        0 <= py < h,
        nx == px + 1,
        filled_upto(s0, s1, w, h, cx, cy, r, p, px, py),
        !circle_covers(w, h, cx, cy, r, px, py),
    ensures
        filled_upto(s0, s1, w, h, cx, cy, r, p, nx, py),
{
    assert forall|qx: int, qy: int|
        0 <= qx < w && 0 <= qy < h implies filled_cell(s0, s1, w, h, cx, cy, r, p, nx, py, qx, qy) by {
        // mention the covering term so the quantified hypotheses instantiate here
        let cov = circle_covers(w, h, cx, cy, r, qx, qy);
        assert(filled_cell(s0, s1, w, h, cx, cy, r, p, px, py, qx, qy));
    }
}

/// Past the right edge of the clipped box the row is complete, and the
/// scan position moves to the start of the next row.
proof fn lemma_filled_upto_row_end(
    s0: Seq<Pixl>,
    s1: Seq<Pixl>,
    w: u32,
    h: u32,
    cx: u32,
    cy: u32,
    r: u32,
    p: Pixl,
    px: int,
    py: int,
    x_hi: int,
    ny: int,
)
    requires
        x_hi == (if cx + r < w {
            cx + r
        } else {
            w as int
        }),
        px >= x_hi,
        ny == py + 1,
        filled_upto(s0, s1, w, h, cx, cy, r, p, px, py),
    ensures
        filled_upto(s0, s1, w, h, cx, cy, r, p, 0, ny),
{
    assert forall|qx: int, qy: int|
        0 <= qx < w && 0 <= qy < h implies filled_cell(s0, s1, w, h, cx, cy, r, p, 0, ny, qx, qy) by {
        // mention the covering term so the quantified hypotheses instantiate here
        let cov = circle_covers(w, h, cx, cy, r, qx, qy);
        assert(filled_cell(s0, s1, w, h, cx, cy, r, p, px, py, qx, qy));
    }
}

/// Past the last row of the clipped box the drawing is complete: every
/// covered pixel holds `p` and every other pixel is unchanged.
proof fn lemma_filled_upto_done(
    s0: Seq<Pixl>,
    s1: Seq<Pixl>,
    w: u32,
    h: u32,
    cx: u32,
    cy: u32,
    r: u32,
    p: Pixl,
    py: int,
    y_hi: int,
)
    requires
        y_hi == (if cy + r < h {
            cy + r
        } else {
            h as int
        }),
        py >= y_hi,
        filled_upto(s0, s1, w, h, cx, cy, r, p, 0, py),
    ensures
        forall|qx: int, qy: int|
            #![trigger circle_covers(w, h, cx, cy, r, qx, qy)]
            0 <= qx < w && 0 <= qy < h ==> s1[qy * w + qx] == (if circle_covers(
                w,
                h,
                cx,
                cy,
                r,
                qx,
                qy,
            ) {
                p
            } else {
                s0[qy * w + qx]
            }),
{
    assert forall|qx: int, qy: int|
        #![trigger circle_covers(w, h, cx, cy, r, qx, qy)]
        0 <= qx < w && 0 <= qy < h implies s1[qy * w + qx] == (if circle_covers(w, h, cx, cy, r, qx, qy) {
        p
    } else {
        s0[qy * w + qx]
    }) by {
        assert(filled_cell(s0, s1, w, h, cx, cy, r, p, 0, py, qx, qy));
    }
}

/// A grid that agrees with `filled_circle_view` at every coordinate is
/// that view: the flat index of each position decomposes uniquely.
proof fn lemma_pointwise_is_filled_circle(
    s0: Seq<Pixl>,
    s1: Seq<Pixl>,
    w: u32,
    h: u32,
    cx: u32,
    cy: u32,
    r: u32,
    p: Pixl,
)
    requires
        s0.len() == w * h,
        s1.len() == w * h,
        forall|px: int, py: int|
            #![trigger circle_covers(w, h, cx, cy, r, px, py)]
            0 <= px < w && 0 <= py < h ==> s1[py * w + px] == (if circle_covers(
                w,
                h,
                cx,
                cy,
                r,
                px,
                py,
            ) {
                p
            } else {
                s0[py * w + px]
            }),
    ensures
        s1 == filled_circle_view(s0, w, h, cx, cy, r, p),
{
    let view = filled_circle_view(s0, w, h, cx, cy, r, p);
    assert forall|i: int| 0 <= i < s1.len() implies s1[i] == view[i] by {
        let wi: int = w as int;
        let hi: int = h as int;
        assert(0 < wi && 0 < hi) by (nonlinear_arith)
            requires
                0 <= wi,
                0 <= hi,
                0 <= i < wi * hi,
        ;
        let qx: int = i % wi;
        let qy: int = i / wi;
        // mention the covering term so the quantified hypotheses instantiate here
        let cov = circle_covers(w, h, cx, cy, r, qx, qy);
        vstd::arithmetic::div_mod::lemma_mod_bound(i, wi);
        vstd::arithmetic::div_mod::lemma_fundamental_div_mod(i, wi);
        vstd::arithmetic::div_mod::lemma_div_pos_is_pos(i, wi);
        assert(qy < hi) by (nonlinear_arith)
            requires
                i == wi * qy + qx,
                0 <= qx,
                0 <= qy,
                0 < wi,
                i < wi * hi,
        ;
        assert(qy * wi + qx == i);
        assert(s1[qy * wi + qx] == (if circle_covers(w, h, cx, cy, r, qx, qy) {
            p
        } else {
            s0[qy * wi + qx]
        }));
    }
    assert(s1 =~= view);
}

/// The grid after color-keyed recoloring: every pixel whose red channel
/// is zero is replaced by `c`; every other pixel is kept.
pub open spec fn recolored_view(s: Seq<Pixl>, c: Pixl) -> Seq<Pixl> {
    Seq::new(s.len(), |i: int| if s[i].r == 0 { c } else { s[i] })
}

impl Image {
    /// Replace every pixel whose red channel is zero by `color`, given as
    /// its three channel values. The key looks at the red channel alone:
    /// a pixel with red zero but nonzero green or blue is recolored too.
    pub fn set_color(&mut self, color: &[u8; 3])
        requires
            old(self).wf(),
        ensures
            final(self).wf(),
            final(self).spec_width() == old(self).spec_width(),
            final(self).spec_height() == old(self).spec_height(),
            final(self)@ == recolored_view(old(self)@, (Pixl { r: color[0], g: color[1], b: color[2] })),
    {
        let c = Pixl::new(color[0], color[1], color[2]);
        let n: usize = self.data.len();
        let mut i: usize = 0;
        while i < n
            invariant
                i <= n,
                n == self.data@.len(),
                self.width == old(self).width,
                self.height == old(self).height,
                self.data@.len() == old(self).data@.len(),
                c == (Pixl { r: color[0], g: color[1], b: color[2] }),
                forall|j: int| 0 <= j < i ==> self.data@[j] == recolored_view(old(self)@, c)[j],
                forall|j: int| i <= j < n ==> self.data@[j] == old(self)@[j],
            decreases n - i,
        {
            if self.data[i].r == 0 {
                self.data.set(i, c);
            }
            i = i + 1;
        }
        proof {
            assert(self@ =~= recolored_view(old(self)@, c));
        }
    }

    /// Draw a filled circle centered at `(x, y)` with radius `r` in
    /// color `p`. Every pixel of the clipped bounding box whose
    /// truncated Euclidean distance from the center is at most `r` is
    /// written through the bounds-safe put; the rest of the grid is
    /// untouched. The box's upper edges are exclusive, so a radius of
    /// zero draws nothing.
    pub fn fill_circle(&mut self, x: u32, y: u32, r: u32, p: Pixl)
        requires
            old(self).wf(),
        ensures
            final(self).wf(),
            final(self).spec_width() == old(self).spec_width(),
            final(self).spec_height() == old(self).spec_height(),
            forall|px: int, py: int|
                #![trigger circle_covers(old(self).spec_width(), old(self).spec_height(), x, y, r, px, py)]
                0 <= px < old(self).spec_width() && 0 <= py < old(self).spec_height()
                    ==> final(self)@[py * old(self).spec_width() + px] == (if circle_covers(
                    old(self).spec_width(),
                    old(self).spec_height(),
                    x,
                    y,
                    r,
                    px,
                    py,
                ) {
                    p
                } else {
                    old(self)@[py * old(self).spec_width() + px]
                }),
            final(self)@ == filled_circle_view(
                old(self)@,
                old(self).spec_width(),
                old(self).spec_height(),
                x,
                y,
                r,
                p,
            ),
    {
        let w: u32 = self.width;
        let h: u32 = self.height;
        let y_lo: u32 = if y > r {
            y - r
        } else {
            0
        };
        let y_hi: u32 = if (y as u64) + (r as u64) < (h as u64) {
            y + r
        } else {
            h
        };
        let x_lo: u32 = if x > r {
            x - r
        } else {
            0
        };
        let x_hi: u32 = if (x as u64) + (r as u64) < (w as u64) {
            x + r
        } else {
            w
        };
        proof {
            assert(((r as u128) + 1) * ((r as u128) + 1) <= u128::MAX) by (nonlinear_arith)
                requires
                    r <= u32::MAX,
            ;
            lemma_filled_upto_start(old(self)@, w, h, x, y, r, p, y_lo as int);
        }
        let rr: u128 = ((r as u128) + 1) * ((r as u128) + 1);
        let mut py: u32 = y_lo;
        while py < y_hi
            invariant
                self.wf(),
                self.width == w,
                self.height == h,
                w == old(self).spec_width(),
                h == old(self).spec_height(),
                self@.len() == old(self)@.len(),
                y_lo <= py,
                py <= y_hi || py == y_lo,
                (y_lo as int) == (if y >= r {
                    y - r
                } else {
                    0int
                }),
                (y_hi as int) == (if y + r < h {
                    y + r
                } else {
                    h as int
                }),
                (x_lo as int) == (if x >= r {
                    x - r
                } else {
                    0int
                }),
                (x_hi as int) == (if x + r < w {
                    x + r
                } else {
                    w as int
                }),
                rr == ((r as int) + 1) * ((r as int) + 1),
                filled_upto(old(self)@, self@, w, h, x, y, r, p, 0, py as int),
            decreases y_hi - py,
        {
            proof {
                lemma_filled_upto_row_start(
                    old(self)@,
                    self@,
                    w,
                    h,
                    x,
                    y,
                    r,
                    p,
                    py as int,
                    x_lo as int,
                );
            }
            let mut px: u32 = x_lo;
            while px < x_hi
                invariant
                    self.wf(),
                    self.width == w,
                    self.height == h,
                    w == old(self).spec_width(),
                    h == old(self).spec_height(),
                    self@.len() == old(self)@.len(),
                    y_lo <= py < y_hi,
                    x_lo <= px,
                    px <= x_hi || px == x_lo,
                    (y_lo as int) == (if y >= r {
                        y - r
                    } else {
                        0int
                    }),
                    (y_hi as int) == (if y + r < h {
                        y + r
                    } else {
                        h as int
                    }),
                    (x_lo as int) == (if x >= r {
                        x - r
                    } else {
                        0int
                    }),
                    (x_hi as int) == (if x + r < w {
                        x + r
                    } else {
                        w as int
                    }),
                    rr == ((r as int) + 1) * ((r as int) + 1),
                    filled_upto(old(self)@, self@, w, h, x, y, r, p, px as int, py as int),
                decreases x_hi - px,
            {
                let ghost prev = self@;
                let d2: u128 = (abs_diff_sq(y, py) as u128) + (abs_diff_sq(x, px) as u128);
                let wrote = d2 < rr;
                if wrote {
                    self.put_pixel(px, py, p);
                }
                proof {
                    lemma_index_bound(w as int, h as int, px as int, py as int);
                    if wrote {
                        assert(circle_covers(w, h, x, y, r, px as int, py as int));
                        assert(self@ == prev.update((py as int) * (w as int) + (px as int), p));
                        lemma_filled_upto_step_write(
                            old(self)@,
                            prev,
                            self@,
                            w,
                            h,
                            x,
                            y,
                            r,
                            p,
                            px as int,
                            py as int,
                            px as int + 1,
                        );
                    } else {
                        assert(!circle_covers(w, h, x, y, r, px as int, py as int));
                        lemma_filled_upto_step_skip(
                            old(self)@,
                            self@,
                            w,
                            h,
                            x,
                            y,
                            r,
                            p,
                            px as int,
                            py as int,
                            px as int + 1,
                        );
                    }
                }
                px = px + 1;
            }
            proof {
                lemma_filled_upto_row_end(
                    old(self)@,
                    self@,
                    w,
                    h,
                    x,
                    y,
                    r,
                    p,
                    px as int,
                    py as int,
                    x_hi as int,
                    py as int + 1,
                );
            }
            py = py + 1;
        }
        proof {
            lemma_filled_upto_done(old(self)@, self@, w, h, x, y, r, p, py as int, y_hi as int);
            lemma_pointwise_is_filled_circle(old(self)@, self@, w, h, x, y, r, p);
        }
    }

    /// Composite `other` onto this canvas with its top-left corner at
    /// `(x, y)`: every pixel of `other` is written through the
    /// bounds-safe put, so parts that fall outside this canvas clip away
    /// silently.
    pub fn add_image(&mut self, x: u32, y: u32, other: &Image)
        requires
            old(self).wf(),
            other.wf(),
        ensures
            final(self).wf(),
            final(self).spec_width() == old(self).spec_width(),
            final(self).spec_height() == old(self).spec_height(),
            final(self)@ == composited_view(
                old(self)@,
                old(self).spec_width(),
                x,
                y,
                other@,
                other.spec_width(),
                other.spec_height(),
            ),
    {
        let dw: u32 = self.width;
        let dh: u32 = self.height;
        let sw: u32 = other.width;
        let sh: u32 = other.height;
        proof {
            lemma_composite_start(old(self)@, dw, dh, x, y, other@, sw, sh);
        }
        let mut iy: u32 = 0;
        while iy < sh
            invariant
                self.wf(),
                other.wf(),
                self.width == dw,
                self.height == dh,
                other.spec_width() == sw,
                other.spec_height() == sh,
                dw == old(self).spec_width(),
                dh == old(self).spec_height(),
                self@.len() == old(self)@.len(),
                iy <= sh,
                composite_upto(old(self)@, self@, dw, dh, x, y, other@, sw, sh, 0, iy as int),
            decreases sh - iy,
        {
            let mut ix: u32 = 0;
            while ix < sw
                invariant
                    self.wf(),
                    other.wf(),
                    self.width == dw,
                    self.height == dh,
                    other.spec_width() == sw,
                    other.spec_height() == sh,
                    dw == old(self).spec_width(),
                    dh == old(self).spec_height(),
                    self@.len() == old(self)@.len(),
                    iy < sh,
                    ix <= sw,
                    composite_upto(
                        old(self)@,
                        self@,
                        dw,
                        dh,
                        x,
                        y,
                        other@,
                        sw,
                        sh,
                        ix as int,
                        iy as int,
                    ),
                decreases sw - ix,
            {
                let ghost prev = self@;
                let v = other.get_pixel(ix, iy);
                let tx: u64 = (x as u64) + (ix as u64);
                let ty: u64 = (y as u64) + (iy as u64);
                if tx < (dw as u64) && ty < (dh as u64) {
                    self.put_pixel(tx as u32, ty as u32, v);
                }
                proof {
                    lemma_index_bound(sw as int, sh as int, ix as int, iy as int);
                    if x + ix < dw && y + iy < dh {
                        lemma_index_bound(dw as int, dh as int, x as int + ix, y as int + iy);
                        assert(self@ == prev.update((y + iy) * dw + (x + ix), other@[iy * sw + ix]));
                    } else {
                        assert(self@ == prev);
                    }
                    lemma_composite_step(
                        old(self)@,
                        prev,
                        self@,
                        dw,
                        dh,
                        x,
                        y,
                        other@,
                        sw,
                        sh,
                        ix as int,
                        iy as int,
                        ix as int + 1,
                    );
                }
                ix = ix + 1;
            }
            proof {
                lemma_composite_row_end(
                    old(self)@,
                    self@,
                    dw,
                    dh,
                    x,
                    y,
                    other@,
                    sw,
                    sh,
                    iy as int,
                    iy as int + 1,
                );
            }
            iy = iy + 1;
        }
        proof {
            lemma_composite_done(old(self)@, self@, dw, dh, x, y, other@, sw, sh);
        }
    }

    /// Decode an encoded image byte buffer into a canvas. Returns
    /// `None` exactly when the external codec cannot decode the bytes;
    /// on success any alpha or other extra channels are dropped and the
    /// three RGB channels are kept.
    pub fn from_png(v: Vec<u8>) -> (r: Option<Image>)
        ensures
            match r {
                Some(img) => crate::codec::png_decode_rgb(v@) matches Some(t) && img.wf()
                    && img.spec_width() == t.0 && img.spec_height() == t.1 && img@
                    == pixels_of_bytes(t.2),
                None => crate::codec::png_decode_rgb(v@) is None,
            },
    {
        match crate::codec::decode_rgb_image(&v) {
            None => None,
            Some((w, h, raw)) => Some(Image::from_raw(w, h, raw)),
        }
    }

    /// Build a canvas from decoded dimensions and a flat row-major RGB
    /// byte buffer holding exactly three bytes per pixel.
    fn from_raw(w: u32, h: u32, raw: Vec<u8>) -> (img: Image)
        requires
            raw@.len() == 3 * (w as int) * (h as int),
        ensures
            img.wf(),
            img.spec_width() == w,
            img.spec_height() == h,
            img@ == pixels_of_bytes(raw@),
    {
        let n: usize = raw.len();
        let count: usize = n / 3;
        proof {
            vstd::arithmetic::div_mod::lemma_div_multiples_vanish(
                (w as int) * (h as int),
                3,
            );
            assert(3 * ((w as int) * (h as int)) == 3 * (w as int) * (h as int))
                by (nonlinear_arith);
            assert(count == (w as int) * (h as int));
        }
        let mut data: Vec<Pixl> = Vec::with_capacity(count);
        let mut i: usize = 0;
        while i < count
            invariant
                i <= count,
                3 * count == raw@.len(),
                3 * count <= usize::MAX,
                data@.len() == i,
                forall|j: int| 0 <= j < i ==> data@[j] == pixels_of_bytes(raw@)[j],
            decreases count - i,
        {
            let p = Pixl::new(raw[3 * i], raw[3 * i + 1], raw[3 * i + 2]);
            data.push(p);
            i = i + 1;
        }
        let img = Image { width: w, height: h, data };
        proof {
            assert(img@ =~= pixels_of_bytes(raw@));
        }
        img
    }

    /// Encode the canvas as PNG bytes through the external encoder: the
    /// grid flattened to interleaved 8-bit RGB bytes, row-major.
    /// Returns `None` exactly when the encoder fails. The flattened
    /// buffer must fit the machine's address space.
    pub fn as_png(&self) -> (r: Option<Vec<u8>>)
        requires
            self.wf(),
            3 * self@.len() <= usize::MAX,
        ensures
            match r {
                Some(v) => crate::codec::png_encode_rgb(
                    bytes_of_pixels(self@),
                    self.spec_width() as int,
                    self.spec_height() as int,
                ) == Some(v@),
                None => crate::codec::png_encode_rgb(
                    bytes_of_pixels(self@),
                    self.spec_width() as int,
                    self.spec_height() as int,
                ) is None,
            },
    {
        let n: usize = self.data.len();
        let mut raw: Vec<u8> = Vec::with_capacity(3 * n);
        let mut i: usize = 0;
        while i < n
            invariant
                i <= n,
                n == self@.len(),
                3 * n <= usize::MAX,
                raw@.len() == 3 * i,
                forall|j: int| 0 <= j < 3 * i ==> raw@[j] == bytes_of_pixels(self@)[j],
            decreases n - i,
        {
            let p = self.data[i];
            raw.push(p.r);
            raw.push(p.g);
            raw.push(p.b);
            i = i + 1;
        }
        proof {
            assert(raw@ =~= bytes_of_pixels(self@));
            assert(3 * ((self.width as int) * (self.height as int)) == 3 * (self.width as int) * (
            self.height as int)) by (nonlinear_arith);
        }
        crate::codec::encode_rgb_png(&raw, self.width as usize, self.height as usize)
    }
}

/// Whether destination grid `d1` holds the right value at `(qx, qy)`
/// partway through compositing `s` (a `sw` by `sh` grid) at offset
/// `(x, y)` over `d0`: source pixels strictly before the row-major scan
/// position `(limx, limy)` have been copied, everything else still
/// holds its `d0` value.
pub open spec fn composite_cell(
    d0: Seq<Pixl>,
    d1: Seq<Pixl>,
    dw: u32,
    x: u32,
    y: u32,
    s: Seq<Pixl>,
    sw: u32,
    sh: u32,
    limx: int,
    limy: int,
    qx: int,
    qy: int,
) -> bool {
    d1[qy * dw + qx] == (if x <= qx < x + sw && y <= qy < y + sh && ((qy - y) < limy || ((qy - y)
        == limy && (qx - x) < limx)) {
        s[(qy - y) * sw + (qx - x)]
    } else {
        d0[qy * dw + qx]
    })
}

/// The state partway through a composite: every in-bounds destination
/// coordinate holds its `composite_cell` value for the source scan
/// position `(limx, limy)`.
pub open spec fn composite_upto(
    d0: Seq<Pixl>,
    d1: Seq<Pixl>,
    dw: u32,
    dh: u32,
    x: u32,
    y: u32,
    s: Seq<Pixl>,
    sw: u32,
    sh: u32,
    limx: int,
    limy: int,
) -> bool {
    forall|qx: int, qy: int|
        #![trigger composite_cell(d0, d1, dw, x, y, s, sw, sh, limx, limy, qx, qy)]
        0 <= qx < dw && 0 <= qy < dh ==> composite_cell(d0, d1, dw, x, y, s, sw, sh, limx, limy, qx, qy)
}

/// The grid after compositing `s` (a `sw` by `sh` grid) at offset
/// `(x, y)` onto `d`: inside the overlap each pixel comes from `s`,
/// outside it the pixel of `d` is kept. Off-grid parts of `s` clip away
/// silently.
pub open spec fn composited_view(
    d: Seq<Pixl>,
    dw: u32,
    x: u32,
    y: u32,
    s: Seq<Pixl>,
    sw: u32,
    sh: u32,
) -> Seq<Pixl> {
    Seq::new(
        d.len(),
        |i: int|
            {
                let qx = i % (dw as int);
                let qy = i / (dw as int);
                if x <= qx < x + sw && y <= qy < y + sh {
                    s[(qy - y) * sw + (qx - x)]
                } else {
                    d[i]
                }
            },
    )
}

/// Before the first source row, nothing has been copied.
proof fn lemma_composite_start(
    d0: Seq<Pixl>,
    dw: u32,
    dh: u32,
    x: u32,
    y: u32,
    s: Seq<Pixl>,
    sw: u32,
    sh: u32,
)
    ensures
        composite_upto(d0, d0, dw, dh, x, y, s, sw, sh, 0, 0),
{
    assert forall|qx: int, qy: int|
        0 <= qx < dw && 0 <= qy < dh implies composite_cell(d0, d0, dw, x, y, s, sw, sh, 0, 0, qx, qy) by {}
}

/// Copying one source pixel advances the scan position by one column.
/// A target outside the destination clips away: the grid is unchanged.
proof fn lemma_composite_step(
    d0: Seq<Pixl>,
    d1: Seq<Pixl>,
    d2: Seq<Pixl>,
    dw: u32,
    dh: u32,
    x: u32,
    y: u32,
    s: Seq<Pixl>,
    sw: u32,
    sh: u32,
    ix: int,
    iy: int,
    nx: int,
)
    requires
        0 <= ix < sw,
        0 <= iy < sh,
        nx == ix + 1,
        d1.len() == dw * dh,
        composite_upto(d0, d1, dw, dh, x, y, s, sw, sh, ix, iy),
        x + ix < dw && y + iy < dh ==> d2 == d1.update((y + iy) * dw + (x + ix), s[iy * sw + ix]),
        !(x + ix < dw && y + iy < dh) ==> d2 == d1,
    ensures
        composite_upto(d0, d2, dw, dh, x, y, s, sw, sh, nx, iy),
{
    assert forall|qx: int, qy: int|
        0 <= qx < dw && 0 <= qy < dh implies composite_cell(d0, d2, dw, x, y, s, sw, sh, nx, iy, qx, qy) by {
        assert(composite_cell(d0, d1, dw, x, y, s, sw, sh, ix, iy, qx, qy));
        lemma_index_bound(dw as int, dh as int, qx, qy);
        if x + ix < dw && y + iy < dh {
            lemma_index_bound(dw as int, dh as int, x + ix, y + iy);
            if qx != x + ix || qy != y + iy {
                lemma_flat_index_injective(dw as int, qx, qy, x + ix, y + iy);
                assert(d2[qy * dw + qx] == d1[qy * dw + qx]);
            } else {
                assert(d2[qy * dw + qx] == s[iy * sw + ix]);
            }
        }
    }
}

/// Past the last column of a source row, the scan position moves to the
/// start of the next source row.
proof fn lemma_composite_row_end(
    d0: Seq<Pixl>,
    d1: Seq<Pixl>,
    dw: u32,
    dh: u32,
    x: u32,
    y: u32,
    s: Seq<Pixl>,
    sw: u32,
    sh: u32,
    iy: int,
    ny: int,
)
    requires
        ny == iy + 1,
        composite_upto(d0, d1, dw, dh, x, y, s, sw, sh, sw as int, iy),
    ensures
        composite_upto(d0, d1, dw, dh, x, y, s, sw, sh, 0, ny),
{
    assert forall|qx: int, qy: int|
        0 <= qx < dw && 0 <= qy < dh implies composite_cell(d0, d1, dw, x, y, s, sw, sh, 0, ny, qx, qy) by {
        assert(composite_cell(d0, d1, dw, x, y, s, sw, sh, sw as int, iy, qx, qy));
    }
}

/// Past the last source row the composite is complete: the grid is the
/// composited view.
proof fn lemma_composite_done(
    d0: Seq<Pixl>,
    d1: Seq<Pixl>,
    dw: u32,
    dh: u32,
    x: u32,
    y: u32,
    s: Seq<Pixl>,
    sw: u32,
    sh: u32,
)
    requires
        d0.len() == dw * dh,
        d1.len() == dw * dh,
        composite_upto(d0, d1, dw, dh, x, y, s, sw, sh, 0, sh as int),
    ensures
        d1 == composited_view(d0, dw, x, y, s, sw, sh),
{
    let view = composited_view(d0, dw, x, y, s, sw, sh);
    assert forall|i: int| 0 <= i < d1.len() implies d1[i] == view[i] by {
        let dwi: int = dw as int;
        let dhi: int = dh as int;
        assert(0 < dwi && 0 < dhi) by (nonlinear_arith)
            requires
                0 <= dwi,
                0 <= dhi,
                0 <= i < dwi * dhi,
        ;
        let qx: int = i % dwi;
        let qy: int = i / dwi;
        vstd::arithmetic::div_mod::lemma_mod_bound(i, dwi);
        vstd::arithmetic::div_mod::lemma_fundamental_div_mod(i, dwi);
        vstd::arithmetic::div_mod::lemma_div_pos_is_pos(i, dwi);
        assert(qy < dhi) by (nonlinear_arith)
            requires
                i == dwi * qy + qx,
                0 <= qx,
                0 <= qy,
                0 < dwi,
                i < dwi * dhi,
        ;
        assert(qy * dwi + qx == i);
        assert(composite_cell(d0, d1, dw, x, y, s, sw, sh, 0, sh as int, qx, qy));
    }
    assert(d1 =~= view);
}

/// The square of the distance between two channel coordinates:
/// `(a - b)²`, computed without overflow whatever the order of `a` and
/// `b`.
fn abs_diff_sq(a: u32, b: u32) -> (sq: u64)
    ensures
        sq == (a - b) * (a - b),
{
    let d: u32 = if a >= b {
        a - b
    } else {
        b - a
    };
    proof {
        assert((d as u64) * (d as u64) <= u64::MAX) by (nonlinear_arith)
            requires
                d <= u32::MAX,
        ;
        assert((d as int) * (d as int) == ((a as int) - (b as int)) * ((a as int) - (b as int)))
            by (nonlinear_arith)
            requires
                d == a - b || d == b - a,
        ;
    }
    (d as u64) * (d as u64)
}

/// The pixel grid read from a flat row-major RGB byte buffer: one
/// pixel from every three bytes, in buffer order.
pub open spec fn pixels_of_bytes(bytes: Seq<u8>) -> Seq<Pixl> {
    Seq::new(
        bytes.len() / 3,
        |i: int| Pixl { r: bytes[3 * i], g: bytes[3 * i + 1], b: bytes[3 * i + 2] },
    )
}

/// The flat row-major RGB byte buffer of a pixel grid: three bytes per
/// pixel, interleaved R, G, B.
pub open spec fn bytes_of_pixels(s: Seq<Pixl>) -> Seq<u8> {
    Seq::new(
        3 * s.len(),
        |i: int|
            {
                let p = s[i / 3];
                if i % 3 == 0 {
                    p.r
                } else if i % 3 == 1 {
                    p.g
                } else {
                    p.b
                }
            },
    )
}

/// A filled circle of radius zero draws nothing: its clipped bounding
/// box `[cx, cx)` by `[cy, cy)` is empty, so the grid is unchanged.
pub proof fn lemma_fill_circle_radius_zero(s: Seq<Pixl>, w: u32, h: u32, cx: u32, cy: u32, p: Pixl)
    ensures
        filled_circle_view(s, w, h, cx, cy, 0, p) == s,
{
    assert forall|i: int| 0 <= i < s.len() implies filled_circle_view(s, w, h, cx, cy, 0, p)[i]
        == s[i] by {
        // mention the covering term so its definition unfolds here
        let cov = circle_covers(w, h, cx, cy, 0, i % (w as int), i / (w as int));
    }
    assert(filled_circle_view(s, w, h, cx, cy, 0, p) =~= s);
}

/// Drawing a filled circle and then clearing yields a grid identical to
/// a freshly created blank canvas of the same dimensions: the cleared
/// grid depends only on the dimensions, never on what was drawn.
pub proof fn lemma_fill_then_clear(s: Seq<Pixl>, w: u32, h: u32, cx: u32, cy: u32, r: u32, p: Pixl)
    requires
        s.len() == w * h,
    ensures
        filled_circle_view(s, w, h, cx, cy, r, p).len() == w * h,
        cleared_view(filled_circle_view(s, w, h, cx, cy, r, p), w, h) == blank_view(w, h),
{
}

/// Compositing a grid at the origin onto a blank canvas of the same
/// dimensions reproduces the source pixel for pixel.
pub proof fn lemma_composite_identity(s: Seq<Pixl>, w: u32, h: u32)
    requires
        s.len() == w * h,
    ensures
        composited_view(blank_view(w, h), w, 0, 0, s, w, h) == s,
{
    let d = blank_view(w, h);
    let view = composited_view(d, w, 0, 0, s, w, h);
    assert forall|i: int| 0 <= i < view.len() implies view[i] == s[i] by {
        let wi: int = w as int;
        let hi: int = h as int;
        assert(0 < wi && 0 < hi) by (nonlinear_arith)
            requires
                0 <= wi,
                0 <= hi,
                0 <= i < wi * hi,
        ;
        let qx: int = i % wi;
        let qy: int = i / wi;
        vstd::arithmetic::div_mod::lemma_mod_bound(i, wi);
        vstd::arithmetic::div_mod::lemma_fundamental_div_mod(i, wi);
        vstd::arithmetic::div_mod::lemma_div_pos_is_pos(i, wi);
        assert(qy < hi) by (nonlinear_arith)
            requires
                i == wi * qy + qx,
                0 <= qx,
                0 <= qy,
                0 < wi,
                i < wi * hi,
        ;
        assert(qy * wi + qx == i) by (nonlinear_arith)
            requires
                i == wi * qy + qx,
        ;
    }
    assert(view =~= s);
}

/// Flattening a pixel grid to interleaved RGB bytes and reading those
/// bytes back as pixels reproduces the grid exactly. This is the
/// library's side of the codec round trip: what `as_png` hands the
/// encoder and what `from_png` reads from the decoder's output are
/// inverse conversions. What the codecs themselves do with the bytes is
/// theirs alone and is not stated here.
pub proof fn lemma_bytes_pixels_round_trip(s: Seq<Pixl>)
    ensures
        pixels_of_bytes(bytes_of_pixels(s)) == s,
{
    let bytes = bytes_of_pixels(s);
    vstd::arithmetic::div_mod::lemma_div_multiples_vanish(s.len() as int, 3);
    assert(bytes.len() / 3 == s.len());
    assert forall|i: int| 0 <= i < s.len() implies pixels_of_bytes(bytes)[i] == s[i] by {
        vstd::arithmetic::div_mod::lemma_fundamental_div_mod_converse(3 * i, 3, i, 0);
        vstd::arithmetic::div_mod::lemma_fundamental_div_mod_converse(3 * i + 1, 3, i, 1);
        vstd::arithmetic::div_mod::lemma_fundamental_div_mod_converse(3 * i + 2, 3, i, 2);
        assert(bytes[3 * i] == s[i].r);
        assert(bytes[3 * i + 1] == s[i].g);
        assert(bytes[3 * i + 2] == s[i].b);
    }
    assert(pixels_of_bytes(bytes) =~= s);
}

} // verus!